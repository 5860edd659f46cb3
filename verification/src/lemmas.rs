//! What holds of the translation as a whole: facts that relate the
//! grammar, the splitting, the filtering and the joining to each other.

use vstd::prelude::*;
use crate::token::{
    direction_keyword, fragment_spec, is_field_char, is_field_name, leading_sign_len,
    nulls_keyword, parse_token_spec, token_field, trailing_sign_len, Direction, NullsPlacement,
    SortKey,
};
use crate::translate::{
    accepted_fragments, join_with, lemma_accepted_fragments_push, split_commas, token_fragment,
    translate_spec,
};

verus! {

/// No character of `s` is a comma.
pub open spec fn comma_free(s: Seq<char>) -> bool {
    forall|j: int| 0 <= j < s.len() ==> #[trigger] s[j] != ','
}

/// A leading sign of the grammar: nothing, `+` or `-`.
pub open spec fn is_leading_sign(s: Seq<char>) -> bool {
    s =~= Seq::<char>::empty() || s =~= seq!['+'] || s =~= seq!['-']
}

/// A trailing sign of the grammar: nothing or `-`.
pub open spec fn is_trailing_sign(s: Seq<char>) -> bool {
    s =~= Seq::<char>::empty() || s =~= seq!['-']
}

/// Every string made of an optional sign, a field name and an optional
/// trailing `-` is accepted, and means what its parts say: the field is the
/// name, the direction is descending exactly for a leading `-`, and nulls
/// come first exactly for a trailing `-`.
pub proof fn lemma_grammar_accepted(lead: Seq<char>, field: Seq<char>, trail: Seq<char>)
    requires
        is_leading_sign(lead),
        is_field_name(field),
        is_trailing_sign(trail),
    ensures
        parse_token_spec(lead + field + trail) == Some(
            SortKey {
                field,
                direction: if lead =~= seq!['-'] {
                    Direction::Descending
                } else {
                    Direction::Ascending
                },
                nulls_placement: if trail =~= seq!['-'] {
                    NullsPlacement::First
                } else {
                    NullsPlacement::Last
                },
            },
        ),
{
    let t = lead + field + trail;
    assert(is_field_char(field[0]));
    assert(is_field_char(field.last()));
    assert(t[lead.len() as int] == field[0]);
    assert(t[lead.len() + field.len() - 1] == field.last());
    assert(leading_sign_len(t) == lead.len());
    assert(trailing_sign_len(t) == trail.len());
    assert(token_field(t) =~= field);
}

/// Only such strings are accepted: an accepted token is its leading sign,
/// its field and its trailing sign, one after the other.
pub proof fn lemma_accepted_is_in_grammar(t: Seq<char>)
    requires
        parse_token_spec(t) is Some,
    ensures
        ({
            let lead = t.subrange(0, leading_sign_len(t));
            let trail = t.subrange(t.len() - trailing_sign_len(t), t.len() as int);
            let field = parse_token_spec(t)->0.field;
            &&& is_leading_sign(lead)
            &&& is_field_name(field)
            &&& is_trailing_sign(trail)
            &&& t == lead + field + trail
        }),
{
    let lead = t.subrange(0, leading_sign_len(t));
    let trail = t.subrange(t.len() - trailing_sign_len(t), t.len() as int);
    let field = token_field(t);
    assert(field.len() > 0);
    assert(t =~= lead + field + trail);
}

/// The field of an accepted token passes through unchanged: it is the part
/// of the token between the signs, character for character, and the SQL
/// fragment starts with it, followed by a space and the two keywords.
pub proof fn lemma_field_passes_through(t: Seq<char>)
    requires
        parse_token_spec(t) is Some,
    ensures
        ({
            let key = parse_token_spec(t)->0;
            let fragment = token_fragment(t)->0;
            &&& is_field_name(key.field)
            &&& key.field == t.subrange(leading_sign_len(t), t.len() - trailing_sign_len(t))
            &&& fragment.len() > key.field.len()
            &&& fragment.subrange(0, key.field.len() as int) == key.field
            &&& fragment == key.field + " "@ + direction_keyword(key.direction) + " "@
                + nulls_keyword(key.nulls_placement)
        }),
{
    let key = parse_token_spec(t)->0;
    let fragment = fragment_spec(key);
    reveal_strlit(" ");
    assert(fragment.subrange(0, key.field.len() as int) =~= key.field);
}

/// An accepted token holds no comma.
pub proof fn lemma_accepted_is_comma_free(t: Seq<char>)
    requires
        parse_token_spec(t) is Some,
    ensures
        comma_free(t),
{
    let lead = leading_sign_len(t);
    let trail = trailing_sign_len(t);
    let field = token_field(t);
    assert forall|j: int| 0 <= j < t.len() implies #[trigger] t[j] != ',' by {
        if lead <= j < t.len() - trail {
            assert(t[j] == field[j - lead]);
            assert(is_field_char(field[j - lead]));
        }
    }
}

/// Splitting gives at least one piece.
pub proof fn lemma_split_commas_len(s: Seq<char>)
    ensures
        split_commas(s).len() >= 1,
    decreases s.len(),
{
    if s.len() > 0 {
        lemma_split_commas_len(s.drop_last());
    }
}

/// Characters other than commas that follow `a` lengthen its last piece.
pub proof fn lemma_split_commas_extend(a: Seq<char>, b: Seq<char>)
    requires
        comma_free(b),
    ensures
        split_commas(a).len() >= 1,
        split_commas(a + b) == split_commas(a).drop_last().push(split_commas(a).last() + b),
    decreases b.len(),
{
    lemma_split_commas_len(a);
    let pieces = split_commas(a);
    if b.len() == 0 {
        assert(a + b =~= a);
        assert(pieces.last() + b =~= pieces.last());
        assert(pieces.drop_last().push(pieces.last()) =~= pieces);
    } else {
        lemma_split_commas_extend(a, b.drop_last());
        let shorter = split_commas(a + b.drop_last());
        assert((a + b).drop_last() =~= a + b.drop_last());
        assert((a + b).last() == b.last());
        assert(shorter.drop_last() =~= pieces.drop_last());
        assert(shorter.last().push(b.last()) =~= pieces.last() + b);
    }
}

/// A longer last part makes the joined sequence longer by as much.
pub proof fn lemma_join_with_extend(parts: Seq<Seq<char>>, sep: Seq<char>, more: Seq<char>)
    requires
        parts.len() >= 1,
    ensures
        join_with(parts.drop_last().push(parts.last() + more), sep) == join_with(parts, sep)
            + more,
{
    let longer = parts.drop_last().push(parts.last() + more);
    assert(longer.drop_last() =~= parts.drop_last());
    assert(join_with(longer, sep) =~= join_with(parts, sep) + more);
}

/// Splitting loses nothing: the pieces hold no comma, and joined by commas
/// they give the sequence back.
pub proof fn lemma_split_then_join(s: Seq<char>)
    ensures
        split_commas(s).len() >= 1,
        forall|i: int| 0 <= i < split_commas(s).len() ==> comma_free(#[trigger] split_commas(s)[i]),
        join_with(split_commas(s), seq![',']) == s,
    decreases s.len(),
{
    let sep = seq![','];
    if s.len() == 0 {
        assert(join_with(split_commas(s), sep) =~= s);
    } else {
        lemma_split_then_join(s.drop_last());
        let before = split_commas(s.drop_last());
        assert(s =~= s.drop_last().push(s.last()));
        if s.last() == ',' {
            let pieces = before.push(Seq::<char>::empty());
            assert(pieces.drop_last() =~= before);
            assert(join_with(pieces, sep) =~= s);
        } else {
            lemma_join_with_extend(before, sep, seq![s.last()]);
            assert(before.last().push(s.last()) =~= before.last() + seq![s.last()]);
            assert(join_with(split_commas(s), sep) =~= s);
        }
    }
}

/// Joining loses nothing either: pieces without commas, joined by commas,
/// are what splitting gives.
pub proof fn lemma_join_then_split(tokens: Seq<Seq<char>>)
    requires
        tokens.len() >= 1,
        forall|i: int| 0 <= i < tokens.len() ==> comma_free(#[trigger] tokens[i]),
    ensures
        split_commas(join_with(tokens, seq![','])) == tokens,
    decreases tokens.len(),
{
    let sep = seq![','];
    let empty = Seq::<char>::empty();
    if tokens.len() == 1 {
        lemma_split_commas_extend(empty, tokens[0]);
        assert(empty + tokens[0] =~= tokens[0]);
        assert(split_commas(empty) =~= seq![empty]);
        assert(split_commas(tokens[0]) =~= tokens);
    } else {
        let front = tokens.drop_last();
        lemma_join_then_split(front);
        let joined = join_with(front, sep);
        let with_comma = joined.push(',');
        assert(joined + sep =~= with_comma);
        assert(with_comma.drop_last() =~= joined);
        assert(split_commas(with_comma) == front.push(empty));
        lemma_split_commas_extend(with_comma, tokens.last());
        assert(front.push(empty).drop_last().push(empty + tokens.last()) =~= tokens);
    }
}

/// Where every token is accepted, there is one fragment for each token, in
/// the order of the tokens.
pub proof fn lemma_all_accepted(tokens: Seq<Seq<char>>)
    requires
        forall|i: int| 0 <= i < tokens.len() ==> (#[trigger] token_fragment(tokens[i])) is Some,
    ensures
        accepted_fragments(tokens).len() == tokens.len(),
        forall|i: int|
            0 <= i < tokens.len() ==> #[trigger] accepted_fragments(tokens)[i] == token_fragment(
                tokens[i],
            )->0,
    decreases tokens.len(),
{
    if tokens.len() > 0 {
        let front = tokens.drop_last();
        assert forall|i: int| 0 <= i < front.len() implies (#[trigger] token_fragment(
            front[i],
        )) is Some by {
            assert(front[i] == tokens[i]);
        }
        lemma_all_accepted(front);
        lemma_accepted_fragments_push(front, tokens.last());
        assert(front.push(tokens.last()) =~= tokens);
        assert(token_fragment(tokens[tokens.len() - 1]) is Some);
    }
}

/// An expression made of accepted tokens joined by commas translates to
/// one fragment for each token, in the order of the tokens, joined by
/// `", "`.
pub proof fn lemma_valid_tokens_all_translated(tokens: Seq<Seq<char>>)
    requires
        tokens.len() >= 1,
        forall|i: int| 0 <= i < tokens.len() ==> (#[trigger] token_fragment(tokens[i])) is Some,
    ensures
        ({
            let expression = join_with(tokens, seq![',']);
            let fragments = accepted_fragments(split_commas(expression));
            &&& split_commas(expression) == tokens
            &&& fragments.len() == tokens.len()
            &&& forall|i: int|
                0 <= i < tokens.len() ==> #[trigger] fragments[i] == token_fragment(tokens[i])->0
            &&& translate_spec(expression) == Some(join_with(fragments, ", "@))
        }),
{
    assert forall|i: int| 0 <= i < tokens.len() implies comma_free(#[trigger] tokens[i]) by {
        assert(token_fragment(tokens[i]) is Some);
        lemma_accepted_is_comma_free(tokens[i]);
    }
    lemma_join_then_split(tokens);
    lemma_all_accepted(tokens);
}

/// The pieces of two sequences with a comma between them are the pieces of
/// the first, then those of the second.
pub proof fn lemma_split_commas_concat(a: Seq<char>, b: Seq<char>)
    ensures
        split_commas(a + seq![','] + b) == split_commas(a) + split_commas(b),
    decreases b.len(),
{
    let whole = a + seq![','] + b;
    let empty = Seq::<char>::empty();
    lemma_split_commas_len(a);
    if b.len() == 0 {
        assert(whole =~= a.push(','));
        assert(whole.drop_last() =~= a);
        assert(split_commas(a).push(empty) =~= split_commas(a) + split_commas(b));
    } else {
        lemma_split_commas_concat(a, b.drop_last());
        lemma_split_commas_len(b.drop_last());
        let front = split_commas(b.drop_last());
        let both = split_commas(a) + front;
        assert(whole.drop_last() =~= a + seq![','] + b.drop_last());
        assert(whole.last() == b.last());
        if b.last() == ',' {
            assert(both.push(empty) =~= split_commas(a) + front.push(empty));
        } else {
            assert(both.last() == front.last());
            assert(both.drop_last() =~= split_commas(a) + front.drop_last());
            assert(both.drop_last().push(both.last().push(b.last())) =~= split_commas(a)
                + front.drop_last().push(front.last().push(b.last())));
        }
    }
}

/// The fragments of two runs of tokens, one after the other, are the
/// fragments of the first, then those of the second: each token is judged
/// alone, and nothing is reordered.
pub proof fn lemma_accepted_fragments_concat(a: Seq<Seq<char>>, b: Seq<Seq<char>>)
    ensures
        accepted_fragments(a + b) == accepted_fragments(a) + accepted_fragments(b),
    decreases b.len(),
{
    if b.len() == 0 {
        assert(a + b =~= a);
        assert(accepted_fragments(a) + accepted_fragments(b) =~= accepted_fragments(a));
    } else {
        lemma_accepted_fragments_concat(a, b.drop_last());
        lemma_accepted_fragments_push(a + b.drop_last(), b.last());
        lemma_accepted_fragments_push(b.drop_last(), b.last());
        assert((a + b.drop_last()).push(b.last()) =~= a + b);
        assert(b.drop_last().push(b.last()) =~= b);
        match token_fragment(b.last()) {
            Some(fragment) => {
                assert((accepted_fragments(a) + accepted_fragments(b.drop_last())).push(fragment)
                    =~= accepted_fragments(a) + accepted_fragments(b.drop_last()).push(
                    fragment,
                ));
            },
            None => {},
        }
    }
}

/// The fragments of two expressions with a comma between them are the
/// fragments of the first, then those of the second.
pub proof fn lemma_fragments_of_concat(a: Seq<char>, b: Seq<char>)
    ensures
        accepted_fragments(split_commas(a + seq![','] + b)) == accepted_fragments(
            split_commas(a),
        ) + accepted_fragments(split_commas(b)),
{
    lemma_split_commas_concat(a, b);
    lemma_accepted_fragments_concat(split_commas(a), split_commas(b));
}

/// A rejected piece is dropped in silence: before or after an expression,
/// it does not change what the expression translates to.
pub proof fn lemma_rejected_token_is_dropped(s: Seq<char>, t: Seq<char>)
    requires
        comma_free(t),
        token_fragment(t) is None,
    ensures
        translate_spec(s + seq![','] + t) == translate_spec(s),
        translate_spec(t + seq![','] + s) == translate_spec(s),
{
    let empty = Seq::<char>::empty();
    lemma_split_commas_extend(empty, t);
    assert(empty + t =~= t);
    assert(split_commas(empty) =~= seq![empty]);
    assert(split_commas(t) =~= Seq::<Seq<char>>::empty().push(t));
    lemma_accepted_fragments_push(Seq::<Seq<char>>::empty(), t);
    assert(accepted_fragments(split_commas(t)) =~= Seq::<Seq<char>>::empty());
    lemma_fragments_of_concat(s, t);
    lemma_fragments_of_concat(t, s);
    let fragments = accepted_fragments(split_commas(s));
    assert(fragments + Seq::<Seq<char>>::empty() =~= fragments);
    assert(Seq::<Seq<char>>::empty() + fragments =~= fragments);
}

/// No more fragments than tokens come out, and each is the fragment of an
/// accepted token.
pub proof fn lemma_fragments_come_from_tokens(tokens: Seq<Seq<char>>)
    ensures
        accepted_fragments(tokens).len() <= tokens.len(),
        forall|k: int|
            0 <= k < accepted_fragments(tokens).len() ==> exists|i: int|
                0 <= i < tokens.len() && token_fragment(tokens[i]) == Some(
                    #[trigger] accepted_fragments(tokens)[k],
                ),
    decreases tokens.len(),
{
    if tokens.len() > 0 {
        let front = tokens.drop_last();
        lemma_fragments_come_from_tokens(front);
        lemma_accepted_fragments_push(front, tokens.last());
        assert(front.push(tokens.last()) =~= tokens);
        let fragments = accepted_fragments(tokens);
        assert forall|k: int| 0 <= k < fragments.len() implies exists|i: int|
            0 <= i < tokens.len() && token_fragment(tokens[i]) == Some(
                #[trigger] fragments[k],
            ) by {
            if k < accepted_fragments(front).len() {
                let i = choose|i: int|
                    0 <= i < front.len() && token_fragment(front[i]) == Some(
                        accepted_fragments(front)[k],
                    );
                assert(tokens[i] == front[i]);
            } else {
                assert(token_fragment(tokens[tokens.len() - 1]) == Some(fragments[k]));
            }
        }
    }
}

/// A clause is never the empty string: where nothing is accepted the
/// result is `None`, and only there.
pub proof fn lemma_clause_not_empty(s: Seq<char>)
    ensures
        translate_spec(s) matches Some(clause) ==> clause.len() > 0,
{
    let fragments = accepted_fragments(split_commas(s));
    if fragments.len() > 0 {
        lemma_fragments_come_from_tokens(split_commas(s));
        let last = fragments.last();
        let i = choose|i: int|
            0 <= i < split_commas(s).len() && token_fragment(split_commas(s)[i]) == Some(
                fragments[fragments.len() - 1],
            );
        lemma_field_passes_through(split_commas(s)[i]);
        assert(last.len() > 0);
        if fragments.len() == 1 {
            assert(join_with(fragments, ", "@) == last);
        } else {
            assert(join_with(fragments, ", "@).len() >= last.len());
        }
    }
}

/// The empty expression has no clause.
pub proof fn lemma_empty_expression(s: Seq<char>)
    requires
        s.len() == 0,
    ensures
        translate_spec(s) is None,
{
    let tokens = split_commas(s);
    assert(tokens =~= seq![Seq::<char>::empty()]);
    assert(parse_token_spec(tokens[0]) is None);
    lemma_accepted_fragments_push(Seq::<Seq<char>>::empty(), tokens[0]);
    assert(Seq::<Seq<char>>::empty().push(tokens[0]) =~= tokens);
}

} // verus!
