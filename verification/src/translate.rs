//! Translation of a whole sort expression: split on commas, parse each
//! token, drop what is not a token, join the SQL fragments of the rest.

use vstd::prelude::*;
use crate::token::{fragment_spec, parse_token, parse_token_spec};

verus! {

/// The pieces of `s` between its commas, in order. A sequence with `n`
/// commas has `n + 1` pieces, some of which may be empty.
pub open spec fn split_commas(s: Seq<char>) -> Seq<Seq<char>>
    decreases s.len(),
{
    if s.len() == 0 {
        seq![Seq::<char>::empty()]
    } else {
        let before = split_commas(s.drop_last());
        if s.last() == ',' {
            before.push(Seq::<char>::empty())
        } else {
            before.drop_last().push(before.last().push(s.last()))
        }
    }
}

/// The SQL fragment of token `t`, or `None` where `t` is rejected.
pub open spec fn token_fragment(t: Seq<char>) -> Option<Seq<char>> {
    match parse_token_spec(t) {
        Some(key) => Some(fragment_spec(key)),
        None => None,
    }
}

/// The SQL fragments of those of `tokens` that are accepted, in the order
/// of the tokens.
pub open spec fn accepted_fragments(tokens: Seq<Seq<char>>) -> Seq<Seq<char>> {
    tokens.filter_map(|t: Seq<char>| token_fragment(t))
}

/// `parts` one after the other, with `sep` between each two neighbours.
pub open spec fn join_with(parts: Seq<Seq<char>>, sep: Seq<char>) -> Seq<char>
    decreases parts.len(),
{
    if parts.len() == 0 {
        Seq::<char>::empty()
    } else if parts.len() == 1 {
        parts[0]
    } else {
        join_with(parts.drop_last(), sep) + sep + parts.last()
    }
}

/// The body of the `ORDER BY` clause for sort expression `s`, or `None`
/// where no token of `s` is accepted.
pub open spec fn translate_spec(s: Seq<char>) -> Option<Seq<char>> {
    let fragments = accepted_fragments(split_commas(s));
    if fragments.len() == 0 {
        None
    } else {
        Some(join_with(fragments, ", "@))
    }
}

/// The contents of each string of `strings`.
pub open spec fn views(strings: Seq<String>) -> Seq<Seq<char>> {
    strings.map_values(|s: String| s@)
}

/// Accepting one more token appends its fragment, if it has one.
pub proof fn lemma_accepted_fragments_push(tokens: Seq<Seq<char>>, t: Seq<char>)
    ensures
        accepted_fragments(tokens.push(t)) == match token_fragment(t) {
            Some(fragment) => accepted_fragments(tokens).push(fragment),
            None => accepted_fragments(tokens),
        },
{
    assert(tokens.push(t).drop_last() =~= tokens);
    match token_fragment(t) {
        Some(fragment) => {
            assert(accepted_fragments(tokens) + seq![fragment] =~= accepted_fragments(tokens).push(
                fragment,
            ));
        },
        None => {},
    }
}

/// Splits `s` on each comma. Nothing is trimmed and empty pieces are kept.
pub fn split_on_commas(s: &str) -> (tokens: Vec<String>)
    ensures
        views(tokens@) == split_commas(s@),
{
    let mut tokens: Vec<String> = Vec::new();
    let mut current = String::new();
    assert(split_commas(s@.subrange(0, 0)) =~= views(tokens@).push(current@));
    for c in it: s.chars()
        invariant
            it.seq() == s@,
            split_commas(s@.subrange(0, it.index() as int)) == views(tokens@).push(current@),
    {
        let ghost before = s@.subrange(0, it.index() as int);
        let ghost now = s@.subrange(0, it.index() + 1);
        let ghost pieces = views(tokens@).push(current@);
        assert(now.drop_last() =~= before);
        assert(now.last() == c);
        if c == ',' {
            tokens.push(current);
            current = String::new();
            assert(views(tokens@).push(current@) =~= pieces.push(Seq::<char>::empty()));
        } else {
            current.push(c);
            assert(views(tokens@).push(current@) =~= pieces.drop_last().push(
                pieces.last().push(c),
            ));
        }
    }
    assert(s@.subrange(0, s@.len() as int) =~= s@);
    tokens.push(current);
    assert(views(tokens@) =~= split_commas(s@));
    tokens
}

/// Joins `parts` into one string, with `sep` between each two neighbours.
pub fn join(parts: &Vec<String>, sep: &str) -> (joined: String)
    ensures
        joined@ == join_with(views(parts@), sep@),
{
    let mut joined = String::new();
    let mut i: usize = 0;
    assert(views(parts@).subrange(0, 0) =~= Seq::<Seq<char>>::empty());
    while i < parts.len()
        invariant
            i <= parts.len(),
            joined@ == join_with(views(parts@).subrange(0, i as int), sep@),
        decreases parts.len() - i,
    {
        let ghost done = views(parts@).subrange(0, i as int);
        let ghost next = views(parts@).subrange(0, i + 1);
        assert(next.drop_last() =~= done);
        assert(next.last() == parts@[i as int]@);
        if i > 0 {
            joined.append(sep);
        }
        joined.append(parts[i].as_str());
        assert(joined@ =~= join_with(next, sep@));
        i += 1;
    }
    assert(views(parts@).subrange(0, parts@.len() as int) =~= views(parts@));
    joined
}

/// Translates one token into its SQL fragment, such as `-id` into
/// `id DESC NULLS LAST`. A string that is not a token gives `None`.
pub fn convert_one_sort_str_field_to_sql(sort_str: &str) -> (sql: Option<String>)
    ensures
        match sql {
            Some(fragment) => token_fragment(sort_str@) == Some(fragment@),
            None => token_fragment(sort_str@) is None,
        },
{
    match parse_token(sort_str) {
        Some(directive) => Some(directive.to_sql()),
        None => None,
    }
}

/// Translates a sort expression, a list of tokens separated by commas,
/// into the body of an `ORDER BY` clause. Tokens that the grammar rejects
/// are dropped; the fragments of the others are joined by `", "` in the
/// order of their tokens. Where no token is accepted the result is `None`.
pub fn sort_str_to_sql(sort_str: &str) -> (sql: Option<String>)
    ensures
        match sql {
            Some(clause) => translate_spec(sort_str@) == Some(clause@),
            None => translate_spec(sort_str@) is None,
        },
{
    let tokens = split_on_commas(sort_str);
    let mut fragments: Vec<String> = Vec::new();
    let mut i: usize = 0;
    assert(views(tokens@).subrange(0, 0) =~= Seq::<Seq<char>>::empty());
    assert(views(fragments@) =~= Seq::<Seq<char>>::empty());
    while i < tokens.len()
        invariant
            i <= tokens.len(),
            views(fragments@) == accepted_fragments(views(tokens@).subrange(0, i as int)),
        decreases tokens.len() - i,
    {
        let ghost done = views(tokens@).subrange(0, i as int);
        let ghost before = views(fragments@);
        proof {
            lemma_accepted_fragments_push(done, tokens@[i as int]@);
            assert(views(tokens@).subrange(0, i + 1) =~= done.push(tokens@[i as int]@));
        }
        match convert_one_sort_str_field_to_sql(tokens[i].as_str()) {
            Some(fragment) => {
                fragments.push(fragment);
                assert(views(fragments@) =~= before.push(fragment@));
            },
            None => {},
        }
        i += 1;
    }
    assert(views(tokens@).subrange(0, tokens@.len() as int) =~= views(tokens@));
    if fragments.len() == 0 {
        None
    } else {
        Some(join(&fragments, ", "))
    }
}

} // verus!
