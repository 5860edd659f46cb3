//! The grammar of a single sort token and the sort key it denotes.
//!
//! ```text
//! token      := lead? fieldname trail?
//! lead       := "+" | "-"
//! trail      := "-"
//! fieldname  := one or more of [A-Za-z0-9_.]
//! ```
//!
//! The whole token has to match. A leading `-` sorts descending, a trailing
//! `-` puts the nulls first; without them the order is ascending and the
//! nulls come last.

use vstd::prelude::*;
use crate::chars::chars_of;

verus! {

/// Order in which the rows are sorted on a field.
#[derive(Clone, Copy, Debug, PartialEq, Eq, Structural)]
pub enum Direction {
    Ascending,
    Descending,
}

/// Where the rows whose field is null are placed.
#[derive(Clone, Copy, Debug, PartialEq, Eq, Structural)]
pub enum NullsPlacement {
    First,
    Last,
}

/// Mathematical model of a sort key: what a token means.
pub struct SortKey {
    pub field: Seq<char>,
    pub direction: Direction,
    pub nulls_placement: NullsPlacement,
}

/// A sort key parsed from a token. Its field is always a field name of the
/// grammar: values are only made by parsing.
#[derive(Debug, PartialEq, Eq)]
pub struct SortDirective {
    field: String,
    direction: Direction,
    nulls_placement: NullsPlacement,
}

/// A character that may occur in a field name.
pub open spec fn is_field_char(c: char) -> bool {
    ||| 'a' <= c <= 'z'
    ||| 'A' <= c <= 'Z'
    ||| '0' <= c <= '9'
    ||| c == '_'
    ||| c == '.'
}

/// A non-empty run of field characters.
pub open spec fn is_field_name(s: Seq<char>) -> bool {
    &&& s.len() > 0
    &&& forall|i: int| 0 <= i < s.len() ==> is_field_char(#[trigger] s[i])
}

/// Number of characters (0 or 1) that the leading sign of `t` takes.
pub open spec fn leading_sign_len(t: Seq<char>) -> int {
    if t.len() > 0 && (t[0] == '+' || t[0] == '-') {
        1
    } else {
        0
    }
}

/// Number of characters (0 or 1) that the trailing sign of `t` takes. A
/// lone sign is a leading one.
pub open spec fn trailing_sign_len(t: Seq<char>) -> int {
    if t.len() > leading_sign_len(t) && t.last() == '-' {
        1
    } else {
        0
    }
}

/// What is left of `t` between its signs.
pub open spec fn token_field(t: Seq<char>) -> Seq<char> {
    t.subrange(leading_sign_len(t), t.len() - trailing_sign_len(t))
}

/// The sort key that token `t` denotes, or `None` where `t` is not a token
/// of the grammar.
pub open spec fn parse_token_spec(t: Seq<char>) -> Option<SortKey> {
    if is_field_name(token_field(t)) {
        Some(
            SortKey {
                field: token_field(t),
                direction: if t[0] == '-' {
                    Direction::Descending
                } else {
                    Direction::Ascending
                },
                nulls_placement: if t.last() == '-' {
                    NullsPlacement::First
                } else {
                    NullsPlacement::Last
                },
            },
        )
    } else {
        None
    }
}

/// The SQL keyword of a direction.
pub open spec fn direction_keyword(direction: Direction) -> Seq<char> {
    match direction {
        Direction::Ascending => "ASC"@,
        Direction::Descending => "DESC"@,
    }
}

/// The SQL qualifier of a nulls placement.
pub open spec fn nulls_keyword(nulls_placement: NullsPlacement) -> Seq<char> {
    match nulls_placement {
        NullsPlacement::First => "NULLS FIRST"@,
        NullsPlacement::Last => "NULLS LAST"@,
    }
}

/// The SQL fragment of a sort key: field, direction and nulls qualifier,
/// with one space between them.
pub open spec fn fragment_spec(key: SortKey) -> Seq<char> {
    key.field + " "@ + direction_keyword(key.direction) + " "@ + nulls_keyword(
        key.nulls_placement,
    )
}

/// Whether `c` may occur in a field name.
pub fn field_char(c: char) -> (b: bool)
    ensures
        b == is_field_char(c),
{
    ('a' <= c && c <= 'z') || ('A' <= c && c <= 'Z') || ('0' <= c && c <= '9') || c == '_' || c
        == '.'
}

impl View for SortDirective {
    type V = SortKey;

    closed spec fn view(&self) -> SortKey {
        SortKey {
            field: self.field@,
            direction: self.direction,
            nulls_placement: self.nulls_placement,
        }
    }
}

impl Clone for SortDirective {
    fn clone(&self) -> (copy: Self)
        ensures
            copy@ == self@,
    {
        proof {
            use_type_invariant(self);
        }
        SortDirective {
            field: self.field.clone(),
            direction: self.direction,
            nulls_placement: self.nulls_placement,
        }
    }
}

impl SortDirective {
    #[verifier::type_invariant]
    spec fn well_formed(&self) -> bool {
        is_field_name(self.field@)
    }

    /// The name of the field to sort on.
    pub fn field(&self) -> (name: &str)
        ensures
            name@ == self@.field,
            is_field_name(name@),
    {
        proof {
            use_type_invariant(self);
        }
        self.field.as_str()
    }

    /// The direction to sort in.
    pub fn direction(&self) -> (direction: Direction)
        ensures
            direction == self@.direction,
    {
        self.direction
    }

    /// Where the nulls go.
    pub fn nulls_placement(&self) -> (nulls_placement: NullsPlacement)
        ensures
            nulls_placement == self@.nulls_placement,
    {
        self.nulls_placement
    }

    /// The SQL fragment for this sort key, such as `id DESC NULLS LAST`.
    pub fn to_sql(&self) -> (sql: String)
        ensures
            sql@ == fragment_spec(self@),
    {
        let mut sql = self.field.clone();
        sql.append(" ");
        match self.direction {
            Direction::Ascending => sql.append("ASC"),
            Direction::Descending => sql.append("DESC"),
        }
        sql.append(" ");
        match self.nulls_placement {
            NullsPlacement::First => sql.append("NULLS FIRST"),
            NullsPlacement::Last => sql.append("NULLS LAST"),
        }
        sql
    }
}

/// Parses one token: an optional sign, a field name and an optional
/// trailing `-`. Anything else is rejected.
pub fn parse_token(token: &str) -> (parsed: Option<SortDirective>)
    ensures
        match parsed {
            Some(directive) => parse_token_spec(token@) == Some(directive@),
            None => parse_token_spec(token@) is None,
        },
{
    let chars = chars_of(token);
    let len = chars.len();
    if len == 0 {
        return None;
    }
    let first = chars[0];
    let last = chars[len - 1];
    let start: usize = if first == '+' || first == '-' {
        1
    } else {
        0
    };
    let end: usize = if len > start && last == '-' {
        len - 1
    } else {
        len
    };
    assert(token_field(token@) =~= chars@.subrange(start as int, end as int));
    if start >= end {
        return None;
    }
    let mut field = String::new();
    let mut i: usize = start;
    while i < end
        invariant
            start <= i <= end <= chars.len(),
            token_field(token@) == chars@.subrange(start as int, end as int),
            field@ == chars@.subrange(start as int, i as int),
            forall|j: int| start <= j < i ==> is_field_char(#[trigger] chars@[j]),
        decreases end - i,
    {
        let c = chars[i];
        if !field_char(c) {
            assert(token_field(token@)[i - start] == c);
            return None;
        }
        field.push(c);
        assert(field@ =~= chars@.subrange(start as int, i + 1));
        i += 1;
    }
    let direction = if first == '-' {
        Direction::Descending
    } else {
        Direction::Ascending
    };
    let nulls_placement = if last == '-' {
        NullsPlacement::First
    } else {
        NullsPlacement::Last
    };
    Some(SortDirective { field, direction, nulls_placement })
}

} // verus!
