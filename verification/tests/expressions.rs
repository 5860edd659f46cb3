use sort_str_to_sql::sort_str_to_sql;
use sort_str_to_sql::translate::{convert_one_sort_str_field_to_sql, join, split_on_commas};

fn some(s: &str) -> Option<String> {
    Some(s.to_string())
}

#[test]
fn bare_field_sorts_ascending_nulls_last() {
    assert_eq!(sort_str_to_sql("id"), some("id ASC NULLS LAST"));
}

#[test]
fn leading_minus_sorts_descending() {
    assert_eq!(sort_str_to_sql("-id"), some("id DESC NULLS LAST"));
}

#[test]
fn trailing_minus_puts_nulls_first() {
    assert_eq!(sort_str_to_sql("id-"), some("id ASC NULLS FIRST"));
}

#[test]
fn leading_plus_with_trailing_minus() {
    assert_eq!(sort_str_to_sql("+id-"), some("id ASC NULLS FIRST"));
}

#[test]
fn qualified_field_keeps_its_dot() {
    assert_eq!(sort_str_to_sql("show.id"), some("show.id ASC NULLS LAST"));
}

#[test]
fn two_tokens_are_joined_in_order() {
    assert_eq!(
        sort_str_to_sql("-id,+aired-"),
        some("id DESC NULLS LAST, aired ASC NULLS FIRST")
    );
}

#[test]
fn embedded_space_is_rejected() {
    assert_eq!(sort_str_to_sql("lol what"), None);
}

#[test]
fn two_leading_signs_are_rejected() {
    assert_eq!(sort_str_to_sql("+-id-"), None);
}

#[test]
fn rejected_second_token_is_dropped() {
    assert_eq!(sort_str_to_sql("id,++aired+"), some("id ASC NULLS LAST"));
}

#[test]
fn rejected_first_token_is_dropped() {
    assert_eq!(sort_str_to_sql("?id,+aired-"), some("aired ASC NULLS FIRST"));
}

#[test]
fn empty_expression_gives_nothing() {
    assert_eq!(sort_str_to_sql(""), None);
}

#[test]
fn only_commas_give_nothing() {
    assert_eq!(sort_str_to_sql(","), None);
    assert_eq!(sort_str_to_sql(",,,"), None);
}

#[test]
fn stray_commas_are_ignored() {
    assert_eq!(sort_str_to_sql(",id"), some("id ASC NULLS LAST"));
    assert_eq!(sort_str_to_sql("id,"), some("id ASC NULLS LAST"));
    assert_eq!(
        sort_str_to_sql(",,-a,,b-,,"),
        some("a DESC NULLS LAST, b ASC NULLS FIRST")
    );
}

#[test]
fn tokens_are_not_trimmed() {
    assert_eq!(sort_str_to_sql("id, aired"), some("id ASC NULLS LAST"));
    assert_eq!(sort_str_to_sql(" id"), None);
    assert_eq!(sort_str_to_sql("id "), None);
    assert_eq!(sort_str_to_sql("id\n"), None);
}

#[test]
fn repeated_fields_are_kept() {
    assert_eq!(
        sort_str_to_sql("id,-id,id"),
        some("id ASC NULLS LAST, id DESC NULLS LAST, id ASC NULLS LAST")
    );
}

#[test]
fn every_valid_token_gives_one_fragment_in_order() {
    let tokens = ["-date", "+id-", "show.id", "a..b", "_", "-9-"];
    let expression = tokens.join(",");
    let clause = sort_str_to_sql(&expression).unwrap();
    let fragments: Vec<&str> = clause.split(", ").collect();
    assert_eq!(
        fragments,
        vec![
            "date DESC NULLS LAST",
            "id ASC NULLS FIRST",
            "show.id ASC NULLS LAST",
            "a..b ASC NULLS LAST",
            "_ ASC NULLS LAST",
            "9 DESC NULLS FIRST",
        ]
    );
    for (token, fragment) in tokens.iter().zip(fragments.iter()) {
        assert_eq!(convert_one_sort_str_field_to_sql(token).unwrap(), *fragment);
    }
}

#[test]
fn non_ascii_letters_are_rejected() {
    assert_eq!(sort_str_to_sql("é"), None);
    assert_eq!(sort_str_to_sql("idé"), None);
    assert_eq!(sort_str_to_sql("-é-,id"), some("id ASC NULLS LAST"));
    assert_eq!(sort_str_to_sql("名前"), None);
}

#[test]
fn one_token_to_sql() {
    assert_eq!(convert_one_sort_str_field_to_sql("-id"), some("id DESC NULLS LAST"));
    assert_eq!(convert_one_sort_str_field_to_sql("-id-"), some("id DESC NULLS FIRST"));
    assert_eq!(convert_one_sort_str_field_to_sql("a,b"), None);
    assert_eq!(convert_one_sort_str_field_to_sql(""), None);
}

#[test]
fn split_keeps_empty_pieces() {
    assert_eq!(split_on_commas(""), vec!["".to_string()]);
    assert_eq!(split_on_commas("a"), vec!["a".to_string()]);
    assert_eq!(
        split_on_commas(",a,,b ,"),
        vec!["".to_string(), "a".to_string(), "".to_string(), "b ".to_string(), "".to_string()]
    );
    assert_eq!(split_on_commas("é,ü"), vec!["é".to_string(), "ü".to_string()]);
}

#[test]
fn split_agrees_with_std() {
    for s in ["", ",", "a,b", ",,", "a,,b,", "x y,z", "-id,+aired-"] {
        let expected: Vec<String> = s.split(',').map(|t| t.to_string()).collect();
        assert_eq!(split_on_commas(s), expected);
    }
}

#[test]
fn join_puts_separator_between_parts() {
    assert_eq!(join(&vec![], ", "), "");
    assert_eq!(join(&vec!["a".to_string()], ", "), "a");
    assert_eq!(join(&vec!["a".to_string(), "".to_string(), "b".to_string()], ", "), "a, , b");
    assert_eq!(join(&vec!["a".to_string(), "b".to_string()], ""), "ab");
}

#[test]
fn split_then_join_gives_the_input_back() {
    for s in ["", ",", "a,b", ",,", "a,,b,", "x y,z"] {
        assert_eq!(join(&split_on_commas(s), ","), s);
    }
}
