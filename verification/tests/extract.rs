use jmrg::extract::{extract, select, ExtractError, KeySet};
use jmrg::object::{scan_object, Member};

fn key_set(names: &[&str]) -> KeySet {
    KeySet::new(names.iter().map(|name| name.to_string()).collect())
}

fn member(name: &str, number: Option<i64>) -> Member {
    Member { name: name.to_string(), number }
}

#[test]
fn key_of_a_plain_record() {
    assert_eq!(extract(&key_set(&["t"]), r#"{"t":15,"a":"x"}"#), Ok(15));
}

#[test]
fn key_may_stand_after_other_fields() {
    assert_eq!(extract(&key_set(&["t"]), r#"{"a":"x","b":[1,2],"t":18}"#), Ok(18));
}

#[test]
fn first_field_of_the_object_wins() {
    let line = r#"{"b":2,"a":1}"#;
    assert_eq!(extract(&key_set(&["a", "b"]), line), Ok(2));
    assert_eq!(extract(&key_set(&["b", "a"]), line), Ok(2));
}

#[test]
fn order_of_the_key_names_is_of_no_account() {
    let line = r#"{"x":0,"ts":7,"t":9}"#;
    assert_eq!(extract(&key_set(&["t", "ts"]), line), Ok(7));
    assert_eq!(extract(&key_set(&["ts", "t"]), line), Ok(7));
    assert_eq!(extract(&key_set(&["ts", "t", "ts"]), line), Ok(7));
}

#[test]
fn line_without_a_named_field_misses_the_key() {
    assert_eq!(extract(&key_set(&["t"]), r#"{"x":1}"#), Err(ExtractError::MissingKey));
}

#[test]
fn empty_object_misses_the_key() {
    assert_eq!(extract(&key_set(&["t"]), "{}"), Err(ExtractError::MissingKey));
}

#[test]
fn empty_key_set_misses_every_key() {
    assert_eq!(extract(&key_set(&[]), r#"{"t":1}"#), Err(ExtractError::MissingKey));
}

#[test]
fn empty_line_is_malformed() {
    assert_eq!(extract(&key_set(&["t"]), ""), Err(ExtractError::MalformedLine));
}

#[test]
fn text_that_is_no_json_is_malformed() {
    assert_eq!(extract(&key_set(&["t"]), "t=15"), Err(ExtractError::MalformedLine));
    assert_eq!(extract(&key_set(&["t"]), r#"{"t":15"#), Err(ExtractError::MalformedLine));
    assert_eq!(extract(&key_set(&["t"]), r#"{"t":15,}"#), Err(ExtractError::MalformedLine));
    assert_eq!(extract(&key_set(&["t"]), r#"{"t" 15}"#), Err(ExtractError::MalformedLine));
    assert_eq!(extract(&key_set(&["t"]), r#"{t:15}"#), Err(ExtractError::MalformedLine));
}

#[test]
fn json_that_is_no_object_is_malformed() {
    assert_eq!(extract(&key_set(&["t"]), "[1,2]"), Err(ExtractError::MalformedLine));
    assert_eq!(extract(&key_set(&["t"]), "15"), Err(ExtractError::MalformedLine));
    assert_eq!(extract(&key_set(&["t"]), r#""t""#), Err(ExtractError::MalformedLine));
    assert_eq!(extract(&key_set(&["t"]), "null"), Err(ExtractError::MalformedLine));
}

#[test]
fn text_after_the_object_is_malformed() {
    assert_eq!(extract(&key_set(&["t"]), r#"{"t":1} x"#), Err(ExtractError::MalformedLine));
    assert_eq!(extract(&key_set(&["t"]), r#"{"t":1}{"t":2}"#), Err(ExtractError::MalformedLine));
}

#[test]
fn malformed_value_after_the_key_is_malformed() {
    assert_eq!(extract(&key_set(&["t"]), r#"{"t":1,"x":tru}"#), Err(ExtractError::MalformedLine));
}

#[test]
fn white_space_around_the_object_is_accepted() {
    assert_eq!(extract(&key_set(&["t"]), " \t{ \"t\" : 3 } \r"), Ok(3));
}

#[test]
fn key_that_is_no_integer_is_malformed() {
    assert_eq!(extract(&key_set(&["t"]), r#"{"t":"15"}"#), Err(ExtractError::MalformedLine));
    assert_eq!(extract(&key_set(&["t"]), r#"{"t":1.5}"#), Err(ExtractError::MalformedLine));
    assert_eq!(extract(&key_set(&["t"]), r#"{"t":1e3}"#), Err(ExtractError::MalformedLine));
    assert_eq!(extract(&key_set(&["t"]), r#"{"t":null}"#), Err(ExtractError::MalformedLine));
    assert_eq!(extract(&key_set(&["t"]), r#"{"t":true}"#), Err(ExtractError::MalformedLine));
    assert_eq!(extract(&key_set(&["t"]), r#"{"t":[1]}"#), Err(ExtractError::MalformedLine));
    assert_eq!(extract(&key_set(&["t"]), r#"{"t":{"t":1}}"#), Err(ExtractError::MalformedLine));
}

#[test]
fn first_named_field_decides_even_where_it_fails() {
    assert_eq!(
        extract(&key_set(&["a", "b"]), r#"{"a":"x","b":2}"#),
        Err(ExtractError::MalformedLine)
    );
}

#[test]
fn key_at_the_ends_of_the_range() {
    assert_eq!(
        extract(&key_set(&["t"]), r#"{"t":9223372036854775807}"#),
        Ok(i64::MAX)
    );
    assert_eq!(
        extract(&key_set(&["t"]), r#"{"t":-9223372036854775808}"#),
        Ok(i64::MIN)
    );
    assert_eq!(extract(&key_set(&["t"]), r#"{"t":0}"#), Ok(0));
    assert_eq!(extract(&key_set(&["t"]), r#"{"t":-1}"#), Ok(-1));
}

#[test]
fn key_beyond_the_range_is_malformed() {
    assert_eq!(
        extract(&key_set(&["t"]), r#"{"t":9223372036854775808}"#),
        Err(ExtractError::MalformedLine)
    );
    assert_eq!(
        extract(&key_set(&["t"]), r#"{"t":-9223372036854775809}"#),
        Err(ExtractError::MalformedLine)
    );
}

#[test]
fn only_top_level_fields_are_looked_at() {
    assert_eq!(extract(&key_set(&["t"]), r#"{"a":{"t":1},"t":2}"#), Ok(2));
    assert_eq!(
        extract(&key_set(&["t"]), r#"{"a":{"t":1}}"#),
        Err(ExtractError::MissingKey)
    );
}

#[test]
fn name_with_an_escape_is_a_name() {
    assert_eq!(extract(&key_set(&["t"]), r#"{"t":4}"#), Ok(4));
    assert_eq!(extract(&key_set(&["a\nb"]), r#"{"a\nb":5}"#), Ok(5));
}

#[test]
fn name_is_compared_whole_and_with_case() {
    assert_eq!(extract(&key_set(&["t"]), r#"{"T":1,"tt":2}"#), Err(ExtractError::MissingKey));
}

#[test]
fn extraction_twice_gives_the_same() {
    let keys = key_set(&["t"]);
    for line in [r#"{"t":15}"#, r#"{"x":1}"#, "garbage", ""] {
        assert_eq!(extract(&keys, line), extract(&keys, line));
    }
}

#[test]
fn select_takes_the_first_named_member() {
    let members = vec![member("a", Some(1)), member("t", Some(2)), member("ts", Some(3))];
    assert_eq!(select(&key_set(&["ts", "t"]), &members), Ok(2));
}

#[test]
fn select_without_named_member_misses_the_key() {
    let members = vec![member("a", Some(1))];
    assert_eq!(select(&key_set(&["t"]), &members), Err(ExtractError::MissingKey));
    assert_eq!(select(&key_set(&["t"]), &Vec::new()), Err(ExtractError::MissingKey));
}

#[test]
fn select_of_member_without_number_is_malformed() {
    let members = vec![member("t", None), member("t2", Some(3))];
    assert_eq!(select(&key_set(&["t", "t2"]), &members), Err(ExtractError::MalformedLine));
}

#[test]
fn key_set_holds_its_names() {
    let keys = key_set(&["timestamp", "t"]);
    assert!(keys.contains(&"t".to_string()));
    assert!(keys.contains(&"timestamp".to_string()));
    assert!(!keys.contains(&"time".to_string()));
    assert!(!key_set(&[]).contains(&"t".to_string()));
}

#[test]
fn reasons_in_words() {
    assert_eq!(ExtractError::MissingKey.describe(), "no fields of the provided set");
    assert_eq!(
        ExtractError::MalformedLine.describe(),
        "not a JSON object with an integer key"
    );
}

#[test]
fn first_of_repeated_names_decides() {
    assert_eq!(extract(&key_set(&["t"]), r#"{"t":1,"t":2}"#), Ok(1));
    assert_eq!(extract(&key_set(&["t"]), r#"{"t":1,"t":"a"}"#), Ok(1));
    assert_eq!(
        extract(&key_set(&["t"]), r#"{"t":"a","t":2}"#),
        Err(ExtractError::MalformedLine)
    );
}

#[test]
fn fields_come_in_the_order_of_the_text() {
    let members =
        scan_object(br#" { "b" : 2 , "a" : "x", "b" : [ {"c":1} ], "n":null,"big":1e9 } "#).unwrap();
    let seen: Vec<(&str, Option<i64>)> = members
        .iter()
        .map(|member| (member.name.as_str(), member.number))
        .collect();
    assert_eq!(
        seen,
        vec![("b", Some(2)), ("a", None), ("b", None), ("n", None), ("big", None)]
    );
}

#[test]
fn empty_object_has_no_fields() {
    assert_eq!(scan_object(b"{}").unwrap().len(), 0);
    assert_eq!(scan_object(b" \t{ \n} \r").unwrap().len(), 0);
}

#[test]
fn text_that_holds_no_object_has_no_fields() {
    let texts: Vec<&[u8]> = vec![
        b"",
        b" ",
        b"{",
        b"}",
        b"{,}",
        br#"{"a"}"#,
        br#"{"a":}"#,
        br#"{"a":1,}"#,
        br#"{"a":1 "b":2}"#,
        br#"{"a":1}}"#,
        br#"{"a":1},"#,
        br#"[{"a":1}]"#,
        br#"{"a":1x}"#,
        br#"{"a":01}"#,
        br#"{'a':1}"#,
        br#"{"a":1,"b"}"#,
        br#"{"a":1"b":2}"#,
        br#"{"a"::1}"#,
        b"nul",
        b"{\"a\":1}\x0b",
    ];
    for text in texts {
        assert!(scan_object(text).is_none());
    }
}

#[test]
fn names_are_decoded() {
    let members = scan_object(r#"{"\u0074s":1,"a\"b":2,"é":3}"#.as_bytes()).unwrap();
    let seen: Vec<&str> = members.iter().map(|member| member.name.as_str()).collect();
    assert_eq!(seen, vec!["ts", "a\"b", "\u{e9}"]);
}

#[test]
fn text_beyond_ascii_is_read() {
    assert_eq!(
        extract(&key_set(&["t"]), "{\"\u{e9}t\u{e9}\":\"\u{1f600}\",\"t\":5}"),
        Ok(5)
    );
    assert_eq!(extract(&key_set(&["\u{e9}"]), "{\"\u{e9}\":6}"), Ok(6));
}

#[test]
fn values_are_passed_over_whatever_they_hold() {
    let line = r#"{"a":{"b":[1,{"c":"}"}],"d":"{"},"e":"\"","f":[[],{}],"g":-1.5e-3,"t":42}"#;
    assert_eq!(extract(&key_set(&["t"]), line), Ok(42));
}

#[test]
fn minus_zero_is_no_integer() {
    assert_eq!(extract(&key_set(&["t"]), r#"{"t":-0}"#), Err(ExtractError::MalformedLine));
    assert_eq!(extract(&key_set(&["t"]), r#"{"t":0}"#), Ok(0));
}

#[test]
fn number_with_a_leading_zero_is_malformed() {
    assert_eq!(extract(&key_set(&["t"]), r#"{"t":015}"#), Err(ExtractError::MalformedLine));
}
