use window_titles::split;

#[test]
fn test_split() {
    let string = r#"{{}, {"0"}, {"1", "2"}}"#;
    assert_eq!(split(string), &["0", "1", "2"]);
}

#[test]
fn test_split_handles_no_end_quote() {
    let input = r#"{"\" - Brave", "1", "2"}"#;
    assert_eq!(split(input), vec![r#"" - Brave"#, "1", "2"]);
}

#[test]
fn emoji_test() {
    let input = r#"{"👋"}, {"😾"}, {"🤮", "🎃"}"#;
    assert_eq!(split(input), vec![r#"👋"#, r#"😾"#, r#"🤮"#, r#"🎃"#]);
}

#[test]
fn empty_list_yields_no_titles() {
    assert_eq!(split("{}"), Vec::<String>::new());
}

#[test]
fn empty_input_yields_no_titles() {
    assert_eq!(split(""), Vec::<String>::new());
}

#[test]
fn unterminated_trailing_segment_is_dropped() {
    assert_eq!(split(r#"{"a", "b"#), vec!["a"]);
}

#[test]
fn unterminated_segment_keeps_earlier_titles() {
    assert_eq!(split(r#"{"first", "second"}, {"dangling"#), vec!["first", "second"]);
}

#[test]
fn empty_quoted_pair_yields_empty_title() {
    assert_eq!(split(r#"{""}"#), vec![""]);
}

#[test]
fn escaped_quote_does_not_terminate() {
    assert_eq!(split(r#"{"a\"b"}"#), vec![r#"a"b"#]);
}

#[test]
fn segment_count_matches_structure() {
    let input = r#"junk {"one"} noise, [] {"two"}{"three"} tail"#;
    assert_eq!(split(input), vec!["one", "two", "three"]);
}

#[test]
fn backslash_before_real_closing_quote() {
    // A segment whose body ends in an escaped quote still closes on the
    // quote after it.
    assert_eq!(split(r#"{"x\""}"#), vec![r#"x""#]);
}

#[test]
fn reparsing_rewrapped_output_reproduces_it() {
    let input = r#"{{}, {"plain"}, {"with \" quote", "last"}}"#;
    let first = split(input);
    let mut rewrapped = String::new();
    for title in &first {
        rewrapped.push('"');
        for c in title.chars() {
            if c == '"' {
                rewrapped.push('\\');
            }
            rewrapped.push(c);
        }
        rewrapped.push('"');
    }
    assert_eq!(split(&rewrapped), first);
}
