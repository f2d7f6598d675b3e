use fivem_utils::tokenize::config_line_split;

fn split(line: &str) -> Vec<String> {
    config_line_split(line.to_string())
}

#[test]
fn quoted_span_is_one_token() {
    assert_eq!(
        split("set NAME \"hello world\""),
        vec!["set".to_string(), "NAME".to_string(), "hello world".to_string()]
    );
}

#[test]
fn spaces_collapse_outside_quotes() {
    assert_eq!(split("  start   a  b "), vec!["start".to_string(), "a".to_string(), "b".to_string()]);
}

#[test]
fn empty_and_blank_lines_have_no_tokens() {
    assert_eq!(split(""), Vec::<String>::new());
    assert_eq!(split("     "), Vec::<String>::new());
}

#[test]
fn unterminated_quote_runs_to_end_of_line() {
    assert_eq!(split("say \"hello world"), vec!["say".to_string(), "hello world".to_string()]);
}

#[test]
fn empty_quotes_produce_no_token() {
    assert_eq!(split("set FOO \"\""), vec!["set".to_string(), "FOO".to_string()]);
}

#[test]
fn quotes_are_structural_not_literal() {
    assert_eq!(split("a\"b\"c"), vec!["abc".to_string()]);
}

#[test]
fn retokenizing_the_rejoined_tokens_is_stable() {
    // With no token keeping an inner space, splitting the single-space
    // rejoining gives the tokens back.
    let first = split("  start   a  b ");
    let rejoined = first.join(" ");
    let second = split(&rejoined);
    assert_eq!(first, second);

    let first = split("set \"FOO\" bar");
    let second = split(&first.join(" "));
    assert_eq!(first, second);
}
