use xliff_strings::argument::ArgumentString;

fn sections_of(raw: &str) -> Vec<String> {
    ArgumentString::from(raw).sections
}

fn template_of(raw: &str) -> String {
    ArgumentString::from(raw).format_string
}

#[test]
fn no_placeholders_stays_whole() {
    assert_eq!(sections_of("no args here"), vec!["no args here".to_string()]);
    assert_eq!(template_of("no args here"), "no args here");
}

#[test]
fn percent_without_digit_is_literal() {
    assert_eq!(sections_of("100% sure"), vec!["100% sure".to_string()]);
    assert_eq!(template_of("100% sure"), "100% sure");
}

#[test]
fn single_placeholder_splits_in_two() {
    assert_eq!(
        sections_of("Hello %1"),
        vec!["Hello ".to_string(), "".to_string()]
    );
    assert_eq!(template_of("Hello %1"), "Hello {arg_1}");
}

#[test]
fn two_placeholders() {
    assert_eq!(
        sections_of("a%1b%2c"),
        vec!["a".to_string(), "b".to_string(), "c".to_string()]
    );
    assert_eq!(template_of("a%1b%2c"), "a{arg_1}b{arg_2}c");
}

#[test]
fn repeated_index_is_kept_verbatim() {
    assert_eq!(
        sections_of("%1%1"),
        vec!["".to_string(), "".to_string(), "".to_string()]
    );
    assert_eq!(template_of("%1%1"), "{arg_1}{arg_1}");
}

#[test]
fn template_of_literal_text_is_idempotent() {
    let once = template_of("100% sure, no args");
    let twice = template_of(&once);
    assert_eq!(twice, once);
}

#[test]
fn empty_string() {
    assert_eq!(sections_of(""), vec!["".to_string()]);
    assert_eq!(template_of(""), "");
}

#[test]
fn lone_percent_is_literal() {
    assert_eq!(sections_of("%"), vec!["%".to_string()]);
    assert_eq!(template_of("%"), "%");
}

#[test]
fn double_percent_is_not_an_escape() {
    assert_eq!(sections_of("%%"), vec!["%%".to_string()]);
    assert_eq!(template_of("%%"), "%%");
    // The second `%` is evaluated afresh: with a digit after it, it starts a
    // placeholder even directly after another `%`.
    assert_eq!(sections_of("%%1"), vec!["%".to_string(), "".to_string()]);
    assert_eq!(template_of("%%1"), "%{arg_1}");
}

#[test]
fn multi_digit_index_is_one_placeholder() {
    assert_eq!(sections_of("%12x"), vec!["".to_string(), "x".to_string()]);
    assert_eq!(template_of("%12x"), "{arg_12}x");
}

#[test]
fn index_zero_is_read_as_written() {
    assert_eq!(sections_of("%0"), vec!["".to_string(), "".to_string()]);
    assert_eq!(template_of("%0"), "{arg_0}");
}

#[test]
fn out_of_order_indices_are_not_renumbered() {
    assert_eq!(
        sections_of("x%3y%1z"),
        vec!["x".to_string(), "y".to_string(), "z".to_string()]
    );
    assert_eq!(template_of("x%3y%1z"), "x{arg_3}y{arg_1}z");
}

#[test]
fn placeholder_only_string() {
    assert_eq!(sections_of("%1"), vec!["".to_string(), "".to_string()]);
    assert_eq!(template_of("%1"), "{arg_1}");
}
