use grammar_engine::presentation::display_regex;

#[test]
fn displays_union_with_a_plus_sign() {
    assert_eq!(display_regex("(1|0|2)*a"), "(1+0+2)*a");
}

#[test]
fn expressions_without_union_are_shown_as_they_are() {
    assert_eq!(display_regex("a*ab"), "a*ab");
    assert_eq!(display_regex(""), "");
}
