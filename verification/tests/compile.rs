use sr_router::tree::Segment;

fn text(s: &str) -> Segment {
    Segment::Static(s.to_string())
}

fn until(s: &str) -> Segment {
    Segment::Until(s.to_string())
}

#[test]
fn compiles_a_pattern_without_wildcard_to_one_literal() {
    assert_eq!(Segment::parse("/foos"), vec![text("/foos")]);
}

#[test]
fn compiles_a_trailing_wildcard_to_capture_to_end() {
    assert_eq!(Segment::parse("/digits/*"), vec![text("/digits/"), Segment::UntilEnd]);
}

#[test]
fn compiles_a_bare_wildcard_to_capture_to_end() {
    assert_eq!(Segment::parse("*"), vec![Segment::UntilEnd]);
}

#[test]
fn compiles_an_escaped_asterisk_to_text() {
    assert_eq!(Segment::parse("a\\*b"), vec![text("a*b")]);
}

#[test]
fn compiles_the_empty_pattern_to_nothing() {
    assert_eq!(Segment::parse(""), Vec::<Segment>::new());
}

#[test]
fn compiles_inner_wildcards_to_capture_until() {
    assert_eq!(Segment::parse("/a*b*c"), vec![text("/a"), until("b"), until("c")]);
}

#[test]
fn compiles_a_slash_and_wildcard() {
    assert_eq!(Segment::parse("/*"), vec![text("/"), Segment::UntilEnd]);
}

#[test]
fn compiles_a_leading_wildcard_to_a_capture_with_empty_delimiter() {
    assert_eq!(Segment::parse("*a"), vec![until(""), until("a")]);
}

#[test]
fn compiles_two_wildcards() {
    assert_eq!(Segment::parse("**"), vec![until(""), until(""), Segment::UntilEnd]);
    assert_eq!(Segment::parse("a**"), vec![text("a"), until(""), Segment::UntilEnd]);
}

#[test]
fn keeps_a_backslash_that_escapes_nothing() {
    assert_eq!(Segment::parse("a\\b"), vec![text("a\\b")]);
    assert_eq!(Segment::parse("a\\"), vec![text("a\\")]);
    assert_eq!(Segment::parse("\\"), vec![text("\\")]);
}

#[test]
fn reads_a_backslash_before_an_escaped_asterisk_as_text() {
    assert_eq!(Segment::parse("\\\\*"), vec![text("\\*")]);
}

#[test]
fn splits_at_a_wildcard_that_follows_an_escaped_asterisk() {
    assert_eq!(Segment::parse("\\**"), vec![text("*"), Segment::UntilEnd]);
    assert_eq!(Segment::parse("*\\*"), vec![until(""), until("*")]);
}

#[test]
fn compiles_an_escaped_asterisk_alone() {
    assert_eq!(Segment::parse("\\*"), vec![text("*")]);
}

#[test]
fn compiles_text_beyond_ascii() {
    assert_eq!(Segment::parse("/caf\u{e9}/*/\u{4e2d}"), vec![
        text("/caf\u{e9}/"),
        until("/\u{4e2d}"),
    ]);
}

#[test]
fn takes_percent_signs_as_text() {
    assert_eq!(Segment::parse("%%ASTERISK%%"), vec![text("%%ASTERISK%%")]);
}

#[test]
fn recompiles_escaped_text_to_the_same_literal() {
    for literal in ["a*b", "*", "**", "\\*", "a\\", "plain", "/x/*/y*"] {
        let pattern = literal.replace('*', "\\*");
        assert_eq!(Segment::parse(&pattern), vec![text(literal)], "{}", literal);
    }
}

#[test]
fn recompiles_the_text_of_a_compiled_literal() {
    let first = Segment::parse("/a\\*b*c");
    assert_eq!(first, vec![text("/a*b"), until("c")]);
    match &first[0] {
        Segment::Static(literal) => {
            let again = Segment::parse(&literal.replace('*', "\\*"));
            assert_eq!(again, vec![text("/a*b")]);
        }
        other => panic!("{:?}", other),
    }
}

#[test]
fn compares_segments_by_kind_and_text() {
    assert_eq!(text("a"), text("a"));
    assert_ne!(text("a"), text("b"));
    assert_ne!(text("a"), until("a"));
    assert_ne!(until("a"), Segment::UntilEnd);
    assert_eq!(Segment::UntilEnd, Segment::UntilEnd);
}
