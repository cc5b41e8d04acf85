use sr_router::text::{find_from, matches_at};
use sr_router::tree::Segment;

#[test]
fn literal_matches_where_it_stands() {
    let seg = Segment::Static("/a".to_string());
    assert_eq!(seg.check("/a/b", 0), Some((2, None)));
    assert_eq!(seg.check("x/a/b", 1), Some((3, None)));
}

#[test]
fn literal_is_anchored() {
    let seg = Segment::Static("/a".to_string());
    assert_eq!(seg.check("x/a", 0), None);
    assert_eq!(seg.check("/b", 0), None);
    assert_eq!(seg.check("/", 0), None);
}

#[test]
fn capture_until_takes_the_first_occurrence() {
    let seg = Segment::Until("b".to_string());
    assert_eq!(seg.check("/a-X-b-Y-c", 2), Some((6, Some((2, 5)))));
    assert_eq!(seg.check("abab", 0), Some((2, Some((0, 1)))));
    assert_eq!(seg.check("abab", 2), Some((4, Some((2, 3)))));
}

#[test]
fn capture_until_may_capture_nothing() {
    let seg = Segment::Until("/".to_string());
    assert_eq!(seg.check("a/b", 1), Some((2, Some((1, 1)))));
    let empty = Segment::Until(String::new());
    assert_eq!(empty.check("abc", 1), Some((1, Some((1, 1)))));
    assert_eq!(empty.check("abc", 3), Some((3, Some((3, 3)))));
}

#[test]
fn capture_until_fails_without_its_delimiter() {
    let seg = Segment::Until("b".to_string());
    assert_eq!(seg.check("/a-X-", 0), None);
    assert_eq!(seg.check("abc", 2), None);
    assert_eq!(seg.check("", 0), None);
}

#[test]
fn capture_to_end_takes_the_rest() {
    assert_eq!(Segment::UntilEnd.check("/digits/12345", 8), Some((13, Some((8, 13)))));
    assert_eq!(Segment::UntilEnd.check("x", 0), Some((1, Some((0, 1)))));
}

#[test]
fn capture_to_end_fails_at_the_end() {
    assert_eq!(Segment::UntilEnd.check("/digits/", 8), None);
    assert_eq!(Segment::UntilEnd.check("", 0), None);
}

#[test]
fn nothing_applies_behind_the_end() {
    assert_eq!(Segment::UntilEnd.check("abc", 4), None);
    assert_eq!(Segment::Static(String::new()).check("abc", 4), None);
    assert_eq!(Segment::Until(String::new()).check("abc", 4), None);
    assert_eq!(Segment::Static(String::new()).check("abc", 3), Some((3, None)));
}

#[test]
fn positions_are_byte_offsets() {
    let seg = Segment::Until("/".to_string());
    assert_eq!(seg.check("/caf\u{e9}/x", 1), Some((7, Some((1, 6)))));
    let lit = Segment::Static("\u{e9}".to_string());
    assert_eq!(lit.check("caf\u{e9}", 3), Some((5, None)));
}

#[test]
fn finds_the_first_occurrence_of_bytes() {
    assert_eq!(find_from(b"abcabc", b"bc", 0), Some(1));
    assert_eq!(find_from(b"abcabc", b"bc", 2), Some(4));
    assert_eq!(find_from(b"abcabc", b"bc", 5), None);
    assert_eq!(find_from(b"abcabc", b"", 6), Some(6));
    assert_eq!(find_from(b"abcabc", b"", 7), None);
    assert_eq!(find_from(b"abc", b"abcd", 0), None);
    assert_eq!(find_from(b"aab", b"ab", 0), Some(1));
}

#[test]
fn tells_whether_bytes_occur_at_a_position() {
    assert!(matches_at(b"abc", b"bc", 1));
    assert!(!matches_at(b"abc", b"bc", 0));
    assert!(!matches_at(b"abc", b"bc", 2));
    assert!(matches_at(b"abc", b"", 3));
    assert!(!matches_at(b"abc", b"", 4));
}
