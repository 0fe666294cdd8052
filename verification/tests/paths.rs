use facet_index::path::FacetPath;
use facet_index::text::{decimal_text, lex_less};

fn path(text: &str) -> FacetPath {
    FacetPath::parse(text).expect("a facet path")
}

#[test]
fn parse_reads_the_segments_between_slashes() {
    let p = path("/subjects/id_mod_2_0");
    assert_eq!(p.depth(), 2);
    assert_eq!(p.segment(0), "subjects");
    assert_eq!(p.segment(1), "id_mod_2_0");
}

#[test]
fn parse_reads_the_root() {
    let p = path("/");
    assert_eq!(p.depth(), 0);
    assert_eq!(p.to_text(), "/");
    assert_eq!(p.key(), "");
    assert!(p.same(&FacetPath::root()));
}

#[test]
fn parse_refuses_what_is_no_facet_path() {
    assert!(FacetPath::parse("").is_none());
    assert!(FacetPath::parse("subjects").is_none());
    assert!(FacetPath::parse("subjects/a").is_none());
    assert!(FacetPath::parse("//").is_none());
    assert!(FacetPath::parse("/a/").is_none());
    assert!(FacetPath::parse("/a//b").is_none());
    assert!(FacetPath::parse("//a").is_none());
    assert!(FacetPath::parse(" /a").is_none());
}

#[test]
fn parse_takes_any_other_character_as_part_of_a_segment() {
    let p = path("/a b/\u{e9}t\u{e9}/x|y");
    assert_eq!(p.depth(), 3);
    assert_eq!(p.segment(0), "a b");
    assert_eq!(p.segment(1), "\u{e9}t\u{e9}");
    assert_eq!(p.segment(2), "x|y");
    assert_eq!(p.to_text(), "/a b/\u{e9}t\u{e9}/x|y");
}

#[test]
fn text_of_a_path_reads_back_as_the_path() {
    for text in ["/", "/a", "/a/b", "/subjects/id_mod_99_42", "/x/y/z/w"] {
        let p = path(text);
        assert_eq!(p.to_text(), text);
        assert!(path(&p.to_text()).same(&p));
    }
}

#[test]
fn key_joins_the_segments_with_a_bar() {
    assert_eq!(path("/subjects/id_1").key(), "subjects|id_1");
    assert_eq!(path("/subjects").key(), "subjects");
    assert_eq!(path("/a/b/c").key(), "a|b|c");
}

#[test]
fn prefix_is_by_whole_segments() {
    let subjects = path("/subjects");
    assert!(subjects.is_prefix_of(&path("/subjects")));
    assert!(subjects.is_prefix_of(&path("/subjects/id_1")));
    assert!(subjects.is_prefix_of(&path("/subjects/a/b")));
    assert!(!subjects.is_prefix_of(&path("/subjects_more/a")));
    assert!(!subjects.is_prefix_of(&path("/sub")));
    assert!(!subjects.is_prefix_of(&path("/")));
    assert!(!path("/subjects/a").is_prefix_of(&subjects));
    assert!(FacetPath::root().is_prefix_of(&subjects));
}

#[test]
fn same_tells_equal_paths_from_others() {
    assert!(path("/a/b").same(&path("/a/b")));
    assert!(!path("/a/b").same(&path("/a")));
    assert!(!path("/a/b").same(&path("/a/c")));
    assert!(!path("/a").same(&path("/a/b")));
}

#[test]
fn segment_below_gives_the_child_under_a_prefix() {
    let subjects = path("/subjects");
    let deep = path("/subjects/history/rome");
    assert_eq!(deep.segment_below(&subjects).map(|s| s.as_str()), Some("history"));
    assert_eq!(deep.segment_below(&path("/subjects/history")).map(|s| s.as_str()), Some("rome"));
    assert_eq!(deep.segment_below(&FacetPath::root()).map(|s| s.as_str()), Some("subjects"));
    assert!(deep.segment_below(&deep).is_none());
    assert!(deep.segment_below(&path("/other")).is_none());
    assert!(subjects.segment_below(&deep).is_none());
}

#[test]
fn child_and_extend_go_one_level_down() {
    let subjects = path("/subjects");
    let child = subjects.child("id_7").expect("a valid segment");
    assert_eq!(child.to_text(), "/subjects/id_7");
    assert!(subjects.child("").is_none());
    assert!(subjects.child("a/b").is_none());
    assert_eq!(subjects.extend("x").to_text(), "/subjects/x");
    assert_eq!(subjects.to_text(), "/subjects");
    let copy = child.clone();
    assert!(copy.same(&child));
}

#[test]
fn lexical_order_goes_by_the_first_difference() {
    assert!(lex_less("a", "b"));
    assert!(!lex_less("b", "a"));
    assert!(!lex_less("a", "a"));
    assert!(lex_less("", "a"));
    assert!(!lex_less("a", ""));
    assert!(!lex_less("", ""));
    assert!(lex_less("id_1", "id_10"));
    assert!(lex_less("id_10", "id_2"));
    assert!(lex_less("id_9999", "id_mod_2_0"));
    assert!(lex_less("id_mod_99_9", "id_mod_99_98"));
    assert!(lex_less("Z", "a"));
    assert!(lex_less("z", "\u{e9}"));
}

#[test]
fn decimal_text_writes_numbers_without_leading_zeros() {
    assert_eq!(decimal_text(0), "0");
    assert_eq!(decimal_text(7), "7");
    assert_eq!(decimal_text(10), "10");
    assert_eq!(decimal_text(98), "98");
    assert_eq!(decimal_text(10000), "10000");
    assert_eq!(decimal_text(1234567890), "1234567890");
    assert_eq!(decimal_text(u64::MAX), "18446744073709551615");
}
