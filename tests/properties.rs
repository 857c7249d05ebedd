use hapolicy::glob;
use hapolicy::glob::{matches_glob, matches_segments};

#[test]
fn literal_patterns_compare_segment_by_segment() {
    assert!(glob::matches("a/b/c", "a/b/c", "/"));
    assert!(!glob::matches("a/b/c", "a/b/d", "/"));
    assert!(!glob::matches("a/b", "a/b/c", "/"));
    assert!(glob::matches("a::b", "a::b", "::"));
    assert!(!glob::matches("a::b", "a:b", "::"));
}

#[test]
fn pattern_accepts_itself() {
    for p in ["", "a", "a/b", "*", "**", "a/**/b", "a*b/**/c*", "**/**", "/", "x//y/"] {
        assert!(glob::matches(p, p, "/"), "{}", p);
        assert!(glob::matches(p, p, ""), "{}", p);
    }
}

#[test]
fn trailing_marker_takes_any_number_of_segments() {
    assert!(glob::matches("a/b/c/**", "a/b/c", "/"));
    assert!(glob::matches("a/b/c/**", "a/b/c/d/e", "/"));
    assert!(!glob::matches("a/b/c/**", "a/b", "/"));
}

#[test]
fn single_wildcard_stays_in_its_segment() {
    assert!(!glob::matches("*", "a/b", "/"));
    assert!(glob::matches("*", "ab", ""));
    assert!(glob::matches("*", "a/b", ""));
}

#[test]
fn consecutive_markers_act_as_one() {
    assert!(glob::matches("a/**/**", "a/x/y", "/"));
    assert!(glob::matches("a/**/**/b", "a/b", "/"));
    assert!(glob::matches("a/**/**/b", "a/x/y/z/b", "/"));
}

#[test]
fn consecutive_trailing_markers_need_a_segment() {
    assert!(glob::matches("a/**", "a", "/"));
    assert!(!glob::matches("a/**/**", "a", "/"));
}

#[test]
fn empty_strings_under_any_separator() {
    for sep in ["", "/", "a", "ab", "::"] {
        assert!(glob::matches("", "", sep), "{}", sep);
        assert!(!glob::matches("a", "", sep), "{}", sep);
        assert!(!glob::matches("", "a", sep), "{}", sep);
    }
}

#[test]
fn concrete_scenarios() {
    assert!(glob::matches("a/*", "a/foo", "/"));
    assert!(!glob::matches("*/*", "foo/bar/baz", "/"));
    assert!(glob::matches("a/**/*.jpg", "a/foo/bar/baz.jpg", "/"));
    assert!(!glob::matches("a/**/*.jpg", "a/foo/bar/baz", "/"));
    assert!(!glob::matches("b/*/a", "foo/a/a", "/"));
}

#[test]
fn empty_segments_are_kept() {
    assert!(glob::matches("/a", "/a", "/"));
    assert!(!glob::matches("/a", "a", "/"));
    assert!(glob::matches("a//b", "a//b", "/"));
    assert!(!glob::matches("a//b", "a/b", "/"));
    assert!(glob::matches("a/*/b", "a//b", "/"));
    assert!(glob::matches("a/", "a/", "/"));
    assert!(!glob::matches("a/", "a", "/"));
}

#[test]
fn separators_of_several_characters() {
    assert!(glob::matches("ht::*::x", "ht::svc::x", "::"));
    assert!(!glob::matches("ht::*::x", "ht::svc::y::x", "::"));
    assert!(glob::matches("ht::**", "ht::svc::y::x", "::"));
    assert!(glob::matches("a:b", "a:b", "::"));
}

#[test]
fn marker_only_as_a_whole_segment() {
    assert!(!glob::matches("a**/c", "ab/x/c", "/"));
    assert!(glob::matches("a**", "abc", "/"));
    assert!(!matches_segments(&["**b"], &["a", "b"]));
}

#[test]
fn two_wildcards_need_a_character() {
    assert!(!matches_glob("**", ""));
    assert!(matches_glob("**", "a"));
    assert!(matches_glob("*", ""));
}

#[test]
fn characters_are_scalar_values() {
    assert!(matches_glob("h?*é", "h?llé"));
    assert!(matches_glob("*ü", "üü"));
    assert!(!matches_glob("a*ü", "aü!"));
    assert!(glob::matches("ä/*/ö", "ä/日本/ö", "/"));
}

#[test]
fn literal_wildcard_in_candidate_is_plain() {
    assert!(!glob::matches("a", "*", "/"));
    assert!(!matches_glob("a*", "*a"));
}

#[test]
fn many_wildcards_finish_quickly() {
    let pattern = "*a".repeat(40) + "b";
    let candidate = "a".repeat(200);
    assert!(!matches_glob(&pattern, &candidate));
    let segments = "**/".repeat(40) + "b";
    let path = "a/".repeat(200) + "c";
    assert!(!glob::matches(&segments, &path, "/"));
    assert!(glob::matches(&segments, &("a/".repeat(200) + "b"), "/"));
}
