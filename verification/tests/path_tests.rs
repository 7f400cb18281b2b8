use unzipper::path::{parent_of, resolve_path};
use unzipper::text::{chars_of, digit_to_char, push_chars, push_decimal};

#[test]
fn plain_name_resolves_to_itself() {
    assert_eq!(resolve_path("hello.txt"), Some("hello.txt".to_string()));
}

#[test]
fn nested_name_keeps_its_components() {
    assert_eq!(resolve_path("a/b/c.txt"), Some("a/b/c.txt".to_string()));
}

#[test]
fn trailing_separator_is_dropped() {
    assert_eq!(resolve_path("d/"), Some("d".to_string()));
    assert_eq!(resolve_path("a/b/"), Some("a/b".to_string()));
}

#[test]
fn empty_and_current_segments_are_dropped() {
    assert_eq!(resolve_path("a//b"), Some("a/b".to_string()));
    assert_eq!(resolve_path("./a/./b"), Some("a/b".to_string()));
    assert_eq!(resolve_path(""), Some(".".to_string()));
    assert_eq!(resolve_path("."), Some(".".to_string()));
    assert_eq!(resolve_path("./"), Some(".".to_string()));
}

#[test]
fn parent_segment_removes_the_component_before_it() {
    assert_eq!(resolve_path("foo/../bar"), Some("bar".to_string()));
    assert_eq!(resolve_path("a/b/../../c"), Some("c".to_string()));
    assert_eq!(resolve_path("a/.."), Some(".".to_string()));
}

#[test]
fn climbing_above_the_root_is_rejected() {
    assert_eq!(resolve_path("../escape"), None);
    assert_eq!(resolve_path(".."), None);
    assert_eq!(resolve_path("foo/../../bar"), None);
    assert_eq!(resolve_path("a/../../b/c/d"), None);
}

#[test]
fn absolute_name_is_rejected() {
    assert_eq!(resolve_path("/etc/passwd"), None);
    assert_eq!(resolve_path("/"), None);
}

#[test]
fn name_with_nul_is_rejected() {
    assert_eq!(resolve_path("a\0b"), None);
    assert_eq!(resolve_path("a/b\0"), None);
}

#[test]
fn names_with_dots_inside_are_ordinary() {
    assert_eq!(resolve_path("..."), Some("...".to_string()));
    assert_eq!(resolve_path("a/..b/.c"), Some("a/..b/.c".to_string()));
}

#[test]
fn resolving_twice_changes_nothing() {
    let once = resolve_path("x/./y/../z/").unwrap();
    assert_eq!(once, "x/z");
    assert_eq!(resolve_path(&once), Some(once.clone()));
}

#[test]
fn decimal_of_zero_and_small_numbers() {
    let mut s = String::new();
    push_decimal(&mut s, 0);
    assert_eq!(s, "0");
    let mut t = String::from("n=");
    push_decimal(&mut t, 7);
    assert_eq!(t, "n=7");
}

#[test]
fn decimal_of_large_numbers() {
    let mut s = String::new();
    push_decimal(&mut s, 1234567890);
    assert_eq!(s, "1234567890");
    let mut t = String::new();
    push_decimal(&mut t, u64::MAX);
    assert_eq!(t, "18446744073709551615");
    let mut u = String::new();
    push_decimal(&mut u, 100);
    assert_eq!(u, "100");
}

#[test]
fn digits_map_to_their_characters() {
    let all: Vec<char> = (0u8..10).map(digit_to_char).collect();
    assert_eq!(all, vec!['0', '1', '2', '3', '4', '5', '6', '7', '8', '9']);
}

#[test]
fn characters_round_trip() {
    let v = chars_of("héllo/wörld");
    assert_eq!(v.len(), 11);
    let mut s = String::from(">");
    push_chars(&mut s, &v);
    assert_eq!(s, ">héllo/wörld");
}

#[test]
fn parent_is_all_components_but_the_last() {
    assert_eq!(parent_of("a/b/c.txt"), Some("a/b".to_string()));
    assert_eq!(parent_of("a/b"), Some("a".to_string()));
    assert_eq!(parent_of("d/f"), Some("d".to_string()));
}

#[test]
fn parent_of_a_single_component_is_the_empty_path() {
    assert_eq!(parent_of("hello.txt"), Some(String::new()));
}

#[test]
fn working_directory_has_no_parent() {
    assert_eq!(parent_of("."), None);
    assert_eq!(parent_of(""), None);
}

#[test]
fn parent_of_a_rejected_name_is_none() {
    assert_eq!(parent_of("../x"), None);
    assert_eq!(parent_of("/x/y"), None);
}

#[test]
fn parent_reads_the_path_as_the_resolver_does() {
    assert_eq!(parent_of("a/./b/../c/"), Some("a".to_string()));
}

#[test]
fn working_directory_resolves_to_itself() {
    let once = resolve_path("x/..").unwrap();
    assert_eq!(once, ".");
    assert_eq!(resolve_path(&once), Some(".".to_string()));
}
