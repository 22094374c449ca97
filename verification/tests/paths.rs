use simple_file_transfer_v2::fs::display_name::numbered_name;
use simple_file_transfer_v2::fs::path::{
    copy_bytes, join_path_steps, join_paths, path_file_name, path_is_absolute, path_steps,
    paths_match, piece_is_parent_dir, same_bytes,
};

fn names(steps: &[&[u8]]) -> Vec<Vec<u8>> {
    steps.iter().map(|step| step.to_vec()).collect()
}

#[test]
fn steps_skip_empty_pieces_and_dots() {
    assert_eq!(path_steps(b"/a//b/./c/"), names(&[b"a", b"b", b"c"]));
    assert_eq!(path_steps(b"./a"), names(&[b"a"]));
    assert_eq!(path_steps(b"a/../b"), names(&[b"a", b"..", b"b"]));
}

#[test]
fn steps_of_paths_without_steps_are_empty() {
    assert_eq!(path_steps(b""), names(&[]));
    assert_eq!(path_steps(b"/"), names(&[]));
    assert_eq!(path_steps(b"."), names(&[]));
    assert_eq!(path_steps(b"././/"), names(&[]));
}

#[test]
fn steps_keep_dotted_names_and_all_bytes() {
    assert_eq!(path_steps(b"...//.a/b."), names(&[b"...", b".a", b"b."]));
    assert_eq!(path_steps(b"/\xff\xfe/\xc3\xa9"), names(&[b"\xff\xfe", b"\xc3\xa9"]));
}

#[test]
fn absolute_paths_start_with_a_separator() {
    assert!(path_is_absolute(b"/"));
    assert!(path_is_absolute(b"/tmp/demo"));
    assert!(!path_is_absolute(b""));
    assert!(!path_is_absolute(b"tmp/demo"));
    assert!(!path_is_absolute(b"./tmp"));
}

#[test]
fn parent_dir_is_two_dots_exactly() {
    assert!(piece_is_parent_dir(b".."));
    assert!(!piece_is_parent_dir(b"."));
    assert!(!piece_is_parent_dir(b"..."));
    assert!(!piece_is_parent_dir(b"a."));
    assert!(!piece_is_parent_dir(b""));
}

#[test]
fn file_name_is_the_final_step() {
    assert_eq!(path_file_name(b"/a/b/foo.txt"), Some(b"foo.txt".to_vec()));
    assert_eq!(path_file_name(b"/a/b/"), Some(b"b".to_vec()));
    assert_eq!(path_file_name(b"/a/b/."), Some(b"b".to_vec()));
    assert_eq!(path_file_name(b"name"), Some(b"name".to_vec()));
}

#[test]
fn file_name_is_missing_without_a_final_name() {
    assert_eq!(path_file_name(b"/"), None);
    assert_eq!(path_file_name(b""), None);
    assert_eq!(path_file_name(b"."), None);
    assert_eq!(path_file_name(b"/a/.."), None);
    assert_eq!(path_file_name(b".."), None);
}

#[test]
fn paths_match_by_start_and_steps() {
    assert!(paths_match(b"/a/b", b"/a/b"));
    assert!(paths_match(b"/a/b", b"/a//b/"));
    assert!(paths_match(b"/a/b", b"/a/./b/."));
    assert!(paths_match(b"", b""));
    assert!(paths_match(b"a/b", b"a/b/"));
}

#[test]
fn paths_differ_by_start_or_steps() {
    assert!(!paths_match(b"/a/b", b"a/b"));
    assert!(!paths_match(b"./a", b"a"));
    assert!(!paths_match(b"/a/b", b"/a"));
    assert!(!paths_match(b"/a/b", b"/a/c"));
    assert!(!paths_match(b"/a/b/..", b"/a"));
    assert!(!paths_match(b"", b"/"));
}

#[test]
fn join_puts_one_separator_between() {
    assert_eq!(join_paths(b"/tmp/demo", b"a.txt"), b"/tmp/demo/a.txt".to_vec());
    assert_eq!(join_paths(b"/tmp/demo/", b"a.txt"), b"/tmp/demo/a.txt".to_vec());
    assert_eq!(join_paths(b"/tmp/demo", b""), b"/tmp/demo/".to_vec());
    assert_eq!(join_paths(b"", b"a.txt"), b"a.txt".to_vec());
    assert_eq!(join_paths(b"/", b"a/b"), b"/a/b".to_vec());
}

#[test]
fn join_with_an_absolute_path_replaces_the_base() {
    assert_eq!(join_paths(b"/tmp/demo", b"/etc"), b"/etc".to_vec());
}

#[test]
fn joined_steps_have_separators_between() {
    let steps = names(&[b"demo", b"sub", b"x"]);
    assert_eq!(join_path_steps(&steps, 0), b"demo/sub/x".to_vec());
    assert_eq!(join_path_steps(&steps, 1), b"sub/x".to_vec());
    assert_eq!(join_path_steps(&steps, 2), b"x".to_vec());
    assert_eq!(join_path_steps(&steps, 3), b"".to_vec());
}

#[test]
fn byte_strings_compare_and_copy() {
    assert!(same_bytes(b"abc", b"abc"));
    assert!(!same_bytes(b"abc", b"abd"));
    assert!(!same_bytes(b"abc", b"ab"));
    assert!(same_bytes(b"", b""));
    assert_eq!(copy_bytes(b"\x00\xffx"), b"\x00\xffx".to_vec());
}

#[test]
fn numbered_names_carry_the_number_in_parentheses() {
    assert_eq!(numbered_name(b"foo.txt", 0), b"foo.txt".to_vec());
    assert_eq!(numbered_name(b"foo.txt", 1), b"foo.txt (1)".to_vec());
    assert_eq!(numbered_name(b"foo.txt", 9), b"foo.txt (9)".to_vec());
    assert_eq!(numbered_name(b"foo.txt", 10), b"foo.txt (10)".to_vec());
    assert_eq!(numbered_name(b"foo.txt", 1203), b"foo.txt (1203)".to_vec());
    assert_eq!(
        numbered_name(b"x", 18446744073709551615),
        b"x (18446744073709551615)".to_vec()
    );
}
