use book_manager::paths::{
    extension_of, file_name_of, join_under, parent_of, rfind_char, str_eq, strip_prefix_dir,
};

#[test]
fn file_name_after_last_slash() {
    assert_eq!(file_name_of("a/b/c.txt"), "c.txt");
    assert_eq!(file_name_of("c.txt"), "c.txt");
    assert_eq!(file_name_of("a/b/"), "");
    assert_eq!(file_name_of(""), "");
}

#[test]
fn parent_before_last_slash() {
    assert_eq!(parent_of("a/b/c.txt"), "a/b");
    assert_eq!(parent_of("a/c.txt"), "a");
    assert_eq!(parent_of("c.txt"), "");
    assert_eq!(parent_of("/c.txt"), "");
}

#[test]
fn extension_after_last_dot_of_file_name() {
    assert_eq!(extension_of("a/b/c.txt"), Some("txt".to_string()));
    assert_eq!(extension_of("a/b/archive.tar.gz"), Some("gz".to_string()));
    assert_eq!(extension_of("a/b/c"), None);
    assert_eq!(extension_of("a.b/c"), None);
    assert_eq!(extension_of("a/b/.hidden"), None);
    assert_eq!(extension_of("a/b/c."), Some("".to_string()));
}

#[test]
fn strip_prefix_of_directory() {
    assert_eq!(strip_prefix_dir("a/b/c", "a/b"), Some("c".to_string()));
    assert_eq!(strip_prefix_dir("a/b/c/d", "a/b"), Some("c/d".to_string()));
    assert_eq!(strip_prefix_dir("a/b", "a/b"), Some("".to_string()));
    assert_eq!(strip_prefix_dir("a/bc", "a/b"), None);
    assert_eq!(strip_prefix_dir("a", "a/b"), None);
    assert_eq!(strip_prefix_dir("x/b/c", "a/b"), None);
}

#[test]
fn join_inserts_separator_where_needed() {
    assert_eq!(join_under("p", "books"), "p/books");
    assert_eq!(join_under("p/", "books"), "p/books");
    assert_eq!(join_under("", "books"), "books");
}

#[test]
fn string_equality_by_characters() {
    assert!(str_eq("", ""));
    assert!(str_eq("abc", "abc"));
    assert!(!str_eq("abc", "abd"));
    assert!(!str_eq("abc", "ab"));
    assert!(str_eq("bär", "bär"));
}

#[test]
fn last_occurrence_of_a_character() {
    assert_eq!(rfind_char("a/b/c", '/'), Some(3));
    assert_eq!(rfind_char("abc", '/'), None);
    assert_eq!(rfind_char("", '.'), None);
    assert_eq!(rfind_char(".a.", '.'), Some(2));
}
