use book_manager::project::{classify_file, ProjectState};

#[test]
fn classify_accepts_a_book_file() {
    let r = classify_file("p/books/en/alpha.str", "p/books");
    assert_eq!(
        r,
        Some((
            "p/books/en/alpha.str".to_string(),
            "alpha.str".to_string(),
            "en".to_string(),
        ))
    );
}

#[test]
fn classify_folds_extension_name_and_language_to_lower_case() {
    let r = classify_file("p/books/EN/Alpha.STR", "p/books");
    assert_eq!(
        r,
        Some((
            "p/books/EN/Alpha.STR".to_string(),
            "alpha.str".to_string(),
            "en".to_string(),
        ))
    );
}

#[test]
fn classify_rejects_other_extensions() {
    assert_eq!(classify_file("p/books/en/notes.txt", "p/books"), None);
    assert_eq!(classify_file("p/books/en/noext", "p/books"), None);
    assert_eq!(classify_file("p/books/en/.str", "p/books"), None);
}

#[test]
fn classify_rejects_files_outside_the_search_directory() {
    assert_eq!(classify_file("q/other/en/alpha.str", "p/books"), None);
    assert_eq!(classify_file("alpha.str", "p/books"), None);
}

#[test]
fn classify_takes_the_whole_subpath_as_the_language() {
    let r = classify_file("p/books/en/old/alpha.str", "p/books");
    assert_eq!(
        r,
        Some((
            "p/books/en/old/alpha.str".to_string(),
            "alpha.str".to_string(),
            "en/old".to_string(),
        ))
    );
}

#[test]
fn classify_gives_an_empty_language_at_the_top_of_books() {
    let r = classify_file("p/books/alpha.str", "p/books");
    assert_eq!(
        r,
        Some((
            "p/books/alpha.str".to_string(),
            "alpha.str".to_string(),
            "".to_string(),
        ))
    );
}

#[test]
fn discovery_groups_books_by_file_name() {
    let files = vec![
        "p/books/en/alpha.str".to_string(),
        "p/books/fr/ALPHA.STR".to_string(),
        "p/books/en/beta.str".to_string(),
        "p/books/en/notes.txt".to_string(),
        "p/books/fr/beta.str".to_string(),
    ];
    let st = ProjectState::new("p".to_string(), files);
    assert_eq!(st.path, "p");
    assert_eq!(st.books.len(), 2);

    assert_eq!(st.books[0].file_name, "alpha.str");
    assert_eq!(st.books[0].path, "p/books/en/alpha.str");
    assert_eq!(st.books[0].languages, vec!["en".to_string(), "fr".to_string()]);

    assert_eq!(st.books[1].file_name, "beta.str");
    assert_eq!(st.books[1].path, "p/books/en/beta.str");
    assert_eq!(st.books[1].languages, vec!["en".to_string(), "fr".to_string()]);
}

#[test]
fn discovery_keeps_the_path_of_the_first_file_of_a_name() {
    let files = vec![
        "p/books/fr/alpha.str".to_string(),
        "p/books/en/alpha.str".to_string(),
    ];
    let st = ProjectState::new("p".to_string(), files);
    assert_eq!(st.books.len(), 1);
    assert_eq!(st.books[0].path, "p/books/fr/alpha.str");
    assert_eq!(st.books[0].languages, vec!["fr".to_string(), "en".to_string()]);
}

#[test]
fn discovery_keeps_one_language_entry_per_file() {
    let files = vec![
        "p/books/EN/alpha.str".to_string(),
        "p/books/en/ALPHA.str".to_string(),
    ];
    let st = ProjectState::new("p".to_string(), files);
    assert_eq!(st.books.len(), 1);
    assert_eq!(st.books[0].languages, vec!["en".to_string(), "en".to_string()]);
}

#[test]
fn discovery_of_nothing_is_empty() {
    let st = ProjectState::new("p".to_string(), vec![]);
    assert_eq!(st.path, "p");
    assert!(st.books.is_empty());
}

#[test]
fn discovery_handles_a_trailing_separator_on_the_project_path() {
    let files = vec!["p/books/en/alpha.str".to_string()];
    let st = ProjectState::new("p/".to_string(), files);
    assert_eq!(st.books.len(), 1);
    assert_eq!(st.books[0].file_name, "alpha.str");
}

#[test]
fn discovery_folds_non_ascii_names() {
    let files = vec!["p/books/DE/BÄR.STR".to_string()];
    let st = ProjectState::new("p".to_string(), files);
    assert_eq!(st.books.len(), 1);
    assert_eq!(st.books[0].file_name, "bär.str");
    assert_eq!(st.books[0].languages, vec!["de".to_string()]);
}

#[test]
fn discovery_gives_the_same_books_for_the_same_files() {
    let files = vec![
        "p/books/en/alpha.str".to_string(),
        "p/books/fr/alpha.str".to_string(),
        "p/books/en/beta.str".to_string(),
    ];
    let a = ProjectState::new("p".to_string(), files.clone());
    let b = ProjectState::new("p".to_string(), files);
    assert_eq!(a, b);
}
