use book_manager::application::{BookManagerApp, Command, Message, Theme};
use book_manager::file::default_file;
use book_manager::Error;

fn fresh() -> BookManagerApp {
    let (app, cmd) = BookManagerApp::new();
    assert_eq!(cmd, Command::LoadFile("src/main.rs".to_string()));
    app
}

#[test]
fn a_fresh_application_is_empty_and_loads_the_default_file() {
    let (app, cmd) = BookManagerApp::new();
    assert!(app.project.is_none());
    assert!(app.book_path.is_none());
    assert_eq!(app.book_content, "");
    assert!(app.io_error.is_none());
    assert_eq!(cmd, Command::LoadFile(default_file()));
}

#[test]
fn the_default_file_is_the_main_source_file() {
    assert_eq!(default_file(), "src/main.rs");
}

#[test]
fn the_title_names_the_manager() {
    let app = fresh();
    assert_eq!(app.title(), "Thief Book Manager");
}

#[test]
fn the_theme_is_dark() {
    let app = fresh();
    assert_eq!(app.theme(), Theme::Dark);
}

#[test]
fn open_asks_for_the_folder_picker() {
    let mut app = fresh();
    let cmd = app.update(Message::Open);
    assert_eq!(cmd, Command::PickFolder);
    assert!(app.project.is_none());
    assert!(app.io_error.is_none());
}

#[test]
fn an_edit_changes_nothing_here() {
    let mut app = fresh();
    let cmd = app.update(Message::Edit);
    assert_eq!(cmd, Command::Nothing);
    assert_eq!(app.book_content, "");
}

#[test]
fn a_loaded_file_is_shown() {
    let mut app = fresh();
    let cmd = app.update(Message::FileOpened(Ok((
        "p/books/en/alpha.str".to_string(),
        "once upon a time".to_string(),
    ))));
    assert_eq!(cmd, Command::Nothing);
    assert_eq!(app.book_path, Some("p/books/en/alpha.str".to_string()));
    assert_eq!(app.book_content, "once upon a time");
    assert!(app.io_error.is_none());
}

#[test]
fn a_failed_load_is_recorded() {
    let mut app = fresh();
    let cmd = app.update(Message::FileOpened(Err(Error::IO)));
    assert_eq!(cmd, Command::Nothing);
    assert_eq!(app.io_error, Some(Error::IO));
    assert!(app.book_path.is_none());
    assert_eq!(app.book_content, "");
}

#[test]
fn a_chosen_folder_becomes_the_project() {
    let mut app = fresh();
    let files = vec![
        "p/books/en/alpha.str".to_string(),
        "p/books/fr/alpha.str".to_string(),
    ];
    let cmd = app.update(Message::FolderSelected(Ok(("p".to_string(), files))));
    assert_eq!(cmd, Command::Nothing);
    let project = app.project.expect("a project");
    assert_eq!(project.path, "p");
    assert_eq!(project.books.len(), 1);
    assert_eq!(project.books[0].file_name, "alpha.str");
    assert_eq!(
        project.books[0].languages,
        vec!["en".to_string(), "fr".to_string()]
    );
}

#[test]
fn a_closed_dialog_is_recorded() {
    let mut app = fresh();
    let cmd = app.update(Message::FolderSelected(Err(Error::DialogClosed)));
    assert_eq!(cmd, Command::Nothing);
    assert_eq!(app.io_error, Some(Error::DialogClosed));
    assert!(app.project.is_none());
}
