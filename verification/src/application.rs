//! The state of the book manager application and its update step: the
//! pure half of an event loop. The caller runs the window, performs
//! each returned [`Command`] (loading a file, opening the folder
//! picker and walking the chosen folder), and feeds the outcome back
//! in as a [`Message`].

use vstd::prelude::*;
use crate::Error;
use crate::file::default_file;
use crate::paths::spec_join;
use crate::project::{Book, books_wf, classified, ProjectState};

verus! {

/// One event of the application.
#[derive(Debug, PartialEq)]
pub enum Message {
    /// The user pressed the Open button.
    Open,
    /// The user edited the text. The edit itself lives in the caller's
    /// editor widget; the state here keeps the text as it was loaded.
    Edit,
    /// A file load finished: the file's path and its text, or the
    /// error the load ended in.
    FileOpened(Result<(String, String), Error>),
    /// The folder picker closed: the chosen folder together with the
    /// files a walk of its `books` subdirectory found, or the error
    /// the dialog ended in.
    FolderSelected(Result<(String, Vec<String>), Error>),
}

/// What the caller is asked to do after an update.
#[derive(Debug, Clone, PartialEq)]
pub enum Command {
    /// Nothing.
    Nothing,
    /// Load this file and answer with [`Message::FileOpened`].
    LoadFile(String),
    /// Open the folder picker, walk the choice's `books` subdirectory,
    /// and answer with [`Message::FolderSelected`].
    PickFolder,
}

/// The colour scheme the application asks its window to use.
#[derive(Debug, Clone, Copy, PartialEq, Eq, Structural)]
pub enum Theme {
    Light,
    Dark,
}

/// The application's state.
#[derive(Debug, Clone, PartialEq)]
pub struct BookManagerApp {
    /// The books discovered in the last folder the user picked.
    pub project: Option<ProjectState>,
    /// The path of the book on show.
    pub book_path: Option<String>,
    /// The text of the book on show, as it was loaded.
    pub book_content: String,
    /// The last error a load or a dialog ended in.
    pub io_error: Option<Error>,
}

impl BookManagerApp {
    /// A fresh application: nothing open, nothing failed, and a
    /// request to load the default file.
    pub fn new() -> (r: (BookManagerApp, Command))
        ensures
            r.0.project is None,
            r.0.book_path is None,
            r.0.book_content@ == Seq::<char>::empty(),
            r.0.io_error is None,
            r.1 matches Command::LoadFile(p) && p@ == "src/main.rs"@,
    {
        let app = BookManagerApp {
            project: None,
            book_path: None,
            book_content: String::new(),
            io_error: None,
        };
        (app, Command::LoadFile(default_file()))
    }

    /// The window title.
    pub fn title(&self) -> (t: String)
        ensures
            t@ == "Thief Book Manager"@,
    {
        "Thief Book Manager".to_owned()
    }

    /// One step of the event loop: take a message, move to the next
    /// state, and say what the caller should do.
    pub fn update(&mut self, message: Message) -> (c: Command)
        ensures
            match message {
                Message::Open => *final(self) == *old(self) && c == Command::PickFolder,
                Message::Edit => *final(self) == *old(self) && c == Command::Nothing,
                Message::FileOpened(r) => c == Command::Nothing && match r {
                    Ok(pc) => final(self).book_path == Some(pc.0)
                        && final(self).book_content == pc.1
                        && final(self).project == old(self).project
                        && final(self).io_error == old(self).io_error,
                    Err(e) => final(self).io_error == Some(e)
                        && final(self).project == old(self).project
                        && final(self).book_path == old(self).book_path
                        && final(self).book_content == old(self).book_content,
                },
                Message::FolderSelected(r) => c == Command::Nothing && match r {
                    Ok(pf) => (final(self).project matches Some(st) && st.path == pf.0
                        && books_wf(
                        st.books@.map_values(|b: Book| b@),
                        classified(pf.1.deep_view(), spec_join(pf.0@, "books"@)),
                    )) && final(self).book_path == old(self).book_path
                        && final(self).book_content == old(self).book_content
                        && final(self).io_error == old(self).io_error,
                    Err(e) => final(self).io_error == Some(e)
                        && final(self).project == old(self).project
                        && final(self).book_path == old(self).book_path
                        && final(self).book_content == old(self).book_content,
                },
            },
    {
        match message {
            Message::Open => Command::PickFolder,
            Message::Edit => Command::Nothing,
            Message::FileOpened(res) => {
                match res {
                    Ok(pc) => {
                        let (p, content) = pc;
                        self.book_content = content;
                        self.book_path = Some(p);
                    },
                    Err(e) => {
                        self.io_error = Some(e);
                    },
                }
                Command::Nothing
            },
            Message::FolderSelected(res) => {
                match res {
                    Ok(pf) => {
                        let (p, files) = pf;
                        self.project = Some(ProjectState::new(p, files));
                    },
                    Err(e) => {
                        self.io_error = Some(e);
                    },
                }
                Command::Nothing
            },
        }
    }

    /// The colour scheme: always the dark one.
    pub fn theme(&self) -> (t: Theme)
        ensures
            t == Theme::Dark,
    {
        Theme::Dark
    }
}

} // verus!
