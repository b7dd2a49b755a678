//! Discovery of the books of a project: out of the files that a walk
//! of the project's `books` subdirectory yields, keep those whose
//! extension folds to `str`, and group them by lowercased file name,
//! recording each language subfolder a name appears under.

use vstd::prelude::*;
use crate::paths::{
    file_name_of, join_under, lower_of, parent_of, extension_of, spec_extension, spec_file_name,
    spec_join, spec_parent, spec_strip_prefix, str_eq, strip_prefix_dir, to_lowercase_string,
};

verus! {

/// One book: a file name that appeared under the `books` directory,
/// the path of the first file found with that name, and every
/// language subfolder it appeared under, in discovery order.
#[derive(Debug, Clone, PartialEq)]
pub struct Book {
    pub path: String,
    pub file_name: String,
    pub languages: Vec<String>,
}

/// The mathematical value of a [`Book`].
#[verifier::ext_equal]
pub struct BookView {
    pub path: Seq<char>,
    pub file_name: Seq<char>,
    pub languages: Seq<Seq<char>>,
}

impl View for Book {
    type V = BookView;

    open spec fn view(&self) -> BookView {
        BookView {
            path: self.path@,
            file_name: self.file_name@,
            languages: self.languages.deep_view(),
        }
    }
}

/// One file of the walk that turned out to be a book: its path, its
/// lowercased file name, and the lowercased language folder it sat in.
pub struct Entry {
    pub path: Seq<char>,
    pub file_name: Seq<char>,
    pub language: Seq<char>,
}

/// What one file of the walk contributes: a book entry when the
/// file's directory lies under `search` and its extension folds to
/// `str`, and nothing otherwise.
pub open spec fn spec_classify(p: Seq<char>, search: Seq<char>) -> Option<Entry> {
    match (spec_strip_prefix(spec_parent(p), search), spec_extension(p)) {
        (Some(lang_dir), Some(ext)) => if lower_of(ext) == "str"@ {
            Some(
                Entry {
                    path: p,
                    file_name: lower_of(spec_file_name(p)),
                    language: lower_of(lang_dir),
                },
            )
        } else {
            None
        },
        _ => None,
    }
}

/// The book entries of a walk's files, in walk order.
pub open spec fn classified(files: Seq<Seq<char>>, search: Seq<char>) -> Seq<Entry>
    decreases files.len(),
{
    if files.len() == 0 {
        Seq::empty()
    } else {
        let r = classified(files.drop_last(), search);
        match spec_classify(files.last(), search) {
            Some(e) => r.push(e),
            None => r,
        }
    }
}

/// Whether some entry carries the file name `name`.
pub open spec fn has_name(es: Seq<Entry>, name: Seq<char>) -> bool {
    exists|i: int| 0 <= i < es.len() && es[i].file_name == name
}

/// The languages of the entries named `name`, in entry order.
pub open spec fn langs_of(es: Seq<Entry>, name: Seq<char>) -> Seq<Seq<char>>
    decreases es.len(),
{
    if es.len() == 0 {
        Seq::empty()
    } else {
        let r = langs_of(es.drop_last(), name);
        if es.last().file_name == name {
            r.push(es.last().language)
        } else {
            r
        }
    }
}

/// The path of the first entry named `name`; empty when there is none.
pub open spec fn first_path(es: Seq<Entry>, name: Seq<char>) -> Seq<char>
    decreases es.len(),
{
    if es.len() == 0 {
        Seq::empty()
    } else if has_name(es.drop_last(), name) {
        first_path(es.drop_last(), name)
    } else if es.last().file_name == name {
        es.last().path
    } else {
        Seq::empty()
    }
}

/// The file names of the entries, in entry order.
pub open spec fn names_of(es: Seq<Entry>) -> Seq<Seq<char>> {
    es.map_values(|e: Entry| e.file_name)
}

/// The distinct values of `names`, each at its first occurrence.
pub open spec fn distinct_in_order(names: Seq<Seq<char>>) -> Seq<Seq<char>>
    decreases names.len(),
{
    if names.len() == 0 {
        Seq::empty()
    } else {
        let r = distinct_in_order(names.drop_last());
        if r.contains(names.last()) {
            r
        } else {
            r.push(names.last())
        }
    }
}

/// `books` is exactly the grouping of the entries `es`: one book per
/// distinct file name in first-appearance order, carrying the
/// languages of that name in entry order and the path of its first
/// entry.
pub open spec fn books_match_entries(books: Seq<BookView>, es: Seq<Entry>) -> bool {
    &&& books.map_values(|b: BookView| b.file_name) == distinct_in_order(names_of(es))
    &&& forall|k: int|
        0 <= k < books.len() ==> (#[trigger] books[k]).languages == langs_of(
            es,
            books[k].file_name,
        )
    &&& forall|k: int|
        0 <= k < books.len() ==> (#[trigger] books[k]).path == first_path(es, books[k].file_name)
}

/// `books_match_entries`, together with the facts that make it closed
/// under one more entry: book names are distinct, and a name has a
/// book exactly when some entry carries it.
pub open spec fn books_wf(books: Seq<BookView>, es: Seq<Entry>) -> bool {
    &&& books_match_entries(books, es)
    &&& forall|k1: int, k2: int|
        0 <= k1 < k2 < books.len() ==> (#[trigger] books[k1]).file_name != (
        #[trigger] books[k2]).file_name
    &&& forall|k: int| 0 <= k < books.len() ==> has_name(es, (#[trigger] books[k]).file_name)
    &&& forall|name: Seq<char>|
        #[trigger] has_name(es, name) ==> exists|k: int|
            0 <= k < books.len() && books[k].file_name == name
}

/// A name carried by no entry contributes no languages.
proof fn lemma_langs_of_absent(es: Seq<Entry>, name: Seq<char>)
    requires
        !has_name(es, name),
    ensures
        langs_of(es, name) == Seq::<Seq<char>>::empty(),
    decreases es.len(),
{
    if es.len() > 0 {
        assert(es[es.len() - 1].file_name != name);
        assert(!has_name(es.drop_last(), name)) by {
            if has_name(es.drop_last(), name) {
                let i = choose|i: int|
                    0 <= i < es.drop_last().len() && es.drop_last()[i].file_name == name;
                assert(es[i].file_name == name);
            }
        }
        lemma_langs_of_absent(es.drop_last(), name);
    }
}

/// How `has_name` behaves when one entry is appended.
proof fn lemma_has_name_push(es: Seq<Entry>, x: Entry, name: Seq<char>)
    ensures
        has_name(es, name) ==> has_name(es.push(x), name),
        x.file_name == name ==> has_name(es.push(x), name),
        has_name(es.push(x), name) ==> has_name(es, name) || x.file_name == name,
{
    if has_name(es, name) {
        let i = choose|i: int| 0 <= i < es.len() && es[i].file_name == name;
        assert(es.push(x)[i].file_name == name);
    }
    if x.file_name == name {
        assert(es.push(x)[es.len() as int].file_name == name);
    }
    if has_name(es.push(x), name) {
        let i = choose|i: int| 0 <= i < es.push(x).len() && es.push(x)[i].file_name == name;
        if i < es.len() {
            assert(es[i].file_name == name);
        }
    }
}

/// An entry's language stands among the languages collected for its
/// name.
proof fn lemma_langs_of_contains(es: Seq<Entry>, i: int)
    requires
        0 <= i < es.len(),
    ensures
        langs_of(es, es[i].file_name).contains(es[i].language),
    decreases es.len(),
{
    let n = es[i].file_name;
    let r = langs_of(es.drop_last(), n);
    if i == es.len() - 1 {
        assert(langs_of(es, n) == r.push(es.last().language));
        assert(langs_of(es, n)[r.len() as int] == es[i].language);
    } else {
        assert(es.drop_last()[i] == es[i]);
        lemma_langs_of_contains(es.drop_last(), i);
        let idx = choose|j: int| 0 <= j < r.len() && r[j] == es[i].language;
        if es.last().file_name == n {
            assert(langs_of(es, n) == r.push(es.last().language));
            assert(langs_of(es, n)[idx] == es[i].language);
        }
    }
}

/// The grouping contract pins the books down: two book lists that both
/// group the same entries are the same list.
pub proof fn lemma_books_unique(b1: Seq<BookView>, b2: Seq<BookView>, es: Seq<Entry>)
    requires
        books_match_entries(b1, es),
        books_match_entries(b2, es),
    ensures
        b1 == b2,
{
    let m1 = b1.map_values(|b: BookView| b.file_name);
    let m2 = b2.map_values(|b: BookView| b.file_name);
    assert(b1.len() == m1.len() && b2.len() == m2.len());
    assert forall|k: int| 0 <= k < b1.len() implies b1[k] == b2[k] by {
        assert(m1[k] == b1[k].file_name);
        assert(m2[k] == b2[k].file_name);
        assert(b1[k] =~= b2[k]);
    }
    assert(b1 =~= b2);
}

/// No book entry is lost in the grouping: its name has a book, and its
/// language stands among that book's languages.
pub proof fn lemma_entry_in_books(books: Seq<BookView>, es: Seq<Entry>, i: int)
    requires
        books_wf(books, es),
        0 <= i < es.len(),
    ensures
        exists|k: int|
            0 <= k < books.len() && (#[trigger] books[k]).file_name == es[i].file_name
                && books[k].languages.contains(es[i].language),
{
    assert(has_name(es, es[i].file_name));
    let k = choose|k: int| 0 <= k < books.len() && books[k].file_name == es[i].file_name;
    lemma_langs_of_contains(es, i);
    assert(books[k].languages == langs_of(es, es[i].file_name));
    assert(0 <= k < books.len() && books[k].file_name == es[i].file_name
        && books[k].languages.contains(es[i].language));
}

/// Classify one file of a walk: when its directory lies under
/// `search` and its extension folds to `str`, its path, lowercased
/// file name and lowercased language folder, and nothing otherwise.
pub fn classify_file(path: &str, search: &str) -> (r: Option<(String, String, String)>)
    ensures
        match r {
            Some(t) => spec_classify(path@, search@) == Some(
                Entry { path: t.0@, file_name: t.1@, language: t.2@ },
            ),
            None => spec_classify(path@, search@) is None,
        },
{
    let parent = parent_of(path);
    match strip_prefix_dir(parent.as_str(), search) {
        None => None,
        Some(lang_dir) => match extension_of(path) {
            None => None,
            Some(ext) => {
                let ext_lower = to_lowercase_string(ext.as_str());
                if str_eq(ext_lower.as_str(), "str") {
                    let name = to_lowercase_string(file_name_of(path).as_str());
                    let language = to_lowercase_string(lang_dir.as_str());
                    Some((path.to_owned(), name, language))
                } else {
                    None
                }
            },
        },
    }
}

/// The index of the book named `name`, if one is there.
fn find_book(books: &Vec<Book>, name: &str) -> (r: Option<usize>)
    ensures
        match r {
            Some(j) => j < books@.len() && books@[j as int]@.file_name == name@,
            None => forall|k: int| 0 <= k < books@.len() ==> books@[k]@.file_name != name@,
        },
{
    let mut j: usize = 0;
    while j < books.len()
        invariant
            j <= books@.len(),
            forall|k: int| 0 <= k < j ==> books@[k]@.file_name != name@,
        decreases books@.len() - j,
    {
        if str_eq(books[j].file_name.as_str(), name) {
            return Some(j);
        }
        j = j + 1;
    }
    None
}

/// The books discovered under a project directory, grouped by name.
#[derive(Debug, Clone, PartialEq)]
pub struct ProjectState {
    pub path: String,
    pub books: Vec<Book>,
}

impl ProjectState {
    /// Discover the books of the project at `path`. `files` holds
    /// every file (never a directory) that a recursive walk of the
    /// `books` subdirectory of `path` yielded, in walk order.
    pub fn new(path: String, files: Vec<String>) -> (st: ProjectState)
        ensures
            st.path == path,
            books_wf(
                st.books@.map_values(|b: Book| b@),
                classified(files.deep_view(), spec_join(path@, "books"@)),
            ),
    {
        let search = join_under(path.as_str(), "books");
        let ghost fd: Seq<Seq<char>> = files.deep_view();
        let mut books: Vec<Book> = Vec::new();
        let mut i: usize = 0;
        proof {
            assert(fd.take(0) =~= Seq::<Seq<char>>::empty());
            assert(books@.map_values(|b: Book| b@).map_values(|b: BookView| b.file_name) =~= Seq::<
                Seq<char>,
            >::empty());
        }
        while i < files.len()
            invariant
                i <= files.len(),
                fd == files.deep_view(),
                fd.len() == files@.len(),
                search@ == spec_join(path@, "books"@),
                books_wf(books@.map_values(|b: Book| b@), classified(fd.take(i as int), search@)),
            decreases files@.len() - i,
        {
            let ghost es = classified(fd.take(i as int), search@);
            let ghost bv = books@.map_values(|b: Book| b@);
            let f: &String = &files[i];
            proof {
                assert(fd.take(i + 1).drop_last() =~= fd.take(i as int));
                assert(fd.take(i + 1).last() == f@);
            }
            match classify_file(f.as_str(), search.as_str()) {
                Some(t) => {
                    let ghost e = Entry { path: t.0@, file_name: t.1@, language: t.2@ };
                    proof {
                        assert(classified(fd.take(i + 1), search@) == es.push(e));
                    }
                    let (p, name, lang) = t;
                    match find_book(&books, name.as_str()) {
                        Some(j) => {
                            let mut b = books.remove(j);
                            let ghost old_langs = b@.languages;
                            b.languages.push(lang);
                            proof {
                                assert(b.languages.deep_view() =~= old_langs.push(e.language));
                            }
                            books.insert(j, b);
                            proof {
                                lemma_step_merge(bv, es, e, j as int, books@.map_values(|b: Book| b@));
                            }
                        },
                        None => {
                            let mut langs: Vec<String> = Vec::new();
                            langs.push(lang);
                            let nb = Book { path: p, file_name: name, languages: langs };
                            proof {
                                assert(nb@.languages =~= Seq::<Seq<char>>::empty().push(e.language));
                            }
                            books.push(nb);
                            proof {
                                assert(books@.map_values(|b: Book| b@) =~= bv.push(nb@));
                                lemma_step_fresh(bv, es, e, nb@);
                            }
                        },
                    }
                },
                None => {
                    proof {
                        assert(classified(fd.take(i + 1), search@) == es);
                    }
                },
            }
            i = i + 1;
        }
        proof {
            assert(fd.take(files@.len() as int) =~= fd);
        }
        ProjectState { path, books }
    }
}

/// One grouping step where the new entry's name already has a book at
/// index `j`: pushing the entry's language onto that book keeps the
/// grouping exact.
proof fn lemma_step_merge(bv: Seq<BookView>, es: Seq<Entry>, e: Entry, j: int, nbv: Seq<BookView>)
    requires
        books_wf(bv, es),
        0 <= j < bv.len(),
        bv[j].file_name == e.file_name,
        nbv.len() == bv.len(),
        nbv[j] == (BookView { languages: bv[j].languages.push(e.language), ..bv[j] }),
        forall|k: int| 0 <= k < bv.len() && k != j ==> #[trigger] nbv[k] == bv[k],
    ensures
        books_wf(nbv, es.push(e)),
{
    let es2 = es.push(e);
    assert(es2.drop_last() =~= es);
    // names are unchanged
    assert(nbv.map_values(|b: BookView| b.file_name) =~= bv.map_values(|b: BookView| b.file_name));
    // the appended name is already among the distinct names
    assert(names_of(es2) =~= names_of(es).push(e.file_name));
    assert(names_of(es2).drop_last() =~= names_of(es));
    let dio = distinct_in_order(names_of(es));
    assert(dio[j] == e.file_name);
    assert(dio.contains(e.file_name));
    assert(distinct_in_order(names_of(es2)) == dio);
    // languages and paths
    assert forall|k: int| 0 <= k < nbv.len() implies (#[trigger] nbv[k]).languages == langs_of(
        es2,
        nbv[k].file_name,
    ) && nbv[k].path == first_path(es2, nbv[k].file_name) by {
        assert(has_name(es, bv[k].file_name));
        if k == j {
            assert(langs_of(es2, e.file_name) == langs_of(es, e.file_name).push(e.language));
        } else {
            assert(bv[k].file_name != e.file_name);
            assert(langs_of(es2, nbv[k].file_name) == langs_of(es, nbv[k].file_name));
        }
    }
    // every entry name still has its book, and the new one has book j
    assert forall|name: Seq<char>| #[trigger] has_name(es2, name) implies exists|k: int|
        0 <= k < nbv.len() && nbv[k].file_name == name by {
        lemma_has_name_push(es, e, name);
        if has_name(es, name) {
            let k = choose|k: int| 0 <= k < bv.len() && bv[k].file_name == name;
            assert(nbv[k].file_name == name);
        } else {
            assert(nbv[j].file_name == name);
        }
    }
    assert forall|k: int| 0 <= k < nbv.len() implies has_name(es2, (#[trigger] nbv[k]).file_name) by {
        lemma_has_name_push(es, e, nbv[k].file_name);
    }
}

/// One grouping step where the new entry's name has no book yet:
/// appending a book with that name, the entry's path and its one
/// language keeps the grouping exact.
proof fn lemma_step_fresh(bv: Seq<BookView>, es: Seq<Entry>, e: Entry, nb: BookView)
    requires
        books_wf(bv, es),
        forall|k: int| 0 <= k < bv.len() ==> (#[trigger] bv[k]).file_name != e.file_name,
        nb.file_name == e.file_name,
        nb.path == e.path,
        nb.languages == Seq::<Seq<char>>::empty().push(e.language),
    ensures
        books_wf(bv.push(nb), es.push(e)),
{
    let es2 = es.push(e);
    let nbv = bv.push(nb);
    assert(es2.drop_last() =~= es);
    assert(!has_name(es, e.file_name)) by {
        if has_name(es, e.file_name) {
            let k = choose|k: int| 0 <= k < bv.len() && bv[k].file_name == e.file_name;
        }
    }
    // names: the appended name is fresh, so it extends the distinct names
    assert(names_of(es2) =~= names_of(es).push(e.file_name));
    assert(names_of(es2).drop_last() =~= names_of(es));
    let dio = distinct_in_order(names_of(es));
    assert(!dio.contains(e.file_name)) by {
        if dio.contains(e.file_name) {
            let k = choose|k: int| 0 <= k < dio.len() && dio[k] == e.file_name;
            assert(bv.map_values(|b: BookView| b.file_name)[k] == e.file_name);
            assert(bv[k].file_name == e.file_name);
        }
    }
    assert(distinct_in_order(names_of(es2)) == dio.push(e.file_name));
    assert(nbv.map_values(|b: BookView| b.file_name) =~= bv.map_values(
        |b: BookView| b.file_name,
    ).push(e.file_name));
    // languages and paths
    lemma_langs_of_absent(es, e.file_name);
    assert forall|k: int| 0 <= k < nbv.len() implies (#[trigger] nbv[k]).languages == langs_of(
        es2,
        nbv[k].file_name,
    ) && nbv[k].path == first_path(es2, nbv[k].file_name) by {
        if k < bv.len() {
            assert(nbv[k] == bv[k]);
            assert(has_name(es, bv[k].file_name));
            assert(bv[k].file_name != e.file_name);
            assert(langs_of(es2, nbv[k].file_name) == langs_of(es, nbv[k].file_name));
        } else {
            assert(nbv[k] == nb);
            assert(langs_of(es2, e.file_name) == langs_of(es, e.file_name).push(e.language));
            assert(langs_of(es2, e.file_name) =~= Seq::<Seq<char>>::empty().push(e.language));
            assert(first_path(es2, e.file_name) == e.path);
        }
    }
    // distinctness
    assert forall|k1: int, k2: int| 0 <= k1 < k2 < nbv.len() implies (
    #[trigger] nbv[k1]).file_name != (#[trigger] nbv[k2]).file_name by {
        if k2 < bv.len() {
            assert(bv[k1].file_name != bv[k2].file_name);
        } else {
            assert(nbv[k2].file_name == e.file_name);
            assert(bv[k1].file_name != e.file_name);
        }
    }
    // coverage both ways
    assert forall|name: Seq<char>| #[trigger] has_name(es2, name) implies exists|k: int|
        0 <= k < nbv.len() && nbv[k].file_name == name by {
        lemma_has_name_push(es, e, name);
        if has_name(es, name) {
            let k = choose|k: int| 0 <= k < bv.len() && bv[k].file_name == name;
            assert(nbv[k].file_name == name);
        } else {
            assert(nbv[bv.len() as int].file_name == name);
        }
    }
    assert forall|k: int| 0 <= k < nbv.len() implies has_name(es2, (#[trigger] nbv[k]).file_name) by {
        lemma_has_name_push(es, e, nbv[k].file_name);
    }
}

} // verus!
