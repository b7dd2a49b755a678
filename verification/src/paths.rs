//! Arithmetic on paths written as plain strings with `/` separators:
//! the file name after the last separator, the parent before it, the
//! extension after the last dot of the file name, prefix stripping,
//! joining, and Unicode lowercasing.

use vstd::prelude::*;
use vstd::string::*;

verus! {

/// Index of the last occurrence of `c` in `p`, or `-1` when `c` does
/// not occur.
pub open spec fn last_index_of(p: Seq<char>, c: char) -> int
    decreases p.len(),
{
    if p.len() == 0 {
        -1
    } else if p.last() == c {
        p.len() - 1
    } else {
        last_index_of(p.drop_last(), c)
    }
}

/// `last_index_of` is in range, lands on `c`, and nothing after it is `c`.
pub proof fn lemma_last_index_of(p: Seq<char>, c: char)
    ensures
        -1 <= last_index_of(p, c) < p.len(),
        last_index_of(p, c) >= 0 ==> p[last_index_of(p, c)] == c,
        forall|j: int| last_index_of(p, c) < j < p.len() ==> p[j] != c,
    decreases p.len(),
{
    if p.len() == 0 {
    } else if p.last() == c {
    } else {
        lemma_last_index_of(p.drop_last(), c);
        assert forall|j: int| last_index_of(p, c) < j < p.len() implies p[j] != c by {
            if j < p.len() - 1 {
                assert(p.drop_last()[j] == p[j]);
            }
        }
    }
}

/// A position that holds `c` with no `c` after it is the last occurrence.
pub proof fn lemma_last_index_of_at(p: Seq<char>, c: char, i: int)
    requires
        0 <= i < p.len(),
        p[i] == c,
        forall|j: int| i < j < p.len() ==> p[j] != c,
    ensures
        last_index_of(p, c) == i,
    decreases p.len(),
{
    if i == p.len() - 1 {
    } else {
        assert(p.last() != c);
        assert(p.drop_last()[i] == p[i]);
        assert forall|j: int| i < j < p.drop_last().len() implies p.drop_last()[j] != c by {
            assert(p.drop_last()[j] == p[j]);
        }
        lemma_last_index_of_at(p.drop_last(), c, i);
    }
}

/// When `c` occurs nowhere in `p`, `last_index_of` is `-1`.
pub proof fn lemma_last_index_of_absent(p: Seq<char>, c: char)
    requires
        forall|j: int| 0 <= j < p.len() ==> p[j] != c,
    ensures
        last_index_of(p, c) == -1,
    decreases p.len(),
{
    if p.len() == 0 {
    } else {
        assert forall|j: int| 0 <= j < p.drop_last().len() implies p.drop_last()[j] != c by {
            assert(p.drop_last()[j] == p[j]);
        }
        lemma_last_index_of_absent(p.drop_last(), c);
    }
}

/// The position of the last `c` in `s`, if there is one.
pub fn rfind_char(s: &str, c: char) -> (r: Option<usize>)
    ensures
        match r {
            Some(i) => i == last_index_of(s@, c),
            None => last_index_of(s@, c) == -1,
        },
{
    let mut i = s.unicode_len();
    while i > 0
        invariant
            i <= s@.len(),
            forall|j: int| i <= j < s@.len() ==> s@[j] != c,
        decreases i,
    {
        i = i - 1;
        if s.get_char(i) == c {
            proof {
                lemma_last_index_of_at(s@, c, i as int);
            }
            return Some(i);
        }
    }
    proof {
        lemma_last_index_of_absent(s@, c);
    }
    None
}

/// Whether two strings hold the same characters.
pub fn str_eq(a: &str, b: &str) -> (r: bool)
    ensures
        r == (a@ == b@),
{
    let n = a.unicode_len();
    let m = b.unicode_len();
    if n != m {
        return false;
    }
    let mut i: usize = 0;
    while i < n
        invariant
            n == a@.len(),
            n == b@.len(),
            i <= n,
            forall|j: int| 0 <= j < i ==> a@[j] == b@[j],
        decreases n - i,
    {
        if a.get_char(i) != b.get_char(i) {
            return false;
        }
        i = i + 1;
    }
    proof {
        assert(a@ =~= b@);
    }
    true
}

/// The part of `p` after its last `/`; all of `p` when it has none.
pub open spec fn spec_file_name(p: Seq<char>) -> Seq<char> {
    p.skip(last_index_of(p, '/') + 1)
}

/// The part of `p` before its last `/`; empty when it has none.
pub open spec fn spec_parent(p: Seq<char>) -> Seq<char> {
    if last_index_of(p, '/') < 0 {
        Seq::empty()
    } else {
        p.take(last_index_of(p, '/'))
    }
}

/// The part of the file name of `p` after its last dot. There is none
/// when the file name has no dot, or only a leading one.
pub open spec fn spec_extension(p: Seq<char>) -> Option<Seq<char>> {
    let f = spec_file_name(p);
    let d = last_index_of(f, '.');
    if d >= 1 {
        Some(f.skip(d + 1))
    } else {
        None
    }
}

/// What is left of `p` once the directory `base` is taken off the
/// front: empty when `p` is `base` itself, the remainder when `p`
/// continues below `base`, and nothing otherwise.
pub open spec fn spec_strip_prefix(p: Seq<char>, base: Seq<char>) -> Option<Seq<char>> {
    if p == base {
        Some(Seq::empty())
    } else if p.len() > base.len() && p.take(base.len() as int) == base && p[base.len() as int]
        == '/' {
        Some(p.skip(base.len() as int + 1))
    } else {
        None
    }
}

/// `base` and `name` joined by a `/` where one is needed.
pub open spec fn spec_join(base: Seq<char>, name: Seq<char>) -> Seq<char> {
    if base.len() == 0 {
        name
    } else if base.last() == '/' {
        base + name
    } else {
        base + "/"@ + name
    }
}

/// The file name of `path`: what stands after the last `/`.
pub fn file_name_of(path: &str) -> (r: String)
    ensures
        r@ == spec_file_name(path@),
{
    let n = path.unicode_len();
    match rfind_char(path, '/') {
        Some(i) => {
            proof {
                lemma_last_index_of(path@, '/');
            }
            let sub = path.substring_char(i + 1, n);
            proof {
                assert(sub@ =~= spec_file_name(path@));
            }
            sub.to_owned()
        }
        None => {
            proof {
                assert(path@.skip(0) =~= path@);
            }
            path.to_owned()
        }
    }
}

/// The parent of `path`: what stands before the last `/`.
pub fn parent_of(path: &str) -> (r: String)
    ensures
        r@ == spec_parent(path@),
{
    match rfind_char(path, '/') {
        Some(i) => {
            proof {
                lemma_last_index_of(path@, '/');
            }
            let sub = path.substring_char(0, i);
            proof {
                assert(sub@ =~= spec_parent(path@));
            }
            sub.to_owned()
        }
        None => String::new(),
    }
}

/// The extension of `path`, taken from its file name.
pub fn extension_of(path: &str) -> (r: Option<String>)
    ensures
        match r {
            Some(e) => spec_extension(path@) == Some(e@),
            None => spec_extension(path@) is None,
        },
{
    let f = file_name_of(path);
    let n = f.as_str().unicode_len();
    match rfind_char(f.as_str(), '.') {
        Some(d) => {
            if d >= 1 {
                proof {
                    lemma_last_index_of(f@, '.');
                }
                let e = f.as_str().substring_char(d + 1, n).to_owned();
                proof {
                    assert(e@ =~= spec_file_name(path@).skip(d + 1));
                }
                Some(e)
            } else {
                None
            }
        }
        None => None,
    }
}

/// `path` with the leading directory `base` removed.
pub fn strip_prefix_dir(path: &str, base: &str) -> (r: Option<String>)
    ensures
        match r {
            Some(s) => spec_strip_prefix(path@, base@) == Some(s@),
            None => spec_strip_prefix(path@, base@) is None,
        },
{
    let n = path.unicode_len();
    let m = base.unicode_len();
    if n == m {
        if str_eq(path, base) {
            Some(String::new())
        } else {
            None
        }
    } else if n > m {
        let head = path.substring_char(0, m);
        proof {
            assert(head@ =~= path@.take(m as int));
        }
        if str_eq(head, base) && path.get_char(m) == '/' {
            let rest = path.substring_char(m + 1, n).to_owned();
            proof {
                assert(rest@ =~= path@.skip(m as int + 1));
            }
            Some(rest)
        } else {
            None
        }
    } else {
        None
    }
}

/// `base` and `name` joined into one path.
pub fn join_under(base: &str, name: &str) -> (r: String)
    ensures
        r@ == spec_join(base@, name@),
{
    let n = base.unicode_len();
    if n == 0 {
        name.to_owned()
    } else if base.get_char(n - 1) == '/' {
        base.to_owned().concat(name)
    } else {
        let r = base.to_owned().concat("/").concat(name);
        proof {
            assert(r@ =~= base@ + "/"@ + name@);
        }
        r
    }
}

/// Stripping a directory off a join undoes the join: for a base that
/// does not already end in a separator, what was joined under it is
/// what stripping it gives back.
pub proof fn lemma_strip_prefix_join(base: Seq<char>, name: Seq<char>)
    requires
        base.len() > 0,
        base.last() != '/',
    ensures
        spec_strip_prefix(spec_join(base, name), base) == Some(name),
{
    reveal_strlit("/");
    let j = base + "/"@ + name;
    assert(j.len() == base.len() + 1 + name.len());
    assert(j.take(base.len() as int) =~= base);
    assert(j[base.len() as int] == '/');
    assert(j.skip(base.len() as int + 1) =~= name);
}

/// A path with a separator in it is its parent, the separator, and its
/// file name put back together; one without is its file name alone.
pub proof fn lemma_parent_file_name_decompose(p: Seq<char>)
    ensures
        last_index_of(p, '/') >= 0 ==> p =~= spec_parent(p) + seq!['/'] + spec_file_name(p),
        last_index_of(p, '/') < 0 ==> spec_file_name(p) =~= p,
{
    lemma_last_index_of(p, '/');
}

/// The characters of `s` folded to lower case.
pub uninterp spec fn lower_of(s: Seq<char>) -> Seq<char>;

/// Relies on str::to_lowercase: the result depends on the characters
/// of the input alone.
#[verifier::external_body]
pub(crate) fn to_lowercase_string(s: &str) -> (r: String)
    ensures
        r@ == lower_of(s@),
{
    s.to_lowercase()
}

} // verus!
