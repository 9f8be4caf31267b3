//! Lists of file entries `(path, digest, size)`, kept in the order of their
//! paths with each path at most once.

use crate::text::{
    lemma_lex_lt_asymmetric, lemma_lex_lt_irreflexive, lemma_lex_lt_total,
    lemma_lex_lt_transitive, lemma_utf8_injective, lex_lt, str_eq, str_lt, utf8,
};
use vstd::prelude::*;

verus! {

/// A file entry as a mathematical value: path, digest and size.
pub type FileView = (Seq<char>, Seq<char>, u64);

/// The entry that a tuple of strings stands for.
pub open spec fn file_view(e: (String, String, u64)) -> FileView {
    (e.0@, e.1@, e.2)
}

/// The entries that a list of tuples stands for.
pub open spec fn files_view(v: Seq<(String, String, u64)>) -> Seq<FileView> {
    Seq::new(v.len(), |i: int| file_view(v[i]))
}

/// The order of paths: that of their UTF-8 bytes.
pub open spec fn path_lt(a: Seq<char>, b: Seq<char>) -> bool {
    lex_lt(utf8(a), utf8(b))
}

/// The entries stand in the strict order of their paths, so that no path
/// comes twice.
pub open spec fn sorted_by_path(s: Seq<FileView>) -> bool {
    forall|i: int, j: int| 0 <= i < j < s.len() ==> path_lt(#[trigger] s[i].0, #[trigger] s[j].0)
}

/// The number of entries at the front whose path comes before `path`: in a
/// sorted list, the place where `path` stands or would stand.
pub open spec fn place(s: Seq<FileView>, path: Seq<char>) -> int
    decreases s.len(),
{
    if s.len() > 0 && path_lt(s[0].0, path) {
        1 + place(s.skip(1), path)
    } else {
        0
    }
}

/// Whether a sorted list holds an entry for `path`.
pub open spec fn has_path(s: Seq<FileView>, path: Seq<char>) -> bool {
    place(s, path) < s.len() && s[place(s, path)].0 == path
}

/// The list with `e` put in for its path: in place of the entry of that
/// path where there is one, else at the place that keeps the order.
pub open spec fn upsert(s: Seq<FileView>, e: FileView) -> Seq<FileView> {
    if has_path(s, e.0) {
        s.update(place(s, e.0), e)
    } else {
        s.insert(place(s, e.0), e)
    }
}

/// The list with `e` added where its path is new, and unchanged where the
/// path is already there.
pub open spec fn add_new(s: Seq<FileView>, e: FileView) -> Seq<FileView> {
    if has_path(s, e.0) {
        s
    } else {
        s.insert(place(s, e.0), e)
    }
}

/// The sorted list that holds, for each path of `files`, the first entry
/// that `files` has for it, added to `acc`.
pub open spec fn collected(acc: Seq<FileView>, files: Seq<FileView>) -> Seq<FileView>
    decreases files.len(),
{
    if files.len() == 0 {
        acc
    } else {
        collected(add_new(acc, files[0]), files.skip(1))
    }
}

/// A list of files in the order of their paths, each path once: for a path
/// that comes more than once, its first entry stays.
pub open spec fn normalized(files: Seq<FileView>) -> Seq<FileView> {
    collected(Seq::<FileView>::empty(), files)
}

/// Of two paths one comes first or they are the same, never both ways, and
/// no path comes before itself.
pub proof fn lemma_path_order(a: Seq<char>, b: Seq<char>)
    ensures
        path_lt(a, b) || path_lt(b, a) || a == b,
        !(path_lt(a, b) && path_lt(b, a)),
        !path_lt(a, a),
{
    lemma_lex_lt_total(utf8(a), utf8(b));
    if utf8(a) == utf8(b) {
        lemma_utf8_injective(a, b);
    }
    if path_lt(a, b) {
        lemma_lex_lt_asymmetric(utf8(a), utf8(b));
    }
    lemma_lex_lt_irreflexive(utf8(a));
}

/// What comes before a path comes before all that the path comes before.
pub proof fn lemma_path_lt_transitive(a: Seq<char>, b: Seq<char>, c: Seq<char>)
    requires
        path_lt(a, b),
        path_lt(b, c),
    ensures
        path_lt(a, c),
{
    lemma_lex_lt_transitive(utf8(a), utf8(b), utf8(c));
}

/// In a sorted list no path comes twice.
pub proof fn lemma_sorted_paths_unique(s: Seq<FileView>)
    requires
        sorted_by_path(s),
    ensures
        forall|i: int, j: int|
            0 <= i < s.len() && 0 <= j < s.len() && i != j ==> (#[trigger] s[i]).0 != (
            #[trigger] s[j]).0,
{
    assert forall|i: int, j: int| 0 <= i < s.len() && 0 <= j < s.len() && i != j implies (
    #[trigger] s[i]).0 != (#[trigger] s[j]).0 by {
        lemma_path_order(s[i].0, s[j].0);
        if i < j {
            assert(path_lt(s[i].0, s[j].0));
        } else {
            assert(path_lt(s[j].0, s[i].0));
        }
    }
}

/// In a sorted list, the entries before the place of `path` come before
/// `path`, and those from the place on do not.
pub proof fn lemma_place(s: Seq<FileView>, path: Seq<char>)
    requires
        sorted_by_path(s),
    ensures
        0 <= place(s, path) <= s.len(),
        forall|i: int| 0 <= i < place(s, path) ==> path_lt(#[trigger] s[i].0, path),
        forall|i: int| place(s, path) <= i < s.len() ==> !path_lt(#[trigger] s[i].0, path),
    decreases s.len(),
{
    if s.len() > 0 {
        let rest = s.skip(1);
        assert(sorted_by_path(rest)) by {
            assert forall|i: int, j: int| 0 <= i < j < rest.len() implies path_lt(
                #[trigger] rest[i].0,
                #[trigger] rest[j].0,
            ) by {
                assert(rest[i] == s[i + 1] && rest[j] == s[j + 1]);
            }
        }
        if path_lt(s[0].0, path) {
            lemma_place(rest, path);
            assert forall|i: int| 0 <= i < place(s, path) implies path_lt(
                #[trigger] s[i].0,
                path,
            ) by {
                if i > 0 {
                    assert(s[i] == rest[i - 1]);
                }
            }
            assert forall|i: int| place(s, path) <= i < s.len() implies !path_lt(
                #[trigger] s[i].0,
                path,
            ) by {
                assert(s[i] == rest[i - 1]);
            }
        } else {
            assert forall|i: int| 0 <= i < s.len() implies !path_lt(#[trigger] s[i].0, path) by {
                if i > 0 {
                    if path_lt(s[i].0, path) {
                        lemma_path_lt_transitive(s[0].0, s[i].0, path);
                    }
                }
            }
        }
    }
}

/// A sorted list holds an entry for `path` just where one of its entries
/// has that path, and then it stands at the place of `path`.
pub proof fn lemma_has_path(s: Seq<FileView>, path: Seq<char>)
    requires
        sorted_by_path(s),
    ensures
        has_path(s, path) <==> exists|i: int| 0 <= i < s.len() && (#[trigger] s[i]).0 == path,
        forall|i: int| 0 <= i < s.len() && (#[trigger] s[i]).0 == path ==> i == place(s, path),
{
    lemma_place(s, path);
    let k = place(s, path);
    assert forall|i: int| 0 <= i < s.len() && (#[trigger] s[i]).0 == path implies i == k by {
        lemma_path_order(path, path);
        if i < k {
            assert(path_lt(s[i].0, path));
        } else if i > k {
            assert(path_lt(s[k].0, s[i].0));
            assert(!path_lt(s[k].0, path));
        }
    }
    if has_path(s, path) {
        assert(s[k].0 == path);
    }
}

/// Putting an entry into a sorted list leaves it sorted; the entry is then
/// the one for its path, and the entries of all other paths are as before.
pub proof fn lemma_upsert(s: Seq<FileView>, e: FileView)
    requires
        sorted_by_path(s),
    ensures
        sorted_by_path(upsert(s, e)),
        has_path(upsert(s, e), e.0),
        upsert(s, e)[place(upsert(s, e), e.0)] == e,
        place(upsert(s, e), e.0) == place(s, e.0),
        upsert(s, e).len() == s.len() + (if has_path(s, e.0) {
            0int
        } else {
            1int
        }),
{
    lemma_place(s, e.0);
    let k = place(s, e.0);
    let r = upsert(s, e);
    if has_path(s, e.0) {
        assert forall|i: int, j: int| 0 <= i < j < r.len() implies path_lt(
            #[trigger] r[i].0,
            #[trigger] r[j].0,
        ) by {
            assert(path_lt(s[i].0, s[j].0));
        }
    } else {
        assert forall|i: int, j: int| 0 <= i < j < r.len() implies path_lt(
            #[trigger] r[i].0,
            #[trigger] r[j].0,
        ) by {
            if j < k {
                assert(r[i] == s[i] && r[j] == s[j]);
            } else if j == k {
                assert(r[i] == s[i]);
            } else if i < k {
                assert(r[i] == s[i] && r[j] == s[j - 1]);
                assert(path_lt(s[i].0, s[j - 1].0));
            } else if i == k {
                assert(r[j] == s[j - 1]);
                assert(!path_lt(s[j - 1].0, e.0));
                lemma_path_order(s[j - 1].0, e.0);
                if s[j - 1].0 == e.0 {
                    lemma_has_path(s, e.0);
                }
            } else {
                assert(r[i] == s[i - 1] && r[j] == s[j - 1]);
                assert(path_lt(s[i - 1].0, s[j - 1].0));
            }
        }
    }
    assert(r[k] == e);
    lemma_has_path(r, e.0);
}

/// Adding a new path to a sorted list leaves it sorted.
pub proof fn lemma_add_new(s: Seq<FileView>, e: FileView)
    requires
        sorted_by_path(s),
    ensures
        sorted_by_path(add_new(s, e)),
{
    if !has_path(s, e.0) {
        lemma_upsert(s, e);
    }
}

/// Collecting files into a sorted list leaves it sorted.
pub proof fn lemma_collected_sorted(acc: Seq<FileView>, files: Seq<FileView>)
    requires
        sorted_by_path(acc),
    ensures
        sorted_by_path(collected(acc, files)),
    decreases files.len(),
{
    if files.len() > 0 {
        lemma_add_new(acc, files[0]);
        lemma_collected_sorted(add_new(acc, files[0]), files.skip(1));
    }
}

/// A normalized list is sorted.
pub proof fn lemma_normalized_sorted(files: Seq<FileView>)
    ensures
        sorted_by_path(normalized(files)),
{
    lemma_collected_sorted(Seq::<FileView>::empty(), files);
}

proof fn lemma_collected_prefix(s: Seq<FileView>, k: int)
    requires
        sorted_by_path(s),
        0 <= k <= s.len(),
    ensures
        collected(s.take(k), s.skip(k)) == s,
    decreases s.len() - k,
{
    if k == s.len() {
        assert(s.take(k) =~= s);
    } else {
        let acc = s.take(k);
        let e = s[k];
        assert(s.skip(k)[0] == e);
        assert(sorted_by_path(acc)) by {
            assert forall|i: int, j: int| 0 <= i < j < acc.len() implies path_lt(
                #[trigger] acc[i].0,
                #[trigger] acc[j].0,
            ) by {
                assert(acc[i] == s[i] && acc[j] == s[j]);
            }
        }
        lemma_place(acc, e.0);
        assert(place(acc, e.0) == k) by {
            if place(acc, e.0) < k {
                let p = place(acc, e.0);
                assert(acc[p] == s[p]);
                assert(path_lt(s[p].0, s[k].0));
            }
        }
        assert(add_new(acc, e) =~= s.take(k + 1));
        assert(s.skip(k).skip(1) =~= s.skip(k + 1));
        lemma_collected_prefix(s, k + 1);
    }
}

/// A sorted list is its own normal form.
pub proof fn lemma_normalized_of_sorted(s: Seq<FileView>)
    requires
        sorted_by_path(s),
    ensures
        normalized(s) == s,
{
    assert(s.take(0) =~= Seq::<FileView>::empty());
    assert(s.skip(0) =~= s);
    lemma_collected_prefix(s, 0);
}

/// Copies an entry.
pub fn clone_entry(e: &(String, String, u64)) -> (r: (String, String, u64))
    ensures
        file_view(r) == file_view(*e),
{
    (e.0.clone(), e.1.clone(), e.2)
}

/// Copies a list of entries.
pub fn clone_entries(v: &Vec<(String, String, u64)>) -> (r: Vec<(String, String, u64)>)
    ensures
        files_view(r@) == files_view(v@),
{
    let mut out: Vec<(String, String, u64)> = Vec::new();
    let mut i: usize = 0;
    while i < v.len()
        invariant
            i <= v.len(),
            out.len() == i,
            forall|k: int| 0 <= k < i ==> file_view(#[trigger] out@[k]) == file_view(v@[k]),
        decreases v.len() - i,
    {
        out.push(clone_entry(&v[i]));
        i += 1;
    }
    assert(files_view(out@) =~= files_view(v@));
    out
}

/// The place of `path` in a sorted list.
pub fn find_place(v: &Vec<(String, String, u64)>, path: &str) -> (k: usize)
    ensures
        k == place(files_view(v@), path@),
        k <= v.len(),
{
    let ghost s = files_view(v@);
    let mut k: usize = 0;
    assert(s.skip(0) =~= s);
    while k < v.len() && str_lt(v[k].0.as_str(), path)
        invariant
            k <= v.len(),
            s == files_view(v@),
            place(s, path@) == k + place(s.skip(k as int), path@),
        decreases v.len() - k,
    {
        assert(s.skip(k as int)[0] == s[k as int]);
        assert(s.skip(k as int).skip(1) =~= s.skip(k + 1));
        k += 1;
    }
    proof {
        if k < v.len() {
            assert(s.skip(k as int)[0] == s[k as int]);
        }
    }
    k
}

/// Puts an entry into a sorted list, in place of the entry of its path
/// where there is one.
pub fn upsert_entry(v: &mut Vec<(String, String, u64)>, path: &str, hash: &str, size: u64)
    requires
        sorted_by_path(files_view(old(v)@)),
    ensures
        files_view(final(v)@) == upsert(files_view(old(v)@), (path@, hash@, size)),
        sorted_by_path(files_view(final(v)@)),
{
    let ghost s = files_view(v@);
    let ghost e: FileView = (path@, hash@, size);
    let k = find_place(v, path);
    let entry = (path.to_owned(), hash.to_owned(), size);
    if k < v.len() && str_eq(v[k].0.as_str(), path) {
        v.remove(k);
        v.insert(k, entry);
        assert(files_view(v@) =~= s.update(k as int, e));
    } else {
        v.insert(k, entry);
        assert(files_view(v@) =~= s.insert(k as int, e));
    }
    proof {
        lemma_upsert(s, e);
    }
}

/// Adds an entry to a sorted list where its path is new.
pub fn add_new_entry(v: &mut Vec<(String, String, u64)>, entry: (String, String, u64))
    requires
        sorted_by_path(files_view(old(v)@)),
    ensures
        files_view(final(v)@) == add_new(files_view(old(v)@), file_view(entry)),
        sorted_by_path(files_view(final(v)@)),
{
    let ghost s = files_view(v@);
    let ghost e = file_view(entry);
    let k = find_place(v, entry.0.as_str());
    if k < v.len() && str_eq(v[k].0.as_str(), entry.0.as_str()) {
    } else {
        v.insert(k, entry);
        assert(files_view(v@) =~= s.insert(k as int, e));
    }
    proof {
        lemma_add_new(s, e);
    }
}

/// The normal form of a list of files.
pub fn normalize(files: &Vec<(String, String, u64)>) -> (r: Vec<(String, String, u64)>)
    ensures
        files_view(r@) == normalized(files_view(files@)),
        sorted_by_path(files_view(r@)),
{
    let ghost all = files_view(files@);
    let mut out: Vec<(String, String, u64)> = Vec::new();
    let mut i: usize = 0;
    assert(all.skip(0) =~= all);
    assert(files_view(out@) =~= Seq::<FileView>::empty());
    while i < files.len()
        invariant
            i <= files.len(),
            all == files_view(files@),
            sorted_by_path(files_view(out@)),
            collected(files_view(out@), all.skip(i as int)) == normalized(all),
        decreases files.len() - i,
    {
        assert(all.skip(i as int)[0] == file_view(files@[i as int]));
        assert(all.skip(i as int).skip(1) =~= all.skip(i + 1));
        add_new_entry(&mut out, clone_entry(&files[i]));
        i += 1;
    }
    out
}

} // verus!
