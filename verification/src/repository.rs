//! The rules of the repository that stand between the object store and the
//! metadata index: the text of HEAD, the digest of a commit, and the
//! comparison of two commits.

use crate::database::{
    clone_commit, commit_index, commits_view, has_commit, is_space, is_space_char, Commit,
    CommitView,
};
use crate::error::FaiError;
use crate::storage::{retrieved, Objects, StorageManager};
use crate::text::{is_prefix, starts_with_bytes};
use crate::digest::{digest_of, hash_bytes};
use crate::entries::{files_view, FileView};
use crate::manifest::{strings_view, utf8_each, write_string_list};
use crate::scan::{decimal, list_text, quoted, write_decimal, write_quoted, NEWLINE, SPACE};
use crate::text::{str_eq, utf8};
use vstd::prelude::*;

verus! {

/// How many characters of white space a text begins with.
pub open spec fn lead_spaces(s: Seq<char>) -> int
    decreases s.len(),
{
    if s.len() > 0 && is_space(s[0]) {
        1 + lead_spaces(s.skip(1))
    } else {
        0
    }
}

/// How many characters of white space a text ends with.
pub open spec fn trail_spaces(s: Seq<char>) -> int
    decreases s.len(),
{
    if s.len() > 0 && is_space(s.last()) {
        1 + trail_spaces(s.drop_last())
    } else {
        0
    }
}

/// A text without the white space at its two ends.
pub open spec fn trimmed(s: Seq<char>) -> Seq<char> {
    if lead_spaces(s) >= s.len() {
        Seq::<char>::empty()
    } else {
        s.subrange(lead_spaces(s), s.len() - trail_spaces(s))
    }
}

/// The white space at the two ends of a text fits into the text, and the two
/// ends do not overlap where the text holds anything else.
pub proof fn lemma_spaces_bounds(s: Seq<char>)
    ensures
        0 <= lead_spaces(s) <= s.len(),
        0 <= trail_spaces(s) <= s.len(),
        lead_spaces(s) < s.len() ==> lead_spaces(s) + trail_spaces(s) <= s.len(),
    decreases s.len(),
{
    if s.len() > 0 {
        if is_space(s[0]) {
            lemma_spaces_bounds(s.skip(1));
        }
        if is_space(s.last()) {
            lemma_spaces_bounds(s.drop_last());
            if lead_spaces(s) < s.len() {
                lemma_lead_drop_last(s);
            }
        }
    }
}

proof fn lemma_lead_drop_last(s: Seq<char>)
    requires
        s.len() > 0,
        lead_spaces(s) < s.len(),
    ensures
        lead_spaces(s.drop_last()) == lead_spaces(s),
        lead_spaces(s.drop_last()) < s.drop_last().len() || !is_space(s.last()),
    decreases s.len(),
{
    if is_space(s[0]) {
        if s.len() == 1 {
            assert(s.skip(1).len() == 0);
            assert(lead_spaces(s.skip(1)) == 0);
        }
        assert(s.len() > 1);
        lemma_lead_drop_last(s.skip(1));
        assert(s.drop_last().skip(1) =~= s.skip(1).drop_last());
        assert(s.drop_last()[0] == s[0]);
        assert(s.skip(1).last() == s.last());
    } else {
        if s.len() > 1 {
            assert(s.drop_last()[0] == s[0]);
        }
    }
}

/// What HEAD holds after `init`: a reference to the branch `main`, which has
/// no commit yet.
pub open spec fn initial_head() -> Seq<char> {
    "ref: refs/heads/main"@
}

/// What marks the text of HEAD as a reference to a branch.
pub open spec fn ref_mark() -> Seq<char> {
    "ref:"@
}

/// The commit that the text of HEAD names: none where it is a reference to
/// a branch, else the text without the white space around it.
pub open spec fn head_commit(text: Seq<char>) -> Option<Seq<char>> {
    let p = ref_mark().len() as int;
    if text.len() >= p && text.subrange(0, p) == ref_mark() {
        None
    } else {
        Some(trimmed(text))
    }
}

/// A digest in HEAD names the commit of that digest: a text of hexadecimal
/// digits is no reference to a branch and has no white space around it.
pub proof fn lemma_head_of_digest(text: Seq<char>)
    requires
        text.len() > 0,
        forall|i: int| 0 <= i < text.len() ==> crate::digest::is_hex_char(#[trigger] text[i]),
    ensures
        head_commit(text) == Some(text),
{
    reveal_strlit("ref:");
    assert(crate::digest::is_hex_char(text[0]));
    assert(crate::digest::is_hex_char(text[text.len() - 1]));
    if text.len() >= 4 {
        assert(text.subrange(0, 4)[0] == text[0]);
    }
    assert(lead_spaces(text) == 0);
    assert(trail_spaces(text) == 0);
    assert(text.subrange(0, text.len() as int) =~= text);
}

/// One file of a commit as it stands in the text that is hashed: the quoted
/// path, the quoted digest and the size, with a space between each two and
/// a line feed behind.
pub open spec fn file_line(f: FileView) -> Seq<u8> {
    quoted(utf8(f.0)) + seq![SPACE] + quoted(utf8(f.1)) + seq![SPACE] + decimal(f.2 as nat)
        + seq![NEWLINE]
}

/// The lines of the files of a commit.
pub open spec fn file_lines(files: Seq<FileView>) -> Seq<u8>
    decreases files.len(),
{
    if files.len() == 0 {
        Seq::<u8>::empty()
    } else {
        file_line(files[0]) + file_lines(files.skip(1))
    }
}

/// The text whose digest is the digest of a commit: the time, the quoted
/// message and the list of the parents, each on a line of its own, and then
/// the files, one to a line.
pub open spec fn commit_text(
    timestamp: i64,
    message: Seq<char>,
    parents: Seq<Seq<char>>,
    files: Seq<FileView>,
) -> Seq<u8> {
    decimal(timestamp as nat) + seq![NEWLINE] + quoted(utf8(message)) + seq![NEWLINE] + list_text(
        utf8_each(parents),
    ) + seq![NEWLINE] + file_lines(files)
}

/// The digest of a commit: a function of its time, message, parents and
/// files alone.
pub open spec fn commit_digest(
    timestamp: i64,
    message: Seq<char>,
    parents: Seq<Seq<char>>,
    files: Seq<FileView>,
) -> Seq<char> {
    digest_of(commit_text(timestamp, message, parents, files))
}

/// One file of a commit as it stands in the text that is hashed for an
/// amended commit: path, digest and size in decimal digits, with nothing
/// between them.
pub open spec fn amend_file(f: FileView) -> Seq<u8> {
    utf8(f.0) + utf8(f.1) + decimal(f.2 as nat)
}

/// The files of an amended commit as they stand in the text that is hashed.
pub open spec fn amend_files(files: Seq<FileView>) -> Seq<u8>
    decreases files.len(),
{
    if files.len() == 0 {
        Seq::<u8>::empty()
    } else {
        amend_file(files[0]) + amend_files(files.skip(1))
    }
}

/// The texts of a list, one after the other.
pub open spec fn run_together(texts: Seq<Seq<char>>) -> Seq<u8>
    decreases texts.len(),
{
    if texts.len() == 0 {
        Seq::<u8>::empty()
    } else {
        utf8(texts[0]) + run_together(texts.skip(1))
    }
}

/// The text whose digest is the digest of an amended commit: the message,
/// the name of the branch, the files and the parents, one after the other.
pub open spec fn amend_text(
    message: Seq<char>,
    branch: Seq<char>,
    files: Seq<FileView>,
    parents: Seq<Seq<char>>,
) -> Seq<u8> {
    utf8(message) + utf8(branch) + amend_files(files) + run_together(parents)
}

/// The digest of an amended commit.
pub open spec fn amend_digest(
    message: Seq<char>,
    branch: Seq<char>,
    files: Seq<FileView>,
    parents: Seq<Seq<char>>,
) -> Seq<char> {
    digest_of(amend_text(message, branch, files, parents))
}

/// The digests of a list of files.
pub open spec fn digests(files: Seq<FileView>) -> Seq<Seq<char>> {
    Seq::new(files.len(), |i: int| files[i].1)
}

/// Those of `xs` that are in `other`, or those that are not, each once and
/// in the order in which `xs` has them first.
pub open spec fn picked(xs: Seq<Seq<char>>, other: Seq<Seq<char>>, inside: bool) -> Seq<Seq<char>>
    decreases xs.len(),
{
    if xs.len() == 0 {
        Seq::<Seq<char>>::empty()
    } else {
        let front = picked(xs.drop_last(), other, inside);
        if !xs.drop_last().contains(xs.last()) && other.contains(xs.last()) == inside {
            front.push(xs.last())
        } else {
            front
        }
    }
}

/// The digests that the files of `to` have and those of `from` have not.
pub open spec fn added_between(from: Seq<FileView>, to: Seq<FileView>) -> Seq<Seq<char>> {
    picked(digests(to), digests(from), false)
}

/// The digests that the files of `from` have and those of `to` have not.
pub open spec fn removed_between(from: Seq<FileView>, to: Seq<FileView>) -> Seq<Seq<char>> {
    picked(digests(from), digests(to), false)
}

/// The digests that the files of both have.
pub open spec fn unchanged_between(from: Seq<FileView>, to: Seq<FileView>) -> Seq<Seq<char>> {
    picked(digests(from), digests(to), true)
}

/// The digests of `xs`, each once, in the order in which `xs` has them
/// first.
pub open spec fn each_once(xs: Seq<Seq<char>>) -> Seq<Seq<char>> {
    picked(xs, xs, true)
}

/// What is picked is in `xs`, and stands in `other` or not as was asked.
pub proof fn lemma_picked(xs: Seq<Seq<char>>, other: Seq<Seq<char>>, inside: bool)
    ensures
        forall|d: Seq<char>|
            #![trigger picked(xs, other, inside).contains(d)]
            #![trigger xs.contains(d)]
            picked(xs, other, inside).contains(d) <==> xs.contains(d) && other.contains(d)
                == inside,
        picked(xs, other, inside).no_duplicates(),
        picked(xs, other, inside).len() <= xs.len(),
    decreases xs.len(),
{
    let r = picked(xs, other, inside);
    if xs.len() > 0 {
        let front_xs = xs.drop_last();
        let last = xs.last();
        let front = picked(front_xs, other, inside);
        lemma_picked(front_xs, other, inside);
        assert forall|d: Seq<char>| r.contains(d) <==> xs.contains(d) && other.contains(d)
            == inside by {
            if xs.contains(d) {
                let i = choose|i: int| 0 <= i < xs.len() && xs[i] == d;
                if i < front_xs.len() {
                    assert(front_xs[i] == d);
                    assert(front_xs.contains(d));
                }
            }
            if front_xs.contains(d) {
                let i = choose|i: int| 0 <= i < front_xs.len() && front_xs[i] == d;
                assert(xs[i] == d);
            }
            assert(xs[xs.len() - 1] == last);
            if r.contains(d) {
                let i = choose|i: int| 0 <= i < r.len() && r[i] == d;
                if i < front.len() {
                    assert(front[i] == d);
                    assert(front.contains(d));
                }
            }
            if front.contains(d) {
                let i = choose|i: int| 0 <= i < front.len() && front[i] == d;
                assert(r[i] == d);
            }
            if r.len() > front.len() {
                assert(r[r.len() - 1] == last);
            }
        }
        if r.len() > front.len() {
            assert(!front.contains(last));
            assert forall|i: int, j: int| 0 <= i < r.len() && 0 <= j < r.len() && i != j implies r[i]
                != r[j] by {
                if i < front.len() && j < front.len() {
                    assert(r[i] == front[i] && r[j] == front[j]);
                } else if i < front.len() {
                    assert(front[i] == r[i]);
                    assert(front.contains(r[i]));
                } else {
                    assert(front[j] == r[j]);
                    assert(front.contains(r[j]));
                }
            }
        }
    } else {
        assert forall|d: Seq<char>| r.contains(d) <==> xs.contains(d) && other.contains(d)
            == inside by {}
    }
}

/// Between a commit and itself nothing is added and nothing removed.
pub proof fn lemma_picked_none(xs: Seq<Seq<char>>)
    ensures
        picked(xs, xs, false) == Seq::<Seq<char>>::empty(),
{
    lemma_picked(xs, xs, false);
    let r = picked(xs, xs, false);
    if r.len() > 0 {
        let d = r[0];
        assert(r.contains(d));
        assert(xs.contains(d) && xs.contains(d) == false);
    }
    assert(r =~= Seq::<Seq<char>>::empty());
}

/// A text without the white space at its two ends.
pub fn trim_text(text: &str) -> (r: String)
    ensures
        r@ == trimmed(text@),
{
    let n = text.unicode_len();
    let mut a: usize = 0;
    assert(text@.skip(0) =~= text@);
    while a < n && is_space_char(text.get_char(a))
        invariant
            a <= n,
            n == text@.len(),
            lead_spaces(text@) == a + lead_spaces(text@.skip(a as int)),
        decreases n - a,
    {
        assert(text@.skip(a as int)[0] == text@[a as int]);
        assert(text@.skip(a as int).skip(1) =~= text@.skip(a + 1));
        a += 1;
    }
    proof {
        if a < n {
            assert(text@.skip(a as int)[0] == text@[a as int]);
        }
        lemma_spaces_bounds(text@);
    }
    if a == n {
        let empty = String::new();
        assert(empty@ =~= trimmed(text@));
        return empty;
    }
    let mut b: usize = n;
    assert(text@.take(n as int) =~= text@);
    while is_space_char(text.get_char(b - 1))
        invariant
            a < b <= n,
            n == text@.len(),
            !is_space(text@[a as int]),
            trail_spaces(text@) == (n - b) + trail_spaces(text@.take(b as int)),
        decreases b,
    {
        assert(text@.take(b as int).last() == text@[b - 1]);
        assert(text@.take(b as int).drop_last() =~= text@.take(b - 1));
        b -= 1;
    }
    assert(text@.take(b as int).last() == text@[b - 1]);
    text.substring_char(a, b).to_owned()
}

/// The commit that the text of HEAD names.
pub fn read_head(text: &str) -> (r: Option<String>)
    ensures
        match head_commit(text@) {
            Some(hash) => r matches Some(found) && found@ == hash,
            None => r is None,
        },
{
    let mark = "ref:";
    let p = mark.unicode_len();
    if text.unicode_len() >= p && str_eq(text.substring_char(0, p), mark) {
        None
    } else {
        Some(trim_text(text))
    }
}

fn write_file_line(out: &mut Vec<u8>, file: &(String, String, u64))
    ensures
        final(out)@ == old(out)@ + file_line(crate::entries::file_view(*file)),
{
    write_quoted(out, file.0.as_str().as_bytes());
    out.push(SPACE);
    write_quoted(out, file.1.as_str().as_bytes());
    out.push(SPACE);
    write_decimal(out, file.2);
    out.push(NEWLINE);
    assert(final(out)@ =~= old(out)@ + file_line(crate::entries::file_view(*file)));
}

/// The text whose digest is the digest of a commit.
pub fn write_commit_text(
    timestamp: i64,
    message: &str,
    parents: &Vec<String>,
    files: &Vec<(String, String, u64)>,
) -> (out: Vec<u8>)
    requires
        timestamp >= 0,
    ensures
        out@ == commit_text(timestamp, message@, strings_view(parents@), files_view(files@)),
{
    let ghost all = files_view(files@);
    let mut out: Vec<u8> = Vec::new();
    write_decimal(&mut out, timestamp as u64);
    out.push(NEWLINE);
    write_quoted(&mut out, message.as_bytes());
    out.push(NEWLINE);
    write_string_list(&mut out, parents);
    out.push(NEWLINE);
    let ghost head = out@;
    assert(head =~= decimal(timestamp as nat) + seq![NEWLINE] + quoted(utf8(message@)) + seq![
        NEWLINE,
    ] + list_text(utf8_each(strings_view(parents@))) + seq![NEWLINE]);
    let mut i: usize = 0;
    assert(all.skip(0) =~= all);
    while i < files.len()
        invariant
            i <= files.len(),
            all == files_view(files@),
            out@ + file_lines(all.skip(i as int)) == head + file_lines(all),
        decreases files.len() - i,
    {
        let ghost before = out@;
        let ghost rest = all.skip(i as int);
        assert(rest[0] == crate::entries::file_view(files@[i as int]));
        assert(rest.skip(1) =~= all.skip(i + 1));
        write_file_line(&mut out, &files[i]);
        assert(out@ + file_lines(all.skip(i + 1)) =~= before + file_lines(rest));
        i += 1;
    }
    assert(out@ + file_lines(all.skip(i as int)) =~= out@);
    out
}

/// The digest of a commit made at `timestamp`.
pub fn hash_commit(
    timestamp: i64,
    message: &str,
    parents: &Vec<String>,
    files: &Vec<(String, String, u64)>,
) -> (digest: String)
    requires
        timestamp >= 0,
    ensures
        digest@ == commit_digest(timestamp, message@, strings_view(parents@), files_view(files@)),
        digest@.len() == crate::digest::DIGEST_LEN,
        forall|i: int| 0 <= i < digest@.len() ==> crate::digest::is_hex_char(#[trigger] digest@[i]),
{
    let text = write_commit_text(timestamp, message, parents, files);
    hash_bytes(text.as_slice())
}

/// The digest of an amended commit.
pub fn hash_amended(
    message: &str,
    branch: &str,
    files: &Vec<(String, String, u64)>,
    parents: &Vec<String>,
) -> (digest: String)
    ensures
        digest@ == amend_digest(message@, branch@, files_view(files@), strings_view(parents@)),
        digest@.len() == crate::digest::DIGEST_LEN,
{
    let ghost all = files_view(files@);
    let ghost ps = strings_view(parents@);
    let mut out: Vec<u8> = Vec::new();
    out.extend_from_slice(message.as_bytes());
    out.extend_from_slice(branch.as_bytes());
    let ghost head = out@;
    assert(head =~= utf8(message@) + utf8(branch@));
    let mut i: usize = 0;
    assert(all.skip(0) =~= all);
    while i < files.len()
        invariant
            i <= files.len(),
            all == files_view(files@),
            out@ + amend_files(all.skip(i as int)) == head + amend_files(all),
        decreases files.len() - i,
    {
        let ghost before = out@;
        let ghost rest = all.skip(i as int);
        assert(rest[0] == crate::entries::file_view(files@[i as int]));
        assert(rest.skip(1) =~= all.skip(i + 1));
        out.extend_from_slice(files[i].0.as_str().as_bytes());
        out.extend_from_slice(files[i].1.as_str().as_bytes());
        write_decimal(&mut out, files[i].2);
        assert(out@ =~= before + amend_file(rest[0]));
        assert(out@ + amend_files(all.skip(i + 1)) =~= before + amend_files(rest));
        i += 1;
    }
    assert(out@ + amend_files(all.skip(i as int)) =~= out@);
    let ghost middle = out@;
    let mut j: usize = 0;
    assert(ps.skip(0) =~= ps);
    while j < parents.len()
        invariant
            j <= parents.len(),
            ps == strings_view(parents@),
            out@ + run_together(ps.skip(j as int)) == middle + run_together(ps),
        decreases parents.len() - j,
    {
        let ghost before = out@;
        let ghost rest = ps.skip(j as int);
        assert(rest[0] == parents@[j as int]@);
        assert(rest.skip(1) =~= ps.skip(j + 1));
        out.extend_from_slice(parents[j].as_str().as_bytes());
        assert(out@ =~= before + utf8(rest[0]));
        assert(out@ + run_together(ps.skip(j + 1)) =~= before + run_together(rest));
        j += 1;
    }
    assert(out@ + run_together(ps.skip(j as int)) =~= out@);
    assert(out@ =~= amend_text(message@, branch@, all, ps));
    hash_bytes(out.as_slice())
}

/// The digests of a list of files.
pub fn file_digests(files: &Vec<(String, String, u64)>) -> (r: Vec<String>)
    ensures
        strings_view(r@) == digests(files_view(files@)),
{
    let mut out: Vec<String> = Vec::new();
    let mut i: usize = 0;
    while i < files.len()
        invariant
            i <= files.len(),
            out.len() == i,
            forall|k: int| 0 <= k < i ==> (#[trigger] out@[k])@ == files@[k].1@,
        decreases files.len() - i,
    {
        out.push(files[i].1.clone());
        i += 1;
    }
    assert(strings_view(out@) =~= digests(files_view(files@)));
    out
}

/// Whether one of the first `upto` texts of `v` is `x`.
pub fn contains_text(v: &Vec<String>, upto: usize, x: &str) -> (r: bool)
    requires
        upto <= v.len(),
    ensures
        r == strings_view(v@).take(upto as int).contains(x@),
{
    let ghost s = strings_view(v@).take(upto as int);
    let mut i: usize = 0;
    while i < upto
        invariant
            i <= upto <= v.len(),
            s == strings_view(v@).take(upto as int),
            forall|k: int| 0 <= k < i ==> s[k] != x@,
        decreases upto - i,
    {
        assert(s[i as int] == v@[i as int]@);
        if str_eq(v[i].as_str(), x) {
            assert(s.contains(x@));
            return true;
        }
        i += 1;
    }
    false
}

/// Those of `xs` that are in `other`, or those that are not, each once and
/// in the order in which `xs` has them first.
pub fn pick(xs: &Vec<String>, other: &Vec<String>, inside: bool) -> (r: Vec<String>)
    ensures
        strings_view(r@) == picked(strings_view(xs@), strings_view(other@), inside),
{
    let ghost sx = strings_view(xs@);
    let ghost so = strings_view(other@);
    let mut out: Vec<String> = Vec::new();
    let mut i: usize = 0;
    assert(strings_view(out@) =~= picked(sx.take(0), so, inside));
    while i < xs.len()
        invariant
            i <= xs.len(),
            sx == strings_view(xs@),
            so == strings_view(other@),
            strings_view(out@) == picked(sx.take(i as int), so, inside),
        decreases xs.len() - i,
    {
        let ghost before = strings_view(out@);
        assert(sx.take(i + 1).drop_last() =~= sx.take(i as int));
        assert(sx.take(i + 1).last() == xs@[i as int]@);
        assert(so.take(other.len() as int) =~= so);
        let seen = contains_text(xs, i, xs[i].as_str());
        let there = contains_text(other, other.len(), xs[i].as_str());
        if !seen && there == inside {
            out.push(xs[i].clone());
            assert(strings_view(out@) =~= before.push(xs@[i as int]@));
        }
        i += 1;
    }
    assert(sx.take(i as int) =~= sx);
    out
}

/// The indices of the commits whose digest begins with `prefix`.
pub open spec fn prefixed(s: Seq<CommitView>, prefix: Seq<char>) -> Seq<int>
    decreases s.len(),
{
    if s.len() == 0 {
        Seq::<int>::empty()
    } else {
        let front = prefixed(s.drop_last(), prefix);
        if is_prefix(utf8(prefix), utf8(s.last().hash)) {
            front.push(s.len() - 1)
        } else {
            front
        }
    }
}

/// The commit that `name` stands for: the one with that digest, or else
/// the only one whose digest begins with `name`. `NotFound` where no digest
/// begins with it, `Conflict` where more than one does.
pub open spec fn resolved(s: Seq<CommitView>, name: Seq<char>) -> Result<CommitView, FaiError> {
    if has_commit(s, name) {
        Ok(s[commit_index(s, name)])
    } else if prefixed(s, name).len() == 1 {
        Ok(s[prefixed(s, name)[0]])
    } else if prefixed(s, name).len() == 0 {
        Err(FaiError::NotFound)
    } else {
        Err(FaiError::Conflict)
    }
}

/// The commit that `name` stands for among `commits`.
pub fn resolve_in(commits: &Vec<Commit>, name: &str) -> (r: Result<Commit, FaiError>)
    ensures
        match resolved(commits_view(commits@), name@) {
            Ok(c) => r matches Ok(found) && found@ == c,
            Err(e) => r matches Err(e2) && e2 == e,
        },
{
    let ghost s = commits_view(commits@);
    let mut i: usize = 0;
    assert(s.skip(0) =~= s);
    while i < commits.len()
        invariant
            i <= commits.len(),
            s == commits_view(commits@),
            commit_index(s, name@) == i + commit_index(s.skip(i as int), name@),
        decreases commits.len() - i,
    {
        assert(s.skip(i as int)[0] == commits@[i as int]@);
        if str_eq(commits[i].hash.as_str(), name) {
            return Ok(clone_commit(&commits[i]));
        }
        assert(s.skip(i as int).skip(1) =~= s.skip(i + 1));
        i += 1;
    }
    assert(!has_commit(s, name@));
    let mut count: usize = 0;
    let mut first: usize = 0;
    let mut k: usize = 0;
    assert(s.take(0) =~= Seq::<CommitView>::empty());
    while k < commits.len()
        invariant
            k <= commits.len(),
            s == commits_view(commits@),
            count == prefixed(s.take(k as int), name@).len(),
            count <= k,
            count >= 1 ==> first == prefixed(s.take(k as int), name@)[0] && first < k,
        decreases commits.len() - k,
    {
        assert(s.take(k + 1).drop_last() =~= s.take(k as int));
        assert(s.take(k + 1).last() == commits@[k as int]@);
        if starts_with_bytes(commits[k].hash.as_str().as_bytes(), name.as_bytes()) {
            if count == 0 {
                first = k;
            }
            count += 1;
        }
        k += 1;
    }
    assert(s.take(k as int) =~= s);
    if count == 1 {
        Ok(clone_commit(&commits[first]))
    } else if count == 0 {
        Err(FaiError::NotFound)
    } else {
        Err(FaiError::Conflict)
    }
}

/// The number of bytes that `retrieve` gives for `digest`; none where it
/// gives an error.
pub open spec fn blob_size(m: Objects, digest: Seq<char>) -> nat {
    match retrieved(m, digest) {
        Ok(bytes) => bytes.len(),
        Err(_) => 0,
    }
}

/// The sizes of the blobs of a list of digests, added up.
pub open spec fn total_size(m: Objects, ds: Seq<Seq<char>>) -> nat
    decreases ds.len(),
{
    if ds.len() == 0 {
        0
    } else {
        total_size(m, ds.drop_last()) + blob_size(m, ds.last())
    }
}

/// The sizes of the blobs of a list of digests, added up.
pub fn sum_sizes(store: &StorageManager, ds: &Vec<String>) -> (total: u128)
    requires
        store.wf(),
    ensures
        total == total_size(store@, strings_view(ds@)),
{
    let ghost s = strings_view(ds@);
    let mut total: u128 = 0;
    let mut i: usize = 0;
    assert(s.take(0) =~= Seq::<Seq<char>>::empty());
    while i < ds.len()
        invariant
            i <= ds.len(),
            store.wf(),
            s == strings_view(ds@),
            total == total_size(store@, s.take(i as int)),
            total <= i * 0xffff_ffff_ffff_ffff,
        decreases ds.len() - i,
    {
        assert(s.take(i + 1).drop_last() =~= s.take(i as int));
        assert(s.take(i + 1).last() == ds@[i as int]@);
        let size: usize = match store.retrieve(ds[i].as_str()) {
            Ok(bytes) => bytes.len(),
            Err(_) => 0,
        };
        total = total + size as u128;
        i += 1;
    }
    assert(s.take(i as int) =~= s);
    total
}

/// How two commits differ, by the digests of their files.
#[derive(Debug)]
pub struct DiffResult {
    /// The digests that only the second commit has.
    pub added: Vec<String>,
    /// The digests that only the first commit has.
    pub removed: Vec<String>,
    /// The digests that both have.
    pub unchanged: Vec<String>,
    /// The sizes of the added blobs that the store can give out, added up.
    pub added_bytes: u128,
    /// The sizes of the removed blobs that the store can give out, added
    /// up.
    pub removed_bytes: u128,
}

/// How the size of what is stored changes from one commit to another.
#[derive(Debug, Clone, Copy, PartialEq, Eq, Structural)]
pub enum SizeChange {
    /// More bytes were added than removed, by so many.
    Grew(u128),
    /// More bytes were removed than added, by so many.
    Shrank(u128),
    /// As many bytes were added as removed.
    Same,
}

impl DiffResult {
    /// The change of size: the bytes added less the bytes removed.
    pub fn size_change(&self) -> (r: SizeChange)
        ensures
            r == (if self.added_bytes > self.removed_bytes {
                SizeChange::Grew((self.added_bytes - self.removed_bytes) as u128)
            } else if self.added_bytes < self.removed_bytes {
                SizeChange::Shrank((self.removed_bytes - self.added_bytes) as u128)
            } else {
                SizeChange::Same
            }),
    {
        if self.added_bytes > self.removed_bytes {
            SizeChange::Grew(self.added_bytes - self.removed_bytes)
        } else if self.added_bytes < self.removed_bytes {
            SizeChange::Shrank(self.removed_bytes - self.added_bytes)
        } else {
            SizeChange::Same
        }
    }
}

/// The difference between two lists of files, with the sizes of the blobs
/// as `m` holds them.
pub open spec fn is_diff_of(d: DiffResult, m: Objects, from: Seq<FileView>, to: Seq<FileView>) -> bool {
    &&& strings_view(d.added@) == added_between(from, to)
    &&& strings_view(d.removed@) == removed_between(from, to)
    &&& strings_view(d.unchanged@) == unchanged_between(from, to)
    &&& d.added_bytes == total_size(m, added_between(from, to))
    &&& d.removed_bytes == total_size(m, removed_between(from, to))
}

/// Compares the files of two commits.
pub fn diff_files(
    store: &StorageManager,
    from: &Vec<(String, String, u64)>,
    to: &Vec<(String, String, u64)>,
) -> (d: DiffResult)
    requires
        store.wf(),
    ensures
        is_diff_of(d, store@, files_view(from@), files_view(to@)),
{
    let a = file_digests(from);
    let b = file_digests(to);
    let added = pick(&b, &a, false);
    let removed = pick(&a, &b, false);
    let unchanged = pick(&a, &b, true);
    let added_bytes = sum_sizes(store, &added);
    let removed_bytes = sum_sizes(store, &removed);
    DiffResult { added, removed, unchanged, added_bytes, removed_bytes }
}

/// Between a list of files and itself nothing is added and nothing is
/// removed, and every digest is unchanged.
pub proof fn lemma_diff_same(files: Seq<FileView>)
    ensures
        added_between(files, files) == Seq::<Seq<char>>::empty(),
        removed_between(files, files) == Seq::<Seq<char>>::empty(),
        unchanged_between(files, files) == each_once(digests(files)),
        forall|d: Seq<char>|
            #![trigger digests(files).contains(d)]
            unchanged_between(files, files).contains(d) <==> digests(files).contains(d),
{
    lemma_picked_none(digests(files));
    lemma_picked(digests(files), digests(files), true);
}

/// What is added from one list of files to another is what is removed the
/// other way round, and what is removed is what is added.
pub proof fn lemma_diff_symmetric(a: Seq<FileView>, b: Seq<FileView>)
    ensures
        added_between(a, b) == removed_between(b, a),
        removed_between(a, b) == added_between(b, a),
        added_between(a, b).to_set() == removed_between(b, a).to_set(),
        removed_between(a, b).to_set() == added_between(b, a).to_set(),
{
}

} // verus!
