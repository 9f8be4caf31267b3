//! The manifest of a large file: the ordered digests of its chunks, written
//! as a text that begins with `{`.

use crate::scan::{
    break_one, decimal, gap_len, later, lemma_decimal_digits, lemma_gap_len_bounds,
    lemma_gap_len_exact, lemma_passed_value_bounds, lemma_quoted_string_bounds, lemma_read_decimal,
    lemma_read_list, lemma_read_quoted, lemma_string_list_bounds, list_text, pass_value,
    passed_value, quoted, quoted_string, read_quoted, read_string_list, read_unsigned, skip_gap,
    string_list, unsigned, views, write_break, write_decimal, write_list, write_quoted,
    CLOSE_BRACE, COLON, COMMA, NEWLINE, OPEN_BRACE, QUOTE, SPACE,
};
use crate::text::{blank_len, skip_blank, string_from_utf8, utf8};
use vstd::prelude::*;

verus! {

/// The record of a file that is stored in chunks.
#[derive(Debug, Clone)]
pub struct FileManifest {
    /// The number of bytes of the whole file.
    pub total_size: u64,
    /// The digests of the chunks, in the order in which they are put together.
    pub chunks: Vec<String>,
    /// The name of the file, where one was given.
    pub filename: Option<String>,
}

/// A manifest as a mathematical value.
pub struct ManifestView {
    pub total_size: u64,
    pub chunks: Seq<Seq<char>>,
    pub filename: Option<Seq<char>>,
}

/// The texts of a list of strings.
pub open spec fn strings_view(v: Seq<String>) -> Seq<Seq<char>> {
    Seq::new(v.len(), |i: int| v[i]@)
}

impl View for FileManifest {
    type V = ManifestView;

    open spec fn view(&self) -> ManifestView {
        ManifestView {
            total_size: self.total_size,
            chunks: strings_view(self.chunks@),
            filename: match self.filename {
                Some(name) => Some(name@),
                None => None,
            },
        }
    }
}

/// The name `total_size`.
pub open spec fn key_total_size() -> Seq<u8> {
    seq![0x74u8, 0x6fu8, 0x74u8, 0x61u8, 0x6cu8, 0x5fu8, 0x73u8, 0x69u8, 0x7au8, 0x65u8]
}

/// The name `chunks`.
pub open spec fn key_chunks() -> Seq<u8> {
    seq![0x63u8, 0x68u8, 0x75u8, 0x6eu8, 0x6bu8, 0x73u8]
}

/// The name `filename`.
pub open spec fn key_filename() -> Seq<u8> {
    seq![0x66u8, 0x69u8, 0x6cu8, 0x65u8, 0x6eu8, 0x61u8, 0x6du8, 0x65u8]
}

/// The word `null`.
pub open spec fn word_null() -> Seq<u8> {
    seq![0x6eu8, 0x75u8, 0x6cu8, 0x6cu8]
}

/// What has been read of a manifest so far: each of the three fields, once
/// it has been met.
pub struct Fields {
    pub total_size: Option<u64>,
    pub chunks: Option<Seq<Seq<u8>>>,
    pub filename: Option<Option<Seq<u8>>>,
}

/// Nothing read yet.
pub open spec fn no_fields() -> Fields {
    Fields { total_size: None, chunks: None, filename: None }
}

/// Reads the value of the member named `key`. Each of the three fields may
/// come once; the value of any other member is passed over.
pub open spec fn member_value(key: Seq<u8>, s: Seq<u8>, f: Fields) -> Option<(Fields, int)> {
    if key == key_total_size() {
        match unsigned(s) {
            Some((v, n)) => if f.total_size is None {
                Some((Fields { total_size: Some(v), ..f }, n))
            } else {
                None
            },
            None => None,
        }
    } else if key == key_chunks() {
        match string_list(s) {
            Some((v, n)) => if f.chunks is None {
                Some((Fields { chunks: Some(v), ..f }, n))
            } else {
                None
            },
            None => None,
        }
    } else if key == key_filename() {
        if f.filename is Some {
            None
        } else if crate::text::is_prefix(word_null(), s) {
            Some((Fields { filename: Some(None), ..f }, 4))
        } else {
            match quoted_string(s) {
                Some((v, n)) => Some((Fields { filename: Some(Some(v)), ..f }, n)),
                None => None,
            }
        }
    } else {
        match passed_value(s) {
            Some(n) => Some((f, n)),
            None => None,
        }
    }
}

/// The value of a member has at least one byte, and no more than there are.
pub proof fn lemma_member_value_bounds(key: Seq<u8>, s: Seq<u8>, f: Fields)
    ensures
        member_value(key, s, f) matches Some((g, n)) ==> 1 <= n <= s.len(),
{
    crate::scan::lemma_digits_len_bounds(s);
    lemma_string_list_bounds(s);
    lemma_quoted_string_bounds(s);
    lemma_passed_value_bounds(s);
}

/// Reads one member: a quoted name, a colon, the value, and the blank space
/// behind it. The count is that of all the bytes read.
pub open spec fn member(s: Seq<u8>, f: Fields) -> Option<(Fields, int)> {
    match quoted_string(s) {
        None => None,
        Some((key, n)) => {
            let c = n + gap_len(s.skip(n));
            if c >= s.len() || s[c] != COLON {
                None
            } else {
                let v = c + 1 + gap_len(s.skip(c + 1));
                match member_value(key, s.skip(v), f) {
                    None => None,
                    Some((g, m)) => Some((g, v + m + gap_len(s.skip(v + m)))),
                }
            }
        },
    }
}

/// A member has at least four bytes, and no more than there are.
pub proof fn lemma_member_bounds(s: Seq<u8>, f: Fields)
    ensures
        member(s, f) matches Some((g, e)) ==> 4 <= e <= s.len(),
{
    lemma_quoted_string_bounds(s);
    match quoted_string(s) {
        None => {},
        Some((key, n)) => {
            lemma_gap_len_bounds(s.skip(n));
            let c = n + gap_len(s.skip(n));
            if c < s.len() {
                lemma_gap_len_bounds(s.skip(c + 1));
                let v = c + 1 + gap_len(s.skip(c + 1));
                lemma_member_value_bounds(key, s.skip(v), f);
                match member_value(key, s.skip(v), f) {
                    None => {},
                    Some((g, m)) => {
                        lemma_gap_len_bounds(s.skip(v + m));
                    },
                }
            }
        },
    }
}

/// Reads the members of a manifest from the first name on, up to and
/// including the closing brace, with a comma between each two and blank
/// space wherever it pleases.
pub open spec fn members(s: Seq<u8>, f: Fields) -> Option<(Fields, int)>
    decreases s.len(),
{
    match member(s, f) {
        None => None,
        Some((g, e)) => {
            if e >= s.len() {
                None
            } else if s[e] == CLOSE_BRACE {
                Some((g, e + 1))
            } else if s[e] == COMMA {
                let next = e + 1 + gap_len(s.skip(e + 1));
                proof {
                    lemma_member_bounds(s, f);
                    lemma_gap_len_bounds(s.skip(e + 1));
                }
                later(next, members(s.skip(next), g))
            } else {
                None
            }
        },
    }
}

/// Reads a whole manifest text: an opening brace, the members, the closing
/// brace, and nothing but blank space around them.
pub open spec fn manifest_fields(s: Seq<u8>) -> Option<Fields> {
    let a = gap_len(s);
    if a >= s.len() || s[a] != OPEN_BRACE {
        None
    } else {
        let b = a + 1 + gap_len(s.skip(a + 1));
        let inner = if b < s.len() && s[b] == CLOSE_BRACE {
            Some((no_fields(), b + 1))
        } else {
            later(b, members(s.skip(b), no_fields()))
        };
        match inner {
            Some((f, n)) => if n + gap_len(s.skip(n)) == s.len() {
                Some(f)
            } else {
                None
            },
            None => None,
        }
    }
}

/// The texts that a list of byte strings spells, where each is valid UTF-8.
pub open spec fn texts_of(items: Seq<Seq<u8>>) -> Option<Seq<Seq<char>>> {
    if forall|i: int| 0 <= i < items.len() ==> vstd::utf8::valid_utf8(#[trigger] items[i]) {
        Some(Seq::new(items.len(), |i: int| vstd::utf8::decode_utf8(items[i])))
    } else {
        None
    }
}

/// The manifest that a text stands for. The text must hold `total_size` and
/// `chunks`; `filename` may be missing or `null`. Strings must be valid
/// UTF-8.
pub open spec fn parsed_manifest(s: Seq<u8>) -> Option<ManifestView> {
    match manifest_fields(s) {
        Some(f) => {
            if f.total_size is Some && f.chunks is Some && texts_of(f.chunks->0) is Some {
                match f.filename {
                    Some(Some(name)) => if vstd::utf8::valid_utf8(name) {
                        Some(
                            ManifestView {
                                total_size: f.total_size->0,
                                chunks: texts_of(f.chunks->0)->0,
                                filename: Some(vstd::utf8::decode_utf8(name)),
                            },
                        )
                    } else {
                        None
                    },
                    _ => Some(
                        ManifestView {
                            total_size: f.total_size->0,
                            chunks: texts_of(f.chunks->0)->0,
                            filename: None,
                        },
                    ),
                }
            } else {
                None
            }
        },
        None => None,
    }
}

/// Whether stored bytes are taken for a manifest: their first byte that is
/// not blank is `{`.
pub open spec fn is_manifest_text(s: Seq<u8>) -> bool {
    blank_len(s) < s.len() && s[blank_len(s)] == OPEN_BRACE
}

/// Whether `data` is taken for a manifest.
pub fn looks_like_manifest(data: &[u8]) -> (r: bool)
    ensures
        r == is_manifest_text(data@),
{
    let j = skip_blank(data);
    j < data.len() && data[j] == OPEN_BRACE
}

/// The fields read so far, as the reader holds them.
struct Draft {
    total_size: Option<u64>,
    chunks: Option<Vec<Vec<u8>>>,
    filename: Option<Option<Vec<u8>>>,
}

impl Draft {
    spec fn fields(&self) -> Fields {
        Fields {
            total_size: self.total_size,
            chunks: match self.chunks {
                Some(items) => Some(views(items@)),
                None => None,
            },
            filename: match self.filename {
                Some(Some(name)) => Some(Some(name@)),
                Some(None) => Some(None),
                None => None,
            },
        }
    }
}

fn is_key_total_size(key: &[u8]) -> (r: bool)
    ensures
        r == (key@ == key_total_size()),
{
    let name: [u8; 10] = [0x74, 0x6f, 0x74, 0x61, 0x6c, 0x5f, 0x73, 0x69, 0x7a, 0x65];
    assert(name@ =~= key_total_size());
    crate::text::bytes_eq(key, name.as_slice())
}

fn is_key_chunks(key: &[u8]) -> (r: bool)
    ensures
        r == (key@ == key_chunks()),
{
    let name: [u8; 6] = [0x63, 0x68, 0x75, 0x6e, 0x6b, 0x73];
    assert(name@ =~= key_chunks());
    crate::text::bytes_eq(key, name.as_slice())
}

fn is_key_filename(key: &[u8]) -> (r: bool)
    ensures
        r == (key@ == key_filename()),
{
    let name: [u8; 8] = [0x66, 0x69, 0x6c, 0x65, 0x6e, 0x61, 0x6d, 0x65];
    assert(name@ =~= key_filename());
    crate::text::bytes_eq(key, name.as_slice())
}

fn begins_with_null(s: &[u8], i: usize) -> (r: bool)
    requires
        i <= s.len(),
    ensures
        r == crate::text::is_prefix(word_null(), s@.skip(i as int)),
{
    let ghost here = s@.skip(i as int);
    if s.len() - i < 4 {
        return false;
    }
    assert(here[0] == s@[i as int] && here[1] == s@[i + 1] && here[2] == s@[i + 2] && here[3]
        == s@[i + 3]);
    let r = s[i] == 0x6e && s[i + 1] == 0x75 && s[i + 2] == 0x6c && s[i + 3] == 0x6c;
    proof {
        if r {
            assert(here.subrange(0, 4) =~= word_null());
        } else {
            let w = here.subrange(0, 4);
            assert(w[0] == here[0] && w[1] == here[1] && w[2] == here[2] && w[3] == here[3]);
        }
    }
    r
}

fn read_member_value(key: &[u8], s: &[u8], i: usize, draft: Draft) -> (r: Option<(Draft, usize)>)
    requires
        i <= s.len(),
    ensures
        match member_value(key@, s@.skip(i as int), draft.fields()) {
            Some((f, n)) => r matches Some((d, j)) && d.fields() == f && j == i + n && j <= s.len(),
            None => r is None,
        },
{
    let mut draft = draft;
    if is_key_total_size(key) {
        match read_unsigned(s, i) {
            Some((v, j)) => {
                if draft.total_size.is_some() {
                    return None;
                }
                draft.total_size = Some(v);
                Some((draft, j))
            },
            None => None,
        }
    } else if is_key_chunks(key) {
        match read_string_list(s, i) {
            Some((items, j)) => {
                if draft.chunks.is_some() {
                    return None;
                }
                draft.chunks = Some(items);
                Some((draft, j))
            },
            None => None,
        }
    } else if is_key_filename(key) {
        if draft.filename.is_some() {
            return None;
        }
        if begins_with_null(s, i) {
            draft.filename = Some(None);
            return Some((draft, i + 4));
        }
        match read_quoted(s, i) {
            Some((name, j)) => {
                draft.filename = Some(Some(name));
                Some((draft, j))
            },
            None => None,
        }
    } else {
        match pass_value(s, i) {
            Some(j) => Some((draft, j)),
            None => None,
        }
    }
}

fn read_member(s: &[u8], j: usize, draft: Draft) -> (r: Option<(Draft, usize)>)
    requires
        j <= s.len(),
    ensures
        match member(s@.skip(j as int), draft.fields()) {
            Some((f, n)) => r matches Some((d, e)) && d.fields() == f && e == j + n && e <= s.len(),
            None => r is None,
        },
{
    let ghost here = s@.skip(j as int);
    proof {
        lemma_quoted_string_bounds(here);
    }
    let (key, after_key) = match read_quoted(s, j) {
        Some(pair) => pair,
        None => {
            return None;
        },
    };
    assert(here.skip(after_key - j) =~= s@.skip(after_key as int));
    let c = skip_gap(s, after_key);
    if c >= s.len() {
        return None;
    }
    assert(here[c - j] == s@[c as int]);
    if s[c] != COLON {
        return None;
    }
    assert(here.skip(c + 1 - j) =~= s@.skip(c + 1));
    let v = skip_gap(s, c + 1);
    assert(here.skip(v - j) =~= s@.skip(v as int));
    proof {
        lemma_member_value_bounds(key@, s@.skip(v as int), draft.fields());
    }
    let (next_draft, after_value) = match read_member_value(key.as_slice(), s, v, draft) {
        Some(pair) => pair,
        None => {
            return None;
        },
    };
    assert(here.skip(after_value - j) =~= s@.skip(after_value as int));
    let e = skip_gap(s, after_value);
    Some((next_draft, e))
}

fn read_members(s: &[u8], b: usize) -> (r: Option<(Draft, usize)>)
    requires
        b <= s.len(),
    ensures
        match members(s@.skip(b as int), no_fields()) {
            Some((f, n)) => r matches Some((d, j)) && d.fields() == f && j == b + n && j <= s.len(),
            None => r is None,
        },
{
    let mut draft = Draft { total_size: None, chunks: None, filename: None };
    let mut j: usize = b;
    loop
        invariant
            b <= j <= s.len(),
            later(b as int, members(s@.skip(b as int), no_fields())) == later(
                j as int,
                members(s@.skip(j as int), draft.fields()),
            ),
        decreases s.len() - j,
    {
        let ghost here = s@.skip(j as int);
        proof {
            lemma_member_bounds(here, draft.fields());
        }
        let (next_draft, e) = match read_member(s, j, draft) {
            Some(pair) => pair,
            None => {
                return None;
            },
        };
        draft = next_draft;
        if e >= s.len() {
            return None;
        }
        assert(here[e - j] == s@[e as int]);
        if s[e] == CLOSE_BRACE {
            return Some((draft, e + 1));
        } else if s[e] == COMMA {
            assert(here.skip(e + 1 - j) =~= s@.skip(e + 1));
            let next = skip_gap(s, e + 1);
            assert(here.skip(next - j) =~= s@.skip(next as int));
            j = next;
        } else {
            return None;
        }
    }
}

fn read_fields(s: &[u8]) -> (r: Option<Draft>)
    ensures
        match manifest_fields(s@) {
            Some(f) => r matches Some(d) && d.fields() == f,
            None => r is None,
        },
{
    assert(s@.skip(0) =~= s@);
    let a = skip_gap(s, 0);
    if a >= s.len() || s[a] != OPEN_BRACE {
        return None;
    }
    let b = skip_gap(s, a + 1);
    let (draft, end) = if b < s.len() && s[b] == CLOSE_BRACE {
        (Draft { total_size: None, chunks: None, filename: None }, b + 1)
    } else {
        match read_members(s, b) {
            Some(pair) => pair,
            None => {
                return None;
            },
        }
    };
    let t = skip_gap(s, end);
    if t != s.len() {
        return None;
    }
    Some(draft)
}

fn texts_from(items: &Vec<Vec<u8>>) -> (r: Option<Vec<String>>)
    ensures
        match texts_of(views(items@)) {
            Some(texts) => r matches Some(v) && strings_view(v@) == texts,
            None => r is None,
        },
{
    let mut out: Vec<String> = Vec::new();
    let mut i: usize = 0;
    while i < items.len()
        invariant
            i <= items.len(),
            out.len() == i,
            forall|k: int| 0 <= k < i ==> vstd::utf8::valid_utf8(#[trigger] views(items@)[k]),
            forall|k: int| 0 <= k < i ==> (#[trigger] out@[k])@ == vstd::utf8::decode_utf8(items@[k]@),
        decreases items.len() - i,
    {
        let bytes = items[i].clone();
        assert(bytes@ == views(items@)[i as int]);
        match string_from_utf8(bytes) {
            Some(text) => {
                out.push(text);
            },
            None => {
                return None;
            },
        }
        i += 1;
    }
    assert(strings_view(out@) =~= texts_of(views(items@))->0);
    Some(out)
}

impl FileManifest {
    /// Reads a manifest from its text.
    pub fn from_bytes(data: &[u8]) -> (r: Option<FileManifest>)
        ensures
            match parsed_manifest(data@) {
                Some(m) => r matches Some(f) && f@ == m,
                None => r is None,
            },
    {
        let draft = match read_fields(data) {
            Some(d) => d,
            None => {
                return None;
            },
        };
        let total_size = match draft.total_size {
            Some(n) => n,
            None => {
                return None;
            },
        };
        let chunks = match &draft.chunks {
            Some(items) => match texts_from(items) {
                Some(texts) => texts,
                None => {
                    return None;
                },
            },
            None => {
                return None;
            },
        };
        let filename = match draft.filename {
            Some(Some(name)) => match string_from_utf8(name) {
                Some(text) => Some(text),
                None => {
                    return None;
                },
            },
            _ => None,
        };
        Some(FileManifest { total_size, chunks, filename })
    }
}

/// The UTF-8 bytes of each text of a list.
pub open spec fn utf8_each(texts: Seq<Seq<char>>) -> Seq<Seq<u8>> {
    Seq::new(texts.len(), |i: int| utf8(texts[i]))
}

/// A member written out: its quoted name, a colon, a space and its value.
pub open spec fn member_text(key: Seq<u8>, value: Seq<u8>) -> Seq<u8> {
    quoted(key) + seq![COLON, SPACE] + value
}

/// A file name written out: `null` where there is none.
pub open spec fn name_text(name: Option<Seq<char>>) -> Seq<u8> {
    match name {
        Some(n) => quoted(utf8(n)),
        None => word_null(),
    }
}

/// The third member and the end of the text.
pub open spec fn text_from_filename(m: ManifestView) -> Seq<u8> {
    member_text(key_filename(), name_text(m.filename)) + seq![NEWLINE, CLOSE_BRACE]
}

/// The second member and all that follows it.
pub open spec fn text_from_chunks(m: ManifestView) -> Seq<u8> {
    member_text(key_chunks(), list_text(utf8_each(m.chunks))) + seq![COMMA] + break_one()
        + text_from_filename(m)
}

/// The first member and all that follows it.
pub open spec fn text_from_total_size(m: ManifestView) -> Seq<u8> {
    member_text(key_total_size(), decimal(m.total_size as nat)) + seq![COMMA] + break_one()
        + text_from_chunks(m)
}

/// The text of a manifest: its three members in the order `total_size`,
/// `chunks`, `filename`, one to a line and indented by two spaces, the chunk
/// digests one to a line and indented by four.
pub open spec fn manifest_text(m: ManifestView) -> Seq<u8> {
    seq![OPEN_BRACE] + break_one() + text_from_total_size(m)
}

fn write_member_name(out: &mut Vec<u8>, key: &[u8])
    ensures
        final(out)@ == old(out)@ + quoted(key@) + seq![COLON, SPACE],
{
    write_quoted(out, key);
    out.push(COLON);
    out.push(SPACE);
    assert(final(out)@ =~= old(out)@ + quoted(key@) + seq![COLON, SPACE]);
}

fn write_total_size(out: &mut Vec<u8>, total_size: u64)
    ensures
        final(out)@ == old(out)@ + member_text(key_total_size(), decimal(total_size as nat)),
{
    let key: [u8; 10] = [0x74, 0x6f, 0x74, 0x61, 0x6c, 0x5f, 0x73, 0x69, 0x7a, 0x65];
    assert(key@ =~= key_total_size());
    write_member_name(out, key.as_slice());
    write_decimal(out, total_size);
    assert(final(out)@ =~= old(out)@ + member_text(key_total_size(), decimal(total_size as nat)));
}

/// Appends a list of texts as a list of quoted strings.
pub fn write_string_list(out: &mut Vec<u8>, texts: &Vec<String>)
    ensures
        final(out)@ == old(out)@ + list_text(utf8_each(strings_view(texts@))),
{
    let mut items: Vec<Vec<u8>> = Vec::new();
    let mut i: usize = 0;
    while i < texts.len()
        invariant
            i <= texts.len(),
            items.len() == i,
            forall|k: int| 0 <= k < i ==> (#[trigger] items@[k])@ == utf8(texts@[k]@),
        decreases texts.len() - i,
    {
        items.push(texts[i].as_str().as_bytes_vec());
        i += 1;
    }
    assert(views(items@) =~= utf8_each(strings_view(texts@)));
    write_list(out, &items);
}

fn write_chunks(out: &mut Vec<u8>, chunks: &Vec<String>)
    ensures
        final(out)@ == old(out)@ + member_text(
            key_chunks(),
            list_text(utf8_each(strings_view(chunks@))),
        ),
{
    let key: [u8; 6] = [0x63, 0x68, 0x75, 0x6e, 0x6b, 0x73];
    assert(key@ =~= key_chunks());
    write_member_name(out, key.as_slice());
    write_string_list(out, chunks);
    assert(final(out)@ =~= old(out)@ + member_text(
        key_chunks(),
        list_text(utf8_each(strings_view(chunks@))),
    ));
}

fn write_filename(out: &mut Vec<u8>, filename: &Option<String>)
    ensures
        final(out)@ == old(out)@ + member_text(
            key_filename(),
            name_text(
                match *filename {
                    Some(name) => Some(name@),
                    None => None,
                },
            ),
        ),
{
    let key: [u8; 8] = [0x66, 0x69, 0x6c, 0x65, 0x6e, 0x61, 0x6d, 0x65];
    assert(key@ =~= key_filename());
    write_member_name(out, key.as_slice());
    let ghost head = out@;
    match filename {
        Some(name) => {
            write_quoted(out, name.as_str().as_bytes());
        },
        None => {
            out.push(0x6e);
            out.push(0x75);
            out.push(0x6c);
            out.push(0x6c);
            assert(out@ =~= head + word_null());
        },
    }
    assert(final(out)@ =~= old(out)@ + member_text(
        key_filename(),
        name_text(
            match *filename {
                Some(name) => Some(name@),
                None => None,
            },
        ),
    ));
}

impl FileManifest {
    fn write_from_filename(&self, out: &mut Vec<u8>)
        ensures
            final(out)@ == old(out)@ + text_from_filename(self@),
    {
        write_filename(out, &self.filename);
        out.push(NEWLINE);
        out.push(CLOSE_BRACE);
        assert(final(out)@ =~= old(out)@ + text_from_filename(self@));
    }

    fn write_from_chunks(&self, out: &mut Vec<u8>)
        ensures
            final(out)@ == old(out)@ + text_from_chunks(self@),
    {
        write_chunks(out, &self.chunks);
        out.push(COMMA);
        write_break(out, false);
        let ghost head = out@;
        assert(head =~= old(out)@ + (member_text(key_chunks(), list_text(utf8_each(self@.chunks)))
            + seq![COMMA] + break_one()));
        self.write_from_filename(out);
        assert(final(out)@ =~= old(out)@ + text_from_chunks(self@));
    }

    fn write_from_total_size(&self, out: &mut Vec<u8>)
        ensures
            final(out)@ == old(out)@ + text_from_total_size(self@),
    {
        write_total_size(out, self.total_size);
        out.push(COMMA);
        write_break(out, false);
        let ghost head = out@;
        assert(head =~= old(out)@ + (member_text(
            key_total_size(),
            decimal(self.total_size as nat),
        ) + seq![COMMA] + break_one()));
        self.write_from_chunks(out);
        assert(final(out)@ =~= old(out)@ + text_from_total_size(self@));
    }

    /// Writes the manifest as the text under which it is stored.
    pub fn to_bytes(&self) -> (out: Vec<u8>)
        ensures
            out@ == manifest_text(self@),
    {
        let mut out: Vec<u8> = Vec::new();
        out.push(OPEN_BRACE);
        write_break(&mut out, false);
        let ghost head = out@;
        assert(head =~= seq![OPEN_BRACE] + break_one());
        self.write_from_total_size(&mut out);
        out
    }
}

/// Reading a written member gives what reading its value gives, where the
/// value begins with a byte that is not blank.
proof fn lemma_read_member(key: Seq<u8>, value: Seq<u8>, after: Seq<u8>, f: Fields, g: Fields)
    requires
        value.len() >= 1,
        !crate::scan::is_gap(value[0]),
        member_value(key, value + after, f) == Some((g, value.len() as int)),
    ensures
        member(member_text(key, value) + after, f) == Some(
            (g, member_text(key, value).len() + gap_len(after)),
        ),
{
    let s = member_text(key, value) + after;
    let q = quoted(key);
    let n = q.len() as int;
    let tail = seq![COLON, SPACE] + value + after;
    assert(s =~= q + tail);
    lemma_read_quoted(key, tail);
    assert(s.skip(n) =~= tail);
    lemma_gap_len_exact(tail, 0);
    assert(s[n] == tail[0]);
    let inner = seq![SPACE] + value + after;
    assert(s.skip(n + 1) =~= inner);
    assert(inner[1] == value[0]);
    lemma_gap_len_exact(inner, 1);
    assert(s.skip(n + 2) =~= value + after);
    assert(s.skip(n + 2 + value.len()) =~= after);
}

/// The text after a member that another member follows leads on to that
/// member.
proof fn lemma_read_on(s: Seq<u8>, first: Seq<u8>, next: Seq<u8>, f: Fields, g: Fields)
    requires
        s == first + seq![COMMA] + break_one() + next,
        member(s, f) == Some((g, first.len() as int)),
        next.len() >= 1,
        next[0] == QUOTE,
    ensures
        members(s, f) == later(first.len() as int + 4, members(next, g)),
{
    let e = first.len() as int;
    assert(s[e] == COMMA);
    let inner = break_one() + next;
    assert(s.skip(e + 1) =~= inner);
    assert(inner[3] == next[0]);
    lemma_gap_len_exact(inner, 3);
    assert(s.skip(e + 4) =~= next);
}

/// The names of the three members differ.
proof fn lemma_keys_differ()
    ensures
        key_total_size() != key_chunks(),
        key_total_size() != key_filename(),
        key_chunks() != key_filename(),
{
    assert(key_total_size().len() == 10);
    assert(key_chunks().len() == 6);
    assert(key_filename().len() == 8);
}

/// What the fields hold once the file name has been read.
pub open spec fn with_filename(f: Fields, name: Option<Seq<char>>) -> Fields {
    Fields {
        filename: Some(
            match name {
                Some(n) => Some(utf8(n)),
                None => None,
            },
        ),
        ..f
    }
}

/// What the fields hold once the chunks have been read.
pub open spec fn with_chunks(f: Fields, chunks: Seq<Seq<char>>) -> Fields {
    Fields { chunks: Some(utf8_each(chunks)), ..f }
}

proof fn lemma_read_from_filename(m: ManifestView, f: Fields)
    requires
        f.filename is None,
    ensures
        members(text_from_filename(m), f) == Some(
            (with_filename(f, m.filename), text_from_filename(m).len() as int),
        ),
        text_from_filename(m).len() >= 1,
        text_from_filename(m)[0] == QUOTE,
{
    lemma_keys_differ();
    let g = with_filename(f, m.filename);
    let close = seq![NEWLINE, CLOSE_BRACE];
    let t = text_from_filename(m);
    let v = name_text(m.filename);
    let mt = member_text(key_filename(), v);
    assert(t =~= mt + close);
    match m.filename {
        Some(n) => {
            lemma_read_quoted(utf8(n), close);
            assert((v + close)[0] == QUOTE);
            assert(!crate::text::is_prefix(word_null(), v + close)) by {
                if crate::text::is_prefix(word_null(), v + close) {
                    assert((v + close).subrange(0, 4)[0] == word_null()[0]);
                }
            }
        },
        None => {
            assert((v + close).subrange(0, 4) =~= word_null());
        },
    }
    assert(member_value(key_filename(), v + close, f) == Some((g, v.len() as int)));
    lemma_read_member(key_filename(), v, close, f, g);
    lemma_gap_len_exact(close, 1);
    assert(t[mt.len() as int + 1] == CLOSE_BRACE);
    assert(t[0] == QUOTE);
}

proof fn lemma_read_from_chunks(m: ManifestView, f: Fields)
    requires
        f.filename is None,
        f.chunks is None,
    ensures
        members(text_from_chunks(m), f) == Some(
            (
                with_filename(with_chunks(f, m.chunks), m.filename),
                text_from_chunks(m).len() as int,
            ),
        ),
        text_from_chunks(m).len() >= 1,
        text_from_chunks(m)[0] == QUOTE,
{
    lemma_keys_differ();
    let g = with_chunks(f, m.chunks);
    let items = utf8_each(m.chunks);
    let sep = seq![COMMA] + break_one();
    let next = text_from_filename(m);
    let t = text_from_chunks(m);
    let v = list_text(items);
    let mt = member_text(key_chunks(), v);
    let after = sep + next;
    assert(t =~= mt + after);
    lemma_read_list(items, after);
    assert(member_value(key_chunks(), v + after, f) == Some((g, v.len() as int)));
    lemma_read_member(key_chunks(), v, after, f, g);
    lemma_gap_len_exact(after, 0);
    assert(t =~= mt + seq![COMMA] + break_one() + next);
    lemma_read_from_filename(m, g);
    lemma_read_on(t, mt, next, f, g);
    assert(t[0] == QUOTE);
}

proof fn lemma_read_from_total_size(m: ManifestView)
    ensures
        members(text_from_total_size(m), no_fields()) == Some(
            (
                with_filename(
                    with_chunks(Fields { total_size: Some(m.total_size), ..no_fields() }, m.chunks),
                    m.filename,
                ),
                text_from_total_size(m).len() as int,
            ),
        ),
        text_from_total_size(m).len() >= 1,
        text_from_total_size(m)[0] == QUOTE,
{
    lemma_keys_differ();
    let f = no_fields();
    let g = Fields { total_size: Some(m.total_size), ..f };
    let sep = seq![COMMA] + break_one();
    let next = text_from_chunks(m);
    let t = text_from_total_size(m);
    let v = decimal(m.total_size as nat);
    let mt = member_text(key_total_size(), v);
    let after = sep + next;
    assert(t =~= mt + after);
    lemma_decimal_digits(m.total_size as nat);
    lemma_read_decimal(m.total_size, after);
    assert(member_value(key_total_size(), v + after, f) == Some((g, v.len() as int)));
    lemma_read_member(key_total_size(), v, after, f, g);
    lemma_gap_len_exact(after, 0);
    assert(t =~= mt + seq![COMMA] + break_one() + next);
    lemma_read_from_chunks(m, g);
    lemma_read_on(t, mt, next, f, g);
    assert(t[0] == QUOTE);
}

/// Reading the text of a manifest gives the manifest back, and the text
/// begins with `{`.
pub proof fn lemma_manifest_round_trip(m: ManifestView)
    ensures
        parsed_manifest(manifest_text(m)) == Some(m),
        is_manifest_text(manifest_text(m)),
        manifest_text(m).len() >= 1,
        manifest_text(m)[0] == OPEN_BRACE,
{
    let items = utf8_each(m.chunks);
    let t1 = text_from_total_size(m);
    lemma_read_from_total_size(m);
    let s = manifest_text(m);
    lemma_gap_len_exact(s, 0);
    let inner = break_one() + t1;
    assert(s.skip(1) =~= inner);
    assert(inner[3] == t1[0]);
    lemma_gap_len_exact(inner, 3);
    assert(s[4] == t1[0]);
    assert(s.skip(4) =~= t1);
    assert(s.skip(s.len() as int) =~= Seq::<u8>::empty());
    assert(manifest_fields(s) is Some);
    let f = manifest_fields(s)->0;
    assert(f.chunks == Some(items));

    assert forall|i: int| 0 <= i < items.len() implies vstd::utf8::valid_utf8(
        #[trigger] items[i],
    ) by {
        vstd::utf8::encode_utf8_valid_utf8(m.chunks[i]);
    }
    assert(texts_of(items)->0 =~= m.chunks) by {
        assert forall|i: int| 0 <= i < items.len() implies vstd::utf8::decode_utf8(items[i])
            == m.chunks[i] by {
            vstd::utf8::encode_utf8_decode_utf8(m.chunks[i]);
        }
    }
    match m.filename {
        Some(n) => {
            vstd::utf8::encode_utf8_valid_utf8(n);
            vstd::utf8::encode_utf8_decode_utf8(n);
        },
        None => {},
    }
    crate::text::lemma_blank_len_none(s);
}

} // verus!
