//! Reading and writing the pieces of a manifest text: blank space, quoted
//! strings, unsigned numbers and lists of strings.
//!
//! Every reader is a function of the bytes still ahead. It answers with the
//! value read and the number of bytes used up, or with `None` where the bytes
//! do not begin with such a piece.

use vstd::prelude::*;

verus! {

/// The double quote.
pub const QUOTE: u8 = 0x22;

/// The backslash.
pub const BACKSLASH: u8 = 0x5c;

/// The comma.
pub const COMMA: u8 = 0x2c;

/// The colon.
pub const COLON: u8 = 0x3a;

/// The opening brace.
pub const OPEN_BRACE: u8 = 0x7b;

/// The closing brace.
pub const CLOSE_BRACE: u8 = 0x7d;

/// The opening square bracket.
pub const OPEN_BRACKET: u8 = 0x5b;

/// The closing square bracket.
pub const CLOSE_BRACKET: u8 = 0x5d;

/// The space.
pub const SPACE: u8 = 0x20;

/// The line feed.
pub const NEWLINE: u8 = 0x0a;

/// Blank space between the pieces of a text: space, tab, line feed and
/// carriage return.
pub open spec fn is_gap(b: u8) -> bool {
    b == 0x20 || b == 0x09 || b == 0x0a || b == 0x0d
}

/// How many blank bytes a text begins with.
pub open spec fn gap_len(s: Seq<u8>) -> int
    decreases s.len(),
{
    if s.len() > 0 && is_gap(s[0]) {
        1 + gap_len(s.skip(1))
    } else {
        0
    }
}

/// A gap is no longer than its text, and the byte behind it is not blank.
pub proof fn lemma_gap_len_bounds(s: Seq<u8>)
    ensures
        0 <= gap_len(s) <= s.len(),
        gap_len(s) < s.len() ==> !is_gap(s[gap_len(s)]),
    decreases s.len(),
{
    if s.len() > 0 && is_gap(s[0]) {
        lemma_gap_len_bounds(s.skip(1));
    }
}

/// A text that begins with a byte that is not blank has no gap in front.
pub proof fn lemma_gap_len_none(s: Seq<u8>)
    requires
        s.len() == 0 || !is_gap(s[0]),
    ensures
        gap_len(s) == 0,
{
}

/// A text that begins with `n` blank bytes and then ends or goes on with
/// another byte has a gap of exactly `n` in front.
pub proof fn lemma_gap_len_exact(s: Seq<u8>, n: int)
    requires
        0 <= n <= s.len(),
        forall|i: int| 0 <= i < n ==> is_gap(#[trigger] s[i]),
        n < s.len() ==> !is_gap(s[n]),
    ensures
        gap_len(s) == n,
    decreases n,
{
    if n > 0 {
        assert(is_gap(s[0]));
        assert forall|i: int| 0 <= i < n - 1 implies is_gap(#[trigger] s.skip(1)[i]) by {
            assert(s.skip(1)[i] == s[i + 1]);
        }
        lemma_gap_len_exact(s.skip(1), n - 1);
    }
}

/// The index of the first byte at or after `i` that is not blank.
pub fn skip_gap(s: &[u8], i: usize) -> (j: usize)
    requires
        i <= s.len(),
    ensures
        j == i + gap_len(s@.skip(i as int)),
        i <= j <= s.len(),
        j < s.len() ==> !is_gap(s@[j as int]),
{
    let mut j: usize = i;
    while j < s.len() && (s[j] == 0x20 || s[j] == 0x09 || s[j] == 0x0a || s[j] == 0x0d)
        invariant
            i <= j <= s.len(),
            gap_len(s@.skip(i as int)) == (j - i) + gap_len(s@.skip(j as int)),
        decreases s.len() - j,
    {
        assert(s@.skip(j as int).skip(1) =~= s@.skip(j + 1));
        j += 1;
    }
    proof {
        lemma_gap_len_none(s@.skip(j as int));
    }
    j
}

/// The byte that a one-letter escape stands for.
pub open spec fn short_escape(c: u8) -> Option<u8> {
    if c == 0x22 {
        Some(0x22u8)
    } else if c == 0x5c {
        Some(0x5cu8)
    } else if c == 0x2f {
        Some(0x2fu8)
    } else if c == 0x62 {
        Some(0x08u8)
    } else if c == 0x66 {
        Some(0x0cu8)
    } else if c == 0x6e {
        Some(0x0au8)
    } else if c == 0x72 {
        Some(0x0du8)
    } else if c == 0x74 {
        Some(0x09u8)
    } else {
        None
    }
}

/// The value of a hexadecimal digit, upper or lower case.
pub open spec fn hex_value(c: u8) -> Option<u8> {
    if 0x30 <= c <= 0x39 {
        Some((c - 0x30) as u8)
    } else if 0x61 <= c <= 0x66 {
        Some((c - 0x61 + 10) as u8)
    } else if 0x41 <= c <= 0x46 {
        Some((c - 0x41 + 10) as u8)
    } else {
        None
    }
}

/// The value of four hexadecimal digits.
pub open spec fn hex4(s: Seq<u8>) -> Option<int> {
    if s.len() >= 4 {
        match (hex_value(s[0]), hex_value(s[1]), hex_value(s[2]), hex_value(s[3])) {
            (Some(a), Some(b), Some(c), Some(d)) => Some(a * 4096 + b * 256 + c * 16 + d),
            _ => None,
        }
    } else {
        None
    }
}

/// The UTF-8 bytes of a code point.
pub open spec fn utf8_of(cp: int) -> Seq<u8> {
    if cp < 0x80 {
        seq![cp as u8]
    } else if cp < 0x800 {
        seq![(0xc0 + cp / 64) as u8, (0x80 + cp % 64) as u8]
    } else if cp < 0x10000 {
        seq![(0xe0 + cp / 4096) as u8, (0x80 + (cp / 64) % 64) as u8, (0x80 + cp % 64) as u8]
    } else {
        seq![
            (0xf0 + cp / 262144) as u8,
            (0x80 + (cp / 4096) % 64) as u8,
            (0x80 + (cp / 64) % 64) as u8,
            (0x80 + cp % 64) as u8,
        ]
    }
}

/// The bytes of a code point are its UTF-8 form: those of the character
/// with that code point.
pub proof fn lemma_utf8_of_char(c: char)
    ensures
        utf8_of(c as int) == vstd::utf8::encode_utf8(seq![c]),
{
    let v = c as u32;
    vstd::utf8::char_is_scalar(c);
    assert(vstd::utf8::encode_utf8(seq![c].drop_first()) =~= Seq::<u8>::empty());
    assert(vstd::utf8::encode_utf8(seq![c]) =~= vstd::utf8::encode_scalar(v));
    if v < 0x80 {
        assert((v & 0x7f) as u8 == v as u8) by (bit_vector)
            requires
                v < 0x80,
        ;
    } else if v < 0x800 {
        assert(0xc0u8 | ((v >> 6) & 0x1f) as u8 == (0xc0 + v / 64) as u8) by (bit_vector)
            requires
                0x80 <= v < 0x800,
        ;
        assert(0x80u8 | (v & 0x3f) as u8 == (0x80 + v % 64) as u8) by (bit_vector);
    } else if v < 0x10000 {
        assert(0xe0u8 | ((v >> 12) & 0x0f) as u8 == (0xe0 + v / 4096) as u8) by (bit_vector)
            requires
                0x800 <= v < 0x10000,
        ;
        assert(0x80u8 | ((v >> 6) & 0x3f) as u8 == (0x80 + (v / 64) % 64) as u8) by (bit_vector);
        assert(0x80u8 | (v & 0x3f) as u8 == (0x80 + v % 64) as u8) by (bit_vector);
    } else {
        assert(0xf0u8 | ((v >> 18) & 0x7) as u8 == (0xf0 + v / 262144) as u8) by (bit_vector)
            requires
                0x10000 <= v <= 0x10ffff,
        ;
        assert(0x80u8 | ((v >> 12) & 0x3f) as u8 == (0x80 + (v / 4096) % 64) as u8) by (bit_vector);
        assert(0x80u8 | ((v >> 6) & 0x3f) as u8 == (0x80 + (v / 64) % 64) as u8) by (bit_vector);
        assert(0x80u8 | (v & 0x3f) as u8 == (0x80 + v % 64) as u8) by (bit_vector);
    }
    assert(utf8_of(c as int) =~= vstd::utf8::encode_scalar(v));
}

/// What an escape `\uXXXX` stands for, read from behind its `u`: the UTF-8
/// bytes of the code point, and the number of bytes of the escape from its
/// backslash on. A code point above `FFFF` is written as two escapes, a
/// high and a low surrogate; a surrogate that stands alone is nothing.
#[verifier::opaque]
pub open spec fn long_escape(s: Seq<u8>) -> Option<(Seq<u8>, int)> {
    match hex4(s) {
        None => None,
        Some(unit) => if unit < 0xd800 || unit > 0xdfff {
            Some((utf8_of(unit), 6))
        } else if unit <= 0xdbff && s.len() >= 10 && s[4] == BACKSLASH && s[5] == 0x75 {
            match hex4(s.skip(6)) {
                Some(low) => if 0xdc00 <= low <= 0xdfff {
                    Some((utf8_of(0x10000 + (unit - 0xd800) * 1024 + (low - 0xdc00)), 12))
                } else {
                    None
                },
                None => None,
            }
        } else {
            None
        },
    }
}

/// An escape stands for one to four bytes and is six or twelve bytes long.
pub proof fn lemma_long_escape_bounds(s: Seq<u8>)
    ensures
        long_escape(s) matches Some((bytes, k)) ==> 1 <= bytes.len() <= 4 && (k == 6 || k == 12) && k
            <= s.len() + 2,
{
    reveal(long_escape);
}

/// Puts the bytes `front` in front of what the rest of a string gave, and
/// counts the `k` bytes that stood for them.
pub open spec fn with_front(front: Seq<u8>, k: int, rest: Option<(Seq<u8>, int)>) -> Option<
    (Seq<u8>, int),
> {
    match rest {
        Some((v, n)) => Some((front + v, n + k)),
        None => None,
    }
}

/// Puts `b` in front of what the rest of a string gave, and counts the `k`
/// bytes that stood for it.
pub open spec fn with_first(b: u8, k: int, rest: Option<(Seq<u8>, int)>) -> Option<(Seq<u8>, int)> {
    match rest {
        Some((v, n)) => Some((seq![b] + v, n + k)),
        None => None,
    }
}

/// Reads the inside of a quoted string up to and including the closing quote.
///
/// A backslash begins an escape: one of `\" \\ \/ \b \f \n \r \t`, or
/// `\uXXXX` for the UTF-8 bytes of a code point. A byte below 32 may not
/// stand unescaped. Every other byte stands for itself.
#[verifier::opaque]
pub open spec fn string_body(s: Seq<u8>) -> Option<(Seq<u8>, int)>
    decreases s.len(),
{
    if s.len() == 0 {
        None
    } else if s[0] == QUOTE {
        Some((Seq::<u8>::empty(), 1))
    } else if s[0] == BACKSLASH {
        if s.len() < 2 {
            None
        } else if short_escape(s[1]) is Some {
            with_first(short_escape(s[1])->0, 2, string_body(s.skip(2)))
        } else if s[1] == 0x75 && long_escape(s.skip(2)) is Some {
            let escape = long_escape(s.skip(2))->0;
            proof {
                lemma_long_escape_bounds(s.skip(2));
            }
            with_front(escape.0, escape.1, string_body(s.skip(escape.1)))
        } else {
            None
        }
    } else if s[0] < 0x20 {
        None
    } else {
        with_first(s[0], 1, string_body(s.skip(1)))
    }
}

/// Reads a quoted string: the bytes it stands for and the bytes used up.
pub open spec fn quoted_string(s: Seq<u8>) -> Option<(Seq<u8>, int)> {
    if s.len() > 0 && s[0] == QUOTE {
        match string_body(s.skip(1)) {
            Some((v, n)) => Some((v, n + 1)),
            None => None,
        }
    } else {
        None
    }
}

/// The inside of a string has at least its closing quote, and no more bytes
/// than there are.
pub proof fn lemma_string_body_bounds(s: Seq<u8>)
    ensures
        string_body(s) matches Some((v, n)) ==> 1 <= n <= s.len(),
    decreases s.len(),
{
    reveal(string_body);
    if s.len() == 0 || s[0] == QUOTE {
    } else if s[0] == BACKSLASH {
        if s.len() >= 2 {
            if short_escape(s[1]) is Some {
                lemma_string_body_bounds(s.skip(2));
            } else if s[1] == 0x75 && long_escape(s.skip(2)) is Some {
                lemma_long_escape_bounds(s.skip(2));
                let escape = long_escape(s.skip(2))->0;
                lemma_string_body_bounds(s.skip(escape.1));
            }
        }
    } else if s[0] >= 0x20 {
        lemma_string_body_bounds(s.skip(1));
    }
}

/// A quoted string has at least its two quotes, and no more bytes than
/// there are.
pub proof fn lemma_quoted_string_bounds(s: Seq<u8>)
    ensures
        quoted_string(s) matches Some((v, n)) ==> 2 <= n <= s.len(),
{
    if s.len() > 0 {
        lemma_string_body_bounds(s.skip(1));
    }
}

fn hex_digit_value(c: u8) -> (r: Option<u8>)
    ensures
        r == hex_value(c),
{
    if 0x30 <= c && c <= 0x39 {
        Some(c - 0x30)
    } else if 0x61 <= c && c <= 0x66 {
        Some(c - 0x61 + 10)
    } else if 0x41 <= c && c <= 0x46 {
        Some(c - 0x41 + 10)
    } else {
        None
    }
}

fn short_escape_of(c: u8) -> (r: Option<u8>)
    ensures
        r == short_escape(c),
{
    if c == 0x22 {
        Some(0x22)
    } else if c == 0x5c {
        Some(0x5c)
    } else if c == 0x2f {
        Some(0x2f)
    } else if c == 0x62 {
        Some(0x08)
    } else if c == 0x66 {
        Some(0x0c)
    } else if c == 0x6e {
        Some(0x0a)
    } else if c == 0x72 {
        Some(0x0d)
    } else if c == 0x74 {
        Some(0x09)
    } else {
        None
    }
}

fn hex4_at(s: &[u8], i: usize) -> (r: Option<u32>)
    requires
        i <= s.len(),
    ensures
        match hex4(s@.skip(i as int)) {
            Some(v) => r == Some(v as u32) && 0 <= v < 0x10000,
            None => r is None,
        },
{
    if s.len() - i < 4 {
        return None;
    }
    let ghost here = s@.skip(i as int);
    assert(here[0] == s@[i as int] && here[1] == s@[i + 1] && here[2] == s@[i + 2] && here[3]
        == s@[i + 3]);
    match (
        hex_digit_value(s[i]),
        hex_digit_value(s[i + 1]),
        hex_digit_value(s[i + 2]),
        hex_digit_value(s[i + 3]),
    ) {
        (Some(a), Some(b), Some(c), Some(d)) => {
            let v: u32 = a as u32 * 4096 + b as u32 * 256 + c as u32 * 16 + d as u32;
            Some(v)
        },
        _ => None,
    }
}

fn utf8_bytes(cp: u32) -> (bytes: Vec<u8>)
    requires
        cp < 0x110000,
    ensures
        bytes@ == utf8_of(cp as int),
{
    let mut bytes: Vec<u8> = Vec::new();
    if cp < 0x80 {
        bytes.push(cp as u8);
    } else if cp < 0x800 {
        bytes.push((0xc0 + cp / 64) as u8);
        bytes.push((0x80 + cp % 64) as u8);
    } else if cp < 0x10000 {
        bytes.push((0xe0 + cp / 4096) as u8);
        bytes.push((0x80 + (cp / 64) % 64) as u8);
        bytes.push((0x80 + cp % 64) as u8);
    } else {
        bytes.push((0xf0 + cp / 262144) as u8);
        bytes.push((0x80 + (cp / 4096) % 64) as u8);
        bytes.push((0x80 + (cp / 64) % 64) as u8);
        bytes.push((0x80 + cp % 64) as u8);
    }
    assert(bytes@ =~= utf8_of(cp as int));
    bytes
}

fn long_escape_at(s: &[u8], i: usize) -> (r: Option<(Vec<u8>, usize)>)
    requires
        i <= s.len(),
    ensures
        match long_escape(s@.skip(i as int)) {
            Some((bytes, k)) => r matches Some((got, used)) && got@ == bytes && used == k && i + k
                <= s.len() + 2,
            None => r is None,
        },
{
    let ghost here = s@.skip(i as int);
    proof {
        reveal(long_escape);
    }
    let unit = match hex4_at(s, i) {
        Some(unit) => unit,
        None => {
            return None;
        },
    };
    if unit < 0xd800 || unit > 0xdfff {
        return Some((utf8_bytes(unit), 6));
    }
    if unit > 0xdbff || s.len() - i < 10 {
        return None;
    }
    assert(here[4] == s@[i + 4] && here[5] == s@[i + 5]);
    if s[i + 4] != BACKSLASH || s[i + 5] != 0x75 {
        return None;
    }
    assert(here.skip(6) =~= s@.skip(i + 6));
    match hex4_at(s, i + 6) {
        Some(low) => {
            if 0xdc00 <= low && low <= 0xdfff {
                Some((utf8_bytes(0x10000 + (unit - 0xd800) * 1024 + (low - 0xdc00)), 12))
            } else {
                None
            }
        },
        None => None,
    }
}

/// What `string_body` gives from `i` on, seen from the whole read: the bytes
/// `acc` already read go in front, and the count starts `k` bytes earlier.
pub open spec fn resumed(acc: Seq<u8>, k: int, rest: Option<(Seq<u8>, int)>) -> Option<(Seq<u8>, int)> {
    match rest {
        Some((v, n)) => Some((acc + v, n + k)),
        None => None,
    }
}

proof fn lemma_resumed_step(acc: Seq<u8>, b: u8, k: int, step: int, rest: Option<(Seq<u8>, int)>)
    ensures
        resumed(acc, k, with_first(b, step, rest)) == resumed(acc.push(b), k + step, rest),
{
    match rest {
        Some((v, n)) => {
            assert(acc + (seq![b] + v) =~= acc.push(b) + v);
        },
        None => {},
    }
}

proof fn lemma_resumed_front(
    acc: Seq<u8>,
    front: Seq<u8>,
    k: int,
    step: int,
    rest: Option<(Seq<u8>, int)>,
)
    ensures
        resumed(acc, k, with_front(front, step, rest)) == resumed(acc + front, k + step, rest),
{
    match rest {
        Some((v, n)) => {
            assert(acc + (front + v) =~= (acc + front) + v);
        },
        None => {},
    }
}

/// Reads the quoted string that begins at `s[i]`: the bytes it stands for and
/// the index after its closing quote.
pub fn read_quoted(s: &[u8], i: usize) -> (r: Option<(Vec<u8>, usize)>)
    requires
        i <= s.len(),
    ensures
        match quoted_string(s@.skip(i as int)) {
            Some((v, n)) => r matches Some((bytes, j)) && bytes@ == v && j == i + n && j <= s.len(),
            None => r is None,
        },
{
    if i >= s.len() || s[i] != QUOTE {
        return None;
    }
    let mut out: Vec<u8> = Vec::new();
    let mut j: usize = i + 1;
    proof {
        reveal(string_body);
        assert(s@.skip(i as int).skip(1) =~= s@.skip(i + 1));
        match string_body(s@.skip(i + 1)) {
            Some((v, n)) => {
                assert(out@ + v =~= v);
            },
            None => {},
        }
    }
    loop
        invariant
            i + 1 <= j <= s.len(),
            quoted_string(s@.skip(i as int)) == resumed(
                out@,
                j - i,
                string_body(s@.skip(j as int)),
            ),
        decreases s.len() - j,
    {
        let ghost here = s@.skip(j as int);
        proof {
            reveal(string_body);
        }
        if j >= s.len() {
            return None;
        }
        let c = s[j];
        assert(here[0] == c);
        if c == QUOTE {
            assert(out@ + Seq::<u8>::empty() =~= out@);
            return Some((out, j + 1));
        } else if c == BACKSLASH {
            if j + 1 >= s.len() {
                return None;
            }
            let e = s[j + 1];
            assert(here[1] == e);
            match short_escape_of(e) {
                Some(b) => {
                    assert(here.skip(2) =~= s@.skip(j + 2));
                    let ghost before = out@;
                    out.push(b);
                    proof {
                        lemma_resumed_step(before, b, j - i, 2, string_body(s@.skip(j + 2)));
                    }
                    j += 2;
                },
                None => {
                    if e != 0x75 {
                        return None;
                    }
                    assert(here.skip(2) =~= s@.skip(j + 2));
                    proof {
                        lemma_long_escape_bounds(here.skip(2));
                    }
                    match long_escape_at(s, j + 2) {
                        Some((bytes, used)) => {
                            assert(here.skip(used as int) =~= s@.skip(j + used));
                            let ghost before = out@;
                            let ghost front = bytes@;
                            let mut bytes = bytes;
                            out.append(&mut bytes);
                            proof {
                                lemma_resumed_front(
                                    before,
                                    front,
                                    j - i,
                                    used as int,
                                    string_body(s@.skip(j + used)),
                                );
                            }
                            j += used;
                        },
                        None => {
                            return None;
                        },
                    }
                },
            }
        } else if c < 0x20 {
            return None;
        } else {
            assert(here.skip(1) =~= s@.skip(j + 1));
            let ghost before = out@;
            out.push(c);
            proof {
                lemma_resumed_step(before, c, j - i, 1, string_body(s@.skip(j + 1)));
            }
            j += 1;
        }
    }
}

/// How a byte is written inside a quoted string: a quote and a backslash
/// behind a backslash, the five usual control bytes as a letter, any other
/// byte below 32 as `\u00XY` in lowercase digits, and every other byte as it
/// is.
pub open spec fn escape_byte(b: u8) -> Seq<u8> {
    if b == 0x22 {
        seq![BACKSLASH, 0x22u8]
    } else if b == 0x5c {
        seq![BACKSLASH, 0x5cu8]
    } else if b == 0x08 {
        seq![BACKSLASH, 0x62u8]
    } else if b == 0x0c {
        seq![BACKSLASH, 0x66u8]
    } else if b == 0x0a {
        seq![BACKSLASH, 0x6eu8]
    } else if b == 0x0d {
        seq![BACKSLASH, 0x72u8]
    } else if b == 0x09 {
        seq![BACKSLASH, 0x74u8]
    } else if b < 0x20 {
        seq![BACKSLASH, 0x75u8, 0x30u8, 0x30u8, lower_hex(b / 16), lower_hex(b % 16)]
    } else {
        seq![b]
    }
}

/// The lowercase hexadecimal digit of a value below 16, as a byte.
pub open spec fn lower_hex(n: u8) -> u8 {
    if n < 10 {
        (0x30 + n) as u8
    } else {
        (0x57 + n) as u8
    }
}

/// The bytes of a string as they stand between the quotes.
pub open spec fn escape(bytes: Seq<u8>) -> Seq<u8>
    decreases bytes.len(),
{
    if bytes.len() == 0 {
        Seq::<u8>::empty()
    } else {
        escape_byte(bytes[0]) + escape(bytes.skip(1))
    }
}

/// A string written out: a quote, its escaped bytes, a quote.
pub open spec fn quoted(bytes: Seq<u8>) -> Seq<u8> {
    seq![QUOTE] + escape(bytes) + seq![QUOTE]
}

/// The escaped form of bytes with one more byte is their escaped form with
/// that of the byte behind it.
pub proof fn lemma_escape_push(bytes: Seq<u8>, b: u8)
    ensures
        escape(bytes.push(b)) == escape(bytes) + escape_byte(b),
    decreases bytes.len(),
{
    if bytes.len() == 0 {
        assert(bytes.push(b).skip(1) =~= Seq::<u8>::empty());
        assert(bytes.push(b)[0] == b);
        assert(escape(bytes.push(b).skip(1)) =~= Seq::<u8>::empty());
        assert(escape(bytes) =~= Seq::<u8>::empty());
        assert(escape(bytes.push(b)) =~= escape(bytes) + escape_byte(b));
    } else {
        assert(bytes.push(b).skip(1) =~= bytes.skip(1).push(b));
        lemma_escape_push(bytes.skip(1), b);
        assert(escape(bytes.push(b)) =~= escape(bytes) + escape_byte(b));
    }
}

/// Reading what `escape` wrote, closed by a quote, gives the bytes back,
/// whatever follows the quote.
pub proof fn lemma_read_escaped(bytes: Seq<u8>, after: Seq<u8>)
    ensures
        string_body(escape(bytes) + seq![QUOTE] + after) == Some(
            (bytes, (escape(bytes).len() + 1) as int),
        ),
    decreases bytes.len(),
{
    reveal(string_body);
    let s = escape(bytes) + seq![QUOTE] + after;
    if bytes.len() == 0 {
        assert(s[0] == QUOTE);
        assert(string_body(s).unwrap().0 =~= bytes);
    } else {
        let b = bytes[0];
        let rest = bytes.skip(1);
        let tail = escape(rest) + seq![QUOTE] + after;
        lemma_read_escaped(rest, after);
        let e = escape_byte(b);
        assert(s =~= e + tail);
        assert(s.skip(e.len() as int) =~= tail);
        assert(seq![b] + rest =~= bytes);
        if b == 0x22 || b == 0x5c || b == 0x08 || b == 0x0c || b == 0x0a || b == 0x0d || b
            == 0x09 {
            assert(s[0] == BACKSLASH);
            assert(s[1] == e[1]);
            assert(short_escape(s[1]) == Some(b));
        } else if b < 0x20 {
            assert(s[0] == BACKSLASH);
            assert(s[1] == 0x75);
            let digits = s.skip(2);
            assert(digits[0] == 0x30 && digits[1] == 0x30 && digits[2] == lower_hex(b / 16)
                && digits[3] == lower_hex(b % 16));
            assert(hex_value(lower_hex(b / 16)) == Some((b / 16) as u8));
            assert(hex_value(lower_hex(b % 16)) == Some((b % 16) as u8));
            assert(hex4(digits) == Some(b as int));
            assert(utf8_of(b as int) =~= seq![b]);
            assert(long_escape(digits) == Some((seq![b], 6int))) by {
                reveal(long_escape);
            }
        } else {
            assert(s[0] == b);
        }
    }
}

/// Reading a written string gives its bytes back, whatever follows it.
pub proof fn lemma_read_quoted(bytes: Seq<u8>, after: Seq<u8>)
    ensures
        quoted_string(quoted(bytes) + after) == Some((bytes, quoted(bytes).len() as int)),
        quoted(bytes).len() == escape(bytes).len() + 2,
{
    let s = quoted(bytes) + after;
    lemma_read_escaped(bytes, after);
    assert(s.skip(1) =~= escape(bytes) + seq![QUOTE] + after);
    assert(s[0] == QUOTE);
}

fn lower_hex_of(n: u8) -> (r: u8)
    requires
        n < 16,
    ensures
        r == lower_hex(n),
{
    if n < 10 {
        0x30 + n
    } else {
        0x57 + n
    }
}

fn write_escaped_byte(out: &mut Vec<u8>, b: u8)
    ensures
        final(out)@ == old(out)@ + escape_byte(b),
{
    if b == 0x22 || b == 0x5c {
        out.push(BACKSLASH);
        out.push(b);
    } else if b == 0x08 {
        out.push(BACKSLASH);
        out.push(0x62);
    } else if b == 0x0c {
        out.push(BACKSLASH);
        out.push(0x66);
    } else if b == 0x0a {
        out.push(BACKSLASH);
        out.push(0x6e);
    } else if b == 0x0d {
        out.push(BACKSLASH);
        out.push(0x72);
    } else if b == 0x09 {
        out.push(BACKSLASH);
        out.push(0x74);
    } else if b < 0x20 {
        out.push(BACKSLASH);
        out.push(0x75);
        out.push(0x30);
        out.push(0x30);
        out.push(lower_hex_of(b / 16));
        out.push(lower_hex_of(b % 16));
    } else {
        out.push(b);
    }
    assert(final(out)@ =~= old(out)@ + escape_byte(b));
}

/// Appends `bytes` as a quoted string.
pub fn write_quoted(out: &mut Vec<u8>, bytes: &[u8])
    ensures
        final(out)@ == old(out)@ + quoted(bytes@),
{
    out.push(QUOTE);
    let mut i: usize = 0;
    assert(bytes@.take(0) =~= Seq::<u8>::empty());
    while i < bytes.len()
        invariant
            i <= bytes.len(),
            out@ == old(out)@ + seq![QUOTE] + escape(bytes@.take(i as int)),
        decreases bytes.len() - i,
    {
        proof {
            lemma_escape_push(bytes@.take(i as int), bytes@[i as int]);
            assert(bytes@.take(i as int).push(bytes@[i as int]) =~= bytes@.take(i + 1));
        }
        write_escaped_byte(out, bytes[i]);
        i += 1;
        assert(out@ =~= old(out)@ + seq![QUOTE] + escape(bytes@.take(i as int)));
    }
    assert(bytes@.take(i as int) =~= bytes@);
    out.push(QUOTE);
    assert(out@ =~= old(out)@ + quoted(bytes@));
}

/// A decimal digit.
pub open spec fn is_digit(b: u8) -> bool {
    0x30 <= b <= 0x39
}

/// How many decimal digits a text begins with.
pub open spec fn digits_len(s: Seq<u8>) -> int
    decreases s.len(),
{
    if s.len() > 0 && is_digit(s[0]) {
        1 + digits_len(s.skip(1))
    } else {
        0
    }
}

/// The number that a run of decimal digits stands for.
pub open spec fn digits_value(d: Seq<u8>) -> nat
    decreases d.len(),
{
    if d.len() == 0 {
        0
    } else {
        (digits_value(d.drop_last()) * 10 + (d.last() - 0x30)) as nat
    }
}

/// Reads an unsigned number: one or more decimal digits, without a leading
/// zero in front of other digits, that stand for a value that fits 64 bits.
pub open spec fn unsigned(s: Seq<u8>) -> Option<(u64, int)> {
    let n = digits_len(s);
    if n == 0 {
        None
    } else if n > 1 && s[0] == 0x30 {
        None
    } else if digits_value(s.take(n)) > u64::MAX {
        None
    } else {
        Some((digits_value(s.take(n)) as u64, n))
    }
}

/// A number written in decimal digits.
pub open spec fn decimal(n: nat) -> Seq<u8>
    decreases n,
{
    if n < 10 {
        seq![(0x30 + n) as u8]
    } else {
        decimal(n / 10).push((0x30 + n % 10) as u8)
    }
}

/// A run of digits is no longer than its text; it holds digits only, and the
/// byte behind it is none.
pub proof fn lemma_digits_len_bounds(s: Seq<u8>)
    ensures
        0 <= digits_len(s) <= s.len(),
        forall|i: int| 0 <= i < digits_len(s) ==> is_digit(#[trigger] s[i]),
        digits_len(s) < s.len() ==> !is_digit(s[digits_len(s)]),
    decreases s.len(),
{
    if s.len() > 0 && is_digit(s[0]) {
        lemma_digits_len_bounds(s.skip(1));
        assert forall|i: int| 0 <= i < digits_len(s) implies is_digit(#[trigger] s[i]) by {
            if i > 0 {
                assert(s[i] == s.skip(1)[i - 1]);
            }
        }
    }
}

/// A text that begins with `n` digits and then ends or goes on with another
/// byte begins with exactly `n` digits.
pub proof fn lemma_digits_len_exact(s: Seq<u8>, n: int)
    requires
        0 <= n <= s.len(),
        forall|i: int| 0 <= i < n ==> is_digit(#[trigger] s[i]),
        n < s.len() ==> !is_digit(s[n]),
    ensures
        digits_len(s) == n,
    decreases n,
{
    if n > 0 {
        assert(is_digit(s[0]));
        assert forall|i: int| 0 <= i < n - 1 implies is_digit(#[trigger] s.skip(1)[i]) by {
            assert(s.skip(1)[i] == s[i + 1]);
        }
        lemma_digits_len_exact(s.skip(1), n - 1);
    }
}

/// The digits at the front of a run stand for no more than the whole run.
pub proof fn lemma_digits_value_grows(d: Seq<u8>, k: int)
    requires
        0 <= k <= d.len(),
        forall|i: int| 0 <= i < d.len() ==> is_digit(#[trigger] d[i]),
    ensures
        digits_value(d.take(k)) <= digits_value(d),
    decreases d.len() - k,
{
    if k < d.len() {
        lemma_digits_value_grows(d, k + 1);
        assert(d.take(k + 1).drop_last() =~= d.take(k));
        assert(d.take(k + 1).last() == d[k]);
    } else {
        assert(d.take(k) =~= d);
    }
}

/// The digits of a written number, and the number they stand for.
pub proof fn lemma_decimal_digits(n: nat)
    ensures
        decimal(n).len() >= 1,
        forall|i: int| 0 <= i < decimal(n).len() ==> is_digit(#[trigger] decimal(n)[i]),
        digits_value(decimal(n)) == n,
        decimal(n).len() > 1 ==> decimal(n)[0] != 0x30,
    decreases n,
{
    if n < 10 {
        let d = decimal(n);
        assert(d.drop_last() =~= Seq::<u8>::empty());
        assert(digits_value(d.drop_last()) == 0);
    } else {
        lemma_decimal_digits(n / 10);
        let d = decimal(n);
        assert(d.drop_last() =~= decimal(n / 10));
        assert(d.last() == (0x30 + n % 10) as u8);
        assert(d[0] == decimal(n / 10)[0]);
        if decimal(n / 10).len() == 1 {
            assert(decimal(n / 10)[0] != 0x30) by {
                assert(digits_value(decimal(n / 10)) == n / 10);
                assert(decimal(n / 10).drop_last() =~= Seq::<u8>::empty());
                assert(digits_value(decimal(n / 10).drop_last()) == 0);
            }
        }
    }
}

/// Reading a written number gives it back, where what follows does not begin
/// with a digit.
pub proof fn lemma_read_decimal(n: u64, after: Seq<u8>)
    requires
        after.len() == 0 || !is_digit(after[0]),
    ensures
        unsigned(decimal(n as nat) + after) == Some((n, decimal(n as nat).len() as int)),
{
    let d = decimal(n as nat);
    let s = d + after;
    lemma_decimal_digits(n as nat);
    assert forall|i: int| 0 <= i < d.len() implies is_digit(#[trigger] s[i]) by {
        assert(s[i] == d[i]);
    }
    if d.len() < s.len() {
        assert(s[d.len() as int] == after[0]);
    }
    lemma_digits_len_exact(s, d.len() as int);
    assert(s.take(d.len() as int) =~= d);
    assert(s[0] == d[0]);
}

/// Reads the unsigned number that begins at `s[i]`: its value and the index
/// after its last digit.
pub fn read_unsigned(s: &[u8], i: usize) -> (r: Option<(u64, usize)>)
    requires
        i <= s.len(),
    ensures
        match unsigned(s@.skip(i as int)) {
            Some((v, n)) => r matches Some((value, j)) && value == v && j == i + n && j <= s.len(),
            None => r is None,
        },
{
    let ghost here = s@.skip(i as int);
    let mut j: usize = i;
    while j < s.len() && 0x30 <= s[j] && s[j] <= 0x39
        invariant
            i <= j <= s.len(),
            digits_len(here) == (j - i) + digits_len(s@.skip(j as int)),
            here == s@.skip(i as int),
        decreases s.len() - j,
    {
        assert(s@.skip(j as int).skip(1) =~= s@.skip(j + 1));
        j += 1;
    }
    let n = j - i;
    proof {
        lemma_digits_len_bounds(here);
    }
    if n == 0 {
        return None;
    }
    assert(here[0] == s@[i as int]);
    if n > 1 && s[i] == 0x30 {
        return None;
    }
    let ghost digits = here.take(n as int);
    assert forall|t: int| 0 <= t < digits.len() implies is_digit(#[trigger] digits[t]) by {
        assert(digits[t] == here[t]);
    }
    let mut value: u64 = 0;
    let mut k: usize = 0;
    assert(digits.take(0) =~= Seq::<u8>::empty());
    while k < n
        invariant
            k <= n,
            n == j - i,
            i <= j <= s.len(),
            digits == s@.skip(i as int).take(n as int),
            digits_len(s@.skip(i as int)) == n,
            forall|t: int| 0 <= t < digits.len() ==> is_digit(#[trigger] digits[t]),
            value == digits_value(digits.take(k as int)),
        decreases n - k,
    {
        assert(digits[k as int] == s@[i + k]);
        let d = s[i + k] - 0x30;
        proof {
            assert(digits.take(k + 1).drop_last() =~= digits.take(k as int));
            assert(digits.take(k + 1).last() == digits[k as int]);
            lemma_digits_value_grows(digits, k + 1);
        }
        if value > (u64::MAX - d as u64) / 10 {
            return None;
        }
        value = value * 10 + d as u64;
        k += 1;
    }
    assert(digits.take(k as int) =~= digits);
    Some((value, j))
}

/// Appends `n` in decimal digits.
pub fn write_decimal(out: &mut Vec<u8>, n: u64)
    ensures
        final(out)@ == old(out)@ + decimal(n as nat),
    decreases n,
{
    if n >= 10 {
        write_decimal(out, n / 10);
    }
    out.push(0x30 + (n % 10) as u8);
    assert(final(out)@ =~= old(out)@ + decimal(n as nat));
}

/// Moves a reader's answer forward by the `k` bytes that stood before it.
pub open spec fn later<T>(k: int, r: Option<(T, int)>) -> Option<(T, int)> {
    match r {
        Some((v, n)) => Some((v, n + k)),
        None => None,
    }
}

/// Reads the strings of a list from its first string on, up to and including
/// the closing bracket: strings with a comma between each two, and blank
/// space wherever it pleases.
pub open spec fn string_items(s: Seq<u8>) -> Option<(Seq<Seq<u8>>, int)>
    decreases s.len(),
{
    match quoted_string(s) {
        None => None,
        Some((v, n)) => {
            let k = n + gap_len(s.skip(n));
            if k >= s.len() {
                None
            } else if s[k] == CLOSE_BRACKET {
                Some((seq![v], k + 1))
            } else if s[k] == COMMA {
                let m = k + 1 + gap_len(s.skip(k + 1));
                proof {
                    lemma_quoted_string_bounds(s);
                    lemma_gap_len_bounds(s.skip(n));
                    lemma_gap_len_bounds(s.skip(k + 1));
                }
                match string_items(s.skip(m)) {
                    Some((vs, r)) => Some((seq![v] + vs, m + r)),
                    None => None,
                }
            } else {
                None
            }
        },
    }
}

/// Reads a list of strings in square brackets.
pub open spec fn string_list(s: Seq<u8>) -> Option<(Seq<Seq<u8>>, int)> {
    if s.len() > 0 && s[0] == OPEN_BRACKET {
        let k = 1 + gap_len(s.skip(1));
        if k < s.len() && s[k] == CLOSE_BRACKET {
            Some((Seq::<Seq<u8>>::empty(), k + 1))
        } else {
            later(k, string_items(s.skip(k)))
        }
    } else {
        None
    }
}

/// The items of a list have at least one string and the closing bracket.
pub proof fn lemma_string_items_bounds(s: Seq<u8>)
    ensures
        string_items(s) matches Some((vs, n)) ==> 3 <= n <= s.len() && vs.len() >= 1,
    decreases s.len(),
{
    lemma_quoted_string_bounds(s);
    match quoted_string(s) {
        None => {},
        Some((v, n)) => {
            lemma_gap_len_bounds(s.skip(n));
            let k = n + gap_len(s.skip(n));
            if k < s.len() && s[k] == COMMA {
                lemma_gap_len_bounds(s.skip(k + 1));
                let m = k + 1 + gap_len(s.skip(k + 1));
                lemma_string_items_bounds(s.skip(m));
            }
        },
    }
}

/// A list has at least its two brackets, and no more bytes than there are.
pub proof fn lemma_string_list_bounds(s: Seq<u8>)
    ensures
        string_list(s) matches Some((vs, n)) ==> 2 <= n <= s.len(),
{
    if s.len() > 0 {
        lemma_gap_len_bounds(s.skip(1));
        let k = 1 + gap_len(s.skip(1));
        lemma_string_items_bounds(s.skip(k));
    }
}

/// The views of a list of byte strings.
pub open spec fn views(items: Seq<Vec<u8>>) -> Seq<Seq<u8>> {
    Seq::new(items.len(), |i: int| items[i]@)
}

/// What `string_items` gives from a later string on, seen from the whole
/// list: the strings `acc` already read go in front, and the count starts `k`
/// bytes earlier.
pub open spec fn resumed_items(acc: Seq<Seq<u8>>, k: int, rest: Option<(Seq<Seq<u8>>, int)>) -> Option<
    (Seq<Seq<u8>>, int),
> {
    match rest {
        Some((vs, n)) => Some((acc + vs, n + k)),
        None => None,
    }
}

/// Reads the list of strings that begins at `s[i]`: the bytes of each string
/// and the index after the closing bracket.
pub fn read_string_list(s: &[u8], i: usize) -> (r: Option<(Vec<Vec<u8>>, usize)>)
    requires
        i <= s.len(),
    ensures
        match string_list(s@.skip(i as int)) {
            Some((vs, n)) => r matches Some((items, j)) && views(items@) == vs && j == i + n && j
                <= s.len(),
            None => r is None,
        },
{
    let ghost whole = s@.skip(i as int);
    if i >= s.len() || s[i] != OPEN_BRACKET {
        return None;
    }
    assert(whole[0] == s@[i as int]);
    assert(whole.skip(1) =~= s@.skip(i + 1));
    let first = skip_gap(s, i + 1);
    let mut items: Vec<Vec<u8>> = Vec::new();
    if first < s.len() && s[first] == CLOSE_BRACKET {
        assert(whole[first - i] == s@[first as int]);
        assert(views(items@) =~= Seq::<Seq<u8>>::empty());
        return Some((items, first + 1));
    }
    proof {
        if first < s.len() {
            assert(whole[first - i] == s@[first as int]);
        }
        assert(whole.skip(first - i) =~= s@.skip(first as int));
        match string_items(s@.skip(first as int)) {
            Some((vs, n)) => {
                assert(views(items@) + vs =~= vs);
            },
            None => {},
        }
    }
    let mut j: usize = first;
    loop
        invariant
            i < j <= s.len(),
            string_list(s@.skip(i as int)) == resumed_items(
                views(items@),
                j - i,
                string_items(s@.skip(j as int)),
            ),
        decreases s.len() - j,
    {
        let ghost here = s@.skip(j as int);
        let ghost before = views(items@);
        proof {
            lemma_quoted_string_bounds(here);
        }
        let (item, after) = match read_quoted(s, j) {
            Some(pair) => pair,
            None => {
                return None;
            },
        };
        assert(here.skip(after - j) =~= s@.skip(after as int));
        let k = skip_gap(s, after);
        if k >= s.len() {
            return None;
        }
        assert(here[k - j] == s@[k as int]);
        let ghost v = item@;
        items.push(item);
        assert(views(items@) =~= before.push(v));
        if s[k] == CLOSE_BRACKET {
            assert(before + seq![v] =~= before.push(v));
            return Some((items, k + 1));
        } else if s[k] == COMMA {
            assert(here.skip(k + 1 - j) =~= s@.skip(k + 1));
            let m = skip_gap(s, k + 1);
            proof {
                assert(here.skip(m - j) =~= s@.skip(m as int));
                match string_items(s@.skip(m as int)) {
                    Some((vs, n)) => {
                        assert(before + (seq![v] + vs) =~= before.push(v) + vs);
                    },
                    None => {},
                }
            }
            j = m;
        } else {
            return None;
        }
    }
}

/// A brace or bracket that opens.
pub open spec fn is_opener(b: u8) -> bool {
    b == OPEN_BRACE || b == OPEN_BRACKET
}

/// A brace or bracket that closes.
pub open spec fn is_closer(b: u8) -> bool {
    b == CLOSE_BRACE || b == CLOSE_BRACKET
}

/// A byte that may stand in a bare word such as a number, `true` or `null`.
pub open spec fn is_word_byte(b: u8) -> bool {
    !is_gap(b) && !is_opener(b) && !is_closer(b) && b != COMMA && b != COLON && b != QUOTE
}

/// How many bytes of a bare word a text begins with.
pub open spec fn word_len(s: Seq<u8>) -> int
    decreases s.len(),
{
    if s.len() > 0 && is_word_byte(s[0]) {
        1 + word_len(s.skip(1))
    } else {
        0
    }
}

/// The nesting depth behind a byte that is no part of a string.
pub open spec fn depth_after(b: u8, depth: nat) -> int {
    if is_opener(b) {
        depth as int + 1
    } else if is_closer(b) {
        depth as int - 1
    } else {
        depth as int
    }
}

/// The length of what stands inside brackets, from behind an opening bracket
/// at nesting depth `depth` up to and including the bracket that closes depth
/// one. Strings are read as strings, so that a bracket inside one does not
/// count; nothing else is looked at.
pub open spec fn nested_len(s: Seq<u8>, depth: nat) -> Option<int>
    decreases s.len(),
{
    if s.len() == 0 {
        None
    } else if s[0] == QUOTE {
        match quoted_string(s) {
            Some((v, n)) => {
                proof {
                    lemma_quoted_string_bounds(s);
                }
                match nested_len(s.skip(n), depth) {
                    Some(r) => Some(n + r),
                    None => None,
                }
            },
            None => None,
        }
    } else {
        let inner = depth_after(s[0], depth);
        if inner <= 0 {
            Some(1)
        } else {
            match nested_len(s.skip(1), inner as nat) {
                Some(r) => Some(1 + r),
                None => None,
            }
        }
    }
}

/// The length of a value that is passed over unread: a string, a bare word,
/// or whatever stands between a bracket and the bracket that closes it.
pub open spec fn passed_value(s: Seq<u8>) -> Option<int> {
    if s.len() == 0 {
        None
    } else if s[0] == QUOTE {
        match quoted_string(s) {
            Some((v, n)) => Some(n),
            None => None,
        }
    } else if is_opener(s[0]) {
        match nested_len(s.skip(1), 1) {
            Some(r) => Some(1 + r),
            None => None,
        }
    } else if word_len(s) > 0 {
        Some(word_len(s))
    } else {
        None
    }
}

/// A bare word is no longer than its text.
pub proof fn lemma_word_len_bounds(s: Seq<u8>)
    ensures
        0 <= word_len(s) <= s.len(),
    decreases s.len(),
{
    if s.len() > 0 && is_word_byte(s[0]) {
        lemma_word_len_bounds(s.skip(1));
    }
}

/// What stands inside brackets has at least the closing bracket, and no
/// more bytes than there are.
pub proof fn lemma_nested_len_bounds(s: Seq<u8>, depth: nat)
    ensures
        nested_len(s, depth) matches Some(n) ==> 1 <= n <= s.len(),
    decreases s.len(),
{
    if s.len() == 0 {
    } else if s[0] == QUOTE {
        lemma_quoted_string_bounds(s);
        match quoted_string(s) {
            Some((v, n)) => {
                lemma_nested_len_bounds(s.skip(n), depth);
            },
            None => {},
        }
    } else {
        let inner = depth_after(s[0], depth);
        if inner > 0 {
            lemma_nested_len_bounds(s.skip(1), inner as nat);
        }
    }
}

/// A value that is passed over has at least one byte, and no more than
/// there are.
pub proof fn lemma_passed_value_bounds(s: Seq<u8>)
    ensures
        passed_value(s) matches Some(n) ==> 1 <= n <= s.len(),
{
    if s.len() > 0 {
        lemma_quoted_string_bounds(s);
        lemma_nested_len_bounds(s.skip(1), 1);
        lemma_word_len_bounds(s);
    }
}

fn is_word_byte_at(b: u8) -> (r: bool)
    ensures
        r == is_word_byte(b),
{
    !(b == 0x20 || b == 0x09 || b == 0x0a || b == 0x0d) && b != OPEN_BRACE && b != OPEN_BRACKET
        && b != CLOSE_BRACE && b != CLOSE_BRACKET && b != COMMA && b != COLON && b != QUOTE
}

/// Passes over the value that begins at `s[i]` and gives the index behind it.
pub fn pass_value(s: &[u8], i: usize) -> (r: Option<usize>)
    requires
        i <= s.len(),
    ensures
        match passed_value(s@.skip(i as int)) {
            Some(n) => r matches Some(j) && j == i + n && j <= s.len(),
            None => r is None,
        },
{
    let ghost whole = s@.skip(i as int);
    proof {
        lemma_passed_value_bounds(whole);
    }
    if i >= s.len() {
        return None;
    }
    assert(whole[0] == s@[i as int]);
    if s[i] == QUOTE {
        return match read_quoted(s, i) {
            Some((_, j)) => Some(j),
            None => None,
        };
    }
    if s[i] == OPEN_BRACE || s[i] == OPEN_BRACKET {
        assert(whole.skip(1) =~= s@.skip(i + 1));
        let mut j: usize = i + 1;
        let mut depth: usize = 1;
        loop
            invariant
                i < j <= s.len(),
                1 <= depth <= j - i,
                passed_value(s@.skip(i as int)) == match nested_len(
                    s@.skip(j as int),
                    depth as nat,
                ) {
                    Some(r) => Some(j - i + r),
                    None => None,
                },
            decreases s.len() - j,
        {
            let ghost here = s@.skip(j as int);
            proof {
                lemma_nested_len_bounds(here, depth as nat);
            }
            if j >= s.len() {
                return None;
            }
            let c = s[j];
            assert(here[0] == c);
            if c == QUOTE {
                proof {
                    lemma_quoted_string_bounds(here);
                }
                match read_quoted(s, j) {
                    Some((_, after)) => {
                        assert(here.skip(after - j) =~= s@.skip(after as int));
                        j = after;
                    },
                    None => {
                        return None;
                    },
                }
            } else {
                assert(here.skip(1) =~= s@.skip(j + 1));
                if c == OPEN_BRACE || c == OPEN_BRACKET {
                    depth += 1;
                } else if c == CLOSE_BRACE || c == CLOSE_BRACKET {
                    depth -= 1;
                    if depth == 0 {
                        return Some(j + 1);
                    }
                }
                j += 1;
            }
        }
    }
    let mut j: usize = i;
    while j < s.len() && is_word_byte_at(s[j])
        invariant
            i <= j <= s.len(),
            word_len(s@.skip(i as int)) == (j - i) + word_len(s@.skip(j as int)),
        decreases s.len() - j,
    {
        assert(s@.skip(j as int).skip(1) =~= s@.skip(j + 1));
        j += 1;
    }
    if j == i {
        None
    } else {
        Some(j)
    }
}

/// A line feed and two spaces: the break in front of a member.
pub open spec fn break_one() -> Seq<u8> {
    seq![NEWLINE, SPACE, SPACE]
}

/// A line feed and four spaces: the break in front of a list item.
pub open spec fn break_two() -> Seq<u8> {
    seq![NEWLINE, SPACE, SPACE, SPACE, SPACE]
}

/// The strings of a list written from the first one on, one to a line, up to
/// and including the closing bracket.
pub open spec fn items_text(items: Seq<Seq<u8>>) -> Seq<u8>
    decreases items.len(),
{
    if items.len() == 0 {
        Seq::<u8>::empty()
    } else if items.len() == 1 {
        quoted(items[0]) + break_one() + seq![CLOSE_BRACKET]
    } else {
        quoted(items[0]) + seq![COMMA] + break_two() + items_text(items.skip(1))
    }
}

/// A list of strings written out: `[]` where it is empty, else one string to
/// a line.
pub open spec fn list_text(items: Seq<Seq<u8>>) -> Seq<u8> {
    if items.len() == 0 {
        seq![OPEN_BRACKET, CLOSE_BRACKET]
    } else {
        seq![OPEN_BRACKET] + break_two() + items_text(items)
    }
}

/// Reading the last written item of a list gives it back.
proof fn lemma_read_last_item(item: Seq<u8>, after: Seq<u8>)
    ensures
        string_items(quoted(item) + break_one() + seq![CLOSE_BRACKET] + after) == Some(
            (seq![item], (quoted(item).len() + 4) as int),
        ),
{
    let q = quoted(item);
    let n = q.len() as int;
    let tail = break_one() + seq![CLOSE_BRACKET] + after;
    let s = q + break_one() + seq![CLOSE_BRACKET] + after;
    assert(s =~= q + tail);
    lemma_read_quoted(item, tail);
    assert(s.skip(n) =~= tail);
    assert(tail[0] == NEWLINE && tail[1] == SPACE && tail[2] == SPACE && tail[3] == CLOSE_BRACKET);
    lemma_gap_len_exact(tail, 3);
    assert(s[n + 3] == tail[3]);
}

/// Reading a written item that another follows leads on to the other.
proof fn lemma_read_next_item(item: Seq<u8>, rest: Seq<u8>)
    requires
        rest.len() >= 1,
        rest[0] == QUOTE,
    ensures
        string_items(quoted(item) + seq![COMMA] + break_two() + rest) == match string_items(rest) {
            Some((vs, r)) => Some((seq![item] + vs, quoted(item).len() + 6 + r)),
            None => None,
        },
{
    let q = quoted(item);
    let n = q.len() as int;
    let tail = seq![COMMA] + break_two() + rest;
    let s = q + seq![COMMA] + break_two() + rest;
    assert(s =~= q + tail);
    lemma_read_quoted(item, tail);
    assert(s.skip(n) =~= tail);
    assert(tail[0] == COMMA);
    lemma_gap_len_exact(tail, 0);
    assert(s[n] == tail[0]);
    let inner = break_two() + rest;
    assert(s.skip(n + 1) =~= inner);
    assert(inner[0] == NEWLINE && inner[1] == SPACE && inner[2] == SPACE && inner[3] == SPACE
        && inner[4] == SPACE && inner[5] == rest[0]);
    lemma_gap_len_exact(inner, 5);
    assert(s.skip(n + 6) =~= rest);
}

/// Reading written list items gives the strings back, whatever follows the
/// closing bracket.
pub proof fn lemma_read_items(items: Seq<Seq<u8>>, after: Seq<u8>)
    requires
        items.len() >= 1,
    ensures
        string_items(items_text(items) + after) == Some((items, items_text(items).len() as int)),
        (items_text(items) + after)[0] == QUOTE,
    decreases items.len(),
{
    let s = items_text(items) + after;
    let q = quoted(items[0]);
    assert(q[0] == QUOTE);
    if items.len() == 1 {
        assert(s =~= q + break_one() + seq![CLOSE_BRACKET] + after);
        lemma_read_last_item(items[0], after);
        assert(seq![items[0]] =~= items);
    } else {
        let rest = items_text(items.skip(1)) + after;
        assert(s =~= q + seq![COMMA] + break_two() + rest);
        lemma_read_items(items.skip(1), after);
        lemma_read_next_item(items[0], rest);
        assert(seq![items[0]] + items.skip(1) =~= items);
    }
    assert(s[0] == q[0]);
}

/// Reading a written list gives the strings back, whatever follows it.
pub proof fn lemma_read_list(items: Seq<Seq<u8>>, after: Seq<u8>)
    ensures
        string_list(list_text(items) + after) == Some((items, list_text(items).len() as int)),
        list_text(items).len() >= 2,
        list_text(items)[0] == OPEN_BRACKET,
{
    let s = list_text(items) + after;
    if items.len() == 0 {
        assert(s[0] == OPEN_BRACKET);
        let inner = s.skip(1);
        assert(inner[0] == CLOSE_BRACKET);
        lemma_gap_len_exact(inner, 0);
        assert(s[1] == CLOSE_BRACKET);
        assert(items =~= Seq::<Seq<u8>>::empty());
    } else {
        let rest = items_text(items) + after;
        let inner = break_two() + rest;
        assert(s =~= seq![OPEN_BRACKET] + inner);
        assert(s.skip(1) =~= inner);
        lemma_read_items(items, after);
        assert(inner[0] == NEWLINE && inner[1] == SPACE && inner[2] == SPACE && inner[3] == SPACE
            && inner[4] == SPACE && inner[5] == rest[0]);
        lemma_gap_len_exact(inner, 5);
        assert(s[6] == rest[0]);
        assert(s.skip(6) =~= rest);
    }
}

/// Appends a list of strings, given by their bytes.
pub fn write_list(out: &mut Vec<u8>, items: &Vec<Vec<u8>>)
    ensures
        final(out)@ == old(out)@ + list_text(views(items@)),
{
    let ghost texts = views(items@);
    out.push(OPEN_BRACKET);
    if items.len() == 0 {
        out.push(CLOSE_BRACKET);
        assert(out@ =~= old(out)@ + list_text(texts));
        return ;
    }
    let mut i: usize = 0;
    assert(texts.skip(0) =~= texts);
    write_break(out, true);
    assert(out@ + items_text(texts) =~= old(out)@ + list_text(texts));
    while i < items.len()
        invariant
            i <= items.len(),
            texts == views(items@),
            items.len() >= 1,
            out@ + items_text(texts.skip(i as int)) == old(out)@ + list_text(texts),
        decreases items.len() - i,
    {
        let ghost before = out@;
        let ghost rest = texts.skip(i as int);
        assert(rest[0] == items@[i as int]@);
        write_quoted(out, items[i].as_slice());
        if i + 1 < items.len() {
            out.push(COMMA);
            write_break(out, true);
            assert(rest.skip(1) =~= texts.skip(i + 1));
            assert(out@ + items_text(texts.skip(i + 1)) =~= before + items_text(rest));
        } else {
            write_break(out, false);
            out.push(CLOSE_BRACKET);
            assert(texts.skip(i + 1) =~= Seq::<Seq<u8>>::empty());
            assert(out@ + items_text(texts.skip(i + 1)) =~= before + items_text(rest));
        }
        i += 1;
    }
    assert(out@ + items_text(texts.skip(i as int)) =~= out@);
}

/// Appends the break in front of a member, or that in front of a list item
/// where `item` is set.
pub fn write_break(out: &mut Vec<u8>, item: bool)
    ensures
        final(out)@ == old(out)@ + (if item {
            break_two()
        } else {
            break_one()
        }),
{
    out.push(NEWLINE);
    out.push(SPACE);
    out.push(SPACE);
    if item {
        out.push(SPACE);
        out.push(SPACE);
    }
    assert(final(out)@ =~= old(out)@ + (if item {
        break_two()
    } else {
        break_one()
    }));
}

} // verus!
