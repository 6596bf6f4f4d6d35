//! The record codec: commands are serialized as self-delimiting JSON objects.
//!
//! A `Set` record is the byte sequence `{"command":"Set","key":"K","value":"V"}`
//! and a `Remove` record is `{"command":"Rm","key":"K"}`, where `K` and `V` are
//! JSON-escaped strings.  The encoder escapes every character outside the
//! printable ASCII range as a `\uXXXX` escape (with surrogate pairs for
//! characters above the basic multilingual plane), so every encoded record is
//! pure ASCII and its byte length equals its character length.  The decoder
//! additionally accepts the short JSON escapes `\/ \b \t \n \f \r` and raw
//! UTF-8-encoded characters, which other JSON writers leave unescaped.
//!
//! Records are concatenated with no separator; the decoder finds the boundary
//! between records by parsing, never by scanning for newlines.

use vstd::prelude::*;

verus! {

/// One logged command.
pub enum Command {
    /// Bind `key` to `value`.
    SetCmd { key: String, value: String },
    /// Delete `key`.
    Rm { key: String },
}

/// The mathematical form of a [`Command`]: the same variants over character
/// sequences.
pub enum CmdView {
    SetCmd { key: Seq<char>, value: Seq<char> },
    Rm { key: Seq<char> },
}

impl View for Command {
    type V = CmdView;

    open spec fn view(&self) -> CmdView {
        match self {
            Command::SetCmd { key, value } => CmdView::SetCmd { key: key@, value: value@ },
            Command::Rm { key } => CmdView::Rm { key: key@ },
        }
    }
}

/// The opening bytes of a `Set` record, `{"command":"Set","key":"`.
pub open spec fn lit_set() -> Seq<u8> {
    seq![
        0x7bu8, 0x22u8, 0x63u8, 0x6fu8, 0x6du8, 0x6du8, 0x61u8, 0x6eu8, 0x64u8, 0x22u8, 0x3au8, 0x22u8,
        0x53u8, 0x65u8, 0x74u8, 0x22u8, 0x2cu8, 0x22u8, 0x6bu8, 0x65u8, 0x79u8, 0x22u8, 0x3au8, 0x22u8,
    ]
}

/// The opening bytes of a `Rm` record, `{"command":"Rm","key":"`.
pub open spec fn lit_rm() -> Seq<u8> {
    seq![
        0x7bu8, 0x22u8, 0x63u8, 0x6fu8, 0x6du8, 0x6du8, 0x61u8, 0x6eu8, 0x64u8, 0x22u8, 0x3au8, 0x22u8,
        0x52u8, 0x6du8, 0x22u8, 0x2cu8, 0x22u8, 0x6bu8, 0x65u8, 0x79u8, 0x22u8, 0x3au8, 0x22u8,
    ]
}

/// The bytes between the key and the value of a `Set` record, `,"value":"`.
pub open spec fn lit_value() -> Seq<u8> {
    seq![0x2cu8, 0x22u8, 0x76u8, 0x61u8, 0x6cu8, 0x75u8, 0x65u8, 0x22u8, 0x3au8, 0x22u8]
}

/// A character that is encoded as its own ASCII byte: printable ASCII other
/// than the quote and the backslash.
pub open spec fn is_plain_char(c: char) -> bool {
    0x20 <= (c as u32) && (c as u32) <= 0x7e && c != '"' && c != '\\'
}

/// A byte that the decoder takes as a plain character: anything JSON allows
/// raw in a string other than the quote and the backslash.
pub open spec fn is_plain_byte(b: u8) -> bool {
    0x20 <= b && b <= 0x7f && b != 0x22 && b != 0x5c
}

/// The lowercase hex digit for `d < 16`.
pub open spec fn hex_digit(d: int) -> u8 {
    if d < 10 {
        (0x30 + d) as u8
    } else {
        (0x57 + d) as u8
    }
}

/// Four lowercase hex digits for `n < 0x10000`, most significant first.
pub open spec fn hex4(n: int) -> Seq<u8> {
    seq![
        hex_digit(n / 0x1000 % 0x10),
        hex_digit(n / 0x100 % 0x10),
        hex_digit(n / 0x10 % 0x10),
        hex_digit(n % 0x10),
    ]
}

/// The escape-sequence bytes the encoder emits for one character.
pub open spec fn esc_char(c: char) -> Seq<u8> {
    let u = c as u32;
    if c == '"' {
        seq![0x5cu8, 0x22u8]
    } else if c == '\\' {
        seq![0x5cu8, 0x5cu8]
    } else if is_plain_char(c) {
        seq![(c as u32) as u8]
    } else if u < 0x10000 {
        seq![0x5cu8, 0x75u8] + hex4(u as int)
    } else {
        let v = u - 0x10000;
        seq![0x5cu8, 0x75u8] + hex4(0xd800 + v / 0x400) + seq![0x5cu8, 0x75u8] + hex4(0xdc00 + (v as int) % 0x400)
    }
}

/// The escaped form of a whole string.
pub open spec fn esc_str(s: Seq<char>) -> Seq<u8>
    decreases s.len(),
{
    if s.len() == 0 {
        Seq::empty()
    } else {
        esc_char(s[0]) + esc_str(s.drop_first())
    }
}

/// The full byte encoding of a command.
pub open spec fn spec_encode(c: CmdView) -> Seq<u8> {
    match c {
        CmdView::SetCmd { key, value } => lit_set() + esc_str(key) + seq![0x22u8] + lit_value()
            + esc_str(value) + seq![0x22u8, 0x7du8],
        CmdView::Rm { key } => lit_rm() + esc_str(key) + seq![0x22u8, 0x7du8],
    }
}

/// Escaping distributes over appending a character.
pub proof fn lemma_esc_str_push(s: Seq<char>, c: char)
    ensures
        esc_str(s.push(c)) == esc_str(s) + esc_char(c),
    decreases s.len(),
{
    if s.len() == 0 {
        assert(s.push(c).drop_first() =~= Seq::<char>::empty());
        assert(s.push(c)[0] == c);
        assert(esc_str(s.push(c)) == esc_char(c) + esc_str(Seq::<char>::empty()));
        assert(esc_str(Seq::<char>::empty()) == Seq::<u8>::empty());
        assert(esc_char(c) + Seq::<u8>::empty() =~= esc_char(c));
        assert(esc_str(s) + esc_char(c) =~= esc_char(c));
    } else {
        assert(s.push(c).drop_first() =~= s.drop_first().push(c));
        lemma_esc_str_push(s.drop_first(), c);
        assert(esc_str(s.push(c)) =~= esc_str(s) + esc_char(c));
    }
}

/// Exec counterpart of [`hex_digit`].
fn hex_digit_exec(d: u32) -> (r: u8)
    requires
        d < 16,
    ensures
        r == hex_digit(d as int),
{
    if d < 10 {
        (0x30 + d) as u8
    } else {
        (0x57 + d) as u8
    }
}

/// Appends the four hex digits of `n` (see [`hex4`]) to `out`.
fn push_hex4(out: &mut Vec<u8>, n: u32)
    requires
        n < 0x10000,
    ensures
        final(out)@ == old(out)@ + hex4(n as int),
{
    out.push(hex_digit_exec(n / 0x1000 % 0x10));
    out.push(hex_digit_exec(n / 0x100 % 0x10));
    out.push(hex_digit_exec(n / 0x10 % 0x10));
    out.push(hex_digit_exec(n % 0x10));
    assert(final(out)@ =~= old(out)@ + hex4(n as int));
}

/// Appends the escape-sequence bytes of one character (see [`esc_char`]) to
/// `out`.
fn push_esc_char(out: &mut Vec<u8>, c: char)
    ensures
        final(out)@ == old(out)@ + esc_char(c),
{
    let u = c as u32;
    if c == '"' {
        out.push(0x5cu8);
        out.push(0x22u8);
        assert(final(out)@ =~= old(out)@ + esc_char(c));
    } else if c == '\\' {
        out.push(0x5cu8);
        out.push(0x5cu8);
        assert(final(out)@ =~= old(out)@ + esc_char(c));
    } else if 0x20 <= u && u <= 0x7e {
        out.push((c as u32) as u8);
        assert(final(out)@ =~= old(out)@ + esc_char(c));
    } else if u < 0x10000 {
        out.push(0x5cu8);
        out.push(0x75u8);
        push_hex4(out, u);
        assert(final(out)@ =~= old(out)@ + esc_char(c));
    } else {
        proof {
            vstd::utf8::char_is_scalar(c);
        }
        let v = u - 0x10000;
        out.push(0x5cu8);
        out.push(0x75u8);
        push_hex4(out, 0xd800 + v / 0x400);
        out.push(0x5cu8);
        out.push(0x75u8);
        push_hex4(out, 0xdc00 + v % 0x400);
        assert(final(out)@ =~= old(out)@ + esc_char(c));
    }
}

/// Appends the escaped form of `s` (see [`esc_str`]) to `out`.
fn push_esc_str(out: &mut Vec<u8>, s: &str)
    ensures
        final(out)@ == old(out)@ + esc_str(s@),
{
    let n = s.unicode_len();
    let mut i: usize = 0;
    while i < n
        invariant
            n == s@.len(),
            i <= n,
            out@ == old(out)@ + esc_str(s@.take(i as int)),
        decreases n - i,
    {
        let c = s.get_char(i);
        proof {
            assert(s@.take(i as int).push(c) =~= s@.take(i + 1));
            lemma_esc_str_push(s@.take(i as int), c);
        }
        push_esc_char(out, c);
        i = i + 1;
    }
    proof {
        assert(s@.take(n as int) =~= s@);
    }
}

/// Appends the bytes of [`lit_set`] to `out`.
fn push_lit_set(out: &mut Vec<u8>)
    ensures
        final(out)@ == old(out)@ + lit_set(),
{
    out.push(0x7bu8);
    out.push(0x22u8);
    out.push(0x63u8);
    out.push(0x6fu8);
    out.push(0x6du8);
    out.push(0x6du8);
    out.push(0x61u8);
    out.push(0x6eu8);
    out.push(0x64u8);
    out.push(0x22u8);
    out.push(0x3au8);
    out.push(0x22u8);
    out.push(0x53u8);
    out.push(0x65u8);
    out.push(0x74u8);
    out.push(0x22u8);
    out.push(0x2cu8);
    out.push(0x22u8);
    out.push(0x6bu8);
    out.push(0x65u8);
    out.push(0x79u8);
    out.push(0x22u8);
    out.push(0x3au8);
    out.push(0x22u8);
    assert(final(out)@ =~= old(out)@ + lit_set());
}

/// Appends the bytes of [`lit_rm`] to `out`.
fn push_lit_rm(out: &mut Vec<u8>)
    ensures
        final(out)@ == old(out)@ + lit_rm(),
{
    out.push(0x7bu8);
    out.push(0x22u8);
    out.push(0x63u8);
    out.push(0x6fu8);
    out.push(0x6du8);
    out.push(0x6du8);
    out.push(0x61u8);
    out.push(0x6eu8);
    out.push(0x64u8);
    out.push(0x22u8);
    out.push(0x3au8);
    out.push(0x22u8);
    out.push(0x52u8);
    out.push(0x6du8);
    out.push(0x22u8);
    out.push(0x2cu8);
    out.push(0x22u8);
    out.push(0x6bu8);
    out.push(0x65u8);
    out.push(0x79u8);
    out.push(0x22u8);
    out.push(0x3au8);
    out.push(0x22u8);
    assert(final(out)@ =~= old(out)@ + lit_rm());
}

/// Appends the bytes of [`lit_value`] to `out`.
fn push_lit_value(out: &mut Vec<u8>)
    ensures
        final(out)@ == old(out)@ + lit_value(),
{
    out.push(0x2cu8);
    out.push(0x22u8);
    out.push(0x76u8);
    out.push(0x61u8);
    out.push(0x6cu8);
    out.push(0x75u8);
    out.push(0x65u8);
    out.push(0x22u8);
    out.push(0x3au8);
    out.push(0x22u8);
    assert(final(out)@ =~= old(out)@ + lit_value());
}

/// Serializes one command to its record bytes.
pub fn encode_command(cmd: &Command) -> (r: Vec<u8>)
    ensures
        r@ == spec_encode(cmd@),
{
    let mut out: Vec<u8> = Vec::new();
    match cmd {
        Command::SetCmd { key, value } => {
            push_lit_set(&mut out);
            push_esc_str(&mut out, key.as_str());
            out.push(0x22u8);
            push_lit_value(&mut out);
            push_esc_str(&mut out, value.as_str());
            out.push(0x22u8);
            out.push(0x7du8);
            assert(out@ =~= spec_encode(cmd@));
        }
        Command::Rm { key } => {
            push_lit_rm(&mut out);
            push_esc_str(&mut out, key.as_str());
            out.push(0x22u8);
            out.push(0x7du8);
            assert(out@ =~= spec_encode(cmd@));
        }
    }
    out
}

} // verus!

verus! {

/// The numeric value of a hex-digit byte, or 16 if the byte is not one.
/// Both lowercase and uppercase digits are accepted.
pub open spec fn hex_val(b: u8) -> int {
    if 0x30 <= b && b <= 0x39 {
        b - 0x30
    } else if 0x61 <= b && b <= 0x66 {
        b - 0x57
    } else if 0x41 <= b && b <= 0x46 {
        b - 0x37
    } else {
        16
    }
}

/// Whether a byte is a hex digit.
pub open spec fn is_hex(b: u8) -> bool {
    hex_val(b) < 16
}

/// Whether four hex digits stand at offset `i`.
pub open spec fn has_hex4(b: Seq<u8>, i: int) -> bool {
    &&& 0 <= i
    &&& i + 4 <= b.len()
    &&& is_hex(b[i])
    &&& is_hex(b[i + 1])
    &&& is_hex(b[i + 2])
    &&& is_hex(b[i + 3])
}

/// The value of the four hex digits at offset `i`, most significant first.
pub open spec fn hex4_val(b: Seq<u8>, i: int) -> int {
    hex_val(b[i]) * 0x1000 + hex_val(b[i + 1]) * 0x100 + hex_val(b[i + 2]) * 0x10 + hex_val(
        b[i + 3],
    )
}

/// Parses one escape sequence starting at the backslash at offset `i`.
/// Yields the decoded character and the offset just past the escape.
pub open spec fn parse_esc(b: Seq<u8>, i: int) -> Option<(char, int)> {
    if !(0 <= i && i + 2 <= b.len() && b[i] == 0x5c) {
        None
    } else {
        let e = b[i + 1];
        if e == 0x22 {
            Some(('"', i + 2))
        } else if e == 0x5c {
            Some(('\\', i + 2))
        } else if e == 0x2f {
            Some(('/', i + 2))
        } else if e == 0x62 {
            Some(('\u{8}', i + 2))
        } else if e == 0x74 {
            Some(('\t', i + 2))
        } else if e == 0x6e {
            Some(('\n', i + 2))
        } else if e == 0x66 {
            Some(('\u{c}', i + 2))
        } else if e == 0x72 {
            Some(('\r', i + 2))
        } else if e == 0x75 {
            if !has_hex4(b, i + 2) {
                None
            } else {
                let v = hex4_val(b, i + 2);
                if 0xd800 <= v && v < 0xdc00 {
                    if i + 12 <= b.len() && b[i + 6] == 0x5c && b[i + 7] == 0x75 && has_hex4(
                        b,
                        i + 8,
                    ) {
                        let w = hex4_val(b, i + 8);
                        if 0xdc00 <= w && w < 0xe000 {
                            Some(
                                (
                                    ((0x10000 + (v - 0xd800) * 0x400 + (w - 0xdc00)) as u32) as char,
                                    i + 12,
                                ),
                            )
                        } else {
                            None
                        }
                    } else {
                        None
                    }
                } else if 0xdc00 <= v && v < 0xe000 {
                    None
                } else {
                    Some(((v as u32) as char, i + 6))
                }
            }
        } else {
            None
        }
    }
}

/// Parses one multi-byte UTF-8-encoded character starting at offset `i`.
/// Overlong forms, surrogate code points, and values beyond the Unicode
/// maximum are rejected, as JSON and Rust strings demand.
pub open spec fn parse_utf8(b: Seq<u8>, i: int) -> Option<(char, int)> {
    if !(0 <= i && i < b.len()) {
        None
    } else if vstd::utf8::is_leading_byte_width_2(b[i]) {
        if i + 2 <= b.len() && vstd::utf8::is_continuation_byte(b[i + 1]) {
            let v = vstd::utf8::codepoint_width_2(b[i], b[i + 1]);
            if vstd::utf8::has_width_2_encoding(v) {
                Some((v as char, i + 2))
            } else {
                None
            }
        } else {
            None
        }
    } else if vstd::utf8::is_leading_byte_width_3(b[i]) {
        if i + 3 <= b.len() && vstd::utf8::is_continuation_byte(b[i + 1])
            && vstd::utf8::is_continuation_byte(b[i + 2]) {
            let v = vstd::utf8::codepoint_width_3(b[i], b[i + 1], b[i + 2]);
            if vstd::utf8::has_width_3_encoding(v) {
                Some((v as char, i + 3))
            } else {
                None
            }
        } else {
            None
        }
    } else if vstd::utf8::is_leading_byte_width_4(b[i]) {
        if i + 4 <= b.len() && vstd::utf8::is_continuation_byte(b[i + 1])
            && vstd::utf8::is_continuation_byte(b[i + 2]) && vstd::utf8::is_continuation_byte(
            b[i + 3],
        ) {
            let v = vstd::utf8::codepoint_width_4(b[i], b[i + 1], b[i + 2], b[i + 3]);
            if vstd::utf8::has_width_4_encoding(v) {
                Some((v as char, i + 4))
            } else {
                None
            }
        } else {
            None
        }
    } else {
        None
    }
}

/// Parses a JSON string body starting at offset `i`, up to and including the
/// closing quote.  Yields the decoded characters and the offset just past the
/// quote.
pub open spec fn parse_str(b: Seq<u8>, i: int) -> Option<(Seq<char>, int)>
    decreases b.len() - i,
{
    if i < 0 || i >= b.len() {
        None
    } else if b[i] == 0x22 {
        Some((Seq::empty(), i + 1))
    } else if b[i] == 0x5c {
        match parse_esc(b, i) {
            None => None,
            Some((c, j)) => if i < j && j <= b.len() {
                match parse_str(b, j) {
                    None => None,
                    Some((s, e)) => Some((seq![c] + s, e)),
                }
            } else {
                None
            },
        }
    } else if is_plain_byte(b[i]) {
        match parse_str(b, i + 1) {
            None => None,
            Some((s, e)) => Some((seq![(b[i] as u32) as char] + s, e)),
        }
    } else if 0x80 <= b[i] {
        match parse_utf8(b, i) {
            None => None,
            Some((c, j)) => if i < j && j <= b.len() {
                match parse_str(b, j) {
                    None => None,
                    Some((s, e)) => Some((seq![c] + s, e)),
                }
            } else {
                None
            },
        }
    } else {
        None
    }
}

/// Whether the bytes of `lit` stand at offset `i` of `b`.
pub open spec fn has_lit(b: Seq<u8>, i: int, lit: Seq<u8>) -> bool {
    &&& 0 <= i
    &&& i + lit.len() <= b.len()
    &&& b.subrange(i, i + lit.len()) == lit
}

/// Parses one whole record starting at offset `i`.  Yields the command and
/// the offset at which the next record would begin.
pub open spec fn spec_decode(b: Seq<u8>, i: int) -> Option<(CmdView, int)> {
    if has_lit(b, i, lit_set()) {
        match parse_str(b, i + 24) {
            None => None,
            Some((key, j)) => if has_lit(b, j, lit_value()) {
                match parse_str(b, j + 10) {
                    None => None,
                    Some((value, k)) => if k < b.len() && b[k] == 0x7d {
                        Some((CmdView::SetCmd { key, value }, k + 1))
                    } else {
                        None
                    },
                }
            } else {
                None
            },
        }
    } else if has_lit(b, i, lit_rm()) {
        match parse_str(b, i + 23) {
            None => None,
            Some((key, j)) => if j < b.len() && b[j] == 0x7d {
                Some((CmdView::Rm { key }, j + 1))
            } else {
                None
            },
        }
    } else {
        None
    }
}

/// An escape sequence consumes at least two bytes and stays in bounds.
pub proof fn lemma_parse_esc_bounds(b: Seq<u8>, i: int)
    requires
        parse_esc(b, i) is Some,
    ensures
        i + 2 <= parse_esc(b, i)->Some_0.1 <= b.len(),
        0 <= i,
{
}

/// A multi-byte character consumes at least two bytes and stays in bounds.
pub proof fn lemma_parse_utf8_bounds(b: Seq<u8>, i: int)
    requires
        parse_utf8(b, i) is Some,
    ensures
        i + 2 <= parse_utf8(b, i)->Some_0.1 <= b.len(),
        0 <= i,
{
}

/// A parsed string consumes at least one byte and stays in bounds.
pub proof fn lemma_parse_str_bounds(b: Seq<u8>, i: int)
    requires
        parse_str(b, i) is Some,
    ensures
        i < parse_str(b, i)->Some_0.1 <= b.len(),
        0 <= i,
    decreases b.len() - i,
{
    if b[i] == 0x22 {
    } else if b[i] == 0x5c {
        let (c, j) = parse_esc(b, i)->Some_0;
        lemma_parse_str_bounds(b, j);
    } else if is_plain_byte(b[i]) {
        lemma_parse_str_bounds(b, i + 1);
    } else {
        let (c, j) = parse_utf8(b, i)->Some_0;
        lemma_parse_str_bounds(b, j);
    }
}

/// A parsed record consumes at least one byte and stays in bounds.
pub proof fn lemma_spec_decode_bounds(b: Seq<u8>, i: int)
    requires
        spec_decode(b, i) is Some,
    ensures
        i < spec_decode(b, i)->Some_0.1 <= b.len(),
        0 <= i,
{
    if has_lit(b, i, lit_set()) {
        let (key, j) = parse_str(b, i + 24)->Some_0;
        lemma_parse_str_bounds(b, i + 24);
        let (value, k) = parse_str(b, j + 10)->Some_0;
        lemma_parse_str_bounds(b, j + 10);
    } else {
        let (key, j) = parse_str(b, i + 23)->Some_0;
        lemma_parse_str_bounds(b, i + 23);
    }
}

} // verus!

verus! {

use vstd::arithmetic::div_mod::lemma_fundamental_div_mod;
use vstd::utf8::char_is_scalar;
use vstd::utf8::char_u32_cast;

/// A byte range that equals `pat` as a subrange agrees with it pointwise.
proof fn lemma_bytes_agree(pat: Seq<u8>, b2: Seq<u8>, i2: int)
    requires
        0 <= i2,
        i2 + pat.len() <= b2.len(),
        b2.subrange(i2, i2 + pat.len() as int) == pat,
    ensures
        forall|j: int| i2 <= j < i2 + pat.len() ==> #[trigger] b2[j] == pat[j - i2],
{
    assert forall|j: int| i2 <= j < i2 + pat.len() implies #[trigger] b2[j] == pat[j - i2] by {
        assert(b2.subrange(i2, i2 + pat.len() as int)[j - i2] == b2[j]);
    }
}

/// Reading back the four hex digits of `n` yields `n`.
proof fn lemma_hex4_val(b: Seq<u8>, i: int, n: u32)
    requires
        n < 0x10000,
        0 <= i,
        i + 4 <= b.len(),
        b.subrange(i, i + 4) == hex4(n as int),
    ensures
        has_hex4(b, i),
        hex4_val(b, i) == n,
{
    assert(b[i] == hex4(n as int)[0]) by {
        assert(b.subrange(i, i + 4)[0] == b[i]);
    }
    assert(b[i + 1] == hex4(n as int)[1]) by {
        assert(b.subrange(i, i + 4)[1] == b[i + 1]);
    }
    assert(b[i + 2] == hex4(n as int)[2]) by {
        assert(b.subrange(i, i + 4)[2] == b[i + 2]);
    }
    assert(b[i + 3] == hex4(n as int)[3]) by {
        assert(b.subrange(i, i + 4)[3] == b[i + 3]);
    }
    assert((n / 0x1000 % 0x10) * 0x1000 + (n / 0x100 % 0x10) * 0x100 + (n / 0x10 % 0x10) * 0x10 + n
        % 0x10 == n) by (bit_vector)
        requires
            n < 0x10000,
    ;
}

/// Decoding the escape sequence the encoder emitted for `c` yields `c` back.
#[verifier::rlimit(100)]
proof fn lemma_parse_esc_of_esc_char(b: Seq<u8>, i: int, c: char)
    requires
        !is_plain_char(c),
        0 <= i,
        i + esc_char(c).len() <= b.len(),
        b.subrange(i, i + esc_char(c).len()) == esc_char(c),
    ensures
        parse_esc(b, i) == Some((c, i + esc_char(c).len())),
{
    char_is_scalar(c);
    let u = c as u32;
    let n = esc_char(c).len() as int;
    lemma_bytes_agree(esc_char(c), b, i);
    if c == '"' {
        assert(parse_esc(b, i) == Some((c, i + 2)));
    } else if c == '\\' {
        assert(parse_esc(b, i) == Some((c, i + 2)));
    } else if u < 0x10000 {
        assert(b[i] == 0x5c && b[i + 1] == 0x75);
        assert(b.subrange(i + 2, i + 6) =~= hex4(u as int)) by {
            assert(forall|k: int|
                0 <= k < 4 ==> esc_char(c)[2 + k] == #[trigger] hex4(u as int)[k]);
        }
        lemma_hex4_val(b, i + 2, u);
        assert(!(0xd800 <= u && u < 0xe000));
        char_u32_cast(c, u);
        assert(parse_esc(b, i) == Some((c, i + 6)));
    } else {
        let v = (u - 0x10000) as int;
        let hi = 0xd800 + v / 0x400;
        let lo = 0xdc00 + v % 0x400;
        assert(u <= 0x10ffff);
        assert(0 <= v < 0x100000);
        assert(0 <= v / 0x400 < 0x400 && 0 <= v % 0x400 < 0x400) by (nonlinear_arith)
            requires
                0 <= v < 0x100000,
        ;
        assert(esc_char(c) == seq![0x5cu8, 0x75u8] + hex4(hi) + seq![0x5cu8, 0x75u8] + hex4(lo));
        assert(b[i] == 0x5c && b[i + 1] == 0x75 && b[i + 6] == 0x5c && b[i + 7] == 0x75);
        assert(b.subrange(i + 2, i + 6) =~= hex4(hi)) by {
            assert(forall|k: int| 0 <= k < 4 ==> esc_char(c)[2 + k] == #[trigger] hex4(hi)[k]);
        }
        assert(b.subrange(i + 8, i + 12) =~= hex4(lo)) by {
            assert(forall|k: int| 0 <= k < 4 ==> esc_char(c)[8 + k] == #[trigger] hex4(lo)[k]);
        }
        lemma_hex4_val(b, i + 2, hi as u32);
        lemma_hex4_val(b, i + 8, lo as u32);
        lemma_fundamental_div_mod(v, 0x400);
        assert(0x10000 + (hi - 0xd800) * 0x400 + (lo - 0xdc00) == u);
        char_u32_cast(c, u);
        assert(parse_esc(b, i) == Some((c, i + 12)));
    }
}

/// Decoding the escaped form of `s` followed by a closing quote yields `s`
/// back, consuming exactly through the quote.
#[verifier::rlimit(100)]
proof fn lemma_parse_str_of_esc_str(b: Seq<u8>, i: int, s: Seq<char>)
    requires
        0 <= i,
        i + esc_str(s).len() + 1 <= b.len(),
        b.subrange(i, i + esc_str(s).len() + 1) == esc_str(s) + seq![0x22u8],
    ensures
        parse_str(b, i) == Some((s, i + esc_str(s).len() + 1)),
    decreases s.len(),
{
    let n = esc_str(s).len() as int;
    lemma_bytes_agree(esc_str(s) + seq![0x22u8], b, i);
    if s.len() == 0 {
        assert(b[i] == 0x22);
        assert(parse_str(b, i) == Some((Seq::<char>::empty(), i + 1)));
        assert(s =~= Seq::<char>::empty());
    } else {
        let c = s[0];
        let rest = s.drop_first();
        let m = esc_char(c).len() as int;
        assert(esc_str(s) == esc_char(c) + esc_str(rest));
        assert(forall|k: int|
            0 <= k < m ==> (esc_str(s) + seq![0x22u8])[k] == #[trigger] esc_char(c)[k]);
        assert(b.subrange(i, i + m) =~= esc_char(c));
        assert(b.subrange(i + m, i + esc_str(rest).len() + m + 1) =~= esc_str(rest) + seq![0x22u8])
            by {
            assert(forall|k: int|
                0 <= k < esc_str(rest).len() + 1 ==> (esc_str(s) + seq![0x22u8])[m + k]
                    == #[trigger] (esc_str(rest) + seq![0x22u8])[k]);
        }
        lemma_parse_str_of_esc_str(b, i + m, rest);
        if is_plain_char(c) {
            let u = c as u32;
            assert(b[i] == esc_char(c)[0]);
            assert(b[i] == (c as u32) as u8);
            assert(b[i] == u);
            assert(b[i] != 0x22) by {
                if u == 0x22 {
                    char_u32_cast(c, u);
                    char_u32_cast('"', '"' as u32);
                    assert(c == '"');
                }
            }
            assert(b[i] != 0x5c) by {
                if u == 0x5c {
                    char_u32_cast(c, u);
                    char_u32_cast('\\', '\\' as u32);
                    assert(c == '\\');
                }
            }
            assert(is_plain_byte(b[i]));
            char_u32_cast(c, u);
            assert((b[i] as u32) as char == c);
            assert(seq![c] + rest =~= s);
            assert(parse_str(b, i) == Some((s, i + n + 1)));
        } else {
            lemma_parse_esc_of_esc_char(b, i, c);
            assert(b[i] == 0x5c);
            assert(seq![c] + rest =~= s);
            assert(parse_str(b, i) == Some((s, i + n + 1)));
        }
    }
}

/// The `Set` case of [`lemma_decode_encode`].
#[verifier::rlimit(100)]
proof fn lemma_decode_encode_set(b: Seq<u8>, i: int, key: Seq<char>, value: Seq<char>)
    requires
        0 <= i,
        i + spec_encode(CmdView::SetCmd { key, value }).len() <= b.len(),
        b.subrange(i, i + spec_encode(CmdView::SetCmd { key, value }).len()) == spec_encode(
            CmdView::SetCmd { key, value },
        ),
    ensures
        spec_decode(b, i) == Some(
            (CmdView::SetCmd { key, value }, i + spec_encode(CmdView::SetCmd { key, value }).len()),
        ),
{
    let c = CmdView::SetCmd { key, value };
    let enc = spec_encode(c);
    let n = enc.len() as int;
    lemma_bytes_agree(enc, b, i);
    let ek = esc_str(key).len() as int;
    let ev = esc_str(value).len() as int;
    assert(forall|k: int| 0 <= k < 24 ==> enc[k] == #[trigger] lit_set()[k]);
    assert(b.subrange(i, i + 24) =~= lit_set());
    assert(has_lit(b, i, lit_set()));
    // the key string with its closing quote
    assert(b.subrange(i + 24, i + 24 + ek + 1) =~= esc_str(key) + seq![0x22u8]) by {
        assert(forall|k: int|
            0 <= k < ek + 1 ==> enc[24 + k] == #[trigger] (esc_str(key) + seq![0x22u8])[k]);
    }
    lemma_parse_str_of_esc_str(b, i + 24, key);
    let j = i + 24 + ek + 1;
    assert(forall|k: int| 0 <= k < 10 ==> enc[24 + ek + 1 + k] == #[trigger] lit_value()[k]);
    assert(b.subrange(j, j + 10) =~= lit_value());
    assert(has_lit(b, j, lit_value()));
    assert(b.subrange(j + 10, j + 10 + ev + 1) =~= esc_str(value) + seq![0x22u8]) by {
        assert(forall|k: int|
            0 <= k < ev + 1 ==> enc[24 + ek + 1 + 10 + k] == #[trigger] (esc_str(value)
                + seq![0x22u8])[k]);
    }
    lemma_parse_str_of_esc_str(b, j + 10, value);
    assert(b[j + 10 + ev + 1] == enc[n - 1]);
    assert(enc[n - 1] == 0x7d);
    assert(spec_decode(b, i) == Some((c, i + n)));
}

/// The `Rm` case of [`lemma_decode_encode`].
#[verifier::rlimit(100)]
proof fn lemma_decode_encode_rm(b: Seq<u8>, i: int, key: Seq<char>)
    requires
        0 <= i,
        i + spec_encode(CmdView::Rm { key }).len() <= b.len(),
        b.subrange(i, i + spec_encode(CmdView::Rm { key }).len()) == spec_encode(
            CmdView::Rm { key },
        ),
    ensures
        spec_decode(b, i) == Some((CmdView::Rm { key }, i + spec_encode(CmdView::Rm { key }).len())),
{
    let c = CmdView::Rm { key };
    let enc = spec_encode(c);
    let n = enc.len() as int;
    lemma_bytes_agree(enc, b, i);
    let ek = esc_str(key).len() as int;
    assert(forall|k: int| 0 <= k < 23 ==> enc[k] == #[trigger] lit_rm()[k]);
    assert(b.subrange(i, i + 23) =~= lit_rm());
    assert(has_lit(b, i, lit_rm()));
    // a Rm record does not open like a Set record
    assert(!has_lit(b, i, lit_set())) by {
        assert(b[i + 12] == lit_rm()[12]);
        if has_lit(b, i, lit_set()) {
            assert(b.subrange(i, i + 24)[12] == lit_set()[12]);
        }
    }
    assert(b.subrange(i + 23, i + 23 + ek + 1) =~= esc_str(key) + seq![0x22u8]) by {
        assert(forall|k: int|
            0 <= k < ek + 1 ==> enc[23 + k] == #[trigger] (esc_str(key) + seq![0x22u8])[k]);
    }
    lemma_parse_str_of_esc_str(b, i + 23, key);
    assert(b[i + 23 + ek + 1] == enc[n - 1]);
    assert(enc[n - 1] == 0x7d);
    assert(spec_decode(b, i) == Some((c, i + n)));
}

/// Round trip: decoding an encoded record yields the record back, consuming
/// exactly its bytes, no matter what surrounds it.
pub proof fn lemma_decode_encode(b: Seq<u8>, i: int, c: CmdView)
    requires
        0 <= i,
        i + spec_encode(c).len() <= b.len(),
        b.subrange(i, i + spec_encode(c).len()) == spec_encode(c),
    ensures
        spec_decode(b, i) == Some((c, i + spec_encode(c).len())),
{
    match c {
        CmdView::SetCmd { key, value } => lemma_decode_encode_set(b, i, key, value),
        CmdView::Rm { key } => lemma_decode_encode_rm(b, i, key),
    }
}

} // verus!

verus! {

/// Framing for escape sequences: the result depends only on the bytes the
/// escape consumes, wherever they stand.
#[verifier::rlimit(100)]
proof fn lemma_parse_esc_framing(b: Seq<u8>, i: int, b2: Seq<u8>, i2: int)
    requires
        parse_esc(b, i) is Some,
        0 <= i2,
        i2 + (parse_esc(b, i)->Some_0.1 - i) <= b2.len(),
        b2.subrange(i2, i2 + (parse_esc(b, i)->Some_0.1 - i)) == b.subrange(
            i,
            parse_esc(b, i)->Some_0.1,
        ),
    ensures
        parse_esc(b2, i2) == Some((parse_esc(b, i)->Some_0.0, i2 + (parse_esc(b, i)->Some_0.1 - i))),
{
    let (c, j) = parse_esc(b, i)->Some_0;
    let n = j - i;
    lemma_parse_esc_bounds(b, i);
    lemma_bytes_agree(b.subrange(i, j), b2, i2);
    assert(forall|k: int| 0 <= k < n ==> b.subrange(i, j)[k] == b[i + k]);
    assert(b2[i2] == b[i] && b2[i2 + 1] == b[i + 1]);
    if b[i + 1] == 0x75 {
        if n == 6 {
            assert(b2[i2 + 2] == b[i + 2] && b2[i2 + 3] == b[i + 3] && b2[i2 + 4] == b[i + 4]
                && b2[i2 + 5] == b[i + 5]);
            assert(has_hex4(b2, i2 + 2) && hex4_val(b2, i2 + 2) == hex4_val(b, i + 2));
        } else {
            assert(b2[i2 + 2] == b[i + 2] && b2[i2 + 3] == b[i + 3] && b2[i2 + 4] == b[i + 4]
                && b2[i2 + 5] == b[i + 5]);
            assert(b2[i2 + 6] == b[i + 6] && b2[i2 + 7] == b[i + 7]);
            assert(b2[i2 + 8] == b[i + 8] && b2[i2 + 9] == b[i + 9] && b2[i2 + 10] == b[i + 10]
                && b2[i2 + 11] == b[i + 11]);
            assert(has_hex4(b2, i2 + 2) && hex4_val(b2, i2 + 2) == hex4_val(b, i + 2));
            assert(has_hex4(b2, i2 + 8) && hex4_val(b2, i2 + 8) == hex4_val(b, i + 8));
        }
    }
}

/// Framing for multi-byte characters: the result depends only on the bytes
/// the character consumes, wherever they stand.
proof fn lemma_parse_utf8_framing(b: Seq<u8>, i: int, b2: Seq<u8>, i2: int)
    requires
        parse_utf8(b, i) is Some,
        0 <= i2,
        i2 + (parse_utf8(b, i)->Some_0.1 - i) <= b2.len(),
        b2.subrange(i2, i2 + (parse_utf8(b, i)->Some_0.1 - i)) == b.subrange(
            i,
            parse_utf8(b, i)->Some_0.1,
        ),
    ensures
        parse_utf8(b2, i2) == Some(
            (parse_utf8(b, i)->Some_0.0, i2 + (parse_utf8(b, i)->Some_0.1 - i)),
        ),
{
    let (c, j) = parse_utf8(b, i)->Some_0;
    let n = j - i;
    lemma_parse_utf8_bounds(b, i);
    lemma_bytes_agree(b.subrange(i, j), b2, i2);
    assert(forall|k: int| 0 <= k < n ==> b.subrange(i, j)[k] == b[i + k]);
    assert(b2[i2] == b[i] && b2[i2 + 1] == b[i + 1]);
    if n == 3 {
        assert(b2[i2 + 2] == b[i + 2]);
    }
    if n == 4 {
        assert(b2[i2 + 2] == b[i + 2] && b2[i2 + 3] == b[i + 3]);
    }
}

/// Framing for strings: the result depends only on the bytes the string
/// consumes, wherever they stand.
#[verifier::rlimit(100)]
proof fn lemma_parse_str_framing(b: Seq<u8>, i: int, b2: Seq<u8>, i2: int)
    requires
        parse_str(b, i) is Some,
        0 <= i2,
        i2 + (parse_str(b, i)->Some_0.1 - i) <= b2.len(),
        b2.subrange(i2, i2 + (parse_str(b, i)->Some_0.1 - i)) == b.subrange(
            i,
            parse_str(b, i)->Some_0.1,
        ),
    ensures
        parse_str(b2, i2) == Some((parse_str(b, i)->Some_0.0, i2 + (parse_str(b, i)->Some_0.1 - i))),
    decreases parse_str(b, i)->Some_0.1 - i,
{
    let (s, e) = parse_str(b, i)->Some_0;
    let n = e - i;
    lemma_parse_str_bounds(b, i);
    lemma_bytes_agree(b.subrange(i, e), b2, i2);
    assert(forall|k: int| 0 <= k < n ==> b.subrange(i, e)[k] == b[i + k]);
    assert(b2[i2] == b[i]);
    if b[i] == 0x22 {
    } else if b[i] == 0x5c {
        let (c, j) = parse_esc(b, i)->Some_0;
        lemma_parse_esc_bounds(b, i);
        lemma_parse_str_bounds(b, j);
        assert(b2.subrange(i2, i2 + (j - i)) =~= b.subrange(i, j));
        lemma_parse_esc_framing(b, i, b2, i2);
        assert(b2.subrange(i2 + (j - i), i2 + n) =~= b.subrange(j, e));
        lemma_parse_str_framing(b, j, b2, i2 + (j - i));
    } else if is_plain_byte(b[i]) {
        assert(b2.subrange(i2 + 1, i2 + n) =~= b.subrange(i + 1, e));
        lemma_parse_str_framing(b, i + 1, b2, i2 + 1);
    } else {
        let (c, j) = parse_utf8(b, i)->Some_0;
        lemma_parse_utf8_bounds(b, i);
        lemma_parse_str_bounds(b, j);
        assert(b2.subrange(i2, i2 + (j - i)) =~= b.subrange(i, j));
        lemma_parse_utf8_framing(b, i, b2, i2);
        assert(b2.subrange(i2 + (j - i), i2 + n) =~= b.subrange(j, e));
        lemma_parse_str_framing(b, j, b2, i2 + (j - i));
    }
}

/// The `Set` case of [`lemma_decode_framing`].
#[verifier::rlimit(100)]
#[verifier::spinoff_prover]
proof fn lemma_decode_framing_set(b: Seq<u8>, i: int, b2: Seq<u8>, i2: int)
    requires
        spec_decode(b, i) is Some,
        has_lit(b, i, lit_set()),
        0 <= i2,
        i2 + (spec_decode(b, i)->Some_0.1 - i) <= b2.len(),
        b2.subrange(i2, i2 + (spec_decode(b, i)->Some_0.1 - i)) == b.subrange(
            i,
            spec_decode(b, i)->Some_0.1,
        ),
    ensures
        spec_decode(b2, i2) == Some(
            (spec_decode(b, i)->Some_0.0, i2 + (spec_decode(b, i)->Some_0.1 - i)),
        ),
{
    let (c, e) = spec_decode(b, i)->Some_0;
    let n = e - i;
    lemma_spec_decode_bounds(b, i);
    lemma_bytes_agree(b.subrange(i, e), b2, i2);
    assert(forall|k: int| 0 <= k < n ==> b.subrange(i, e)[k] == b[i + k]);
    if has_lit(b, i, lit_set()) {
        let (key, j) = parse_str(b, i + 24)->Some_0;
        lemma_parse_str_bounds(b, i + 24);
        let (value, k) = parse_str(b, j + 10)->Some_0;
        lemma_parse_str_bounds(b, j + 10);
        assert(b2.subrange(i2, i2 + 24) =~= lit_set()) by {
            assert(forall|q: int| 0 <= q < 24 ==> b.subrange(i, i + 24)[q] == #[trigger] b[i + q]);
            assert(forall|q: int|
                0 <= q < 24 ==> b2.subrange(i2, i2 + 24)[q] == #[trigger] b2[i2 + q]);
        }
        assert(has_lit(b2, i2, lit_set()));
        assert(b2.subrange(i2 + 24, i2 + 24 + (j - (i + 24))) =~= b.subrange(i + 24, j));
        lemma_parse_str_framing(b, i + 24, b2, i2 + 24);
        let j2 = i2 + (j - i);
        assert(b2.subrange(j2, j2 + 10) =~= lit_value()) by {
            assert(forall|q: int|
                0 <= q < 10 ==> b.subrange(j, j + 10)[q] == #[trigger] b[j + q]);
            assert(forall|q: int|
                0 <= q < 10 ==> b2.subrange(j2, j2 + 10)[q] == #[trigger] b2[j2 + q]);
            assert(b.subrange(j, j + 10) =~= lit_value());
        }
        assert(has_lit(b2, j2, lit_value()));
        assert(b2.subrange(j2 + 10, j2 + 10 + (k - (j + 10))) =~= b.subrange(j + 10, k));
        lemma_parse_str_framing(b, j + 10, b2, j2 + 10);
        assert(b2[i2 + (k - i)] == b[k]);
        assert(spec_decode(b2, i2) == Some((c, i2 + n)));
    }
}

/// The `Rm` case of [`lemma_decode_framing`].
#[verifier::rlimit(100)]
#[verifier::spinoff_prover]
proof fn lemma_decode_framing_rm(b: Seq<u8>, i: int, b2: Seq<u8>, i2: int)
    requires
        spec_decode(b, i) is Some,
        !has_lit(b, i, lit_set()),
        0 <= i2,
        i2 + (spec_decode(b, i)->Some_0.1 - i) <= b2.len(),
        b2.subrange(i2, i2 + (spec_decode(b, i)->Some_0.1 - i)) == b.subrange(
            i,
            spec_decode(b, i)->Some_0.1,
        ),
    ensures
        spec_decode(b2, i2) == Some(
            (spec_decode(b, i)->Some_0.0, i2 + (spec_decode(b, i)->Some_0.1 - i)),
        ),
{
    let (c, e) = spec_decode(b, i)->Some_0;
    let n = e - i;
    lemma_spec_decode_bounds(b, i);
    lemma_bytes_agree(b.subrange(i, e), b2, i2);
    assert(forall|k: int| 0 <= k < n ==> b.subrange(i, e)[k] == b[i + k]);
    let (key, j) = parse_str(b, i + 23)->Some_0;
    lemma_parse_str_bounds(b, i + 23);
    assert(b2.subrange(i2, i2 + 23) =~= lit_rm()) by {
        assert(forall|q: int| 0 <= q < 23 ==> b.subrange(i, i + 23)[q] == #[trigger] b[i + q]);
        assert(forall|q: int|
            0 <= q < 23 ==> b2.subrange(i2, i2 + 23)[q] == #[trigger] b2[i2 + q]);
        assert(b.subrange(i, i + 23) =~= lit_rm());
    }
    assert(has_lit(b2, i2, lit_rm()));
    assert(!has_lit(b2, i2, lit_set())) by {
        assert(b2[i2 + 12] == b[i + 12]);
        assert(b.subrange(i, i + 23)[12] == b[i + 12]);
        if has_lit(b2, i2, lit_set()) {
            assert(b2.subrange(i2, i2 + 24)[12] == lit_set()[12]);
        }
        if has_lit(b, i, lit_set()) {
            assert(b.subrange(i, i + 24)[12] == lit_set()[12]);
        }
    }
    assert(b2.subrange(i2 + 23, i2 + 23 + (j - (i + 23))) =~= b.subrange(i + 23, j));
    lemma_parse_str_framing(b, i + 23, b2, i2 + 23);
    assert(b2[i2 + (j - i)] == b[j]);
    assert(spec_decode(b2, i2) == Some((c, i2 + n)));
}

/// Framing for whole records: a record's decoding depends only on the bytes
/// it consumes, wherever they stand.  This is what lets appends leave earlier
/// records untouched and lets compaction copy raw record bytes.
pub proof fn lemma_decode_framing(b: Seq<u8>, i: int, b2: Seq<u8>, i2: int)
    requires
        spec_decode(b, i) is Some,
        0 <= i2,
        i2 + (spec_decode(b, i)->Some_0.1 - i) <= b2.len(),
        b2.subrange(i2, i2 + (spec_decode(b, i)->Some_0.1 - i)) == b.subrange(
            i,
            spec_decode(b, i)->Some_0.1,
        ),
    ensures
        spec_decode(b2, i2) == Some(
            (spec_decode(b, i)->Some_0.0, i2 + (spec_decode(b, i)->Some_0.1 - i)),
        ),
{
    if has_lit(b, i, lit_set()) {
        lemma_decode_framing_set(b, i, b2, i2);
    } else {
        lemma_decode_framing_rm(b, i, b2, i2);
    }
}

} // verus!

verus! {

/// Relies on char::from_u32: yields the character with scalar value `v`, or
/// `None` when `v` is a surrogate code point or above the Unicode maximum.
pub assume_specification[ char::from_u32 ](v: u32) -> (r: Option<char>)
    ensures
        r is Some <==> (v < 0xd800 || (0xe000 <= v && v <= 0x10ffff)),
        r matches Some(c) ==> c as u32 == v,
;

/// Relies on String::push: appends one character to the string.
pub assume_specification[ String::push ](s: &mut String, c: char)
    ensures
        final(s)@ == old(s)@ + seq![c],
;

/// Exec counterpart of [`hex_val`]; 16 marks a byte that is no hex digit.
fn hex_val_exec(b: u8) -> (r: u32)
    ensures
        r == hex_val(b),
{
    if 0x30 <= b && b <= 0x39 {
        (b - 0x30) as u32
    } else if 0x61 <= b && b <= 0x66 {
        (b - 0x57) as u32
    } else if 0x41 <= b && b <= 0x46 {
        (b - 0x37) as u32
    } else {
        16
    }
}

/// Whether the bytes of `lit` stand at offset `i` of `b`; see [`has_lit`].
fn has_lit_at(b: &Vec<u8>, i: usize, lit: &Vec<u8>) -> (r: bool)
    ensures
        r == has_lit(b@, i as int, lit@),
{
    let blen = b.len();
    let n = lit.len();
    if blen < n || i > blen - n {
        return false;
    }
    let mut k: usize = 0;
    while k < n
        invariant
            n == lit@.len(),
            blen == b@.len(),
            i + n <= blen,
            k <= n,
            forall|q: int| 0 <= q < k ==> b@[i + q] == #[trigger] lit@[q],
        decreases n - k,
    {
        if b[i + k] != lit[k] {
            proof {
                assert(!has_lit(b@, i as int, lit@)) by {
                    if has_lit(b@, i as int, lit@) {
                        assert(b@.subrange(i as int, i + lit@.len())[k as int] == b@[i + k]);
                    }
                }
            }
            return false;
        }
        k = k + 1;
    }
    proof {
        assert(b@.subrange(i as int, i + lit@.len()) =~= lit@);
    }
    true
}

/// The bytes of [`lit_set`] as a vector.
fn lit_set_vec() -> (r: Vec<u8>)
    ensures
        r@ == lit_set(),
{
    let mut v: Vec<u8> = Vec::new();
    v.push(0x7bu8);
    v.push(0x22u8);
    v.push(0x63u8);
    v.push(0x6fu8);
    v.push(0x6du8);
    v.push(0x6du8);
    v.push(0x61u8);
    v.push(0x6eu8);
    v.push(0x64u8);
    v.push(0x22u8);
    v.push(0x3au8);
    v.push(0x22u8);
    v.push(0x53u8);
    v.push(0x65u8);
    v.push(0x74u8);
    v.push(0x22u8);
    v.push(0x2cu8);
    v.push(0x22u8);
    v.push(0x6bu8);
    v.push(0x65u8);
    v.push(0x79u8);
    v.push(0x22u8);
    v.push(0x3au8);
    v.push(0x22u8);
    proof {
        assert(v@ =~= lit_set());
    }
    v
}

/// The bytes of [`lit_rm`] as a vector.
fn lit_rm_vec() -> (r: Vec<u8>)
    ensures
        r@ == lit_rm(),
{
    let mut v: Vec<u8> = Vec::new();
    v.push(0x7bu8);
    v.push(0x22u8);
    v.push(0x63u8);
    v.push(0x6fu8);
    v.push(0x6du8);
    v.push(0x6du8);
    v.push(0x61u8);
    v.push(0x6eu8);
    v.push(0x64u8);
    v.push(0x22u8);
    v.push(0x3au8);
    v.push(0x22u8);
    v.push(0x52u8);
    v.push(0x6du8);
    v.push(0x22u8);
    v.push(0x2cu8);
    v.push(0x22u8);
    v.push(0x6bu8);
    v.push(0x65u8);
    v.push(0x79u8);
    v.push(0x22u8);
    v.push(0x3au8);
    v.push(0x22u8);
    proof {
        assert(v@ =~= lit_rm());
    }
    v
}

/// The bytes of [`lit_value`] as a vector.
fn lit_value_vec() -> (r: Vec<u8>)
    ensures
        r@ == lit_value(),
{
    let mut v: Vec<u8> = Vec::new();
    v.push(0x2cu8);
    v.push(0x22u8);
    v.push(0x76u8);
    v.push(0x61u8);
    v.push(0x6cu8);
    v.push(0x75u8);
    v.push(0x65u8);
    v.push(0x22u8);
    v.push(0x3au8);
    v.push(0x22u8);
    proof {
        assert(v@ =~= lit_value());
    }
    v
}

/// Exec counterpart of [`parse_esc`].
#[verifier::rlimit(100)]
fn parse_esc_exec(b: &Vec<u8>, i: usize) -> (r: Option<(char, usize)>)
    ensures
        match r {
            Some((c, j)) => parse_esc(b@, i as int) == Some((c, j as int)),
            None => parse_esc(b@, i as int) is None,
        },
{
    if i >= b.len() || b.len() - i < 2 || b[i] != 0x5c {
        return None;
    }
    let e = b[i + 1];
    if e == 0x22 {
        Some(('"', i + 2))
    } else if e == 0x5c {
        Some(('\\', i + 2))
    } else if e == 0x2f {
        Some(('/', i + 2))
    } else if e == 0x62 {
        Some(('\u{8}', i + 2))
    } else if e == 0x74 {
        Some(('\t', i + 2))
    } else if e == 0x6e {
        Some(('\n', i + 2))
    } else if e == 0x66 {
        Some(('\u{c}', i + 2))
    } else if e == 0x72 {
        Some(('\r', i + 2))
    } else if e == 0x75 {
        if b.len() - i < 6 {
            return None;
        }
        let d0 = hex_val_exec(b[i + 2]);
        let d1 = hex_val_exec(b[i + 3]);
        let d2 = hex_val_exec(b[i + 4]);
        let d3 = hex_val_exec(b[i + 5]);
        if d0 == 16 || d1 == 16 || d2 == 16 || d3 == 16 {
            return None;
        }
        let v = d0 * 0x1000 + d1 * 0x100 + d2 * 0x10 + d3;
        assert(v == hex4_val(b@, i + 2));
        if 0xd800 <= v && v < 0xdc00 {
            if b.len() - i < 12 || b[i + 6] != 0x5c || b[i + 7] != 0x75 {
                return None;
            }
            let e0 = hex_val_exec(b[i + 8]);
            let e1 = hex_val_exec(b[i + 9]);
            let e2 = hex_val_exec(b[i + 10]);
            let e3 = hex_val_exec(b[i + 11]);
            if e0 == 16 || e1 == 16 || e2 == 16 || e3 == 16 {
                return None;
            }
            let w = e0 * 0x1000 + e1 * 0x100 + e2 * 0x10 + e3;
            assert(w == hex4_val(b@, i + 8));
            if 0xdc00 <= w && w < 0xe000 {
                let code = 0x10000 + (v - 0xd800) * 0x400 + (w - 0xdc00);
                match char::from_u32(code) {
                    Some(c) => {
                        proof {
                            vstd::utf8::char_u32_cast(c, code);
                        }
                        Some((c, i + 12))
                    },
                    None => {
                        proof {
                            assert(false);
                        }
                        None
                    },
                }
            } else {
                None
            }
        } else if 0xdc00 <= v && v < 0xe000 {
            None
        } else {
            match char::from_u32(v) {
                Some(c) => {
                    proof {
                        vstd::utf8::char_u32_cast(c, v);
                    }
                    Some((c, i + 6))
                },
                None => {
                    proof {
                        assert(false);
                    }
                    None
                },
            }
        }
    } else {
        None
    }
}

/// Exec counterpart of [`parse_utf8`].
#[verifier::rlimit(100)]
fn parse_utf8_exec(b: &Vec<u8>, i: usize) -> (r: Option<(char, usize)>)
    ensures
        match r {
            Some((c, j)) => parse_utf8(b@, i as int) == Some((c, j as int)),
            None => parse_utf8(b@, i as int) is None,
        },
{
    let blen = b.len();
    if i >= blen {
        return None;
    }
    let b1 = b[i];
    if 0xc0 <= b1 && b1 <= 0xdf {
        if blen - i < 2 {
            return None;
        }
        let b2 = b[i + 1];
        if !(0x80 <= b2 && b2 <= 0xbf) {
            return None;
        }
        let v = (((b1 & 0x1f) as u32) << 6u32) | ((b2 & 0x3f) as u32);
        if !(0x80 <= v && v <= 0x7ff) {
            return None;
        }
        match char::from_u32(v) {
            Some(c) => {
                proof {
                    vstd::utf8::char_u32_cast(c, v);
                }
                Some((c, i + 2))
            },
            None => {
                proof {
                    assert(false);
                }
                None
            },
        }
    } else if 0xe0 <= b1 && b1 <= 0xef {
        if blen - i < 3 {
            return None;
        }
        let b2 = b[i + 1];
        let b3 = b[i + 2];
        if !(0x80 <= b2 && b2 <= 0xbf) || !(0x80 <= b3 && b3 <= 0xbf) {
            return None;
        }
        let v = (((b1 & 0x0f) as u32) << 12u32) | (((b2 & 0x3f) as u32) << 6u32) | ((b3
            & 0x3f) as u32);
        if !(0x800 <= v && v <= 0xffff) || (0xd800 <= v && v <= 0xdfff) {
            return None;
        }
        match char::from_u32(v) {
            Some(c) => {
                proof {
                    vstd::utf8::char_u32_cast(c, v);
                }
                Some((c, i + 3))
            },
            None => {
                proof {
                    assert(false);
                }
                None
            },
        }
    } else if 0xf0 <= b1 && b1 <= 0xf7 {
        if blen - i < 4 {
            return None;
        }
        let b2 = b[i + 1];
        let b3 = b[i + 2];
        let b4 = b[i + 3];
        if !(0x80 <= b2 && b2 <= 0xbf) || !(0x80 <= b3 && b3 <= 0xbf) || !(0x80 <= b4 && b4
            <= 0xbf) {
            return None;
        }
        let v = (((b1 & 0x07) as u32) << 18u32) | (((b2 & 0x3f) as u32) << 12u32) | (((b3
            & 0x3f) as u32) << 6u32) | ((b4 & 0x3f) as u32);
        if !(0x10000 <= v && v <= 0x10ffff) {
            return None;
        }
        match char::from_u32(v) {
            Some(c) => {
                proof {
                    vstd::utf8::char_u32_cast(c, v);
                }
                Some((c, i + 4))
            },
            None => {
                proof {
                    assert(false);
                }
                None
            },
        }
    } else {
        None
    }
}

/// Exec counterpart of [`parse_str`]: decodes a string body into a `String`.
#[verifier::rlimit(100)]
fn parse_str_exec(b: &Vec<u8>, start: usize) -> (r: Option<(String, usize)>)
    ensures
        match r {
            Some((s, e)) => parse_str(b@, start as int) == Some((s@, e as int)),
            None => parse_str(b@, start as int) is None,
        },
{
    let mut out = String::new();
    let mut i = start;
    loop
        invariant
            parse_str(b@, start as int) is Some <==> parse_str(b@, i as int) is Some,
            parse_str(b@, i as int) matches Some((t, e)) ==> parse_str(b@, start as int) == Some(
                (out@ + t, e),
            ),
            i >= start,
        decreases b@.len() - i,
    {
        if i >= b.len() {
            return None;
        }
        let c = b[i];
        if c == 0x22 {
            proof {
                assert(parse_str(b@, i as int) == Some((Seq::<char>::empty(), i + 1)));
                assert(out@ + Seq::<char>::empty() =~= out@);
            }
            return Some((out, i + 1));
        }
        if c == 0x5c {
            match parse_esc_exec(b, i) {
                None => {
                    return None;
                },
                Some((ch, j)) => {
                    proof {
                        lemma_parse_esc_bounds(b@, i as int);
                        let r2 = parse_str(b@, j as int);
                        if r2 is Some {
                            let (t2, e2) = r2->Some_0;
                            assert(parse_str(b@, i as int) == Some((seq![ch] + t2, e2)));
                            assert(out@ + (seq![ch] + t2) =~= (out@ + seq![ch]) + t2);
                            assert(out@.push(ch) =~= out@ + seq![ch]);
                        }
                    }
                    out.push(ch);
                    i = j;
                },
            }
        } else if 0x20 <= c && c <= 0x7f {
            let ch = match char::from_u32(c as u32) {
                Some(ch) => ch,
                None => {
                    proof {
                        assert(false);
                    }
                    return None;
                },
            };
            proof {
                assert(is_plain_byte(b@[i as int]));
                assert((b@[i as int] as u32) as char == ch) by {
                    vstd::utf8::char_u32_cast(ch, c as u32);
                }
                let r2 = parse_str(b@, i + 1);
                if r2 is Some {
                    let (t2, e2) = r2->Some_0;
                    assert(parse_str(b@, i as int) == Some((seq![ch] + t2, e2)));
                    assert(out@ + (seq![ch] + t2) =~= (out@ + seq![ch]) + t2);
                    assert(out@.push(ch) =~= out@ + seq![ch]);
                }
            }
            out.push(ch);
            i = i + 1;
        } else if c >= 0x80 {
            match parse_utf8_exec(b, i) {
                None => {
                    return None;
                },
                Some((ch, j)) => {
                    proof {
                        lemma_parse_utf8_bounds(b@, i as int);
                        let r2 = parse_str(b@, j as int);
                        if r2 is Some {
                            let (t2, e2) = r2->Some_0;
                            assert(parse_str(b@, i as int) == Some((seq![ch] + t2, e2)));
                            assert(out@ + (seq![ch] + t2) =~= (out@ + seq![ch]) + t2);
                            assert(out@.push(ch) =~= out@ + seq![ch]);
                        }
                    }
                    out.push(ch);
                    i = j;
                },
            }
        } else {
            return None;
        }
    }
}

/// Decodes one record starting at offset `start`.  Yields the command and the
/// offset at which the next record begins, exactly as [`spec_decode`] says.
pub fn decode_one(b: &Vec<u8>, start: usize) -> (r: Option<(Command, usize)>)
    ensures
        match r {
            Some((c, e)) => spec_decode(b@, start as int) == Some((c@, e as int)) && start < e <= b@.len(),
            None => spec_decode(b@, start as int) is None,
        },
{
    let blen = b.len();
    let ls = lit_set_vec();
    if has_lit_at(b, start, &ls) {
        proof {
            assert(lit_set().len() == 24);
            assert(start + 24 <= blen);
        }
        match parse_str_exec(b, start + 24) {
            None => None,
            Some((key, j)) => {
                let lv = lit_value_vec();
                if has_lit_at(b, j, &lv) {
                    match parse_str_exec(b, j + 10) {
                        None => None,
                        Some((value, k)) => {
                            if k < b.len() && b[k] == 0x7d {
                                proof {
                                    lemma_parse_str_bounds(b@, start + 24);
                                    lemma_parse_str_bounds(b@, j + 10);
                                }
                                Some((Command::SetCmd { key, value }, k + 1))
                            } else {
                                None
                            }
                        },
                    }
                } else {
                    None
                }
            },
        }
    } else {
        let lr = lit_rm_vec();
        if has_lit_at(b, start, &lr) {
            proof {
                assert(lit_rm().len() == 23);
                assert(start + 23 <= blen);
            }
            match parse_str_exec(b, start + 23) {
                None => None,
                Some((key, j)) => {
                    if j < b.len() && b[j] == 0x7d {
                        proof {
                            lemma_parse_str_bounds(b@, start + 23);
                        }
                        Some((Command::Rm { key }, j + 1))
                    } else {
                        None
                    }
                },
            }
        } else {
            None
        }
    }
}

} // verus!
