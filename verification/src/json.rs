//! A small JSON document model with a verified serializer and parser.
//!
//! Text is handled as raw bytes (the UTF-8 form of the document); a
//! number keeps the text of its token verbatim and is interpreted only
//! where a schema asks for an integer; object members keep the order in
//! which they were written.

use vstd::prelude::*;
use vstd::arithmetic::div_mod::lemma_fundamental_div_mod;

verus! {

/// The byte '"'.
pub const B_QUOTE: u8 = 34;

/// The byte '\'.
pub const B_BACKSLASH: u8 = 92;

/// The byte '{'.
pub const B_LBRACE: u8 = 123;

/// The byte '}'.
pub const B_RBRACE: u8 = 125;

/// The byte '['.
pub const B_LBRACK: u8 = 91;

/// The byte ']'.
pub const B_RBRACK: u8 = 93;

/// The byte ','.
pub const B_COMMA: u8 = 44;

/// The byte ':'.
pub const B_COLON: u8 = 58;

/// The byte '-'.
pub const B_MINUS: u8 = 45;

/// The byte '0'.
pub const B_ZERO: u8 = 48;

/// The byte 'u'.
pub const B_LOW_U: u8 = 117;

/// The byte '/'.
pub const B_SLASH: u8 = 47;

/// The byte '.'.
pub const B_DOT: u8 = 46;

/// The byte '+'.
pub const B_PLUS: u8 = 43;

/// The byte 'e'.
pub const B_LOW_E: u8 = 101;

/// The byte 'E'.
pub const B_UP_E: u8 = 69;

/// Mathematical model of a JSON value.
#[verifier::ext_equal]
pub enum JsonV {
    Null,
    Bool(bool),
    Num(Seq<u8>),
    Str(Seq<u8>),
    Arr(Seq<JsonV>),
    Obj(Seq<(Seq<u8>, JsonV)>),
}

/// Every number of the document holds a valid number token.
pub open spec fn wf_num(j: JsonV) -> bool
    decreases j,
{
    match j {
        JsonV::Null => true,
        JsonV::Bool(_) => true,
        JsonV::Num(lex) => is_number_lexeme(lex),
        JsonV::Str(_) => true,
        JsonV::Arr(es) => forall|i: int| 0 <= i < es.len() ==> wf_num(#[trigger] es[i]),
        JsonV::Obj(ms) => forall|i: int| 0 <= i < ms.len() ==> wf_num((#[trigger] ms[i]).1),
    }
}

/// A JSON value as held at run time.
#[derive(Debug, PartialEq, Eq)]
pub enum Json {
    Null,
    Bool(bool),
    Num(Vec<u8>),
    Str(Vec<u8>),
    Arr(Vec<Json>),
    Obj(Vec<(Vec<u8>, Json)>),
}

impl Json {
    /// The mathematical value this run-time value stands for.
    pub open spec fn jv(self) -> JsonV
        decreases self,
    {
        match self {
            Json::Null => JsonV::Null,
            Json::Bool(b) => JsonV::Bool(b),
            Json::Num(n) => JsonV::Num(n@),
            Json::Str(s) => JsonV::Str(s@),
            Json::Arr(elems) => JsonV::Arr(jv_seq(elems@)),
            Json::Obj(members) => JsonV::Obj(jv_members(members@)),
        }
    }
}

/// The mathematical values of a run-time element sequence.
pub open spec fn jv_seq(es: Seq<Json>) -> Seq<JsonV>
    decreases es,
{
    Seq::new(es.len(), |i: int| if 0 <= i < es.len() { es[i].jv() } else { JsonV::Null })
}

/// The mathematical values of a run-time member sequence.
pub open spec fn jv_members(ms: Seq<(Vec<u8>, Json)>) -> Seq<(Seq<u8>, JsonV)>
    decreases ms,
{
    Seq::new(
        ms.len(),
        |i: int|
            if 0 <= i < ms.len() {
                (ms[i].0@, ms[i].1.jv())
            } else {
                (Seq::empty(), JsonV::Null)
            },
    )
}

// ----------------------------------------------------------------------
// Serialization: the document text of a value.
// ----------------------------------------------------------------------

/// The text "null".
pub open spec fn ser_null() -> Seq<u8> {
    seq![110u8, 117u8, 108u8, 108u8]
}

/// The text "true".
pub open spec fn ser_true() -> Seq<u8> {
    seq![116u8, 114u8, 117u8, 101u8]
}

/// The text "false".
pub open spec fn ser_false() -> Seq<u8> {
    seq![102u8, 97u8, 108u8, 115u8, 101u8]
}

/// The lower-case hexadecimal digit of a value below 16.
pub open spec fn hex_digit(n: nat) -> u8 {
    if n < 10 {
        (B_ZERO + n) as u8
    } else {
        (87 + n) as u8
    }
}

/// How one byte of string content appears in the document: quotes and
/// backslashes get a backslash escape, control bytes a `\u00XX` escape,
/// every other byte stands for itself.
pub open spec fn esc_byte(b: u8) -> Seq<u8> {
    if b == B_QUOTE {
        seq![B_BACKSLASH, B_QUOTE]
    } else if b == B_BACKSLASH {
        seq![B_BACKSLASH, B_BACKSLASH]
    } else if b < 32 {
        seq![B_BACKSLASH, B_LOW_U, B_ZERO, B_ZERO, hex_digit((b / 16) as nat), hex_digit((b % 16) as nat)]
    } else {
        seq![b]
    }
}

/// The escaped form of a whole string content.
pub open spec fn esc_bytes(s: Seq<u8>) -> Seq<u8>
    decreases s.len(),
{
    if s.len() == 0 {
        Seq::empty()
    } else {
        esc_byte(s[0]) + esc_bytes(s.drop_first())
    }
}

/// A string literal: escaped content between two quotes.
pub open spec fn ser_str(s: Seq<u8>) -> Seq<u8> {
    seq![B_QUOTE] + esc_bytes(s) + seq![B_QUOTE]
}

/// The document text of a value, with no whitespace.
pub open spec fn ser_val(j: JsonV) -> Seq<u8>
    decreases j, 0int,
{
    match j {
        JsonV::Null => ser_null(),
        JsonV::Bool(b) => if b {
            ser_true()
        } else {
            ser_false()
        },
        JsonV::Num(lex) => lex,
        JsonV::Str(s) => ser_str(s),
        JsonV::Arr(es) => seq![B_LBRACK] + ser_elems(es) + seq![B_RBRACK],
        JsonV::Obj(ms) => seq![B_LBRACE] + ser_members(ms) + seq![B_RBRACE],
    }
}

/// The comma-separated texts of array elements.
pub open spec fn ser_elems(es: Seq<JsonV>) -> Seq<u8>
    decreases es, 1int,
{
    if es.len() == 0 {
        Seq::empty()
    } else if es.len() == 1 {
        ser_val(es[0])
    } else {
        ser_val(es[0]) + seq![B_COMMA] + ser_elems(es.drop_first())
    }
}

/// The comma-separated texts of object members, each a quoted key, a
/// colon, and a value.
pub open spec fn ser_member(m: (Seq<u8>, JsonV)) -> Seq<u8>
    decreases m, 0int,
{
    ser_str(m.0) + seq![B_COLON] + ser_val(m.1)
}

/// The comma-separated texts of all members of an object.
pub open spec fn ser_members(ms: Seq<(Seq<u8>, JsonV)>) -> Seq<u8>
    decreases ms, 1int,
{
    if ms.len() == 0 {
        Seq::empty()
    } else if ms.len() == 1 {
        ser_member(ms[0])
    } else {
        ser_member(ms[0]) + seq![B_COMMA] + ser_members(ms.drop_first())
    }
}

/// Appends one byte of string content in its escaped form to `out`.
fn write_escaped_byte(b: u8, out: &mut Vec<u8>)
    ensures
        final(out)@ == old(out)@ + esc_byte(b),
{
    if b == B_QUOTE {
        out.push(B_BACKSLASH);
        out.push(B_QUOTE);
    } else if b == B_BACKSLASH {
        out.push(B_BACKSLASH);
        out.push(B_BACKSLASH);
    } else if b < 32 {
        out.push(B_BACKSLASH);
        out.push(B_LOW_U);
        out.push(B_ZERO);
        out.push(B_ZERO);
        let hi = b / 16;
        let lo = b % 16;
        out.push(if hi < 10 { B_ZERO + hi } else { 87 + hi });
        out.push(if lo < 10 { B_ZERO + lo } else { 87 + lo });
    } else {
        out.push(b);
    }
    proof {
        assert(out@ =~= old(out)@ + esc_byte(b));
    }
}

/// Appends a quoted, escaped string literal for `s` to `out`.
fn write_str(s: &Vec<u8>, out: &mut Vec<u8>)
    ensures
        final(out)@ == old(out)@ + ser_str(s@),
{
    out.push(B_QUOTE);
    let ghost base = out@;
    let mut i: usize = 0;
    while i < s.len()
        invariant
            i <= s.len(),
            out@ == base + esc_bytes(s@.take(i as int)),
        decreases s.len() - i,
    {
        write_escaped_byte(s[i], out);
        proof {
            lemma_esc_bytes_snoc(s@, i as int);
        }
        i = i + 1;
    }
    out.push(B_QUOTE);
    proof {
        assert(s@.take(s@.len() as int) =~= s@);
        assert(out@ =~= old(out)@ + ser_str(s@));
    }
}

/// Escaping a string one byte longer appends the escape of the last byte.
proof fn lemma_esc_bytes_snoc(s: Seq<u8>, i: int)
    requires
        0 <= i < s.len(),
    ensures
        esc_bytes(s.take(i + 1)) == esc_bytes(s.take(i)) + esc_byte(s[i]),
    decreases i,
{
    if i == 0 {
        assert(s.take(1).drop_first() =~= Seq::<u8>::empty());
        assert(s.take(1)[0] == s[0]);
        assert(esc_bytes(Seq::<u8>::empty()) == Seq::<u8>::empty());
        assert(esc_bytes(s.take(1)) == esc_byte(s[0]) + esc_bytes(s.take(1).drop_first()));
        assert(esc_bytes(s.take(1)) =~= esc_byte(s[0]));
        assert(esc_bytes(s.take(0)) =~= Seq::<u8>::empty());
        assert(esc_bytes(s.take(0)) + esc_byte(s[0]) =~= esc_byte(s[0]));
    } else {
        lemma_esc_bytes_snoc(s.drop_first(), i - 1);
        assert(s.take(i + 1).drop_first() =~= s.drop_first().take(i));
        assert(s.take(i).drop_first() =~= s.drop_first().take(i - 1));
        assert(s.take(i + 1)[0] == s[0]);
        assert(s.take(i)[0] == s[0]);
        assert(s.drop_first()[i - 1] == s[i]);
        assert(esc_bytes(s.take(i + 1)) == esc_byte(s[0]) + esc_bytes(s.drop_first().take(i)));
        assert(esc_bytes(s.take(i)) == esc_byte(s[0]) + esc_bytes(s.drop_first().take(i - 1)));
        assert(esc_bytes(s.take(i + 1)) =~= esc_bytes(s.take(i)) + esc_byte(s[i]));
    }
}

/// Appends the document text of `j` to `out`.
pub fn write_value(j: &Json, out: &mut Vec<u8>)
    ensures
        final(out)@ == old(out)@ + ser_val(j.jv()),
    decreases *j, 0int,
{
    match j {
        Json::Null => {
            out.push(110);
            out.push(117);
            out.push(108);
            out.push(108);
            proof {
                assert(out@ =~= old(out)@ + ser_null());
            }
        },
        Json::Bool(b) => {
            if *b {
                out.push(116);
                out.push(114);
                out.push(117);
                out.push(101);
                proof {
                    assert(out@ =~= old(out)@ + ser_true());
                }
            } else {
                out.push(102);
                out.push(97);
                out.push(108);
                out.push(115);
                out.push(101);
                proof {
                    assert(out@ =~= old(out)@ + ser_false());
                }
            }
        },
        Json::Num(lex) => {
            let ghost base = out@;
            let mut k: usize = 0;
            while k < lex.len()
                invariant
                    k <= lex@.len(),
                    out@ == base + lex@.take(k as int),
                decreases lex@.len() - k,
            {
                out.push(lex[k]);
                proof {
                    assert(base + lex@.take(k as int) + seq![lex@[k as int]] =~= base
                        + lex@.take(k as int + 1));
                }
                k = k + 1;
            }
            proof {
                assert(lex@.take(lex@.len() as int) =~= lex@);
                assert(out@ =~= old(out)@ + ser_val(j.jv()));
            }
        },
        Json::Str(s) => {
            write_str(s, out);
        },
        Json::Arr(elems) => {
            out.push(B_LBRACK);
            if elems.len() > 0 {
                write_elems(elems, 0, out);
            }
            out.push(B_RBRACK);
            proof {
                assert(jv_seq(elems@).skip(0) =~= jv_seq(elems@));
                assert(out@ =~= old(out)@ + ser_val(j.jv()));
            }
        },
        Json::Obj(members) => {
            out.push(B_LBRACE);
            if members.len() > 0 {
                write_members(members, 0, out);
            }
            out.push(B_RBRACE);
            proof {
                assert(jv_members(members@).skip(0) =~= jv_members(members@));
                assert(out@ =~= old(out)@ + ser_val(j.jv()));
            }
        },
    }
}

/// Appends the texts of the elements from position `i` on, separated by
/// commas, to `out`.
fn write_elems(elems: &Vec<Json>, i: usize, out: &mut Vec<u8>)
    requires
        i < elems.len(),
    ensures
        final(out)@ == old(out)@ + ser_elems(jv_seq(elems@).skip(i as int)),
    decreases elems@, elems@.len() - i as int,
{
    write_value(&elems[i], out);
    proof {
        assert(jv_seq(elems@).skip(i as int)[0] == elems@[i as int].jv());
    }
    if i + 1 < elems.len() {
        out.push(B_COMMA);
        write_elems(elems, i + 1, out);
        proof {
            assert(jv_seq(elems@).skip(i as int).drop_first() =~= jv_seq(elems@).skip(
                i as int + 1,
            ));
            assert(out@ =~= old(out)@ + ser_elems(jv_seq(elems@).skip(i as int)));
        }
    } else {
        proof {
            assert(jv_seq(elems@).skip(i as int).len() == 1);
            assert(out@ =~= old(out)@ + ser_elems(jv_seq(elems@).skip(i as int)));
        }
    }
}

/// Appends the texts of the members from position `i` on, separated by
/// commas, to `out`.
fn write_members(members: &Vec<(Vec<u8>, Json)>, i: usize, out: &mut Vec<u8>)
    requires
        i < members.len(),
    ensures
        final(out)@ == old(out)@ + ser_members(jv_members(members@).skip(i as int)),
    decreases members@, members@.len() - i as int,
{
    write_str(&members[i].0, out);
    out.push(B_COLON);
    write_value(&members[i].1, out);
    proof {
        let m = jv_members(members@).skip(i as int)[0];
        assert(m == (members@[i as int].0@, members@[i as int].1.jv()));
        assert(m.0 == members@[i as int].0@);
        assert(m.1 == members@[i as int].1.jv());
        assert(ser_member(m) == ser_str(m.0) + seq![B_COLON] + ser_val(m.1));
    }
    if i + 1 < members.len() {
        out.push(B_COMMA);
        write_members(members, i + 1, out);
        proof {
            let tail = jv_members(members@).skip(i as int);
            assert(tail.drop_first() =~= jv_members(members@).skip(i as int + 1));
            assert(tail.len() >= 2);
            assert(ser_members(tail) == ser_member(tail[0]) + seq![B_COMMA] + ser_members(
                tail.drop_first(),
            ));
            assert(out@ =~= old(out)@ + ser_members(tail));
        }
    } else {
        proof {
            let tail = jv_members(members@).skip(i as int);
            assert(tail.len() == 1);
            assert(ser_members(tail) == ser_member(tail[0]));
            assert(out@ =~= old(out)@ + ser_members(tail));
        }
    }
}

/// The value of the first member with the given key, if any.
pub open spec fn obj_lookup(ms: Seq<(Seq<u8>, JsonV)>, key: Seq<u8>) -> Option<JsonV>
    decreases ms.len(),
{
    if ms.len() == 0 {
        None
    } else if ms[0].0 == key {
        Some(ms[0].1)
    } else {
        obj_lookup(ms.drop_first(), key)
    }
}

// ----------------------------------------------------------------------
// Parsing: the value a document text denotes.
// ----------------------------------------------------------------------

/// JSON whitespace.
pub open spec fn is_ws(b: u8) -> bool {
    b == 32 || b == 9 || b == 10 || b == 13
}

/// A decimal digit byte.
pub open spec fn is_digit(b: u8) -> bool {
    B_ZERO <= b <= 57
}

/// The position of the first non-whitespace byte at or after `i`.
pub open spec fn skip_ws(s: Seq<u8>, i: int) -> int
    decreases s.len() - i,
{
    if 0 <= i < s.len() && is_ws(s[i]) {
        skip_ws(s, i + 1)
    } else {
        i
    }
}

/// The value of a hexadecimal digit byte, or -1 for any other byte.
pub open spec fn hex_val(b: u8) -> int {
    if B_ZERO <= b <= 57 {
        b - B_ZERO
    } else if 97 <= b <= 102 {
        b - 87
    } else if 65 <= b <= 70 {
        b - 55
    } else {
        -1
    }
}

/// The byte an escape sequence denotes, and the position after it.  `i`
/// is the position just after the backslash.  Only `\u` escapes below
/// 0x80 are accepted; others would name code points outside one byte.
/// The code point named by four hexadecimal digits at `i`, or -1.
pub open spec fn hex4(s: Seq<u8>, i: int) -> int {
    if i + 4 <= s.len() && hex_val(s[i]) >= 0 && hex_val(s[i + 1]) >= 0 && hex_val(s[i + 2]) >= 0
        && hex_val(s[i + 3]) >= 0 {
        hex_val(s[i]) * 4096 + hex_val(s[i + 1]) * 256 + hex_val(s[i + 2]) * 16 + hex_val(
            s[i + 3],
        )
    } else {
        -1
    }
}

/// The UTF-8 bytes of one code point.
pub open spec fn utf8_enc(c: int) -> Seq<u8> {
    if c < 0x80 {
        seq![c as u8]
    } else if c < 0x800 {
        seq![(0xC0 + c / 0x40) as u8, (0x80 + c % 0x40) as u8]
    } else if c < 0x10000 {
        seq![(0xE0 + c / 0x1000) as u8, (0x80 + (c / 0x40) % 0x40) as u8, (0x80 + c % 0x40) as u8]
    } else {
        seq![
            (0xF0 + c / 0x40000) as u8,
            (0x80 + (c / 0x1000) % 0x40) as u8,
            (0x80 + (c / 0x40) % 0x40) as u8,
            (0x80 + c % 0x40) as u8,
        ]
    }
}

/// The bytes an escape sequence denotes, and the position after it.
/// `i` is the position just after the backslash.  A `\u` escape names a
/// code point, written to UTF-8; a high surrogate must be followed by a
/// second escape holding its low surrogate.
pub open spec fn p_escape(s: Seq<u8>, i: int) -> Option<(Seq<u8>, int)> {
    if !(0 <= i < s.len()) {
        None
    } else if s[i] == B_QUOTE {
        Some((seq![B_QUOTE], i + 1))
    } else if s[i] == B_BACKSLASH {
        Some((seq![B_BACKSLASH], i + 1))
    } else if s[i] == B_SLASH {
        Some((seq![B_SLASH], i + 1))
    } else if s[i] == 98 {
        Some((seq![8u8], i + 1))
    } else if s[i] == 102 {
        Some((seq![12u8], i + 1))
    } else if s[i] == 110 {
        Some((seq![10u8], i + 1))
    } else if s[i] == 114 {
        Some((seq![13u8], i + 1))
    } else if s[i] == 116 {
        Some((seq![9u8], i + 1))
    } else if s[i] == B_LOW_U {
        let c = hex4(s, i + 1);
        if c < 0 {
            None
        } else if 0xD800 <= c <= 0xDBFF {
            if i + 7 <= s.len() && s[i + 5] == B_BACKSLASH && s[i + 6] == B_LOW_U {
                let c2 = hex4(s, i + 7);
                if 0xDC00 <= c2 <= 0xDFFF {
                    Some((utf8_enc(0x10000 + (c - 0xD800) * 0x400 + (c2 - 0xDC00)), i + 11))
                } else {
                    None
                }
            } else {
                None
            }
        } else if 0xDC00 <= c <= 0xDFFF {
            None
        } else {
            Some((utf8_enc(c), i + 5))
        }
    } else {
        None
    }
}

/// The content of a string literal from position `i` (just after the
/// opening quote) to its closing quote, unescaped, with the position
/// after the closing quote.
pub open spec fn p_str_body(s: Seq<u8>, i: int) -> Option<(Seq<u8>, int)>
    decreases s.len() - i,
{
    if !(0 <= i < s.len()) {
        None
    } else if s[i] == B_QUOTE {
        Some((Seq::empty(), i + 1))
    } else if s[i] == B_BACKSLASH {
        match p_escape(s, i + 1) {
            Some((bs, k)) => if i < k <= s.len() {
                match p_str_body(s, k) {
                    Some((rest, end)) => Some((bs + rest, end)),
                    None => None,
                }
            } else {
                None
            },
            None => None,
        }
    } else if s[i] < 32 {
        None
    } else {
        match p_str_body(s, i + 1) {
            Some((rest, end)) => Some((seq![s[i]] + rest, end)),
            None => None,
        }
    }
}

/// The position after the run of digit bytes that starts at `i`.
pub open spec fn p_digits_end(s: Seq<u8>, i: int) -> int
    decreases s.len() - i,
{
    if 0 <= i < s.len() && is_digit(s[i]) {
        p_digits_end(s, i + 1)
    } else {
        i
    }
}

/// The number a run of digit bytes denotes, most significant first.
pub open spec fn dec_value(d: Seq<u8>) -> int
    decreases d.len(),
{
    if d.len() == 0 {
        0
    } else {
        dec_value(d.take(d.len() - 1)) * 10 + (d.last() - B_ZERO)
    }
}

/// The end of a number's integer part at `i`: a single zero, or a
/// digit run that does not start with zero.
pub open spec fn p_int_end(s: Seq<u8>, i: int) -> Option<int> {
    if !(0 <= i < s.len() && is_digit(s[i])) {
        None
    } else if s[i] == B_ZERO {
        Some(i + 1)
    } else {
        Some(p_digits_end(s, i))
    }
}

/// The end of an optional fraction part at `i`: a dot with at least
/// one digit, or nothing.
pub open spec fn p_frac_end(s: Seq<u8>, i: int) -> Option<int> {
    if 0 <= i < s.len() && s[i] == B_DOT {
        let d = p_digits_end(s, i + 1);
        if d > i + 1 {
            Some(d)
        } else {
            None
        }
    } else {
        Some(i)
    }
}

/// The end of an optional exponent part at `i`: an e or E, an optional
/// sign, and at least one digit, or nothing.
pub open spec fn p_exp_end(s: Seq<u8>, i: int) -> Option<int> {
    if 0 <= i < s.len() && (s[i] == B_LOW_E || s[i] == B_UP_E) {
        let d0 = if i + 1 < s.len() && (s[i + 1] == B_PLUS || s[i + 1] == B_MINUS) {
            i + 2
        } else {
            i + 1
        };
        let d = p_digits_end(s, d0);
        if d > d0 {
            Some(d)
        } else {
            None
        }
    } else {
        Some(i)
    }
}

/// The end of a number token at `i`: an optional minus sign, an
/// integer part, and optional fraction and exponent parts.
pub open spec fn p_number_end(s: Seq<u8>, i: int) -> Option<int> {
    if !(0 <= i < s.len()) {
        None
    } else {
        let d0 = if s[i] == B_MINUS {
            i + 1
        } else {
            i
        };
        match p_int_end(s, d0) {
            Some(i1) => match p_frac_end(s, i1) {
                Some(f1) => p_exp_end(s, f1),
                None => None,
            },
            None => None,
        }
    }
}

/// A whole text that is exactly one number token.
pub open spec fn is_number_lexeme(s: Seq<u8>) -> bool {
    p_number_end(s, 0) == Some(s.len() as int)
}

/// A number literal at `i`: the token's text is kept verbatim.
pub open spec fn p_num(s: Seq<u8>, i: int) -> Option<(JsonV, int)> {
    match p_number_end(s, i) {
        Some(e) => if i < e <= s.len() {
            Some((JsonV::Num(s.subrange(i, e)), e))
        } else {
            None
        },
        None => None,
    }
}

/// The integer a number token denotes, if it has neither fraction nor
/// exponent: an optional minus sign over plain digits.
pub open spec fn int_lexeme_value(s: Seq<u8>) -> Option<int> {
    if s.len() >= 2 && s[0] == B_MINUS && (forall|k: int|
        1 <= k < s.len() ==> is_digit(#[trigger] s[k])) {
        Some(-dec_value(s.subrange(1, s.len() as int)))
    } else if s.len() >= 1 && (forall|k: int| 0 <= k < s.len() ==> is_digit(#[trigger] s[k])) {
        Some(dec_value(s))
    } else {
        None
    }
}

/// The value at position `i` of the text, and the position after it.
/// No leading whitespace is consumed.
pub open spec fn p_val(s: Seq<u8>, i: int) -> Option<(JsonV, int)>
    decreases s.len() - i, 0int,
{
    if !(0 <= i < s.len()) {
        None
    } else if s[i] == B_LBRACK {
        let j = skip_ws(s, i + 1);
        if !(i < j <= s.len()) {
            None
        } else if j < s.len() && s[j] == B_RBRACK {
            Some((JsonV::Arr(Seq::empty()), j + 1))
        } else {
            match p_elems(s, j) {
                Some((es, end)) => Some((JsonV::Arr(es), end)),
                None => None,
            }
        }
    } else if s[i] == B_LBRACE {
        let j = skip_ws(s, i + 1);
        if !(i < j <= s.len()) {
            None
        } else if j < s.len() && s[j] == B_RBRACE {
            Some((JsonV::Obj(Seq::empty()), j + 1))
        } else {
            match p_members(s, j) {
                Some((ms, end)) => Some((JsonV::Obj(ms), end)),
                None => None,
            }
        }
    } else if s[i] == B_QUOTE {
        match p_str_body(s, i + 1) {
            Some((content, end)) => Some((JsonV::Str(content), end)),
            None => None,
        }
    } else if s[i] == B_MINUS || is_digit(s[i]) {
        p_num(s, i)
    } else if s[i] == 110 {
        if s.len() - i >= 4 && s[i + 1] == 117 && s[i + 2] == 108 && s[i + 3] == 108 {
            Some((JsonV::Null, i + 4))
        } else {
            None
        }
    } else if s[i] == 116 {
        if s.len() - i >= 4 && s[i + 1] == 114 && s[i + 2] == 117 && s[i + 3] == 101 {
            Some((JsonV::Bool(true), i + 4))
        } else {
            None
        }
    } else if s[i] == 102 {
        if s.len() - i >= 5 && s[i + 1] == 97 && s[i + 2] == 108 && s[i + 3] == 115 && s[i + 4]
            == 101 {
            Some((JsonV::Bool(false), i + 5))
        } else {
            None
        }
    } else {
        None
    }
}

/// The elements of an array from position `i` (at the first element) to
/// the closing bracket, and the position after the bracket.
pub open spec fn p_elems(s: Seq<u8>, i: int) -> Option<(Seq<JsonV>, int)>
    decreases s.len() - i, 1int,
{
    if !(0 <= i <= s.len()) {
        None
    } else {
        match p_val(s, i) {
            Some((v, k)) => if !(i < k <= s.len()) {
                None
            } else {
                let m = skip_ws(s, k);
                if !(k <= m <= s.len()) {
                    None
                } else if m < s.len() && s[m] == B_COMMA {
                    let n = skip_ws(s, m + 1);
                    if !(m < n <= s.len()) {
                        None
                    } else {
                        match p_elems(s, n) {
                            Some((rest, end)) => Some((seq![v] + rest, end)),
                            None => None,
                        }
                    }
                } else if m < s.len() && s[m] == B_RBRACK {
                    Some((seq![v], m + 1))
                } else {
                    None
                }
            },
            None => None,
        }
    }
}

/// The members of an object from position `i` (at the first key) to the
/// closing brace, and the position after the brace.
pub open spec fn p_members(s: Seq<u8>, i: int) -> Option<(Seq<(Seq<u8>, JsonV)>, int)>
    decreases s.len() - i, 1int,
{
    if !(0 <= i < s.len()) {
        None
    } else if s[i] != B_QUOTE {
        None
    } else {
        match p_str_body(s, i + 1) {
            Some((key, k)) => if !(i < k <= s.len()) {
                None
            } else {
                let c = skip_ws(s, k);
                if !(k <= c <= s.len()) {
                    None
                } else if !(c < s.len() && s[c] == B_COLON) {
                    None
                } else {
                    let v0 = skip_ws(s, c + 1);
                    if !(c < v0 <= s.len()) {
                        None
                    } else {
                        match p_val(s, v0) {
                            Some((v, k2)) => if !(v0 < k2 <= s.len()) {
                                None
                            } else {
                                let m = skip_ws(s, k2);
                                if !(k2 <= m <= s.len()) {
                                    None
                                } else if m < s.len() && s[m] == B_COMMA {
                                    let n = skip_ws(s, m + 1);
                                    if !(m < n <= s.len()) {
                                        None
                                    } else {
                                        match p_members(s, n) {
                                            Some((rest, end)) => Some(
                                                (seq![(key, v)] + rest, end),
                                            ),
                                            None => None,
                                        }
                                    }
                                } else if m < s.len() && s[m] == B_RBRACE {
                                    Some((seq![(key, v)], m + 1))
                                } else {
                                    None
                                }
                            },
                            None => None,
                        }
                    }
                }
            },
            None => None,
        }
    }
}

/// The value of a whole document: one value, surrounded by whitespace
/// only.
pub open spec fn p_doc(s: Seq<u8>) -> Option<JsonV> {
    let i = skip_ws(s, 0);
    match p_val(s, i) {
        Some((v, k)) => if 0 <= k <= s.len() && skip_ws(s, k) == s.len() {
            Some(v)
        } else {
            None
        },
        None => None,
    }
}

/// Finds the first non-whitespace position at or after `i`.
fn skip_ws_exec(s: &Vec<u8>, i: usize) -> (r: usize)
    requires
        i <= s@.len(),
    ensures
        r as int == skip_ws(s@, i as int),
        i <= r <= s@.len(),
{
    let mut j = i;
    while j < s.len() && (s[j] == 32 || s[j] == 9 || s[j] == 10 || s[j] == 13)
        invariant
            i <= j <= s@.len(),
            skip_ws(s@, i as int) == skip_ws(s@, j as int),
        decreases s@.len() - j,
    {
        j = j + 1;
    }
    j
}

/// Reads one escape sequence from just after its backslash, yielding
/// the bytes it denotes.
#[verifier::rlimit(100)]
#[verifier::spinoff_prover]
fn parse_escape(s: &Vec<u8>, i: usize) -> (r: Option<(Vec<u8>, usize)>)
    requires
        i <= s@.len(),
    ensures
        (match r {
            Some(p) => p_escape(s@, i as int) == Some((p.0@, p.1 as int)) && i < p.1 <= s@.len(),
            None => p_escape(s@, i as int) is None,
        }),
{
    if i >= s.len() {
        return None;
    }
    let e = s[i];
    let mut out: Vec<u8> = Vec::new();
    if e == B_QUOTE || e == B_BACKSLASH || e == B_SLASH {
        out.push(e);
        proof {
            assert(out@ =~= seq![e]);
        }
        return Some((out, i + 1));
    }
    if e == 98 {
        out.push(8);
        proof {
            assert(out@ =~= seq![8u8]);
        }
        return Some((out, i + 1));
    }
    if e == 102 {
        out.push(12);
        proof {
            assert(out@ =~= seq![12u8]);
        }
        return Some((out, i + 1));
    }
    if e == 110 {
        out.push(10);
        proof {
            assert(out@ =~= seq![10u8]);
        }
        return Some((out, i + 1));
    }
    if e == 114 {
        out.push(13);
        proof {
            assert(out@ =~= seq![13u8]);
        }
        return Some((out, i + 1));
    }
    if e == 116 {
        out.push(9);
        proof {
            assert(out@ =~= seq![9u8]);
        }
        return Some((out, i + 1));
    }
    if e != B_LOW_U {
        return None;
    }
    if s.len() - i < 5 {
        proof {
            assert(hex4(s@, i as int + 1) == -1);
        }
        return None;
    }
    let h1 = hex_val_exec(s[i + 1]);
    let h2 = hex_val_exec(s[i + 2]);
    let h3 = hex_val_exec(s[i + 3]);
    let h4 = hex_val_exec(s[i + 4]);
    if h1 < 0 || h2 < 0 || h3 < 0 || h4 < 0 {
        proof {
            assert(hex4(s@, i as int + 1) == -1);
        }
        return None;
    }
    let c1: i32 = h1 * 4096 + h2 * 256 + h3 * 16 + h4;
    proof {
        assert(c1 as int == hex4(s@, i as int + 1));
    }
    if 0xD800 <= c1 && c1 <= 0xDBFF {
        if s.len() - i < 11 {
            proof {
                if i as int + 7 <= s@.len() {
                    assert(hex4(s@, i as int + 7) == -1);
                }
            }
            return None;
        }
        if !(s[i + 5] == B_BACKSLASH && s[i + 6] == B_LOW_U) {
            return None;
        }
        let g1 = hex_val_exec(s[i + 7]);
        let g2 = hex_val_exec(s[i + 8]);
        let g3 = hex_val_exec(s[i + 9]);
        let g4 = hex_val_exec(s[i + 10]);
        if g1 < 0 || g2 < 0 || g3 < 0 || g4 < 0 {
            proof {
                assert(hex4(s@, i as int + 7) == -1);
            }
            return None;
        }
        let c2: i32 = g1 * 4096 + g2 * 256 + g3 * 16 + g4;
        proof {
            assert(c2 as int == hex4(s@, i as int + 7));
        }
        if !(0xDC00 <= c2 && c2 <= 0xDFFF) {
            return None;
        }
        let cp: i32 = 0x10000 + (c1 - 0xD800) * 0x400 + (c2 - 0xDC00);
        out.push((0xF0 + cp / 0x40000) as u8);
        out.push((0x80 + (cp / 0x1000) % 0x40) as u8);
        out.push((0x80 + (cp / 0x40) % 0x40) as u8);
        out.push((0x80 + cp % 0x40) as u8);
        proof {
            assert(out@ =~= utf8_enc(cp as int));
        }
        Some((out, i + 11))
    } else if 0xDC00 <= c1 && c1 <= 0xDFFF {
        None
    } else if c1 < 0x80 {
        out.push(c1 as u8);
        proof {
            assert(out@ =~= utf8_enc(c1 as int));
        }
        Some((out, i + 5))
    } else if c1 < 0x800 {
        out.push((0xC0 + c1 / 0x40) as u8);
        out.push((0x80 + c1 % 0x40) as u8);
        proof {
            assert(out@ =~= utf8_enc(c1 as int));
        }
        Some((out, i + 5))
    } else {
        out.push((0xE0 + c1 / 0x1000) as u8);
        out.push((0x80 + (c1 / 0x40) % 0x40) as u8);
        out.push((0x80 + c1 % 0x40) as u8);
        proof {
            assert(out@ =~= utf8_enc(c1 as int));
        }
        Some((out, i + 5))
    }
}

/// Reads a string literal's content from just after its opening quote.
#[verifier::rlimit(100)]
#[verifier::spinoff_prover]
fn parse_str_body(s: &Vec<u8>, i: usize) -> (r: Option<(Vec<u8>, usize)>)
    requires
        i <= s@.len(),
    ensures
        (match r {
            Some(p) => p_str_body(s@, i as int) == Some((p.0@, p.1 as int)) && i < p.1 <= s@.len(),
            None => p_str_body(s@, i as int) is None,
        }),
{
    let mut acc: Vec<u8> = Vec::new();
    let mut j = i;
    loop
        invariant
            i <= j <= s@.len(),
            p_str_body(s@, i as int) == (match p_str_body(s@, j as int) {
                Some((rest, end)) => Some((acc@ + rest, end)),
                None => None::<(Seq<u8>, int)>,
            }),
        decreases s@.len() - j,
    {
        if j >= s.len() {
            return None;
        }
        let c = s[j];
        if c == B_QUOTE {
            proof {
                assert(acc@ + Seq::<u8>::empty() =~= acc@);
            }
            return Some((acc, j + 1));
        } else if c == B_BACKSLASH {
            match parse_escape(s, j + 1) {
                Some((mut bytes, k)) => {
                    let ghost pre = acc@;
                    let ghost bs = bytes@;
                    acc.append(&mut bytes);
                    proof {
                        let pe = p_escape(s@, j as int + 1);
                        assert(pe is Some);
                        assert(acc@ == pre + bs);
                        assert(forall|rest: Seq<u8>| (pre + bs) + rest =~= pre + (bs + rest));
                    }
                    j = k;
                },
                None => {
                    return None;
                },
            }
        } else if c < 32 {
            return None;
        } else {
            let ghost pre = acc@;
            acc.push(c);
            proof {
                assert(acc@ =~= pre + seq![c]);
                assert(forall|rest: Seq<u8>| (pre + seq![c]) + rest =~= pre + (seq![c] + rest));
            }
            j = j + 1;
        }
    }
}

/// The value of a hexadecimal digit byte, or -1.
fn hex_val_exec(b: u8) -> (r: i32)
    ensures
        r as int == hex_val(b),
{
    if B_ZERO <= b && b <= 57 {
        (b - B_ZERO) as i32
    } else if 97 <= b && b <= 102 {
        (b - 87) as i32
    } else if 65 <= b && b <= 70 {
        (b - 55) as i32
    } else {
        -1
    }
}

/// The end of the digit run that starts at `i`.
fn digits_end_exec(s: &Vec<u8>, i: usize) -> (r: usize)
    requires
        i <= s@.len(),
    ensures
        r as int == p_digits_end(s@, i as int),
        i <= r <= s@.len(),
{
    let mut j = i;
    while j < s.len() && B_ZERO <= s[j] && s[j] <= 57
        invariant
            i <= j <= s@.len(),
            p_digits_end(s@, i as int) == p_digits_end(s@, j as int),
        decreases s@.len() - j,
    {
        j = j + 1;
    }
    j
}

/// Reads a number token at `i` and keeps its text verbatim.
#[verifier::rlimit(100)]
fn parse_number(s: &Vec<u8>, i: usize) -> (r: Option<(Json, usize)>)
    requires
        i < s@.len(),
    ensures
        (match r {
            Some(p) => p_num(s@, i as int) == Some((p.0.jv(), p.1 as int)) && i < p.1 <= s@.len(),
            None => p_num(s@, i as int) is None,
        }),
{
    let n: usize = s.len();
    let d0 = if s[i] == B_MINUS {
        i + 1
    } else {
        i
    };
    if d0 >= n || !(B_ZERO <= s[d0] && s[d0] <= 57) {
        proof {
            assert(p_int_end(s@, d0 as int) is None);
        }
        return None;
    }
    let i1: usize = if s[d0] == B_ZERO {
        d0 + 1
    } else {
        digits_end_exec(s, d0)
    };
    proof {
        assert(p_int_end(s@, d0 as int) == Some(i1 as int));
        lemma_digits_end_props(s@, d0 as int);
        assert(i1 > d0);
    }
    let f1: usize;
    if i1 < n && s[i1] == B_DOT {
        let d = digits_end_exec(s, i1 + 1);
        if d > i1 + 1 {
            f1 = d;
        } else {
            proof {
                assert(p_frac_end(s@, i1 as int) is None);
            }
            return None;
        }
    } else {
        f1 = i1;
    }
    proof {
        assert(p_frac_end(s@, i1 as int) == Some(f1 as int));
    }
    let e1: usize;
    if f1 < n && (s[f1] == B_LOW_E || s[f1] == B_UP_E) {
        let es: usize = if f1 + 1 < n && (s[f1 + 1] == B_PLUS || s[f1 + 1] == B_MINUS) {
            f1 + 2
        } else {
            f1 + 1
        };
        let d = digits_end_exec(s, es);
        if d > es {
            e1 = d;
        } else {
            proof {
                assert(p_exp_end(s@, f1 as int) is None);
            }
            return None;
        }
    } else {
        e1 = f1;
    }
    proof {
        assert(p_exp_end(s@, f1 as int) == Some(e1 as int));
        assert(p_number_end(s@, i as int) == Some(e1 as int));
    }
    let lex = copy_range(s, i, e1);
    Some((Json::Num(lex), e1))
}

/// Copies the bytes of `s` between `i` and `e` into a fresh vector.
fn copy_range(s: &Vec<u8>, i: usize, e: usize) -> (r: Vec<u8>)
    requires
        i <= e <= s@.len(),
    ensures
        r@ == s@.subrange(i as int, e as int),
{
    let mut out: Vec<u8> = Vec::new();
    let mut k = i;
    while k < e
        invariant
            i <= k <= e <= s@.len(),
            out@ == s@.subrange(i as int, k as int),
        decreases e - k,
    {
        let ghost pre = out@;
        out.push(s[k]);
        proof {
            assert(pre.push(s@[k as int]) =~= s@.subrange(i as int, k as int + 1));
        }
        k = k + 1;
    }
    out
}

/// Reads the digits of an integer token into a 64-bit unsigned value:
/// the token's integer, when it has no fraction or exponent and lies
/// in range.
#[verifier::rlimit(100)]
#[verifier::spinoff_prover]
pub fn num_as_u64(lex: &Vec<u8>) -> (r: Option<u64>)
    ensures
        (match r {
            Some(v) => int_lexeme_value(lex@) == Some(v as int),
            None => (match int_lexeme_value(lex@) {
                Some(m) => !(0 <= m <= u64::MAX),
                None => true,
            }),
        }),
{
    let n = lex.len();
    if n == 0 {
        return None;
    }
    let neg = lex[0] == B_MINUS;
    let start: usize = if neg {
        1
    } else {
        0
    };
    if start >= n {
        proof {
            assert(!is_digit(lex@[0]));
        }
        return None;
    }
    let mut v: u64 = 0;
    let mut ovf = false;
    let mut j = start;
    while j < n
        invariant
            start <= j <= n,
            n == lex@.len(),
            neg <==> lex@[0] == B_MINUS,
            start == (if neg {
                1usize
            } else {
                0usize
            }),
            forall|k: int| start <= k < j ==> is_digit(#[trigger] lex@[k]),
            dec_value(lex@.subrange(start as int, j as int)) >= 0,
            !ovf ==> v as int == dec_value(lex@.subrange(start as int, j as int)),
            ovf ==> dec_value(lex@.subrange(start as int, j as int)) > u64::MAX as int,
        decreases n - j,
    {
        let b = lex[j];
        if !(B_ZERO <= b && b <= 57) {
            proof {
                assert(!is_digit(lex@[j as int]));
                if lex@[0] == B_MINUS {
                    assert(!is_digit(lex@[0]));
                }
            }
            return None;
        }
        let d = b - B_ZERO;
        proof {
            let pre = lex@.subrange(start as int, j as int);
            let cur = lex@.subrange(start as int, j as int + 1);
            assert(cur.take(cur.len() - 1) =~= pre);
            assert(cur.last() == lex@[j as int]);
            assert(dec_value(cur) == dec_value(pre) * 10 + (lex@[j as int] - B_ZERO));
        }
        if !ovf {
            if v <= (u64::MAX - d as u64) / 10 {
                v = v * 10 + d as u64;
            } else {
                proof {
                    let pre = lex@.subrange(start as int, j as int);
                    assert(dec_value(pre) * 10 + (lex@[j as int] - B_ZERO) > u64::MAX as int) by (
                    nonlinear_arith)
                        requires
                            dec_value(pre) == v as int,
                            v > (u64::MAX - d as u64) / 10,
                            d == lex@[j as int] - B_ZERO,
                            0 <= d < 10,
                            u64::MAX == 0xffffffffffffffffu64,
                    ;
                }
                ovf = true;
            }
        }
        j = j + 1;
    }
    proof {
        if neg {
            assert(lex@[0] == B_MINUS);
            assert(lex@.len() >= 2);
            assert(lex@.subrange(start as int, n as int) =~= lex@.subrange(
                1,
                lex@.len() as int,
            ));
            if !ovf {
                assert(int_lexeme_value(lex@) == Some(-(v as int)));
            } else {
                assert(dec_value(lex@.subrange(1, lex@.len() as int)) > u64::MAX as int);
                assert(int_lexeme_value(lex@)->Some_0 < 0);
            }
        } else {
            assert(lex@[0] != B_MINUS);
            assert(lex@.subrange(start as int, n as int) =~= lex@);
            if !ovf {
                assert(int_lexeme_value(lex@) == Some(v as int));
            } else {
                assert(int_lexeme_value(lex@)->Some_0 > u64::MAX as int);
            }
        }
    }
    if neg {
        if ovf {
            return None;
        }
        if v == 0 {
            Some(0)
        } else {
            None
        }
    } else {
        if ovf {
            return None;
        }
        Some(v)
    }
}

/// Reads the value at position `i`; no leading whitespace is consumed.
pub fn parse_value(s: &Vec<u8>, i: usize) -> (r: Option<(Json, usize)>)
    requires
        i <= s@.len(),
    ensures
        (match r {
            Some(p) => p_val(s@, i as int) == Some((p.0.jv(), p.1 as int)) && i < p.1 <= s@.len(),
            None => p_val(s@, i as int) is None,
        }),
    decreases s@.len() - i as int, 0int,
{
    if i >= s.len() {
        return None;
    }
    let c = s[i];
    if c == B_LBRACK {
        let j = skip_ws_exec(s, i + 1);
        if j < s.len() && s[j] == B_RBRACK {
            proof {
                assert(jv_seq(Seq::<Json>::empty()) =~= Seq::<JsonV>::empty());
            }
            Some((Json::Arr(Vec::new()), j + 1))
        } else {
            match parse_elems(s, j) {
                Some((es, end)) => Some((Json::Arr(es), end)),
                None => None,
            }
        }
    } else if c == B_LBRACE {
        let j = skip_ws_exec(s, i + 1);
        if j < s.len() && s[j] == B_RBRACE {
            proof {
                assert(jv_members(Seq::<(Vec<u8>, Json)>::empty()) =~= Seq::<(
                    Seq<u8>,
                    JsonV,
                )>::empty());
            }
            Some((Json::Obj(Vec::new()), j + 1))
        } else {
            match parse_members(s, j) {
                Some((ms, end)) => Some((Json::Obj(ms), end)),
                None => None,
            }
        }
    } else if c == B_QUOTE {
        match parse_str_body(s, i + 1) {
            Some((content, end)) => Some((Json::Str(content), end)),
            None => None,
        }
    } else if c == B_MINUS || (B_ZERO <= c && c <= 57) {
        parse_number(s, i)
    } else if c == 110 {
        if s.len() - i >= 4 && s[i + 1] == 117 && s[i + 2] == 108 && s[i + 3] == 108 {
            Some((Json::Null, i + 4))
        } else {
            None
        }
    } else if c == 116 {
        if s.len() - i >= 4 && s[i + 1] == 114 && s[i + 2] == 117 && s[i + 3] == 101 {
            Some((Json::Bool(true), i + 4))
        } else {
            None
        }
    } else if c == 102 {
        if s.len() - i >= 5 && s[i + 1] == 97 && s[i + 2] == 108 && s[i + 3] == 115 && s[i + 4]
            == 101 {
            Some((Json::Bool(false), i + 5))
        } else {
            None
        }
    } else {
        None
    }
}

/// Reads the comma-separated elements of an array and its closing
/// bracket, from the position of the first element.
fn parse_elems(s: &Vec<u8>, i: usize) -> (r: Option<(Vec<Json>, usize)>)
    requires
        i <= s@.len(),
    ensures
        (match r {
            Some(p) => p_elems(s@, i as int) == Some((jv_seq(p.0@), p.1 as int)) && i < p.1
                <= s@.len(),
            None => p_elems(s@, i as int) is None,
        }),
    decreases s@.len() - i as int, 1int,
{
    match parse_value(s, i) {
        Some((v, k)) => {
            let m = skip_ws_exec(s, k);
            if m < s.len() && s[m] == B_COMMA {
                let n = skip_ws_exec(s, m + 1);
                match parse_elems(s, n) {
                    Some((mut rest, end)) => {
                        let ghost tailv = rest@;
                        let ghost vv = v.jv();
                        rest.insert(0, v);
                        proof {
                            assert(rest@ =~= seq![rest@[0]] + tailv);
                            assert(jv_seq(rest@) =~= seq![vv] + jv_seq(tailv));
                        }
                        Some((rest, end))
                    },
                    None => None,
                }
            } else if m < s.len() && s[m] == B_RBRACK {
                let ghost vv = v.jv();
                let mut one: Vec<Json> = Vec::new();
                one.push(v);
                proof {
                    assert(jv_seq(one@) =~= seq![vv]);
                }
                Some((one, m + 1))
            } else {
                None
            }
        },
        None => None,
    }
}

/// Reads the comma-separated members of an object and its closing
/// brace, from the position of the first key.
fn parse_members(s: &Vec<u8>, i: usize) -> (r: Option<(Vec<(Vec<u8>, Json)>, usize)>)
    requires
        i <= s@.len(),
    ensures
        (match r {
            Some(p) => p_members(s@, i as int) == Some((jv_members(p.0@), p.1 as int)) && i < p.1
                <= s@.len(),
            None => p_members(s@, i as int) is None,
        }),
    decreases s@.len() - i as int, 1int,
{
    if i >= s.len() || s[i] != B_QUOTE {
        return None;
    }
    match parse_str_body(s, i + 1) {
        Some((key, k)) => {
            let c = skip_ws_exec(s, k);
            if !(c < s.len() && s[c] == B_COLON) {
                return None;
            }
            let v0 = skip_ws_exec(s, c + 1);
            match parse_value(s, v0) {
                Some((v, k2)) => {
                    let m = skip_ws_exec(s, k2);
                    if m < s.len() && s[m] == B_COMMA {
                        let n = skip_ws_exec(s, m + 1);
                        match parse_members(s, n) {
                            Some((mut rest, end)) => {
                                let ghost tailv = rest@;
                                let ghost keyv = key@;
                                let ghost vv = v.jv();
                                rest.insert(0, (key, v));
                                proof {
                                    assert(jv_members(rest@) =~= seq![(keyv, vv)] + jv_members(
                                        tailv,
                                    ));
                                }
                                Some((rest, end))
                            },
                            None => None,
                        }
                    } else if m < s.len() && s[m] == B_RBRACE {
                        let ghost keyv = key@;
                        let ghost vv = v.jv();
                        let mut one: Vec<(Vec<u8>, Json)> = Vec::new();
                        one.push((key, v));
                        proof {
                            assert(jv_members(one@) =~= seq![(keyv, vv)]);
                        }
                        Some((one, m + 1))
                    } else {
                        None
                    }
                },
                None => None,
            }
        },
        None => None,
    }
}

/// Reads a whole document: one value surrounded by whitespace only.
pub fn parse_document(s: &Vec<u8>) -> (r: Option<Json>)
    ensures
        (match r {
            Some(v) => p_doc(s@) == Some(v.jv()),
            None => p_doc(s@) is None,
        }),
{
    let i = skip_ws_exec(s, 0);
    match parse_value(s, i) {
        Some((v, end)) => {
            let t = skip_ws_exec(s, end);
            if t == s.len() {
                Some(v)
            } else {
                None
            }
        },
        None => None,
    }
}

// ----------------------------------------------------------------------
// Round trip: parsing a serialized value yields the value back.
// ----------------------------------------------------------------------

/// Pointwise view of a window equality: each byte of the window of `s`
/// at `i` is the corresponding byte of `t`.
proof fn lemma_window(s: Seq<u8>, t: Seq<u8>, i: int)
    requires
        0 <= i,
        i + t.len() <= s.len(),
        s.subrange(i, i + t.len()) == t,
    ensures
        forall|k: int| 0 <= k < t.len() ==> s[i + k] == #[trigger] t[k],
        forall|k: int| i <= k < i + t.len() ==> #[trigger] s[k] == t[k - i],
{
    assert forall|k: int| 0 <= k < t.len() implies s[i + k] == #[trigger] t[k] by {
        assert(s.subrange(i, i + t.len())[k] == s[i + k]);
    }
    assert forall|k: int| i <= k < i + t.len() implies #[trigger] s[k] == t[k - i] by {
        assert(s.subrange(i, i + t.len())[k - i] == s[i + (k - i)]);
    }
}

/// A window of a window: the bytes of `s` over `[i + a, i + b)` form
/// the matching part of `t`.
proof fn lemma_window_sub(s: Seq<u8>, t: Seq<u8>, i: int, a: int, b: int)
    requires
        0 <= i,
        i + t.len() <= s.len(),
        s.subrange(i, i + t.len()) == t,
        0 <= a <= b <= t.len(),
    ensures
        s.subrange(i + a, i + b) == t.subrange(a, b),
{
    assert forall|k: int| 0 <= k < b - a implies s.subrange(i + a, i + b)[k] == t.subrange(
        a,
        b,
    )[k] by {
        assert(s.subrange(i, i + t.len())[a + k] == s[i + (a + k)]);
        assert(t.subrange(a, b)[k] == t[a + k]);
        assert(s.subrange(i + a, i + b)[k] == s[i + a + k]);
    }
    assert(s.subrange(i + a, i + b) =~= t.subrange(a, b));
}

/// A digit run ends exactly at the first non-digit position.
proof fn lemma_digit_run(s: Seq<u8>, i: int, e: int)
    requires
        0 <= i <= e <= s.len(),
        forall|k: int| i <= k < e ==> is_digit(#[trigger] s[k]),
        e == s.len() || !is_digit(s[e]),
    ensures
        p_digits_end(s, i) == e,
    decreases e - i,
{
    if i < e {
        lemma_digit_run(s, i + 1, e);
    }
}

/// A digit run: everything before its end is a digit, and it stops at
/// the end of the text or at a non-digit.
proof fn lemma_digits_end_props(s: Seq<u8>, i: int)
    requires
        0 <= i <= s.len(),
    ensures
        i <= p_digits_end(s, i) <= s.len(),
        forall|k: int| i <= k < p_digits_end(s, i) ==> is_digit(#[trigger] s[k]),
        p_digits_end(s, i) == s.len() || !is_digit(s[p_digits_end(s, i)]),
    decreases s.len() - i,
{
    if i < s.len() && is_digit(s[i]) {
        lemma_digits_end_props(s, i + 1);
    }
}

/// A byte that could lengthen a number token standing before it.
pub open spec fn num_extends(b: u8) -> bool {
    is_digit(b) || b == B_DOT || b == B_LOW_E || b == B_UP_E
}

/// Scanning a valid number lexeme embedded in a larger text, with no
/// token-lengthening byte after it, finds exactly the lexeme.
#[verifier::rlimit(100)]
#[verifier::spinoff_prover]
proof fn lemma_parse_ser_num(lex: Seq<u8>, s: Seq<u8>, i: int)
    requires
        is_number_lexeme(lex),
        0 <= i,
        i + lex.len() <= s.len(),
        s.subrange(i, i + lex.len()) == lex,
        i + lex.len() == s.len() || !num_extends(s[i + lex.len()]),
    ensures
        p_num(s, i) == Some((JsonV::Num(lex), i + lex.len())),
        lex.len() >= 1,
        s[i] == B_MINUS || is_digit(s[i]),
{
    let sl = lex.len() as int;
    let e = i + sl;
    lemma_window(s, lex, i);
    // dissect the lexeme-side scan
    if p_number_end(lex, 0) is None {
        assert(false);
    }
    assert(0 < lex.len());
    let d0l: int = if lex[0] == B_MINUS {
        1
    } else {
        0
    };
    if p_int_end(lex, d0l) is None {
        assert(false);
    }
    let i1l = p_int_end(lex, d0l)->Some_0;
    if p_frac_end(lex, i1l) is None {
        assert(false);
    }
    let f1l = p_frac_end(lex, i1l)->Some_0;
    assert(p_exp_end(lex, f1l) == Some(sl));
    lemma_digits_end_props(lex, d0l);
    assert(d0l < i1l <= sl) by {
        if lex[d0l] == B_ZERO {
        } else {
            assert(i1l == p_digits_end(lex, d0l));
            assert(is_digit(lex[d0l]));
        }
    }
    // the window-side scan takes the same steps
    assert(s[i] == lex[0]);
    let d0 = i + d0l;
    assert(is_digit(lex[d0l]));
    assert(s[d0] == lex[d0l]);
    // integer part
    assert(p_int_end(s, d0) == Some(i + i1l)) by {
        if lex[d0l] == B_ZERO {
        } else {
            assert(i1l == p_digits_end(lex, d0l));
            assert(forall|k: int| d0 <= k < i + i1l ==> is_digit(#[trigger] s[k])) by {
                assert(forall|k: int|
                    d0 <= k < i + i1l ==> s[k] == #[trigger] lex[k - i] && is_digit(lex[k - i]));
            }
            assert(i + i1l == s.len() || !is_digit(s[i + i1l])) by {
                if i1l < sl {
                    assert(s[i + i1l] == lex[i1l]);
                    assert(!is_digit(lex[i1l]));
                }
            }
            lemma_digit_run(s, d0, i + i1l);
        }
    }
    // fraction part
    assert(p_frac_end(s, i + i1l) == Some(i + f1l)) by {
        if i1l < sl && lex[i1l] == B_DOT {
            assert(s[i + i1l] == lex[i1l]);
            lemma_digits_end_props(lex, i1l + 1);
            assert(f1l == p_digits_end(lex, i1l + 1) && f1l > i1l + 1);
            assert(forall|k: int| i + i1l + 1 <= k < i + f1l ==> is_digit(#[trigger] s[k])) by {
                assert(forall|k: int|
                    i + i1l + 1 <= k < i + f1l ==> s[k] == #[trigger] lex[k - i] && is_digit(
                        lex[k - i],
                    ));
            }
            assert(i + f1l == s.len() || !is_digit(s[i + f1l])) by {
                if f1l < sl {
                    assert(s[i + f1l] == lex[f1l]);
                    assert(!is_digit(lex[f1l]));
                }
            }
            lemma_digit_run(s, i + i1l + 1, i + f1l);
        } else {
            assert(f1l == i1l);
            if i + i1l < s.len() {
                assert(s[i + i1l] != B_DOT) by {
                    if i1l < sl {
                        assert(s[i + i1l] == lex[i1l]);
                    }
                }
            }
        }
    }
    // exponent part
    assert(p_exp_end(s, i + f1l) == Some(e)) by {
        if f1l < sl && (lex[f1l] == B_LOW_E || lex[f1l] == B_UP_E) {
            assert(s[i + f1l] == lex[f1l]);
            let d0el: int = if f1l + 1 < sl && (lex[f1l + 1] == B_PLUS || lex[f1l + 1]
                == B_MINUS) {
                f1l + 2
            } else {
                f1l + 1
            };
            lemma_digits_end_props(lex, if d0el <= sl {
                d0el
            } else {
                sl
            });
            assert(p_digits_end(lex, d0el) == sl && sl > d0el);
            assert(d0el < sl);
            let d0e = i + d0el;
            assert(d0e == (if i + f1l + 1 < s.len() && (s[i + f1l + 1] == B_PLUS || s[i + f1l + 1]
                == B_MINUS) {
                i + f1l + 2
            } else {
                i + f1l + 1
            })) by {
                if f1l + 1 < sl {
                    assert(s[i + f1l + 1] == lex[f1l + 1]);
                } else {
                    assert(f1l + 1 == sl);
                    assert(d0el == f1l + 1);
                    if i + f1l + 1 < s.len() {
                        assert(!num_extends(s[e]));
                    }
                }
            }
            assert(forall|k: int| d0e <= k < e ==> is_digit(#[trigger] s[k])) by {
                assert(forall|k: int|
                    d0e <= k < e ==> s[k] == #[trigger] lex[k - i] && is_digit(lex[k - i]));
            }
            assert(e == s.len() || !is_digit(s[e]));
            lemma_digit_run(s, d0e, e);
        } else {
            assert(f1l == sl);
            if e < s.len() {
                assert(!num_extends(s[e]));
            }
        }
    }
    assert(p_number_end(s, i) == Some(e));
    assert(s.subrange(i, e) == lex);
}

/// Unescaping an escaped string content, up to its closing quote,
/// yields the content back.
#[verifier::rlimit(100)]
#[verifier::spinoff_prover]
proof fn lemma_parse_esc(content: Seq<u8>, s: Seq<u8>, i: int)
    requires
        0 <= i,
        i + esc_bytes(content).len() + 1 <= s.len(),
        s.subrange(i, i + esc_bytes(content).len() + 1) == esc_bytes(content) + seq![B_QUOTE],
    ensures
        p_str_body(s, i) == Some((content, i + esc_bytes(content).len() + 1)),
    decreases content.len(),
{
    let eb = esc_bytes(content);
    let t = eb + seq![B_QUOTE];
    let e = i + eb.len() + 1;
    lemma_window(s, t, i);
    if content.len() == 0 {
        assert(s[i] == t[0]);
        assert(t[0] == B_QUOTE);
    } else {
        let b = content[0];
        let tail = content.drop_first();
        let hb = esc_byte(b);
        assert(eb == hb + esc_bytes(tail));
        let i2 = i + hb.len();
        lemma_window_sub(s, t, i, hb.len() as int, t.len() as int);
        assert(t.subrange(hb.len() as int, t.len() as int) =~= esc_bytes(tail) + seq![B_QUOTE]);
        lemma_parse_esc(tail, s, i2);
        if b == B_QUOTE {
            assert(s[i] == t[0] && s[i + 1] == t[1]);
            assert(t[0] == B_BACKSLASH && t[1] == B_QUOTE);
            assert(p_escape(s, i + 1) == Some((seq![B_QUOTE], i + 2)));
            assert(p_str_body(s, i) == Some((seq![b] + tail, e)));
        } else if b == B_BACKSLASH {
            assert(s[i] == t[0] && s[i + 1] == t[1]);
            assert(t[0] == B_BACKSLASH && t[1] == B_BACKSLASH);
            assert(p_escape(s, i + 1) == Some((seq![B_BACKSLASH], i + 2)));
            assert(p_str_body(s, i) == Some((seq![b] + tail, e)));
        } else if b < 32 {
            assert(s[i] == t[0] && s[i + 1] == t[1] && s[i + 2] == t[2] && s[i + 3] == t[3] && s[i
                + 4] == t[4] && s[i + 5] == t[5]);
            assert(t[0] == B_BACKSLASH && t[1] == B_LOW_U && t[2] == B_ZERO && t[3] == B_ZERO);
            assert(t[4] == hex_digit((b / 16) as nat) && t[5] == hex_digit((b % 16) as nat));
            assert(hex_val(B_ZERO) == 0);
            assert(hex_val(hex_digit((b / 16) as nat)) == b / 16);
            assert(hex_val(hex_digit((b % 16) as nat)) == b % 16);
            assert((b / 16) * 16 + b % 16 == b) by {
                lemma_fundamental_div_mod(b as int, 16);
            }
            assert(hex4(s, i + 2) == b);
            assert(utf8_enc(b as int) =~= seq![b]);
            assert(p_escape(s, i + 1) == Some((seq![b], i + 6)));
            assert(p_str_body(s, i) == Some((seq![b] + tail, e)));
        } else {
            assert(s[i] == t[0]);
            assert(t[0] == b);
            assert(s[i] != B_QUOTE && s[i] != B_BACKSLASH && !(s[i] < 32));
            assert(p_str_body(s, i) == Some((seq![b] + tail, e)));
        }
        assert(seq![b] + tail =~= content);
    }
}

/// The first byte of a serialized value: an opening bracket or brace, a
/// quote, a sign or digit, or the first letter of a keyword — never
/// whitespace nor a closing or separating byte.
proof fn lemma_ser_val_first(j: JsonV)
    requires
        wf_num(j),
    ensures
        ser_val(j).len() >= 1,
        ({
            let b = ser_val(j)[0];
            (b == B_LBRACK || b == B_LBRACE || b == B_QUOTE || b == B_MINUS || is_digit(b) || b
                == 110 || b == 116 || b == 102)
        }),
{
    match j {
        JsonV::Num(lex) => {
            if p_number_end(lex, 0) is None {
                assert(false);
            }
            assert(lex.len() >= 1);
            if lex[0] != B_MINUS {
                if p_int_end(lex, 0) is None {
                    assert(false);
                }
                assert(is_digit(lex[0]));
            }
        },
        _ => {},
    }
}

/// Parsing the serialized text of a value, embedded in a larger text
/// and followed by no digit, yields the value back.
#[verifier::rlimit(100)]
#[verifier::spinoff_prover]
proof fn lemma_parse_ser_val(j: JsonV, s: Seq<u8>, i: int)
    requires
        wf_num(j),
        0 <= i,
        i + ser_val(j).len() <= s.len(),
        s.subrange(i, i + ser_val(j).len()) == ser_val(j),
        i + ser_val(j).len() == s.len() || !num_extends(s[i + ser_val(j).len()]),
    ensures
        p_val(s, i) == Some((j, i + ser_val(j).len())),
    decreases j, 0int,
{
    let t = ser_val(j);
    let e = i + t.len();
    lemma_ser_val_first(j);
    lemma_window(s, t, i);
    match j {
        JsonV::Null => {
            assert(s[i] == t[0] && s[i + 1] == t[1] && s[i + 2] == t[2] && s[i + 3] == t[3]);
            assert(t[0] == 110 && t[1] == 117 && t[2] == 108 && t[3] == 108);
            assert(p_val(s, i) == Some((JsonV::Null, i + 4)));
        },
        JsonV::Bool(b) => {
            if b {
                assert(s[i] == t[0] && s[i + 1] == t[1] && s[i + 2] == t[2] && s[i + 3] == t[3]);
                assert(t[0] == 116 && t[1] == 114 && t[2] == 117 && t[3] == 101);
                assert(p_val(s, i) == Some((JsonV::Bool(true), i + 4)));
            } else {
                assert(s[i] == t[0] && s[i + 1] == t[1] && s[i + 2] == t[2] && s[i + 3] == t[3]
                    && s[i + 4] == t[4]);
                assert(t[0] == 102 && t[1] == 97 && t[2] == 108 && t[3] == 115 && t[4] == 101);
                assert(p_val(s, i) == Some((JsonV::Bool(false), i + 5)));
            }
        },
        JsonV::Num(lex) => {
            lemma_parse_ser_num(lex, s, i);
            assert(p_val(s, i) == p_num(s, i));
        },
        JsonV::Str(content) => {
            assert(s[i] == t[0]);
            assert(t[0] == B_QUOTE);
            lemma_window_sub(s, t, i, 1, t.len() as int);
            assert(t.subrange(1, t.len() as int) =~= esc_bytes(content) + seq![B_QUOTE]);
            lemma_parse_esc(content, s, i + 1);
            assert(p_val(s, i) == Some((JsonV::Str(content), e)));
        },
        JsonV::Arr(es) => {
            assert(s[i] == t[0]);
            assert(t[0] == B_LBRACK);
            if es.len() == 0 {
                assert(t.len() == 2);
                assert(s[i + 1] == t[1]);
                assert(t[1] == B_RBRACK);
                assert(!is_ws(B_RBRACK));
                assert(skip_ws(s, i + 1) == i + 1);
                assert(es =~= Seq::<JsonV>::empty());
                assert(p_val(s, i) == Some((JsonV::Arr(es), i + 2)));
            } else {
                let se = ser_elems(es);
                lemma_ser_val_first(es[0]);
                assert(se[0] == ser_val(es[0])[0]) by {
                    if es.len() > 1 {
                        assert(se == ser_val(es[0]) + seq![B_COMMA] + ser_elems(es.drop_first()));
                    }
                }
                assert(s[i + 1] == t[1]);
                assert(t[1] == se[0]);
                assert(!is_ws(s[i + 1]) && s[i + 1] != B_RBRACK);
                assert(skip_ws(s, i + 1) == i + 1);
                lemma_window_sub(s, t, i, 1, 1 + se.len() as int);
                assert(t.subrange(1, 1 + se.len() as int) =~= se);
                assert(s[i + 1 + se.len() as int] == t[1 + se.len() as int]);
                assert(t[1 + se.len() as int] == B_RBRACK);
                lemma_parse_ser_elems(es, s, i + 1);
                assert(p_elems(s, i + 1) == Some((es, e)));
                assert(p_val(s, i) == Some((JsonV::Arr(es), e)));
            }
        },
        JsonV::Obj(ms) => {
            assert(s[i] == t[0]);
            assert(t[0] == B_LBRACE);
            if ms.len() == 0 {
                assert(t.len() == 2);
                assert(s[i + 1] == t[1]);
                assert(t[1] == B_RBRACE);
                assert(!is_ws(B_RBRACE));
                assert(skip_ws(s, i + 1) == i + 1);
                assert(ms =~= Seq::<(Seq<u8>, JsonV)>::empty());
                assert(p_val(s, i) == Some((JsonV::Obj(ms), i + 2)));
            } else {
                let sm = ser_members(ms);
                assert(sm[0] == B_QUOTE) by {
                    assert(ser_member(ms[0])[0] == B_QUOTE);
                    if ms.len() > 1 {
                        assert(sm == ser_member(ms[0]) + seq![B_COMMA] + ser_members(
                            ms.drop_first(),
                        ));
                    }
                }
                assert(s[i + 1] == t[1]);
                assert(t[1] == sm[0]);
                assert(!is_ws(s[i + 1]) && s[i + 1] != B_RBRACE);
                assert(skip_ws(s, i + 1) == i + 1);
                lemma_window_sub(s, t, i, 1, 1 + sm.len() as int);
                assert(t.subrange(1, 1 + sm.len() as int) =~= sm);
                assert(s[i + 1 + sm.len() as int] == t[1 + sm.len() as int]);
                assert(t[1 + sm.len() as int] == B_RBRACE);
                lemma_parse_ser_members(ms, s, i + 1);
                assert(p_members(s, i + 1) == Some((ms, e)));
                assert(p_val(s, i) == Some((JsonV::Obj(ms), e)));
            }
        },
    }
}

/// Parsing serialized array elements followed by the closing bracket
/// yields the elements back.
proof fn lemma_parse_ser_elems(es: Seq<JsonV>, s: Seq<u8>, i: int)
    requires
        es.len() >= 1,
        forall|k: int| 0 <= k < es.len() ==> wf_num(#[trigger] es[k]),
        0 <= i,
        i + ser_elems(es).len() < s.len(),
        s.subrange(i, i + ser_elems(es).len()) == ser_elems(es),
        s[i + ser_elems(es).len()] == B_RBRACK,
    ensures
        p_elems(s, i) == Some((es, i + ser_elems(es).len() + 1)),
    decreases es, 1int,
{
    let t = ser_elems(es);
    let e = i + t.len();
    lemma_window(s, t, i);
    if es.len() == 1 {
        let v = es[0];
        assert(t == ser_val(v));
        assert(!num_extends(B_RBRACK) && !is_ws(B_RBRACK));
        lemma_parse_ser_val(v, s, i);
        assert(p_val(s, i) == Some((v, e)));
        assert(skip_ws(s, e) == e);
        assert(seq![v] =~= es);
        assert(p_elems(s, i) == Some((es, e + 1)));
    } else {
        let v = es[0];
        let tail = es.drop_first();
        let vl = ser_val(v).len() as int;
        assert(t == ser_val(v) + seq![B_COMMA] + ser_elems(tail));
        let k1 = i + vl;
        lemma_window_sub(s, t, i, 0, vl);
        assert(s.subrange(i + 0, i + vl) == s.subrange(i, k1));
        assert(t.subrange(0, vl) =~= ser_val(v));
        assert(s[k1] == t[vl]);
        assert(t[vl] == B_COMMA);
        assert(!num_extends(B_COMMA) && !is_ws(B_COMMA));
        lemma_parse_ser_val(v, s, i);
        assert(p_val(s, i) == Some((v, k1)));
        assert(skip_ws(s, k1) == k1);
        let n = k1 + 1;
        lemma_ser_val_first(tail[0]);
        assert(ser_elems(tail)[0] == ser_val(tail[0])[0]) by {
            if tail.len() > 1 {
                assert(ser_elems(tail) == ser_val(tail[0]) + seq![B_COMMA] + ser_elems(
                    tail.drop_first(),
                ));
            }
        }
        assert(s[n] == t[vl + 1]);
        assert(t[vl + 1] == ser_elems(tail)[0]);
        assert(!is_ws(s[n]));
        assert(skip_ws(s, n) == n);
        lemma_window_sub(s, t, i, vl + 1, t.len() as int);
        assert(t.subrange(vl + 1, t.len() as int) =~= ser_elems(tail));
        assert(forall|k: int|
            0 <= k < tail.len() ==> wf_num(#[trigger] tail[k])) by {
            assert(forall|k: int| 0 <= k < tail.len() ==> tail[k] == es[k + 1]);
        }
        lemma_parse_ser_elems(tail, s, n);
        assert(p_elems(s, n) == Some((tail, e + 1)));
        assert(seq![v] + tail =~= es);
        assert(p_elems(s, i) == Some((es, e + 1)));
    }
}

/// Parsing one serialized member at `i` — a quoted key, a colon, and
/// a value — when what follows can neither lengthen the value nor be
/// skipped as whitespace.
#[verifier::rlimit(100)]
#[verifier::spinoff_prover]
proof fn lemma_parse_one_member(m: (Seq<u8>, JsonV), s: Seq<u8>, i: int)
    requires
        wf_num(m.1),
        0 <= i,
        i + ser_member(m).len() < s.len(),
        s.subrange(i, i + ser_member(m).len()) == ser_member(m),
        !num_extends(s[i + ser_member(m).len()]),
        !is_ws(s[i + ser_member(m).len()]),
    ensures
        ({
            let kl = ser_str(m.0).len() as int;
            let e = i + ser_member(m).len();
            s[i] == B_QUOTE && p_str_body(s, i + 1) == Some((m.0, i + kl)) && skip_ws(s, i + kl)
                == i + kl && i + kl < s.len() && s[i + kl] == B_COLON && skip_ws(s, i + kl + 1)
                == i + kl + 1 && p_val(s, i + kl + 1) == Some((m.1, e)) && skip_ws(s, e) == e
                && ser_val(m.1).len() >= 1 && ser_member(m).len() == kl + 1 + ser_val(m.1).len()
        }),
    decreases m, 0int,
{
    let key = m.0;
    let v = m.1;
    let m0 = ser_member(m);
    let kl = ser_str(key).len() as int;
    let vl = ser_val(v).len() as int;
    let e = i + m0.len();
    assert(m0 == ser_str(key) + seq![B_COLON] + ser_val(v));
    assert(m0.len() == kl + 1 + vl);
    lemma_window(s, m0, i);
    assert(s[i] == m0[0]);
    assert(m0[0] == B_QUOTE);
    lemma_window_sub(s, m0, i, 1, kl);
    assert(m0.subrange(1, kl) =~= esc_bytes(key) + seq![B_QUOTE]);
    lemma_parse_esc(key, s, i + 1);
    let ck = i + kl;
    assert(p_str_body(s, i + 1) == Some((key, ck)));
    assert(s[ck] == m0[kl]);
    assert(m0[kl] == B_COLON);
    assert(!is_ws(B_COLON));
    assert(skip_ws(s, ck) == ck);
    let v0 = ck + 1;
    lemma_ser_val_first(v);
    assert(s[v0] == m0[kl + 1]);
    assert(m0[kl + 1] == ser_val(v)[0]);
    assert(!is_ws(s[v0]));
    assert(skip_ws(s, v0) == v0);
    lemma_window_sub(s, m0, i, kl + 1, m0.len() as int);
    assert(m0.subrange(kl + 1, m0.len() as int) =~= ser_val(v));
    lemma_parse_ser_val(v, s, v0);
    assert(p_val(s, v0) == Some((v, e)));
    assert(skip_ws(s, e) == e);
}

/// Parsing serialized object members followed by the closing brace
/// yields the members back.
#[verifier::rlimit(100)]
#[verifier::spinoff_prover]
proof fn lemma_parse_ser_members(ms: Seq<(Seq<u8>, JsonV)>, s: Seq<u8>, i: int)
    requires
        ms.len() >= 1,
        forall|k: int| 0 <= k < ms.len() ==> wf_num((#[trigger] ms[k]).1),
        0 <= i,
        i + ser_members(ms).len() < s.len(),
        s.subrange(i, i + ser_members(ms).len()) == ser_members(ms),
        s[i + ser_members(ms).len()] == B_RBRACE,
    ensures
        p_members(s, i) == Some((ms, i + ser_members(ms).len() + 1)),
    decreases ms, 1int,
{
    let t = ser_members(ms);
    let e = i + t.len();
    lemma_window(s, t, i);
    let key = ms[0].0;
    let v = ms[0].1;
    let m0 = ser_member(ms[0]);
    let kl = ser_str(key).len() as int;
    assert(t.subrange(0, m0.len() as int) =~= m0) by {
        if ms.len() > 1 {
            assert(t == m0 + seq![B_COMMA] + ser_members(ms.drop_first()));
        }
    }
    lemma_window_sub(s, t, i, 0, m0.len() as int);
    assert(s.subrange(i + 0, i + m0.len() as int) == s.subrange(i, i + m0.len() as int));
    let me = i + m0.len() as int;
    let last: u8 = if ms.len() == 1 {
        B_RBRACE
    } else {
        B_COMMA
    };
    assert(me < s.len() && s[me] == last) by {
        if ms.len() > 1 {
            assert(t == m0 + seq![B_COMMA] + ser_members(ms.drop_first()));
            assert(t[m0.len() as int] == B_COMMA);
            assert(s[me] == t[m0.len() as int]);
        }
    }
    assert(!num_extends(last) && !is_ws(last));
    lemma_parse_one_member(ms[0], s, i);
    let ck = i + kl;
    let k2 = me;
    if ms.len() == 1 {
        assert(seq![(key, v)] =~= ms);
        assert(p_members(s, i) == Some((ms, e + 1)));
    } else {
        let tail = ms.drop_first();
        assert(t == m0 + seq![B_COMMA] + ser_members(tail));
        let n = k2 + 1;
        assert(ser_members(tail)[0] == B_QUOTE) by {
            assert(ser_member(tail[0])[0] == B_QUOTE);
            if tail.len() > 1 {
                assert(ser_members(tail) == ser_member(tail[0]) + seq![B_COMMA] + ser_members(
                    tail.drop_first(),
                ));
            }
        }
        assert(ser_members(tail).len() >= 1) by {
            assert(ser_member(tail[0]) == ser_str(tail[0].0) + seq![B_COLON] + ser_val(
                tail[0].1,
            ));
            if tail.len() > 1 {
                assert(ser_members(tail) == ser_member(tail[0]) + seq![B_COMMA] + ser_members(
                    tail.drop_first(),
                ));
            }
        }
        assert(s[n] == t[m0.len() as int + 1]);
        assert(t[m0.len() as int + 1] == ser_members(tail)[0]);
        assert(!is_ws(s[n]));
        assert(skip_ws(s, n) == n);
        lemma_window_sub(s, t, i, m0.len() as int + 1, t.len() as int);
        assert(t.subrange(m0.len() as int + 1, t.len() as int) =~= ser_members(tail));
        assert(forall|k: int|
            0 <= k < tail.len() ==> wf_num((#[trigger] tail[k]).1)) by {
            assert(forall|k: int| 0 <= k < tail.len() ==> tail[k] == ms[k + 1]);
        }
        lemma_parse_ser_members(tail, s, n);
        assert(p_members(s, n) == Some((tail, e + 1)));
        assert(seq![(key, v)] + tail =~= ms);
        assert(p_members(s, i) == Some((ms, e + 1)));
    }
}

/// Round trip of a whole document: parsing the serialized text of any
/// value whose number tokens are valid yields the value back.
pub proof fn lemma_doc_round_trip(j: JsonV)
    requires
        wf_num(j),
    ensures
        p_doc(ser_val(j)) == Some(j),
{
    let s = ser_val(j);
    lemma_ser_val_first(j);
    assert(!is_ws(s[0]));
    assert(skip_ws(s, 0) == 0);
    assert(s.subrange(0, s.len() as int) =~= s);
    lemma_parse_ser_val(j, s, 0);
    assert(p_val(s, 0) == Some((j, s.len() as int)));
    assert(skip_ws(s, s.len() as int) == s.len());
}

/// The document text of `j`, as one fresh byte vector.
pub fn to_bytes(j: &Json) -> (out: Vec<u8>)
    ensures
        out@ == ser_val(j.jv()),
{
    let mut out: Vec<u8> = Vec::new();
    write_value(j, &mut out);
    proof {
        assert(out@ =~= ser_val(j.jv()));
    }
    out
}

} // verus!
