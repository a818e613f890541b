//! The self-delimiting record encoding shared by the log and the wire.
//!
//! A record is written as a tagged object, for example
//! `{"Set":{"key":"k","value":"v"}}` or `{"Remove":{"key":"k"}}`.
//! Every string is escaped to plain ASCII: printable characters stand for
//! themselves, quote and backslash get a backslash escape, and every other
//! character is written as `\uXXXX` with lowercase hex digits (two such
//! escapes, a surrogate pair, for characters beyond the basic plane).
//! A reader therefore finds each record boundary from the schema itself,
//! with no length prefix, and the decoder accepts exactly the canonical
//! encodings the encoder produces.

use vstd::prelude::*;

use vstd::arithmetic::div_mod::{
    lemma_div_denominator, lemma_div_pos_is_pos, lemma_fundamental_div_mod,
    lemma_fundamental_div_mod_converse, lemma_mod_division_less_than_divisor,
    lemma_multiply_divide_lt,
};

use vstd::utf8::char_u32_cast;

use crate::record::{replay, Record, RecordModel};

verus! {

// ---------------------------------------------------------------------------
// Specification of the encoding
// ---------------------------------------------------------------------------

/// Lowercase hex digit for a value below 16.
pub open spec fn hex_digit(n: int) -> u8 {
    if n < 10 {
        (48 + n) as u8
    } else {
        (87 + n) as u8
    }
}

/// The six bytes `\uXXXX` for a code unit below `0x10000`.
pub open spec fn esc_u16(x: int) -> Seq<u8> {
    seq![
        92u8,
        117u8,
        hex_digit(x / 4096),
        hex_digit((x / 256) % 16),
        hex_digit((x / 16) % 16),
        hex_digit(x % 16),
    ]
}

/// The escaped bytes of one character.
pub open spec fn esc_char(c: char) -> Seq<u8> {
    let u = (c as u32) as int;
    if c == '"' {
        seq![92u8, 34u8]
    } else if c == '\\' {
        seq![92u8, 92u8]
    } else if 0x20 <= u <= 0x7e {
        seq![u as u8]
    } else if u < 0x10000 {
        esc_u16(u)
    } else {
        esc_u16(0xd800 + (u - 0x10000) / 0x400) + esc_u16(0xdc00 + (u - 0x10000) % 0x400)
    }
}

/// The escaped bytes of a whole string, without the surrounding quotes.
pub open spec fn esc_str(s: Seq<char>) -> Seq<u8>
    decreases s.len(),
{
    if s.len() == 0 {
        Seq::empty()
    } else {
        esc_char(s[0]) + esc_str(s.drop_first())
    }
}

/// A quoted, escaped string.
pub open spec fn quoted(s: Seq<char>) -> Seq<u8> {
    seq![34u8] + esc_str(s) + seq![34u8]
}

/// The bytes of `{"Set":{"key":`.
pub open spec fn set_prefix() -> Seq<u8> {
    seq![123u8, 34u8, 83u8, 101u8, 116u8, 34u8, 58u8, 123u8, 34u8, 107u8, 101u8, 121u8, 34u8, 58u8]
}

/// The bytes of `{"Remove":{"key":`.
pub open spec fn remove_prefix() -> Seq<u8> {
    seq![
        123u8,
        34u8,
        82u8,
        101u8,
        109u8,
        111u8,
        118u8,
        101u8,
        34u8,
        58u8,
        123u8,
        34u8,
        107u8,
        101u8,
        121u8,
        34u8,
        58u8,
    ]
}

/// The bytes of `,"value":`.
pub open spec fn value_sep() -> Seq<u8> {
    seq![44u8, 34u8, 118u8, 97u8, 108u8, 117u8, 101u8, 34u8, 58u8]
}

/// The bytes of `}}`.
pub open spec fn record_suffix() -> Seq<u8> {
    seq![125u8, 125u8]
}

/// The canonical encoding of one record.
pub open spec fn encode_record_model(r: RecordModel) -> Seq<u8> {
    match r {
        RecordModel::Put { key, value } => set_prefix() + quoted(key) + value_sep() + quoted(value)
            + record_suffix(),
        RecordModel::Remove { key } => remove_prefix() + quoted(key) + record_suffix(),
    }
}

/// The concatenated encodings of a sequence of records: the bytes of a log
/// segment holding exactly those records.
pub open spec fn encode_all(rs: Seq<RecordModel>) -> Seq<u8>
    decreases rs.len(),
{
    if rs.len() == 0 {
        Seq::empty()
    } else {
        encode_record_model(rs.first()) + encode_all(rs.drop_first())
    }
}

// ---------------------------------------------------------------------------
// Specification of the decoder
// ---------------------------------------------------------------------------

/// The value of one lowercase hex digit byte, if it is one.
pub open spec fn parse_hex_digit(b: u8) -> Option<int> {
    if 48 <= b <= 57 {
        Some(b - 48)
    } else if 97 <= b <= 102 {
        Some(b - 87)
    } else {
        None
    }
}

/// The value of the four hex digit bytes at `i`, if they are there.
pub open spec fn parse_hex4(d: Seq<u8>, i: int) -> Option<int> {
    if 0 <= i && i + 4 <= d.len() {
        match (parse_hex_digit(d[i]), parse_hex_digit(d[i + 1]), parse_hex_digit(d[i + 2]),
        parse_hex_digit(d[i + 3])) {
            (Some(a), Some(b), Some(c), Some(e)) => Some(4096 * a + 256 * b + 16 * c + e),
            _ => None,
        }
    } else {
        None
    }
}

/// One character of a string body, read at `i`: the character and the
/// position after its bytes. Only the canonical escaping is accepted; a
/// closing quote is not a character and yields `None` here.
pub open spec fn parse_body_char(d: Seq<u8>, i: int) -> Option<(char, int)> {
    if i < 0 || i >= d.len() {
        None
    } else if d[i] == 92 {
        if i + 1 >= d.len() {
            None
        } else if d[i + 1] == 34 {
            Some(('"', i + 2))
        } else if d[i + 1] == 92 {
            Some(('\\', i + 2))
        } else if d[i + 1] == 117 {
            match parse_hex4(d, i + 2) {
                Some(x) => if 0x20 <= x <= 0x7e {
                    None  // canonically written as the plain byte
                } else if 0xd800 <= x < 0xdc00 {
                    if i + 8 <= d.len() && d[i + 6] == 92 && d[i + 7] == 117 {
                        match parse_hex4(d, i + 8) {
                            Some(y) => if 0xdc00 <= y < 0xe000 {
                                Some(
                                    (
                                        ((0x10000 + (x - 0xd800) * 0x400 + (y
                                            - 0xdc00)) as u32) as char,
                                        i + 12,
                                    ),
                                )
                            } else {
                                None
                            },
                            None => None,
                        }
                    } else {
                        None
                    }
                } else if 0xdc00 <= x < 0xe000 {
                    None  // a low surrogate cannot stand alone
                } else {
                    Some(((x as u32) as char, i + 6))
                },
                None => None,
            }
        } else {
            None
        }
    } else if d[i] == 34 {
        None
    } else if 0x20 <= d[i] <= 0x7e {
        Some(((d[i] as u32) as char, i + 1))
    } else {
        None
    }
}

/// A string body read at `i` up to and over its closing quote: the
/// characters and the position after the quote.
pub open spec fn parse_string_body(d: Seq<u8>, i: int) -> Option<(Seq<char>, int)>
    decreases d.len() - i,
{
    if i < 0 || i >= d.len() {
        None
    } else if d[i] == 34 {
        Some((Seq::empty(), i + 1))
    } else {
        match parse_body_char(d, i) {
            Some((c, j)) => if i < j <= d.len() {
                match parse_string_body(d, j) {
                    Some((s, e)) => Some((seq![c] + s, e)),
                    None => None,
                }
            } else {
                None
            },
            None => None,
        }
    }
}

/// A quoted string read at `i`: its characters and the position after the
/// closing quote.
pub open spec fn parse_quoted(d: Seq<u8>, i: int) -> Option<(Seq<char>, int)> {
    if 0 <= i < d.len() && d[i] == 34 {
        parse_string_body(d, i + 1)
    } else {
        None
    }
}

/// True when the bytes `lit` stand at position `i` of `d`.
pub open spec fn has_bytes_at(d: Seq<u8>, i: int, lit: Seq<u8>) -> bool {
    0 <= i && i + lit.len() <= d.len() && d.subrange(i, i + lit.len()) == lit
}

/// One record read at `i`: the record and the position after its bytes.
pub open spec fn parse_record_model(d: Seq<u8>, i: int) -> Option<(RecordModel, int)> {
    if has_bytes_at(d, i, set_prefix()) {
        match parse_quoted(d, i + set_prefix().len()) {
            Some((k, j)) => if has_bytes_at(d, j, value_sep()) {
                match parse_quoted(d, j + value_sep().len()) {
                    Some((v, m)) => if has_bytes_at(d, m, record_suffix()) {
                        Some((RecordModel::Put { key: k, value: v }, m + 2))
                    } else {
                        None
                    },
                    None => None,
                }
            } else {
                None
            },
            None => None,
        }
    } else if has_bytes_at(d, i, remove_prefix()) {
        match parse_quoted(d, i + remove_prefix().len()) {
            Some((k, j)) => if has_bytes_at(d, j, record_suffix()) {
                Some((RecordModel::Remove { key: k }, j + 2))
            } else {
                None
            },
            None => None,
        }
    } else {
        None
    }
}

/// Every complete record readable from position `i` on, in file order,
/// stopping at the first position where no record can be read.
pub open spec fn recover_records(d: Seq<u8>, i: int) -> Seq<RecordModel>
    decreases d.len() - i,
{
    match parse_record_model(d, i) {
        Some((rv, j)) => if i < j <= d.len() {
            seq![rv] + recover_records(d, j)
        } else {
            Seq::empty()
        },
        None => Seq::empty(),
    }
}

/// The position after the last complete record readable from `i` on: the
/// length of the cleanly decodable prefix when started at zero.
pub open spec fn recovered_end(d: Seq<u8>, i: int) -> int
    decreases d.len() - i,
{
    match parse_record_model(d, i) {
        Some((rv, j)) => if i < j <= d.len() {
            recovered_end(d, j)
        } else {
            i
        },
        None => i,
    }
}

/// The visible key-value state a reader rebuilds from the bytes of a log
/// file: the replay of every complete record in its cleanly decodable
/// prefix.
pub open spec fn recover_map(d: Seq<u8>) -> Map<Seq<char>, Seq<char>> {
    replay(recover_records(d, 0))
}

// ---------------------------------------------------------------------------
// Sequence plumbing
// ---------------------------------------------------------------------------

/// The bytes of a literal standing at `i` can be read off one by one.
pub(crate) proof fn lemma_bytes_at_index(d: Seq<u8>, i: int, lit: Seq<u8>)
    requires
        has_bytes_at(d, i, lit),
    ensures
        forall|k: int| 0 <= k < lit.len() ==> d[i + k] == #[trigger] lit[k],
{
    assert forall|k: int| 0 <= k < lit.len() implies d[i + k] == #[trigger] lit[k] by {
        assert(d.subrange(i, i + lit.len())[k] == d[i + k]);
    }
}

/// A concatenation standing at `i` splits into its two halves.
pub(crate) proof fn lemma_bytes_at_split(d: Seq<u8>, i: int, a: Seq<u8>, b: Seq<u8>)
    requires
        has_bytes_at(d, i, a + b),
    ensures
        has_bytes_at(d, i, a),
        has_bytes_at(d, i + a.len(), b),
{
    let whole = d.subrange(i, i + a.len() + b.len());
    assert(whole == a + b);
    assert(d.subrange(i, i + a.len()) =~= a) by {
        assert forall|k: int| 0 <= k < a.len() implies d.subrange(i, i + a.len())[k] == a[k] by {
            assert(whole[k] == (a + b)[k]);
            assert(d[i + k] == whole[k]);
        }
    }
    assert(d.subrange(i + a.len(), i + a.len() + b.len()) =~= b) by {
        assert forall|k: int|
            0 <= k < b.len() implies d.subrange(i + a.len(), i + a.len() + b.len())[k] == b[k] by {
            assert(whole[a.len() + k] == (a + b)[a.len() + k]);
            assert(d[i + a.len() + k] == whole[a.len() + k]);
        }
    }
}

/// Adjacent subranges concatenate.
pub(crate) proof fn lemma_subrange_concat(d: Seq<u8>, i: int, m: int, j: int)
    requires
        0 <= i <= m <= j <= d.len(),
    ensures
        d.subrange(i, j) == d.subrange(i, m) + d.subrange(m, j),
{
    assert(d.subrange(i, j) =~= d.subrange(i, m) + d.subrange(m, j));
}

// ---------------------------------------------------------------------------
// Hex digits
// ---------------------------------------------------------------------------

/// Encoding a digit and reading it back is the identity.
proof fn lemma_hex_digit_roundtrip(n: int)
    requires
        0 <= n < 16,
    ensures
        parse_hex_digit(hex_digit(n)) == Some(n),
{
}

/// A byte that reads as a digit is the encoding of that digit.
proof fn lemma_hex_digit_sound(b: u8, v: int)
    requires
        parse_hex_digit(b) == Some(v),
    ensures
        0 <= v < 16,
        hex_digit(v) == b,
{
}

/// The four hex digits of a value below `0x10000` determine it.
proof fn lemma_hex_decompose(x: int)
    requires
        0 <= x < 0x10000,
    ensures
        x == 4096 * (x / 4096) + 256 * ((x / 256) % 16) + 16 * ((x / 16) % 16) + x % 16,
        0 <= x / 4096 < 16,
        0 <= (x / 256) % 16 < 16,
        0 <= (x / 16) % 16 < 16,
        0 <= x % 16 < 16,
{
    lemma_fundamental_div_mod(x, 16);
    lemma_div_pos_is_pos(x, 16);
    lemma_fundamental_div_mod(x / 16, 16);
    lemma_div_denominator(x, 16, 16);
    lemma_div_pos_is_pos(x / 16, 16);
    lemma_fundamental_div_mod(x / 256, 16);
    lemma_div_denominator(x, 256, 16);
    lemma_div_pos_is_pos(x / 256, 16);
    lemma_multiply_divide_lt(x, 4096, 16);
    lemma_mod_division_less_than_divisor(x, 16);
    lemma_mod_division_less_than_divisor(x / 16, 16);
    lemma_mod_division_less_than_divisor(x / 256, 16);
}

/// Reading four digits that encode `x` yields `x`.
proof fn lemma_parse_hex4_of_esc(d: Seq<u8>, i: int, x: int)
    requires
        0 <= x < 0x10000,
        0 <= i,
        i + 6 <= d.len(),
        d.subrange(i, i + 6) == esc_u16(x),
    ensures
        d[i] == 92,
        d[i + 1] == 117,
        parse_hex4(d, i + 2) == Some(x),
{
    lemma_hex_decompose(x);
    lemma_bytes_at_index(d, i, esc_u16(x));
    lemma_hex_digit_roundtrip(x / 4096);
    lemma_hex_digit_roundtrip((x / 256) % 16);
    lemma_hex_digit_roundtrip((x / 16) % 16);
    lemma_hex_digit_roundtrip(x % 16);
    assert(d[i + 2] == esc_u16(x)[2]);
    assert(d[i + 3] == esc_u16(x)[3]);
    assert(d[i + 4] == esc_u16(x)[4]);
    assert(d[i + 5] == esc_u16(x)[5]);
}

/// Whatever four digits read as is written back as those digits.
proof fn lemma_parse_hex4_sound(d: Seq<u8>, i: int, x: int)
    requires
        parse_hex4(d, i) == Some(x),
    ensures
        0 <= x < 0x10000,
        0 <= i,
        i + 4 <= d.len(),
        d[i] == hex_digit(x / 4096),
        d[i + 1] == hex_digit((x / 256) % 16),
        d[i + 2] == hex_digit((x / 16) % 16),
        d[i + 3] == hex_digit(x % 16),
{
    let a = parse_hex_digit(d[i])->0;
    let b = parse_hex_digit(d[i + 1])->0;
    let c = parse_hex_digit(d[i + 2])->0;
    let e = parse_hex_digit(d[i + 3])->0;
    lemma_hex_digit_sound(d[i], a);
    lemma_hex_digit_sound(d[i + 1], b);
    lemma_hex_digit_sound(d[i + 2], c);
    lemma_hex_digit_sound(d[i + 3], e);
    assert(x == 4096 * a + 256 * b + 16 * c + e);
    lemma_fundamental_div_mod_converse(x, 4096, a, 256 * b + 16 * c + e);
    assert(a == x / 4096);
    lemma_fundamental_div_mod_converse(x, 256, 16 * a + b, 16 * c + e);
    assert(16 * a + b == x / 256);
    lemma_fundamental_div_mod_converse(16 * a + b, 16, a, b);
    assert(b == (x / 256) % 16);
    lemma_fundamental_div_mod_converse(x, 16, 256 * a + 16 * b + c, e);
    assert(256 * a + 16 * b + c == x / 16);
    lemma_fundamental_div_mod_converse(256 * a + 16 * b + c, 16, 16 * a + b, c);
    assert(c == (x / 16) % 16);
    lemma_fundamental_div_mod_converse(x, 16, 256 * a + 16 * b + c, e);
    assert(e == x % 16);
}

// ---------------------------------------------------------------------------
// One character
// ---------------------------------------------------------------------------

/// An escaped character never begins with a quote, and is never empty.
proof fn lemma_esc_char_first(c: char)
    ensures
        esc_char(c).len() >= 1,
        esc_char(c)[0] != 34,
{
}

/// Reading at the canonical escaping of `c` yields `c` and consumes exactly
/// its bytes.
proof fn lemma_parse_char_complete(d: Seq<u8>, i: int, c: char)
    requires
        0 <= i,
        has_bytes_at(d, i, esc_char(c)),
    ensures
        parse_body_char(d, i) == Some((c, i + esc_char(c).len())),
{
    let u = (c as u32) as int;
    let e = esc_char(c);
    lemma_bytes_at_index(d, i, e);
    if c == '"' {
        assert(d[i] == e[0] && d[i + 1] == e[1]);
    } else if c == '\\' {
        assert(d[i] == e[0] && d[i + 1] == e[1]);
    } else if 0x20 <= u && u <= 0x7e {
        assert(d[i] == e[0]);
        assert(d[i] == u as u8);
        assert(d[i] != 92 && d[i] != 34);
        assert(((d[i] as u32) as char) == c);
    } else if u < 0x10000 {
        lemma_parse_hex4_of_esc(d, i, u);
        assert(!(0xd800 <= u && u < 0xe000));
        assert(((u as u32) as char) == c);
    } else {
        let w = u - 0x10000;
        let hi = 0xd800 + w / 0x400;
        let lo = 0xdc00 + w % 0x400;
        lemma_div_pos_is_pos(w, 0x400);
        lemma_multiply_divide_lt(w, 0x400, 0x400);
        lemma_mod_division_less_than_divisor(w, 0x400);
        assert(e == esc_u16(hi) + esc_u16(lo));
        lemma_bytes_at_split(d, i, esc_u16(hi), esc_u16(lo));
        lemma_parse_hex4_of_esc(d, i, hi);
        lemma_parse_hex4_of_esc(d, i + 6, lo);
        lemma_fundamental_div_mod(w, 0x400);
        assert(0x10000 + (hi - 0xd800) * 0x400 + (lo - 0xdc00) == u);
        assert(((u as u32) as char) == c);
    }
}

/// Whatever reads as one character is the canonical escaping of that
/// character.
proof fn lemma_parse_char_sound(d: Seq<u8>, i: int, c: char, j: int)
    requires
        parse_body_char(d, i) == Some((c, j)),
    ensures
        0 <= i < j <= d.len(),
        j == i + esc_char(c).len(),
        d.subrange(i, j) == esc_char(c),
{
    if d[i] == 92 {
        if d[i + 1] == 34 {
            assert(d.subrange(i, j) =~= esc_char('"'));
        } else if d[i + 1] == 92 {
            assert(d.subrange(i, j) =~= esc_char('\\'));
        } else {
            let x = parse_hex4(d, i + 2)->0;
            lemma_parse_hex4_sound(d, i + 2, x);
            if 0xd800 <= x && x < 0xdc00 {
                let y = parse_hex4(d, i + 8)->0;
                lemma_parse_hex4_sound(d, i + 8, y);
                let v = 0x10000 + (x - 0xd800) * 0x400 + (y - 0xdc00);
                assert(v <= 0x10ffff);
                assert(c == (v as u32) as char);
                assert(c as u32 == v);
                let w = v - 0x10000;
                lemma_fundamental_div_mod_converse(w, 0x400, x - 0xd800, y - 0xdc00);
                assert(x == 0xd800 + w / 0x400);
                assert(y == 0xdc00 + w % 0x400);
                assert(esc_char(c) == esc_u16(x) + esc_u16(y));
                assert(d.subrange(i, j) =~= esc_u16(x) + esc_u16(y));
            } else {
                assert(c == (x as u32) as char);
                assert(c as u32 == x);
                assert(c != '"' && c != '\\');
                assert(esc_char(c) == esc_u16(x));
                assert(d.subrange(i, j) =~= esc_u16(x));
            }
        }
    } else {
        let b = d[i];
        assert(c == (b as u32) as char);
        assert(c as u32 == b as u32);
        assert(c != '"' && c != '\\');
        assert(esc_char(c) == seq![b]);
        assert(d.subrange(i, j) =~= seq![b]);
    }
}

// ---------------------------------------------------------------------------
// Whole strings
// ---------------------------------------------------------------------------

/// The escaped bytes of a string, then a closing quote, read back as exactly
/// that string.
pub proof fn lemma_parse_string_complete(d: Seq<u8>, i: int, s: Seq<char>)
    requires
        0 <= i,
        has_bytes_at(d, i, esc_str(s).push(34u8)),
    ensures
        parse_string_body(d, i) == Some((s, i + esc_str(s).len() + 1)),
    decreases s.len(),
{
    lemma_bytes_at_index(d, i, esc_str(s).push(34u8));
    if s.len() == 0 {
        assert(d[i] == esc_str(s).push(34u8)[0]);
    } else {
        let c = s[0];
        let rest = s.drop_first();
        let e0 = esc_char(c);
        assert(esc_str(s) == e0 + esc_str(rest));
        assert(esc_str(s).push(34u8) =~= e0 + esc_str(rest).push(34u8));
        lemma_bytes_at_split(d, i, e0, esc_str(rest).push(34u8));
        lemma_parse_char_complete(d, i, c);
        lemma_esc_char_first(c);
        assert(d[i] == e0[0]);
        let j = i + e0.len();
        lemma_parse_string_complete(d, j, rest);
        assert(seq![c] + rest =~= s);
    }
}

/// Whatever reads as a string body is the canonical escaping of that string,
/// closed by a quote.
pub proof fn lemma_parse_string_sound(d: Seq<u8>, i: int, s: Seq<char>, e: int)
    requires
        parse_string_body(d, i) == Some((s, e)),
    ensures
        0 <= i < e <= d.len(),
        e == i + esc_str(s).len() + 1,
        d.subrange(i, e) == esc_str(s).push(34u8),
    decreases d.len() - i,
{
    if d[i] == 34 {
        assert(d.subrange(i, e) =~= esc_str(s).push(34u8));
    } else {
        let (c, j) = parse_body_char(d, i)->0;
        let (s2, _) = parse_string_body(d, j)->0;
        lemma_parse_char_sound(d, i, c, j);
        lemma_parse_string_sound(d, j, s2, e);
        assert(s == seq![c] + s2);
        assert(s[0] == c && s.drop_first() =~= s2);
        assert(esc_str(s) == esc_char(c) + esc_str(s2));
        lemma_subrange_concat(d, i, j, e);
        assert(d.subrange(i, e) =~= esc_str(s).push(34u8));
    }
}

// ---------------------------------------------------------------------------
// Whole records
// ---------------------------------------------------------------------------

/// The encoding of a record reads back as exactly that record.
pub proof fn lemma_parse_record_complete(d: Seq<u8>, i: int, rv: RecordModel)
    requires
        0 <= i,
        has_bytes_at(d, i, encode_record_model(rv)),
    ensures
        parse_record_model(d, i) == Some((rv, i + encode_record_model(rv).len())),
{
    match rv {
        RecordModel::Put { key, value } => {
            let enc = encode_record_model(rv);
            assert(enc == set_prefix() + quoted(key) + value_sep() + quoted(value)
                + record_suffix());
            assert(enc =~= set_prefix() + (quoted(key) + (value_sep() + (quoted(value)
                + record_suffix()))));
            lemma_bytes_at_split(d, i, set_prefix(), quoted(key) + (value_sep() + (quoted(value)
                + record_suffix())));
            let p = i + set_prefix().len();
            lemma_bytes_at_split(d, p, quoted(key), value_sep() + (quoted(value)
                + record_suffix()));
            assert(quoted(key) =~= seq![34u8] + esc_str(key).push(34u8));
            lemma_bytes_at_split(d, p, seq![34u8], esc_str(key).push(34u8));
            assert(d[p] == d.subrange(p, p + 1)[0]);
            assert(d[p] == 34);
            lemma_parse_string_complete(d, p + 1, key);
            let j = p + 1 + esc_str(key).len() + 1;
            assert(parse_quoted(d, p) == Some((key, j)));
            lemma_bytes_at_split(d, j, value_sep(), quoted(value) + record_suffix());
            let q = j + value_sep().len();
            lemma_bytes_at_split(d, q, quoted(value), record_suffix());
            assert(quoted(value) =~= seq![34u8] + esc_str(value).push(34u8));
            lemma_bytes_at_split(d, q, seq![34u8], esc_str(value).push(34u8));
            assert(d[q] == d.subrange(q, q + 1)[0]);
            assert(d[q] == 34);
            lemma_parse_string_complete(d, q + 1, value);
            let m = q + 1 + esc_str(value).len() + 1;
            assert(parse_quoted(d, q) == Some((value, m)));
            assert(has_bytes_at(d, m, record_suffix()));
            assert(m + 2 == i + enc.len());
        },
        RecordModel::Remove { key } => {
            let enc = encode_record_model(rv);
            assert(enc == remove_prefix() + quoted(key) + record_suffix());
            assert(enc =~= remove_prefix() + (quoted(key) + record_suffix()));
            lemma_bytes_at_split(d, i, remove_prefix(), quoted(key) + record_suffix());
            // the bytes cannot also carry the Put prefix
            if has_bytes_at(d, i, set_prefix()) {
                lemma_bytes_at_index(d, i, set_prefix());
                lemma_bytes_at_index(d, i, remove_prefix());
                assert(d[i + 2] == set_prefix()[2]);
                assert(d[i + 2] == remove_prefix()[2]);
                assert(false);
            }
            let p = i + remove_prefix().len();
            lemma_bytes_at_split(d, p, quoted(key), record_suffix());
            assert(quoted(key) =~= seq![34u8] + esc_str(key).push(34u8));
            lemma_bytes_at_split(d, p, seq![34u8], esc_str(key).push(34u8));
            assert(d[p] == d.subrange(p, p + 1)[0]);
            assert(d[p] == 34);
            lemma_parse_string_complete(d, p + 1, key);
            let j = p + 1 + esc_str(key).len() + 1;
            assert(parse_quoted(d, p) == Some((key, j)));
            assert(has_bytes_at(d, j, record_suffix()));
            assert(j + 2 == i + enc.len());
        },
    }
}

/// Whatever reads as a record is the canonical encoding of that record.
pub proof fn lemma_parse_record_sound(d: Seq<u8>, i: int, rv: RecordModel, j: int)
    requires
        parse_record_model(d, i) == Some((rv, j)),
    ensures
        0 <= i < j <= d.len(),
        j == i + encode_record_model(rv).len(),
        d.subrange(i, j) == encode_record_model(rv),
{
    if has_bytes_at(d, i, set_prefix()) {
        let p = i + set_prefix().len();
        let (key, k) = parse_quoted(d, p)->0;
        lemma_parse_string_sound(d, p + 1, key, k);
        let q = k + value_sep().len();
        let (value, m) = parse_quoted(d, q)->0;
        lemma_parse_string_sound(d, q + 1, value, m);
        assert(rv == RecordModel::Put { key, value });
        assert(j == m + 2);
        lemma_subrange_concat(d, i, p, k);
        lemma_subrange_concat(d, i, k, q);
        lemma_subrange_concat(d, i, q, m);
        lemma_subrange_concat(d, i, m, j);
        assert(d.subrange(p, k) =~= quoted(key)) by {
            lemma_subrange_concat(d, p, p + 1, k);
            assert(d.subrange(p, p + 1) =~= seq![34u8]);
        }
        assert(d.subrange(q, m) =~= quoted(value)) by {
            lemma_subrange_concat(d, q, q + 1, m);
            assert(d.subrange(q, q + 1) =~= seq![34u8]);
        }
        assert(d.subrange(m, j) =~= record_suffix()) by {
            lemma_bytes_at_index(d, m, record_suffix());
        }
        assert(d.subrange(i, j) =~= encode_record_model(rv));
    } else {
        let p = i + remove_prefix().len();
        let (key, k) = parse_quoted(d, p)->0;
        lemma_parse_string_sound(d, p + 1, key, k);
        assert(rv == RecordModel::Remove { key });
        assert(j == k + 2);
        lemma_subrange_concat(d, i, p, k);
        lemma_subrange_concat(d, i, k, j);
        assert(d.subrange(p, k) =~= quoted(key)) by {
            lemma_subrange_concat(d, p, p + 1, k);
            assert(d.subrange(p, p + 1) =~= seq![34u8]);
        }
        assert(d.subrange(k, j) =~= record_suffix()) by {
            lemma_bytes_at_index(d, k, record_suffix());
        }
        assert(d.subrange(i, j) =~= encode_record_model(rv));
    }
}

// ---------------------------------------------------------------------------
// Whole segments
// ---------------------------------------------------------------------------

/// Appending one record to a segment appends its encoding.
pub proof fn lemma_encode_all_snoc(rs: Seq<RecordModel>, r: RecordModel)
    ensures
        encode_all(rs.push(r)) == encode_all(rs) + encode_record_model(r),
    decreases rs.len(),
{
    if rs.len() == 0 {
        assert(rs.push(r)[0] == r);
        assert(rs.push(r).drop_first() =~= rs);
        assert(encode_all(rs.push(r)) == encode_record_model(r) + encode_all(rs));
        assert(encode_record_model(r) + encode_all(rs) =~= encode_record_model(r));
        assert(encode_all(rs) + encode_record_model(r) =~= encode_record_model(r));
    } else {
        assert(rs.push(r).first() == rs.first());
        assert(rs.push(r).drop_first() =~= rs.drop_first().push(r));
        lemma_encode_all_snoc(rs.drop_first(), r);
        assert(encode_all(rs.push(r)) == encode_record_model(rs.first()) + (encode_all(
            rs.drop_first(),
        ) + encode_record_model(r)));
        assert(encode_record_model(rs.first()) + (encode_all(rs.drop_first())
            + encode_record_model(r)) =~= (encode_record_model(rs.first()) + encode_all(
            rs.drop_first(),
        )) + encode_record_model(r));
    }
}

/// A segment holding exactly the encodings of `rs` recovers to exactly `rs`,
/// with nothing left over.
pub proof fn lemma_recover_encode_all(d: Seq<u8>, i: int, rs: Seq<RecordModel>)
    requires
        0 <= i <= d.len(),
        d.subrange(i, d.len() as int) == encode_all(rs),
    ensures
        recover_records(d, i) == rs,
        recovered_end(d, i) == d.len(),
    decreases rs.len(),
{
    if rs.len() == 0 {
        assert(d.len() - i == encode_all(rs).len());
        assert(i == d.len());
        assert(parse_record_model(d, i) is None);
    } else {
        let r0 = rs.first();
        let rest = rs.drop_first();
        assert(encode_all(rs) == encode_record_model(r0) + encode_all(rest));
        assert(has_bytes_at(d, i, encode_record_model(r0) + encode_all(rest))) by {
            assert(i + (encode_record_model(r0) + encode_all(rest)).len() == d.len());
        }
        lemma_bytes_at_split(d, i, encode_record_model(r0), encode_all(rest));
        lemma_parse_record_complete(d, i, r0);
        let j = i + encode_record_model(r0).len();
        assert(d.subrange(j, d.len() as int) == encode_all(rest));
        lemma_recover_encode_all(d, j, rest);
        assert(encode_record_model(r0).len() > 0) by {
            lemma_esc_char_first('a');
        }
        assert(recover_records(d, i) == seq![r0] + rest);
        assert(seq![r0] + rest =~= rs);
    }
}

// ---------------------------------------------------------------------------
// Trusted items
// ---------------------------------------------------------------------------

/// Relies on String::push: it appends the given character to the string.
pub assume_specification[ String::push ](s: &mut String, ch: char)
    ensures
        final(s)@ == old(s)@.push(ch),
;

/// Relies on char::from_u32: it returns the character with the given scalar
/// value, and `None` exactly for surrogate values and values above 0x10FFFF.
pub assume_specification[ char::from_u32 ](v: u32) -> (r: Option<char>)
    ensures
        r matches Some(c) ==> c as u32 == v,
        r is None <==> ((0xd800 <= v && v < 0xe000) || v > 0x10ffff),
;

// ---------------------------------------------------------------------------
// Encoder
// ---------------------------------------------------------------------------

/// Escaping one more character appends its escaping.
proof fn lemma_esc_str_snoc(s: Seq<char>, c: char)
    ensures
        esc_str(s.push(c)) == esc_str(s) + esc_char(c),
    decreases s.len(),
{
    if s.len() == 0 {
        assert(s.push(c)[0] == c);
        assert(s.push(c).drop_first() =~= s);
        assert(esc_str(s.push(c)) == esc_char(c) + esc_str(s));
        assert(esc_char(c) + esc_str(s) =~= esc_char(c));
        assert(esc_str(s) + esc_char(c) =~= esc_char(c));
    } else {
        assert(s.push(c)[0] == s[0]);
        assert(s.push(c).drop_first() =~= s.drop_first().push(c));
        lemma_esc_str_snoc(s.drop_first(), c);
        assert(esc_str(s.push(c)) == esc_char(s[0]) + (esc_str(s.drop_first()) + esc_char(c)));
        assert(esc_char(s[0]) + (esc_str(s.drop_first()) + esc_char(c)) =~= (esc_char(s[0])
            + esc_str(s.drop_first())) + esc_char(c));
    }
}

fn push_hex_digit(out: &mut Vec<u8>, n: u32)
    requires
        n < 16,
    ensures
        final(out)@ == old(out)@.push(hex_digit(n as int)),
{
    if n < 10 {
        out.push((48 + n) as u8);
    } else {
        out.push((87 + n) as u8);
    }
}

fn push_esc_u16(out: &mut Vec<u8>, x: u32)
    requires
        x < 0x10000,
    ensures
        final(out)@ == old(out)@ + esc_u16(x as int),
{
    proof {
        lemma_hex_decompose(x as int);
    }
    out.push(92);
    out.push(117);
    push_hex_digit(out, x / 4096);
    push_hex_digit(out, (x / 256) % 16);
    push_hex_digit(out, (x / 16) % 16);
    push_hex_digit(out, x % 16);
    assert(final(out)@ =~= old(out)@ + esc_u16(x as int));
}

/// Append the canonical escaping of one character.
fn push_escaped_char(out: &mut Vec<u8>, c: char)
    ensures
        final(out)@ == old(out)@ + esc_char(c),
{
    let u = c as u32;
    if c == '"' {
        out.push(92);
        out.push(34);
        assert(final(out)@ =~= old(out)@ + esc_char(c));
    } else if c == '\\' {
        out.push(92);
        out.push(92);
        assert(final(out)@ =~= old(out)@ + esc_char(c));
    } else if 0x20 <= u && u <= 0x7e {
        out.push(u as u8);
        assert(final(out)@ =~= old(out)@ + esc_char(c));
    } else if u < 0x10000 {
        push_esc_u16(out, u);
    } else {
        let w = u - 0x10000;
        proof {
            lemma_div_pos_is_pos(w as int, 0x400);
            lemma_multiply_divide_lt(w as int, 0x400, 0x400);
            lemma_mod_division_less_than_divisor(w as int, 0x400);
        }
        push_esc_u16(out, 0xd800 + w / 0x400);
        push_esc_u16(out, 0xdc00 + w % 0x400);
        assert(final(out)@ =~= old(out)@ + esc_char(c));
    }
}

/// Append the canonical escaping of a whole string, without quotes.
fn push_escaped_str(out: &mut Vec<u8>, s: &str)
    ensures
        final(out)@ == old(out)@ + esc_str(s@),
{
    let n = s.unicode_len();
    let mut i: usize = 0;
    while i < n
        invariant
            i <= n,
            n == s@.len(),
            out@ == old(out)@ + esc_str(s@.subrange(0, i as int)),
        decreases n - i,
    {
        let c = s.get_char(i);
        push_escaped_char(out, c);
        proof {
            lemma_esc_str_snoc(s@.subrange(0, i as int), c);
            assert(s@.subrange(0, i as int + 1) =~= s@.subrange(0, i as int).push(c));
            assert(old(out)@ + esc_str(s@.subrange(0, i as int)) + esc_char(c) =~= old(out)@ + (
            esc_str(s@.subrange(0, i as int)) + esc_char(c)));
        }
        i = i + 1;
    }
    proof {
        assert(s@.subrange(0, n as int) =~= s@);
    }
}

/// Append a quoted, escaped string.
pub(crate) fn push_quoted(out: &mut Vec<u8>, s: &str)
    ensures
        final(out)@ == old(out)@ + quoted(s@),
{
    out.push(34);
    push_escaped_str(out, s);
    out.push(34);
    assert(final(out)@ =~= old(out)@ + quoted(s@));
}

pub(crate) fn push_set_prefix(out: &mut Vec<u8>)
    ensures
        final(out)@ == old(out)@ + set_prefix(),
{
    out.push(123);
    out.push(34);
    out.push(83);
    out.push(101);
    out.push(116);
    out.push(34);
    out.push(58);
    out.push(123);
    out.push(34);
    out.push(107);
    out.push(101);
    out.push(121);
    out.push(34);
    out.push(58);
    assert(final(out)@ =~= old(out)@ + set_prefix());
}

pub(crate) fn push_remove_prefix(out: &mut Vec<u8>)
    ensures
        final(out)@ == old(out)@ + remove_prefix(),
{
    out.push(123);
    out.push(34);
    out.push(82);
    out.push(101);
    out.push(109);
    out.push(111);
    out.push(118);
    out.push(101);
    out.push(34);
    out.push(58);
    out.push(123);
    out.push(34);
    out.push(107);
    out.push(101);
    out.push(121);
    out.push(34);
    out.push(58);
    assert(final(out)@ =~= old(out)@ + remove_prefix());
}

pub(crate) fn push_value_sep(out: &mut Vec<u8>)
    ensures
        final(out)@ == old(out)@ + value_sep(),
{
    out.push(44);
    out.push(34);
    out.push(118);
    out.push(97);
    out.push(108);
    out.push(117);
    out.push(101);
    out.push(34);
    out.push(58);
    assert(final(out)@ =~= old(out)@ + value_sep());
}

/// Serialize one record into its canonical byte encoding.
pub fn encode_record(rec: &Record) -> (out: Vec<u8>)
    ensures
        out@ == encode_record_model(rec@),
{
    let mut out: Vec<u8> = Vec::new();
    match rec {
        Record::Put { key, value } => {
            push_set_prefix(&mut out);
            push_quoted(&mut out, key.as_str());
            push_value_sep(&mut out);
            push_quoted(&mut out, value.as_str());
            out.push(125);
            out.push(125);
            assert(out@ =~= encode_record_model(rec@));
        },
        Record::Remove { key } => {
            push_remove_prefix(&mut out);
            push_quoted(&mut out, key.as_str());
            out.push(125);
            out.push(125);
            assert(out@ =~= encode_record_model(rec@));
        },
    }
    out
}

// ---------------------------------------------------------------------------
// Decoder
// ---------------------------------------------------------------------------

fn decode_hex_digit(b: u8) -> (r: Option<u32>)
    ensures
        match r {
            Some(v) => parse_hex_digit(b) == Some(v as int) && v < 16,
            None => parse_hex_digit(b) is None,
        },
{
    if 48 <= b && b <= 57 {
        Some((b - 48) as u32)
    } else if 97 <= b && b <= 102 {
        Some((b - 87) as u32)
    } else {
        None
    }
}

fn decode_hex4(d: &Vec<u8>, i: usize) -> (r: Option<u32>)
    ensures
        match r {
            Some(x) => parse_hex4(d@, i as int) == Some(x as int) && x < 0x10000,
            None => parse_hex4(d@, i as int) is None,
        },
{
    if d.len() < 4 || i > d.len() - 4 {
        return None;
    }
    let a = decode_hex_digit(d[i]);
    let b = decode_hex_digit(d[i + 1]);
    let c = decode_hex_digit(d[i + 2]);
    let e = decode_hex_digit(d[i + 3]);
    match (a, b, c, e) {
        (Some(a), Some(b), Some(c), Some(e)) => Some(4096 * a + 256 * b + 16 * c + e),
        _ => None,
    }
}

/// Decode one character of a string body at `i`; its canonical bytes only.
fn decode_body_char(d: &Vec<u8>, i: usize) -> (r: Option<(char, usize)>)
    ensures
        match r {
            Some((c, j)) => parse_body_char(d@, i as int) == Some((c, j as int)) && i < j
                <= d.len(),
            None => parse_body_char(d@, i as int) is None,
        },
{
    if i >= d.len() {
        return None;
    }
    let b = d[i];
    if b == 92 {
        if d.len() - i < 2 {
            return None;
        }
        let b1 = d[i + 1];
        if b1 == 34 {
            assert(parse_body_char(d@, i as int) == Some(('"', i as int + 2)));
            Some(('"', i + 2))
        } else if b1 == 92 {
            assert(parse_body_char(d@, i as int) == Some(('\\', i as int + 2)));
            Some(('\\', i + 2))
        } else if b1 == 117 {
            match decode_hex4(d, i + 2) {
                Some(x) => {
                    if 0x20 <= x && x <= 0x7e {
                        None
                    } else if 0xd800 <= x && x < 0xdc00 {
                        if d.len() - i >= 8 && d[i + 6] == 92 && d[i + 7] == 117 {
                            match decode_hex4(d, i + 8) {
                                Some(y) => {
                                    if 0xdc00 <= y && y < 0xe000 {
                                        let v = 0x10000 + (x - 0xd800) * 0x400 + (y - 0xdc00);
                                        assert(v <= 0x10ffff);
                                        let c = char::from_u32(v).unwrap();
                                        proof {
                                            char_u32_cast(c, v);
                                        }
                                        assert(parse_body_char(d@, i as int) == Some(
                                            (c, i as int + 12),
                                        ));
                                        Some((c, i + 12))
                                    } else {
                                        None
                                    }
                                },
                                None => None,
                            }
                        } else {
                            None
                        }
                    } else if 0xdc00 <= x && x < 0xe000 {
                        None
                    } else {
                        let c = char::from_u32(x).unwrap();
                        proof {
                            char_u32_cast(c, x);
                        }
                        assert(parse_body_char(d@, i as int) == Some((c, i as int + 6)));
                        Some((c, i + 6))
                    }
                },
                None => None,
            }
        } else {
            None
        }
    } else if b == 34 {
        None
    } else if 0x20 <= b && b <= 0x7e {
        let c = char::from_u32(b as u32).unwrap();
        proof {
            char_u32_cast(c, b as u32);
        }
        assert(parse_body_char(d@, i as int) == Some((c, i as int + 1)));
        Some((c, i + 1))
    } else {
        None
    }
}

/// The remainder of a string-body parse, with `p` already read.
spec fn with_prefix(p: Seq<char>, r: Option<(Seq<char>, int)>) -> Option<(Seq<char>, int)> {
    match r {
        Some((s, e)) => Some((p + s, e)),
        None => None,
    }
}

/// Decode a string body at `start` up to and over its closing quote.
pub(crate) fn decode_string_body(d: &Vec<u8>, start: usize) -> (r: Option<(String, usize)>)
    ensures
        match r {
            Some((s, e)) => parse_string_body(d@, start as int) == Some((s@, e as int)) && start
                < e <= d.len(),
            None => parse_string_body(d@, start as int) is None,
        },
{
    let mut acc = String::new();
    let mut pos = start;
    loop
        invariant
            start <= pos,
            parse_string_body(d@, start as int) == with_prefix(
                acc@,
                parse_string_body(d@, pos as int),
            ),
        decreases d.len() - pos,
    {
        if pos >= d.len() {
            return None;
        }
        if d[pos] == 34 {
            proof {
                assert(parse_string_body(d@, pos as int) == Some(
                    (Seq::<char>::empty(), pos as int + 1),
                ));
                assert(acc@ + Seq::<char>::empty() =~= acc@);
            }
            return Some((acc, pos + 1));
        }
        match decode_body_char(d, pos) {
            Some((c, j)) => {
                proof {
                    let inner = parse_string_body(d@, j as int);
                    assert(parse_string_body(d@, pos as int) == with_prefix(seq![c], inner));
                    match inner {
                        Some((s2, e)) => {
                            assert(acc@ + (seq![c] + s2) =~= acc@.push(c) + s2);
                        },
                        None => {},
                    }
                }
                acc.push(c);
                pos = j;
            },
            None => {
                return None;
            },
        }
    }
}

fn match_set_prefix(d: &Vec<u8>, i: usize) -> (b: bool)
    ensures
        b == has_bytes_at(d@, i as int, set_prefix()),
{
    if d.len() < 14 || i > d.len() - 14 {
        return false;
    }
    let r = d[i] == 123 && d[i + 1] == 34 && d[i + 2] == 83 && d[i + 3] == 101 && d[i + 4] == 116
        && d[i + 5] == 34 && d[i + 6] == 58 && d[i + 7] == 123 && d[i + 8] == 34 && d[i + 9] == 107
        && d[i + 10] == 101 && d[i + 11] == 121 && d[i + 12] == 34 && d[i + 13] == 58;
    proof {
        if r {
            assert(d@.subrange(i as int, i as int + 14) =~= set_prefix());
        } else {
            if has_bytes_at(d@, i as int, set_prefix()) {
                lemma_bytes_at_index(d@, i as int, set_prefix());
                assert(forall|k: int| 0 <= k < 14 ==> d@[i as int + k] == #[trigger] set_prefix()[k]);
                assert(false);
            }
        }
    }
    r
}

fn match_remove_prefix(d: &Vec<u8>, i: usize) -> (b: bool)
    ensures
        b == has_bytes_at(d@, i as int, remove_prefix()),
{
    if d.len() < 17 || i > d.len() - 17 {
        return false;
    }
    let r = d[i] == 123 && d[i + 1] == 34 && d[i + 2] == 82 && d[i + 3] == 101 && d[i + 4] == 109
        && d[i + 5] == 111 && d[i + 6] == 118 && d[i + 7] == 101 && d[i + 8] == 34 && d[i + 9] == 58
        && d[i + 10] == 123 && d[i + 11] == 34 && d[i + 12] == 107 && d[i + 13] == 101 && d[i + 14]
        == 121 && d[i + 15] == 34 && d[i + 16] == 58;
    proof {
        if r {
            assert(d@.subrange(i as int, i as int + 17) =~= remove_prefix());
        } else {
            if has_bytes_at(d@, i as int, remove_prefix()) {
                lemma_bytes_at_index(d@, i as int, remove_prefix());
                assert(forall|k: int|
                    0 <= k < 17 ==> d@[i as int + k] == #[trigger] remove_prefix()[k]);
                assert(false);
            }
        }
    }
    r
}

fn match_value_sep(d: &Vec<u8>, i: usize) -> (b: bool)
    ensures
        b == has_bytes_at(d@, i as int, value_sep()),
{
    if d.len() < 9 || i > d.len() - 9 {
        return false;
    }
    let r = d[i] == 44 && d[i + 1] == 34 && d[i + 2] == 118 && d[i + 3] == 97 && d[i + 4] == 108
        && d[i + 5] == 117 && d[i + 6] == 101 && d[i + 7] == 34 && d[i + 8] == 58;
    proof {
        if r {
            assert(d@.subrange(i as int, i as int + 9) =~= value_sep());
        } else {
            if has_bytes_at(d@, i as int, value_sep()) {
                lemma_bytes_at_index(d@, i as int, value_sep());
                assert(forall|k: int| 0 <= k < 9 ==> d@[i as int + k] == #[trigger] value_sep()[k]);
                assert(false);
            }
        }
    }
    r
}

pub(crate) fn match_record_suffix(d: &Vec<u8>, i: usize) -> (b: bool)
    ensures
        b == has_bytes_at(d@, i as int, record_suffix()),
{
    if d.len() < 2 || i > d.len() - 2 {
        return false;
    }
    let r = d[i] == 125 && d[i + 1] == 125;
    proof {
        if r {
            assert(d@.subrange(i as int, i as int + 2) =~= record_suffix());
        } else {
            if has_bytes_at(d@, i as int, record_suffix()) {
                lemma_bytes_at_index(d@, i as int, record_suffix());
                assert(forall|k: int|
                    0 <= k < 2 ==> d@[i as int + k] == #[trigger] record_suffix()[k]);
                assert(false);
            }
        }
    }
    r
}

/// Decode one complete record at `start`, reporting the record and the
/// position after its bytes; `None` when no complete canonical record
/// stands there.
pub fn decode_record(d: &Vec<u8>, start: usize) -> (r: Option<(Record, usize)>)
    ensures
        match r {
            Some((rec, next)) => parse_record_model(d@, start as int) == Some(
                (rec@, next as int),
            ) && start < next <= d.len(),
            None => parse_record_model(d@, start as int) is None,
        },
{
    if match_set_prefix(d, start) {
        proof {
            assert(set_prefix().len() == 14);
            assert(start + 14 <= d.len());
        }
        let p = start + 14;
        if p < d.len() && d[p] == 34 {
            match decode_string_body(d, p + 1) {
                Some((key, j)) => {
                    if match_value_sep(d, j) {
                        let q = j + 9;
                        if q < d.len() && d[q] == 34 {
                            match decode_string_body(d, q + 1) {
                                Some((value, m)) => {
                                    if match_record_suffix(d, m) {
                                        let rec = Record::Put { key, value };
                                        Some((rec, m + 2))
                                    } else {
                                        None
                                    }
                                },
                                None => None,
                            }
                        } else {
                            None
                        }
                    } else {
                        None
                    }
                },
                None => None,
            }
        } else {
            None
        }
    } else if match_remove_prefix(d, start) {
        proof {
            assert(remove_prefix().len() == 17);
            assert(start + 17 <= d.len());
        }
        let p = start + 17;
        if p < d.len() && d[p] == 34 {
            match decode_string_body(d, p + 1) {
                Some((key, j)) => {
                    if match_record_suffix(d, j) {
                        let rec = Record::Remove { key };
                        Some((rec, j + 2))
                    } else {
                        None
                    }
                },
                None => None,
            }
        } else {
            None
        }
    } else {
        None
    }
}

} // verus!
