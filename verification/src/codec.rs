//! Wire codec for [`Style`] records.
//!
//! The edit stream carries a style as a UTF-8 string (the `"layout"`
//! attribute value). The format is fixed-width ASCII: one digit each for
//! direction, justification and alignment, then six dimensions (size
//! width/height, margin start/end/top/bottom), each written as a tag
//! character (`P`oints, per`C`ent, `A`uto, `U`ndefined) followed by the
//! value as eight hexadecimal digits. Decoding any encoded style yields
//! the original record.

use vstd::prelude::*;
use crate::style::{Align, Dimension, Direction, EdgeSpec, Justify, SizeSpec, Style};

verus! {

/// Total length in characters of an encoded style.
pub const STYLE_BLOB_LEN: usize = 57;

pub open spec fn hex_char(v: u32) -> char {
    if v == 0 { '0' } else if v == 1 { '1' } else if v == 2 { '2' } else if v == 3 { '3' }
    else if v == 4 { '4' } else if v == 5 { '5' } else if v == 6 { '6' } else if v == 7 { '7' }
    else if v == 8 { '8' } else if v == 9 { '9' } else if v == 10 { 'a' } else if v == 11 { 'b' }
    else if v == 12 { 'c' } else if v == 13 { 'd' } else if v == 14 { 'e' } else if v == 15 { 'f' }
    else { '?' }
}

/// The value of a hexadecimal digit; 16 marks an invalid character.
pub open spec fn hex_val(c: char) -> u32 {
    if c == '0' { 0 } else if c == '1' { 1 } else if c == '2' { 2 } else if c == '3' { 3 }
    else if c == '4' { 4 } else if c == '5' { 5 } else if c == '6' { 6 } else if c == '7' { 7 }
    else if c == '8' { 8 } else if c == '9' { 9 } else if c == 'a' { 10 } else if c == 'b' { 11 }
    else if c == 'c' { 12 } else if c == 'd' { 13 } else if c == 'e' { 14 } else if c == 'f' { 15 }
    else { 16 }
}

pub open spec fn encode_u32(n: u32) -> Seq<char> {
    seq![
        hex_char((n >> 28) & 0xf),
        hex_char((n >> 24) & 0xf),
        hex_char((n >> 20) & 0xf),
        hex_char((n >> 16) & 0xf),
        hex_char((n >> 12) & 0xf),
        hex_char((n >> 8) & 0xf),
        hex_char((n >> 4) & 0xf),
        hex_char(n & 0xf),
    ]
}

/// Reads eight hexadecimal digits of `s` starting at `off`.
pub open spec fn decode_u32_at(s: Seq<char>, off: int) -> Option<u32> {
    let v0 = hex_val(s[off]);
    let v1 = hex_val(s[off + 1]);
    let v2 = hex_val(s[off + 2]);
    let v3 = hex_val(s[off + 3]);
    let v4 = hex_val(s[off + 4]);
    let v5 = hex_val(s[off + 5]);
    let v6 = hex_val(s[off + 6]);
    let v7 = hex_val(s[off + 7]);
    if v0 < 16 && v1 < 16 && v2 < 16 && v3 < 16 && v4 < 16 && v5 < 16 && v6 < 16 && v7 < 16 {
        Some(
            (v0 << 28) | (v1 << 24) | (v2 << 20) | (v3 << 16) | (v4 << 12) | (v5 << 8) | (v6 << 4)
                | v7,
        )
    } else {
        None
    }
}

pub proof fn lemma_hex_inverse(x: u32)
    requires
        x < 16,
    ensures
        hex_val(hex_char(x)) == x,
{
}

pub proof fn lemma_u32_round_trip(n: u32)
    ensures
        decode_u32_at(encode_u32(n), 0) == Some(n),
{
    let s = encode_u32(n);
    assert((n >> 28) & 0xf < 16 && (n >> 24) & 0xf < 16 && (n >> 20) & 0xf < 16 && (n >> 16) & 0xf
        < 16 && (n >> 12) & 0xf < 16 && (n >> 8) & 0xf < 16 && (n >> 4) & 0xf < 16 && n & 0xf < 16)
        by (bit_vector);
    lemma_hex_inverse((n >> 28) & 0xf);
    lemma_hex_inverse((n >> 24) & 0xf);
    lemma_hex_inverse((n >> 20) & 0xf);
    lemma_hex_inverse((n >> 16) & 0xf);
    lemma_hex_inverse((n >> 12) & 0xf);
    lemma_hex_inverse((n >> 8) & 0xf);
    lemma_hex_inverse((n >> 4) & 0xf);
    lemma_hex_inverse(n & 0xf);
    assert((((n >> 28) & 0xf) << 28) | (((n >> 24) & 0xf) << 24) | (((n >> 20) & 0xf) << 20) | ((((
    n >> 16) & 0xf)) << 16) | (((n >> 12) & 0xf) << 12) | (((n >> 8) & 0xf) << 8) | (((n >> 4)
        & 0xf) << 4) | (n & 0xf) == n) by (bit_vector);
}

pub open spec fn direction_char(d: Direction) -> char {
    match d {
        Direction::Row => '0',
        Direction::Column => '1',
        Direction::RowReverse => '2',
        Direction::ColumnReverse => '3',
    }
}

pub open spec fn direction_of_char(c: char) -> Option<Direction> {
    if c == '0' { Some(Direction::Row) } else if c == '1' { Some(Direction::Column) }
    else if c == '2' { Some(Direction::RowReverse) }
    else if c == '3' { Some(Direction::ColumnReverse) } else { None }
}

pub open spec fn justify_char(j: Justify) -> char {
    match j {
        Justify::FlexStart => '0',
        Justify::FlexEnd => '1',
        Justify::Center => '2',
        Justify::SpaceBetween => '3',
        Justify::SpaceAround => '4',
        Justify::SpaceEvenly => '5',
    }
}

pub open spec fn justify_of_char(c: char) -> Option<Justify> {
    if c == '0' { Some(Justify::FlexStart) } else if c == '1' { Some(Justify::FlexEnd) }
    else if c == '2' { Some(Justify::Center) } else if c == '3' { Some(Justify::SpaceBetween) }
    else if c == '4' { Some(Justify::SpaceAround) } else if c == '5' { Some(Justify::SpaceEvenly) }
    else { None }
}

pub open spec fn align_char(a: Align) -> char {
    match a {
        Align::FlexStart => '0',
        Align::FlexEnd => '1',
        Align::Center => '2',
        Align::Baseline => '3',
        Align::Stretch => '4',
    }
}

pub open spec fn align_of_char(c: char) -> Option<Align> {
    if c == '0' { Some(Align::FlexStart) } else if c == '1' { Some(Align::FlexEnd) }
    else if c == '2' { Some(Align::Center) } else if c == '3' { Some(Align::Baseline) }
    else if c == '4' { Some(Align::Stretch) } else { None }
}

pub open spec fn encode_dim(d: Dimension) -> Seq<char> {
    match d {
        Dimension::Points(v) => seq!['P'] + encode_u32(v),
        Dimension::Percent(v) => seq!['C'] + encode_u32(v),
        Dimension::Auto => seq!['A'] + encode_u32(0),
        Dimension::Undefined => seq!['U'] + encode_u32(0),
    }
}

/// Reads one dimension (tag character plus eight digits) at `off`.
pub open spec fn decode_dim_at(s: Seq<char>, off: int) -> Option<Dimension> {
    let tag = s[off];
    if tag == 'P' {
        match decode_u32_at(s, off + 1) {
            Some(v) => Some(Dimension::Points(v)),
            None => None,
        }
    } else if tag == 'C' {
        match decode_u32_at(s, off + 1) {
            Some(v) => Some(Dimension::Percent(v)),
            None => None,
        }
    } else if tag == 'A' {
        Some(Dimension::Auto)
    } else if tag == 'U' {
        Some(Dimension::Undefined)
    } else {
        None
    }
}

pub open spec fn encode_style_spec(st: Style) -> Seq<char> {
    seq![direction_char(st.direction), justify_char(st.justify), align_char(st.align)]
        + encode_dim(st.size.width) + encode_dim(st.size.height) + encode_dim(st.margin.start)
        + encode_dim(st.margin.end) + encode_dim(st.margin.top) + encode_dim(st.margin.bottom)
}

pub open spec fn decode_style_spec(s: Seq<char>) -> Option<Style> {
    if s.len() != STYLE_BLOB_LEN {
        None
    } else {
        let dir = direction_of_char(s[0]);
        let just = justify_of_char(s[1]);
        let align = align_of_char(s[2]);
        let w = decode_dim_at(s, 3);
        let h = decode_dim_at(s, 12);
        let ms = decode_dim_at(s, 21);
        let me = decode_dim_at(s, 30);
        let mt = decode_dim_at(s, 39);
        let mb = decode_dim_at(s, 48);
        if dir is Some && just is Some && align is Some && w is Some && h is Some && ms is Some
            && me is Some && mt is Some && mb is Some {
            Some(
                Style {
                    direction: dir->0,
                    justify: just->0,
                    align: align->0,
                    size: SizeSpec { width: w->0, height: h->0 },
                    margin: EdgeSpec { start: ms->0, end: me->0, top: mt->0, bottom: mb->0 },
                },
            )
        } else {
            None
        }
    }
}

pub proof fn lemma_encode_dim_len(d: Dimension)
    ensures
        encode_dim(d).len() == 9,
{
}

/// Any style survives one trip through the codec unchanged.
pub proof fn lemma_style_round_trip(st: Style)
    ensures
        decode_style_spec(encode_style_spec(st)) == Some(st),
{
    let s = encode_style_spec(st);
    lemma_encode_dim_len(st.size.width);
    lemma_encode_dim_len(st.size.height);
    lemma_encode_dim_len(st.margin.start);
    lemma_encode_dim_len(st.margin.end);
    lemma_encode_dim_len(st.margin.top);
    lemma_encode_dim_len(st.margin.bottom);
    assert(s.len() == STYLE_BLOB_LEN);
    assert(s[0] == direction_char(st.direction));
    assert(s[1] == justify_char(st.justify));
    assert(s[2] == align_char(st.align));
    assert(s.subrange(3, 12) =~= encode_dim(st.size.width));
    assert(s.subrange(12, 21) =~= encode_dim(st.size.height));
    assert(s.subrange(21, 30) =~= encode_dim(st.margin.start));
    assert(s.subrange(30, 39) =~= encode_dim(st.margin.end));
    assert(s.subrange(39, 48) =~= encode_dim(st.margin.top));
    assert(s.subrange(48, 57) =~= encode_dim(st.margin.bottom));
    lemma_dim_round_trip_at(s, st.size.width, 3);
    lemma_dim_round_trip_at(s, st.size.height, 12);
    lemma_dim_round_trip_at(s, st.margin.start, 21);
    lemma_dim_round_trip_at(s, st.margin.end, 30);
    lemma_dim_round_trip_at(s, st.margin.top, 39);
    lemma_dim_round_trip_at(s, st.margin.bottom, 48);
}

/// A dimension written at `off` of a longer sequence decodes to itself.
proof fn lemma_dim_round_trip_at(s: Seq<char>, d: Dimension, off: int)
    requires
        s.subrange(off, off + 9) == encode_dim(d),
        0 <= off,
        off + 9 <= s.len(),
    ensures
        decode_dim_at(s, off) == Some(d),
{
    let e = encode_dim(d);
    assert forall|i: int| 0 <= i < 9 implies s[off + i] == e[i] by {
        assert(s.subrange(off, off + 9)[i] == s[off + i]);
    }
    assert(s[off] == e[0]) by {
        assert(s[off + 0] == e[0]);
    }
    match d {
        Dimension::Points(v) => {
            lemma_u32_round_trip(v);
            assert(e[0] == 'P');
            assert forall|i: int| 0 <= i < 8 implies s[off + 1 + i] == encode_u32(v)[i] by {
                assert(s[off + (1 + i)] == e[1 + i]);
            }
            assert(s[off + 1] == encode_u32(v)[0]) by { assert(s[off + 1 + 0] == encode_u32(v)[0]); }
            assert(s[off + 1 + 1] == encode_u32(v)[1]);
            assert(s[off + 1 + 2] == encode_u32(v)[2]);
            assert(s[off + 1 + 3] == encode_u32(v)[3]);
            assert(s[off + 1 + 4] == encode_u32(v)[4]);
            assert(s[off + 1 + 5] == encode_u32(v)[5]);
            assert(s[off + 1 + 6] == encode_u32(v)[6]);
            assert(s[off + 1 + 7] == encode_u32(v)[7]);
            assert(decode_u32_at(s, off + 1) == decode_u32_at(encode_u32(v), 0));
        },
        Dimension::Percent(v) => {
            lemma_u32_round_trip(v);
            assert(e[0] == 'C');
            assert forall|i: int| 0 <= i < 8 implies s[off + 1 + i] == encode_u32(v)[i] by {
                assert(s[off + (1 + i)] == e[1 + i]);
            }
            assert(s[off + 1] == encode_u32(v)[0]) by { assert(s[off + 1 + 0] == encode_u32(v)[0]); }
            assert(s[off + 1 + 1] == encode_u32(v)[1]);
            assert(s[off + 1 + 2] == encode_u32(v)[2]);
            assert(s[off + 1 + 3] == encode_u32(v)[3]);
            assert(s[off + 1 + 4] == encode_u32(v)[4]);
            assert(s[off + 1 + 5] == encode_u32(v)[5]);
            assert(s[off + 1 + 6] == encode_u32(v)[6]);
            assert(s[off + 1 + 7] == encode_u32(v)[7]);
            assert(decode_u32_at(s, off + 1) == decode_u32_at(encode_u32(v), 0));
        },
        Dimension::Auto => {
            assert(e[0] == 'A');
        },
        Dimension::Undefined => {
            assert(e[0] == 'U');
        },
    }
}

fn nib_str(x: u32) -> (r: &'static str)
    requires
        x < 16,
    ensures
        r@ == seq![hex_char(x)],
{
    proof {
        reveal_strlit("0");
        reveal_strlit("1");
        reveal_strlit("2");
        reveal_strlit("3");
        reveal_strlit("4");
        reveal_strlit("5");
        reveal_strlit("6");
        reveal_strlit("7");
        reveal_strlit("8");
        reveal_strlit("9");
        reveal_strlit("a");
        reveal_strlit("b");
        reveal_strlit("c");
        reveal_strlit("d");
        reveal_strlit("e");
        reveal_strlit("f");
    }
    let r: &'static str = if x == 0 { "0" } else if x == 1 { "1" } else if x == 2 { "2" }
    else if x == 3 { "3" } else if x == 4 { "4" } else if x == 5 { "5" } else if x == 6 { "6" }
    else if x == 7 { "7" } else if x == 8 { "8" } else if x == 9 { "9" } else if x == 10 { "a" }
    else if x == 11 { "b" } else if x == 12 { "c" } else if x == 13 { "d" } else if x == 14 { "e" }
    else { "f" };
    proof {
        assert(r@ =~= seq![hex_char(x)]);
    }
    r
}

fn push_u32(n: u32, out: &mut String)
    ensures
        final(out)@ == old(out)@ + encode_u32(n),
{
    proof {
        assert((n >> 28) & 0xf < 16 && (n >> 24) & 0xf < 16 && (n >> 20) & 0xf < 16 && (n >> 16)
            & 0xf < 16 && (n >> 12) & 0xf < 16 && (n >> 8) & 0xf < 16 && (n >> 4) & 0xf < 16 && n
            & 0xf < 16) by (bit_vector);
    }
    out.append(nib_str((n >> 28) & 0xf));
    out.append(nib_str((n >> 24) & 0xf));
    out.append(nib_str((n >> 20) & 0xf));
    out.append(nib_str((n >> 16) & 0xf));
    out.append(nib_str((n >> 12) & 0xf));
    out.append(nib_str((n >> 8) & 0xf));
    out.append(nib_str((n >> 4) & 0xf));
    out.append(nib_str(n & 0xf));
    proof {
        assert(final(out)@ =~= old(out)@ + encode_u32(n));
    }
}

fn push_dim(d: &Dimension, out: &mut String)
    ensures
        final(out)@ == old(out)@ + encode_dim(*d),
{
    proof {
        reveal_strlit("P");
        reveal_strlit("C");
        reveal_strlit("A");
        reveal_strlit("U");
    }
    match d {
        Dimension::Points(v) => {
            out.append("P");
            push_u32(*v, out);
        },
        Dimension::Percent(v) => {
            out.append("C");
            push_u32(*v, out);
        },
        Dimension::Auto => {
            out.append("A");
            push_u32(0, out);
        },
        Dimension::Undefined => {
            out.append("U");
            push_u32(0, out);
        },
    }
    proof {
        assert(final(out)@ =~= old(out)@ + encode_dim(*d));
    }
}

/// Serializes a style to its wire form.
pub fn encode_style(st: &Style) -> (out: String)
    ensures
        out@ == encode_style_spec(*st),
{
    let mut out = String::new();
    let dir_code: u32 = match st.direction {
        Direction::Row => 0,
        Direction::Column => 1,
        Direction::RowReverse => 2,
        Direction::ColumnReverse => 3,
    };
    let just_code: u32 = match st.justify {
        Justify::FlexStart => 0,
        Justify::FlexEnd => 1,
        Justify::Center => 2,
        Justify::SpaceBetween => 3,
        Justify::SpaceAround => 4,
        Justify::SpaceEvenly => 5,
    };
    let align_code: u32 = match st.align {
        Align::FlexStart => 0,
        Align::FlexEnd => 1,
        Align::Center => 2,
        Align::Baseline => 3,
        Align::Stretch => 4,
    };
    proof {
        assert(hex_char(dir_code as u32) == direction_char(st.direction));
        assert(hex_char(just_code as u32) == justify_char(st.justify));
        assert(hex_char(align_code as u32) == align_char(st.align));
    }
    out.append(nib_str(dir_code));
    out.append(nib_str(just_code));
    out.append(nib_str(align_code));
    push_dim(&st.size.width, &mut out);
    push_dim(&st.size.height, &mut out);
    push_dim(&st.margin.start, &mut out);
    push_dim(&st.margin.end, &mut out);
    push_dim(&st.margin.top, &mut out);
    push_dim(&st.margin.bottom, &mut out);
    proof {
        assert(out@ =~= encode_style_spec(*st));
    }
    out
}

fn hex_val_exec(c: char) -> (r: u32)
    ensures
        r == hex_val(c),
{
    if c == '0' { 0 } else if c == '1' { 1 } else if c == '2' { 2 } else if c == '3' { 3 }
    else if c == '4' { 4 } else if c == '5' { 5 } else if c == '6' { 6 } else if c == '7' { 7 }
    else if c == '8' { 8 } else if c == '9' { 9 } else if c == 'a' { 10 } else if c == 'b' { 11 }
    else if c == 'c' { 12 } else if c == 'd' { 13 } else if c == 'e' { 14 } else if c == 'f' { 15 }
    else { 16 }
}

fn decode_u32_exec(s: &str, off: usize) -> (r: Option<u32>)
    requires
        off + 8 <= s@.len(),
        off + 8 <= usize::MAX,
    ensures
        r == decode_u32_at(s@, off as int),
{
    let v0 = hex_val_exec(s.get_char(off));
    let v1 = hex_val_exec(s.get_char(off + 1));
    let v2 = hex_val_exec(s.get_char(off + 2));
    let v3 = hex_val_exec(s.get_char(off + 3));
    let v4 = hex_val_exec(s.get_char(off + 4));
    let v5 = hex_val_exec(s.get_char(off + 5));
    let v6 = hex_val_exec(s.get_char(off + 6));
    let v7 = hex_val_exec(s.get_char(off + 7));
    if v0 < 16 && v1 < 16 && v2 < 16 && v3 < 16 && v4 < 16 && v5 < 16 && v6 < 16 && v7 < 16 {
        Some(
            (v0 << 28u32) | (v1 << 24u32) | (v2 << 20u32) | (v3 << 16u32) | (v4 << 12u32) | (v5
                << 8u32) | (v6 << 4u32) | v7,
        )
    } else {
        None
    }
}

fn decode_dim_exec(s: &str, off: usize) -> (r: Option<Dimension>)
    requires
        off + 9 <= s@.len(),
        off + 9 <= usize::MAX,
    ensures
        r == decode_dim_at(s@, off as int),
{
    let tag = s.get_char(off);
    if tag == 'P' {
        match decode_u32_exec(s, off + 1) {
            Some(v) => Some(Dimension::Points(v)),
            None => None,
        }
    } else if tag == 'C' {
        match decode_u32_exec(s, off + 1) {
            Some(v) => Some(Dimension::Percent(v)),
            None => None,
        }
    } else if tag == 'A' {
        Some(Dimension::Auto)
    } else if tag == 'U' {
        Some(Dimension::Undefined)
    } else {
        None
    }
}

/// Parses a style from its wire form; `None` marks a malformed blob.
pub fn decode_style(s: &str) -> (r: Option<Style>)
    ensures
        r == decode_style_spec(s@),
{
    let n = s.unicode_len();
    if n != STYLE_BLOB_LEN {
        return None;
    }
    let dir = match direction_of_char_exec(s.get_char(0)) {
        Some(d) => d,
        None => { return None; },
    };
    let just = match justify_of_char_exec(s.get_char(1)) {
        Some(j) => j,
        None => { return None; },
    };
    let align = match align_of_char_exec(s.get_char(2)) {
        Some(a) => a,
        None => { return None; },
    };
    let w = match decode_dim_exec(s, 3) {
        Some(d) => d,
        None => { return None; },
    };
    let h = match decode_dim_exec(s, 12) {
        Some(d) => d,
        None => { return None; },
    };
    let ms = match decode_dim_exec(s, 21) {
        Some(d) => d,
        None => { return None; },
    };
    let me = match decode_dim_exec(s, 30) {
        Some(d) => d,
        None => { return None; },
    };
    let mt = match decode_dim_exec(s, 39) {
        Some(d) => d,
        None => { return None; },
    };
    let mb = match decode_dim_exec(s, 48) {
        Some(d) => d,
        None => { return None; },
    };
    Some(
        Style {
            direction: dir,
            justify: just,
            align: align,
            size: SizeSpec { width: w, height: h },
            margin: EdgeSpec { start: ms, end: me, top: mt, bottom: mb },
        },
    )
}

fn direction_of_char_exec(c: char) -> (r: Option<Direction>)
    ensures
        r == direction_of_char(c),
{
    if c == '0' { Some(Direction::Row) } else if c == '1' { Some(Direction::Column) }
    else if c == '2' { Some(Direction::RowReverse) }
    else if c == '3' { Some(Direction::ColumnReverse) } else { None }
}

fn justify_of_char_exec(c: char) -> (r: Option<Justify>)
    ensures
        r == justify_of_char(c),
{
    if c == '0' { Some(Justify::FlexStart) } else if c == '1' { Some(Justify::FlexEnd) }
    else if c == '2' { Some(Justify::Center) } else if c == '3' { Some(Justify::SpaceBetween) }
    else if c == '4' { Some(Justify::SpaceAround) } else if c == '5' { Some(Justify::SpaceEvenly) }
    else { None }
}

fn align_of_char_exec(c: char) -> (r: Option<Align>)
    ensures
        r == align_of_char(c),
{
    if c == '0' { Some(Align::FlexStart) } else if c == '1' { Some(Align::FlexEnd) }
    else if c == '2' { Some(Align::Center) } else if c == '3' { Some(Align::Baseline) }
    else if c == '4' { Some(Align::Stretch) } else { None }
}

} // verus!
