use vstd::arithmetic::div_mod::lemma_fundamental_div_mod_converse;
use vstd::prelude::*;

use crate::error::Error;
use crate::util::{ascii_chars, string_from_ascii};
use vstd::string::StringSliceAdditionalSpecFns;

verus! {

/// One keyboard layer: 120 big-endian 16-bit scancodes.
pub const LAYER_DATA_LEN: usize = 240;

/// One profile: 4 concatenated layer-data blocks.
pub const PROFILE_DATA_LEN: usize = 960;

/// Length in bytes of the text document for one profile. Each of the 4
/// layers renders as a 25-byte section head, 8 rows of 122 bytes, and a
/// 2-byte closing; the layer sections are separated by blank lines.
pub const DOC_LEN: usize = 4015;

/// The scancode at index `k` of a profile blob, read big-endian.
pub open spec fn spec_scancode(d: Seq<u8>, k: int) -> u16
    recommends
        0 <= k,
        2 * k + 1 < d.len(),
{
    (d[2 * k] as u16 * 256 + d[2 * k + 1] as u16) as u16
}

/// Lower-case hexadecimal digit for a nibble; out-of-range values (which
/// never arise from a nibble) map to '0'.
pub open spec fn spec_hex_digit(n: int) -> u8 {
    if 0 <= n < 10 {
        (48 + n) as u8  // '0'..'9'
    } else if 10 <= n < 16 {
        (87 + n) as u8  // 'a'..'f'
    } else {
        48u8
    }
}

/// Byte `j` of the 25-byte layer section head `[[layers]]\nscancodes = [\n`.
pub open spec fn spec_header_byte(j: int) -> u8 {
    if j == 0 { 91u8 } else if j == 1 { 91u8 } else if j == 2 { 108u8 } else if j == 3 { 97u8 }
    else if j == 4 { 121u8 } else if j == 5 { 101u8 } else if j == 6 { 114u8 }
    else if j == 7 { 115u8 } else if j == 8 { 93u8 } else if j == 9 { 93u8 }
    else if j == 10 { 10u8 } else if j == 11 { 115u8 } else if j == 12 { 99u8 }
    else if j == 13 { 97u8 } else if j == 14 { 110u8 } else if j == 15 { 99u8 }
    else if j == 16 { 111u8 } else if j == 17 { 100u8 } else if j == 18 { 101u8 }
    else if j == 19 { 115u8 } else if j == 20 { 32u8 } else if j == 21 { 61u8 }
    else if j == 22 { 32u8 } else if j == 23 { 91u8 } else { 10u8 }
}

/// Byte `u` of one rendered scancode entry: `0x`, four hexadecimal digits,
/// a comma, then a space, or a newline after the last entry of a row.
pub open spec fn spec_entry_byte(v: u16, last: bool, u: int) -> u8 {
    if u == 0 { 48u8 }  // '0'
    else if u == 1 { 120u8 }  // 'x'
    else if u == 2 { spec_hex_digit(v as int / 4096) }
    else if u == 3 { spec_hex_digit(v as int / 256 % 16) }
    else if u == 4 { spec_hex_digit(v as int / 16 % 16) }
    else if u == 5 { spec_hex_digit(v as int % 16) }
    else if u == 6 { 44u8 }  // ','
    else if last { 10u8 }  // '\n'
    else { 32u8 }  // ' '
}

/// Byte `j` of layer `l`'s section: the head, then 8 rows of 15 entries
/// indented by two spaces, then `]` and a newline.
pub open spec fn spec_layer_byte(d: Seq<u8>, l: int, j: int) -> u8
    recommends
        0 <= l < 4,
        0 <= j < 1003,
{
    if j < 25 {
        spec_header_byte(j)
    } else if j < 1001 {
        let r = (j - 25) / 122;
        let c = (j - 25) % 122;
        if c < 2 {
            32u8  // row indent
        } else {
            let t = (c - 2) / 8;
            let u = (c - 2) % 8;
            spec_entry_byte(spec_scancode(d, l * 120 + r * 15 + t), t == 14, u)
        }
    } else if j == 1001 {
        93u8  // ']'
    } else {
        10u8  // '\n'
    }
}

/// Byte `i` of the whole document: four layer sections of 1003 bytes, a
/// blank-line separator after each of the first three.
pub open spec fn spec_doc_byte(d: Seq<u8>, i: int) -> u8
    recommends
        0 <= i < DOC_LEN,
{
    let l = i / 1004;
    let j = i % 1004;
    if j == 1003 {
        10u8
    } else {
        spec_layer_byte(d, l, j)
    }
}

/// The text document, as bytes, for a 960-byte profile blob.
pub open spec fn spec_doc(d: Seq<u8>) -> Seq<u8>
    recommends
        d.len() == PROFILE_DATA_LEN,
{
    Seq::new(DOC_LEN as nat, |i: int| spec_doc_byte(d, i))
}

/// Places byte `i = l * 1004 + j` of the document within layer section `l`.
proof fn lemma_doc_pos(d: Seq<u8>, l: int, j: int)
    requires
        0 <= l < 4,
        0 <= j < 1004,
        l * 1004 + j < DOC_LEN,
    ensures
        spec_doc_byte(d, l * 1004 + j) == if j == 1003 { 10u8 } else { spec_layer_byte(d, l, j) },
{
    lemma_fundamental_div_mod_converse(l * 1004 + j, 1004, l, j);
}

/// The two indent bytes at the start of row `r` of a layer section.
proof fn lemma_layer_pad(d: Seq<u8>, l: int, r: int, c: int)
    requires
        0 <= l < 4,
        0 <= r < 8,
        0 <= c < 2,
    ensures
        spec_layer_byte(d, l, 25 + r * 122 + c) == 32u8,
{
    lemma_fundamental_div_mod_converse(r * 122 + c, 122, r, c);
}

/// Byte `u` of entry `t` of row `r` of a layer section renders scancode
/// `l * 120 + r * 15 + t`.
proof fn lemma_layer_entry(d: Seq<u8>, l: int, r: int, t: int, u: int)
    requires
        0 <= l < 4,
        0 <= r < 8,
        0 <= t < 15,
        0 <= u < 8,
    ensures
        spec_layer_byte(d, l, 25 + r * 122 + 2 + t * 8 + u) == spec_entry_byte(
            spec_scancode(d, l * 120 + r * 15 + t),
            t == 14,
            u,
        ),
{
    lemma_fundamental_div_mod_converse(r * 122 + 2 + t * 8 + u, 122, r, 2 + t * 8 + u);
    lemma_fundamental_div_mod_converse(t * 8 + u, 8, t, u);
}

/// Every byte of every document is printable ASCII or a newline.
proof fn lemma_doc_byte_ascii(d: Seq<u8>)
    ensures
        forall|i: int| 0 <= i < DOC_LEN ==> spec_doc_byte(d, i) < 128,
{
}

/// Nibbles of a big-endian byte pair, as they appear in the rendered
/// hexadecimal literal.
proof fn lemma_pair_nibbles(a: u8, c: u8)
    ensures
        (a as int * 256 + c as int) / 4096 == a as int / 16,
        (a as int * 256 + c as int) / 256 % 16 == a as int % 16,
        (a as int * 256 + c as int) / 16 % 16 == c as int / 16,
        (a as int * 256 + c as int) % 16 == c as int % 16,
{
    let v = a as int * 256 + c as int;
    let ah = a as int / 16;
    let al = a as int % 16;
    let ch = c as int / 16;
    let cl = c as int % 16;
    assert(a as int == ah * 16 + al && c as int == ch * 16 + cl);
    lemma_fundamental_div_mod_converse(v, 4096, ah, al * 256 + c as int);
    lemma_fundamental_div_mod_converse(v, 256, a as int, c as int);
    lemma_fundamental_div_mod_converse(v, 16, a as int * 16 + ch, cl);
    lemma_fundamental_div_mod_converse(a as int * 16 + ch, 16, a as int, ch);
}

/// Appends the 25-byte layer section head.
fn push_header(buf: &mut Vec<u8>)
    ensures
        final(buf)@.len() == old(buf)@.len() + 25,
        forall|i: int| 0 <= i < old(buf)@.len() ==> final(buf)@[i] == old(buf)@[i],
        forall|j: int| 0 <= j < 25 ==> final(buf)@[old(buf)@.len() + j] == spec_header_byte(j),
{
    buf.push(91);
    buf.push(91);
    buf.push(108);
    buf.push(97);
    buf.push(121);
    buf.push(101);
    buf.push(114);
    buf.push(115);
    buf.push(93);
    buf.push(93);
    buf.push(10);
    buf.push(115);
    buf.push(99);
    buf.push(97);
    buf.push(110);
    buf.push(99);
    buf.push(111);
    buf.push(100);
    buf.push(101);
    buf.push(115);
    buf.push(32);
    buf.push(61);
    buf.push(32);
    buf.push(91);
    buf.push(10);
}

/// The hexadecimal digit for a nibble.
fn hex_digit(n: u8) -> (r: u8)
    requires
        n < 16,
    ensures
        r == spec_hex_digit(n as int),
{
    if n < 10 {
        48 + n
    } else {
        87 + n
    }
}

/// Appends one rendered scancode entry.
fn push_entry(buf: &mut Vec<u8>, v: u16, last: bool)
    ensures
        final(buf)@.len() == old(buf)@.len() + 8,
        forall|i: int| 0 <= i < old(buf)@.len() ==> final(buf)@[i] == old(buf)@[i],
        forall|u: int|
            0 <= u < 8 ==> final(buf)@[old(buf)@.len() + u] == spec_entry_byte(v, last, u),
{
    proof {
        assert(v / 4096 < 16 && v / 256 % 16 < 16 && v / 16 % 16 < 16 && v % 16 < 16)
            by (bit_vector);
    }
    buf.push(48);
    buf.push(120);
    buf.push(hex_digit((v / 4096) as u8));
    buf.push(hex_digit((v / 256 % 16) as u8));
    buf.push(hex_digit((v / 16 % 16) as u8));
    buf.push(hex_digit((v % 16) as u8));
    buf.push(44);
    buf.push(if last { 10 } else { 32 });
}

/// The scancode at index `k` of a profile blob.
fn scancode_at(profile_data: &[u8], k: usize) -> (r: u16)
    requires
        k < 480,
        2 * k + 1 < profile_data@.len(),
    ensures
        r == spec_scancode(profile_data@, k as int),
{
    profile_data[2 * k] as u16 * 256 + profile_data[2 * k + 1] as u16
}

/// Appends layer `l`'s 1003-byte section.
#[verifier::loop_isolation(false)]
#[verifier::rlimit(100)]
fn push_layer(buf: &mut Vec<u8>, profile_data: &[u8], l: usize)
    requires
        profile_data@.len() == PROFILE_DATA_LEN,
        l < 4,
    ensures
        final(buf)@.len() == old(buf)@.len() + 1003,
        forall|i: int| 0 <= i < old(buf)@.len() ==> final(buf)@[i] == old(buf)@[i],
        forall|j: int|
            0 <= j < 1003 ==> final(buf)@[old(buf)@.len() + j] == spec_layer_byte(
                profile_data@,
                l as int,
                j,
            ),
{
    let ghost base = old(buf)@.len() as int;
    let ghost d = profile_data@;
    push_header(buf);
    let mut r: usize = 0;
    while r < 8
        invariant
            r <= 8,
            l < 4,
            profile_data@ == d,
            d.len() == PROFILE_DATA_LEN,
            buf@.len() == base + 25 + r * 122,
            forall|i: int| 0 <= i < base ==> buf@[i] == old(buf)@[i],
            forall|j: int|
                0 <= j < 25 + r * 122 ==> buf@[base + j] == spec_layer_byte(d, l as int, j),
        decreases 8 - r,
    {
        let ghost row_base = buf@.len() as int;
        buf.push(32);
        buf.push(32);
        proof {
            lemma_layer_pad(d, l as int, r as int, 0);
            lemma_layer_pad(d, l as int, r as int, 1);
            assert forall|j: int| 0 <= j < 25 + r * 122 + 2 implies #[trigger] buf@[base + j]
                == spec_layer_byte(d, l as int, j) by {
                if j == 25 + r * 122 {
                    assert(base + j == row_base);
                } else if j == 25 + r * 122 + 1 {
                    assert(base + j == row_base + 1);
                }
            }
        }
        let mut t: usize = 0;
        while t < 15
            invariant
                t <= 15,
                r < 8,
                l < 4,
                profile_data@ == d,
                d.len() == PROFILE_DATA_LEN,
                buf@.len() == base + 25 + r * 122 + 2 + t * 8,
                forall|i: int| 0 <= i < base ==> buf@[i] == old(buf)@[i],
                forall|j: int|
                    0 <= j < 25 + r * 122 + 2 + t * 8 ==> buf@[base + j] == spec_layer_byte(
                        d,
                        l as int,
                        j,
                    ),
            decreases 15 - t,
        {
            let v = scancode_at(profile_data, l * 120 + r * 15 + t);
            let ghost prev = buf@.len() as int;
            push_entry(buf, v, t == 14);
            proof {
                assert forall|j: int| 25 + r * 122 + 2 + t * 8 <= j < 25 + r * 122 + 2 + t * 8 + 8
                    implies #[trigger] buf@[base + j] == spec_layer_byte(d, l as int, j) by {
                    let u = j - (25 + r * 122 + 2 + t * 8);
                    assert(base + j == prev + u);
                    lemma_layer_entry(d, l as int, r as int, t as int, u);
                    assert(j == 25 + r * 122 + 2 + t * 8 + u);
                }
            }
            t += 1;
        }
        r += 1;
    }
    buf.push(93);
    buf.push(10);
}

/// Renders a profile blob as its document bytes.
fn doc_bytes(profile_data: &[u8]) -> (r: Vec<u8>)
    requires
        profile_data@.len() == PROFILE_DATA_LEN,
    ensures
        r@.len() == DOC_LEN,
        forall|i: int| 0 <= i < DOC_LEN ==> r@[i] == spec_doc_byte(profile_data@, i),
{
    let ghost d = profile_data@;
    let mut buf: Vec<u8> = Vec::new();
    let mut l: usize = 0;
    while l < 4
        invariant
            l <= 4,
            profile_data@ == d,
            d.len() == PROFILE_DATA_LEN,
            buf@.len() == if l == 4 { DOC_LEN as int } else { l * 1004 },
            forall|i: int| 0 <= i < buf@.len() ==> buf@[i] == spec_doc_byte(d, i),
        decreases 4 - l,
    {
        let ghost prev = buf@.len() as int;
        push_layer(&mut buf, profile_data, l);
        proof {
            assert forall|i: int| prev <= i < prev + 1003 implies #[trigger] buf@[i]
                == spec_doc_byte(d, i) by {
                let j = i - prev;
                assert(buf@[prev + j] == spec_layer_byte(d, l as int, j));
                lemma_doc_pos(d, l as int, j);
                assert(i == l * 1004 + j);
            }
        }
        if l < 3 {
            proof {
                lemma_doc_pos(d, l as int, 1003);
                assert(buf@.len() == l * 1004 + 1003);
            }
            buf.push(10);
        }
        l += 1;
    }
    buf
}

/// Renders a 960-byte profile blob as its structured text document: 4 layer
/// sections, each listing 120 scancodes as `0x`-prefixed 4-digit hexadecimal
/// literals, 15 per row.
pub fn serialize_to_toml_string(profile_data: &[u8]) -> (r: String)
    requires
        profile_data@.len() == PROFILE_DATA_LEN,
    ensures
        r@ == ascii_chars(spec_doc(profile_data@)),
{
    let buf = doc_bytes(profile_data);
    proof {
        lemma_doc_byte_ascii(profile_data@);
        assert(buf@ =~= spec_doc(profile_data@));
    }
    string_from_ascii(buf)
}

/// A whitespace byte: space, tab, carriage return or newline.
pub open spec fn is_ws_byte(b: u8) -> bool {
    b == 32 || b == 9 || b == 13 || b == 10
}

/// The value of a hexadecimal digit byte, upper or lower case, or -1 for
/// any other byte.
pub open spec fn spec_hex_val(b: u8) -> int {
    if 48 <= b <= 57 {
        b - 48
    } else if 97 <= b <= 102 {
        b - 87
    } else if 65 <= b <= 70 {
        b - 55
    } else {
        -1
    }
}

/// Where the scanner stands in the document dialect.
#[derive(Clone, Copy, Debug, PartialEq, Eq, Structural)]
pub enum Phase {
    /// Matching the section head tokens `[[layers]]`, `scancodes`, `=`, `[`.
    Head,
    /// Expecting the `0` that opens a scancode literal.
    Num0,
    /// Expecting the `x` after the literal's leading `0`.
    NumX,
    /// Reading the literal's hexadecimal digits.
    Digits,
    /// After a literal's digits, expecting its separating comma.
    AfterNum,
    /// Expecting the `]` that closes a layer's scancode array.
    RBrack,
    /// All four layers read; only trailing whitespace may follow.
    End,
    /// The input left the dialect; absorbing.
    Failed,
}

/// The scanner's whole state: phase, position in the current head literal,
/// digit count and value of the current literal, scancodes taken in the
/// current layer, layers completed, and the bytes decoded so far.
#[verifier::ext_equal]
pub ghost struct ScanSt {
    pub phase: Phase,
    pub hn: int,
    pub cd: int,
    pub acc: int,
    pub ct: int,
    pub cl: int,
    pub out: Seq<u8>,
}

/// Byte `n` of the section head with its whitespace removed:
/// `[[layers]]scancodes=[`. Whitespace is permitted before the document,
/// after `]]`, after `scancodes`, and after `=`.
pub open spec fn spec_head_byte(n: int) -> u8 {
    if n < 10 {
        spec_header_byte(n)
    } else if n < 19 {
        spec_header_byte(n + 1)
    } else if n == 19 {
        61u8  // '='
    } else {
        91u8  // '['
    }
}

/// Whether head position `n` sits at a token boundary, where any run of
/// whitespace is accepted.
pub open spec fn head_ws_ok(n: int) -> bool {
    n == 0 || n == 10 || n == 19 || n == 20
}

/// The scanner's initial state.
pub open spec fn spec_scan_init() -> ScanSt {
    ScanSt { phase: Phase::Head, hn: 0, cd: 0, acc: 0, ct: 0, cl: 0, out: Seq::empty() }
}

/// The absorbing failure state.
pub open spec fn spec_scan_fail() -> ScanSt {
    ScanSt { phase: Phase::Failed, hn: 0, cd: 0, acc: 0, ct: 0, cl: 0, out: Seq::empty() }
}

/// Finishes a scancode literal at its comma: append its two big-endian
/// bytes and move to the next literal, or to the closing bracket after the
/// layer's 120th.
pub open spec fn spec_scan_emit(st: ScanSt) -> ScanSt {
    let out2 = st.out.push((st.acc / 256) as u8).push((st.acc % 256) as u8);
    if st.ct == 119 {
        ScanSt { phase: Phase::RBrack, hn: 0, cd: 0, acc: 0, ct: 120, cl: st.cl, out: out2 }
    } else {
        ScanSt { phase: Phase::Num0, hn: 0, cd: 0, acc: 0, ct: st.ct + 1, cl: st.cl, out: out2 }
    }
}

/// One byte of the scan. The dialect is the canonical document's token
/// stream under any whitespace layout: four `[[layers]]` sections, each
/// listing exactly 120 comma-terminated `0x` hexadecimal literals of one
/// to four digits.
pub open spec fn spec_scan_step(st: ScanSt, b: u8) -> ScanSt {
    match st.phase {
        Phase::Head => if is_ws_byte(b) && head_ws_ok(st.hn) {
            st
        } else if b == spec_head_byte(st.hn) {
            if st.hn == 20 {
                ScanSt { phase: Phase::Num0, hn: 0, ..st }
            } else {
                ScanSt { phase: Phase::Head, hn: st.hn + 1, ..st }
            }
        } else {
            spec_scan_fail()
        },
        Phase::Num0 => if is_ws_byte(b) {
            st
        } else if b == 48 {
            ScanSt { phase: Phase::NumX, ..st }
        } else {
            spec_scan_fail()
        },
        Phase::NumX => if b == 120 {
            ScanSt { phase: Phase::Digits, cd: 0, acc: 0, ..st }
        } else {
            spec_scan_fail()
        },
        Phase::Digits => if spec_hex_val(b) >= 0 {
            if st.cd == 4 {
                spec_scan_fail()
            } else {
                ScanSt { phase: Phase::Digits, cd: st.cd + 1, acc: st.acc * 16 + spec_hex_val(b), ..st }
            }
        } else if b == 44 && st.cd >= 1 {
            spec_scan_emit(st)
        } else if is_ws_byte(b) && st.cd >= 1 {
            ScanSt { phase: Phase::AfterNum, ..st }
        } else {
            spec_scan_fail()
        },
        Phase::AfterNum => if is_ws_byte(b) {
            st
        } else if b == 44 {
            spec_scan_emit(st)
        } else {
            spec_scan_fail()
        },
        Phase::RBrack => if is_ws_byte(b) {
            st
        } else if b == 93 {
            if st.cl == 3 {
                ScanSt { phase: Phase::End, hn: 0, cd: 0, acc: 0, ct: 0, cl: 4, out: st.out }
            } else {
                ScanSt { phase: Phase::Head, hn: 0, cd: 0, acc: 0, ct: 0, cl: st.cl + 1, out: st.out }
            }
        } else {
            spec_scan_fail()
        },
        Phase::End => if is_ws_byte(b) {
            st
        } else {
            spec_scan_fail()
        },
        Phase::Failed => spec_scan_fail(),
    }
}

/// The scanner's state after the first `i` bytes of `s`.
pub open spec fn spec_scan_state(s: Seq<u8>, i: int) -> ScanSt
    decreases i,
{
    if i <= 0 {
        spec_scan_init()
    } else {
        spec_scan_step(spec_scan_state(s, i - 1), s[i - 1])
    }
}

/// What the document dialect makes of `s`: the 960 decoded bytes when the
/// whole input is a well-formed document, nothing otherwise.
pub open spec fn spec_scan(s: Seq<u8>) -> Option<Seq<u8>> {
    let st = spec_scan_state(s, s.len() as int);
    if st.phase is End && st.out.len() == PROFILE_DATA_LEN {
        Some(st.out)
    } else {
        None
    }
}

/// Once the scan has failed it stays failed.
proof fn lemma_scan_fail_absorbs(s: Seq<u8>, i: int, j: int)
    requires
        0 <= i <= j,
        spec_scan_state(s, i) == spec_scan_fail(),
    ensures
        spec_scan_state(s, j) == spec_scan_fail(),
    decreases j - i,
{
    if j > i {
        lemma_scan_fail_absorbs(s, i, j - 1);
    }
}

/// The scanner's state at each byte position of a canonical document.
pub open spec fn spec_canon_state(x: Seq<u8>, i: int) -> ScanSt
    recommends
        x.len() == PROFILE_DATA_LEN,
        0 <= i <= DOC_LEN,
{
    let l = i / 1004;
    let j = i % 1004;
    if j < 25 {
        if j == 24 {
            ScanSt { phase: Phase::Num0, hn: 0, cd: 0, acc: 0, ct: 0, cl: l, out: x.take(240 * l) }
        } else {
            let n = if j < 10 { j } else if j <= 11 { 10 } else if j < 20 { j - 1 } else if j
                <= 21 { 19 } else { 20 };
            ScanSt { phase: Phase::Head, hn: n, cd: 0, acc: 0, ct: 0, cl: l, out: x.take(240 * l) }
        }
    } else if j < 1001 {
        let r = (j - 25) / 122;
        let c = (j - 25) % 122;
        if c < 2 {
            ScanSt {
                phase: Phase::Num0,
                hn: 0,
                cd: 0,
                acc: 0,
                ct: r * 15,
                cl: l,
                out: x.take(240 * l + 30 * r),
            }
        } else {
            let t = (c - 2) / 8;
            let u = (c - 2) % 8;
            let k = r * 15 + t;
            let v = spec_scancode(x, 120 * l + k) as int;
            let out0 = x.take(240 * l + 2 * k);
            if u == 0 {
                ScanSt { phase: Phase::Num0, hn: 0, cd: 0, acc: 0, ct: k, cl: l, out: out0 }
            } else if u == 1 {
                ScanSt { phase: Phase::NumX, hn: 0, cd: 0, acc: 0, ct: k, cl: l, out: out0 }
            } else if u == 2 {
                ScanSt { phase: Phase::Digits, hn: 0, cd: 0, acc: 0, ct: k, cl: l, out: out0 }
            } else if u == 3 {
                ScanSt { phase: Phase::Digits, hn: 0, cd: 1, acc: v / 4096, ct: k, cl: l, out: out0 }
            } else if u == 4 {
                ScanSt { phase: Phase::Digits, hn: 0, cd: 2, acc: v / 256, ct: k, cl: l, out: out0 }
            } else if u == 5 {
                ScanSt { phase: Phase::Digits, hn: 0, cd: 3, acc: v / 16, ct: k, cl: l, out: out0 }
            } else if u == 6 {
                ScanSt { phase: Phase::Digits, hn: 0, cd: 4, acc: v, ct: k, cl: l, out: out0 }
            } else if k == 119 {
                ScanSt {
                    phase: Phase::RBrack,
                    hn: 0,
                    cd: 0,
                    acc: 0,
                    ct: 120,
                    cl: l,
                    out: x.take(240 * l + 240),
                }
            } else {
                ScanSt {
                    phase: Phase::Num0,
                    hn: 0,
                    cd: 0,
                    acc: 0,
                    ct: k + 1,
                    cl: l,
                    out: x.take(240 * l + 2 * (k + 1)),
                }
            }
        }
    } else if j == 1001 {
        ScanSt {
            phase: Phase::RBrack,
            hn: 0,
            cd: 0,
            acc: 0,
            ct: 120,
            cl: l,
            out: x.take(240 * (l + 1)),
        }
    } else if l == 3 {
        ScanSt { phase: Phase::End, hn: 0, cd: 0, acc: 0, ct: 0, cl: 4, out: x.take(960) }
    } else {
        ScanSt {
            phase: Phase::Head,
            hn: 0,
            cd: 0,
            acc: 0,
            ct: 0,
            cl: l + 1,
            out: x.take(240 * (l + 1)),
        }
    }
}

/// A hexadecimal digit classifies back to the nibble it renders.
proof fn lemma_hex_val_digit(n: int)
    requires
        0 <= n < 16,
    ensures
        spec_hex_val(spec_hex_digit(n)) == n,
{
}

/// One canonical byte advances the scanner from one canonical state to the
/// next.
#[verifier::rlimit(100)]
proof fn lemma_canon_step(x: Seq<u8>, i: int)
    requires
        x.len() == PROFILE_DATA_LEN,
        0 <= i < DOC_LEN,
    ensures
        spec_scan_step(spec_canon_state(x, i), spec_doc_byte(x, i)) == spec_canon_state(x, i + 1),
{
    let l = i / 1004;
    let j = i % 1004;
    vstd::arithmetic::div_mod::lemma_mod_bound(i, 1004);
    assert(i == 1004 * l + j);
    assert(0 <= l <= 3) by {
        if l >= 4 {
            assert(i >= 1004 * 4 + 0) by (nonlinear_arith)
                requires
                    i == 1004 * l + j,
                    l >= 4,
                    j >= 0,
            ;
        }
        assert(l >= 0) by {
            if l < 0 {
                assert(i < 0) by (nonlinear_arith)
                    requires
                        i == 1004 * l + j,
                        l < 0,
                        j < 1004,
                ;
            }
        }
    }
    let b = spec_doc_byte(x, i);
    if j < 1003 {
        lemma_fundamental_div_mod_converse(i + 1, 1004, l, j + 1);
    } else {
        lemma_fundamental_div_mod_converse(i + 1, 1004, l + 1, 0);
    }
    if j < 25 {
        lemma_doc_pos(x, l, j);
        assert(b == spec_header_byte(j));
        assert(spec_scan_step(spec_canon_state(x, i), b) =~~= spec_canon_state(x, i + 1));
    } else if j < 1001 {
        let r = (j - 25) / 122;
        let c = (j - 25) % 122;
        crate::transfer::lemma_div_ident(j - 25, 122);
        assert(0 <= r <= 7) by {
            if r >= 8 {
                assert(j - 25 >= 122 * 8) by (nonlinear_arith)
                    requires
                        j - 25 == r * 122 + c,
                        r >= 8,
                        c >= 0,
                ;
            }
            if r < 0 {
                assert(j - 25 < 0) by (nonlinear_arith)
                    requires
                        j - 25 == r * 122 + c,
                        r < 0,
                        c < 122,
                ;
            }
        }
        if c < 2 {
            lemma_layer_pad(x, l, r, c);
            lemma_doc_pos(x, l, j);
            assert(j == 25 + r * 122 + c);
            assert(b == 32);
            if c == 0 {
                lemma_fundamental_div_mod_converse(j + 1 - 25, 122, r, 1);
            } else {
                lemma_fundamental_div_mod_converse(j + 1 - 25, 122, r, 2);
                lemma_fundamental_div_mod_converse(0, 8, 0, 0);
            }
            assert(30 * r == 2 * (r * 15));
            assert(spec_scan_step(spec_canon_state(x, i), b) =~~= spec_canon_state(x, i + 1));
        } else {
            let t = (c - 2) / 8;
            let u = (c - 2) % 8;
            crate::transfer::lemma_div_ident(c - 2, 8);
            assert(0 <= t <= 14) by {
                if t >= 15 {
                    assert(c - 2 >= 8 * 15) by (nonlinear_arith)
                        requires
                            c - 2 == t * 8 + u,
                            t >= 15,
                            u >= 0,
                    ;
                }
                if t < 0 {
                    assert(c - 2 < 0) by (nonlinear_arith)
                        requires
                            c - 2 == t * 8 + u,
                            t < 0,
                            u < 8,
                    ;
                }
            }
            let k = r * 15 + t;
            let v = spec_scancode(x, 120 * l + k) as int;
            lemma_doc_pos(x, l, j);
            assert(j == 25 + r * 122 + 2 + t * 8 + u);
            lemma_layer_entry(x, l, r, t, u);
            assert(b == spec_entry_byte(spec_scancode(x, 120 * l + k), t == 14, u));
            let a = x[2 * (120 * l + k)];
            let cc = x[2 * (120 * l + k) + 1];
            lemma_pair_nibbles(a, cc);
            assert(v == a as int * 256 + cc as int);
            // next position's decomposition
            if u < 7 {
                lemma_fundamental_div_mod_converse(j + 1 - 25, 122, r, c + 1);
                lemma_fundamental_div_mod_converse(c + 1 - 2, 8, t, u + 1);
            } else if t < 14 {
                lemma_fundamental_div_mod_converse(j + 1 - 25, 122, r, c + 1);
                lemma_fundamental_div_mod_converse(c + 1 - 2, 8, t + 1, 0);
            } else if r < 7 {
                // next row's first indent byte
                assert(c == 121);
                lemma_fundamental_div_mod_converse(j + 1 - 25, 122, r + 1, 0);
            } else {
                // the closing bracket position
                assert(j + 1 == 1001);
            }
            if 2 <= u < 6 {
                lemma_hex_val_digit(
                    if u == 2 {
                        v / 4096
                    } else if u == 3 {
                        v / 256 % 16
                    } else if u == 4 {
                        v / 16 % 16
                    } else {
                        v % 16
                    },
                );
                assert(v / 256 == (v / 4096) * 16 + v / 256 % 16) by {
                    assert(a as int == (a as int / 16) * 16 + a as int % 16);
                }
                assert(v / 16 == (v / 256) * 16 + v / 16 % 16) by {
                    lemma_fundamental_div_mod_converse(v, 16, a as int * 16 + cc as int / 16, cc as int % 16);
                    assert(cc as int == (cc as int / 16) * 16 + cc as int % 16);
                }
                assert(v == (v / 16) * 16 + v % 16) by {
                    crate::transfer::lemma_div_ident(v, 16);
                }
            }
            if u == 6 {
                assert(v < 65536);
                assert((v / 256) as u8 == a && (v % 16 + (v / 16 % 16) * 16) as u8 == cc) by {
                    assert(v / 256 == a as int && v % 256 == cc as int) by {
                        lemma_fundamental_div_mod_converse(v, 256, a as int, cc as int);
                    }
                }
                assert((v % 256) as u8 == cc) by {
                    lemma_fundamental_div_mod_converse(v, 256, a as int, cc as int);
                }
                assert(x.take(240 * l + 2 * k).push(a).push(cc) =~= x.take(240 * l + 2 * (k + 1)));
                assert(240 * l + 240 == 240 * (l + 1));
            }
            assert(spec_scan_step(spec_canon_state(x, i), b) =~~= spec_canon_state(x, i + 1));
        }
    } else if j == 1001 {
        lemma_doc_pos(x, l, j);
        assert(b == 93);
        assert(240 * (l + 1) == 960 ==> l == 3);
        assert(spec_scan_step(spec_canon_state(x, i), b) =~~= spec_canon_state(x, i + 1));
    } else {
        lemma_doc_pos(x, l, j);
        assert(b == 10);
        assert(spec_scan_step(spec_canon_state(x, i), b) =~~= spec_canon_state(x, i + 1));
    }
}

/// The scan of a canonical document passes through the canonical states.
proof fn lemma_canon_scan_upto(x: Seq<u8>, i: int)
    requires
        x.len() == PROFILE_DATA_LEN,
        0 <= i <= DOC_LEN,
    ensures
        spec_scan_state(spec_doc(x), i) == spec_canon_state(x, i),
    decreases i,
{
    if i == 0 {
        assert(x.take(0) =~= Seq::<u8>::empty());
        assert(spec_scan_state(spec_doc(x), 0) =~~= spec_canon_state(x, 0));
    } else {
        lemma_canon_scan_upto(x, i - 1);
        lemma_canon_step(x, i - 1);
        assert(spec_doc(x)[i - 1] == spec_doc_byte(x, i - 1));
    }
}

/// Every canonical rendering is in the dialect and decodes to exactly the
/// blob it renders: the round-trip law's parsing half.
pub proof fn lemma_canonical_scan(x: Seq<u8>)
    requires
        x.len() == PROFILE_DATA_LEN,
    ensures
        spec_scan(spec_doc(x)) == Some(x),
{
    lemma_canon_scan_upto(x, DOC_LEN as int);
    lemma_fundamental_div_mod_converse(DOC_LEN as int, 1004, 3, 1003);
    assert(spec_canon_state(x, DOC_LEN as int).phase is End);
    assert(x.take(960) =~= x);
}

/// The value of a hexadecimal digit byte, upper or lower case.
fn hex_value(b: u8) -> (r: Option<u8>)
    ensures
        r matches Some(v) ==> v < 16 && spec_hex_val(b) == v,
        r is None ==> spec_hex_val(b) < 0,
{
    if 48 <= b && b <= 57 {
        Some(b - 48)
    } else if 97 <= b && b <= 102 {
        Some(b - 87)
    } else if 65 <= b && b <= 70 {
        Some(b - 55)
    } else {
        None
    }
}

/// Whether a byte is whitespace.
fn is_ws(b: u8) -> (r: bool)
    ensures
        r == is_ws_byte(b),
{
    b == 32 || b == 9 || b == 13 || b == 10
}

/// Parses a profile document back to its 960-byte blob. The accepted
/// dialect is the canonical form's token stream under any whitespace
/// layout: four `[[layers]]` sections, each with `scancodes = [` and
/// exactly 120 comma-terminated `0x` hexadecimal literals of one to four
/// digits, upper or lower case. A wrong layer or scancode count, a
/// malformed literal, or any other departure from that shape is rejected
/// with `StructureError` before any bytes are decoded.
#[verifier::loop_isolation(false)]
#[verifier::rlimit(100)]
pub fn parse_toml_string(serialized: &str) -> (r: Result<Vec<u8>, Error>)
    ensures
        r matches Ok(d) ==> d@.len() == PROFILE_DATA_LEN && spec_scan(serialized.spec_bytes())
            == Some(d@),
        r is Err ==> r == Err::<Vec<u8>, Error>(Error::StructureError) && spec_scan(
            serialized.spec_bytes(),
        ) is None,
        forall|x: Seq<u8>|
            x.len() == PROFILE_DATA_LEN && serialized@ == ascii_chars(#[trigger] spec_doc(x))
                ==> (r matches Ok(d) && d@ == x),
{
    proof {
        assert forall|x: Seq<u8>|
            x.len() == PROFILE_DATA_LEN && serialized@ == ascii_chars(#[trigger] spec_doc(x))
            implies serialized.spec_bytes() == spec_doc(x) && spec_scan(serialized.spec_bytes())
            == Some(x) by {
            lemma_doc_byte_ascii(x);
            assert(vstd::utf8::is_ascii_chars(serialized@));
            vstd::string::is_ascii_spec_bytes(serialized);
            assert forall|i: int| 0 <= i < DOC_LEN implies serialized.spec_bytes()[i]
                == spec_doc_byte(x, i) by {
                assert(serialized.spec_bytes()[i] == serialized@[i] as u8);
                assert(serialized@[i] == spec_doc_byte(x, i) as char);
            }
            assert(serialized.spec_bytes() =~= spec_doc(x));
            lemma_canonical_scan(x);
        }
    }
    let bytes: &[u8] = serialized.as_bytes();
    let n: usize = bytes.len();
    let mut phase = Phase::Head;
    let mut hn: usize = 0;
    let mut cd: usize = 0;
    let mut acc: u16 = 0;
    let mut ct: usize = 0;
    let mut cl: usize = 0;
    let mut out: Vec<u8> = Vec::new();
    let mut i: usize = 0;
    proof {
        assert(ScanSt {
            phase: phase,
            hn: hn as int,
            cd: cd as int,
            acc: acc as int,
            ct: ct as int,
            cl: cl as int,
            out: out@,
        } =~~= spec_scan_state(bytes@, 0));
    }
    while i < n
        invariant
            i <= n,
            n == bytes@.len(),
            (ScanSt {
                phase: phase,
                hn: hn as int,
                cd: cd as int,
                acc: acc as int,
                ct: ct as int,
                cl: cl as int,
                out: out@,
            }) == spec_scan_state(bytes@, i as int),
            hn <= 20,
            cd <= 4,
            cd == 0 ==> acc == 0,
            cd == 1 ==> acc < 16,
            cd == 2 ==> acc < 256,
            cd == 3 ==> acc < 4096,
            ct <= 120,
            cl <= 4,
            !(phase == Phase::End) ==> cl <= 3,
            (phase == Phase::Num0 || phase == Phase::NumX || phase == Phase::Digits || phase
                == Phase::AfterNum) ==> ct <= 119,
            phase == Phase::Head ==> ct == 0,
        decreases n - i,
    {
        let b = bytes[i];
        let ghost pre = ScanSt {
            phase: phase,
            hn: hn as int,
            cd: cd as int,
            acc: acc as int,
            ct: ct as int,
            cl: cl as int,
            out: out@,
        };
        let mut ok = true;
        match phase {
            Phase::Head => {
                if is_ws(b) && (hn == 0 || hn == 10 || hn == 19 || hn == 20) {
                } else if b == head_byte_at(hn) {
                    if hn == 20 {
                        phase = Phase::Num0;
                        hn = 0;
                    } else {
                        hn = hn + 1;
                    }
                } else {
                    ok = false;
                }
            },
            Phase::Num0 => {
                if is_ws(b) {
                } else if b == 48 {
                    phase = Phase::NumX;
                } else {
                    ok = false;
                }
            },
            Phase::NumX => {
                if b == 120 {
                    phase = Phase::Digits;
                    cd = 0;
                    acc = 0;
                } else {
                    ok = false;
                }
            },
            Phase::Digits => {
                match hex_value(b) {
                    Some(d) => {
                        if cd == 4 {
                            ok = false;
                        } else {
                            cd = cd + 1;
                            acc = acc * 16 + d as u16;
                        }
                    },
                    None => {
                        if b == 44 && cd >= 1 {
                            out.push((acc / 256) as u8);
                            out.push((acc % 256) as u8);
                            if ct == 119 {
                                phase = Phase::RBrack;
                                ct = 120;
                            } else {
                                phase = Phase::Num0;
                                ct = ct + 1;
                            }
                            hn = 0;
                            cd = 0;
                            acc = 0;
                        } else if is_ws(b) && cd >= 1 {
                            phase = Phase::AfterNum;
                        } else {
                            ok = false;
                        }
                    },
                }
            },
            Phase::AfterNum => {
                if is_ws(b) {
                } else if b == 44 {
                    out.push((acc / 256) as u8);
                    out.push((acc % 256) as u8);
                    if ct == 119 {
                        phase = Phase::RBrack;
                        ct = 120;
                    } else {
                        phase = Phase::Num0;
                        ct = ct + 1;
                    }
                    hn = 0;
                    cd = 0;
                    acc = 0;
                } else {
                    ok = false;
                }
            },
            Phase::RBrack => {
                if is_ws(b) {
                } else if b == 93 {
                    if cl == 3 {
                        phase = Phase::End;
                        cl = 4;
                        ct = 0;
                    } else {
                        phase = Phase::Head;
                        cl = cl + 1;
                        ct = 0;
                    }
                    hn = 0;
                    cd = 0;
                    acc = 0;
                } else {
                    ok = false;
                }
            },
            Phase::End => {
                if is_ws(b) {
                } else {
                    ok = false;
                }
            },
            Phase::Failed => {
                ok = false;
            },
        }
        if !ok {
            proof {
                assert(spec_scan_step(pre, b) == spec_scan_fail());
                assert(spec_scan_state(bytes@, i + 1) == spec_scan_fail());
                lemma_scan_fail_absorbs(bytes@, i as int + 1, n as int);
                assert(spec_scan(bytes@) is None);
            }
            return Err(Error::StructureError);
        }
        proof {
            assert(ScanSt {
                phase: phase,
                hn: hn as int,
                cd: cd as int,
                acc: acc as int,
                ct: ct as int,
                cl: cl as int,
                out: out@,
            } =~~= spec_scan_step(pre, b));
        }
        i = i + 1;
    }
    if matches!(phase, Phase::End) && out.len() == PROFILE_DATA_LEN {
        Ok(out)
    } else {
        proof {
            assert(spec_scan(bytes@) is None);
        }
        Err(Error::StructureError)
    }
}

/// Byte `n` of the section head with its whitespace removed.
fn head_byte_at(n: usize) -> (r: u8)
    requires
        n <= 20,
    ensures
        r == spec_head_byte(n as int),
{
    if n == 0 || n == 1 {
        91
    } else if n == 2 {
        108
    } else if n == 3 {
        97
    } else if n == 4 {
        121
    } else if n == 5 {
        101
    } else if n == 6 {
        114
    } else if n == 7 || n == 10 {
        115
    } else if n == 8 || n == 9 {
        93
    } else if n == 11 {
        99
    } else if n == 12 {
        97
    } else if n == 13 {
        110
    } else if n == 14 {
        99
    } else if n == 15 {
        111
    } else if n == 16 {
        100
    } else if n == 17 {
        101
    } else if n == 18 {
        115
    } else if n == 19 {
        61
    } else {
        91
    }
}


/// Distinct profile blobs render to distinct documents. Together with the
/// codec contracts this is the round-trip law: parsing a rendered document
/// yields exactly the bytes it was rendered from.
#[verifier::rlimit(100)]
#[verifier::spinoff_prover]
pub proof fn lemma_doc_injective(x: Seq<u8>, y: Seq<u8>)
    requires
        x.len() == PROFILE_DATA_LEN,
        y.len() == PROFILE_DATA_LEN,
        ascii_chars(spec_doc(x)) == ascii_chars(spec_doc(y)),
    ensures
        x == y,
{
    lemma_doc_byte_ascii(x);
    lemma_doc_byte_ascii(y);
    assert forall|i: int| 0 <= i < DOC_LEN implies spec_doc_byte(x, i) == spec_doc_byte(y, i) by {
        assert(ascii_chars(spec_doc(x))[i] == ascii_chars(spec_doc(y))[i]);
        assert(ascii_chars(spec_doc(x))[i] == spec_doc(x)[i] as char);
        assert(ascii_chars(spec_doc(y))[i] == spec_doc(y)[i] as char);
        assert(spec_doc(x)[i] == spec_doc_byte(x, i) && spec_doc(y)[i] == spec_doc_byte(y, i));
        assert(spec_doc_byte(x, i) as char as u8 == spec_doc_byte(x, i));
        assert(spec_doc_byte(y, i) as char as u8 == spec_doc_byte(y, i));
    }
    assert forall|j: int| 0 <= j < PROFILE_DATA_LEN implies x[j] == y[j] by {
        let k = j / 2;
        lemma_fundamental_div_mod_converse(2 * k, 2, k, 0);
        let l = k / 120;
        let m = k % 120;
        let rr = m / 15;
        let t = m % 15;
        assert(l * 120 + rr * 15 + t == k);
        let base = l * 1004 + 25 + rr * 122 + 2 + t * 8;
        assert forall|u: int| 0 <= u < 8 implies #[trigger] spec_doc_byte(x, base + u)
            == spec_entry_byte(spec_scancode(x, k), t == 14, u) && spec_doc_byte(y, base + u)
            == spec_entry_byte(spec_scancode(y, k), t == 14, u) by {
            lemma_doc_pos(x, l, 25 + rr * 122 + 2 + t * 8 + u);
            lemma_doc_pos(y, l, 25 + rr * 122 + 2 + t * 8 + u);
            lemma_layer_entry(x, l, rr, t, u);
            lemma_layer_entry(y, l, rr, t, u);
        }
        let a1 = x[2 * k];
        let c1 = x[2 * k + 1];
        let a2 = y[2 * k];
        let c2 = y[2 * k + 1];
        lemma_pair_nibbles(a1, c1);
        lemma_pair_nibbles(a2, c2);
        let v1 = spec_scancode(x, k) as int;
        let v2 = spec_scancode(y, k) as int;
        assert(v1 == a1 as int * 256 + c1 as int && v2 == a2 as int * 256 + c2 as int);
        assert(spec_doc_byte(x, base + 2) == spec_hex_digit(v1 / 4096));
        assert(spec_doc_byte(x, base + 3) == spec_hex_digit(v1 / 256 % 16));
        assert(spec_doc_byte(x, base + 4) == spec_hex_digit(v1 / 16 % 16));
        assert(spec_doc_byte(x, base + 5) == spec_hex_digit(v1 % 16));
        assert(0 <= v1 / 4096 < 16 && 0 <= v2 / 4096 < 16);
        assert(v1 / 4096 == v2 / 4096);
        assert(v1 / 256 % 16 == v2 / 256 % 16);
        assert(v1 / 16 % 16 == v2 / 16 % 16);
        assert(v1 % 16 == v2 % 16);
        assert(a1 as int / 16 == a2 as int / 16 && a1 as int % 16 == a2 as int % 16);
        assert(c1 as int / 16 == c2 as int / 16 && c1 as int % 16 == c2 as int % 16);
        assert(a1 == (a1 as int / 16) * 16 + a1 as int % 16);
        assert(c1 == (c1 as int / 16) * 16 + c1 as int % 16);
        assert(x[2 * k] == y[2 * k] && x[2 * k + 1] == y[2 * k + 1]);
        assert(j == 2 * k || j == 2 * k + 1);
    }
    assert(x =~= y);
}

} // verus!
