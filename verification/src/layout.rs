use vstd::prelude::*;

use crate::util::{ascii_chars, string_from_ascii};

verus! {

/// Width-table flag marking a blank cell.
pub const BLANK_FLAG: u8 = 0x80;

/// The byte sequence of one ASCII label.
pub open spec fn spec_label_bytes(s: Seq<char>) -> Seq<u8> {
    Seq::new(s.len(), |i: int| s[i] as u8)
}

/// One rendered cell: a separator, then the cell body. A blank cell after a
/// blank cell is set off by a space, any other by a bar; a blank cell's
/// body is spaces, a labelled cell's body is the label padded or cut to the
/// cell's inner width.
pub open spec fn spec_cell(label: Seq<u8>, width: int, is_blank: bool, was_blank: bool) -> Seq<
    u8,
>
    recommends
        width >= 1,
{
    seq![if is_blank && was_blank { 32u8 } else { 124u8 }] + Seq::new(
        (width - 1) as nat,
        |i: int| if is_blank { 32u8 } else if i < label.len() { label[i] } else { 32u8 },
    )
}

/// The row after the first `k` label/width pairs, with the blank-state the
/// next cell starts from. A zero-width entry adds nothing and keeps the
/// state.
pub open spec fn spec_row_rec(widths: Seq<u8>, labels: Seq<Seq<u8>>, k: int) -> (Seq<u8>, bool)
    recommends
        k <= widths.len(),
        k <= labels.len(),
    decreases k,
{
    if k <= 0 {
        (Seq::empty(), true)
    } else {
        let (line, was_blank) = spec_row_rec(widths, labels, k - 1);
        let w = widths[k - 1];
        let width = (w & 0x7f) as int;
        let is_blank = w & BLANK_FLAG != 0;
        if width == 0 {
            (line, was_blank)
        } else {
            (line + spec_cell(labels[k - 1], width, is_blank, was_blank), is_blank)
        }
    }
}

/// The whole rendered row: the cells of every label/width pair, closed by
/// a bar when the last rendered cell was labelled.
pub open spec fn spec_format_row(widths: Seq<u8>, labels: Seq<Seq<u8>>) -> Seq<u8> {
    let n = if widths.len() <= labels.len() {
        widths.len() as int
    } else {
        labels.len() as int
    };
    let (line, was_blank) = spec_row_rec(widths, labels, n);
    if was_blank {
        line
    } else {
        line + seq![124u8]
    }
}

/// Renders one keyboard row of `labels` into the physical cell layout the
/// `widths` table describes.
#[verifier::loop_isolation(false)]
#[verifier::rlimit(100)]
pub fn format_row(widths: &[u8], labels: &Vec<String>) -> (r: String)
    requires
        forall|i: int|
            0 <= i < labels@.len() ==> vstd::utf8::is_ascii_chars(#[trigger] labels@[i]@),
    ensures
        r@ == ascii_chars(
            spec_format_row(
                widths@,
                Seq::new(labels@.len(), |i: int| spec_label_bytes(labels@[i]@)),
            ),
        ),
{
    let ghost lbs = Seq::new(labels@.len(), |i: int| spec_label_bytes(labels@[i]@));
    let n: usize = if widths.len() <= labels.len() {
        widths.len()
    } else {
        labels.len()
    };
    let mut line: Vec<u8> = Vec::new();
    let mut was_blank: bool = true;
    let mut k: usize = 0;
    while k < n
        invariant
            k <= n,
            (line@, was_blank) == spec_row_rec(widths@, lbs, k as int),
            forall|i: int| 0 <= i < line@.len() ==> line@[i] < 128,
        decreases n - k,
    {
        let w = widths[k];
        let width: usize = (w & 0x7f) as usize;
        let is_blank = w & BLANK_FLAG != 0;
        if width != 0 {
            let ghost before = line@;
            line.push(if is_blank && was_blank { 32 } else { 124 });
            if is_blank {
                let mut i: usize = 1;
                while i < width
                    invariant
                        is_blank,
                        1 <= i <= width,
                        line@.len() == before.len() + i,
                        forall|q: int| 0 <= q < before.len() ==> line@[q] == before[q],
                        forall|q: int|
                            before.len() <= q < line@.len() ==> line@[q] == (if q
                                == before.len() && !(is_blank && was_blank) { 124u8 } else { 32u8
                            }),
                    decreases width - i,
                {
                    line.push(32);
                    i += 1;
                }
            } else {
                let ls = labels[k].as_str();
                let lb = ls.as_bytes();
                proof {
                    vstd::string::is_ascii_spec_bytes(ls);
                    assert(lb@ =~= spec_label_bytes(labels@[k as int]@));
                    assert(lbs[k as int] == spec_label_bytes(labels@[k as int]@));
                    assert forall|q: int| 0 <= q < lb@.len() implies lb@[q] < 128 by {
                        assert(labels@[k as int]@[q] <= '\u{7f}');
                    }
                }
                let mut i: usize = 1;
                while i < width
                    invariant
                        !is_blank,
                        lb@ == lbs[k as int],
                        forall|q: int| 0 <= q < lb@.len() ==> lb@[q] < 128,
                        1 <= i <= width,
                        line@.len() == before.len() + i,
                        forall|q: int| 0 <= q < before.len() ==> line@[q] == before[q],
                        line@[before.len() as int] == (if is_blank && was_blank { 32u8 } else {
                            124u8
                        }),
                        forall|q: int|
                            before.len() < q < line@.len() ==> line@[q] == (if q - before.len()
                                - 1 < lb@.len() { lb@[q - before.len() - 1] } else { 32u8 }),
                    decreases width - i,
                {
                    if i - 1 < lb.len() {
                        line.push(lb[i - 1]);
                    } else {
                        line.push(32);
                    }
                    i += 1;
                }
            }
            proof {
                let cell = spec_cell(lbs[k as int], width as int, is_blank, was_blank);
                assert(line@ =~= before + cell);
            }
            was_blank = is_blank;
        }
        k += 1;
    }
    if !was_blank {
        line.push(124);
    }
    proof {
        assert(line@ =~= spec_format_row(widths@, lbs));
    }
    string_from_ascii(line)
}

} // verus!
