use vstd::prelude::*;

verus! {

/// The DIP-switch report: one byte per switch, not packed; any nonzero
/// byte means the switch is on.
pub fn parse_dipsw(data: &[u8]) -> (r: Vec<bool>)
    requires
        data@.len() == 6,
    ensures
        r@.len() == 6,
        forall|i: int| 0 <= i < 6 ==> r@[i] == (data@[i] != 0),
{
    let mut r: Vec<bool> = Vec::new();
    let mut i: usize = 0;
    while i < 6
        invariant
            i <= 6,
            data@.len() == 6,
            r@.len() == i,
            forall|q: int| 0 <= q < i ==> r@[q] == (data@[q] != 0),
        decreases 6 - i,
    {
        r.push(data[i] != 0);
        i += 1;
    }
    r
}

/// The DIP switches of `data.take(n)` packed into one byte, first switch
/// in the most significant of the `n` low bits.
pub open spec fn spec_pack_dipsw(data: Seq<u8>, n: int) -> u8
    recommends
        0 <= n <= data.len(),
    decreases n,
{
    if n <= 0 {
        0u8
    } else {
        ((spec_pack_dipsw(data, n - 1) << 1) | (data[n - 1] & 1)) as u8
    }
}

/// Packs the DIP-switch report into one byte, most significant bit first,
/// for display.
pub fn pack_dipsw(data: &[u8]) -> (r: u8)
    requires
        data@.len() <= 8,
    ensures
        r == spec_pack_dipsw(data@, data@.len() as int),
{
    let mut acc: u8 = 0;
    let mut i: usize = 0;
    while i < data.len()
        invariant
            i <= data@.len() <= 8,
            acc == spec_pack_dipsw(data@, i as int),
        decreases data@.len() - i,
    {
        acc = (acc << 1) | (data[i] & 1);
        i += 1;
    }
    acc
}

/// The longest prefix of `data` that holds no NUL byte: the text a
/// NUL-terminated response field carries.
pub fn truncate_nul_str(data: &[u8]) -> (r: Vec<u8>)
    ensures
        r@ == data@.subrange(0, r@.len() as int),
        forall|i: int| 0 <= i < r@.len() ==> data@[i] != 0,
        r@.len() < data@.len() ==> data@[r@.len() as int] == 0,
        r@.len() <= data@.len(),
{
    let mut r: Vec<u8> = Vec::new();
    let mut i: usize = 0;
    while i < data.len()
        invariant
            i <= data@.len(),
            r@.len() == i,
            forall|q: int| 0 <= q < i ==> r@[q] == data@[q] && data@[q] != 0,
        decreases data@.len() - i,
    {
        if data[i] == 0 {
            proof {
                assert(r@ =~= data@.subrange(0, i as int));
            }
            return r;
        }
        r.push(data[i]);
        i += 1;
    }
    proof {
        assert(r@ =~= data@.subrange(0, i as int));
    }
    r
}

} // verus!
