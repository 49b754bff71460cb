use vstd::arithmetic::div_mod::lemma_fundamental_div_mod_converse;
use vstd::prelude::*;
use vstd::seq_lib::*;

use crate::channel::Channel;
use crate::error::Error;
use crate::frame::{
    build_chunk_read, build_chunk_write, spec_be16, spec_chunk_read, spec_chunk_write, Frame,
    CHUNK_CAPACITY, OP_CHUNK_READ,
};

verus! {

/// The largest chunk the device is known to accept in one frame. The true
/// firmware limit is unconfirmed: 26 and 27 both appear across revisions,
/// anything up to the frame's 28-byte capacity is well-formed on the wire.
/// The transfer functions take the chunk size as a parameter so this
/// constant can be corrected without touching the algorithm.
pub const MAX_DATA_CHUNK_LEN: u8 = 26;

/// The size of chunk `i` when `len` bytes move in chunks of `c`: full `c`
/// for every chunk but possibly the last.
pub open spec fn spec_chunk_size(len: int, c: int, i: int) -> int {
    if (i + 1) * c <= len {
        c
    } else {
        len - i * c
    }
}

/// The chunk-read request frames that move `len` bytes starting at device
/// address `start`, in ascending address order.
pub open spec fn spec_chunk_reads(start: int, len: int, c: int) -> Seq<Seq<u8>>
    recommends
        1 <= c <= CHUNK_CAPACITY,
        0 <= start,
        start + len <= 0x10000,
    decreases len,
{
    if len <= 0 || c < 1 {
        Seq::empty()
    } else if len <= c {
        seq![spec_chunk_read(start as u16, len as u8)]
    } else {
        seq![spec_chunk_read(start as u16, c as u8)] + spec_chunk_reads(start + c, len - c, c)
    }
}

/// The chunk-write request frames that store `data` starting at device
/// address `start`, in ascending address order.
pub open spec fn spec_chunk_writes(start: int, data: Seq<u8>, c: int) -> Seq<Seq<u8>>
    recommends
        1 <= c <= CHUNK_CAPACITY,
        0 <= start,
        start + data.len() <= 0x10000,
    decreases data.len(),
{
    if data.len() <= 0 || c < 1 {
        Seq::empty()
    } else if data.len() <= c {
        seq![spec_chunk_write(start as u16, data)]
    } else {
        seq![spec_chunk_write(start as u16, data.take(c))] + spec_chunk_writes(
            start + c,
            data.skip(c),
            c,
        )
    }
}

/// The division identity in the operand order the chunking proofs use.
pub(crate) proof fn lemma_div_ident(x: int, d: int)
    requires
        0 < d,
    ensures
        x == (x / d) * d + x % d,
        0 <= x % d < d,
{
    vstd::arithmetic::div_mod::lemma_fundamental_div_mod(x, d);
    vstd::arithmetic::div_mod::lemma_mod_bound(x, d);
    assert((x / d) * d == d * (x / d)) by (nonlinear_arith);
}

/// A big-endian 16-bit field reassembles to the value it was split from.
pub proof fn lemma_be16_split(v: u16)
    ensures
        crate::frame::spec_hi(v) as int * 256 + crate::frame::spec_lo(v) as int == v,
        crate::frame::spec_hi(v) == v as int / 256,
        crate::frame::spec_lo(v) == v as int % 256,
{
    lemma_div_ident(v as int, 256);
}

/// The chunking plan: moving `len` bytes in chunks of `c` takes
/// `ceil(len / c)` requests, at addresses `start, start + c, ...`, every
/// chunk full except the last, whose size is the remainder; the sizes sum
/// to exactly `len`.
pub proof fn lemma_chunk_plan(start: int, len: int, c: int)
    requires
        1 <= c <= CHUNK_CAPACITY,
        0 <= start,
        0 <= len,
        start + len <= 0x10000,
    ensures
        spec_chunk_reads(start, len, c).len() == (len + c - 1) / c,
        forall|i: int|
            0 <= i < spec_chunk_reads(start, len, c).len() ==> {
                &&& (#[trigger] spec_chunk_reads(start, len, c)[i]).len() == 32
                &&& spec_chunk_reads(start, len, c)[i][0] == OP_CHUNK_READ
                &&& spec_be16(spec_chunk_reads(start, len, c)[i], 1) == start + i * c
                &&& spec_chunk_reads(start, len, c)[i][3] == spec_chunk_size(len, c, i)
            },
        len > 0 ==> spec_chunk_reads(start, len, c).last()[3] == len - c * (spec_chunk_reads(
            start,
            len,
            c,
        ).len() - 1),
{
    let reqs = spec_chunk_reads(start, len, c);
    lemma_chunk_plan_inner(start, len, c);
    if len > 0 {
        let n = (len + c - 1) / c;
        lemma_div_ident(len + c - 1, c);
        assert(n * c >= len);
        assert((n - 1) * c == n * c - c) by (nonlinear_arith);
        assert(reqs.last() == reqs[n - 1]);
        if n * c <= len {
            assert(spec_chunk_size(len, c, n - 1) == c);
            assert(len - c * (n - 1) == c) by (nonlinear_arith)
                requires
                    n * c == len,
            ;
        } else {
            assert(c * (n - 1) == (n - 1) * c) by (nonlinear_arith);
        }
    }
}

proof fn lemma_chunk_plan_inner(start: int, len: int, c: int)
    requires
        1 <= c <= CHUNK_CAPACITY,
        0 <= start,
        0 <= len,
        start + len <= 0x10000,
    ensures
        spec_chunk_reads(start, len, c).len() == (len + c - 1) / c,
        forall|i: int|
            0 <= i < spec_chunk_reads(start, len, c).len() ==> {
                &&& (#[trigger] spec_chunk_reads(start, len, c)[i]).len() == 32
                &&& spec_chunk_reads(start, len, c)[i][0] == OP_CHUNK_READ
                &&& spec_be16(spec_chunk_reads(start, len, c)[i], 1) == start + i * c
                &&& spec_chunk_reads(start, len, c)[i][3] == spec_chunk_size(len, c, i)
            },
    decreases len,
{
    let reqs = spec_chunk_reads(start, len, c);
    if len <= 0 {
        lemma_fundamental_div_mod_converse(len + c - 1, c, 0, len + c - 1);
    } else if len <= c {
        lemma_fundamental_div_mod_converse(len + c - 1, c, 1, len - 1);
        let addr = start as u16;
        lemma_be16_split(addr);
        assert(spec_be16(reqs[0], 1) == addr);
        assert(reqs[0][3] == len as u8);
        assert(1 * c == c && 0 * c == 0);
    } else {
        lemma_chunk_plan_inner(start + c, len - c, c);
        let q = (len - 1) / c;
        let rm = (len - 1) % c;
        lemma_div_ident(len - 1, c);
        assert(len - 1 == q * c + rm);
        assert((q + 1) * c == q * c + c) by (nonlinear_arith);
        lemma_fundamental_div_mod_converse(len + c - 1, c, q + 1, rm);
        assert((len + c - 1) / c == (len - 1) / c + 1);
        lemma_be16_split(start as u16);
        let rest = spec_chunk_reads(start + c, len - c, c);
        assert(reqs == seq![spec_chunk_read(start as u16, c as u8)] + rest);
        let addr = start as u16;
        assert(spec_be16(reqs[0], 1) == (addr / 256) as int * 256 + (addr % 256) as int);
        assert forall|i: int| 0 <= i < reqs.len() implies {
            &&& (#[trigger] reqs[i]).len() == 32
            &&& reqs[i][0] == OP_CHUNK_READ
            &&& spec_be16(reqs[i], 1) == start + i * c
            &&& reqs[i][3] == spec_chunk_size(len, c, i)
        } by {
            if i == 0 {
                assert(0 * c == 0 && 1 * c == c) by (nonlinear_arith);
            } else {
                assert(reqs[i] == rest[i - 1]);
                assert((i - 1) * c + c == i * c && (i + 1) * c == i * c + c) by (nonlinear_arith);
                assert(spec_chunk_size(len - c, c, i - 1) == spec_chunk_size(len, c, i));
            }
        }
    }
}

/// Issues one simple-get exchange: writes the request frame and reads the
/// single response frame.
pub fn get_simple<C: Channel>(dev: &mut C, command: u16) -> (r: Result<Frame, Error>)
    ensures
        r matches Ok(resp) ==> resp.wf() && final(dev).sent() == old(dev).sent().push(
            crate::frame::spec_simple_get(command),
        ) && final(dev).received() == old(dev).received().push(resp@),
        r is Err ==> r == Err::<Frame, Error>(Error::IoError) && final(dev).received() == old(
            dev,
        ).received() && (final(dev).sent() == old(dev).sent() || final(dev).sent() == old(
            dev,
        ).sent().push(crate::frame::spec_simple_get(command))),
{
    let request = crate::frame::build_simple_get(command);
    dev.write_frame(&request)?;
    let response = dev.read_frame()?;
    Ok(response)
}

/// Reads `len` bytes from device address `start` in chunks of at most
/// `chunk_len` bytes, strictly in increasing address order, one outstanding
/// request at a time. Each response must echo the requested chunk length at
/// offset 3; a different echo means the channel is desynchronized and
/// aborts the transfer. On success, byte `p` of the result is byte
/// `4 + p % chunk_len` of response `p / chunk_len`.
#[verifier::loop_isolation(false)]
#[verifier::rlimit(100)]
pub fn read_data<C: Channel>(dev: &mut C, start: u16, len: u16, chunk_len: u8) -> (r: Result<
    Vec<u8>,
    Error,
>)
    requires
        1 <= chunk_len <= CHUNK_CAPACITY,
        start as int + len as int <= 0x10000,
    ensures
        r matches Ok(data) ==> {
            &&& data@.len() == len
            &&& final(dev).sent() == old(dev).sent() + spec_chunk_reads(
                start as int,
                len as int,
                chunk_len as int,
            )
            &&& exists|resps: Seq<Seq<u8>>|
                {
                    &&& final(dev).received() == old(dev).received() + resps
                    &&& resps.len() == spec_chunk_reads(
                        start as int,
                        len as int,
                        chunk_len as int,
                    ).len()
                    &&& forall|i: int|
                        0 <= i < resps.len() ==> (#[trigger] resps[i]).len() == 32 && resps[i][3]
                            == spec_chunk_size(len as int, chunk_len as int, i)
                    &&& forall|p: int|
                        0 <= p < len ==> data@[p] == resps[p / chunk_len as int][4 + p
                            % chunk_len as int]
                }
        },
        r matches Err(e) ==> (e == Error::IoError || e == Error::ProtocolSizeError) && old(
            dev,
        ).received().is_prefix_of(final(dev).received()) && exists|rq: Seq<Seq<u8>>|
            rq.is_prefix_of(
                spec_chunk_reads(start as int, len as int, chunk_len as int),
            ) && final(dev).sent() == old(dev).sent() + rq,
        len == 0 ==> r is Ok && final(dev).sent() == old(dev).sent() && final(dev).received()
            == old(dev).received(),
{
    let ghost full = spec_chunk_reads(start as int, len as int, chunk_len as int);
    let ghost c = chunk_len as int;
    let mut data: Vec<u8> = Vec::new();
    let mut off: usize = 0;
    let ghost mut done: Seq<Seq<u8>> = Seq::empty();
    let ghost mut resps: Seq<Seq<u8>> = Seq::empty();
    proof {
        assert(done + full =~= full);
    }
    while off < len as usize
        invariant
            off <= len,
            data@.len() == off,
            done.len() == resps.len(),
            off as int == done.len() * c || off == len,
            done + spec_chunk_reads(start as int + off as int, len as int - off as int, c)
                == full,
            dev.sent() == old(dev).sent() + done,
            dev.received() == old(dev).received() + resps,
            forall|i: int|
                0 <= i < resps.len() ==> (#[trigger] resps[i]).len() == 32 && resps[i][3]
                    == spec_chunk_size(len as int, c, i),
            forall|p: int| 0 <= p < off ==> data@[p] == resps[p / c][4 + p % c],
        decreases len - off,
    {
        let ghost i = done.len() as int;
        let rem: u16 = len - off as u16;
        let size: u8 = if rem < chunk_len as u16 {
            rem as u8
        } else {
            chunk_len
        };
        let address: u16 = start + off as u16;
        proof {
            assert(off as int == i * c);
            assert((i + 1) * c == i * c + c) by (nonlinear_arith);
            assert(size as int == spec_chunk_size(len as int, c, i));
        }
        let request = build_chunk_read(address, size);
        let ghost rest = spec_chunk_reads(start as int + off as int, len as int - off as int, c);
        proof {
            assert(rest[0] == request@);
            assert(done.push(request@) =~= done + seq![request@]);
            assert(done.push(request@) + spec_chunk_reads(
                start as int + off as int + c,
                len as int - off as int - c,
                c,
            ) =~= full);
            assert(done.push(request@).is_prefix_of(full)) by {
                assert(done.push(request@) =~= full.take(i + 1));
            }
            assert(done.is_prefix_of(full)) by {
                assert(done =~= full.take(i));
            }
        }
        match dev.write_frame(&request) {
            Ok(()) => (),
            Err(e) => {
                proof {
                    assert(dev.sent() == old(dev).sent() + done);
                    assert(old(dev).received().is_prefix_of(dev.received())) by {
                        assert(old(dev).received() =~= dev.received().take(
                            old(dev).received().len() as int,
                        ));
                    }
                }
                return Err(e);
            },
        }
        proof {
            done = done.push(request@);
        }
        let response = match dev.read_frame() {
            Ok(f) => f,
            Err(e) => {
                proof {
                    assert(old(dev).received().is_prefix_of(dev.received())) by {
                        assert(old(dev).received() =~= dev.received().take(
                            old(dev).received().len() as int,
                        ));
                    }
                }
                return Err(e);
            },
        };
        let rbytes = response.bytes();
        if rbytes[3] != size {
            proof {
                assert(old(dev).received().is_prefix_of(dev.received())) by {
                    assert(old(dev).received() =~= dev.received().take(
                        old(dev).received().len() as int,
                    ));
                }
            }
            return Err(Error::ProtocolSizeError);
        }
        let mut j: usize = 0;
        while j < size as usize
            invariant
                j <= size,
                data@.len() == off + j,
                forall|q: int| off <= q < off + j ==> data@[q] == response@[4 + (q - off)],
                forall|q: int| 0 <= q < off ==> data@[q] == resps[q / c][4 + q % c],
            decreases size - j,
        {
            data.push(rbytes[4 + j]);
            j += 1;
        }
        let ghost resps0 = resps;
        proof {
            resps = resps.push(response@);
            assert forall|p: int| 0 <= p < off + size implies data@[p] == resps[p / c][4 + p
                % c] by {
                if p < off {
                    assert(p / c < i) by {
                        lemma_div_ident(p, c);
                        if p / c >= i {
                            assert(p / c * c >= i * c) by (nonlinear_arith)
                                requires
                                    p / c >= i,
                                    c >= 1,
                            ;
                        }
                    }
                    assert(resps[p / c] == resps0[p / c]);
                } else {
                    lemma_fundamental_div_mod_converse(p, c, i, p - off);
                    assert(resps[i] == response@);
                }
            }
        }
        off += size as usize;
        proof {
            if off < len {
                assert(off as int == (i + 1) * c) by (nonlinear_arith)
                    requires off as int == i * c + c;
            }
        }
    }
    proof {
        assert(spec_chunk_reads(start as int + off as int, len as int - off as int, c)
            =~= Seq::<Seq<u8>>::empty());
        assert(done + Seq::<Seq<u8>>::empty() =~= done);
        assert(dev.sent() == old(dev).sent() + full);
        if len == 0 {
            assert(dev.sent() =~= old(dev).sent());
            assert(dev.received() =~= old(dev).received());
        }
    }
    Ok(data)
}

/// Writes `data` to device address `start` in chunks of at most `chunk_len`
/// bytes, strictly in increasing address order. After each chunk the
/// device's single acknowledgment frame is read and discarded: its content
/// is of unconfirmed meaning, but the read must happen, or every later
/// exchange on the channel is desynchronized.
#[verifier::loop_isolation(false)]
#[verifier::rlimit(100)]
pub fn write_data<C: Channel>(dev: &mut C, start: u16, data: &[u8], chunk_len: u8) -> (r: Result<
    (),
    Error,
>)
    requires
        1 <= chunk_len <= CHUNK_CAPACITY,
        start as int + data@.len() <= 0x10000,
    ensures
        r is Ok ==> final(dev).sent() == old(dev).sent() + spec_chunk_writes(
            start as int,
            data@,
            chunk_len as int,
        ) && exists|acks: Seq<Seq<u8>>|
            final(dev).received() == old(dev).received() + acks && acks.len()
                == spec_chunk_writes(start as int, data@, chunk_len as int).len() && forall|i: int|
                0 <= i < acks.len() ==> (#[trigger] acks[i]).len() == 32,
        r matches Err(e) ==> e == Error::IoError && old(dev).received().is_prefix_of(
            final(dev).received(),
        ) && exists|rq: Seq<Seq<u8>>|
            rq.is_prefix_of(spec_chunk_writes(start as int, data@, chunk_len as int))
                && final(dev).sent() == old(dev).sent() + rq,
        data@.len() == 0 ==> r is Ok && final(dev).sent() == old(dev).sent()
            && final(dev).received() == old(dev).received(),
{
    let ghost full = spec_chunk_writes(start as int, data@, chunk_len as int);
    let ghost c = chunk_len as int;
    let len: usize = data.len();
    let mut off: usize = 0;
    let ghost mut done: Seq<Seq<u8>> = Seq::empty();
    let ghost mut acks: Seq<Seq<u8>> = Seq::empty();
    proof {
        assert(data@.skip(0) =~= data@);
        assert(done + full =~= full);
    }
    while off < len
        invariant
            off <= len,
            len == data@.len(),
            done.len() == acks.len(),
            done + spec_chunk_writes(start as int + off as int, data@.skip(off as int), c)
                == full,
            dev.sent() == old(dev).sent() + done,
            dev.received() == old(dev).received() + acks,
            forall|i: int| 0 <= i < acks.len() ==> (#[trigger] acks[i]).len() == 32,
        decreases len - off,
    {
        let ghost i = done.len() as int;
        let rem: usize = len - off;
        let size: usize = if rem < chunk_len as usize {
            rem
        } else {
            chunk_len as usize
        };
        let address: u16 = start + off as u16;
        let mut chunk: Vec<u8> = Vec::new();
        let mut j: usize = 0;
        while j < size
            invariant
                j <= size,
                chunk@.len() == j,
                forall|q: int| 0 <= q < j ==> chunk@[q] == data@[off + q],
            decreases size - j,
        {
            chunk.push(data[off + j]);
            j += 1;
        }
        let ghost remaining = data@.skip(off as int);
        proof {
            if size < rem {
                assert(chunk@ =~= remaining.take(c));
            } else {
                assert(chunk@ =~= remaining);
            }
        }
        let request = match build_chunk_write(address, chunk.as_slice()) {
            Ok(f) => f,
            Err(_) => {
                proof {
                    assert(false);  // the chunk never exceeds the frame capacity
                }
                return Err(Error::IoError);
            },
        };
        let ghost rest = spec_chunk_writes(start as int + off as int, remaining, c);
        proof {
            assert(rest[0] == request@);
            assert(done.push(request@) =~= done + seq![request@]);
            if size < rem {
                assert(remaining.skip(c) =~= data@.skip(off as int + c));
                assert(done.push(request@) + spec_chunk_writes(
                    start as int + off as int + c,
                    data@.skip(off as int + c),
                    c,
                ) =~= full);
            } else {
                assert(data@.skip(off as int + size as int) =~= Seq::<u8>::empty());
                assert(done.push(request@) + spec_chunk_writes(
                    start as int + off as int + size as int,
                    data@.skip(off as int + size as int),
                    c,
                ) =~= full);
            }
            assert(done.push(request@).is_prefix_of(full)) by {
                assert(done.push(request@) =~= full.take(i + 1));
            }
            assert(done.is_prefix_of(full)) by {
                assert(done =~= full.take(i));
            }
        }
        match dev.write_frame(&request) {
            Ok(()) => (),
            Err(e) => {
                proof {
                    assert(old(dev).received().is_prefix_of(dev.received())) by {
                        assert(old(dev).received() =~= dev.received().take(
                            old(dev).received().len() as int,
                        ));
                    }
                }
                return Err(e);
            },
        }
        proof {
            done = done.push(request@);
        }
        let ack = match dev.read_frame() {
            Ok(f) => f,
            Err(e) => {
                proof {
                    assert(old(dev).received().is_prefix_of(dev.received())) by {
                        assert(old(dev).received() =~= dev.received().take(
                            old(dev).received().len() as int,
                        ));
                    }
                }
                return Err(e);
            },
        };
        proof {
            acks = acks.push(ack@);
        }
        off += size;
    }
    proof {
        assert(data@.skip(off as int) =~= Seq::<u8>::empty());
        assert(spec_chunk_writes(start as int + off as int, data@.skip(off as int), c)
            =~= Seq::<Seq<u8>>::empty());
        assert(done + Seq::<Seq<u8>>::empty() =~= done);
        if data.len() == 0 {
            assert(dev.sent() =~= old(dev).sent());
            assert(dev.received() =~= old(dev).received());
        }
    }
    Ok(())
}

} // verus!
