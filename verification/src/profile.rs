use vstd::prelude::*;
use vstd::seq_lib::*;

use crate::channel::Channel;
use crate::error::Error;
use crate::frame::{
    build_simple_set, response_value, spec_be16, spec_simple_get, spec_simple_set,
    GET_CURRENT_PROFILE, OP_SIMPLE_SET, SET_CURRENT_PROFILE,
};
use crate::transfer::{get_simple, read_data};

verus! {

/// Exactly this many profiles exist on the device; a requested index at or
/// beyond it is rejected before any device I/O.
pub const PROFILE_COUNT: u16 = 4;

/// The capture request: a simple get of the current-profile command code.
pub open spec fn spec_get_profile_req() -> Seq<u8> {
    spec_simple_get(GET_CURRENT_PROFILE)
}

/// The switch request: a simple set of the current-profile command code.
/// Its command code equals the get's; only the opcode tells them apart.
pub open spec fn spec_set_profile_req(index: u16) -> Seq<u8> {
    spec_simple_set(SET_CURRENT_PROFILE, index)
}

/// Whether a request frame switches the device's active profile.
pub open spec fn is_switch_frame(f: Seq<u8>) -> bool {
    f.len() == 32 && f[0] == OP_SIMPLE_SET && f[1] == crate::frame::spec_hi(SET_CURRENT_PROFILE)
        && f[2] == crate::frame::spec_lo(SET_CURRENT_PROFILE)
}

/// The device's active profile after it has consumed `frames`, starting
/// from `initial`: each switch request replaces it, no other frame touches
/// it.
pub open spec fn spec_profile_after(frames: Seq<Seq<u8>>, initial: u16) -> u16
    decreases frames.len(),
{
    if frames.len() == 0 {
        initial
    } else if is_switch_frame(frames.last()) {
        spec_be16(frames.last(), 3)
    } else {
        spec_profile_after(frames.drop_last(), initial)
    }
}

/// Frames that are not switch requests leave the device's active profile
/// where it was.
pub proof fn lemma_non_switch_frames(s: Seq<Seq<u8>>, body: Seq<Seq<u8>>, initial: u16)
    requires
        forall|i: int| 0 <= i < body.len() ==> !is_switch_frame(#[trigger] body[i]),
    ensures
        spec_profile_after(s + body, initial) == spec_profile_after(s, initial),
    decreases body.len(),
{
    if body.len() == 0 {
        assert(s + body =~= s);
    } else {
        assert((s + body).drop_last() =~= s + body.drop_last());
        assert((s + body).last() == body.last());
        lemma_non_switch_frames(s, body.drop_last(), initial);
    }
}

/// No chunk-read request is a switch request.
pub proof fn lemma_chunk_reads_not_switch(start: int, len: int, c: int)
    ensures
        forall|i: int|
            0 <= i < crate::transfer::spec_chunk_reads(start, len, c).len()
                ==> !is_switch_frame(
                #[trigger] crate::transfer::spec_chunk_reads(start, len, c)[i],
            ),
    decreases len,
{
    let reqs = crate::transfer::spec_chunk_reads(start, len, c);
    if len <= 0 || c < 1 {
    } else if len <= c {
        assert(!is_switch_frame(reqs[0]));
    } else {
        lemma_chunk_reads_not_switch(start + c, len - c, c);
        let rest = crate::transfer::spec_chunk_reads(start + c, len - c, c);
        assert forall|i: int| 0 <= i < reqs.len() implies !is_switch_frame(
            #[trigger] reqs[i],
        ) by {
            if i == 0 {
                assert(!is_switch_frame(reqs[0]));
            } else {
                assert(reqs[i] == rest[i - 1]);
            }
        }
    }
}

/// No chunk-write request is a switch request.
pub proof fn lemma_chunk_writes_not_switch(start: int, data: Seq<u8>, c: int)
    ensures
        forall|i: int|
            0 <= i < crate::transfer::spec_chunk_writes(start, data, c).len()
                ==> !is_switch_frame(
                #[trigger] crate::transfer::spec_chunk_writes(start, data, c)[i],
            ),
    decreases data.len(),
{
    let reqs = crate::transfer::spec_chunk_writes(start, data, c);
    if data.len() <= 0 || c < 1 {
    } else if data.len() <= c {
        assert(!is_switch_frame(reqs[0]));
    } else {
        lemma_chunk_writes_not_switch(start + c, data.skip(c), c);
        let rest = crate::transfer::spec_chunk_writes(start + c, data.skip(c), c);
        assert forall|i: int| 0 <= i < reqs.len() implies !is_switch_frame(
            #[trigger] reqs[i],
        ) by {
            if i == 0 {
                assert(!is_switch_frame(reqs[0]));
            } else {
                assert(reqs[i] == rest[i - 1]);
            }
        }
    }
}

/// The switch-and-restore discipline leaves the device where it was: when
/// the capture response reported the device's true profile `q`, then after
/// the frames of a switched operation — capture, switch to any `p`, any
/// run of non-switch frames, restore to `q` — the active profile equals
/// the initial one again.
pub proof fn lemma_profile_restored(
    s: Seq<Seq<u8>>,
    p: u16,
    body: Seq<Seq<u8>>,
    q: u16,
)
    ensures
        spec_profile_after(
            s.push(spec_get_profile_req()).push(spec_set_profile_req(p)) + body + seq![
                spec_set_profile_req(q),
            ],
            q,
        ) == q,
{
    let whole = s.push(spec_get_profile_req()).push(spec_set_profile_req(p)) + body + seq![
        spec_set_profile_req(q),
    ];
    assert(whole.last() == spec_set_profile_req(q));
    assert(is_switch_frame(spec_set_profile_req(q)));
    crate::transfer::lemma_be16_split(q);
    assert(spec_be16(spec_set_profile_req(q), 3) == q);
}

/// Reads the device's active profile index: one simple-get exchange whose
/// response carries the index big-endian at bytes 3..5.
pub fn get_current_profile<C: Channel>(dev: &mut C) -> (r: Result<u16, Error>)
    ensures
        r matches Ok(p) ==> final(dev).sent() == old(dev).sent().push(spec_get_profile_req())
            && exists|resp: Seq<u8>|
            resp.len() == 32 && final(dev).received() == old(dev).received().push(resp) && p
                == spec_be16(resp, 3),
        r is Err ==> r == Err::<u16, Error>(Error::IoError) && final(dev).received() == old(
            dev,
        ).received() && (final(dev).sent() == old(dev).sent() || final(dev).sent() == old(
            dev,
        ).sent().push(spec_get_profile_req())),
{
    let response = get_simple(dev, GET_CURRENT_PROFILE)?;
    Ok(response_value(&response))
}

/// Switches the device's active profile. The device answers with two
/// 32-byte frames, of unconfirmed content; both must be read, or every
/// later exchange on the channel is desynchronized. Any 16-bit index goes
/// on the wire: the restore step hands back whatever the device reported,
/// and the device's own report is not range-checked.
pub fn set_current_profile<C: Channel>(dev: &mut C, id: u16) -> (r: Result<(), Error>)
    ensures
        r is Ok ==> final(dev).sent() == old(dev).sent().push(spec_set_profile_req(id)) && exists|
            r1: Seq<u8>,
            r2: Seq<u8>,
        |
            r1.len() == 32 && r2.len() == 32 && final(dev).received() == old(
                dev,
            ).received().push(r1).push(r2),
        r is Err ==> r == Err::<(), Error>(Error::IoError) && (final(dev).sent() == old(
            dev,
        ).sent() || final(dev).sent() == old(dev).sent().push(spec_set_profile_req(id))) && old(
            dev,
        ).received().is_prefix_of(final(dev).received()) && final(dev).received().len() <= old(
            dev,
        ).received().len() + 2,
{
    let request = build_simple_set(SET_CURRENT_PROFILE, id);
    proof {
        assert(old(dev).received().is_prefix_of(old(dev).received())) by {
            assert(old(dev).received() =~= old(dev).received().take(
                old(dev).received().len() as int,
            ));
        }
    }
    match dev.write_frame(&request) {
        Ok(()) => (),
        Err(e) => {
            return Err(e);
        },
    }
    let first = dev.read_frame()?;
    proof {
        assert(old(dev).received().is_prefix_of(dev.received())) by {
            assert(old(dev).received() =~= dev.received().take(old(dev).received().len() as int));
        }
    }
    let second = dev.read_frame()?;
    proof {
        assert(old(dev).received().is_prefix_of(dev.received())) by {
            assert(old(dev).received() =~= dev.received().take(old(dev).received().len() as int));
        }
        let ghost r1 = first@;
        let ghost r2 = second@;
        assert(dev.received() == old(dev).received().push(r1).push(r2));
    }
    Ok(())
}

/// An element of a prefix is the same element of the longer sequence.
proof fn lemma_prefix_index(a: Seq<Seq<u8>>, b: Seq<Seq<u8>>, i: int)
    requires
        a.is_prefix_of(b),
        0 <= i < a.len(),
    ensures
        b[i] == a[i],
{
    assert(a[i] == b.subrange(0, a.len() as int)[i]);
}

/// Prefixes compose through a transcript extension.
proof fn lemma_prefix_trans(a: Seq<Seq<u8>>, b: Seq<Seq<u8>>, c: Seq<Seq<u8>>)
    requires
        a.is_prefix_of(b),
        b.is_prefix_of(c),
    ensures
        a.is_prefix_of(c),
{
    assert forall|i: int| 0 <= i < a.len() implies a[i] == #[trigger] c.subrange(
        0,
        a.len() as int,
    )[i] by {
        assert(a[i] == b.subrange(0, a.len() as int)[i]);
        assert(b[i] == c.subrange(0, b.len() as int)[i]);
    }
    assert(a =~= c.subrange(0, a.len() as int));
}

/// Extending a common prefix by a prefix of the remainder stays a prefix.
proof fn lemma_prefix_extend(a: Seq<Seq<u8>>, p: Seq<Seq<u8>>, b: Seq<Seq<u8>>)
    requires
        p.is_prefix_of(b),
    ensures
        (a + p).is_prefix_of(a + b),
{
    assert forall|i: int| 0 <= i < a.len() + p.len() implies (a + p)[i] == #[trigger] (a
        + b).subrange(0, (a.len() + p.len()) as int)[i] by {
        if i >= a.len() {
            assert(p[i - a.len()] == b.subrange(0, p.len() as int)[i - a.len()]);
        }
    }
    assert(a + p =~= (a + b).subrange(0, (a.len() + p.len()) as int));
}

/// A frame that is not a switch request leaves the device's profile alone.
proof fn lemma_step_non_switch(s: Seq<Seq<u8>>, f: Seq<u8>, i0: u16)
    requires
        !is_switch_frame(f),
    ensures
        spec_profile_after(s.push(f), i0) == spec_profile_after(s, i0),
{
    assert(s.push(f).last() == f);
    assert(s.push(f).drop_last() =~= s);
}

/// After a transcript that ends with a switch to `v`, the device's active
/// profile is `v`.
proof fn lemma_ends_with_switch(s: Seq<Seq<u8>>, v: u16, i0: u16)
    requires
        s.len() > 0,
        s.last() == spec_set_profile_req(v),
    ensures
        spec_profile_after(s, i0) == v,
{
    assert(is_switch_frame(spec_set_profile_req(v)));
    crate::transfer::lemma_be16_split(v);
}

/// After capture, switch to `p`, and a run of non-switch body frames —
/// complete or cut short — the device's profile is `p`; if a restore to
/// `captured` followed, it is `captured`.
proof fn lemma_body_profile(
    old_sent: Seq<Seq<u8>>,
    sent_got: Seq<Seq<u8>>,
    sent_switched: Seq<Seq<u8>>,
    sent_body: Seq<Seq<u8>>,
    full: Seq<Seq<u8>>,
    body_ok: bool,
    cur: Seq<Seq<u8>>,
    p: u16,
    captured: u16,
    i0: u16,
)
    requires
        sent_got == old_sent.push(spec_get_profile_req()),
        sent_switched == sent_got.push(spec_set_profile_req(p)),
        forall|i: int| 0 <= i < full.len() ==> !is_switch_frame(#[trigger] full[i]),
        body_ok ==> sent_body == sent_switched + full,
        !body_ok ==> exists|rq: Seq<Seq<u8>>|
            rq.is_prefix_of(full) && sent_body == sent_switched + rq,
        cur == sent_body || cur == sent_body.push(spec_set_profile_req(captured)),
    ensures
        spec_profile_after(cur, i0) == p || spec_profile_after(cur, i0) == captured,
{
    if cur == sent_body {
        if body_ok {
            lemma_non_switch_frames(sent_switched, full, i0);
        } else {
            let rq = choose|rq: Seq<Seq<u8>>|
                rq.is_prefix_of(full) && sent_body == sent_switched + rq;
            assert forall|i: int| 0 <= i < rq.len() implies !is_switch_frame(
                #[trigger] rq[i],
            ) by {
                lemma_prefix_index(rq, full, i);
            }
            lemma_non_switch_frames(sent_switched, rq, i0);
        }
        lemma_ends_with_switch(sent_switched, p, i0);
    } else {
        lemma_ends_with_switch(cur, captured, i0);
    }
}

/// What the profile-data transfer under a switch puts on the wire when it
/// succeeds end to end: capture, switch to `p`, the chunk requests, restore
/// to the captured value `q`.
pub open spec fn spec_switched_reads(s: Seq<Seq<u8>>, p: u16, q: u16, c: int) -> Seq<Seq<u8>> {
    s.push(spec_get_profile_req()).push(spec_set_profile_req(p)) + crate::transfer::spec_chunk_reads(
        0,
        crate::keymap::PROFILE_DATA_LEN as int,
        c,
    ) + seq![spec_set_profile_req(q)]
}

/// Fetches the 960-byte profile blob. With `index` given, runs under the
/// switch-and-restore discipline: capture the active profile, switch,
/// transfer, and unconditionally attempt to switch back, whether or not the
/// transfer succeeded; the transfer's result is returned when both were
/// attempted, but a failure of the restore itself propagates and takes its
/// place. With no `index`, transfers against whatever profile is active,
/// with no switch.
#[verifier::rlimit(100)]
pub fn read_profile<C: Channel>(dev: &mut C, index: Option<u16>) -> (r: Result<Vec<u8>, Error>)
    requires
        index matches Some(p) ==> p < PROFILE_COUNT,
    ensures
        index is None ==> {
            &&& (r matches Ok(data) ==> data@.len() == crate::keymap::PROFILE_DATA_LEN
                && final(dev).sent() == old(dev).sent() + crate::transfer::spec_chunk_reads(
                0,
                crate::keymap::PROFILE_DATA_LEN as int,
                crate::transfer::MAX_DATA_CHUNK_LEN as int,
            ) && exists|resps: Seq<Seq<u8>>|
                {
                    &&& final(dev).received() == old(dev).received() + resps
                    &&& (forall|i: int| 0 <= i < resps.len() ==> (#[trigger] resps[i]).len() == 32)
                    &&& (forall|p: int|
                        0 <= p < data@.len() ==> data@[p] == resps[p
                            / (crate::transfer::MAX_DATA_CHUNK_LEN as int)][4 + p % (
                        crate::transfer::MAX_DATA_CHUNK_LEN as int)])
                })
            &&& (forall|i0: u16|
                spec_profile_after(final(dev).sent(), i0) == spec_profile_after(
                    old(dev).sent(),
                    i0,
                ))
        },
        index matches Some(p) ==> (r matches Ok(data) ==> data@.len()
            == crate::keymap::PROFILE_DATA_LEN && exists|g: Seq<u8>|
            {
                &&& g.len() == 32
                &&& final(dev).received().len() > old(dev).received().len()
                &&& final(dev).received()[old(dev).received().len() as int] == g
                &&& final(dev).sent() == spec_switched_reads(
                    old(dev).sent(),
                    p,
                    spec_be16(g, 3),
                    crate::transfer::MAX_DATA_CHUNK_LEN as int,
                )
                &&& exists|mid: Seq<Seq<u8>>, resps: Seq<Seq<u8>>, tail: Seq<Seq<u8>>|
                    {
                        &&& mid.len() == 2
                        &&& tail.len() == 2
                        &&& final(dev).received() == old(dev).received().push(g) + mid + resps
                            + tail
                        &&& (forall|i: int|
                            0 <= i < resps.len() ==> (#[trigger] resps[i]).len() == 32)
                        &&& (forall|pb: int|
                            0 <= pb < data@.len() ==> data@[pb] == resps[pb
                                / (crate::transfer::MAX_DATA_CHUNK_LEN as int)][4 + pb % (
                            crate::transfer::MAX_DATA_CHUNK_LEN as int)])
                    }
                &&& forall|i0: u16|
                    spec_be16(g, 3) == spec_profile_after(old(dev).sent(), i0)
                        ==> spec_profile_after(final(dev).sent(), i0) == spec_profile_after(
                        old(dev).sent(),
                        i0,
                    )
            }),
        r matches Err(e) ==> (e == Error::IoError || e == Error::ProtocolSizeError),
        index matches Some(p) ==> r is Err ==> forall|i0: u16|
            {
                ||| spec_profile_after(final(dev).sent(), i0) == spec_profile_after(
                    old(dev).sent(),
                    i0,
                )
                ||| spec_profile_after(final(dev).sent(), i0) == p
                ||| (final(dev).received().len() > old(dev).received().len()
                    && spec_profile_after(final(dev).sent(), i0) == spec_be16(
                    final(dev).received()[old(dev).received().len() as int],
                    3,
                ))
            },
        index matches Some(p) ==> r is Err ==> {
            ||| final(dev).sent() == old(dev).sent()
            ||| final(dev).sent() == old(dev).sent().push(spec_get_profile_req())
            ||| exists|rq: Seq<Seq<u8>>|
                rq.is_prefix_of(
                    crate::transfer::spec_chunk_reads(
                        0,
                        crate::keymap::PROFILE_DATA_LEN as int,
                        crate::transfer::MAX_DATA_CHUNK_LEN as int,
                    ),
                ) && final(dev).sent() == old(dev).sent().push(spec_get_profile_req()).push(
                    spec_set_profile_req(p),
                ) + rq
            ||| exists|rq: Seq<Seq<u8>>|
                rq.is_prefix_of(
                    crate::transfer::spec_chunk_reads(
                        0,
                        crate::keymap::PROFILE_DATA_LEN as int,
                        crate::transfer::MAX_DATA_CHUNK_LEN as int,
                    ),
                ) && final(dev).received().len() > old(dev).received().len() && final(dev).sent()
                    == old(dev).sent().push(spec_get_profile_req()).push(spec_set_profile_req(p))
                    + rq + seq![
                    spec_set_profile_req(
                        spec_be16(final(dev).received()[old(dev).received().len() as int], 3),
                    ),
                ]
        },
{
    match index {
        None => {
            let result = read_data(
                dev,
                0,
                crate::keymap::PROFILE_DATA_LEN as u16,
                crate::transfer::MAX_DATA_CHUNK_LEN,
            );
            proof {
                let c = crate::transfer::MAX_DATA_CHUNK_LEN as int;
                lemma_chunk_reads_not_switch(0, crate::keymap::PROFILE_DATA_LEN as int, c);
                let full = crate::transfer::spec_chunk_reads(
                    0,
                    crate::keymap::PROFILE_DATA_LEN as int,
                    c,
                );
                assert forall|i0: u16|
                    spec_profile_after(dev.sent(), i0) == spec_profile_after(
                        old(dev).sent(),
                        i0,
                    ) by {
                    if result is Ok {
                        lemma_non_switch_frames(old(dev).sent(), full, i0);
                    } else {
                        let rq = choose|rq: Seq<Seq<u8>>|
                            rq.is_prefix_of(full) && dev.sent() == old(dev).sent() + rq;
                        assert forall|i: int| 0 <= i < rq.len() implies !is_switch_frame(
                            #[trigger] rq[i],
                        ) by {
                            assert(rq[i] == full.subrange(0, rq.len() as int)[i]);
                        }
                        lemma_non_switch_frames(old(dev).sent(), rq, i0);
                    }
                }
                if result is Ok {
                    let data = result->Ok_0;
                    let resps = choose|resps: Seq<Seq<u8>>|
                        {
                            &&& dev.received() == old(dev).received() + resps
                            &&& (forall|i: int|
                                0 <= i < resps.len() ==> (#[trigger] resps[i]).len() == 32)
                            &&& (forall|pb: int|
                                0 <= pb < data@.len() ==> data@[pb] == resps[pb / c][4 + pb % c])
                        };
                    assert(dev.received() == old(dev).received() + resps);
                }
            }
            result
        },
        Some(p) => {
            let ghost old_sent = old(dev).sent();
            let ghost old_recv = old(dev).received();
            let captured = match get_current_profile(dev) {
                Ok(q) => q,
                Err(e) => {
                    proof {
                        assert forall|i0: u16|
                            spec_profile_after(dev.sent(), i0) == spec_profile_after(
                                old_sent,
                                i0,
                            ) by {
                            if dev.sent() != old_sent {
                                assert(!is_switch_frame(spec_get_profile_req()));
                                lemma_step_non_switch(old_sent, spec_get_profile_req(), i0);
                            }
                        }
                    }
                    return Err(e);
                },
            };
            let ghost g = choose|resp: Seq<u8>|
                resp.len() == 32 && dev.received() == old_recv.push(resp) && captured
                    == spec_be16(resp, 3);
            let ghost sent_got = dev.sent();
            let ghost recv_got = dev.received();
            match set_current_profile(dev, p) {
                Ok(()) => (),
                Err(e) => {
                    proof {
                        assert forall|i0: u16|
                            spec_profile_after(dev.sent(), i0) == spec_profile_after(
                                old_sent,
                                i0,
                            ) || spec_profile_after(dev.sent(), i0) == p by {
                            assert(!is_switch_frame(spec_get_profile_req()));
                            lemma_step_non_switch(old_sent, spec_get_profile_req(), i0);
                            if dev.sent() != sent_got {
                                assert(dev.sent() == sent_got.push(spec_set_profile_req(p)));
                                lemma_ends_with_switch(dev.sent(), p, i0);
                            }
                        }
                        let full0 = crate::transfer::spec_chunk_reads(
                            0,
                            crate::keymap::PROFILE_DATA_LEN as int,
                            crate::transfer::MAX_DATA_CHUNK_LEN as int,
                        );
                        let rq0 = Seq::<Seq<u8>>::empty();
                        assert(rq0.is_prefix_of(full0)) by {
                            assert(rq0 =~= full0.take(0));
                        }
                        if dev.sent() != sent_got {
                            assert(dev.sent() =~= old_sent.push(spec_get_profile_req()).push(
                                spec_set_profile_req(p),
                            ) + rq0);
                        }
                    }
                    return Err(e);
                },
            }
            let ghost sent_switched = dev.sent();
            let ghost recv_switched = dev.received();
            proof {
                let (a1, a2) = choose|a1: Seq<u8>, a2: Seq<u8>|
                    a1.len() == 32 && a2.len() == 32 && recv_switched == recv_got.push(a1).push(
                        a2,
                    );
                assert(recv_switched[old_recv.len() as int] == g);
            }
            let result = read_data(
                dev,
                0,
                crate::keymap::PROFILE_DATA_LEN as u16,
                crate::transfer::MAX_DATA_CHUNK_LEN,
            );
            let ghost sent_body = dev.sent();
            let ghost recv_body = dev.received();
            let ghost c = crate::transfer::MAX_DATA_CHUNK_LEN as int;
            let ghost full = crate::transfer::spec_chunk_reads(
                0,
                crate::keymap::PROFILE_DATA_LEN as int,
                c,
            );
            proof {
                lemma_chunk_reads_not_switch(0, crate::keymap::PROFILE_DATA_LEN as int, c);
                if result is Ok {
                    let resps = choose|resps: Seq<Seq<u8>>|
                        recv_body == recv_switched + resps && resps.len() == full.len() && (forall|
                            i: int,
                        |
                            0 <= i < resps.len() ==> (#[trigger] resps[i]).len() == 32);
                    assert(recv_body[old_recv.len() as int] == recv_switched[old_recv.len()
                        as int]);
                } else {
                    lemma_prefix_index(recv_switched, recv_body, old_recv.len() as int);
                }
                assert(recv_body[old_recv.len() as int] == g);
                assert(recv_body.len() > old_recv.len());
            }
            match set_current_profile(dev, captured) {
                Ok(()) => (),
                Err(e) => {
                    proof {
                        if dev.received() != recv_body {
                            lemma_prefix_index(recv_body, dev.received(), old_recv.len() as int);
                        }
                        assert(dev.received()[old_recv.len() as int] == g);
                        assert forall|i0: u16|
                            spec_profile_after(dev.sent(), i0) == spec_profile_after(
                                old_sent,
                                i0,
                            ) || spec_profile_after(dev.sent(), i0) == p || (dev.received().len()
                            > old_recv.len() && spec_profile_after(dev.sent(), i0) == spec_be16(
                            dev.received()[old_recv.len() as int],
                            3,
                        )) by {
                            lemma_body_profile(
                                old_sent,
                                sent_got,
                                sent_switched,
                                sent_body,
                                full,
                                result is Ok,
                                dev.sent(),
                                p,
                                captured,
                                i0,
                            );
                        }
                        let rqx = if result is Ok {
                            full
                        } else {
                            choose|rq: Seq<Seq<u8>>|
                                rq.is_prefix_of(full) && sent_body == sent_switched + rq
                        };
                        assert(full.is_prefix_of(full)) by {
                            assert(full =~= full.take(full.len() as int));
                        }
                        assert(rqx.is_prefix_of(full) && sent_body == sent_switched + rqx);
                        if dev.sent() == sent_body {
                            assert(dev.sent() =~= old_sent.push(spec_get_profile_req()).push(
                                spec_set_profile_req(p),
                            ) + rqx);
                        } else {
                            assert(dev.sent() == sent_body.push(spec_set_profile_req(captured)));
                            assert(spec_be16(dev.received()[old_recv.len() as int], 3)
                                == captured);
                            assert(dev.received().len() > old_recv.len());
                            assert(dev.sent() =~= old_sent.push(spec_get_profile_req()).push(
                                spec_set_profile_req(p),
                            ) + rqx + seq![
                                spec_set_profile_req(
                                    spec_be16(dev.received()[old_recv.len() as int], 3),
                                ),
                            ]);
                        }
                    }
                    return Err(e);
                },
            }
            proof {
                let (t1, t2) = choose|t1: Seq<u8>, t2: Seq<u8>|
                    t1.len() == 32 && t2.len() == 32 && dev.received() == recv_body.push(t1).push(
                        t2,
                    );
                assert(dev.received() == recv_body.push(t1).push(t2));
                assert(dev.received()[old_recv.len() as int] == g);
                assert(dev.sent() == sent_body.push(spec_set_profile_req(captured)));
                if result is Err {
                    let rqx = choose|rq: Seq<Seq<u8>>|
                        rq.is_prefix_of(full) && sent_body == sent_switched + rq;
                    assert(spec_be16(dev.received()[old_recv.len() as int], 3) == captured);
                    assert(dev.received().len() > old_recv.len());
                    assert(dev.sent() =~= old_sent.push(spec_get_profile_req()).push(
                        spec_set_profile_req(p),
                    ) + rqx + seq![
                        spec_set_profile_req(
                            spec_be16(dev.received()[old_recv.len() as int], 3),
                        ),
                    ]);
                }
                if result is Ok {
                    assert(sent_body == sent_switched + full);
                    assert(dev.sent() =~= spec_switched_reads(old_sent, p, captured, c));
                    let data = result->Ok_0;
                    let (a1, a2) = choose|a1: Seq<u8>, a2: Seq<u8>|
                        a1.len() == 32 && a2.len() == 32 && recv_switched == recv_got.push(
                            a1,
                        ).push(a2);
                    let resps = choose|resps: Seq<Seq<u8>>|
                        {
                            &&& recv_body == recv_switched + resps
                            &&& (forall|i: int|
                                0 <= i < resps.len() ==> (#[trigger] resps[i]).len() == 32)
                            &&& (forall|pb: int|
                                0 <= pb < data@.len() ==> data@[pb] == resps[pb / c][4 + pb % c])
                        };
                    let mid = seq![a1, a2];
                    let tail = seq![t1, t2];
                    assert(dev.received() =~= old_recv.push(g) + mid + resps + tail);
                    assert(mid.len() == 2 && tail.len() == 2);
                    assert forall|i0: u16|
                        captured == spec_profile_after(old_sent, i0)
                            implies spec_profile_after(dev.sent(), i0) == spec_profile_after(
                        old_sent,
                        i0,
                    ) by {
                        lemma_ends_with_switch(dev.sent(), captured, i0);
                    }
                } else {
                    assert forall|i0: u16|
                        spec_profile_after(dev.sent(), i0) == spec_profile_after(old_sent, i0)
                            || spec_profile_after(dev.sent(), i0) == p || (dev.received().len()
                        > old_recv.len() && spec_profile_after(dev.sent(), i0) == spec_be16(
                        dev.received()[old_recv.len() as int],
                        3,
                    )) by {
                        lemma_ends_with_switch(dev.sent(), captured, i0);
                        crate::transfer::lemma_be16_split(captured);
                    }
                }
            }
            result
        },
    }
}

/// What storing a profile blob under a switch puts on the wire when it
/// succeeds end to end: capture, switch to `p`, the chunk-write requests,
/// restore to the captured value `q`.
pub open spec fn spec_switched_writes(
    s: Seq<Seq<u8>>,
    p: u16,
    q: u16,
    data: Seq<u8>,
    c: int,
) -> Seq<Seq<u8>> {
    s.push(spec_get_profile_req()).push(spec_set_profile_req(p))
        + crate::transfer::spec_chunk_writes(0, data, c) + seq![spec_set_profile_req(q)]
}

/// Stores the 960-byte profile blob, under the same switch-and-restore
/// discipline as the read path: with `index` given, the active profile is
/// captured, switched, and unconditionally restored after the transfer,
/// whether or not it succeeded; a failure of the restore itself propagates.
#[verifier::rlimit(100)]
pub fn write_profile<C: Channel>(dev: &mut C, index: Option<u16>, data: &[u8]) -> (r: Result<
    (),
    Error,
>)
    requires
        index matches Some(p) ==> p < PROFILE_COUNT,
        data@.len() == crate::keymap::PROFILE_DATA_LEN,
    ensures
        index is None ==> {
            &&& (r is Ok ==> final(dev).sent() == old(dev).sent()
                + crate::transfer::spec_chunk_writes(
                0,
                data@,
                crate::transfer::MAX_DATA_CHUNK_LEN as int,
            ))
            &&& (forall|i0: u16|
                spec_profile_after(final(dev).sent(), i0) == spec_profile_after(
                    old(dev).sent(),
                    i0,
                ))
        },
        index matches Some(p) ==> (r is Ok ==> exists|g: Seq<u8>|
            {
                &&& g.len() == 32
                &&& final(dev).received().len() > old(dev).received().len()
                &&& final(dev).received()[old(dev).received().len() as int] == g
                &&& final(dev).sent() == spec_switched_writes(
                    old(dev).sent(),
                    p,
                    spec_be16(g, 3),
                    data@,
                    crate::transfer::MAX_DATA_CHUNK_LEN as int,
                )
                &&& forall|i0: u16|
                    spec_be16(g, 3) == spec_profile_after(old(dev).sent(), i0)
                        ==> spec_profile_after(final(dev).sent(), i0) == spec_profile_after(
                        old(dev).sent(),
                        i0,
                    )
            }),
        r matches Err(e) ==> (e == Error::IoError || e == Error::ProtocolSizeError),
        index matches Some(p) ==> r is Err ==> forall|i0: u16|
            {
                ||| spec_profile_after(final(dev).sent(), i0) == spec_profile_after(
                    old(dev).sent(),
                    i0,
                )
                ||| spec_profile_after(final(dev).sent(), i0) == p
                ||| (final(dev).received().len() > old(dev).received().len()
                    && spec_profile_after(final(dev).sent(), i0) == spec_be16(
                    final(dev).received()[old(dev).received().len() as int],
                    3,
                ))
            },
        index matches Some(p) ==> r is Err ==> {
            ||| final(dev).sent() == old(dev).sent()
            ||| final(dev).sent() == old(dev).sent().push(spec_get_profile_req())
            ||| exists|rq: Seq<Seq<u8>>|
                rq.is_prefix_of(
                    crate::transfer::spec_chunk_writes(
                        0,
                        data@,
                        crate::transfer::MAX_DATA_CHUNK_LEN as int,
                    ),
                ) && final(dev).sent() == old(dev).sent().push(spec_get_profile_req()).push(
                    spec_set_profile_req(p),
                ) + rq
            ||| exists|rq: Seq<Seq<u8>>|
                rq.is_prefix_of(
                    crate::transfer::spec_chunk_writes(
                        0,
                        data@,
                        crate::transfer::MAX_DATA_CHUNK_LEN as int,
                    ),
                ) && final(dev).received().len() > old(dev).received().len() && final(dev).sent()
                    == old(dev).sent().push(spec_get_profile_req()).push(spec_set_profile_req(p))
                    + rq + seq![
                    spec_set_profile_req(
                        spec_be16(final(dev).received()[old(dev).received().len() as int], 3),
                    ),
                ]
        },
{
    let ghost c = crate::transfer::MAX_DATA_CHUNK_LEN as int;
    let ghost full = crate::transfer::spec_chunk_writes(0, data@, c);
    match index {
        None => {
            let result = crate::transfer::write_data(
                dev,
                0,
                data,
                crate::transfer::MAX_DATA_CHUNK_LEN,
            );
            proof {
                lemma_chunk_writes_not_switch(0, data@, c);
                assert forall|i0: u16|
                    spec_profile_after(dev.sent(), i0) == spec_profile_after(
                        old(dev).sent(),
                        i0,
                    ) by {
                    if result is Ok {
                        lemma_non_switch_frames(old(dev).sent(), full, i0);
                    } else {
                        let rq = choose|rq: Seq<Seq<u8>>|
                            rq.is_prefix_of(full) && dev.sent() == old(dev).sent() + rq;
                        assert forall|i: int| 0 <= i < rq.len() implies !is_switch_frame(
                            #[trigger] rq[i],
                        ) by {
                            lemma_prefix_index(rq, full, i);
                        }
                        lemma_non_switch_frames(old(dev).sent(), rq, i0);
                    }
                }
            }
            result
        },
        Some(p) => {
            let ghost old_sent = old(dev).sent();
            let ghost old_recv = old(dev).received();
            let captured = match get_current_profile(dev) {
                Ok(q) => q,
                Err(e) => {
                    proof {
                        assert forall|i0: u16|
                            spec_profile_after(dev.sent(), i0) == spec_profile_after(
                                old_sent,
                                i0,
                            ) by {
                            if dev.sent() != old_sent {
                                assert(!is_switch_frame(spec_get_profile_req()));
                                lemma_step_non_switch(old_sent, spec_get_profile_req(), i0);
                            }
                        }
                    }
                    return Err(e);
                },
            };
            let ghost g = choose|resp: Seq<u8>|
                resp.len() == 32 && dev.received() == old_recv.push(resp) && captured
                    == spec_be16(resp, 3);
            let ghost sent_got = dev.sent();
            let ghost recv_got = dev.received();
            match set_current_profile(dev, p) {
                Ok(()) => (),
                Err(e) => {
                    proof {
                        assert forall|i0: u16|
                            spec_profile_after(dev.sent(), i0) == spec_profile_after(
                                old_sent,
                                i0,
                            ) || spec_profile_after(dev.sent(), i0) == p by {
                            assert(!is_switch_frame(spec_get_profile_req()));
                            lemma_step_non_switch(old_sent, spec_get_profile_req(), i0);
                            if dev.sent() != sent_got {
                                assert(dev.sent() == sent_got.push(spec_set_profile_req(p)));
                                lemma_ends_with_switch(dev.sent(), p, i0);
                            }
                        }
                        let rq0 = Seq::<Seq<u8>>::empty();
                        assert(rq0.is_prefix_of(full)) by {
                            assert(rq0 =~= full.take(0));
                        }
                        if dev.sent() != sent_got {
                            assert(dev.sent() =~= old_sent.push(spec_get_profile_req()).push(
                                spec_set_profile_req(p),
                            ) + rq0);
                        }
                    }
                    return Err(e);
                },
            }
            let ghost sent_switched = dev.sent();
            let ghost recv_switched = dev.received();
            proof {
                let (a1, a2) = choose|a1: Seq<u8>, a2: Seq<u8>|
                    a1.len() == 32 && a2.len() == 32 && recv_switched == recv_got.push(a1).push(
                        a2,
                    );
                assert(recv_switched[old_recv.len() as int] == g);
            }
            let result = crate::transfer::write_data(
                dev,
                0,
                data,
                crate::transfer::MAX_DATA_CHUNK_LEN,
            );
            let ghost sent_body = dev.sent();
            let ghost recv_body = dev.received();
            proof {
                lemma_chunk_writes_not_switch(0, data@, c);
                if result is Ok {
                    let acks = choose|acks: Seq<Seq<u8>>|
                        recv_body == recv_switched + acks && acks.len() == full.len() && (forall|
                            i: int,
                        |
                            0 <= i < acks.len() ==> (#[trigger] acks[i]).len() == 32);
                    assert(recv_body[old_recv.len() as int] == recv_switched[old_recv.len()
                        as int]);
                } else {
                    lemma_prefix_index(recv_switched, recv_body, old_recv.len() as int);
                }
                assert(recv_body[old_recv.len() as int] == g);
                assert(recv_body.len() > old_recv.len());
            }
            match set_current_profile(dev, captured) {
                Ok(()) => (),
                Err(e) => {
                    proof {
                        if dev.received() != recv_body {
                            lemma_prefix_index(recv_body, dev.received(), old_recv.len() as int);
                        }
                        assert(dev.received()[old_recv.len() as int] == g);
                        assert forall|i0: u16|
                            spec_profile_after(dev.sent(), i0) == spec_profile_after(
                                old_sent,
                                i0,
                            ) || spec_profile_after(dev.sent(), i0) == p || (dev.received().len()
                            > old_recv.len() && spec_profile_after(dev.sent(), i0) == spec_be16(
                            dev.received()[old_recv.len() as int],
                            3,
                        )) by {
                            lemma_body_profile(
                                old_sent,
                                sent_got,
                                sent_switched,
                                sent_body,
                                full,
                                result is Ok,
                                dev.sent(),
                                p,
                                captured,
                                i0,
                            );
                        }
                        let rqx = if result is Ok {
                            full
                        } else {
                            choose|rq: Seq<Seq<u8>>|
                                rq.is_prefix_of(full) && sent_body == sent_switched + rq
                        };
                        assert(full.is_prefix_of(full)) by {
                            assert(full =~= full.take(full.len() as int));
                        }
                        assert(rqx.is_prefix_of(full) && sent_body == sent_switched + rqx);
                        if dev.sent() == sent_body {
                            assert(dev.sent() =~= old_sent.push(spec_get_profile_req()).push(
                                spec_set_profile_req(p),
                            ) + rqx);
                        } else {
                            assert(dev.sent() == sent_body.push(spec_set_profile_req(captured)));
                            assert(spec_be16(dev.received()[old_recv.len() as int], 3)
                                == captured);
                            assert(dev.received().len() > old_recv.len());
                            assert(dev.sent() =~= old_sent.push(spec_get_profile_req()).push(
                                spec_set_profile_req(p),
                            ) + rqx + seq![
                                spec_set_profile_req(
                                    spec_be16(dev.received()[old_recv.len() as int], 3),
                                ),
                            ]);
                        }
                    }
                    return Err(e);
                },
            }
            proof {
                let (t1, t2) = choose|t1: Seq<u8>, t2: Seq<u8>|
                    t1.len() == 32 && t2.len() == 32 && dev.received() == recv_body.push(t1).push(
                        t2,
                    );
                assert(dev.received() == recv_body.push(t1).push(t2));
                assert(dev.received()[old_recv.len() as int] == g);
                assert(dev.sent() == sent_body.push(spec_set_profile_req(captured)));
                if result is Err {
                    let rqx = choose|rq: Seq<Seq<u8>>|
                        rq.is_prefix_of(full) && sent_body == sent_switched + rq;
                    assert(spec_be16(dev.received()[old_recv.len() as int], 3) == captured);
                    assert(dev.received().len() > old_recv.len());
                    assert(dev.sent() =~= old_sent.push(spec_get_profile_req()).push(
                        spec_set_profile_req(p),
                    ) + rqx + seq![
                        spec_set_profile_req(
                            spec_be16(dev.received()[old_recv.len() as int], 3),
                        ),
                    ]);
                }
                if result is Ok {
                    assert(sent_body == sent_switched + full);
                    assert(dev.sent() =~= spec_switched_writes(old_sent, p, captured, data@, c));
                    assert forall|i0: u16|
                        captured == spec_profile_after(old_sent, i0)
                            implies spec_profile_after(dev.sent(), i0) == spec_profile_after(
                        old_sent,
                        i0,
                    ) by {
                        lemma_ends_with_switch(dev.sent(), captured, i0);
                    }
                } else {
                    assert forall|i0: u16|
                        spec_profile_after(dev.sent(), i0) == spec_profile_after(old_sent, i0)
                            || spec_profile_after(dev.sent(), i0) == p || (dev.received().len()
                        > old_recv.len() && spec_profile_after(dev.sent(), i0) == spec_be16(
                        dev.received()[old_recv.len() as int],
                        3,
                    )) by {
                        lemma_ends_with_switch(dev.sent(), captured, i0);
                        crate::transfer::lemma_be16_split(captured);
                    }
                }
            }
            result
        },
    }
}

/// The chunk-read requests for the first `l` layers of profile data: each
/// layer is one 240-byte range at address `240 * l`.
pub open spec fn spec_layer_read_reqs(l: int, c: int) -> Seq<Seq<u8>>
    decreases l,
{
    if l <= 0 {
        Seq::empty()
    } else {
        spec_layer_read_reqs(l - 1, c) + crate::transfer::spec_chunk_reads(
            240 * (l - 1),
            240,
            c,
        )
    }
}

/// The first `m` layers' requests are a prefix of the full four-layer plan.
proof fn lemma_layer_reqs_prefix(m: int, c: int)
    requires
        0 <= m <= 4,
    ensures
        spec_layer_read_reqs(m, c).is_prefix_of(spec_layer_read_reqs(4, c)),
    decreases 4 - m,
{
    let a = spec_layer_read_reqs(m, c);
    if m == 4 {
        assert(a =~= a.subrange(0, a.len() as int));
    } else {
        let b = spec_layer_read_reqs(m + 1, c);
        assert(a.is_prefix_of(b)) by {
            assert(a =~= b.subrange(0, a.len() as int));
        }
        lemma_layer_reqs_prefix(m + 1, c);
        lemma_prefix_trans(a, b, spec_layer_read_reqs(4, c));
    }
}

/// Decodes a 240-byte layer block into its 120 big-endian scancodes.
fn decode_scancodes(data: &Vec<u8>) -> (r: Vec<u16>)
    requires
        data@.len() == crate::keymap::LAYER_DATA_LEN,
    ensures
        r@.len() == 120,
        forall|t: int| 0 <= t < 120 ==> #[trigger] r@[t] == data@[2 * t] * 256 + data@[2 * t + 1],
{
    let mut r: Vec<u16> = Vec::new();
    let mut t: usize = 0;
    while t < 120
        invariant
            t <= 120,
            data@.len() == crate::keymap::LAYER_DATA_LEN,
            r@.len() == t,
            forall|q: int| 0 <= q < t ==> #[trigger] r@[q] == data@[2 * q] * 256 + data@[2 * q
                + 1],
        decreases 120 - t,
    {
        r.push(data[2 * t] as u16 * 256 + data[2 * t + 1] as u16);
        t += 1;
    }
    r
}

/// Fetches the active profile's keymap as 4 layers of 120 scancodes,
/// reading each layer's 240-byte block in turn: scancode `t` of layer `l`
/// is the big-endian pair at bytes `2t`, `2t + 1` of the block the device
/// returned for layer `l`, whose chunks arrive 26 bytes per response.
#[verifier::loop_isolation(false)]
#[verifier::rlimit(100)]
pub fn read_profile_data<C: Channel>(dev: &mut C) -> (r: Result<Vec<Vec<u16>>, Error>)
    ensures
        r matches Ok(layers) ==> {
            &&& layers@.len() == 4
            &&& forall|l: int| 0 <= l < 4 ==> (#[trigger] layers@[l])@.len() == 120
            &&& final(dev).sent() == old(dev).sent() + spec_layer_read_reqs(
                4,
                crate::transfer::MAX_DATA_CHUNK_LEN as int,
            )
            &&& exists|resps: Seq<Seq<u8>>|
                {
                    &&& final(dev).received() == old(dev).received() + resps
                    &&& resps.len() == 40
                    &&& (forall|i: int| 0 <= i < 40 ==> (#[trigger] resps[i]).len() == 32)
                    &&& (forall|l: int, t: int|
                        0 <= l < 4 && 0 <= t < 120 ==> (#[trigger] layers@[l]@[t]) == resps[l
                            * 10 + 2 * t / 26][4 + 2 * t % 26] * 256 + resps[l * 10 + (2 * t + 1)
                            / 26][4 + (2 * t + 1) % 26])
                }
        },
        r matches Err(e) ==> (e == Error::IoError || e == Error::ProtocolSizeError) && old(
            dev,
        ).received().is_prefix_of(final(dev).received()) && exists|rq: Seq<Seq<u8>>|
            rq.is_prefix_of(
                spec_layer_read_reqs(4, crate::transfer::MAX_DATA_CHUNK_LEN as int),
            ) && final(dev).sent() == old(dev).sent() + rq,
{
    let ghost c = crate::transfer::MAX_DATA_CHUNK_LEN as int;
    let mut layers: Vec<Vec<u16>> = Vec::new();
    let mut l: usize = 0;
    let ghost mut all_resps: Seq<Seq<u8>> = Seq::empty();
    proof {
        assert(old(dev).received() + all_resps =~= old(dev).received());
        assert(old(dev).sent() + spec_layer_read_reqs(0, c) =~= old(dev).sent());
    }
    while l < 4
        invariant
            l <= 4,
            layers@.len() == l,
            all_resps.len() == 10 * l,
            dev.sent() == old(dev).sent() + spec_layer_read_reqs(l as int, c),
            dev.received() == old(dev).received() + all_resps,
            forall|i: int| 0 <= i < all_resps.len() ==> (#[trigger] all_resps[i]).len() == 32,
            forall|q: int| 0 <= q < l ==> (#[trigger] layers@[q])@.len() == 120,
            forall|q: int, t: int|
                0 <= q < l && 0 <= t < 120 ==> (#[trigger] layers@[q]@[t]) == all_resps[q * 10 + 2
                    * t / 26][4 + 2 * t % 26] * 256 + all_resps[q * 10 + (2 * t + 1) / 26][4 + (2
                    * t + 1) % 26],
        decreases 4 - l,
    {
        let ghost sent0 = dev.sent();
        let ghost recv0 = dev.received();
        let data = match read_data(
            dev,
            (l * 240) as u16,
            crate::keymap::LAYER_DATA_LEN as u16,
            crate::transfer::MAX_DATA_CHUNK_LEN,
        ) {
            Ok(d) => d,
            Err(e) => {
                proof {
                    let done = spec_layer_read_reqs(l as int, c);
                    let batch = crate::transfer::spec_chunk_reads(240 * (l as int), 240, c);
                    let rq_p = choose|rq: Seq<Seq<u8>>|
                        rq.is_prefix_of(batch) && dev.sent() == sent0 + rq;
                    lemma_prefix_extend(done, rq_p, batch);
                    assert(done + batch =~= spec_layer_read_reqs(l as int + 1, c));
                    lemma_layer_reqs_prefix(l as int + 1, c);
                    lemma_prefix_trans(
                        done + rq_p,
                        spec_layer_read_reqs(l as int + 1, c),
                        spec_layer_read_reqs(4, c),
                    );
                    assert(dev.sent() =~= old(dev).sent() + (done + rq_p));
                    assert(old(dev).received().is_prefix_of(recv0)) by {
                        assert(old(dev).received() =~= recv0.subrange(
                            0,
                            old(dev).received().len() as int,
                        ));
                    }
                    lemma_prefix_trans(old(dev).received(), recv0, dev.received());
                }
                return Err(e);
            },
        };
        let ghost batch = crate::transfer::spec_chunk_reads(240 * (l as int), 240, c);
        let ghost resps_l = choose|resps: Seq<Seq<u8>>|
            {
                &&& dev.received() == recv0 + resps
                &&& resps.len() == batch.len()
                &&& (forall|i: int|
                    0 <= i < resps.len() ==> (#[trigger] resps[i]).len() == 32 && resps[i][3]
                        == crate::transfer::spec_chunk_size(240, c, i))
                &&& (forall|p: int| 0 <= p < 240 ==> data@[p] == resps[p / c][4 + p % c])
            };
        proof {
            crate::transfer::lemma_chunk_plan(240 * (l as int), 240, c);
            assert(batch.len() == 10);
            assert(dev.sent() =~= old(dev).sent() + spec_layer_read_reqs(l as int + 1, c));
            assert(dev.received() =~= old(dev).received() + (all_resps + resps_l));
        }
        let scancodes = decode_scancodes(&data);
        layers.push(scancodes);
        let ghost prev_resps = all_resps;
        proof {
            all_resps = all_resps + resps_l;
            assert forall|q: int, t: int| 0 <= q < l + 1 && 0 <= t < 120 implies (
            #[trigger] layers@[q]@[t]) == all_resps[q * 10 + 2 * t / 26][4 + 2 * t % 26] * 256
                + all_resps[q * 10 + (2 * t + 1) / 26][4 + (2 * t + 1) % 26] by {
                crate::transfer::lemma_div_ident(2 * t, 26);
                crate::transfer::lemma_div_ident(2 * t + 1, 26);
                assert(2 * t / 26 < 10 && (2 * t + 1) / 26 < 10);
                if q < l {
                    assert(q * 10 + 2 * t / 26 < 10 * l && q * 10 + (2 * t + 1) / 26 < 10 * l)
                        by (nonlinear_arith)
                        requires
                            0 <= q < l,
                            2 * t / 26 < 10,
                            (2 * t + 1) / 26 < 10,
                    ;
                    assert(all_resps[q * 10 + 2 * t / 26] == prev_resps[q * 10 + 2 * t / 26]);
                    assert(all_resps[q * 10 + (2 * t + 1) / 26] == prev_resps[q * 10 + (2 * t + 1)
                        / 26]);
                } else {
                    assert(q == l);
                    assert(q * 10 == 10 * l) by (nonlinear_arith)
                        requires
                            q == l,
                    ;
                    assert(all_resps[q * 10 + 2 * t / 26] == resps_l[2 * t / 26]);
                    assert(all_resps[q * 10 + (2 * t + 1) / 26] == resps_l[(2 * t + 1) / 26]);
                    assert(layers@[q] == scancodes);
                    assert(scancodes@[t] == data@[2 * t] * 256 + data@[2 * t + 1]);
                    assert(data@[2 * t] == resps_l[2 * t / 26][4 + 2 * t % 26]);
                    assert(data@[2 * t + 1] == resps_l[(2 * t + 1) / 26][4 + (2 * t + 1) % 26]);
                }
            }
        }
        l += 1;
    }
    Ok(layers)
}

} // verus!
