//! The delivery laws of the bond: a wire built from logical writes of any
//! sizes is read back, in any split of read calls, as exactly the
//! concatenation of the written payloads. The statements connect the
//! writer's wire layout (`push_units`) with the reader algorithm
//! (`read_model`) through the frame-level picture of the wire: the
//! pending frame payloads laid out in rotation order.

use vstd::prelude::*;
use vstd::arithmetic::div_mod::{lemma_add_mod_noop_right, lemma_mod_bound, lemma_small_mod};
use crate::FRAGMENT_SIZE;
use crate::codec::{le_bytes, lemma_le_bytes_len, lemma_le_round_trip, lemma_pow256_4};
use crate::stream::{chunk_seq, frame_bytes, wire_units, push_units, read_model};

verus! {

/// The written payloads concatenated: the logical byte stream in flight.
pub open spec fn cat(ps: Seq<Seq<u8>>) -> Seq<u8>
    decreases ps.len(),
{
    if ps.len() == 0 {
        Seq::empty()
    } else {
        ps[0] + cat(ps.skip(1))
    }
}

/// The bytes on member `m` of a wire that holds exactly the
/// length-prefixed frames `ps`, laid out in rotation order from cursor
/// `r`.
pub open spec fn member_bytes(ps: Seq<Seq<u8>>, r: int, n: int, m: int) -> Seq<u8>
    decreases ps.len(),
{
    if ps.len() == 0 {
        Seq::empty()
    } else {
        (if r == m {
            frame_bytes(ps[0])
        } else {
            Seq::empty()
        }) + member_bytes(ps.skip(1), (r + 1) % n, n, m)
    }
}

/// A wire of `n` members holding exactly the frames `ps` from cursor `r`.
pub open spec fn framed_wire(ps: Seq<Seq<u8>>, r: int, n: int) -> Seq<Seq<u8>> {
    Seq::new(n as nat, |m: int| member_bytes(ps, r, n, m))
}

/// The wire as the reader sees it mid-stream: when `rd > 0` the length
/// prefix of the current frame is already consumed and its remaining
/// `rd` payload bytes (`ps[0]`) stand bare at the front of member `r`.
pub open spec fn sync_wire(ps: Seq<Seq<u8>>, r: int, rd: nat, n: int) -> Seq<Seq<u8>> {
    if rd == 0 {
        framed_wire(ps, r, n)
    } else {
        let tail = framed_wire(ps.skip(1), (r + 1) % n, n);
        tail.update(r, ps[0] + tail[r])
    }
}

/// The reader's state is in step with the frames `ps` still in flight.
pub open spec fn synced(ps: Seq<Seq<u8>>, r: int, rd: nat, n: int) -> bool {
    &&& 1 <= n
    &&& 0 <= r < n
    &&& rd > 0 ==> ps.len() > 0 && ps[0].len() == rd
    &&& forall|i: int| 0 <= i < ps.len() ==> (#[trigger] ps[i]).len() <= FRAGMENT_SIZE
}

/// The frames still in flight after `t` more bytes are delivered.
pub open spec fn frames_after(ps: Seq<Seq<u8>>, t: nat) -> Seq<Seq<u8>>
    decreases ps.len(),
{
    if t == 0 {
        ps
    } else if ps.len() == 0 {
        ps
    } else if ps[0].len() > t {
        ps.update(0, ps[0].skip(t as int))
    } else {
        frames_after(ps.skip(1), (t - ps[0].len()) as nat)
    }
}

/// The residue after `t` more bytes are delivered.
pub open spec fn residue_after(ps: Seq<Seq<u8>>, rd: nat, t: nat) -> nat
    decreases ps.len(),
{
    if t == 0 {
        rd
    } else if ps.len() == 0 {
        0nat
    } else if ps[0].len() > t {
        (ps[0].len() - t) as nat
    } else {
        residue_after(ps.skip(1), 0, (t - ps[0].len()) as nat)
    }
}

/// The rotation cursor after `t` more bytes are delivered.
pub open spec fn cursor_after(ps: Seq<Seq<u8>>, r: int, n: int, t: nat) -> int
    decreases ps.len(),
{
    if t == 0 {
        r
    } else if ps.len() == 0 {
        r
    } else if ps[0].len() > t {
        r
    } else {
        cursor_after(ps.skip(1), (r + 1) % n, n, (t - ps[0].len()) as nat)
    }
}

/// The central delivery lemma: reading `t` bytes from a wire in sync
/// shape completes, yields the first `t` bytes of the in-flight stream,
/// and leaves the wire in sync shape for the frames still due.
pub proof fn lemma_read_frames(ps: Seq<Seq<u8>>, r: int, rd: nat, n: int, t: nat)
    requires
        synced(ps, r, rd, n),
        t <= cat(ps).len(),
    ensures
        ({
            let m = read_model(sync_wire(ps, r, rd, n), r, rd, t);
            let ps1 = frames_after(ps, t);
            let rd1 = residue_after(ps, rd, t);
            let r1 = cursor_after(ps, r, n, t);
            m.complete && m.data == cat(ps).take(t as int) && m.cursor == r1 && m.residue == rd1
                && m.leftover == sync_wire(ps1, r1, rd1, n) && synced(ps1, r1, rd1, n) && cat(ps1)
                == cat(ps).skip(t as int)
        }),
    decreases t, ps.len(),
{
    let w = sync_wire(ps, r, rd, n);
    let m = read_model(w, r, rd, t);
    assert(w.len() == n);
    if t == 0 {
        assert(cat(ps).take(0) =~= Seq::<u8>::empty());
        assert(cat(ps).skip(0) =~= cat(ps));
    } else if rd > 0 {
        let tail = framed_wire(ps.skip(1), (r + 1) % n, n);
        assert(w[r] == ps[0] + tail[r]);
        assert(w[r].len() >= rd);
        let c: nat = if rd <= t { rd } else { t };
        assert(w[r].len() >= c);
        if c == rd {
            // the residue is finished: the current frame closes and the
            // rotation advances
            assert(w[r].take(c as int) =~= ps[0]);
            let w1 = w.update(r, w[r].skip(c as int));
            assert(w1 =~= framed_wire(ps.skip(1), (r + 1) % n, n)) by {
                assert(w[r].skip(rd as int) =~= tail[r]);
                assert forall|mm: int| 0 <= mm < n implies w1[mm] == framed_wire(
                    ps.skip(1),
                    (r + 1) % n,
                    n,
                )[mm] by {
                    if mm != r {
                        assert(w1[mm] == tail[mm]);
                    }
                }
            }
            lemma_mod_bound(r + 1, n);
            assert(synced(ps.skip(1), (r + 1) % n, 0, n));
            assert(cat(ps) == ps[0] + cat(ps.skip(1)));
            lemma_read_frames(ps.skip(1), (r + 1) % n, 0, n, (t - c) as nat);
            let m2 = read_model(w1, (r + 1) % n, 0, (t - c) as nat);
            assert(m.data == ps[0] + m2.data);
            assert(m.data =~= cat(ps).take(t as int));
            assert(cat(frames_after(ps, t)) =~= cat(ps).skip(t as int));
        } else {
            // the caller's room runs out mid-residue
            assert(c == t && t < rd);
            assert(w[r].take(t as int) =~= ps[0].take(t as int));
            assert(m.data =~= cat(ps).take(t as int));
            let ps1 = ps.update(0, ps[0].skip(t as int));
            assert(frames_after(ps, t) == ps1);
            assert(residue_after(ps, rd, t) == rd - t);
            assert(cursor_after(ps, r, n, t) == r);
            assert(ps1.skip(1) =~= ps.skip(1));
            let tail1 = framed_wire(ps1.skip(1), (r + 1) % n, n);
            assert(tail1 == tail);
            assert(m.leftover =~= sync_wire(ps1, r, (rd - t) as nat, n)) by {
                assert(w[r].skip(t as int) =~= ps[0].skip(t as int) + tail[r]);
            }
            assert(synced(ps1, r, (rd - t) as nat, n));
            assert(cat(ps1) =~= cat(ps).skip(t as int)) by {
                assert(cat(ps1) == ps1[0] + cat(ps1.skip(1)));
                assert(cat(ps) == ps[0] + cat(ps.skip(1)));
            }
        }
    } else {
        // at a frame boundary: a length prefix comes first
        assert(ps.len() > 0) by {
            if ps.len() == 0 {
                assert(cat(ps).len() == 0);
            }
        }
        let hdr = le_bytes(ps[0].len() as nat, 4);
        lemma_le_bytes_len(ps[0].len() as nat, 4);
        let restr = member_bytes(ps.skip(1), (r + 1) % n, n, r);
        assert(w[r] == frame_bytes(ps[0]) + restr);
        assert(frame_bytes(ps[0]) == hdr + ps[0]);
        assert(w[r].len() >= 4 + ps[0].len());
        assert(w[r].take(4) =~= hdr);
        lemma_pow256_4();
        lemma_le_round_trip(ps[0].len() as nat, 4);
        let len = crate::codec::le_value(w[r].take(4));
        assert(len == ps[0].len());
        assert(len <= FRAGMENT_SIZE);
        if len > t {
            // a frame longer than the caller's room: consume part, leave
            // the rest as residue
            assert(w[r].len() >= 4 + t);
            assert(w[r].skip(4) =~= ps[0] + restr);
            assert(m.data == w[r].skip(4).take(t as int));
            assert(m.data =~= ps[0].take(t as int));
            assert(m.data =~= cat(ps).take(t as int));
            let ps1 = ps.update(0, ps[0].skip(t as int));
            assert(frames_after(ps, t) == ps1);
            assert(residue_after(ps, rd, t) == len - t);
            assert(cursor_after(ps, r, n, t) == r);
            assert(ps1.skip(1) =~= ps.skip(1));
            let tail1 = framed_wire(ps1.skip(1), (r + 1) % n, n);
            assert(m.leftover =~= sync_wire(ps1, r, (len - t) as nat, n)) by {
                assert(m.leftover == w.update(r, w[r].skip(4 + t as int)));
                assert(w[r].skip(4 + t as int) =~= ps[0].skip(t as int) + tail1[r]) by {
                    assert(tail1[r] == restr);
                }
                let w1 = w.update(r, w[r].skip(4 + t as int));
                let s1 = sync_wire(ps1, r, (len - t) as nat, n);
                assert forall|mm: int| 0 <= mm < n implies #[trigger] w1[mm] == s1[mm] by {
                    if mm != r {
                        assert(w[mm] == member_bytes(ps, r, n, mm));
                        assert(member_bytes(ps, r, n, mm) == member_bytes(
                            ps.skip(1),
                            (r + 1) % n,
                            n,
                            mm,
                        ));
                        assert(tail1[mm] == member_bytes(ps1.skip(1), (r + 1) % n, n, mm));
                    }
                }
            }
            assert(synced(ps1, r, (len - t) as nat, n));
            assert(cat(ps1) =~= cat(ps).skip(t as int)) by {
                assert(cat(ps1) == ps1[0] + cat(ps1.skip(1)));
                assert(cat(ps) == ps[0] + cat(ps.skip(1)));
            }
        } else {
            // a whole frame: deliver it, advance, continue
            assert(w[r].len() >= 4 + len);
            assert(w[r].skip(4) =~= ps[0] + restr);
            let got = w[r].skip(4).take(len as int);
            assert(got =~= ps[0]);
            let w1 = w.update(r, w[r].skip(4 + len as int));
            assert(w1 =~= framed_wire(ps.skip(1), (r + 1) % n, n)) by {
                assert(w[r].skip(4 + len as int) =~= restr);
                assert forall|mm: int| 0 <= mm < n implies w1[mm] == framed_wire(
                    ps.skip(1),
                    (r + 1) % n,
                    n,
                )[mm] by {
                    if mm != r {
                        assert(w1[mm] == member_bytes(ps, r, n, mm));
                        assert(member_bytes(ps, r, n, mm) == member_bytes(
                            ps.skip(1),
                            (r + 1) % n,
                            n,
                            mm,
                        ));
                    }
                }
            }
            lemma_mod_bound(r + 1, n);
            assert(synced(ps.skip(1), (r + 1) % n, 0, n));
            assert(cat(ps) == ps[0] + cat(ps.skip(1)));
            lemma_read_frames(ps.skip(1), (r + 1) % n, 0, n, (t - len) as nat);
            let m2 = read_model(w1, (r + 1) % n, 0, (t - len) as nat);
            assert(m.data == got + m2.data);
            assert(m.data =~= cat(ps).take(t as int));
            assert(cat(frames_after(ps, t)) =~= cat(ps).skip(t as int));
        }
    }
}

proof fn lemma_mod_shift(a: int, k: int, n: int)
    requires
        1 <= n,
    ensures
        (a % n + k) % n == (a + k) % n,
{
    lemma_add_mod_noop_right(k, a, n);
}

pub proof fn lemma_cat_push(ps: Seq<Seq<u8>>, p: Seq<u8>)
    ensures
        cat(ps.push(p)) == cat(ps) + p,
    decreases ps.len(),
{
    if ps.len() == 0 {
        assert(ps.push(p).skip(1) =~= Seq::<Seq<u8>>::empty());
        assert(cat(Seq::<Seq<u8>>::empty()) == Seq::<u8>::empty());
        assert(cat(ps.push(p)) == ps.push(p)[0] + cat(ps.push(p).skip(1)));
        assert(cat(ps.push(p)) =~= cat(ps) + p);
    } else {
        assert(ps.push(p).skip(1) =~= ps.skip(1).push(p));
        lemma_cat_push(ps.skip(1), p);
        assert(cat(ps.push(p)) == ps[0] + cat(ps.skip(1).push(p)));
        assert(cat(ps.push(p)) =~= cat(ps) + p);
    }
}

/// Appending one more frame lands its bytes at the back of the member
/// that the writer's rotation names.
proof fn lemma_member_bytes_push(ps: Seq<Seq<u8>>, r: int, n: int, m: int, p: Seq<u8>)
    requires
        1 <= n,
        0 <= r < n,
        0 <= m < n,
    ensures
        member_bytes(ps.push(p), r, n, m) == member_bytes(ps, r, n, m) + (if (r + ps.len()) % n
            == m {
            frame_bytes(p)
        } else {
            Seq::empty()
        }),
    decreases ps.len(),
{
    if ps.len() == 0 {
        lemma_small_mod(r as nat, n as nat);
        assert(ps.push(p).skip(1) =~= Seq::<Seq<u8>>::empty());
        assert(member_bytes(Seq::<Seq<u8>>::empty(), (r + 1) % n, n, m) == Seq::<u8>::empty());
        assert(member_bytes(ps.push(p), r, n, m) == (if r == m {
            frame_bytes(p)
        } else {
            Seq::<u8>::empty()
        }) + member_bytes(ps.push(p).skip(1), (r + 1) % n, n, m));
        if r == m {
            assert(member_bytes(ps.push(p), r, n, m) =~= member_bytes(ps, r, n, m)
                + frame_bytes(p));
        } else {
            assert(member_bytes(ps.push(p), r, n, m) =~= member_bytes(ps, r, n, m));
        }
    } else {
        assert(ps.push(p).skip(1) =~= ps.skip(1).push(p));
        lemma_mod_bound(r + 1, n);
        lemma_member_bytes_push(ps.skip(1), (r + 1) % n, n, m, p);
        lemma_mod_shift(r + 1, ps.len() - 1, n);
        assert(((r + 1) % n + (ps.len() - 1)) % n == (r + ps.len()) % n);
        assert(member_bytes(ps.push(p), r, n, m) =~= member_bytes(ps, r, n, m) + (if (r
            + ps.len()) % n == m {
            frame_bytes(p)
        } else {
            Seq::empty()
        }));
    }
}

/// One frame, appended at the writer's rotation position, extends the
/// in-flight stream by exactly its payload: the wire stays in sync shape
/// with the frame list grown by one.
pub proof fn lemma_write_frame(ps: Seq<Seq<u8>>, r: int, rd: nat, n: int, p: Seq<u8>)
    requires
        synced(ps, r, rd, n),
        p.len() <= FRAGMENT_SIZE,
    ensures
        push_units(sync_wire(ps, r, rd, n), (r + ps.len()) % n, wire_units(p)) == sync_wire(
            ps.push(p),
            r,
            rd,
            n,
        ),
        sync_wire(ps, r, rd, n).update(
            (r + ps.len()) % n,
            sync_wire(ps, r, rd, n)[(r + ps.len()) % n] + frame_bytes(p),
        ) == sync_wire(ps.push(p), r, rd, n),
        synced(ps.push(p), r, rd, n),
        cat(ps.push(p)) == cat(ps) + p,
{
    lemma_cat_push(ps, p);
    let w = sync_wire(ps, r, rd, n);
    let wr = (r + ps.len()) % n;
    lemma_mod_bound(r + ps.len(), n);
    assert(w.len() == n);
    assert(wire_units(p) =~= seq![frame_bytes(p)]) by {
        assert(chunk_seq(p) == seq![p]);
    }
    let pushed = w.update(wr, w[wr] + frame_bytes(p));
    assert(push_units(w, wr, wire_units(p)) == pushed) by {
        assert(wire_units(p).skip(1) =~= Seq::<Seq<u8>>::empty());
        assert(wire_units(p)[0] == frame_bytes(p));
        assert(push_units(pushed, (wr + 1) % (w.len() as int), Seq::<Seq<u8>>::empty())
            == pushed);
        assert(push_units(w, wr, wire_units(p)) == push_units(
            w.update(wr, w[wr] + wire_units(p)[0]),
            (wr + 1) % (w.len() as int),
            wire_units(p).skip(1),
        ));
    }
    if rd == 0 {
        assert(pushed =~= sync_wire(ps.push(p), r, 0, n)) by {
            assert forall|mm: int| 0 <= mm < n implies #[trigger] pushed[mm] == framed_wire(
                ps.push(p),
                r,
                n,
            )[mm] by {
                lemma_member_bytes_push(ps, r, n, mm, p);
            }
        }
    } else {
        let tail = framed_wire(ps.skip(1), (r + 1) % n, n);
        let tail2 = framed_wire(ps.push(p).skip(1), (r + 1) % n, n);
        assert(ps.push(p).skip(1) =~= ps.skip(1).push(p));
        lemma_mod_bound(r + 1, n);
        assert(ps.push(p)[0] == ps[0]);
        lemma_mod_shift(r + 1, ps.len() - 1, n);
        assert(((r + 1) % n + ps.skip(1).len()) % n == wr);
        assert(pushed =~= sync_wire(ps.push(p), r, rd, n)) by {
            assert forall|mm: int| 0 <= mm < n implies #[trigger] pushed[mm] == sync_wire(
                ps.push(p),
                r,
                rd,
                n,
            )[mm] by {
                lemma_member_bytes_push(ps.skip(1), (r + 1) % n, n, mm, p);
                assert(tail2[mm] == member_bytes(ps.skip(1).push(p), (r + 1) % n, n, mm));
                if mm == r {
                    if wr == r {
                        assert(pushed[mm] == (ps[0] + tail[r]) + frame_bytes(p));
                        assert(sync_wire(ps.push(p), r, rd, n)[mm] == ps[0] + tail2[r]);
                        assert(tail2[r] == tail[r] + frame_bytes(p));
                        assert((ps[0] + tail[r]) + frame_bytes(p) =~= ps[0] + (tail[r]
                            + frame_bytes(p)));
                    } else {
                        assert(pushed[mm] == ps[0] + tail[r]);
                        assert(tail2[r] == tail[r]);
                    }
                } else {
                    if wr == mm {
                        assert(pushed[mm] == tail[mm] + frame_bytes(p));
                    } else {
                        assert(pushed[mm] == tail[mm]);
                    }
                }
            }
        }
    }
}

/// Every chunk of a payload fits a frame, and the chunks concatenate
/// back to the payload.
pub proof fn lemma_chunks(p: Seq<u8>)
    ensures
        forall|i: int|
            0 <= i < chunk_seq(p).len() ==> (#[trigger] chunk_seq(p)[i]).len() <= FRAGMENT_SIZE,
        cat(chunk_seq(p)) == p,
    decreases p.len(),
{
    if p.len() <= FRAGMENT_SIZE {
        assert(chunk_seq(p) == seq![p]);
        assert(seq![p].skip(1) =~= Seq::<Seq<u8>>::empty());
        assert(cat(Seq::<Seq<u8>>::empty()) == Seq::<u8>::empty());
        assert(cat(chunk_seq(p)) =~= p);
    } else {
        let rest = p.skip(FRAGMENT_SIZE as int);
        lemma_chunks(rest);
        let cs = chunk_seq(p);
        assert(cs == seq![p.take(FRAGMENT_SIZE as int)] + chunk_seq(rest));
        assert(cs.skip(1) =~= chunk_seq(rest));
        assert(cat(cs) == p.take(FRAGMENT_SIZE as int) + cat(chunk_seq(rest)));
        assert(cat(cs) =~= p);
    }
}

/// A burst of frames, appended at the writer's rotation position on
/// consecutive members, extends the in-flight stream by exactly their
/// payloads in order.
pub proof fn lemma_push_frames(ps: Seq<Seq<u8>>, r: int, rd: nat, n: int, cs: Seq<Seq<u8>>)
    requires
        synced(ps, r, rd, n),
        forall|i: int| 0 <= i < cs.len() ==> (#[trigger] cs[i]).len() <= FRAGMENT_SIZE,
    ensures
        push_units(
            sync_wire(ps, r, rd, n),
            (r + ps.len()) % n,
            cs.map_values(|c: Seq<u8>| frame_bytes(c)),
        ) == sync_wire(ps + cs, r, rd, n),
        synced(ps + cs, r, rd, n),
        cat(ps + cs) == cat(ps) + cat(cs),
    decreases cs.len(),
{
    let w = sync_wire(ps, r, rd, n);
    let wr = (r + ps.len()) % n;
    let units = cs.map_values(|c: Seq<u8>| frame_bytes(c));
    if cs.len() == 0 {
        assert(ps + cs =~= ps);
        assert(units =~= Seq::<Seq<u8>>::empty());
        assert(push_units(w, wr, Seq::<Seq<u8>>::empty()) == w);
        assert(cat(Seq::<Seq<u8>>::empty()) == Seq::<u8>::empty());
        assert(cat(ps) + cat(cs) =~= cat(ps));
    } else {
        lemma_write_frame(ps, r, rd, n, cs[0]);
        let ps1 = ps.push(cs[0]);
        let w1 = w.update(wr, w[wr] + frame_bytes(cs[0]));
        assert(w1 == sync_wire(ps1, r, rd, n));
        lemma_mod_bound(r + ps.len(), n);
        assert(w.len() == n);
        assert(units[0] == frame_bytes(cs[0]));
        assert(units.skip(1) =~= cs.skip(1).map_values(|c: Seq<u8>| frame_bytes(c)));
        lemma_mod_shift(r + ps.len(), 1, n);
        assert((wr + 1) % n == (r + ps1.len()) % n);
        assert(push_units(w, wr, units) == push_units(w1, (wr + 1) % n, units.skip(1)));
        assert(forall|i: int|
            0 <= i < cs.skip(1).len() ==> (#[trigger] cs.skip(1)[i]).len() <= FRAGMENT_SIZE);
        lemma_push_frames(ps1, r, rd, n, cs.skip(1));
        assert(ps1 + cs.skip(1) =~= ps + cs);
        assert(cat(cs) == cs[0] + cat(cs.skip(1)));
        assert(cat(ps + cs) =~= cat(ps) + cat(cs)) by {
            assert(cat(ps1 + cs.skip(1)) == cat(ps1) + cat(cs.skip(1)));
            assert(cat(ps1) == cat(ps) + cs[0]);
        }
    }
}

/// A wire of `n` members with nothing in flight.
pub open spec fn empty_wire(n: int) -> Seq<Seq<u8>> {
    Seq::new(n as nat, |m: int| Seq::<u8>::empty())
}

/// All frames a sequence of logical writes emits, in order: each write
/// contributes one frame per chunk of its payload.
pub open spec fn write_frames(writes: Seq<Seq<u8>>) -> Seq<Seq<u8>>
    decreases writes.len(),
{
    if writes.len() == 0 {
        Seq::empty()
    } else {
        write_frames(writes.drop_last()) + chunk_seq(writes.last())
    }
}

/// The wire after a sequence of logical writes from a fresh endpoint:
/// each write starts at the rotation position its predecessors left, the
/// cursor advancing once per frame.
pub open spec fn wire_after_writes(writes: Seq<Seq<u8>>, n: int) -> Seq<Seq<u8>>
    decreases writes.len(),
{
    if writes.len() == 0 {
        empty_wire(n)
    } else {
        push_units(
            wire_after_writes(writes.drop_last(), n),
            (write_frames(writes.drop_last()).len() as int) % n,
            wire_units(writes.last()),
        )
    }
}

/// A sequence of logical writes of any sizes from a fresh endpoint
/// builds exactly the framed wire of their chunked payloads, which carry
/// the same bytes as the writes.
pub proof fn lemma_writes_form_frames(writes: Seq<Seq<u8>>, n: int)
    requires
        1 <= n,
    ensures
        wire_after_writes(writes, n) == framed_wire(write_frames(writes), 0, n),
        synced(write_frames(writes), 0, 0, n),
        cat(write_frames(writes)) == cat(writes),
    decreases writes.len(),
{
    if writes.len() == 0 {
        assert(wire_after_writes(writes, n) =~= framed_wire(write_frames(writes), 0, n));
        assert(cat(write_frames(writes)) =~= cat(writes));
    } else {
        let dl = writes.drop_last();
        let last = writes.last();
        lemma_writes_form_frames(dl, n);
        lemma_chunks(last);
        lemma_push_frames(write_frames(dl), 0, 0, n, chunk_seq(last));
        assert(wire_units(last) == chunk_seq(last).map_values(|c: Seq<u8>| frame_bytes(c)));
        assert(write_frames(writes) == write_frames(dl) + chunk_seq(last));
        assert(cat(write_frames(writes)) == cat(write_frames(dl)) + cat(chunk_seq(last)));
        lemma_cat_push(dl, last);
        assert(dl.push(last) =~= writes);
    }
}

/// Sum of a sequence of read-call sizes.
pub open spec fn sum_nat(ts: Seq<nat>) -> nat
    decreases ts.len(),
{
    if ts.len() == 0 {
        0nat
    } else {
        (ts[0] + sum_nat(ts.skip(1))) as nat
    }
}

/// Every read call in the sequence runs to completion.
pub open spec fn reads_ok(w: Seq<Seq<u8>>, r: int, rd: nat, ts: Seq<nat>) -> bool
    decreases ts.len(),
{
    if ts.len() == 0 {
        true
    } else {
        let m = read_model(w, r, rd, ts[0]);
        m.complete && reads_ok(m.leftover, m.cursor, m.residue, ts.skip(1))
    }
}

/// The bytes the reader hands out over a sequence of read calls.
pub open spec fn reads_deliver(w: Seq<Seq<u8>>, r: int, rd: nat, ts: Seq<nat>) -> Seq<u8>
    decreases ts.len(),
{
    if ts.len() == 0 {
        Seq::empty()
    } else {
        let m = read_model(w, r, rd, ts[0]);
        m.data + reads_deliver(m.leftover, m.cursor, m.residue, ts.skip(1))
    }
}

proof fn lemma_reads_chain(ps: Seq<Seq<u8>>, r: int, rd: nat, n: int, ts: Seq<nat>)
    requires
        synced(ps, r, rd, n),
        sum_nat(ts) <= cat(ps).len(),
    ensures
        reads_ok(sync_wire(ps, r, rd, n), r, rd, ts),
        reads_deliver(sync_wire(ps, r, rd, n), r, rd, ts) == cat(ps).take(sum_nat(ts) as int),
    decreases ts.len(),
{
    if ts.len() == 0 {
        assert(cat(ps).take(0) =~= Seq::<u8>::empty());
    } else {
        let t0 = ts[0];
        lemma_read_frames(ps, r, rd, n, t0);
        let m = read_model(sync_wire(ps, r, rd, n), r, rd, t0);
        let ps1 = frames_after(ps, t0);
        let rd1 = residue_after(ps, rd, t0);
        let r1 = cursor_after(ps, r, n, t0);
        assert(cat(ps1).len() == cat(ps).len() - t0);
        lemma_reads_chain(ps1, r1, rd1, n, ts.skip(1));
        assert(reads_deliver(m.leftover, m.cursor, m.residue, ts.skip(1)) == cat(ps1).take(
            sum_nat(ts.skip(1)) as int,
        ));
        assert(cat(ps).take(t0 as int) + cat(ps).skip(t0 as int).take(sum_nat(ts.skip(1)) as int)
            =~= cat(ps).take(sum_nat(ts) as int));
    }
}

/// Delivery law: for a bond of any width and any write sequence of any
/// sizes, the bytes that any split of read calls hands out are exactly
/// the leading bytes of the concatenated write payloads — the receiver
/// reconstructs the sender's byte stream in order.
pub proof fn lemma_stream_delivery(writes: Seq<Seq<u8>>, ts: Seq<nat>, n: int)
    requires
        1 <= n,
        sum_nat(ts) <= cat(writes).len(),
    ensures
        reads_ok(wire_after_writes(writes, n), 0, 0, ts),
        reads_deliver(wire_after_writes(writes, n), 0, 0, ts) == cat(writes).take(
            sum_nat(ts) as int,
        ),
{
    lemma_writes_form_frames(writes, n);
    lemma_reads_chain(write_frames(writes), 0, 0, n, ts);
}

/// Read-back law: one read of exactly the number of bytes written
/// returns a buffer byte-identical to the sender's concatenated input.
pub proof fn lemma_exact_read(writes: Seq<Seq<u8>>, n: int)
    requires
        1 <= n,
    ensures
        ({
            let m = read_model(wire_after_writes(writes, n), 0, 0, cat(writes).len());
            m.complete && m.data == cat(writes)
        }),
{
    lemma_writes_form_frames(writes, n);
    lemma_read_frames(write_frames(writes), 0, 0, n, cat(writes).len());
    assert(cat(writes).take(cat(writes).len() as int) =~= cat(writes));
}

/// Split-irrelevance law: two write sequences carrying the same bytes
/// are delivered identically, whatever the reader's split of calls —
/// splitting a payload differently changes only the frames on the wire,
/// never the bytes handed out.
pub proof fn lemma_split_irrelevant(wa: Seq<Seq<u8>>, wb: Seq<Seq<u8>>, ts: Seq<nat>, n: int)
    requires
        1 <= n,
        cat(wa) == cat(wb),
        sum_nat(ts) <= cat(wa).len(),
    ensures
        reads_deliver(wire_after_writes(wa, n), 0, 0, ts) == reads_deliver(
            wire_after_writes(wb, n),
            0,
            0,
            ts,
        ),
{
    lemma_stream_delivery(wa, ts, n);
    lemma_stream_delivery(wb, ts, n);
}

/// The writer's cursor after `k` frames, folding the one-step advance
/// that every emitted frame performs.
pub open spec fn cursor_steps(k: nat, n: int) -> int
    decreases k,
{
    if k == 0 {
        0
    } else {
        (cursor_steps((k - 1) as nat, n) + 1) % n
    }
}

/// Rotation law, sender side: k frames — one per write below the chunk
/// boundary — advance the cursor of a fresh endpoint to exactly
/// `k mod n`.
pub proof fn lemma_sender_rotation(k: nat, n: int)
    requires
        1 <= n,
    ensures
        cursor_steps(k, n) == (k as int) % n,
    decreases k,
{
    if k == 0 {
        lemma_small_mod(0, n as nat);
    } else {
        lemma_sender_rotation((k - 1) as nat, n);
        lemma_mod_shift(k - 1, 1, n);
    }
}

proof fn lemma_cursor_after_full(ps: Seq<Seq<u8>>, r: int, n: int)
    requires
        1 <= n,
        0 <= r < n,
        forall|i: int| 0 <= i < ps.len() ==> (#[trigger] ps[i]).len() >= 1,
    ensures
        cursor_after(ps, r, n, cat(ps).len()) == (r + ps.len()) % n,
        residue_after(ps, 0, cat(ps).len()) == 0,
    decreases ps.len(),
{
    if ps.len() == 0 {
        lemma_small_mod(r as nat, n as nat);
    } else {
        assert(cat(ps) == ps[0] + cat(ps.skip(1)));
        let t = cat(ps).len();
        assert(ps[0].len() <= t);
        lemma_mod_bound(r + 1, n);
        lemma_cursor_after_full(ps.skip(1), (r + 1) % n, n);
        lemma_mod_shift(r + 1, ps.len() - 1, n);
    }
}

/// A write below `FRAGMENT_SIZE` is a single frame, so a sequence of
/// small writes emits exactly one frame per write.
proof fn lemma_small_write_frames(writes: Seq<Seq<u8>>)
    requires
        forall|i: int| 0 <= i < writes.len() ==> (#[trigger] writes[i]).len() <= FRAGMENT_SIZE,
    ensures
        write_frames(writes) == writes,
    decreases writes.len(),
{
    if writes.len() == 0 {
        assert(write_frames(writes) =~= writes);
    } else {
        let dl = writes.drop_last();
        lemma_small_write_frames(dl);
        assert(chunk_seq(writes.last()) == seq![writes.last()]);
        assert(write_frames(writes) =~= writes);
    }
}

/// Rotation law: after the receiver has consumed everything that k
/// small nonempty writes put in flight, its rotation cursor stands at
/// `k mod n` — exactly where the sender's cursor stands after its k
/// writes — and no residue is left.
pub proof fn lemma_rotation_lockstep(writes: Seq<Seq<u8>>, n: int)
    requires
        1 <= n,
        forall|i: int| 0 <= i < writes.len() ==> 1 <= (#[trigger] writes[i]).len()
            < FRAGMENT_SIZE,
    ensures
        ({
            let m = read_model(wire_after_writes(writes, n), 0, 0, cat(writes).len());
            m.complete && m.cursor == (writes.len() as int) % n && m.residue == 0
        }),
{
    lemma_writes_form_frames(writes, n);
    lemma_small_write_frames(writes);
    lemma_read_frames(writes, 0, 0, n, cat(writes).len());
    lemma_cursor_after_full(writes, 0, n);
}

/// Residue law: the residue is positive exactly while the reader stands
/// mid-frame. A positive residue means the front of the cursor's member
/// holds precisely the unconsumed payload bytes of the current frame; a
/// zero residue means the reader is at a frame boundary, where the
/// cursor's member is empty or begins with the next length prefix.
pub proof fn lemma_residue_boundary(ps: Seq<Seq<u8>>, r: int, rd: nat, n: int)
    requires
        synced(ps, r, rd, n),
    ensures
        rd > 0 ==> ps[0].len() == rd && sync_wire(ps, r, rd, n)[r].take(rd as int) == ps[0],
        rd == 0 && ps.len() > 0 ==> sync_wire(ps, r, rd, n)[r].take(4) == le_bytes(
            ps[0].len() as nat,
            4,
        ),
        rd == 0 && ps.len() == 0 ==> sync_wire(ps, r, rd, n)[r] == Seq::<u8>::empty(),
{
    if rd > 0 {
        let tail = framed_wire(ps.skip(1), (r + 1) % n, n);
        assert(sync_wire(ps, r, rd, n)[r] == ps[0] + tail[r]);
        assert((ps[0] + tail[r]).take(rd as int) =~= ps[0]);
    } else if ps.len() > 0 {
        lemma_le_bytes_len(ps[0].len() as nat, 4);
        assert(sync_wire(ps, r, rd, n)[r] == frame_bytes(ps[0]) + member_bytes(
            ps.skip(1),
            (r + 1) % n,
            n,
            r,
        ));
        assert(sync_wire(ps, r, rd, n)[r].take(4) =~= le_bytes(ps[0].len() as nat, 4));
    }
}

} // verus!

