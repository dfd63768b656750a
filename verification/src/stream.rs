//! The bonded stream core: the rotation state machine shared by the writer
//! and reader sides of a bond, the frame layout of a logical write, and the
//! reader algorithm that reassembles the byte stream from the per-member
//! queues.
//!
//! Both peers advance the rotation cursor identically: the k-th frame
//! travels on member `k mod N`. Every frame is length-prefixed: a write
//! shorter than `FRAGMENT_SIZE` becomes one frame on the current member,
//! and a longer write is split into chunks of at most `FRAGMENT_SIZE`
//! payload bytes, each its own frame on the next member in rotation, so
//! that a write of B bytes behaves as a burst of ceil(B / FRAGMENT_SIZE)
//! consecutive writes. The reader tracks in `readable` how much of the
//! current inbound frame is still due when a caller's buffer was too
//! small to hold it.

use vstd::prelude::*;
use vstd::arithmetic::div_mod::lemma_add_mod_noop;
use crate::FRAGMENT_SIZE;
use crate::codec::{le_bytes, le_value, encode_frame_len, decode_frame_len};
use crate::wire::Wire;

verus! {

/// Errors a bonded stream can surface besides plain transport failures.
#[derive(Debug)]
pub enum BondError {
    /// A frame length prefix larger than `FRAGMENT_SIZE` arrived: the peers
    /// disagree about the protocol and the stream must be discarded.
    ProtocolViolation,
}

/// The rotation state machine of one bonded stream endpoint.
pub struct BondCore {
    /// Number of member flows in the bond; fixed at session establishment.
    pub width: usize,
    /// The member index of the next frame to write or read.
    pub next_stream: usize,
    /// Bytes of the current inbound frame not yet handed to the caller.
    pub readable: usize,
}

/// One unit of outbound bytes bound for a single member flow.
pub struct OutUnit {
    pub member: usize,
    pub bytes: Vec<u8>,
}

/// The payload of one logical write cut into chunks of at most
/// `FRAGMENT_SIZE` bytes; every chunk but the last is exactly
/// `FRAGMENT_SIZE` long.
pub open spec fn chunk_seq(p: Seq<u8>) -> Seq<Seq<u8>>
    decreases p.len(),
{
    if p.len() <= FRAGMENT_SIZE {
        seq![p]
    } else {
        seq![p.take(FRAGMENT_SIZE as int)] + chunk_seq(p.skip(FRAGMENT_SIZE as int))
    }
}

/// A frame as it crosses the wire: 4-byte little-endian length prefix,
/// then the payload.
pub open spec fn frame_bytes(p: Seq<u8>) -> Seq<u8> {
    le_bytes(p.len() as nat, 4) + p
}

/// The byte strings a single logical write places on consecutive members,
/// starting at the writer's rotation cursor: one length-prefixed frame
/// per chunk of the payload.
pub open spec fn wire_units(p: Seq<u8>) -> Seq<Seq<u8>> {
    chunk_seq(p).map_values(|c: Seq<u8>| frame_bytes(c))
}

/// Appends each unit to the queue of its member, rotating from `r`.
pub open spec fn push_units(w: Seq<Seq<u8>>, r: int, units: Seq<Seq<u8>>) -> Seq<Seq<u8>>
    decreases units.len(),
{
    if units.len() == 0 {
        w
    } else {
        push_units(
            w.update(r, w[r] + units[0]),
            (r + 1) % (w.len() as int),
            units.skip(1),
        )
    }
}

/// Sum of the pending bytes over all members.
pub open spec fn total_len(w: Seq<Seq<u8>>) -> nat
    decreases w.len(),
{
    if w.len() == 0 {
        0nat
    } else {
        (w[0].len() + total_len(w.skip(1))) as nat
    }
}

pub proof fn lemma_total_len_update(w: Seq<Seq<u8>>, i: int, q: Seq<u8>)
    requires
        0 <= i < w.len(),
    ensures
        total_len(w.update(i, q)) + w[i].len() == total_len(w) + q.len(),
    decreases w.len(),
{
    let w1 = w.update(i, q);
    if i == 0 {
        assert(w1.skip(1) =~= w.skip(1));
    } else {
        assert(w1.skip(1) =~= w.skip(1).update(i - 1, q));
        lemma_total_len_update(w.skip(1), i - 1, q);
    }
}

/// What one read call of `t` bytes does to the reader state and the wire.
pub struct ReadEffect {
    /// The call can run to completion: the wire holds every byte the
    /// algorithm demands and no oversize length prefix is met.
    pub complete: bool,
    /// The bytes delivered to the caller.
    pub data: Seq<u8>,
    /// The wire after the call.
    pub leftover: Seq<Seq<u8>>,
    /// The rotation cursor after the call.
    pub cursor: int,
    /// The residue of the current inbound frame after the call.
    pub residue: nat,
}

/// The reader algorithm: consume the residue of the current frame first,
/// then alternate length prefixes and payloads in rotation until `t` bytes
/// have been delivered. A frame longer than the caller's remaining room is
/// consumed partially and its remainder recorded as the new residue.
pub open spec fn read_model(w: Seq<Seq<u8>>, r: int, rd: nat, t: nat) -> ReadEffect
    decreases t, total_len(w),
    via read_model_dec
{
    let n = w.len() as int;
    if !(0 <= r < n) {
        ReadEffect { complete: false, data: Seq::empty(), leftover: w, cursor: r, residue: rd }
    } else if t == 0 {
        ReadEffect { complete: true, data: Seq::empty(), leftover: w, cursor: r, residue: rd }
    } else if rd > 0 {
        let c = if rd <= t { rd } else { t };
        if w[r].len() < c {
            ReadEffect { complete: false, data: Seq::empty(), leftover: w, cursor: r, residue: rd }
        } else {
            let got = w[r].take(c as int);
            let w1 = w.update(r, w[r].skip(c as int));
            if c == rd {
                let m = read_model(w1, (r + 1) % n, 0, (t - c) as nat);
                ReadEffect {
                    complete: m.complete,
                    data: got + m.data,
                    leftover: m.leftover,
                    cursor: m.cursor,
                    residue: m.residue,
                }
            } else {
                ReadEffect { complete: true, data: got, leftover: w1, cursor: r, residue: (rd - c) as nat }
            }
        }
    } else if w[r].len() < 4 {
        ReadEffect { complete: false, data: Seq::empty(), leftover: w, cursor: r, residue: rd }
    } else {
        let len = le_value(w[r].take(4));
        if len > FRAGMENT_SIZE {
            ReadEffect { complete: false, data: Seq::empty(), leftover: w, cursor: r, residue: rd }
        } else if len > t {
            if w[r].len() < 4 + t {
                ReadEffect { complete: false, data: Seq::empty(), leftover: w, cursor: r, residue: rd }
            } else {
                let got = w[r].skip(4).take(t as int);
                ReadEffect {
                    complete: true,
                    data: got,
                    leftover: w.update(r, w[r].skip(4 + t as int)),
                    cursor: r,
                    residue: (len - t) as nat,
                }
            }
        } else {
            if w[r].len() < 4 + len {
                ReadEffect { complete: false, data: Seq::empty(), leftover: w, cursor: r, residue: rd }
            } else {
                let got = w[r].skip(4).take(len as int);
                let w1 = w.update(r, w[r].skip(4 + len as int));
                let m = read_model(w1, (r + 1) % n, 0, (t - len) as nat);
                ReadEffect {
                    complete: m.complete,
                    data: got + m.data,
                    leftover: m.leftover,
                    cursor: m.cursor,
                    residue: m.residue,
                }
            }
        }
    }
}

#[via_fn]
proof fn read_model_dec(w: Seq<Seq<u8>>, r: int, rd: nat, t: nat) {
    let n = w.len() as int;
    if 0 <= r < n && t != 0 {
        if rd > 0 {
            let c = if rd <= t { rd } else { t };
            if w[r].len() >= c && c == rd {
                lemma_total_len_update(w, r, w[r].skip(c as int));
            }
        } else if w[r].len() >= 4 {
            let len = le_value(w[r].take(4));
            if len <= FRAGMENT_SIZE && len <= t && w[r].len() >= 4 + len {
                lemma_total_len_update(w, r, w[r].skip(4 + len as int));
            }
        }
    }
}

/// What the reader must do next within one read call.
pub enum ReadStep {
    /// Fetch a 4-byte length prefix from `member`.
    Header { member: usize },
    /// Fetch `count` payload bytes of the current frame from `member`.
    Payload { member: usize, count: usize },
    /// The call's buffer is full.
    Done,
}

impl BondCore {
    /// The cursor names a real member.
    pub open spec fn wf(self) -> bool {
        1 <= self.width && self.next_stream < self.width
    }

    /// A fresh endpoint of a bond of `width` members: cursor at member 0,
    /// no partially consumed inbound frame.
    pub fn new(width: usize) -> (c: BondCore)
        requires
            width >= 1,
        ensures
            c.wf(),
            c.width == width,
            c.next_stream == 0,
            c.readable == 0,
    {
        BondCore { width, next_stream: 0, readable: 0 }
    }

    /// Splits one logical write into its length-prefixed frames, one per
    /// chunk of at most `FRAGMENT_SIZE` payload bytes, and advances the
    /// rotation cursor once per frame, as both peers do.
    pub fn write_units(&mut self, buf: &Vec<u8>) -> (units: Vec<OutUnit>)
        requires
            old(self).wf(),
        ensures
            final(self).wf(),
            final(self).width == old(self).width,
            final(self).readable == old(self).readable,
            final(self).next_stream == (old(self).next_stream + wire_units(buf@).len()) % (
                old(self).width as int),
            units@.len() == wire_units(buf@).len(),
            forall|j: int|
                0 <= j < units@.len() ==> (#[trigger] units@[j]).bytes@ == wire_units(buf@)[j]
                    && units@[j].member == (old(self).next_stream + j) % (old(self).width as int),
    {
        let ghost start = self.next_stream as int;
        let ghost n = self.width as int;
        let blen = buf.len();
        let mut units: Vec<OutUnit> = Vec::new();
        let mut offset: usize = 0;
        let mut member = self.next_stream;
        proof {
            vstd::arithmetic::div_mod::lemma_small_mod(start as nat, n as nat);
            assert(buf@.skip(0) =~= buf@);
            assert(units@.map_values(|u: OutUnit| u.bytes@) + chunk_seq(buf@).map_values(
                |c: Seq<u8>| frame_bytes(c),
            ) =~= wire_units(buf@));
        }
        while blen - offset > FRAGMENT_SIZE
            invariant
                self.wf(),
                start == self.next_stream as int,
                n == self.width as int,
                blen == buf@.len(),
                offset <= blen,
                member as int == (start + units@.len()) % n,
                units@.map_values(|u: OutUnit| u.bytes@) + chunk_seq(
                    buf@.skip(offset as int),
                ).map_values(|c: Seq<u8>| frame_bytes(c)) =~= wire_units(buf@),
                forall|j: int|
                    0 <= j < units@.len() ==> (#[trigger] units@[j]).member == (start + j) % n,
            decreases blen - offset,
        {
            let ghost rest = buf@.skip(offset as int);
            let mut bytes = encode_frame_len(FRAGMENT_SIZE as u32);
            let mut j: usize = 0;
            proof {
                assert(bytes@ =~= le_bytes(FRAGMENT_SIZE as nat, 4) + rest.take(0));
            }
            while j < FRAGMENT_SIZE
                invariant
                    j <= FRAGMENT_SIZE,
                    blen == buf@.len(),
                    offset + FRAGMENT_SIZE <= blen,
                    rest == buf@.skip(offset as int),
                    bytes@ =~= le_bytes(FRAGMENT_SIZE as nat, 4) + rest.take(j as int),
                decreases FRAGMENT_SIZE - j,
            {
                bytes.push(buf[offset + j]);
                j = j + 1;
                proof {
                    assert(bytes@ =~= le_bytes(FRAGMENT_SIZE as nat, 4) + rest.take(j as int));
                }
            }
            proof {
                assert(bytes@ == frame_bytes(rest.take(FRAGMENT_SIZE as int)));
            }
            units.push(OutUnit { member, bytes });
            offset = offset + FRAGMENT_SIZE;
            proof {
                assert(rest.skip(FRAGMENT_SIZE as int) =~= buf@.skip(offset as int));
                assert(chunk_seq(rest) == seq![rest.take(FRAGMENT_SIZE as int)] + chunk_seq(
                    buf@.skip(offset as int),
                ));
                assert(chunk_seq(rest).map_values(|c: Seq<u8>| frame_bytes(c)) =~= seq![
                    frame_bytes(rest.take(FRAGMENT_SIZE as int)),
                ] + chunk_seq(buf@.skip(offset as int)).map_values(|c: Seq<u8>| frame_bytes(c)));
                assert(units@.map_values(|u: OutUnit| u.bytes@) + chunk_seq(
                    buf@.skip(offset as int),
                ).map_values(|c: Seq<u8>| frame_bytes(c)) =~= wire_units(buf@));
                lemma_add_mod_noop(start + units@.len() - 1, 1, n);
                assert(((member as int) + 1int % n) % n == (start + units@.len()) % n);
            }
            let ghost len_new = units@.len() as int;
            member = if member + 1 == self.width { 0 } else { member + 1 };
            proof {
                if n == 1 {
                    assert((start + len_new) % 1 == 0);
                    assert(member as int == 0);
                } else {
                    assert(1int % n == 1) by {
                        vstd::arithmetic::div_mod::lemma_small_mod(1, n as nat);
                    }
                    if member == 0 {
                        vstd::arithmetic::div_mod::lemma_mod_self_0(n);
                    } else {
                        vstd::arithmetic::div_mod::lemma_small_mod(member as nat, n as nat);
                    }
                }
                assert(member as int == (start + len_new) % n);
            }
        }
        // the final frame carries the remaining payload, possibly empty
        let ghost rest = buf@.skip(offset as int);
        let csize = blen - offset;
        let mut bytes = encode_frame_len(csize as u32);
        let mut j: usize = 0;
        proof {
            assert(bytes@ =~= le_bytes(csize as nat, 4) + rest.take(0));
        }
        while j < csize
            invariant
                j <= csize,
                blen == buf@.len(),
                csize == blen - offset,
                offset <= blen,
                rest == buf@.skip(offset as int),
                bytes@ =~= le_bytes(csize as nat, 4) + rest.take(j as int),
            decreases csize - j,
        {
            bytes.push(buf[offset + j]);
            j = j + 1;
            proof {
                assert(bytes@ =~= le_bytes(csize as nat, 4) + rest.take(j as int));
            }
        }
        proof {
            assert(rest.take(csize as int) =~= rest);
            assert(bytes@ == frame_bytes(rest));
            assert(chunk_seq(rest) == seq![rest]);
            assert(chunk_seq(rest).map_values(|c: Seq<u8>| frame_bytes(c)) =~= seq![
                frame_bytes(rest),
            ]);
        }
        units.push(OutUnit { member, bytes });
        proof {
            assert(units@.map_values(|u: OutUnit| u.bytes@) =~= wire_units(buf@));
            lemma_add_mod_noop(start + units@.len() - 1, 1, n);
            assert(((member as int) + 1int % n) % n == (start + units@.len()) % n);
        }
        let ghost len_new = units@.len() as int;
        let next = if member + 1 == self.width { 0 } else { member + 1 };
        proof {
            if n == 1 {
                assert((start + len_new) % 1 == 0);
                assert(next as int == 0);
            } else {
                assert(1int % n == 1) by {
                    vstd::arithmetic::div_mod::lemma_small_mod(1, n as nat);
                }
                if next == 0 {
                    vstd::arithmetic::div_mod::lemma_mod_self_0(n);
                } else {
                    vstd::arithmetic::div_mod::lemma_small_mod(next as nat, n as nat);
                }
            }
            assert(next as int == (start + len_new) % n);
        }
        self.next_stream = next;
        units
    }

    /// Performs one logical write against an in-memory wire: every frame
    /// is appended to the queue of the member the rotation names.
    pub fn write_wire(&mut self, wire: &mut Wire, buf: &Vec<u8>)
        requires
            old(self).wf(),
            old(wire).wf(),
            old(wire)@.len() == old(self).width,
        ensures
            final(self).wf(),
            final(self).width == old(self).width,
            final(self).readable == old(self).readable,
            final(self).next_stream == (old(self).next_stream + wire_units(buf@).len()) % (
                old(self).width as int),
            final(wire).wf(),
            final(wire)@ == push_units(
                old(wire)@,
                old(self).next_stream as int,
                wire_units(buf@),
            ),
    {
        let ghost w0 = wire@;
        let ghost start = self.next_stream as int;
        let ghost n = self.width as int;
        let ghost all = wire_units(buf@);
        let mut units = self.write_units(buf);
        let ghost k = all.len();
        let mut i: usize = 0;
        let ulen = units.len();
        proof {
            assert(k == ulen);
            assert(all.skip(0) =~= all);
            vstd::arithmetic::div_mod::lemma_small_mod(start as nat, n as nat);
        }
        while units.len() > 0
            invariant
                wire.wf(),
                wire@.len() == n,
                n >= 1,
                k == all.len(),
                k <= usize::MAX,
                i <= k,
                units@.len() + i == k,
                forall|j: int|
                    0 <= j < units@.len() ==> (#[trigger] units@[j]).bytes@ == all[j + i]
                        && units@[j].member == (start + i + j) % n,
                push_units(w0, start, all) == push_units(
                    wire@,
                    (start + i) % n,
                    all.skip(i as int),
                ),
            decreases units@.len(),
        {
            let ghost wpre = wire@;
            let unit = units.remove(0);
            proof {
                assert(unit.member == (start + i) % n);
                assert(unit.bytes@ == all[i as int]);
                assert(0 <= (start + i) % n < n) by {
                    vstd::arithmetic::div_mod::lemma_mod_bound(start + i, n);
                }
            }
            let member = unit.member;
            wire.push_bytes(member, unit.bytes);
            proof {
                let rest = all.skip(i as int);
                assert(rest.len() == all.len() - i);
                assert(rest[0] == all[i as int]) by {
                    assert(rest[0] == all[0 + i as int]);
                }
                assert(rest.skip(1) =~= all.skip(i + 1)) by {
                    assert forall|q: int| 0 <= q < rest.skip(1).len() implies rest.skip(1)[q]
                        == all.skip(i + 1)[q] by {
                        assert(rest.skip(1)[q] == rest[q + 1]);
                        assert(rest[q + 1] == all[q + 1 + i]);
                        assert(all.skip(i + 1)[q] == all[q + (i + 1)]);
                    }
                }
                lemma_add_mod_noop(start + i, 1, n);
                if n == 1 {
                    assert(((start + i) % n + 1int % n) % n == (start + i + 1) % n);
                } else {
                    vstd::arithmetic::div_mod::lemma_small_mod(1, n as nat);
                }
                assert(push_units(wpre, (start + i) % n, rest) == push_units(
                    wire@,
                    (start + i + 1) % n,
                    all.skip(i + 1),
                ));
            }
            i = i + 1;
        }
        proof {
            assert(all.skip(k as int) =~= Seq::<Seq<u8>>::empty());
            assert(push_units(wire@, (start + k) % n, Seq::<Seq<u8>>::empty()) == wire@);
        }
    }

    /// Decides what the reader fetches next, given that `filled` of the
    /// `target` bytes of the current read call have been delivered: the
    /// residue of the current frame while one is open, otherwise the next
    /// length prefix, both from the member the cursor names.
    pub fn next_read_step(&self, filled: usize, target: usize) -> (s: ReadStep)
        requires
            self.wf(),
            filled <= target,
        ensures
            filled == target ==> s == ReadStep::Done,
            filled < target && self.readable == 0 ==> s == (ReadStep::Header {
                member: self.next_stream,
            }),
            filled < target && self.readable > 0 ==> s == (ReadStep::Payload {
                member: self.next_stream,
                count: if self.readable <= target - filled {
                    self.readable as usize
                } else {
                    (target - filled) as usize
                },
            }),
    {
        if filled == target {
            ReadStep::Done
        } else if self.readable == 0 {
            ReadStep::Header { member: self.next_stream }
        } else {
            let room = target - filled;
            let count = if self.readable <= room { self.readable } else { room };
            ReadStep::Payload { member: self.next_stream, count }
        }
    }

    /// Takes in a fetched 4-byte length prefix. An in-range length opens a
    /// frame of that many payload bytes (an empty frame closes at once and
    /// advances the rotation); a length above `FRAGMENT_SIZE` is a protocol
    /// violation and leaves the state unchanged.
    pub fn accept_header(&mut self, header: &Vec<u8>) -> (r: Result<(), BondError>)
        requires
            old(self).wf(),
            old(self).readable == 0,
            header@.len() == 4,
        ensures
            final(self).wf(),
            final(self).width == old(self).width,
            ({
                let len = le_value(header@);
                if len > FRAGMENT_SIZE {
                    r == Result::<(), BondError>::Err(BondError::ProtocolViolation)
                        && *final(self) == *old(self)
                } else if len == 0 {
                    r == Result::<(), BondError>::Ok(()) && final(self).readable == 0
                        && final(self).next_stream == (old(self).next_stream + 1) % (
                        old(self).width as int)
                } else {
                    r == Result::<(), BondError>::Ok(()) && final(self).readable == len
                        && final(self).next_stream == old(self).next_stream
                }
            }),
    {
        let len = decode_frame_len(header);
        proof {
            crate::codec::lemma_le_value_bound(header@);
            crate::codec::lemma_pow256_4();
        }
        if len as usize > FRAGMENT_SIZE {
            Err(BondError::ProtocolViolation)
        } else if len == 0 {
            self.advance();
            Ok(())
        } else {
            self.readable = len as usize;
            Ok(())
        }
    }

    /// Takes in `count` fetched payload bytes of the open frame: the
    /// residue shrinks by `count`, and the rotation advances when the frame
    /// is finished.
    pub fn accept_payload(&mut self, count: usize)
        requires
            old(self).wf(),
            0 < count <= old(self).readable,
        ensures
            final(self).wf(),
            final(self).width == old(self).width,
            final(self).readable == old(self).readable - count,
            count == old(self).readable ==> final(self).next_stream == (old(self).next_stream
                + 1) % (old(self).width as int),
            count < old(self).readable ==> final(self).next_stream == old(self).next_stream,
    {
        self.readable = self.readable - count;
        if self.readable == 0 {
            self.advance();
        }
    }

    /// Moves the rotation cursor to the next member.
    fn advance(&mut self)
        requires
            old(self).wf(),
        ensures
            final(self).wf(),
            final(self).width == old(self).width,
            final(self).readable == old(self).readable,
            final(self).next_stream == (old(self).next_stream + 1) % (old(self).width as int),
    {
        proof {
            if self.next_stream + 1 == self.width {
                vstd::arithmetic::div_mod::lemma_mod_self_0(self.width as int);
            } else {
                vstd::arithmetic::div_mod::lemma_small_mod(
                    (self.next_stream + 1) as nat,
                    self.width as nat,
                );
            }
        }
        self.next_stream = if self.next_stream + 1 == self.width {
            0
        } else {
            self.next_stream + 1
        };
    }

    /// Performs one read call of exactly `target` bytes against an
    /// in-memory wire that holds everything the call demands, and returns
    /// the bytes in the order the peer wrote them.
    pub fn read_wire(&mut self, wire: &mut Wire, target: usize) -> (data: Vec<u8>)
        requires
            old(self).wf(),
            old(wire).wf(),
            old(wire)@.len() == old(self).width,
            read_model(
                old(wire)@,
                old(self).next_stream as int,
                old(self).readable as nat,
                target as nat,
            ).complete,
        ensures
            final(self).wf(),
            final(wire).wf(),
            final(self).width == old(self).width,
            data@.len() == target,
            ({
                let m = read_model(
                    old(wire)@,
                    old(self).next_stream as int,
                    old(self).readable as nat,
                    target as nat,
                );
                data@ == m.data && final(wire)@ == m.leftover && final(self).next_stream
                    == m.cursor && final(self).readable == m.residue
            }),
    {
        let ghost w0 = wire@;
        let ghost r0 = self.next_stream as int;
        let ghost d0 = self.readable as nat;
        let ghost big = read_model(w0, r0, d0, target as nat);
        let ghost n = self.width as int;
        let mut data: Vec<u8> = Vec::new();
        let mut filled: usize = 0;
        proof {
            assert(data@ + big.data =~= big.data);
        }
        while filled < target
            invariant
                self.wf(),
                wire.wf(),
                self.width as int == n,
                wire@.len() == n,
                filled <= target,
                data@.len() == filled,
                big == read_model(w0, r0, d0, target as nat),
                big.complete,
                ({
                    let cur = read_model(
                        wire@,
                        self.next_stream as int,
                        self.readable as nat,
                        (target - filled) as nat,
                    );
                    cur.complete && big.data == data@ + cur.data && big.leftover == cur.leftover
                        && big.cursor == cur.cursor && big.residue == cur.residue
                }),
            decreases target - filled, total_len(wire@),
        {
            let ghost wpre = wire@;
            let ghost rpre = self.next_stream as int;
            let ghost dpre = self.readable as nat;
            let ghost trem = (target - filled) as nat;
            let ghost cur = read_model(wpre, rpre, dpre, trem);
            let member = self.next_stream;
            if self.readable > 0 {
                let room = target - filled;
                let count = if self.readable <= room { self.readable } else { room };
                let ghost c = count as nat;
                proof {
                    assert(wpre[rpre].len() >= c);
                }
                let mut got = wire.take_bytes(member, count);
                data.append(&mut got);
                filled = filled + count;
                self.accept_payload(count);
                proof {
                    let w1 = wpre.update(rpre, wpre[rpre].skip(c as int));
                    assert(wire@ == w1);
                    if c == dpre {
                        let next = read_model(wire@, self.next_stream as int, 0, (trem - c) as nat);
                        assert(cur.data == wpre[rpre].take(c as int) + next.data);
                        assert(data@ + next.data =~= big.data) by {
                            assert(cur.data =~= wpre[rpre].take(c as int) + next.data);
                        }
                    } else {
                        assert(filled == target);
                        assert(self.readable as nat == dpre - c);
                        let next = read_model(
                            wire@,
                            self.next_stream as int,
                            self.readable as nat,
                            0,
                        );
                        assert(next.data == Seq::<u8>::empty());
                        assert(data@ + next.data =~= data@);
                        assert(big.data == data@);
                    }
                }
            } else {
                proof {
                    assert(wpre[rpre].len() >= 4);
                }
                let hdr = wire.take_bytes(member, 4);
                let ghost w1 = wpre.update(rpre, wpre[rpre].skip(4));
                let len32 = decode_frame_len(&hdr);
                let len = len32 as usize;
                let ghost lenn = le_value(wpre[rpre].take(4));
                proof {
                    assert(hdr@ == wpre[rpre].take(4));
                    assert(len as nat == lenn);
                    assert(lenn <= FRAGMENT_SIZE);
                    assert(w1[rpre] == wpre[rpre].skip(4));
                }
                let room = target - filled;
                if len > room {
                    proof {
                        assert(wpre[rpre].len() >= 4 + trem);
                    }
                    let mut got = wire.take_bytes(member, room);
                    let ghost gotv = got@;
                    data.append(&mut got);
                    filled = target;
                    self.readable = len - room;
                    proof {
                        assert(gotv == wpre[rpre].skip(4).take(trem as int)) by {
                            assert(gotv =~= wpre[rpre].skip(4).take(trem as int));
                        }
                        assert(wire@ =~= wpre.update(rpre, wpre[rpre].skip(4 + trem as int))) by {
                            assert(w1[rpre].skip(trem as int) =~= wpre[rpre].skip(4 + trem as int));
                        }
                        assert(cur.data == wpre[rpre].skip(4).take(trem as int));
                        assert(cur.leftover == wpre.update(rpre, wpre[rpre].skip(4 + trem as int)));
                        assert(cur.cursor == rpre);
                        assert(cur.residue == (lenn - trem) as nat);
                        let next = read_model(
                            wire@,
                            self.next_stream as int,
                            self.readable as nat,
                            0,
                        );
                        assert(next.data == Seq::<u8>::empty());
                        assert(data@ + next.data =~= data@);
                        assert(big.data =~= data@);
                    }
                } else {
                    let mut got = wire.take_bytes(member, len);
                    let ghost gotv = got@;
                    data.append(&mut got);
                    filled = filled + len;
                    self.advance();
                    proof {
                        assert(gotv == wpre[rpre].skip(4).take(len as int)) by {
                            assert(gotv =~= wpre[rpre].skip(4).take(len as int));
                        }
                        assert(wire@ =~= wpre.update(rpre, wpre[rpre].skip(4 + lenn as int))) by {
                            assert(w1[rpre].skip(len as int) =~= wpre[rpre].skip(4 + lenn as int));
                        }
                        lemma_total_len_update(wpre, rpre, wpre[rpre].skip(4 + lenn as int));
                        let next = read_model(
                            wire@,
                            self.next_stream as int,
                            self.readable as nat,
                            (trem - lenn) as nat,
                        );
                        assert(cur.data == wpre[rpre].skip(4).take(lenn as int) + next.data);
                        assert(data@ + next.data =~= big.data) by {
                            assert(cur.data =~= wpre[rpre].skip(4).take(lenn as int) + next.data);
                        }
                    }
                }
            }
        }
        proof {
            let fin = read_model(wire@, self.next_stream as int, self.readable as nat, 0);
            assert(fin.data == Seq::<u8>::empty());
            assert(data@ + fin.data =~= data@);
        }
        data
    }
}

} // verus!
