//! The in-flight bytes of one direction of a bond: one pending byte queue
//! per member flow. A writer appends frames at the back of a queue; the
//! reader consumes from the front of the queue that its rotation cursor
//! names. The queues model exactly what a peer has sent on each member
//! flow and what has not yet been consumed.

use vstd::prelude::*;

verus! {

pub struct Wire {
    bufs: Vec<Vec<u8>>,
    heads: Vec<usize>,
}

impl View for Wire {
    type V = Seq<Seq<u8>>;

    closed spec fn view(&self) -> Seq<Seq<u8>> {
        Seq::new(self.bufs@.len(), |m: int| self.bufs@[m]@.skip(self.heads@[m] as int))
    }
}

impl Wire {
    /// The per-member queues are consistent: one head index per queue,
    /// each within its queue.
    pub closed spec fn wf(&self) -> bool {
        &&& self.bufs@.len() == self.heads@.len()
        &&& forall|m: int|
            0 <= m < self.bufs@.len() ==> self.heads@[m] <= self.bufs@[m]@.len()
    }

    /// A wire with `width` members and nothing in flight.
    pub fn new(width: usize) -> (w: Wire)
        ensures
            w.wf(),
            w@.len() == width,
            forall|m: int| 0 <= m < width ==> w@[m] == Seq::<u8>::empty(),
    {
        let mut bufs: Vec<Vec<u8>> = Vec::new();
        let mut heads: Vec<usize> = Vec::new();
        let mut i: usize = 0;
        while i < width
            invariant
                i <= width,
                bufs@.len() == i,
                heads@.len() == i,
                forall|m: int| 0 <= m < i ==> (#[trigger] bufs@[m])@.len() == 0,
                forall|m: int| 0 <= m < i ==> #[trigger] heads@[m] == 0,
            decreases width - i,
        {
            bufs.push(Vec::new());
            heads.push(0);
            i = i + 1;
        }
        let w = Wire { bufs, heads };
        proof {
            assert forall|m: int| 0 <= m < width implies w@[m] == Seq::<u8>::empty() by {
                assert(w@[m] =~= Seq::<u8>::empty());
            }
        }
        w
    }

    /// The number of member flows.
    pub fn width(&self) -> (r: usize)
        ensures
            r == self@.len(),
    {
        self.bufs.len()
    }

    /// How many bytes are pending on member `m`.
    pub fn pending(&self, m: usize) -> (r: usize)
        requires
            self.wf(),
            m < self@.len(),
        ensures
            r == self@[m as int].len(),
    {
        self.bufs[m].len() - self.heads[m]
    }

    /// Appends `bytes` at the back of member `m`'s queue.
    pub fn push_bytes(&mut self, m: usize, bytes: Vec<u8>)
        requires
            old(self).wf(),
            m < old(self)@.len(),
        ensures
            final(self).wf(),
            final(self)@ == old(self)@.update(m as int, old(self)@[m as int] + bytes@),
    {
        let ghost pre = *self;
        let mut b = bytes;
        self.bufs[m].append(&mut b);
        proof {
            assert(self.heads@ == pre.heads@);
            assert(self.bufs@ =~= pre.bufs@.update(m as int, self.bufs@[m as int]));
            assert(self.bufs@[m as int]@ == pre.bufs@[m as int]@ + bytes@);
            assert forall|j: int| 0 <= j < self@.len() implies self@[j] == pre@.update(
                m as int,
                pre@[m as int] + bytes@,
            )[j] by {
                if j == m as int {
                    assert(self@[j] =~= pre@[m as int] + bytes@);
                } else {
                    assert(self@[j] =~= pre@[j]);
                }
            }
            assert(final(self)@ =~= pre@.update(m as int, pre@[m as int] + bytes@));
        }
    }

    /// Removes and returns the first `k` pending bytes of member `m`.
    pub fn take_bytes(&mut self, m: usize, k: usize) -> (r: Vec<u8>)
        requires
            old(self).wf(),
            m < old(self)@.len(),
            k <= old(self)@[m as int].len(),
        ensures
            final(self).wf(),
            r@ == old(self)@[m as int].take(k as int),
            final(self)@ == old(self)@.update(m as int, old(self)@[m as int].skip(k as int)),
    {
        let ghost pre = *self;
        let h = self.heads[m];
        let blen = self.bufs[m].len();
        proof {
            assert(pre@[m as int].len() == pre.bufs@[m as int]@.len() - h);
        }
        let mut r: Vec<u8> = Vec::new();
        let mut i: usize = 0;
        while i < k
            invariant
                i <= k,
                *self == pre,
                pre.wf(),
                m < pre@.len(),
                h == pre.heads@[m as int],
                k <= pre@[m as int].len(),
                blen == pre.bufs@[m as int]@.len(),
                h + k <= blen,
                r@ =~= pre@[m as int].take(i as int),
            decreases k - i,
        {
            let byte = self.bufs[m][h + i];
            proof {
                assert(pre@[m as int][i as int] == pre.bufs@[m as int]@[h + i]);
            }
            r.push(byte);
            i = i + 1;
            proof {
                assert(r@ =~= pre@[m as int].take(i as int));
            }
        }
        self.heads[m] = h + k;
        proof {
            assert(self.bufs@ == pre.bufs@);
            assert(self.heads@ =~= pre.heads@.update(m as int, (h + k) as usize));
            assert forall|j: int| 0 <= j < self@.len() implies self@[j] == pre@.update(
                m as int,
                pre@[m as int].skip(k as int),
            )[j] by {
                if j == m as int {
                    assert(self@[j] =~= pre@[m as int].skip(k as int));
                } else {
                    assert(self@[j] =~= pre@[j]);
                }
            }
            assert(final(self)@ =~= pre@.update(m as int, pre@[m as int].skip(k as int)));
        }
        r
    }
}

} // verus!
