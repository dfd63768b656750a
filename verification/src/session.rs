//! The server-side bonding handshake: a table of partial sessions keyed by
//! correlation ID. Each accepted member flow first delivers a 16-byte
//! token. A token already in the table names the session the flow joins;
//! an unknown token means a new session, for which the server mints a
//! fresh correlation ID and replies with the bond width and that ID. A
//! session is handed out exactly when its width-th member arrives; a
//! partially formed session is never observable.

use vstd::prelude::*;
use std::collections::HashMap;

verus! {

broadcast use vstd::std_specs::hash::group_hash_axioms;

/// Relies on uuid::Uuid::new_v4 for a freshly drawn random 128-bit
/// identifier, read back with uuid::Uuid::to_u128_le as the value of its
/// sixteen little-endian bytes. Nothing is assumed about which value
/// comes back.
#[verifier::external_body]
fn mint_cid() -> u128 {
    uuid::Uuid::new_v4().to_u128_le()
}

/// What the listener does with one accepted member flow.
pub enum AcceptStep {
    /// The session is still short of members: keep accepting. `reply`
    /// carries the freshly minted correlation ID to send back on this
    /// flow (after the width byte) when the flow opened a new session.
    AwaitMore { reply: Option<u128> },
    /// This member completed its session: `members` are the flows of the
    /// bond in arrival order. `reply` is set when the bond has width 1,
    /// where the first flow both opens and completes the session and the
    /// handshake reply is still owed to it.
    Ready { reply: Option<u128>, members: Vec<u64> },
}

/// The listener's table of partial sessions. Member flows are tracked by
/// caller-chosen 64-bit handles; the flows of a session are kept in
/// arrival order.
pub struct SessionTable {
    pub width: u8,
    pub pending: HashMap<u128, Vec<u64>>,
}

impl View for SessionTable {
    type V = Map<u128, Seq<u64>>;

    open spec fn view(&self) -> Map<u128, Seq<u64>> {
        Map::new(
            |k: u128| self.pending@.contains_key(k),
            |k: u128| self.pending@[k]@,
        )
    }
}

impl SessionTable {
    /// Every stored session is partial: at least one member, fewer than
    /// the bond width. A completed session leaves the table at once, so
    /// none is ever observable inside it.
    pub open spec fn wf(&self) -> bool {
        &&& 1 <= self.width
        &&& forall|k: u128|
            self.pending@.contains_key(k) ==> 1 <= (#[trigger] self.pending@[k])@.len()
                < self.width
    }

    /// An empty table for bonds of `width` members.
    pub fn new(width: u8) -> (t: SessionTable)
        requires
            width >= 1,
        ensures
            t.wf(),
            t.width == width,
            t@ == Map::<u128, Seq<u64>>::empty(),
    {
        let t = SessionTable { width, pending: HashMap::new() };
        proof {
            assert(t@ =~= Map::<u128, Seq<u64>>::empty());
        }
        t
    }

    /// The bond width this listener completes sessions at.
    pub fn bond_width(&self) -> (r: u8)
        ensures
            r == self.width,
    {
        self.width
    }

    /// Feeds one accepted member flow, identified by `handle`, with the
    /// token it delivered, into the table. Exactly the width-th member of
    /// a session yields `Ready`, with the members in arrival order.
    pub fn on_member(&mut self, token: u128, handle: u64) -> (step: AcceptStep)
        requires
            old(self).wf(),
        ensures
            final(self).wf(),
            final(self).width == old(self).width,
            old(self)@.contains_key(token) && old(self)@[token].len() + 1 == old(self).width
                ==> (step matches AcceptStep::Ready { reply, members }
                    && reply is None
                    && members@ == old(self)@[token].push(handle)
                    && final(self)@ == old(self)@.remove(token)),
            old(self)@.contains_key(token) && old(self)@[token].len() + 1 < old(self).width
                ==> (step matches AcceptStep::AwaitMore { reply }
                    && reply is None
                    && final(self)@ == old(self)@.insert(token, old(self)@[token].push(handle))),
            !old(self)@.contains_key(token) && old(self).width == 1
                ==> (step matches AcceptStep::Ready { reply, members }
                    && reply is Some
                    && members@ == seq![handle]
                    && final(self)@ == old(self)@),
            !old(self)@.contains_key(token) && old(self).width > 1
                ==> (step matches AcceptStep::AwaitMore { reply }
                    && reply matches Some(cid)
                    && final(self)@ == old(self)@.insert(cid, seq![handle])),
    {
        let ghost pre = *self;
        if self.pending.contains_key(&token) {
            let taken = self.pending.remove(&token);
            let mut members = taken.unwrap();
            members.push(handle);
            if members.len() == self.width as usize {
                proof {
                    assert(self@ =~= pre@.remove(token));
                }
                AcceptStep::Ready { reply: None, members }
            } else {
                let ghost grown = members@;
                self.pending.insert(token, members);
                proof {
                    assert(grown == pre@[token].push(handle));
                    assert(self@ =~= pre@.insert(token, pre@[token].push(handle)));
                }
                AcceptStep::AwaitMore { reply: None }
            }
        } else {
            let cid = mint_cid();
            let mut members: Vec<u64> = Vec::new();
            members.push(handle);
            if self.width == 1 {
                AcceptStep::Ready { reply: Some(cid), members }
            } else {
                self.pending.insert(cid, members);
                proof {
                    assert(self@ =~= pre@.insert(cid, seq![handle]));
                }
                AcceptStep::AwaitMore { reply: Some(cid) }
            }
        }
    }

    /// Drops the partial session stored under `cid`, as the listener does
    /// when a member flow of that session fails mid-handshake.
    pub fn discard(&mut self, cid: u128)
        requires
            old(self).wf(),
        ensures
            final(self).wf(),
            final(self).width == old(self).width,
            final(self)@ == old(self)@.remove(cid),
    {
        self.pending.remove(&cid);
        proof {
            assert(self@ =~= old(self)@.remove(cid));
        }
    }
}

} // verus!
