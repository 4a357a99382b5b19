//! The per-peer producer: a circular index into the peer's own log and
//! the records it writes there at a randomized pace.

use vstd::prelude::*;
use vstd::string::StringExecFns;
use crate::defaults::PEER_LOG_SIZE;
use crate::types::{ExecutionPlan, PeerId, PeerRecord, PeerRecordV};

verus! {

/// Producer state: which peer writes, under which plan, and the slot most
/// recently written; `-1` before the first record.
#[derive(Debug)]
pub struct ProducerCtx {
    pub peer_id: PeerId,
    pub plan: ExecutionPlan,
    pub msg_index: i32,
}

impl ProducerCtx {
    /// The index stays inside the ring, or one step before it.
    pub open spec fn wf(self) -> bool {
        -1 <= self.msg_index < PEER_LOG_SIZE as int
    }

    /// A producer that has written nothing yet.
    pub fn new(peer_id: PeerId, plan: ExecutionPlan) -> (r: Self)
        ensures
            r.peer_id@ == peer_id@,
            r.plan == plan,
            r.msg_index == -1,
            r.wf(),
    {
        ProducerCtx { peer_id, plan, msg_index: -1 }
    }

    /// Advance the circular index and return it: `0, 1, ...,
    /// PEER_LOG_SIZE - 1, 0, 1, ...`.
    pub fn get_next_index(&mut self) -> (r: u32)
        requires
            old(self).wf(),
        ensures
            final(self).wf(),
            final(self).peer_id == old(self).peer_id,
            final(self).plan == old(self).plan,
            r == final(self).msg_index,
            r as int == (if old(self).msg_index + 1 >= PEER_LOG_SIZE as int {
                0int
            } else {
                old(self).msg_index + 1
            }),
    {
        self.msg_index = self.msg_index + 1;
        if self.msg_index >= PEER_LOG_SIZE as i32 {
            self.msg_index = 0;
        }
        self.msg_index as u32
    }

    /// How long to pause before the next record: a fresh draw from
    /// `[min_msg_delay_msec, max_msg_delay_msec)`.
    pub fn next_delay_msec(&self) -> (r: u32)
        requires
            self.plan.min_msg_delay_msec < self.plan.max_msg_delay_msec,
        ensures
            self.plan.min_msg_delay_msec <= r < self.plan.max_msg_delay_msec,
    {
        crate::caps::rand_range_u64(
            self.plan.min_msg_delay_msec as u64,
            self.plan.max_msg_delay_msec as u64,
        ) as u32
    }
}

/// The store path of slot `index` within this peer's sub-log.
pub open spec fn spec_record_path(peer_id: Seq<char>, index: u32) -> Seq<char> {
    "logs['"@ + peer_id + "']['log']['"@ + crate::strutil::dec_of(index as nat) + "']"@
}

/// Advance the producer's ring index and build the record and the
/// path-targeted update that writes it: a fresh record stamped `now` goes
/// to the next slot of the producer's own sub-log.
pub fn producer_send(prod_ctx: &mut ProducerCtx, now: u64) -> (r: (u32, PeerRecord, String))
    requires
        old(prod_ctx).wf(),
    ensures
        final(prod_ctx).wf(),
        final(prod_ctx).peer_id == old(prod_ctx).peer_id,
        final(prod_ctx).plan == old(prod_ctx).plan,
        r.0 < PEER_LOG_SIZE,
        r.0 as int == (if old(prod_ctx).msg_index + 1 >= PEER_LOG_SIZE as int {
            0int
        } else {
            old(prod_ctx).msg_index + 1
        }),
        final(prod_ctx).msg_index == r.0 as int,
        r.1@ == (PeerRecordV { timestamp: now, data: Seq::<char>::empty() }),
        r.2@ == spec_record_path(old(prod_ctx).peer_id@, r.0),
{
    let next_index = prod_ctx.get_next_index();
    let rec = PeerRecord { timestamp: now, data: String::new() };
    let mut path = String::new();
    path.append("logs['");
    path.append(prod_ctx.peer_id.as_str());
    path.append("']['log']['");
    let digits = crate::strutil::u64_to_dec(next_index as u64);
    path.append(digits.as_str());
    path.append("']");
    proof {
        assert(path@ =~= spec_record_path(prod_ctx.peer_id@, next_index));
    }
    (next_index, rec, path)
}

} // verus!
