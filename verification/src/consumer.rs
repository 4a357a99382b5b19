//! The per-peer consumer: a replay cursor into every other peer's
//! circular log, and the latency statistics accumulated from the records
//! it reads.

use vstd::prelude::*;
use crate::types::{LatencyStats, PeerDoc, PeerId, PeerLog, PeerRecordV};

verus! {

/// Saturating addition on `u64`; the statistics counters clamp at the
/// limit instead of overflowing.
pub open spec fn sat_add(a: u64, b: u64) -> u64 {
    if a + b > u64::MAX {
        u64::MAX
    } else {
        (a + b) as u64
    }
}

/// Executable counterpart of [`sat_add`].
pub fn sat_add_u64(a: u64, b: u64) -> (r: u64)
    ensures
        r == sat_add(a, b),
{
    if a > u64::MAX - b {
        u64::MAX
    } else {
        a + b
    }
}

/// The next ring index: one past `i`, wrapping to `0` beyond `max`.
pub open spec fn spec_incr_wrap(i: u32, max: u32) -> u32 {
    if i + 1 > max {
        0u32
    } else {
        (i + 1) as u32
    }
}

/// Executable counterpart of [`spec_incr_wrap`].
pub fn incr_wrap(i: u32, max: u32) -> (r: u32)
    requires
        i <= max < u32::MAX,
    ensures
        r == spec_incr_wrap(i, max),
{
    let r = i + 1;
    if r > max {
        0
    } else {
        r
    }
}

/// The ring index reached from `i` after `k` single steps modulo `max`.
pub open spec fn advance(i: u32, k: nat, max: u32) -> u32
    decreases k,
{
    if k == 0 {
        i
    } else {
        spec_incr_wrap(advance(i, (k - 1) as nat, max), (max - 1) as u32)
    }
}

/// Mathematical value of a [`CursorEntry`].
pub ghost struct CursorV {
    pub id: Seq<char>,
    pub ts: u64,
    pub idx: u32,
}

/// Per-source replay cursor: timestamp of the last record consumed from
/// that source, and the next slot to read.
#[derive(Debug)]
pub struct CursorEntry {
    pub peer_id: PeerId,
    pub last_ts: u64,
    pub next_idx: u32,
}

impl View for CursorEntry {
    type V = CursorV;

    open spec fn view(&self) -> CursorV {
        CursorV { id: self.peer_id@, ts: self.last_ts, idx: self.next_idx }
    }
}

impl DeepView for CursorEntry {
    type V = CursorV;

    open spec fn deep_view(&self) -> CursorV {
        self.view()
    }
}

/// Mathematical value of a [`PeerConsumer`].
pub ghost struct ConsumerV {
    pub local_id: Seq<char>,
    pub cursors: Seq<CursorV>,
    pub msg_latency: LatencyStats,
    pub msg_latency_total: u64,
}

/// At most one cursor per source id.
pub open spec fn cursors_distinct(cs: Seq<CursorV>) -> bool {
    forall|i: int, j: int| 0 <= i < j < cs.len() ==> cs[i].id != cs[j].id
}

/// Whether a cursor for `id` exists.
pub open spec fn cursors_has(cs: Seq<CursorV>, id: Seq<char>) -> bool {
    exists|i: int| 0 <= i < cs.len() && (#[trigger] cs[i]).id == id
}

/// Index of the cursor for `id`.
pub open spec fn cursors_index(cs: Seq<CursorV>, id: Seq<char>) -> int {
    choose|i: int| 0 <= i < cs.len() && (#[trigger] cs[i]).id == id
}

/// The cursor recorded for `id`, or the initial `(0, 0)`.
pub open spec fn cursors_lookup(cs: Seq<CursorV>, id: Seq<char>) -> (u64, u32) {
    if cursors_has(cs, id) {
        let c = cs[cursors_index(cs, id)];
        (c.ts, c.idx)
    } else {
        (0u64, 0u32)
    }
}

/// The cursor list after recording `(ts, idx)` for `id`.
pub open spec fn cursors_upsert(cs: Seq<CursorV>, id: Seq<char>, ts: u64, idx: u32) -> Seq<
    CursorV,
> {
    if cursors_has(cs, id) {
        cs.update(cursors_index(cs, id), CursorV { id, ts, idx })
    } else {
        cs.push(CursorV { id, ts, idx })
    }
}

impl ConsumerV {
    /// One cursor per source id.
    pub open spec fn wf(self) -> bool {
        cursors_distinct(self.cursors)
    }

    /// Whether a cursor for `id` exists.
    pub open spec fn has_cursor(self, id: Seq<char>) -> bool {
        cursors_has(self.cursors, id)
    }

    /// Index of the cursor for `id`.
    pub open spec fn cursor_index(self, id: Seq<char>) -> int {
        cursors_index(self.cursors, id)
    }

    /// The cursor recorded for `id`, or the initial `(0, 0)`.
    pub open spec fn cursor_of(self, id: Seq<char>) -> (u64, u32) {
        cursors_lookup(self.cursors, id)
    }

    /// The cursor list after recording `(ts, idx)` for `id`.
    pub open spec fn upsert_cursor(self, id: Seq<char>, ts: u64, idx: u32) -> Seq<CursorV> {
        cursors_upsert(self.cursors, id, ts, idx)
    }
}

/// The records one call of [`PeerConsumer::process_peer`] consumes,
/// reading from slot `i` with last-seen timestamp `ts`: it stops at an
/// empty slot, at a slot older than the last one seen — the ring has
/// wrapped onto a slot the writer has not yet refreshed — or after a full
/// lap.
pub open spec fn consumed_records(pl: PeerLog, ts: u64, i: u32, fuel: nat) -> Seq<PeerRecordV>
    decreases fuel,
{
    if fuel == 0 {
        Seq::empty()
    } else {
        match pl.slot(i as int) {
            None => Seq::empty(),
            Some(r) => {
                if r.timestamp < ts {
                    Seq::empty()
                } else {
                    seq![r] + consumed_records(
                        pl,
                        r.timestamp,
                        spec_incr_wrap(i, (pl.max_log_size - 1) as u32),
                        (fuel - 1) as nat,
                    )
                }
            },
        }
    }
}

/// Statistics and running total after one more event of the given latency.
pub open spec fn add_event(st: LatencyStats, total: u64, latency: u64) -> (LatencyStats, u64) {
    let t2 = sat_add(total, latency);
    let n2 = sat_add(st.num_events, 1);
    (
        LatencyStats {
            num_events: n2,
            min_msec: if latency < st.min_msec {
                latency
            } else {
                st.min_msec
            },
            max_msec: if latency > st.max_msec {
                latency
            } else {
                st.max_msec
            },
            avg_msec: t2 / n2,
            distinct_peers: st.distinct_peers,
        },
        t2,
    )
}

/// Statistics and running total after consuming `cs` at time `now`.
pub open spec fn apply_records(
    st: LatencyStats,
    total: u64,
    now: u64,
    cs: Seq<PeerRecordV>,
) -> (LatencyStats, u64)
    decreases cs.len(),
{
    if cs.len() == 0 {
        (st, total)
    } else {
        let p = add_event(st, total, (now - cs[0].timestamp) as u64);
        apply_records(p.0, p.1, now, cs.drop_first())
    }
}

/// The consumer state after one call of [`PeerConsumer::process_peer`].
pub open spec fn spec_process_peer(
    c: ConsumerV,
    id: Seq<char>,
    pl: PeerLog,
    now: u64,
) -> ConsumerV {
    let ts0 = c.cursor_of(id).0;
    let i0 = c.cursor_of(id).1;
    let cs = consumed_records(pl, ts0, i0, pl.max_log_size as nat);
    let ts1 = if cs.len() > 0 {
        cs.last().timestamp
    } else {
        ts0
    };
    let i1 = advance(i0, cs.len(), pl.max_log_size);
    let st = apply_records(c.msg_latency, c.msg_latency_total, now, cs);
    ConsumerV {
        local_id: c.local_id,
        cursors: c.upsert_cursor(id, ts1, i1),
        msg_latency: st.0,
        msg_latency_total: st.1,
    }
}

/// The consumer state after one call of
/// [`PeerConsumer::process_peer_doc`]: every source's log is consumed in
/// document order, the consumer's own excepted.
pub open spec fn spec_process_doc(
    c: ConsumerV,
    logs: Seq<crate::types::PeerLogEntry>,
    now: u64,
) -> ConsumerV
    decreases logs.len(),
{
    if logs.len() == 0 {
        c
    } else {
        let c1 = if logs[0].peer_id@ == c.local_id {
            c
        } else {
            spec_process_peer(c, logs[0].peer_id@, logs[0].log, now)
        };
        spec_process_doc(c1, logs.drop_first(), now)
    }
}

/// Replay cursors and latency accumulation over every other peer's log.
#[derive(Debug)]
pub struct PeerConsumer {
    pub local_id: PeerId,
    pub cursors: Vec<CursorEntry>,
    pub msg_latency: LatencyStats,
    pub msg_latency_total: u64,
}

impl View for PeerConsumer {
    type V = ConsumerV;

    open spec fn view(&self) -> ConsumerV {
        ConsumerV {
            local_id: self.local_id@,
            cursors: self.cursors.deep_view(),
            msg_latency: self.msg_latency,
            msg_latency_total: self.msg_latency_total,
        }
    }
}

impl PeerConsumer {
    /// A consumer that has seen nothing yet.
    pub fn new(local_id: PeerId) -> (r: Self)
        ensures
            r@.local_id == local_id@,
            r@.cursors == Seq::<CursorV>::empty(),
            r@.msg_latency == (LatencyStats {
                num_events: 0u64,
                min_msec: u64::MAX,
                max_msec: 0u64,
                avg_msec: 0u64,
                distinct_peers: 0usize,
            }),
            r@.msg_latency_total == 0u64,
            r@.wf(),
    {
        let r = PeerConsumer {
            local_id,
            cursors: Vec::new(),
            msg_latency: LatencyStats::new(),
            msg_latency_total: 0,
        };
        proof {
            assert(r.cursors.deep_view() =~= Seq::<CursorV>::empty());
        }
        r
    }

    /// Timestamp of the last record consumed from `peer_id`, and the next
    /// slot to read; `(0, 0)` before the first record.
    pub fn get_ts_idx(&self, peer_id: &PeerId) -> (r: (u64, u32))
        requires
            self@.wf(),
        ensures
            r == self@.cursor_of(peer_id@),
    {
        let ghost c = self@;
        let mut i: usize = 0;
        while i < self.cursors.len()
            invariant
                c == self@,
                c.wf(),
                i <= c.cursors.len(),
                forall|j: int| 0 <= j < i ==> (#[trigger] c.cursors[j]).id != peer_id@,
            decreases c.cursors.len() - i,
        {
            if self.cursors[i].peer_id == *peer_id {
                proof {
                    assert(c.cursors[i as int].id == peer_id@);
                    assert(c.has_cursor(peer_id@));
                    assert(c.cursors[c.cursor_index(peer_id@)].id == peer_id@);
                    assert(c.cursor_index(peer_id@) == i as int);
                }
                return (self.cursors[i].last_ts, self.cursors[i].next_idx);
            }
            i = i + 1;
        }
        proof {
            if c.has_cursor(peer_id@) {
                let j = c.cursor_index(peer_id@);
                assert(c.cursors[j].id == peer_id@);
            }
        }
        (0, 0)
    }

    /// Record the cursor for `peer_id`: timestamp of the last record
    /// consumed and the next slot to read.
    pub fn set_consumed_ts_idx(&mut self, peer_id: PeerId, ts: u64, i: u32)
        requires
            old(self)@.wf(),
        ensures
            final(self)@.local_id == old(self)@.local_id,
            final(self)@.msg_latency == old(self)@.msg_latency,
            final(self)@.msg_latency_total == old(self)@.msg_latency_total,
            final(self)@.cursors == old(self)@.upsert_cursor(peer_id@, ts, i),
            final(self)@.wf(),
    {
        let ghost c = self@;
        let ghost pid = peer_id@;
        let mut j: usize = 0;
        while j < self.cursors.len()
            invariant
                c == self@,
                c == old(self)@,
                c.wf(),
                pid == peer_id@,
                j <= c.cursors.len(),
                forall|x: int| 0 <= x < j ==> (#[trigger] c.cursors[x]).id != pid,
            decreases c.cursors.len() - j,
        {
            if self.cursors[j].peer_id == *(&peer_id) {
                proof {
                    assert(c.cursors[j as int].id == pid);
                    assert(c.has_cursor(pid));
                    assert(c.cursors[c.cursor_index(pid)].id == pid);
                    assert(c.cursor_index(pid) == j as int);
                }
                self.cursors.set(j, CursorEntry { peer_id, last_ts: ts, next_idx: i });
                proof {
                    assert(self.cursors.deep_view() =~= c.upsert_cursor(pid, ts, i));
                }
                return ;
            }
            j = j + 1;
        }
        proof {
            if c.has_cursor(pid) {
                let x = c.cursor_index(pid);
                assert(c.cursors[x].id == pid);
            }
        }
        self.cursors.push(CursorEntry { peer_id, last_ts: ts, next_idx: i });
        proof {
            assert(self.cursors.deep_view() =~= c.upsert_cursor(pid, ts, i));
        }
    }
}

/// Appending one record to a consumed batch folds in one more event.
proof fn lemma_apply_records_push(
    st: LatencyStats,
    total: u64,
    now: u64,
    cs: Seq<PeerRecordV>,
    r: PeerRecordV,
)
    ensures
        apply_records(st, total, now, cs.push(r)) == (
            {
                let p = apply_records(st, total, now, cs);
                add_event(p.0, p.1, (now - r.timestamp) as u64)
            }),
    decreases cs.len(),
{
    let s1 = cs.push(r);
    if cs.len() == 0 {
        assert(s1[0] == r);
        assert(s1.drop_first() =~= Seq::<PeerRecordV>::empty());
        let p = add_event(st, total, (now - r.timestamp) as u64);
        assert(apply_records(st, total, now, s1) == apply_records(p.0, p.1, now, s1.drop_first()));
        assert(apply_records(p.0, p.1, now, s1.drop_first()) == (p.0, p.1));
        assert((p.0, p.1) == p);
        assert(apply_records(st, total, now, cs) == (st, total));
    } else {
        assert(s1[0] == cs[0]);
        assert(s1.drop_first() =~= cs.drop_first().push(r));
        let p = add_event(st, total, (now - cs[0].timestamp) as u64);
        assert(apply_records(st, total, now, s1) == apply_records(p.0, p.1, now, s1.drop_first()));
        assert(apply_records(st, total, now, cs) == apply_records(p.0, p.1, now, cs.drop_first()));
        lemma_apply_records_push(p.0, p.1, now, cs.drop_first(), r);
    }
}

impl PeerConsumer {
    /// Consume every record `peer_id`'s log holds beyond this consumer's
    /// cursor, fold each one's latency relative to `now` into the
    /// statistics, and persist the advanced cursor. Reading stops at an
    /// empty slot, at a slot older than the last record seen — the ring
    /// wrapped onto a slot not yet refreshed — or after one full lap.
    pub fn process_peer(&mut self, id: PeerId, pl: &PeerLog, now: u64)
        requires
            old(self)@.wf(),
            pl.wf(),
            pl.max_log_size >= 1,
            old(self)@.cursor_of(id@).1 < pl.max_log_size,
            forall|s: int|
                0 <= s < pl.max_log_size ==> match #[trigger] pl.slot(s) {
                    Some(r) => r.timestamp <= now,
                    None => true,
                },
        ensures
            final(self)@ == spec_process_peer(old(self)@, id@, *pl, now),
            final(self)@.wf(),
    {
        let ghost c0 = self@;
        let ghost pid = id@;
        let max = pl.max_log_size;
        let cur = self.get_ts_idx(&id);
        let mut ts = cur.0;
        let mut i = cur.1;
        let ghost ts0 = cur.0;
        let ghost i0 = cur.1;
        let ghost full = consumed_records(*pl, ts0, i0, max as nat);
        let ghost mut partial = Seq::<PeerRecordV>::empty();
        let mut cnt: u32 = 0;
        let mut done = false;
        proof {
            assert(partial + consumed_records(*pl, ts, i, (max - cnt) as nat) =~= full);
        }
        while !done && cnt < max
            invariant
                c0.wf(),
                pl.wf(),
                max == pl.max_log_size,
                max >= 1,
                forall|s: int|
                    0 <= s < pl.max_log_size ==> match #[trigger] pl.slot(s) {
                        Some(r) => r.timestamp <= now,
                        None => true,
                    },
                self@.local_id == c0.local_id,
                self@.cursors == c0.cursors,
                self@.msg_latency == apply_records(
                    c0.msg_latency,
                    c0.msg_latency_total,
                    now,
                    partial,
                ).0,
                self@.msg_latency_total == apply_records(
                    c0.msg_latency,
                    c0.msg_latency_total,
                    now,
                    partial,
                ).1,
                cnt == partial.len(),
                cnt <= max,
                i < max,
                full == consumed_records(*pl, ts0, i0, max as nat),
                ts == (if partial.len() > 0 {
                    partial.last().timestamp
                } else {
                    ts0
                }),
                i == advance(i0, partial.len(), max),
                !done ==> full == partial + consumed_records(*pl, ts, i, (max - cnt) as nat),
                done ==> full == partial,
            decreases max - cnt, (if done { 0int } else { 1int }),
        {
            let ghost fuel = (max - cnt) as nat;
            let mut stop = false;
            match &pl.log[i as usize] {
                None => {
                    stop = true;
                },
                Some(r) => {
                    if r.timestamp < ts {
                        stop = true;
                    } else {
                        let latency = now - r.timestamp;
                        let ghost st_pre = self@.msg_latency;
                        let ghost tot_pre = self@.msg_latency_total;
                        self.msg_latency_total = sat_add_u64(self.msg_latency_total, latency);
                        self.msg_latency.num_events = sat_add_u64(self.msg_latency.num_events, 1);
                        if latency < self.msg_latency.min_msec {
                            self.msg_latency.min_msec = latency;
                        }
                        if latency > self.msg_latency.max_msec {
                            self.msg_latency.max_msec = latency;
                        }
                        self.msg_latency.avg_msec = self.msg_latency_total
                            / self.msg_latency.num_events;
                        proof {
                            let rv = r@;
                            assert(pl.slot(i as int) == Some(rv));
                            assert(consumed_records(*pl, ts, i, fuel) =~= seq![rv]
                                + consumed_records(
                                *pl,
                                rv.timestamp,
                                spec_incr_wrap(i, (max - 1) as u32),
                                (fuel - 1) as nat,
                            ));
                            assert(full =~= partial.push(rv) + consumed_records(
                                *pl,
                                rv.timestamp,
                                spec_incr_wrap(i, (max - 1) as u32),
                                (fuel - 1) as nat,
                            ));
                            lemma_apply_records_push(
                                c0.msg_latency,
                                c0.msg_latency_total,
                                now,
                                partial,
                                rv,
                            );
                            assert(add_event(st_pre, tot_pre, latency) == (
                            self.msg_latency,
                            self.msg_latency_total,
                            ));
                            partial = partial.push(rv);
                            assert(partial.last() == rv);
                        }
                        ts = r.timestamp;
                        i = incr_wrap(i, max - 1);
                        cnt = cnt + 1;
                    }
                },
            }
            if stop {
                proof {
                    assert(consumed_records(*pl, ts, i, fuel) =~= Seq::<PeerRecordV>::empty());
                    assert(full =~= partial);
                }
                done = true;
            }
        }
        proof {
            if !done {
                assert(cnt == max);
                assert(consumed_records(*pl, ts, i, 0) =~= Seq::<PeerRecordV>::empty());
                assert(full =~= partial);
            }
            assert(full == partial);
        }
        let ghost c_mid = self@;
        self.set_consumed_ts_idx(id, ts, i);
        proof {
            assert(c_mid.cursors == c0.cursors);
            assert(c_mid.has_cursor(pid) == c0.has_cursor(pid));
            if c0.has_cursor(pid) {
                assert(c_mid.cursor_index(pid) == c0.cursor_index(pid));
            }
            assert(c_mid.upsert_cursor(pid, ts, i) == c0.upsert_cursor(pid, ts, i));
            assert(final(self)@ == spec_process_peer(c0, pid, *pl, now));
        }
    }
}

/// The ring index stays inside the ring however often it advances.
pub proof fn lemma_advance_bound(i: u32, k: nat, max: u32)
    requires
        i < max,
    ensures
        advance(i, k, max) < max,
    decreases k,
{
    if k > 0 {
        lemma_advance_bound(i, (k - 1) as nat, max);
    }
}

/// Recording a cursor keeps the cursor list well formed, sets exactly
/// that source's cursor, and leaves every other source's cursor unchanged.
pub proof fn lemma_upsert_cursor(cs: Seq<CursorV>, id: Seq<char>, ts: u64, idx: u32)
    requires
        cursors_distinct(cs),
    ensures
        ({
            let cs2 = cursors_upsert(cs, id, ts, idx);
            &&& cursors_distinct(cs2)
            &&& cursors_has(cs2, id)
            &&& cursors_lookup(cs2, id) == (ts, idx)
            &&& forall|y: Seq<char>| y != id ==> cursors_lookup(cs2, y) == cursors_lookup(cs, y)
        }),
{
    let cs2 = cursors_upsert(cs, id, ts, idx);
    if cursors_has(cs, id) {
        let k = cursors_index(cs, id);
        assert(cs[k].id == id);
        assert(cs2 == cs.update(k, CursorV { id, ts, idx }));
        assert(forall|j: int| 0 <= j < cs2.len() && j != k ==> cs2[j] == cs[j]);
        assert(cs2[k].id == id);
        assert(cursors_distinct(cs2));
        assert(cursors_has(cs2, id));
        let k2 = cursors_index(cs2, id);
        assert(cs2[k2].id == id);
        if k2 != k {
            assert(cs[k2].id == id);
            assert(false);
        }
        assert(cursors_lookup(cs2, id) == (ts, idx));
        assert forall|y: Seq<char>| y != id implies cursors_lookup(cs2, y) == cursors_lookup(
            cs,
            y,
        ) by {
            if cursors_has(cs, y) {
                let j = cursors_index(cs, y);
                assert(cs[j].id == y);
                assert(j != k);
                assert(cs2[j].id == y);
                assert(cursors_has(cs2, y));
                let j2 = cursors_index(cs2, y);
                assert(cs2[j2].id == y);
                if j2 != j {
                    if j2 == k {
                        assert(false);
                    } else {
                        assert(cs[j2].id == y);
                        assert(false);
                    }
                }
            } else {
                if cursors_has(cs2, y) {
                    let j2 = cursors_index(cs2, y);
                    assert(cs2[j2].id == y);
                    assert(j2 != k);
                    assert(cs[j2].id == y);
                    assert(false);
                }
            }
        }
    } else {
        let n = cs.len() as int;
        assert(cs2 == cs.push(CursorV { id, ts, idx }));
        assert(forall|j: int| 0 <= j < n ==> cs2[j] == cs[j]);
        assert(cs2[n].id == id);
        assert forall|x: int, y: int| 0 <= x < y < cs2.len() implies cs2[x].id != cs2[y].id by {
            if y == n {
                assert(cs[x].id != id);
            }
        }
        assert(cursors_distinct(cs2));
        assert(cursors_has(cs2, id));
        let k2 = cursors_index(cs2, id);
        assert(cs2[k2].id == id);
        if k2 != n {
            assert(cs[k2].id == id);
            assert(false);
        }
        assert(cursors_lookup(cs2, id) == (ts, idx));
        assert forall|y: Seq<char>| y != id implies cursors_lookup(cs2, y) == cursors_lookup(
            cs,
            y,
        ) by {
            if cursors_has(cs, y) {
                let j = cursors_index(cs, y);
                assert(cs[j].id == y);
                assert(cs2[j].id == y);
                assert(cursors_has(cs2, y));
                let j2 = cursors_index(cs2, y);
                assert(cs2[j2].id == y);
                if j2 != j {
                    if j2 == n {
                        assert(false);
                    } else {
                        assert(cs[j2].id == y);
                        assert(false);
                    }
                }
            } else {
                if cursors_has(cs2, y) {
                    let j2 = cursors_index(cs2, y);
                    assert(cs2[j2].id == y);
                    assert(j2 != n);
                    assert(cs[j2].id == y);
                    assert(false);
                }
            }
        }
    }
}

/// Consuming a document's logs never changes whose consumer this is.
pub proof fn lemma_spec_process_doc_local(
    c: ConsumerV,
    logs: Seq<crate::types::PeerLogEntry>,
    now: u64,
)
    ensures
        spec_process_doc(c, logs, now).local_id == c.local_id,
    decreases logs.len(),
{
    if logs.len() > 0 {
        let c1 = if logs[0].peer_id@ == c.local_id {
            c
        } else {
            spec_process_peer(c, logs[0].peer_id@, logs[0].log, now)
        };
        lemma_spec_process_doc_local(c1, logs.drop_first(), now);
    }
}

/// Consuming one more log is one more [`spec_process_peer`] step.
pub proof fn lemma_spec_process_doc_snoc(
    c: ConsumerV,
    logs: Seq<crate::types::PeerLogEntry>,
    x: crate::types::PeerLogEntry,
    now: u64,
)
    ensures
        spec_process_doc(c, logs.push(x), now) == ({
            let cm = spec_process_doc(c, logs, now);
            if x.peer_id@ == cm.local_id {
                cm
            } else {
                spec_process_peer(cm, x.peer_id@, x.log, now)
            }
        }),
    decreases logs.len(),
{
    lemma_spec_process_doc_local(c, logs, now);
    if logs.len() == 0 {
        assert(logs.push(x)[0] == x);
        assert(logs.push(x).drop_first() =~= Seq::<crate::types::PeerLogEntry>::empty());
        assert(spec_process_doc(c, logs, now) == c);
        let c1 = if x.peer_id@ == c.local_id {
            c
        } else {
            spec_process_peer(c, x.peer_id@, x.log, now)
        };
        assert(spec_process_doc(c1, logs.push(x).drop_first(), now) == c1);
        assert(spec_process_doc(c, logs.push(x), now) == c1);
    } else {
        assert(logs.push(x)[0] == logs[0]);
        assert(logs.push(x).drop_first() =~= logs.drop_first().push(x));
        let c1 = if logs[0].peer_id@ == c.local_id {
            c
        } else {
            spec_process_peer(c, logs[0].peer_id@, logs[0].log, now)
        };
        lemma_spec_process_doc_snoc(c1, logs.drop_first(), x, now);
    }
}

impl PeerConsumer {
    /// Consume every other peer's log from a delivered snapshot of the
    /// shared peer document, in document order, skipping this consumer's
    /// own log.
    pub fn process_peer_doc(&mut self, pdoc: &PeerDoc, now: u64)
        requires
            old(self)@.wf(),
            pdoc.wf(),
            forall|l: int|
                0 <= l < pdoc.logs@.len() ==> (#[trigger] pdoc.logs@[l]).log.max_log_size >= 1,
            forall|l: int|
                0 <= l < pdoc.logs@.len() ==> old(self)@.cursor_of(
                    (#[trigger] pdoc.logs@[l]).peer_id@,
                ).1 < pdoc.logs@[l].log.max_log_size,
            forall|l: int, s: int|
                0 <= l < pdoc.logs@.len() && 0 <= s < (#[trigger] pdoc.logs@[l]).log.max_log_size
                    ==> match #[trigger] pdoc.logs@[l].log.slot(s) {
                    Some(r) => r.timestamp <= now,
                    None => true,
                },
        ensures
            final(self)@ == spec_process_doc(old(self)@, pdoc.logs@, now),
            final(self)@.wf(),
    {
        let ghost c0 = self@;
        let ghost logs = pdoc.logs@;
        proof {
            assert(logs.take(0) =~= Seq::<crate::types::PeerLogEntry>::empty());
        }
        let mut l: usize = 0;
        while l < pdoc.logs.len()
            invariant
                logs == pdoc.logs@,
                pdoc.wf(),
                c0.wf(),
                forall|l2: int|
                    0 <= l2 < logs.len() ==> (#[trigger] logs[l2]).log.max_log_size >= 1,
                forall|l2: int, s: int|
                    0 <= l2 < logs.len() && 0 <= s < (#[trigger] logs[l2]).log.max_log_size
                        ==> match #[trigger] logs[l2].log.slot(s) {
                        Some(r) => r.timestamp <= now,
                        None => true,
                    },
                l <= logs.len(),
                self@ == spec_process_doc(c0, logs.take(l as int), now),
                self@.wf(),
                self@.local_id == c0.local_id,
                forall|l2: int|
                    l <= l2 < logs.len() ==> self@.cursor_of((#[trigger] logs[l2]).peer_id@).1
                        < logs[l2].log.max_log_size,
            decreases logs.len() - l,
        {
            let ghost pre = self@;
            let own = self.local_id == pdoc.logs[l].peer_id;
            if !own {
                let id = pdoc.logs[l].peer_id.clone();
                let ghost pid = logs[l as int].peer_id@;
                self.process_peer(id, &pdoc.logs[l].log, now);
                proof {
                    let pl = logs[l as int].log;
                    let cs = consumed_records(
                        pl,
                        pre.cursor_of(pid).0,
                        pre.cursor_of(pid).1,
                        pl.max_log_size as nat,
                    );
                    lemma_advance_bound(pre.cursor_of(pid).1, cs.len(), pl.max_log_size);
                    lemma_upsert_cursor(
                        pre.cursors,
                        pid,
                        if cs.len() > 0 {
                            cs.last().timestamp
                        } else {
                            pre.cursor_of(pid).0
                        },
                        advance(pre.cursor_of(pid).1, cs.len(), pl.max_log_size),
                    );
                    assert forall|l2: int|
                        l + 1 <= l2 < logs.len() implies self@.cursor_of(
                        (#[trigger] logs[l2]).peer_id@,
                    ).1 < logs[l2].log.max_log_size by {
                        if logs[l2].peer_id@ == pid {
                            assert(false);
                        }
                    }
                }
            }
            proof {
                lemma_spec_process_doc_snoc(c0, logs.take(l as int), logs[l as int], now);
                assert(logs.take(l + 1) =~= logs.take(l as int).push(logs[l as int]));
            }
            l = l + 1;
        }
        proof {
            assert(logs.take(logs.len() as int) =~= logs);
        }
    }

    /// A copy of the latency statistics, with `distinct_peers` set to the
    /// number of sources this consumer has observed.
    pub fn get_message_latency(&self) -> (r: LatencyStats)
        ensures
            r.num_events == self@.msg_latency.num_events,
            r.min_msec == self@.msg_latency.min_msec,
            r.max_msec == self@.msg_latency.max_msec,
            r.avg_msec == self@.msg_latency.avg_msec,
            r.distinct_peers == self@.cursors.len(),
    {
        let mut stats = self.msg_latency;
        stats.distinct_peers = self.cursors.len();
        stats
    }
}

/// Latency monotonicity: every record the consumer reads was produced at
/// or before the moment of observation, provided every record in the log
/// was.
pub proof fn lemma_consumed_records_ts_bounded(pl: PeerLog, ts: u64, i: u32, fuel: nat, now: u64)
    requires
        pl.wf(),
        i < pl.max_log_size,
        forall|s: int|
            0 <= s < pl.max_log_size ==> match #[trigger] pl.slot(s) {
                Some(r) => r.timestamp <= now,
                None => true,
            },
    ensures
        forall|k: int|
            0 <= k < consumed_records(pl, ts, i, fuel).len() ==> #[trigger] consumed_records(
                pl,
                ts,
                i,
                fuel,
            )[k].timestamp <= now,
    decreases fuel,
{
    let cs = consumed_records(pl, ts, i, fuel);
    if fuel > 0 {
        match pl.slot(i as int) {
            None => {},
            Some(r) => {
                if r.timestamp >= ts {
                    let i2 = spec_incr_wrap(i, (pl.max_log_size - 1) as u32);
                    let rest = consumed_records(pl, r.timestamp, i2, (fuel - 1) as nat);
                    lemma_consumed_records_ts_bounded(pl, r.timestamp, i2, (fuel - 1) as nat, now);
                    assert forall|k: int| 0 <= k < cs.len() implies #[trigger] cs[k].timestamp
                        <= now by {
                        if k > 0 {
                            assert(cs[k] == rest[k - 1]);
                        }
                    }
                }
            },
        }
    }
}

/// One wrap step is one unit step modulo the ring size.
proof fn lemma_advance_mod(i: u32, k: nat, max: u32)
    requires
        i < max,
    ensures
        advance(i, k, max) == ((i + k) % (max as int)) as u32,
    decreases k,
{
    vstd::arithmetic::div_mod::lemma_small_mod(i as nat, max as nat);
    if k > 0 {
        lemma_advance_mod(i, (k - 1) as nat, max);
        let prev = advance(i, (k - 1) as nat, max);
        let x = i + k - 1;
        vstd::arithmetic::div_mod::lemma_mod_self_0(max as int);
        vstd::arithmetic::div_mod::lemma_add_mod_noop(x, 1, max as int);
        if max == 1 {
            vstd::arithmetic::div_mod::lemma_small_mod(0, 1);
        } else {
            vstd::arithmetic::div_mod::lemma_small_mod(1, max as nat);
            if prev == max - 1 {
                vstd::arithmetic::div_mod::lemma_small_mod(0, max as nat);
            } else {
                vstd::arithmetic::div_mod::lemma_small_mod((prev + 1) as nat, max as nat);
            }
        }
    }
}

/// A full lap around the ring returns to the starting slot.
proof fn lemma_advance_full_lap(i: u32, max: u32)
    requires
        i < max,
    ensures
        advance(i, max as nat, max) == i,
{
    lemma_advance_mod(i, max as nat, max);
    vstd::arithmetic::div_mod::lemma_mod_self_0(max as int);
    vstd::arithmetic::div_mod::lemma_add_mod_noop(i as int, max as int, max as int);
    vstd::arithmetic::div_mod::lemma_small_mod(i as nat, max as nat);
}

/// What one consuming pass reads: record `k` comes from slot
/// `advance(i, k)`, timestamps never decrease along the pass, and if the
/// pass stopped before its fuel ran out the slot it stopped at is empty or
/// older than the last record seen.
proof fn lemma_consumed_records_shape(pl: PeerLog, ts: u64, i: u32, fuel: nat)
    requires
        pl.wf(),
        i < pl.max_log_size,
    ensures
        ({
            let cs = consumed_records(pl, ts, i, fuel);
            let end_ts = if cs.len() > 0 {
                cs.last().timestamp
            } else {
                ts
            };
            &&& forall|k: int|
                0 <= k < cs.len() ==> pl.slot(advance(i, k as nat, pl.max_log_size) as int)
                    == Some(#[trigger] cs[k])
            &&& forall|k: int| 0 <= k < cs.len() ==> ts <= #[trigger] cs[k].timestamp
            &&& cs.len() <= fuel
            &&& forall|k1: int, k2: int|
                0 <= k1 <= k2 < cs.len() ==> #[trigger] cs[k1].timestamp <= #[trigger] cs[k2].timestamp
            &&& cs.len() < fuel ==> match pl.slot(
                advance(i, cs.len(), pl.max_log_size) as int,
            ) {
                Some(r) => r.timestamp < end_ts,
                None => true,
            }
        }),
    decreases fuel,
{
    let max = pl.max_log_size;
    let cs = consumed_records(pl, ts, i, fuel);
    if fuel > 0 {
        match pl.slot(i as int) {
            None => {},
            Some(r) => {
                if r.timestamp >= ts {
                    let i2 = spec_incr_wrap(i, (max - 1) as u32);
                    let rest = consumed_records(pl, r.timestamp, i2, (fuel - 1) as nat);
                    lemma_consumed_records_shape(pl, r.timestamp, i2, (fuel - 1) as nat);
                    assert(cs[0] == r);
                    assert(advance(i, 0, max) == i);
                    assert forall|k: int|
                        1 <= k < cs.len() implies #[trigger] advance(i, k as nat, max) == advance(
                        i2,
                        (k - 1) as nat,
                        max,
                    ) by {
                        lemma_advance_shift(i, k as nat, max);
                    }
                    assert forall|k: int|
                        0 <= k < cs.len() implies pl.slot(advance(i, k as nat, max) as int)
                        == Some(#[trigger] cs[k]) by {
                        if k > 0 {
                            assert(cs[k] == rest[k - 1]);
                        }
                    }
                    assert forall|k: int| 0 <= k < cs.len() implies ts <= #[trigger] cs[k].timestamp by {
                        if k > 0 {
                            assert(cs[k] == rest[k - 1]);
                            assert(r.timestamp <= rest[k - 1].timestamp);
                        }
                    }
                    assert forall|k1: int, k2: int|
                        0 <= k1 <= k2 < cs.len() implies #[trigger] cs[k1].timestamp
                        <= #[trigger] cs[k2].timestamp by {
                        if k1 > 0 {
                            assert(cs[k1] == rest[k1 - 1]);
                            assert(cs[k2] == rest[k2 - 1]);
                        } else if k2 > 0 {
                            assert(cs[k2] == rest[k2 - 1]);
                            assert(r.timestamp <= rest[k2 - 1].timestamp);
                        }
                    }
                    if cs.len() < fuel {
                        assert(rest.len() < fuel - 1);
                        lemma_advance_shift(i, cs.len(), max);
                        assert(cs.last() == (if rest.len() > 0 {
                            rest.last()
                        } else {
                            r
                        }));
                    }
                }
            },
        }
    }
}

/// Stepping `k` times from `i` is stepping `k - 1` times from `i`'s
/// successor.
proof fn lemma_advance_shift(i: u32, k: nat, max: u32)
    requires
        k >= 1,
        max >= 1,
    ensures
        advance(i, k, max) == advance(spec_incr_wrap(i, (max - 1) as u32), (k - 1) as nat, max),
    decreases k,
{
    let i2 = spec_incr_wrap(i, (max - 1) as u32);
    if k == 1 {
        assert(advance(i, 1, max) == spec_incr_wrap(advance(i, 0, max), (max - 1) as u32));
        assert(advance(i, 0, max) == i);
        assert(advance(i2, 0, max) == i2);
    } else {
        lemma_advance_shift(i, (k - 1) as nat, max);
        assert(advance(i, k, max) == spec_incr_wrap(advance(i, (k - 1) as nat, max), (max - 1) as u32));
        assert(advance(i2, (k - 1) as nat, max) == spec_incr_wrap(
            advance(i2, (k - 2) as nat, max),
            (max - 1) as u32,
        ));
    }
}

/// Idempotence: consuming the same snapshot a second time records no new
/// events and leaves the cursor and statistics exactly where the first
/// pass left them. Holds when no two slots of the snapshot carry the same
/// timestamp, as a producer with strictly monotonic timestamps guarantees.
pub proof fn lemma_process_peer_idempotent(c: ConsumerV, id: Seq<char>, pl: PeerLog, now: u64)
    requires
        c.wf(),
        pl.wf(),
        2 <= pl.max_log_size,
        c.cursor_of(id).1 < pl.max_log_size,
        forall|s1: int, s2: int|
            0 <= s1 < s2 < pl.max_log_size && pl.slot(s1) is Some && pl.slot(s2) is Some
                ==> (#[trigger] pl.slot(s1))->0.timestamp != (#[trigger] pl.slot(s2))->0.timestamp,
    ensures
        spec_process_peer(spec_process_peer(c, id, pl, now), id, pl, now) == spec_process_peer(
            c,
            id,
            pl,
            now,
        ),
{
    let max = pl.max_log_size;
    let ts0 = c.cursor_of(id).0;
    let i0 = c.cursor_of(id).1;
    let cs = consumed_records(pl, ts0, i0, max as nat);
    let ts1 = if cs.len() > 0 {
        cs.last().timestamp
    } else {
        ts0
    };
    let i1 = advance(i0, cs.len(), max);
    let c1 = spec_process_peer(c, id, pl, now);
    lemma_upsert_cursor(c.cursors, id, ts1, i1);
    assert(c1.cursor_of(id) == (ts1, i1));
    lemma_consumed_records_shape(pl, ts0, i0, max as nat);
    lemma_advance_bound(i0, cs.len(), max);
    let cs2 = consumed_records(pl, ts1, i1, max as nat);
    if cs.len() < max {
        // the first pass stopped at slot i1, and that slot still stops it
        match pl.slot(i1 as int) {
            None => {
                assert(cs2 =~= Seq::<PeerRecordV>::empty());
            },
            Some(r) => {
                assert(r.timestamp < ts1);
                assert(cs2 =~= Seq::<PeerRecordV>::empty());
            },
        }
    } else {
        // the first pass went a full lap: the slot after it is the first
        // one it consumed, strictly older than the last
        lemma_advance_full_lap(i0, max);
        assert(i1 == i0);
        let c_first = cs[0];
        assert(advance(i0, 0, max) == i0);
        assert(pl.slot(i0 as int) == Some(c_first));
        let clast = cs[max - 1];
        let ilast = advance(i0, (max - 1) as nat, max);
        assert(pl.slot(ilast as int) == Some(clast));
        lemma_advance_mod(i0, (max - 1) as nat, max);
        vstd::arithmetic::div_mod::lemma_small_mod(i0 as nat, max as nat);
        if ilast == i0 {
            vstd::arithmetic::div_mod::lemma_add_mod_noop(i0 as int, (max - 1) as int, max as int);
            vstd::arithmetic::div_mod::lemma_small_mod((max - 1) as nat, max as nat);
            assert((i0 + max - 1) % (max as int) == i0);
            vstd::arithmetic::div_mod::lemma_fundamental_div_mod_converse(
                i0 + max - 1,
                max as int,
                1,
                i0 - 1,
            );
            assert(false);
        }
        assert(cs[0].timestamp != cs[max - 1].timestamp) by {
            if i0 < ilast {
                assert(pl.slot(i0 as int) is Some && pl.slot(ilast as int) is Some);
            } else {
                assert(pl.slot(ilast as int) is Some && pl.slot(i0 as int) is Some);
            }
        }
        assert(cs[0].timestamp <= cs[max - 1].timestamp);
        assert(cs[0].timestamp < ts1);
        assert(cs2 =~= Seq::<PeerRecordV>::empty());
    }
    let c2 = spec_process_peer(c1, id, pl, now);
    assert(c2.msg_latency == c1.msg_latency && c2.msg_latency_total == c1.msg_latency_total);
    assert(advance(i1, 0, max) == i1);
    // re-recording the same cursor value changes nothing
    assert(c1.has_cursor(id));
    let k = c1.cursor_index(id);
    assert(c1.cursors[k].id == id);
    assert(c1.cursors[k] == (CursorV { id, ts: ts1, idx: i1 }));
    assert(c2.cursors == c1.cursors.update(k, CursorV { id, ts: ts1, idx: i1 }));
    assert(c2.cursors =~= c1.cursors);
    assert(c2 == c1);
}

} // verus!
