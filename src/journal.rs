//! The append-only journal: its records, how replaying them rebuilds the
//! mailboxes, and what a compacted journal replays to.
use vstd::prelude::*;
use crate::mailbox::{
    Boxes, Entry, Envelope, MailboxStore, enqueue_spec, drain_spec, mailbox_of, live_boxes, equivalent,
    live, lemma_live_keeps_live, lemma_live_is_live,
};

verus! {

/// One line of the journal. Expiries are absolute, in milliseconds since the Unix epoch.
#[derive(Debug, Clone, PartialEq, Eq)]
pub enum LogRecord {
    Put { to_id: String, cipher_blob: String, expires_ms: u128 },
    Drain { to_id: String },
}

/// A journal record as a mathematical value.
pub enum RecordView {
    Put { to_id: Seq<char>, payload: Seq<char>, expires_ms: u128 },
    Drain { to_id: Seq<char> },
}

impl View for LogRecord {
    type V = RecordView;

    open spec fn view(&self) -> RecordView {
        match self {
            LogRecord::Put { to_id, cipher_blob, expires_ms } => RecordView::Put {
                to_id: to_id@,
                payload: cipher_blob@,
                expires_ms: *expires_ms,
            },
            LogRecord::Drain { to_id } => RecordView::Drain { to_id: to_id@ },
        }
    }
}

pub open spec fn views(recs: Seq<LogRecord>) -> Seq<RecordView> {
    recs.map_values(|r: LogRecord| r@)
}

/// The monotonic deadline of an absolute expiry read at `(now_mono, now_epoch)`,
/// capped at the largest instant.
pub open spec fn rebase_spec(expires_ms: u128, now_mono: u64, now_epoch: u128) -> u64 {
    let d = now_mono as int + (expires_ms - now_epoch);
    if d > u64::MAX {
        u64::MAX
    } else {
        d as u64
    }
}

/// The absolute expiry that a compaction at `(now_mono, now_epoch)` writes for a
/// live deadline.
pub open spec fn absolute_spec(expires_at: u64, now_mono: u64, now_epoch: u128) -> int {
    now_epoch + (expires_at - now_mono)
}

/// The effect of one record on the mailboxes, replayed at `(now_mono, now_epoch)`.
pub open spec fn apply_spec(m: Boxes, rec: RecordView, now_mono: u64, now_epoch: u128) -> Boxes {
    match rec {
        RecordView::Put { to_id, payload, expires_ms } => if expires_ms > now_epoch {
            enqueue_spec(
                m,
                to_id,
                Entry { payload, expires_at: rebase_spec(expires_ms, now_mono, now_epoch) },
            )
        } else {
            m
        },
        RecordView::Drain { to_id } => drain_spec(m, to_id),
    }
}

/// The mailboxes that replaying records in order, from none, rebuilds.
pub open spec fn replay_spec(recs: Seq<RecordView>, now_mono: u64, now_epoch: u128) -> Boxes
    decreases recs.len(),
{
    if recs.len() == 0 {
        Map::empty()
    } else {
        apply_spec(replay_spec(recs.drop_last(), now_mono, now_epoch), recs.last(), now_mono, now_epoch)
    }
}

/// The deposits to `k` among `recs`, in order.
pub open spec fn puts_to(recs: Seq<RecordView>, k: Seq<char>) -> Seq<RecordView>
    decreases recs.len(),
{
    if recs.len() == 0 {
        Seq::empty()
    } else {
        let rest = puts_to(recs.drop_last(), k);
        match recs.last() {
            RecordView::Put { to_id, .. } => if to_id == k {
                rest.push(recs.last())
            } else {
                rest
            },
            RecordView::Drain { .. } => rest,
        }
    }
}

/// The deposit records that a compaction at `(now_mono, now_epoch)` writes for
/// the entries `q` of recipient `k`: one per entry, in order, each expiring
/// `expires_at - now_mono` milliseconds after `now_epoch`.
pub open spec fn as_puts(k: Seq<char>, q: Seq<Entry>, now_mono: u64, now_epoch: u128) -> Seq<RecordView> {
    q.map_values(
        |e: Entry|
            RecordView::Put {
                to_id: k,
                payload: e.payload,
                expires_ms: (now_epoch + (e.expires_at - now_mono)) as u128,
            },
    )
}

/// Whether a record is a deposit.
pub open spec fn is_put(r: RecordView) -> bool {
    r is Put
}

/// The entries that the deposits to `r` among `recs` leave when replayed at
/// `(now_mono, now_epoch)`: those not yet expired, in order, with rebased deadlines.
pub open spec fn rebased_puts(recs: Seq<RecordView>, r: Seq<char>, now_mono: u64, now_epoch: u128) -> Seq<Entry>
    decreases recs.len(),
{
    if recs.len() == 0 {
        Seq::empty()
    } else {
        let rest = rebased_puts(recs.drop_last(), r, now_mono, now_epoch);
        match recs.last() {
            RecordView::Put { to_id, payload, expires_ms } => if to_id == r && expires_ms > now_epoch {
                rest.push(Entry { payload, expires_at: rebase_spec(expires_ms, now_mono, now_epoch) })
            } else {
                rest
            },
            RecordView::Drain { .. } => rest,
        }
    }
}

/// Replaying a journal of deposits only rebuilds, for every recipient, exactly
/// the deposits to it that have not expired, in journal order, each with its
/// absolute expiry moved onto the monotonic clock.
pub proof fn lemma_replay_puts(recs: Seq<RecordView>, now_mono: u64, now_epoch: u128)
    requires
        forall|i: int| 0 <= i < recs.len() ==> is_put(#[trigger] recs[i]),
    ensures
        forall|r: Seq<char>|
            #[trigger] mailbox_of(replay_spec(recs, now_mono, now_epoch), r) == rebased_puts(
                recs,
                r,
                now_mono,
                now_epoch,
            ),
    decreases recs.len(),
{
    if recs.len() > 0 {
        let p = recs.drop_last();
        assert forall|i: int| 0 <= i < p.len() implies is_put(#[trigger] p[i]) by {
            assert(p[i] == recs[i]);
        }
        lemma_replay_puts(p, now_mono, now_epoch);
        assert(is_put(recs[recs.len() - 1]));
        let m = replay_spec(p, now_mono, now_epoch);
        assert forall|r: Seq<char>| #[trigger] mailbox_of(replay_spec(recs, now_mono, now_epoch), r)
            == rebased_puts(recs, r, now_mono, now_epoch) by {
            assert(mailbox_of(m, r) == rebased_puts(p, r, now_mono, now_epoch));
            match recs.last() {
                RecordView::Put { to_id, payload, expires_ms } => {
                    if expires_ms > now_epoch && to_id != r {
                        let ent = Entry { payload, expires_at: rebase_spec(expires_ms, now_mono, now_epoch) };
                        assert(mailbox_of(enqueue_spec(m, to_id, ent), r) == mailbox_of(m, r));
                    }
                },
                RecordView::Drain { .. } => {},
            }
        }
    } else {
        assert forall|r: Seq<char>| #[trigger] mailbox_of(replay_spec(recs, now_mono, now_epoch), r)
            == rebased_puts(recs, r, now_mono, now_epoch) by {
            assert(mailbox_of(Map::empty(), r) =~= Seq::<Entry>::empty());
        }
    }
}

proof fn lemma_live_twice(q: Seq<Entry>, now: u64)
    ensures
        live(live(q, now), now) == live(q, now),
{
    lemma_live_is_live(q, now);
    lemma_live_keeps_live(live(q, now), now);
}

proof fn lemma_live_boxes_at(m: Boxes, now: u64, k: Seq<char>)
    ensures
        mailbox_of(live_boxes(m, now), k) == live(mailbox_of(m, k), now),
{
    if !m.contains_key(k) {
        assert(live(Seq::<Entry>::empty(), now) =~= Seq::<Entry>::empty());
    }
}

/// Compacting is idempotent: a journal written by a compaction at
/// `(now_mono, now_epoch)` of the mailboxes rebuilt from an earlier compacted
/// journal replays, at that reading, to the same mailboxes as the earlier one.
pub proof fn lemma_compaction_idempotent(
    m: Boxes,
    first: Seq<RecordView>,
    second: Seq<RecordView>,
    now_mono: u64,
    now_epoch: u128,
)
    requires
        equivalent(replay_spec(first, now_mono, now_epoch), live_boxes(m, now_mono)),
        equivalent(
            replay_spec(second, now_mono, now_epoch),
            live_boxes(replay_spec(first, now_mono, now_epoch), now_mono),
        ),
    ensures
        equivalent(replay_spec(second, now_mono, now_epoch), replay_spec(first, now_mono, now_epoch)),
{
    let r1 = replay_spec(first, now_mono, now_epoch);
    let r2 = replay_spec(second, now_mono, now_epoch);
    assert forall|k: Seq<char>| #[trigger] mailbox_of(r2, k) == mailbox_of(r1, k) by {
        lemma_live_boxes_at(m, now_mono, k);
        lemma_live_boxes_at(r1, now_mono, k);
        assert(mailbox_of(r2, k) == mailbox_of(live_boxes(r1, now_mono), k));
        assert(mailbox_of(r1, k) == mailbox_of(live_boxes(m, now_mono), k));
        lemma_live_twice(mailbox_of(m, k), now_mono);
    }
}

/// Where it fits on the monotonic clock, a replayed deposit's deadline is the
/// replay reading plus exactly the wall-clock time its expiry leaves.
pub proof fn lemma_rebase_exact(expires_ms: u128, now_mono: u64, now_epoch: u128)
    requires
        expires_ms > now_epoch,
        now_mono + (expires_ms - now_epoch) <= u64::MAX,
    ensures
        rebase_spec(expires_ms, now_mono, now_epoch) == now_mono + (expires_ms - now_epoch),
{
}

proof fn lemma_rebased_only_own(recs: Seq<RecordView>, k: Seq<char>, now_mono: u64, now_epoch: u128)
    ensures
        rebased_puts(recs, k, now_mono, now_epoch) == rebased_puts(puts_to(recs, k), k, now_mono, now_epoch),
    decreases recs.len(),
{
    if recs.len() > 0 {
        lemma_rebased_only_own(recs.drop_last(), k, now_mono, now_epoch);
        let p = puts_to(recs.drop_last(), k);
        match recs.last() {
            RecordView::Put { to_id, .. } => {
                if to_id == k {
                    assert(p.push(recs.last()).drop_last() =~= p);
                }
            },
            RecordView::Drain { .. } => {},
        }
    }
}

proof fn lemma_compacted_rebased(
    k: Seq<char>,
    q: Seq<Entry>,
    t1: u64,
    e1: u128,
    t2: u64,
    e2: u128,
    now_mono: u64,
    now_epoch: u128,
)
    requires
        t1 <= t2,
        e2 - e1 == t2 - t1,
        e2 + u64::MAX <= u128::MAX,
        now_epoch >= e2,
    ensures
        rebased_puts(as_puts(k, live(q, t1), t1, e1), k, now_mono, now_epoch) == rebased_puts(
            as_puts(k, live(q, t2), t2, e2),
            k,
            now_mono,
            now_epoch,
        ),
    decreases q.len(),
{
    if q.len() > 0 {
        let x = q.last();
        let q0 = q.drop_last();
        lemma_compacted_rebased(k, q0, t1, e1, t2, e2, now_mono, now_epoch);
        let l1 = live(q0, t1);
        let l2 = live(q0, t2);
        let a1 = as_puts(k, l1, t1, e1);
        let a2 = as_puts(k, l2, t2, e2);
        if x.expires_at > t1 {
            assert(as_puts(k, l1.push(x), t1, e1) =~= a1.push(
                RecordView::Put { to_id: k, payload: x.payload, expires_ms: (e1 + (x.expires_at - t1)) as u128 },
            ));
            assert(a1.push(
                RecordView::Put { to_id: k, payload: x.payload, expires_ms: (e1 + (x.expires_at - t1)) as u128 },
            ).drop_last() =~= a1);
        }
        if x.expires_at > t2 {
            assert(as_puts(k, l2.push(x), t2, e2) =~= a2.push(
                RecordView::Put { to_id: k, payload: x.payload, expires_ms: (e2 + (x.expires_at - t2)) as u128 },
            ));
            assert(a2.push(
                RecordView::Put { to_id: k, payload: x.payload, expires_ms: (e2 + (x.expires_at - t2)) as u128 },
            ).drop_last() =~= a2);
        }
    } else {
        assert(as_puts(k, Seq::empty(), t1, e1) =~= Seq::<RecordView>::empty());
        assert(as_puts(k, Seq::empty(), t2, e2) =~= Seq::<RecordView>::empty());
    }
}

/// Two compactions of the same mailboxes with no change in between, at
/// readings `(t1, e1)` and `(t2, e2)` of clocks that advance together, write
/// journals that replay to the same mailboxes at any later reading.
pub proof fn lemma_compactions_agree(
    m: Boxes,
    first: Seq<RecordView>,
    second: Seq<RecordView>,
    t1: u64,
    e1: u128,
    t2: u64,
    e2: u128,
    now_mono: u64,
    now_epoch: u128,
)
    requires
        forall|i: int| 0 <= i < first.len() ==> is_put(#[trigger] first[i]),
        forall|i: int| 0 <= i < second.len() ==> is_put(#[trigger] second[i]),
        forall|k: Seq<char>| #[trigger] puts_to(first, k) == as_puts(k, live(mailbox_of(m, k), t1), t1, e1),
        forall|k: Seq<char>| #[trigger] puts_to(second, k) == as_puts(k, live(mailbox_of(m, k), t2), t2, e2),
        t1 <= t2,
        e2 - e1 == t2 - t1,
        e2 + u64::MAX <= u128::MAX,
        now_epoch >= e2,
    ensures
        equivalent(replay_spec(first, now_mono, now_epoch), replay_spec(second, now_mono, now_epoch)),
{
    lemma_replay_puts(first, now_mono, now_epoch);
    lemma_replay_puts(second, now_mono, now_epoch);
    assert forall|k: Seq<char>| #[trigger] mailbox_of(replay_spec(first, now_mono, now_epoch), k)
        == mailbox_of(replay_spec(second, now_mono, now_epoch), k) by {
        lemma_rebased_only_own(first, k, now_mono, now_epoch);
        lemma_rebased_only_own(second, k, now_mono, now_epoch);
        assert(puts_to(first, k) == as_puts(k, live(mailbox_of(m, k), t1), t1, e1));
        assert(puts_to(second, k) == as_puts(k, live(mailbox_of(m, k), t2), t2, e2));
        lemma_compacted_rebased(k, mailbox_of(m, k), t1, e1, t2, e2, now_mono, now_epoch);
    }
}

fn rebase(expires_ms: u128, now_mono: u64, now_epoch: u128) -> (r: u64)
    requires
        expires_ms > now_epoch,
    ensures
        r == rebase_spec(expires_ms, now_mono, now_epoch),
{
    let delta: u128 = expires_ms - now_epoch;
    let room: u64 = u64::MAX - now_mono;
    if delta > room as u128 {
        u64::MAX
    } else {
        now_mono + delta as u64
    }
}

/// Rebuilds the mailboxes from journal records read at `(now_mono, now_epoch)`:
/// a deposit whose expiry has passed is skipped, a live one is queued with its
/// deadline moved onto the monotonic clock, and a drain empties the mailbox.
pub fn replay(records: &Vec<LogRecord>, now_mono: u64, now_epoch: u128) -> (s: MailboxStore)
    ensures
        s.wf(),
        s@ == replay_spec(views(records@), now_mono, now_epoch),
{
    let mut s = MailboxStore::new();
    let mut i: usize = 0;
    while i < records.len()
        invariant
            i <= records@.len(),
            s.wf(),
            s@ == replay_spec(views(records@.take(i as int)), now_mono, now_epoch),
        decreases records@.len() - i,
    {
        proof {
            let t = views(records@.take(i as int + 1));
            assert(t.drop_last() =~= views(records@.take(i as int)));
            assert(t.last() == records@[i as int]@);
        }
        match &records[i] {
            LogRecord::Put { to_id, cipher_blob, expires_ms } => {
                if *expires_ms > now_epoch {
                    let d = rebase(*expires_ms, now_mono, now_epoch);
                    s.insert(to_id.clone(), Envelope { cipher_blob: cipher_blob.clone(), expires_at: d });
                }
            },
            LogRecord::Drain { to_id } => {
                s.remove(to_id);
            },
        }
        i = i + 1;
    }
    assert(records@.take(i as int) =~= records@);
    s
}

} // verus!
