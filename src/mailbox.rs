//! The live store of per-recipient FIFO mailboxes.
use vstd::prelude::*;
use vstd::set::fold::{is_fun_commutative, lemma_fold_empty, lemma_fold_insert};
use crate::journal::{LogRecord, RecordView, replay_spec, views, is_put, rebase_spec, puts_to, as_puts};

verus! {

/// What an envelope holds, as a mathematical value.
pub struct Entry {
    pub payload: Seq<char>,
    pub expires_at: u64,
}

/// An opaque payload (kept in its transport encoding) with the instant, on the
/// monotonic millisecond clock, after which it is gone.
pub struct Envelope {
    pub cipher_blob: String,
    pub expires_at: u64,
}

impl View for Envelope {
    type V = Entry;

    open spec fn view(&self) -> Entry {
        Entry { payload: self.cipher_blob@, expires_at: self.expires_at }
    }
}

/// The mailboxes of a store, keyed by recipient.
pub type Boxes = Map<Seq<char>, Seq<Entry>>;

pub open spec fn entries(q: Seq<Envelope>) -> Seq<Entry> {
    q.map_values(|e: Envelope| e@)
}

pub open spec fn texts(v: Seq<String>) -> Seq<Seq<char>> {
    v.map_values(|s: String| s@)
}

/// A recipient's mailbox; an absent one is empty.
pub open spec fn mailbox_of(m: Boxes, r: Seq<char>) -> Seq<Entry> {
    if m.contains_key(r) {
        m[r]
    } else {
        Seq::empty()
    }
}

pub open spec fn is_live(e: Entry, now: u64) -> bool {
    e.expires_at > now
}

/// The entries of a queue whose deadline lies after `now`, in queue order.
pub open spec fn live(q: Seq<Entry>, now: u64) -> Seq<Entry>
    decreases q.len(),
{
    if q.len() == 0 {
        Seq::empty()
    } else if is_live(q.last(), now) {
        live(q.drop_last(), now).push(q.last())
    } else {
        live(q.drop_last(), now)
    }
}

pub open spec fn payloads(q: Seq<Entry>) -> Seq<Seq<char>> {
    q.map_values(|e: Entry| e.payload)
}

/// Appending an entry at the tail of a recipient's mailbox.
pub open spec fn enqueue_spec(m: Boxes, r: Seq<char>, e: Entry) -> Boxes {
    m.insert(r, mailbox_of(m, r).push(e))
}

/// Emptying a recipient's mailbox.
pub open spec fn drain_spec(m: Boxes, r: Seq<char>) -> Boxes {
    m.remove(r)
}

/// Dropping every expired entry from every mailbox, and every mailbox left empty.
pub open spec fn sweep_spec(m: Boxes, now: u64) -> Boxes {
    Map::new(|k: Seq<char>| m.contains_key(k) && live(m[k], now).len() > 0, |k: Seq<char>| live(m[k], now))
}

/// Two stores hold the same mailboxes, treating an absent mailbox as empty.
pub open spec fn equivalent(a: Boxes, b: Boxes) -> bool {
    forall|k: Seq<char>| #[trigger] mailbox_of(a, k) == mailbox_of(b, k)
}

/// The live part of every mailbox.
pub open spec fn live_boxes(m: Boxes, now: u64) -> Boxes {
    sweep_spec(m, now)
}

fn live_payloads(q: &Vec<Envelope>, now: u64) -> (r: Vec<String>)
    ensures
        texts(r@) == payloads(live(entries(q@), now)),
{
    let mut out: Vec<String> = Vec::new();
    let mut j: usize = 0;
    while j < q.len()
        invariant
            j <= q@.len(),
            texts(out@) == payloads(live(entries(q@).take(j as int), now)),
        decreases q@.len() - j,
    {
        let ghost before = out@;
        proof {
            let t = entries(q@).take(j as int + 1);
            assert(t.drop_last() =~= entries(q@).take(j as int));
            assert(t.last() == q@[j as int]@);
        }
        if q[j].expires_at > now {
            out.push(q[j].cipher_blob.clone());
            proof {
                let l = live(entries(q@).take(j as int), now);
                assert(texts(out@) =~= texts(before).push(q@[j as int].cipher_blob@));
                assert(payloads(l.push(q@[j as int]@)) =~= payloads(l).push(q@[j as int].cipher_blob@));
            }
        }
        j = j + 1;
    }
    assert(entries(q@).take(j as int) =~= entries(q@));
    out
}

fn live_envelopes(q: &Vec<Envelope>, now: u64) -> (r: Vec<Envelope>)
    ensures
        entries(r@) == live(entries(q@), now),
{
    let mut out: Vec<Envelope> = Vec::new();
    let mut j: usize = 0;
    while j < q.len()
        invariant
            j <= q@.len(),
            entries(out@) == live(entries(q@).take(j as int), now),
        decreases q@.len() - j,
    {
        let ghost before = out@;
        proof {
            let t = entries(q@).take(j as int + 1);
            assert(t.drop_last() =~= entries(q@).take(j as int));
            assert(t.last() == q@[j as int]@);
        }
        if q[j].expires_at > now {
            out.push(Envelope { cipher_blob: q[j].cipher_blob.clone(), expires_at: q[j].expires_at });
            proof {
                assert(entries(out@) =~= entries(before).push(q@[j as int]@));
            }
        }
        j = j + 1;
    }
    assert(entries(q@).take(j as int) =~= entries(q@));
    out
}

/// Adds a mailbox's length to a running count.
pub open spec fn add_len(m: Boxes) -> spec_fn(int, Seq<char>) -> int {
    |acc: int, k: Seq<char>| acc + mailbox_of(m, k).len()
}

/// The number of entries over all mailboxes.
pub open spec fn total_entries(m: Boxes) -> int {
    m.dom().fold(0int, add_len(m))
}

/// Deposits to one recipient, in order.
pub open spec fn enqueue_all(m: Boxes, r: Seq<char>, es: Seq<Entry>) -> Boxes
    decreases es.len(),
{
    if es.len() == 0 {
        m
    } else {
        enqueue_spec(enqueue_all(m, r, es.drop_last()), r, es.last())
    }
}

proof fn lemma_mailbox_after_enqueues(m: Boxes, r: Seq<char>, es: Seq<Entry>)
    ensures
        mailbox_of(enqueue_all(m, r, es), r) == mailbox_of(m, r) + es,
    decreases es.len(),
{
    if es.len() == 0 {
        assert(mailbox_of(m, r) + es =~= mailbox_of(m, r));
    } else {
        lemma_mailbox_after_enqueues(m, r, es.drop_last());
        assert(mailbox_of(m, r) + es.drop_last() + seq![es.last()] =~= mailbox_of(m, r) + es);
        assert((mailbox_of(m, r) + es.drop_last()).push(es.last()) =~= mailbox_of(m, r) + es);
    }
}

pub proof fn lemma_live_keeps_live(q: Seq<Entry>, now: u64)
    requires
        forall|i: int| 0 <= i < q.len() ==> is_live(#[trigger] q[i], now),
    ensures
        live(q, now) == q,
    decreases q.len(),
{
    if q.len() > 0 {
        lemma_live_keeps_live(q.drop_last(), now);
        assert(q.drop_last().push(q.last()) =~= q);
    }
}

pub proof fn lemma_live_is_live(q: Seq<Entry>, now: u64)
    ensures
        forall|i: int| 0 <= i < live(q, now).len() ==> is_live(#[trigger] live(q, now)[i], now),
    decreases q.len(),
{
    if q.len() > 0 {
        lemma_live_is_live(q.drop_last(), now);
        let l = live(q.drop_last(), now);
        if is_live(q.last(), now) {
            assert forall|i: int| 0 <= i < l.push(q.last()).len() implies is_live(
                #[trigger] l.push(q.last())[i],
                now,
            ) by {
                if i < l.len() {
                    assert(l.push(q.last())[i] == l[i]);
                }
            }
        }
    }
}

/// After deposits to a recipient whose mailbox was empty, a drain made before
/// any of them expires returns exactly their payloads in deposit order, and
/// the mailbox is empty afterwards.
pub proof fn lemma_put_then_get(m: Boxes, r: Seq<char>, es: Seq<Entry>, now: u64)
    requires
        mailbox_of(m, r).len() == 0,
        forall|i: int| 0 <= i < es.len() ==> (#[trigger] es[i]).expires_at > now,
    ensures
        payloads(live(mailbox_of(enqueue_all(m, r, es), r), now)) == payloads(es),
        mailbox_of(drain_spec(enqueue_all(m, r, es), r), r).len() == 0,
{
    lemma_mailbox_after_enqueues(m, r, es);
    assert(mailbox_of(m, r) + es =~= es);
    lemma_live_keeps_live(es, now);
}

/// No drain ever hands over an expired entry, and after a sweep at `now` no
/// mailbox holds one.
pub proof fn lemma_expired_never_returned(m: Boxes, r: Seq<char>, now: u64)
    ensures
        forall|e: Entry| #[trigger] live(mailbox_of(m, r), now).contains(e) ==> e.expires_at > now,
        forall|k: Seq<char>, e: Entry|
            #[trigger] mailbox_of(sweep_spec(m, now), k).contains(e) ==> e.expires_at > now,
{
    lemma_live_is_live(mailbox_of(m, r), now);
    assert forall|k: Seq<char>, e: Entry|
        #[trigger] mailbox_of(sweep_spec(m, now), k).contains(e) implies e.expires_at > now by {
        lemma_live_is_live(mailbox_of(m, k), now);
    }
}

/// One recipient's queue.
pub struct Mailbox {
    pub to_id: String,
    pub queue: Vec<Envelope>,
}

/// All mailboxes, one per recipient.
pub struct MailboxStore {
    boxes: Vec<Mailbox>,
    contents: Ghost<Boxes>,
}

impl View for MailboxStore {
    type V = Boxes;

    closed spec fn view(&self) -> Boxes {
        self.contents@
    }
}

impl MailboxStore {
    /// The boxes hold distinct recipients and agree with the abstract mailboxes.
    pub closed spec fn wf(&self) -> bool {
        &&& forall|i: int, j: int|
            0 <= i < j < self.boxes@.len() ==> self.boxes@[i].to_id@ != self.boxes@[j].to_id@
        &&& forall|i: int|
            0 <= i < self.boxes@.len() ==> {
                &&& #[trigger] self.contents@.contains_key(self.boxes@[i].to_id@)
                &&& self.contents@[self.boxes@[i].to_id@] == entries(self.boxes@[i].queue@)
            }
        &&& forall|k: Seq<char>|
            #[trigger] self.contents@.contains_key(k) ==> exists|i: int|
                0 <= i < self.boxes@.len() && self.boxes@[i].to_id@ == k
        &&& forall|i: int| 0 <= i < self.boxes@.len() ==> (#[trigger] self.boxes@[i]).queue@.len() > 0
    }

    /// Every mailbox that a store holds has at least one entry.
    pub proof fn lemma_no_empty_mailbox(&self)
        requires
            self.wf(),
        ensures
            forall|k: Seq<char>| #[trigger] self@.contains_key(k) ==> self@[k].len() > 0,
    {
        assert forall|k: Seq<char>| #[trigger] self@.contains_key(k) implies self@[k].len() > 0 by {
            let i = choose|i: int| 0 <= i < self.boxes@.len() && self.boxes@[i].to_id@ == k;
            assert(self.boxes@[i].queue@.len() > 0);
        }
    }

    /// Adds the mailbox of a recipient that has none.
    fn push_box(&mut self, to_id: String, queue: Vec<Envelope>)
        requires
            old(self).wf(),
            !old(self)@.contains_key(to_id@),
            queue@.len() > 0,
        ensures
            final(self).wf(),
            final(self)@ == old(self)@.insert(to_id@, entries(queue@)),
    {
        let ghost m = self.contents@;
        let ghost ob = self.boxes@;
        let ghost k0 = to_id@;
        let ghost q = entries(queue@);
        self.boxes.push(Mailbox { to_id, queue });
        self.contents = Ghost(m.insert(k0, q));
        proof {
            let bx = self.boxes@;
            let n = ob.len() as int;
            assert(bx[n].to_id@ == k0);
            assert forall|k: Seq<char>| #[trigger] self.contents@.contains_key(k) implies exists|i: int|
                0 <= i < bx.len() && bx[i].to_id@ == k by {
                if k != k0 {
                    let a = choose|a: int| 0 <= a < ob.len() && ob[a].to_id@ == k;
                    assert(bx[a].to_id@ == k);
                }
            }
            assert forall|i: int| 0 <= i < bx.len() implies {
                &&& #[trigger] self.contents@.contains_key(bx[i].to_id@)
                &&& self.contents@[bx[i].to_id@] == entries(bx[i].queue@)
            } by {
                if i < n {
                    assert(ob[i] == bx[i]);
                    assert(m.contains_key(ob[i].to_id@));
                }
            }
            assert forall|i: int, j: int| 0 <= i < j < bx.len() implies bx[i].to_id@ != bx[j].to_id@ by {
                if j < n {
                    assert(ob[i].to_id@ != ob[j].to_id@);
                } else {
                    assert(m.contains_key(ob[i].to_id@));
                }
            }
            assert forall|i: int| 0 <= i < bx.len() implies (#[trigger] bx[i]).queue@.len() > 0 by {
                if i < n {
                    assert(ob[i] == bx[i]);
                }
            }
        }
    }

    /// An empty store.
    pub fn new() -> (s: Self)
        ensures
            s.wf(),
            s@ == Boxes::empty(),
    {
        MailboxStore { boxes: Vec::new(), contents: Ghost(Map::empty()) }
    }

    fn find(&self, r: &String) -> (res: Option<usize>)
        requires
            self.wf(),
        ensures
            match res {
                Some(i) => i < self.boxes@.len() && self.boxes@[i as int].to_id@ == r@,
                None => !self@.contains_key(r@),
            },
    {
        let mut i: usize = 0;
        while i < self.boxes.len()
            invariant
                i <= self.boxes@.len(),
                forall|j: int| 0 <= j < i ==> self.boxes@[j].to_id@ != r@,
            decreases self.boxes@.len() - i,
        {
            if self.boxes[i].to_id == *r {
                return Some(i);
            }
            i = i + 1;
        }
        None
    }

    /// Deposits a payload that stays live for `ttl` milliseconds after `now`.
    pub fn enqueue(&mut self, to_id: String, cipher_blob: String, now: u64, ttl: u64) -> (r: Envelope)
        requires
            old(self).wf(),
            now + ttl <= u64::MAX,
        ensures
            final(self).wf(),
            r@ == (Entry { payload: cipher_blob@, expires_at: (now + ttl) as u64 }),
            final(self)@ == enqueue_spec(old(self)@, to_id@, r@),
    {
        let expires_at = now + ttl;
        let kept = Envelope { cipher_blob: cipher_blob.clone(), expires_at };
        self.insert(to_id, kept);
        Envelope { cipher_blob, expires_at }
    }

    fn take_box(&mut self, to_id: &String) -> (r: Option<Mailbox>)
        requires
            old(self).wf(),
        ensures
            final(self).wf(),
            final(self)@ == drain_spec(old(self)@, to_id@),
            match r {
                Some(mb) => mailbox_of(old(self)@, to_id@) == entries(mb.queue@),
                None => mailbox_of(old(self)@, to_id@) == Seq::<Entry>::empty(),
            },
    {
        let ghost m = self.contents@;
        let ghost ob = self.boxes@;
        match self.find(to_id) {
            None => {
                assert(m.remove(to_id@) =~= m);
                None
            },
            Some(i) => {
                let mb = self.boxes.swap_remove(i);
                self.contents = Ghost(m.remove(to_id@));
                proof {
                    let n = ob.len();
                    let nb = self.boxes@;
                    assert forall|a: int| 0 <= a < nb.len() implies (#[trigger] nb[a]) == (if a
                        == i {
                        ob[n - 1]
                    } else {
                        ob[a]
                    }) by {}
                    assert forall|a: int, b: int| 0 <= a < b < nb.len() implies nb[a].to_id@
                        != nb[b].to_id@ by {
                        if a == i {
                            assert(ob[b].to_id@ != ob[n - 1].to_id@);
                        } else if b == i {
                            assert(ob[a].to_id@ != ob[n - 1].to_id@);
                        } else {
                            assert(ob[a].to_id@ != ob[b].to_id@);
                        }
                    }
                    assert forall|a: int| 0 <= a < nb.len() implies {
                        &&& #[trigger] self.contents@.contains_key(nb[a].to_id@)
                        &&& self.contents@[nb[a].to_id@] == entries(nb[a].queue@)
                    } by {
                        if a == i {
                            assert(m.contains_key(ob[n - 1].to_id@));
                            assert(ob[i as int].to_id@ != ob[n - 1].to_id@);
                        } else {
                            assert(m.contains_key(ob[a].to_id@));
                            assert(ob[i as int].to_id@ != ob[a].to_id@);
                        }
                    }
                    assert forall|k: Seq<char>| #[trigger] self.contents@.contains_key(k) implies exists|
                        a: int,
                    | 0 <= a < nb.len() && nb[a].to_id@ == k by {
                        assert(m.contains_key(k));
                        let a = choose|a: int| 0 <= a < ob.len() && ob[a].to_id@ == k;
                        if a == n - 1 {
                            assert(nb[i as int].to_id@ == k);
                        } else {
                            assert(nb[a].to_id@ == k);
                        }
                    }
                }
                Some(mb)
            },
        }
    }

    /// Removes a recipient's mailbox and returns the payloads of its live
    /// entries, oldest first.
    pub fn drain_all(&mut self, to_id: &String, now: u64) -> (r: Vec<String>)
        requires
            old(self).wf(),
        ensures
            final(self).wf(),
            final(self)@ == drain_spec(old(self)@, to_id@),
            texts(r@) == payloads(live(mailbox_of(old(self)@, to_id@), now)),
    {
        match self.take_box(to_id) {
            None => {
                let r: Vec<String> = Vec::new();
                assert(texts(r@) =~= payloads(live(Seq::empty(), now)));
                r
            },
            Some(mb) => live_payloads(&mb.queue, now),
        }
    }

    /// Removes a recipient's mailbox.
    pub fn remove(&mut self, to_id: &String)
        requires
            old(self).wf(),
        ensures
            final(self).wf(),
            final(self)@ == drain_spec(old(self)@, to_id@),
    {
        let _ = self.take_box(to_id);
    }

    /// Drops every expired entry from every mailbox, and every mailbox left empty.
    pub fn sweep(&mut self, now: u64)
        requires
            old(self).wf(),
        ensures
            final(self).wf(),
            final(self)@ == sweep_spec(old(self)@, now),
    {
        let ghost m = self.contents@;
        let ghost ob = self.boxes@;
        let mut fresh = MailboxStore::new();
        let mut i: usize = 0;
        while i < self.boxes.len()
            invariant
                self.wf(),
                self.boxes@ == ob,
                self.contents@ == m,
                fresh.wf(),
                i <= ob.len(),
                forall|c: int|
                    0 <= c < i ==> {
                        let k = (#[trigger] ob[c]).to_id@;
                        let l = live(entries(ob[c].queue@), now);
                        &&& (l.len() > 0 ==> fresh@.contains_key(k) && fresh@[k] == l)
                        &&& (l.len() == 0 ==> !fresh@.contains_key(k))
                    },
                forall|k: Seq<char>|
                    #[trigger] fresh@.contains_key(k) ==> exists|c: int| 0 <= c < i && ob[c].to_id@ == k,
            decreases ob.len() - i,
        {
            let q = live_envelopes(&self.boxes[i].queue, now);
            let ghost k0 = ob[i as int].to_id@;
            let ghost f0 = fresh@;
            proof {
                if f0.contains_key(k0) {
                    let c = choose|c: int| 0 <= c < i && ob[c].to_id@ == k0;
                    assert(ob[c].to_id@ != ob[i as int].to_id@);
                }
            }
            if q.len() > 0 {
                fresh.push_box(self.boxes[i].to_id.clone(), q);
            }
            proof {
                assert forall|c: int| 0 <= c < i + 1 implies {
                    let k = (#[trigger] ob[c]).to_id@;
                    let l = live(entries(ob[c].queue@), now);
                    &&& (l.len() > 0 ==> fresh@.contains_key(k) && fresh@[k] == l)
                    &&& (l.len() == 0 ==> !fresh@.contains_key(k))
                } by {
                    if c < i {
                        assert(ob[c].to_id@ != ob[i as int].to_id@);
                    }
                }
                assert forall|k: Seq<char>| #[trigger] fresh@.contains_key(k) implies exists|c: int|
                    0 <= c < i + 1 && ob[c].to_id@ == k by {
                    if k != k0 {
                        assert(f0.contains_key(k));
                        let c = choose|c: int| 0 <= c < i && ob[c].to_id@ == k;
                    } else {
                        assert(ob[i as int].to_id@ == k);
                    }
                }
            }
            i = i + 1;
        }
        proof {
            assert(fresh@ =~= sweep_spec(m, now)) by {
                assert forall|k: Seq<char>| #[trigger] fresh@.contains_key(k) <==> sweep_spec(m, now).contains_key(k) by {
                    if fresh@.contains_key(k) {
                        let c = choose|c: int| 0 <= c < ob.len() && ob[c].to_id@ == k;
                        assert(m.contains_key(ob[c].to_id@));
                    }
                    if m.contains_key(k) {
                        let c = choose|c: int| 0 <= c < ob.len() && ob[c].to_id@ == k;
                        assert(m[ob[c].to_id@] == entries(ob[c].queue@));
                    }
                }
                assert forall|k: Seq<char>| #[trigger] fresh@.contains_key(k) implies fresh@[k] == sweep_spec(m, now)[k] by {
                    let c = choose|c: int| 0 <= c < ob.len() && ob[c].to_id@ == k;
                    assert(m.contains_key(ob[c].to_id@));
                }
            }
        }
        self.boxes = fresh.boxes;
        self.contents = fresh.contents;
    }

    /// The journal that a compaction at `(now_mono, now_epoch)` writes: for each
    /// recipient, one deposit per live envelope, oldest first, each with its
    /// absolute expiry recomputed, and nothing else. Replayed at that same
    /// reading, it gives back exactly the live mailboxes.
    pub fn snapshot(&self, now_mono: u64, now_epoch: u128) -> (r: Vec<LogRecord>)
        requires
            self.wf(),
            now_epoch + u64::MAX <= u128::MAX,
        ensures
            forall|i: int| 0 <= i < r@.len() ==> is_put(#[trigger] r@[i]@),
            forall|k: Seq<char>|
                #[trigger] puts_to(views(r@), k) == as_puts(k, live(mailbox_of(self@, k), now_mono), now_mono, now_epoch),
            equivalent(replay_spec(views(r@), now_mono, now_epoch), live_boxes(self@, now_mono)),
    {
        let ghost m = self.contents@;
        let ghost bx = self.boxes@;
        let mut out: Vec<LogRecord> = Vec::new();
        let mut a: usize = 0;
        while a < self.boxes.len()
            invariant
                self.wf(),
                self.contents@ == m,
                self.boxes@ == bx,
                now_epoch + u64::MAX <= u128::MAX,
                a <= bx.len(),
                forall|i: int| 0 <= i < out@.len() ==> is_put(#[trigger] out@[i]@),
                forall|c: int|
                    0 <= c < a ==> mailbox_of(replay_spec(views(out@), now_mono, now_epoch), #[trigger] bx[c].to_id@)
                        == live(entries(bx[c].queue@), now_mono),
                forall|c: int|
                    0 <= c < a ==> puts_to(views(out@), #[trigger] bx[c].to_id@) == as_puts(
                        bx[c].to_id@,
                        live(entries(bx[c].queue@), now_mono),
                        now_mono,
                        now_epoch,
                    ),
                forall|k: Seq<char>|
                    #[trigger] replay_spec(views(out@), now_mono, now_epoch).contains_key(k) ==> exists|c: int|
                        0 <= c < a && bx[c].to_id@ == k,
                forall|k: Seq<char>|
                    #[trigger] puts_to(views(out@), k).len() > 0 ==> exists|c: int| 0 <= c < a && bx[c].to_id@ == k,
            decreases bx.len() - a,
        {
            let to_id = &self.boxes[a].to_id;
            let q = &self.boxes[a].queue;
            let mut b: usize = 0;
            proof {
                let rr = replay_spec(views(out@), now_mono, now_epoch);
                if rr.contains_key(to_id@) {
                    let c = choose|c: int| 0 <= c < a && bx[c].to_id@ == to_id@;
                }
                if puts_to(views(out@), to_id@).len() > 0 {
                    let c = choose|c: int| 0 <= c < a && bx[c].to_id@ == to_id@;
                }
                assert(live(entries(q@).take(0), now_mono) =~= Seq::<Entry>::empty());
                assert(as_puts(to_id@, Seq::empty(), now_mono, now_epoch) =~= Seq::<RecordView>::empty());
            }
            while b < q.len()
                invariant
                    self.wf(),
                    self.contents@ == m,
                    self.boxes@ == bx,
                    now_epoch + u64::MAX <= u128::MAX,
                    a < bx.len(),
                    to_id == &bx[a as int].to_id,
                    q == &bx[a as int].queue,
                    b <= q@.len(),
                    forall|i: int| 0 <= i < out@.len() ==> is_put(#[trigger] out@[i]@),
                    forall|c: int|
                        0 <= c < a ==> mailbox_of(replay_spec(views(out@), now_mono, now_epoch), #[trigger] bx[c].to_id@)
                            == live(entries(bx[c].queue@), now_mono),
                    forall|c: int|
                        0 <= c < a ==> puts_to(views(out@), #[trigger] bx[c].to_id@) == as_puts(
                            bx[c].to_id@,
                            live(entries(bx[c].queue@), now_mono),
                            now_mono,
                            now_epoch,
                        ),
                    mailbox_of(replay_spec(views(out@), now_mono, now_epoch), to_id@)
                        == live(entries(q@).take(b as int), now_mono),
                    puts_to(views(out@), to_id@) == as_puts(
                        to_id@,
                        live(entries(q@).take(b as int), now_mono),
                        now_mono,
                        now_epoch,
                    ),
                    forall|k: Seq<char>|
                        #[trigger] replay_spec(views(out@), now_mono, now_epoch).contains_key(k) ==> exists|c: int|
                            0 <= c <= a && bx[c].to_id@ == k,
                    forall|k: Seq<char>|
                        #[trigger] puts_to(views(out@), k).len() > 0 ==> exists|c: int| 0 <= c <= a && bx[c].to_id@ == k,
                decreases q@.len() - b,
            {
                let ghost before = out@;
                let ghost rr = replay_spec(views(before), now_mono, now_epoch);
                proof {
                    let t = entries(q@).take(b as int + 1);
                    assert(t.drop_last() =~= entries(q@).take(b as int));
                    assert(t.last() == q@[b as int]@);
                }
                let e = &q[b];
                if e.expires_at > now_mono {
                    let expires_ms: u128 = now_epoch + (e.expires_at - now_mono) as u128;
                    out.push(
                        LogRecord::Put { to_id: to_id.clone(), cipher_blob: e.cipher_blob.clone(), expires_ms },
                    );
                    proof {
                        assert(views(out@).drop_last() =~= views(before));
                        let ent = Entry { payload: e.cipher_blob@, expires_at: rebase_spec(expires_ms, now_mono, now_epoch) };
                        assert(ent == e@);
                        let r2 = replay_spec(views(out@), now_mono, now_epoch);
                        assert(r2 == enqueue_spec(rr, to_id@, ent));
                        let rec = out@.last()@;
                        assert(views(out@).last() == rec);
                        let l = live(entries(q@).take(b as int), now_mono);
                        assert(as_puts(to_id@, l.push(e@), now_mono, now_epoch) =~= as_puts(to_id@, l, now_mono, now_epoch).push(rec));
                        assert forall|c: int| 0 <= c < a implies mailbox_of(r2, #[trigger] bx[c].to_id@)
                            == live(entries(bx[c].queue@), now_mono) by {
                            assert(bx[c].to_id@ != bx[a as int].to_id@);
                        }
                        assert forall|c: int| 0 <= c < a implies puts_to(views(out@), #[trigger] bx[c].to_id@) == as_puts(
                            bx[c].to_id@,
                            live(entries(bx[c].queue@), now_mono),
                            now_mono,
                            now_epoch,
                        ) by {
                            assert(bx[c].to_id@ != bx[a as int].to_id@);
                        }
                        assert forall|k: Seq<char>| #[trigger] r2.contains_key(k) implies exists|c: int|
                            0 <= c <= a && bx[c].to_id@ == k by {
                            if k != to_id@ {
                                assert(rr.contains_key(k));
                            } else {
                                assert(bx[a as int].to_id@ == k);
                            }
                        }
                        assert forall|k: Seq<char>| #[trigger] puts_to(views(out@), k).len() > 0 implies exists|c: int|
                            0 <= c <= a && bx[c].to_id@ == k by {
                            if k != to_id@ {
                                assert(puts_to(views(before), k).len() > 0);
                            } else {
                                assert(bx[a as int].to_id@ == k);
                            }
                        }
                    }
                }
                b = b + 1;
            }
            proof {
                assert(entries(q@).take(b as int) =~= entries(q@));
            }
            a = a + 1;
        }
        proof {
            let rr = replay_spec(views(out@), now_mono, now_epoch);
            let lb = live_boxes(m, now_mono);
            assert forall|k: Seq<char>| #[trigger] mailbox_of(rr, k) == mailbox_of(lb, k) by {
                if exists|c: int| 0 <= c < bx.len() && bx[c].to_id@ == k {
                    let c = choose|c: int| 0 <= c < bx.len() && bx[c].to_id@ == k;
                    assert(m.contains_key(bx[c].to_id@));
                    assert(mailbox_of(rr, bx[c].to_id@) == live(entries(bx[c].queue@), now_mono));
                } else {
                    assert(!rr.contains_key(k));
                    assert(!m.contains_key(k));
                }
            }
            assert forall|k: Seq<char>| #[trigger] puts_to(views(out@), k) == as_puts(
                k,
                live(mailbox_of(m, k), now_mono),
                now_mono,
                now_epoch,
            ) by {
                if exists|c: int| 0 <= c < bx.len() && bx[c].to_id@ == k {
                    let c = choose|c: int| 0 <= c < bx.len() && bx[c].to_id@ == k;
                    assert(m.contains_key(bx[c].to_id@));
                } else {
                    assert(!m.contains_key(k));
                    assert(live(Seq::<Entry>::empty(), now_mono) =~= Seq::<Entry>::empty());
                    assert(as_puts(k, Seq::empty(), now_mono, now_epoch) =~= Seq::<RecordView>::empty());
                    assert(puts_to(views(out@), k).len() == 0);
                }
            }
        }
        out
    }

    /// The number of recipients with a mailbox, and the number of entries in
    /// all of them (capped at the largest `usize`).
    pub fn stats(&self) -> (r: (usize, usize))
        requires
            self.wf(),
        ensures
            r.0 == self@.dom().len(),
            forall|k: Seq<char>| #[trigger] self@.contains_key(k) ==> self@[k].len() > 0,
            r.1 == if total_entries(self@) > usize::MAX {
                usize::MAX as int
            } else {
                total_entries(self@)
            },
    {
        proof {
            self.lemma_no_empty_mailbox();
        }
        let ghost m = self.contents@;
        let ghost f = add_len(m);
        let ghost bx = self.boxes@;
        let ghost mut keys: Set<Seq<char>> = Set::empty();
        let ghost mut exact: int = 0;
        proof {
            assert(is_fun_commutative(f));
            lemma_fold_empty(0int, f);
        }
        let mut total: usize = 0;
        let mut i: usize = 0;
        while i < self.boxes.len()
            invariant
                self.wf(),
                self.contents@ == m,
                self.boxes@ == bx,
                f == add_len(m),
                is_fun_commutative(f),
                i <= bx.len(),
                keys.finite(),
                keys.len() == i,
                forall|j: int| 0 <= j < i ==> keys.contains(#[trigger] bx[j].to_id@),
                forall|k: Seq<char>| #[trigger] keys.contains(k) ==> exists|j: int| 0 <= j < i && bx[j].to_id@ == k,
                exact == keys.fold(0int, f),
                exact >= 0,
                total == if exact > usize::MAX {
                    usize::MAX as int
                } else {
                    exact
                },
            decreases bx.len() - i,
        {
            let n = self.boxes[i].queue.len();
            proof {
                let k = bx[i as int].to_id@;
                if keys.contains(k) {
                    let j = choose|j: int| 0 <= j < i && bx[j].to_id@ == k;
                    assert(false);
                }
                lemma_fold_insert(keys, 0int, f, k);
                assert(m.contains_key(k));
                assert(mailbox_of(m, k).len() == n);
                keys = keys.insert(k);
                exact = exact + n;
                assert forall|kk: Seq<char>| #[trigger] keys.contains(kk) implies exists|j: int|
                    0 <= j < i + 1 && bx[j].to_id@ == kk by {
                    if kk != k {
                        let j = choose|j: int| 0 <= j < i && bx[j].to_id@ == kk;
                    } else {
                        assert(bx[i as int].to_id@ == kk);
                    }
                }
            }
            if total > usize::MAX - n {
                total = usize::MAX;
            } else {
                total = total + n;
            }
            i = i + 1;
        }
        proof {
            assert(keys =~= m.dom()) by {
                assert forall|k: Seq<char>| m.dom().contains(k) implies keys.contains(k) by {
                    assert(m.contains_key(k));
                    let j = choose|j: int| 0 <= j < bx.len() && bx[j].to_id@ == k;
                    assert(keys.contains(bx[j].to_id@));
                }
            }
        }
        (i, total)
    }

    /// Appends an envelope at the tail of a recipient's mailbox.
    pub fn insert(&mut self, to_id: String, env: Envelope)
        requires
            old(self).wf(),
        ensures
            final(self).wf(),
            final(self)@ == enqueue_spec(old(self)@, to_id@, env@),
    {
        let ghost m = self.contents@;
        let ghost e = env@;
        let ghost ob = self.boxes@;
        let ghost mut idx: int = 0;
        match self.find(&to_id) {
            Some(i) => {
                proof {
                    idx = i as int;
                }
                let ghost q = self.boxes@[i as int].queue@;
                self.boxes[i].queue.push(env);
                proof {
                    assert(entries(q.push(env)) =~= entries(q).push(e));
                }
            },
            None => {
                let mut q: Vec<Envelope> = Vec::new();
                q.push(env);
                proof {
                    assert(entries(q@) =~= seq![e]);
                    assert(mailbox_of(m, to_id@).push(e) =~= seq![e]);
                }
                proof {
                    idx = self.boxes@.len() as int;
                }
                self.boxes.push(Mailbox { to_id, queue: q });
            },
        }
        self.contents = Ghost(enqueue_spec(m, to_id@, e));
        assert forall|k: Seq<char>| #[trigger] self.contents@.contains_key(k) implies exists|i: int|
            0 <= i < self.boxes@.len() && self.boxes@[i].to_id@ == k by {
            if k != to_id@ {
                assert(m.contains_key(k));
                let a = choose|a: int| 0 <= a < ob.len() && ob[a].to_id@ == k;
                assert(self.boxes@[a].to_id@ == k);
            } else {
                assert(self.boxes@[idx].to_id@ == k);
            }
        }
        assert forall|i: int| 0 <= i < self.boxes@.len() implies {
            &&& #[trigger] self.contents@.contains_key(self.boxes@[i].to_id@)
            &&& self.contents@[self.boxes@[i].to_id@] == entries(self.boxes@[i].queue@)
        } by {
            if i != idx {
                assert(ob[i] == self.boxes@[i]);
                assert(m.contains_key(ob[i].to_id@));
            }
        }
        assert forall|i: int, j: int| 0 <= i < j < self.boxes@.len() implies self.boxes@[i].to_id@
            != self.boxes@[j].to_id@ by {
            if i != idx && j != idx {
                assert(ob[i].to_id@ != ob[j].to_id@);
            } else if i == idx {
                assert(m.contains_key(ob[j].to_id@));
            } else {
                assert(m.contains_key(ob[i].to_id@));
            }
        }
    }
}

} // verus!
