//! The relay engine: configuration, the deposit path, the drain path and the
//! two periodic jobs, over one mailbox store and one rate limiter.
use vstd::prelude::*;
use crate::admission::{
    PutError, input_ok, check_payload, valid_pow, recipient_ok_spec, size_check_spec,
    base64_decoded, valid_pow_spec,
};
use crate::journal::{LogRecord, RecordView, replay, replay_spec, views, is_put, puts_to, as_puts};
use crate::mailbox::{
    Boxes, Entry, Envelope, MailboxStore, enqueue_spec, drain_spec, mailbox_of, live, payloads, texts,
    sweep_spec, equivalent, live_boxes, total_entries,
};
use crate::ratelimit::{Windows, RateLimiter, admits, recorded, window_of, trim_spec};

verus! {

pub const DEFAULT_PORT: u16 = 3000;

pub const DEFAULT_TTL_HOURS: u64 = 72;

pub const DEFAULT_CIPHER_BLOB_BYTES: usize = 4096;

pub const DEFAULT_RL_MAX_PER_WINDOW: usize = 20;

pub const DEFAULT_RL_WINDOW_SECS: u64 = 60;

/// Process-wide parameters, fixed at start. Durations are in milliseconds.
pub struct Config {
    pub port: u16,
    pub ttl_ms: u64,
    pub cipher_blob_bytes: usize,
    pub rl_max_per_window: usize,
    pub rl_window_ms: u64,
    pub data_dir: String,
    pub pow_prefix: String,
}

impl Config {
    /// Builds a configuration from hours for the time to live and seconds for
    /// the rate window.
    pub fn new(
        port: u16,
        ttl_hours: u64,
        cipher_blob_bytes: usize,
        rl_max_per_window: usize,
        rl_window_secs: u64,
        data_dir: String,
        pow_prefix: String,
    ) -> (c: Config)
        requires
            ttl_hours * 3_600_000 <= u64::MAX,
            rl_window_secs * 1000 <= u64::MAX,
        ensures
            c.port == port,
            c.ttl_ms == ttl_hours * 3_600_000,
            c.cipher_blob_bytes == cipher_blob_bytes,
            c.rl_max_per_window == rl_max_per_window,
            c.rl_window_ms == rl_window_secs * 1000,
            c.data_dir@ == data_dir@,
            c.pow_prefix@ == pow_prefix@,
    {
        Config {
            port,
            ttl_ms: ttl_hours * 3_600_000,
            cipher_blob_bytes,
            rl_max_per_window,
            rl_window_ms: rl_window_secs * 1000,
            data_dir,
            pow_prefix,
        }
    }

    /// The defaults: port 3000, a 72 hour time to live, 4096-byte payloads,
    /// 20 deposits per recipient per 60 seconds, and no proof-of-work.
    pub fn defaults() -> (c: Config)
        ensures
            c.port == 3000,
            c.ttl_ms == 72 * 3_600_000,
            c.cipher_blob_bytes == 4096,
            c.rl_max_per_window == 20,
            c.rl_window_ms == 60_000,
            c.data_dir@ == seq!['.', '/', 'd', 'a', 't', 'a'],
            c.pow_prefix@.len() == 0,
    {
        proof {
            reveal_strlit("./data");
            reveal_strlit("");
        }
        Config::new(
            DEFAULT_PORT,
            DEFAULT_TTL_HOURS,
            DEFAULT_CIPHER_BLOB_BYTES,
            DEFAULT_RL_MAX_PER_WINDOW,
            DEFAULT_RL_WINDOW_SECS,
            String::from_str("./data"),
            String::from_str(""),
        )
    }
}

/// `a + b`, or `cap` where the sum does not fit below it.
pub open spec fn capped_sum(a: int, b: int, cap: int) -> int {
    if a + b > cap {
        cap
    } else {
        a + b
    }
}

/// What the admission path decides for a deposit, checking in turn the input,
/// the payload's encoding and size, the proof-of-work and the rate window.
pub open spec fn admission_spec(
    cfg: Config,
    to_id: Seq<char>,
    cipher_blob: Seq<char>,
    nonce: Seq<char>,
    times: Seq<u64>,
    now: u64,
) -> Result<(), PutError> {
    if !(recipient_ok_spec(to_id) && cipher_blob.len() > 0) {
        Err(PutError::InvalidInput)
    } else if size_check_spec(base64_decoded(cipher_blob), cfg.cipher_blob_bytes) is Err {
        size_check_spec(base64_decoded(cipher_blob), cfg.cipher_blob_bytes)
    } else if !valid_pow_spec(cfg.pow_prefix@, nonce, to_id) {
        Err(PutError::PowRequired { prefix: cfg.pow_prefix })
    } else if !admits(times, now, cfg.rl_max_per_window, cfg.rl_window_ms) {
        Err(PutError::RateLimited { limit: cfg.rl_max_per_window, window_seconds: cfg.rl_window_ms / 1000 })
    } else {
        Ok(())
    }
}

/// A deposit with a usable recipient whose payload decodes to the wrong number
/// of bytes is refused with the expected and the actual size, whatever its
/// proof-of-work and the rate window; a refused deposit yields no journal
/// record and leaves the mailboxes as they were (see `Relay::admit_put`).
pub proof fn lemma_wrong_size_refused(
    cfg: Config,
    to_id: Seq<char>,
    cipher_blob: Seq<char>,
    nonce: Seq<char>,
    times: Seq<u64>,
    now: u64,
    decoded: Seq<u8>,
)
    requires
        recipient_ok_spec(to_id),
        cipher_blob.len() > 0,
        base64_decoded(cipher_blob) == Some(decoded),
        decoded.len() != cfg.cipher_blob_bytes,
    ensures
        admission_spec(cfg, to_id, cipher_blob, nonce, times, now) == Err::<(), PutError>(
            PutError::InvalidSize { expected: cfg.cipher_blob_bytes, got: decoded.len() as usize },
        ),
        !reaches_limiter(cfg, to_id, cipher_blob, nonce),
{
}

/// Whether a deposit got as far as the rate window, which then recorded it.
pub open spec fn reaches_limiter(cfg: Config, to_id: Seq<char>, cipher_blob: Seq<char>, nonce: Seq<char>) -> bool {
    &&& recipient_ok_spec(to_id) && cipher_blob.len() > 0
    &&& size_check_spec(base64_decoded(cipher_blob), cfg.cipher_blob_bytes) is Ok
    &&& valid_pow_spec(cfg.pow_prefix@, nonce, to_id)
}

/// The mailbox store and the rate limiter of one relay.
pub struct Relay {
    cfg: Config,
    store: MailboxStore,
    limiter: RateLimiter,
}

impl Relay {
    pub closed spec fn wf(&self) -> bool {
        &&& self.store.wf()
        &&& self.limiter.wf()
        &&& self.limiter.limit_spec() == self.cfg.rl_max_per_window
        &&& self.limiter.window_spec() == self.cfg.rl_window_ms
    }

    pub closed spec fn config(&self) -> Config {
        self.cfg
    }

    /// The mailboxes.
    pub closed spec fn boxes(&self) -> Boxes {
        self.store@
    }

    /// The rate windows.
    pub closed spec fn windows(&self) -> Windows {
        self.limiter@
    }

    /// A relay over mailboxes rebuilt elsewhere (by `recover`, or empty), with
    /// no admissions recorded yet.
    pub fn new(cfg: Config, store: MailboxStore) -> (r: Relay)
        requires
            store.wf(),
        ensures
            r.wf(),
            r.config() == cfg,
            r.boxes() == store@,
            r.windows() == Windows::empty(),
    {
        let limiter = RateLimiter::new(cfg.rl_max_per_window, cfg.rl_window_ms);
        Relay { cfg, store, limiter }
    }

    /// A relay whose mailboxes are rebuilt by replaying journal records read
    /// at `(now_mono, now_epoch)`.
    pub fn recover(cfg: Config, records: &Vec<LogRecord>, now_mono: u64, now_epoch: u128) -> (r: Relay)
        ensures
            r.wf(),
            r.config() == cfg,
            r.boxes() == replay_spec(views(records@), now_mono, now_epoch),
            r.windows() == Windows::empty(),
    {
        let store = replay(records, now_mono, now_epoch);
        Relay::new(cfg, store)
    }

    pub fn config_ref(&self) -> (r: &Config)
        ensures
            r == self.config(),
    {
        &self.cfg
    }

    /// The admission path of a deposit made at `(now_mono, now_epoch)`. On
    /// success the admission is recorded in the rate window and the journal
    /// record to append is returned; the mailboxes are untouched until
    /// `commit_put`, which the caller makes only once the record is durable.
    pub fn admit_put(
        &mut self,
        to_id: &String,
        cipher_blob: &String,
        nonce: &str,
        now_mono: u64,
        now_epoch: u128,
    ) -> (r: Result<LogRecord, PutError>)
        requires
            old(self).wf(),
        ensures
            final(self).wf(),
            final(self).config() == old(self).config(),
            final(self).boxes() == old(self).boxes(),
            final(self).windows() == if reaches_limiter(old(self).config(), to_id@, cipher_blob@, nonce@) {
                old(self).windows().insert(
                    to_id@,
                    recorded(
                        window_of(old(self).windows(), to_id@),
                        now_mono,
                        old(self).config().rl_max_per_window,
                        old(self).config().rl_window_ms,
                    ),
                )
            } else {
                old(self).windows()
            },
            match r {
                Ok(rec) => {
                    &&& admission_spec(
                        old(self).config(),
                        to_id@,
                        cipher_blob@,
                        nonce@,
                        window_of(old(self).windows(), to_id@),
                        now_mono,
                    ) is Ok
                    &&& rec@ == (RecordView::Put {
                        to_id: to_id@,
                        payload: cipher_blob@,
                        expires_ms: capped_sum(now_epoch as int, old(self).config().ttl_ms as int, u128::MAX as int) as u128,
                    })
                },
                Err(e) => admission_spec(
                    old(self).config(),
                    to_id@,
                    cipher_blob@,
                    nonce@,
                    window_of(old(self).windows(), to_id@),
                    now_mono,
                ) == Err::<(), PutError>(e),
            },
    {
        if !input_ok(to_id.as_str(), cipher_blob.as_str()) {
            return Err(PutError::InvalidInput);
        }
        match check_payload(cipher_blob.as_str(), self.cfg.cipher_blob_bytes) {
            Err(e) => {
                return Err(e);
            },
            Ok(()) => {},
        }
        if !valid_pow(self.cfg.pow_prefix.as_str(), nonce, to_id.as_str()) {
            return Err(PutError::PowRequired { prefix: self.cfg.pow_prefix.clone() });
        }
        match self.limiter.check_and_record(to_id, now_mono) {
            Err(e) => Err(e),
            Ok(()) => {
                let ttl = self.cfg.ttl_ms as u128;
                let expires_ms: u128 = if now_epoch > u128::MAX - ttl {
                    u128::MAX
                } else {
                    now_epoch + ttl
                };
                Ok(LogRecord::Put { to_id: to_id.clone(), cipher_blob: cipher_blob.clone(), expires_ms })
            },
        }
    }

    /// Queues an admitted deposit, live for the configured time after `now_mono`
    /// (the deadline is capped at the largest instant).
    pub fn commit_put(&mut self, to_id: String, cipher_blob: String, now_mono: u64)
        requires
            old(self).wf(),
        ensures
            final(self).wf(),
            final(self).config() == old(self).config(),
            final(self).windows() == old(self).windows(),
            final(self).boxes() == enqueue_spec(
                old(self).boxes(),
                to_id@,
                Entry {
                    payload: cipher_blob@,
                    expires_at: capped_sum(now_mono as int, old(self).config().ttl_ms as int, u64::MAX as int) as u64,
                },
            ),
    {
        let ttl = self.cfg.ttl_ms;
        let expires_at: u64 = if now_mono > u64::MAX - ttl {
            u64::MAX
        } else {
            now_mono + ttl
        };
        self.store.insert(to_id, Envelope { cipher_blob, expires_at });
    }

    /// Hands over and removes every live payload queued for a recipient,
    /// oldest first, with the drain record to append to the journal.
    pub fn get(&mut self, to_id: &String, now_mono: u64) -> (r: (Vec<String>, LogRecord))
        requires
            old(self).wf(),
        ensures
            final(self).wf(),
            final(self).config() == old(self).config(),
            final(self).windows() == old(self).windows(),
            final(self).boxes() == drain_spec(old(self).boxes(), to_id@),
            texts(r.0@) == payloads(live(mailbox_of(old(self).boxes(), to_id@), now_mono)),
            r.1@ == (RecordView::Drain { to_id: to_id@ }),
    {
        let out = self.store.drain_all(to_id, now_mono);
        (out, LogRecord::Drain { to_id: to_id.clone() })
    }

    /// The periodic sweep: drops expired envelopes and admissions that no
    /// longer count.
    pub fn sweep(&mut self, now_mono: u64)
        requires
            old(self).wf(),
        ensures
            final(self).wf(),
            final(self).config() == old(self).config(),
            final(self).boxes() == sweep_spec(old(self).boxes(), now_mono),
            final(self).windows() == trim_spec(old(self).windows(), now_mono, old(self).config().rl_window_ms),
    {
        self.store.sweep(now_mono);
        self.limiter.sweep(now_mono);
    }

    /// The read-only snapshot for health reports: the number of mailboxes and
    /// of envelopes in them (capped at the largest `usize`).
    pub fn stats(&self) -> (r: (usize, usize))
        requires
            self.wf(),
        ensures
            r.0 == self.boxes().dom().len(),
            forall|k: Seq<char>| #[trigger] self.boxes().contains_key(k) ==> self.boxes()[k].len() > 0,
            r.1 == if total_entries(self.boxes()) > usize::MAX {
                usize::MAX as int
            } else {
                total_entries(self.boxes())
            },
    {
        self.store.stats()
    }

    /// The records of a compacted journal written at `(now_mono, now_epoch)`:
    /// one deposit per live envelope, per recipient in queue order.
    pub fn compaction(&self, now_mono: u64, now_epoch: u128) -> (r: Vec<LogRecord>)
        requires
            self.wf(),
            now_epoch + u64::MAX <= u128::MAX,
        ensures
            forall|i: int| 0 <= i < r@.len() ==> is_put(#[trigger] r@[i]@),
            forall|k: Seq<char>|
                #[trigger] puts_to(views(r@), k) == as_puts(k, live(mailbox_of(self.boxes(), k), now_mono), now_mono, now_epoch),
            equivalent(replay_spec(views(r@), now_mono, now_epoch), live_boxes(self.boxes(), now_mono)),
    {
        self.store.snapshot(now_mono, now_epoch)
    }
}

} // verus!
