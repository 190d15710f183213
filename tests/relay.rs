use aegis_relay::admission::{
    check_decoded, check_payload, digest_matches, hex_lower, input_ok, valid_pow, PutError,
};
use aegis_relay::clock::now_epoch_ms;
use aegis_relay::journal::{replay, LogRecord};
use aegis_relay::mailbox::MailboxStore;
use aegis_relay::ratelimit::RateLimiter;
use aegis_relay::relay::{Config, Relay};
use base64::Engine;
use sha2::Digest;

fn b64(bytes: &[u8]) -> String {
    base64::engine::general_purpose::STANDARD.encode(bytes)
}

fn s(x: &str) -> String {
    x.to_string()
}

const HOUR_MS: u64 = 3_600_000;

#[test]
fn hex_lower_renders_each_byte() {
    assert_eq!(hex_lower(&[0x00, 0xab, 0xff, 0x10]), "00abff10");
    assert_eq!(hex_lower(&[]), "");
}

#[test]
fn digest_prefix_match() {
    assert!(digest_matches("00ab", &[0x00, 0xab, 0x01]));
    assert!(!digest_matches("00ac", &[0x00, 0xab, 0x01]));
    assert!(digest_matches("", &[0x12]));
    assert!(!digest_matches("12345", &[0x12, 0x34]));
}

#[test]
fn pow_uses_sha256_of_nonce_then_recipient() {
    let mut h = sha2::Sha256::new();
    h.update(b"nonce42");
    h.update(b"alice");
    let hex: String = h.finalize().iter().map(|b| format!("{:02x}", b)).collect();
    let first = &hex[..1];
    assert!(valid_pow(first, "nonce42", "alice"));
    assert!(valid_pow(&hex, "nonce42", "alice"));
    let wrong = if first == "0" { "1" } else { "0" };
    assert!(!valid_pow(wrong, "nonce42", "alice"));
    assert!(valid_pow("", "", "alice"));
}

#[test]
fn pow_search_finds_a_nonce() {
    let mut found = None;
    for n in 0..5000u32 {
        let nonce = n.to_string();
        if valid_pow("00", &nonce, "bob") {
            found = Some(nonce);
            break;
        }
    }
    let nonce = found.expect("a nonce within 5000 tries");
    let mut h = sha2::Sha256::new();
    h.update(nonce.as_bytes());
    h.update(b"bob");
    let d = h.finalize();
    assert_eq!(d[0], 0);
}

#[test]
fn input_checks() {
    assert!(input_ok("alice", "AAAA"));
    assert!(!input_ok("   ", "AAAA"));
    assert!(!input_ok("", "AAAA"));
    assert!(!input_ok("alice", ""));
    assert!(input_ok("  alice ", "x"));
}

#[test]
fn decoded_size_classification() {
    assert_eq!(check_decoded(&None, 4), Err(PutError::InvalidEncoding));
    assert_eq!(check_decoded(&Some(vec![1, 2, 3, 4]), 4), Ok(()));
    assert_eq!(
        check_decoded(&Some(vec![1, 2]), 4),
        Err(PutError::InvalidSize { expected: 4, got: 2 })
    );
}

#[test]
fn payload_decoding() {
    assert_eq!(check_payload(&b64(&[0u8; 4096]), 4096), Ok(()));
    assert_eq!(
        check_payload(&b64(&[7u8; 10]), 4096),
        Err(PutError::InvalidSize { expected: 4096, got: 10 })
    );
    assert_eq!(check_payload("not base64!", 4096), Err(PutError::InvalidEncoding));
}

#[test]
fn mailbox_fifo_and_drain_empties() {
    let mut st = MailboxStore::new();
    st.enqueue(s("r"), s("a"), 0, 100);
    st.enqueue(s("r"), s("b"), 1, 100);
    st.enqueue(s("q"), s("x"), 1, 100);
    st.enqueue(s("r"), s("c"), 2, 100);
    assert_eq!(st.drain_all(&s("r"), 10), vec![s("a"), s("b"), s("c")]);
    assert_eq!(st.drain_all(&s("r"), 10), Vec::<String>::new());
    assert_eq!(st.drain_all(&s("q"), 10), vec![s("x")]);
}

#[test]
fn enqueue_sets_deadline() {
    let mut st = MailboxStore::new();
    let e = st.enqueue(s("r"), s("a"), 5, 100);
    assert_eq!(e.expires_at, 105);
    assert_eq!(e.cipher_blob, "a");
}

#[test]
fn expired_never_returned() {
    let mut st = MailboxStore::new();
    st.enqueue(s("r"), s("old"), 0, 10);
    st.enqueue(s("r"), s("new"), 5, 10);
    assert_eq!(st.drain_all(&s("r"), 10), vec![s("new")]);
}

#[test]
fn sweep_removes_expired_without_get() {
    let mut st = MailboxStore::new();
    st.enqueue(s("r"), s("old"), 0, 10);
    st.enqueue(s("r"), s("new"), 5, 10);
    st.enqueue(s("q"), s("gone"), 0, 3);
    st.sweep(10);
    assert_eq!(st.drain_all(&s("r"), 0), vec![s("new")]);
    assert_eq!(st.drain_all(&s("q"), 0), Vec::<String>::new());
}

#[test]
fn rate_limit_rejects_beyond_limit() {
    let mut rl = RateLimiter::new(3, 1000);
    let r = s("bob");
    for t in 0..3u64 {
        assert_eq!(rl.check_and_record(&r, t * 10), Ok(()));
    }
    assert_eq!(
        rl.check_and_record(&r, 30),
        Err(PutError::RateLimited { limit: 3, window_seconds: 1 })
    );
    assert_eq!(
        rl.check_and_record(&r, 999),
        Err(PutError::RateLimited { limit: 3, window_seconds: 1 })
    );
    assert_eq!(rl.check_and_record(&s("carol"), 30), Ok(()));
}

#[test]
fn rate_limit_capacity_freed_after_window() {
    let mut rl = RateLimiter::new(2, 1000);
    let r = s("bob");
    assert_eq!(rl.check_and_record(&r, 0), Ok(()));
    assert_eq!(rl.check_and_record(&r, 500), Ok(()));
    assert!(rl.check_and_record(&r, 999).is_err());
    assert_eq!(rl.check_and_record(&r, 1000), Ok(()));
    assert!(rl.check_and_record(&r, 1001).is_err());
    assert_eq!(rl.check_and_record(&r, 1500), Ok(()));
}

#[test]
fn rate_limit_sweep_trims() {
    let mut rl = RateLimiter::new(1, 100);
    let r = s("bob");
    assert_eq!(rl.check_and_record(&r, 0), Ok(()));
    rl.sweep(100);
    assert_eq!(rl.check_and_record(&r, 50), Ok(()));
    assert!(rl.check_and_record(&r, 60).is_err());
}

fn put(to: &str, blob: &str, exp: u128) -> LogRecord {
    LogRecord::Put { to_id: s(to), cipher_blob: s(blob), expires_ms: exp }
}

#[test]
fn replay_skips_expired_and_rebases() {
    let recs = vec![put("a", "p1", 1500), put("a", "p2", 900), put("b", "p3", 2000), put("a", "p4", 1001)];
    // read at monotonic 50, epoch 1000
    let mut st = replay(&recs, 50, 1000);
    // p1 lives until 50 + 500 = 550, p4 until 51
    assert_eq!(st.drain_all(&s("a"), 50), vec![s("p1"), s("p4")]);
    let mut st = replay(&recs, 50, 1000);
    assert_eq!(st.drain_all(&s("a"), 51), vec![s("p1")]);
    let mut st = replay(&recs, 50, 1000);
    assert_eq!(st.drain_all(&s("a"), 549), vec![s("p1")]);
    let mut st = replay(&recs, 50, 1000);
    assert_eq!(st.drain_all(&s("a"), 550), Vec::<String>::new());
    assert_eq!(st.drain_all(&s("b"), 1049), vec![s("p3")]);
}

#[test]
fn replay_drain_clears_mailbox() {
    let recs = vec![
        put("a", "p1", 5000),
        LogRecord::Drain { to_id: s("a") },
        put("a", "p2", 5000),
        LogRecord::Drain { to_id: s("zzz") },
    ];
    let mut st = replay(&recs, 0, 1000);
    assert_eq!(st.drain_all(&s("a"), 0), vec![s("p2")]);
}

#[test]
fn replay_of_empty_log_is_empty() {
    let mut st = replay(&vec![], 0, 0);
    assert_eq!(st.drain_all(&s("a"), 0), Vec::<String>::new());
}

#[test]
fn compaction_writes_live_puts_with_absolute_expiry() {
    let mut st = MailboxStore::new();
    st.enqueue(s("a"), s("p1"), 0, 100);
    st.enqueue(s("a"), s("p2"), 0, 5);
    st.enqueue(s("b"), s("p3"), 10, 100);
    st.drain_all(&s("c"), 0);
    let log = st.snapshot(20, 10_000);
    assert_eq!(
        log,
        vec![put("a", "p1", 10_080), put("b", "p3", 10_090)]
    );
}

#[test]
fn compaction_twice_replays_identically() {
    let mut st = MailboxStore::new();
    st.enqueue(s("a"), s("p1"), 0, 100);
    st.enqueue(s("b"), s("p2"), 0, 50);
    st.enqueue(s("a"), s("p3"), 0, 200);
    let first = st.snapshot(10, 1_000);
    let rebuilt = replay(&first, 10, 1_000);
    let second = rebuilt.snapshot(10, 1_000);
    assert_eq!(first, second);
    let mut x = replay(&first, 10, 1_000);
    let mut y = replay(&second, 10, 1_000);
    assert_eq!(x.drain_all(&s("a"), 10), y.drain_all(&s("a"), 10));
    assert_eq!(x.drain_all(&s("b"), 10), y.drain_all(&s("b"), 10));
}

#[test]
fn config_new_converts_units() {
    let c = Config::new(8080, 2, 16, 5, 30, s("/tmp/x"), s("ab"));
    assert_eq!(c.ttl_ms, 2 * HOUR_MS);
    assert_eq!(c.rl_window_ms, 30_000);
    assert_eq!(c.port, 8080);
    assert_eq!(c.pow_prefix, "ab");
}

fn deposit(r: &mut Relay, to: &str, blob: &str, now: u64) -> Result<(), PutError> {
    let rec = r.admit_put(&s(to), &s(blob), "", now, 1_700_000_000_000)?;
    match rec {
        LogRecord::Put { to_id, cipher_blob, .. } => r.commit_put(to_id, cipher_blob, now),
        LogRecord::Drain { .. } => panic!("admission returned a drain"),
    }
    Ok(())
}

#[test]
fn default_config_scenario() {
    let cfg = Config::defaults();
    assert_eq!(cfg.ttl_ms, 72 * HOUR_MS);
    assert_eq!(cfg.rl_max_per_window, 20);
    assert_eq!(cfg.rl_window_ms, 60_000);
    assert_eq!(cfg.cipher_blob_bytes, 4096);
    assert_eq!(cfg.pow_prefix, "");
    let mut r = Relay::new(cfg, MailboxStore::new());
    let zeros = b64(&[0u8; 4096]);
    assert_eq!(deposit(&mut r, "alice", &zeros, 0), Ok(()));
    let (got, drain) = r.get(&s("alice"), 1);
    assert_eq!(got.len(), 1);
    let bytes = base64::engine::general_purpose::STANDARD.decode(&got[0]).unwrap();
    assert_eq!(bytes, vec![0u8; 4096]);
    assert_eq!(drain, LogRecord::Drain { to_id: s("alice") });
    let (again, _) = r.get(&s("alice"), 2);
    assert!(again.is_empty());

    for i in 0..20u64 {
        assert_eq!(deposit(&mut r, "bob", &zeros, 100 + i), Ok(()));
    }
    assert_eq!(
        deposit(&mut r, "bob", &zeros, 200),
        Err(PutError::RateLimited { limit: 20, window_seconds: 60 })
    );

    assert_eq!(
        deposit(&mut r, "carol", &b64(&[0u8; 10]), 300),
        Err(PutError::InvalidSize { expected: 4096, got: 10 })
    );
}

#[test]
fn admit_put_returns_record_and_defers_storage() {
    let mut r = Relay::new(Config::defaults(), MailboxStore::new());
    let zeros = b64(&[0u8; 4096]);
    let rec = r.admit_put(&s("dave"), &zeros, "", 10, 5_000).unwrap();
    assert_eq!(rec, put("dave", &zeros, 5_000 + 72 * HOUR_MS as u128));
    let (got, _) = r.get(&s("dave"), 11);
    assert!(got.is_empty());
}

#[test]
fn wrong_size_is_neither_stored_nor_logged() {
    let mut r = Relay::new(Config::defaults(), MailboxStore::new());
    let res = r.admit_put(&s("erin"), &b64(&[1u8; 4095]), "", 0, 0);
    assert_eq!(res, Err(PutError::InvalidSize { expected: 4096, got: 4095 }));
    let (got, _) = r.get(&s("erin"), 1);
    assert!(got.is_empty());
}

#[test]
fn admission_errors_in_order() {
    let cfg = Config::new(1, 1, 4, 1, 60, s("d"), s("ffffffff"));
    let mut r = Relay::new(cfg, MailboxStore::new());
    assert_eq!(r.admit_put(&s(" "), &s("AAAAAA=="), "", 0, 0), Err(PutError::InvalidInput));
    assert_eq!(r.admit_put(&s("x"), &s(""), "", 0, 0), Err(PutError::InvalidInput));
    assert_eq!(r.admit_put(&s("x"), &s("@@@"), "", 0, 0), Err(PutError::InvalidEncoding));
    assert_eq!(
        r.admit_put(&s("x"), &b64(&[1, 2, 3, 4]), "n", 0, 0),
        Err(PutError::PowRequired { prefix: s("ffffffff") })
    );
}


#[test]
fn relay_sweep_and_compaction() {
    let mut r = Relay::new(Config::new(1, 1, 4, 5, 60, s("d"), s("")), MailboxStore::new());
    let blob = b64(&[1, 2, 3, 4]);
    assert_eq!(deposit(&mut r, "a", &blob, 0), Ok(()));
    let log = r.compaction(10, 1_000_000);
    assert_eq!(log, vec![put("a", &blob, 1_000_000 + HOUR_MS as u128 - 10)]);
    r.sweep(HOUR_MS);
    assert!(r.compaction(HOUR_MS, 0).is_empty());
}

#[test]
fn recover_from_records() {
    let recs = vec![put("a", "p", 2_000)];
    let mut r = Relay::recover(Config::defaults(), &recs, 0, 1_000);
    let (got, _) = r.get(&s("a"), 999);
    assert_eq!(got, vec![s("p")]);
}

#[test]
fn wall_clock_is_after_2020() {
    assert!(now_epoch_ms() > 1_577_836_800_000);
}

#[test]
fn stats_count_mailboxes_and_envelopes() {
    let mut st = MailboxStore::new();
    assert_eq!(st.stats(), (0, 0));
    st.enqueue(s("a"), s("1"), 0, 10);
    st.enqueue(s("a"), s("2"), 0, 10);
    st.enqueue(s("b"), s("3"), 0, 10);
    assert_eq!(st.stats(), (2, 3));
    st.drain_all(&s("a"), 0);
    assert_eq!(st.stats(), (1, 1));
    let r = Relay::new(Config::defaults(), st);
    assert_eq!(r.stats(), (1, 1));
}

#[test]
fn sweep_drops_emptied_mailboxes_from_stats() {
    let mut st = MailboxStore::new();
    st.enqueue(s("a"), s("1"), 0, 10);
    st.enqueue(s("b"), s("2"), 0, 100);
    assert_eq!(st.stats(), (2, 2));
    st.sweep(10);
    assert_eq!(st.stats(), (1, 1));
    st.sweep(100);
    assert_eq!(st.stats(), (0, 0));
}

#[test]
fn unicode_whitespace_recipient_is_invalid() {
    assert!(!input_ok("\u{3000}\t\u{a0}", "AAAA"));
    assert!(input_ok("\u{3000}x", "AAAA"));
}

#[test]
fn overlong_prefix_never_matches() {
    let prefix = "0".repeat(65);
    assert!(!valid_pow(&prefix, "n", "alice"));
}

#[test]
fn commit_deadline_is_capped() {
    let mut r = Relay::new(Config::defaults(), MailboxStore::new());
    r.commit_put(s("a"), s("p"), u64::MAX - 1);
    let (got, _) = r.get(&s("a"), u64::MAX - 1);
    assert_eq!(got, vec![s("p")]);
}

#[test]
fn compactions_at_two_times_replay_alike() {
    let mut st = MailboxStore::new();
    st.enqueue(s("a"), s("p1"), 0, 100);
    st.enqueue(s("a"), s("p2"), 0, 30);
    st.enqueue(s("b"), s("p3"), 0, 200);
    let first = st.snapshot(10, 1_010);
    let second = st.snapshot(50, 1_050);
    assert_eq!(first.len(), 3);
    assert_eq!(second.len(), 2);
    let mut x = replay(&first, 0, 1_060);
    let mut y = replay(&second, 0, 1_060);
    assert_eq!(x.drain_all(&s("a"), 0), y.drain_all(&s("a"), 0));
    assert_eq!(x.drain_all(&s("b"), 0), y.drain_all(&s("b"), 0));
}
