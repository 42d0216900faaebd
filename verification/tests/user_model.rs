use type3arabi::journal::KIND_CHOOSE;
use type3arabi::snapshot::SNAPSHOT_MAGIC;
use type3arabi::user::{fnv64, MemoryUser, NoUser, SnapshotMark, RAW_LATIN};

/// The user feature of a (key, word) pair, from the model's counts.
fn usr(u: &MemoryUser, key: &str, word: &str) -> f32 {
    let c = u.counts(key, word);
    (1.0 + c.chosen as f32).ln() + 0.3 * (1.0 + c.word as f32).ln()
        - 0.7 * (1.0 + c.negative as f32).ln()
}

#[test]
fn sticky_last_choice() {
    let mut u = MemoryUser::new();
    assert_eq!(u.sticky("hala2"), None);
    u.record("hala2", "هلق", 2, true, Some("هلأ"));
    assert_eq!(u.sticky("hala2").as_deref(), Some("هلق"));
    assert!(usr(&u, "hala2", "هلق") > usr(&u, "hala2", "هلأ"));
    u.record("hala2", "هلأ", 1, true, Some("هلق"));
    assert_eq!(u.sticky("hala2").as_deref(), Some("هلأ"));
}

#[test]
fn snapshot_round_trips_and_rejects_corruption() {
    let mut u = MemoryUser::new();
    u.record("hala2", "هلق", 2, true, Some("هلأ"));
    u.record("7abibi", "حبيبي", 0, false, None);
    u.record("hello", RAW_LATIN, 1, true, Some("هلو"));
    let mark = SnapshotMark {
        consumed: 384,
        prefix_hash: 7,
    };
    let bytes = u.encode_snapshot(mark);
    let (v, m) = MemoryUser::decode_snapshot(&bytes).expect("valid snapshot");
    assert_eq!(m, mark);
    for (k, w) in [
        ("hala2", "هلق"),
        ("hala2", "هلأ"),
        ("7abibi", "حبيبي"),
        ("hello", "هلو"),
    ] {
        assert_eq!(usr(&v, k, w), usr(&u, k, w), "{k} {w}");
    }
    assert_eq!(v.sticky("hello").as_deref(), Some(RAW_LATIN));
    assert_eq!(v.encode_snapshot(mark), bytes);
    let mut bad = bytes.clone();
    bad[20] ^= 1;
    assert!(MemoryUser::decode_snapshot(&bad).is_none());
    assert!(MemoryUser::decode_snapshot(&bytes[..bytes.len() - 1]).is_none());
}

#[test]
fn evict_keeps_the_most_recent_keys() {
    let mut u = MemoryUser::new();
    for i in 0..10 {
        u.record(&format!("k{i}"), "كلمة", 0, false, None);
    }
    u.record("k0", "كلمة", 0, false, None);
    u.evict(3);
    assert!(u.sticky("k0").is_some() && u.sticky("k9").is_some() && u.sticky("k8").is_some());
    assert!(u.sticky("k1").is_none());
}

#[test]
fn records_replay_to_the_same_choices() {
    let mut u = MemoryUser::new();
    u.record("ahlan", "أهلا", 0, false, None);
    u.record("ahlan", "اهلا", 1, true, Some("أهلا"));
    let mut v = MemoryUser::new();
    for r in u.to_records(0, 16) {
        let (l, a) = (r.latin_str().unwrap(), r.arabic_str().unwrap());
        match r.kind {
            KIND_CHOOSE => v.record(l, a, 0, false, None),
            _ => v.record_negative(l, a),
        }
    }
    assert_eq!(v.sticky("ahlan"), u.sticky("ahlan"));
    assert!(usr(&v, "ahlan", "اهلا") > usr(&v, "ahlan", "أهلا"));
}

#[test]
fn navigating_past_the_sticky_choice_unpins_it() {
    let mut u = MemoryUser::new();
    u.record("salam", "سلام", 0, false, None);
    assert_eq!(u.sticky("salam").as_deref(), Some("سلام"));
    u.record_negative("salam", "سلام");
    assert_eq!(u.sticky("salam"), None);
    let c = u.counts("salam", "سلام");
    assert_eq!((c.chosen, c.word, c.negative), (1, 1, 1));
}

#[test]
fn long_keys_are_not_learned() {
    let mut u = MemoryUser::new();
    let key = "a".repeat(33);
    u.record(&key, "ا", 0, false, None);
    assert_eq!(u.sticky(&key), None);
    assert!(u.has_room());
}

#[test]
fn lists_keep_the_four_most_recent_words() {
    let mut u = MemoryUser::new();
    for w in ["ا", "ب", "ت", "ث", "ج"] {
        u.record("x", w, 0, false, None);
    }
    assert_eq!(u.counts("x", "ا").chosen, 0);
    assert_eq!(u.counts("x", "ب").chosen, 1);
    assert_eq!(u.counts("x", "ا").word, 1);
}

#[test]
fn no_user_knows_nothing() {
    let n = NoUser;
    assert_eq!(n.sticky("x"), None);
    assert_eq!(n.counts("x", "y").chosen, 0);
}

#[test]
fn fnv64_known_values() {
    assert_eq!(fnv64(b""), 0xcbf2_9ce4_8422_2325);
    assert_eq!(fnv64(b"a"), 0xaf63_dc4c_8601_ec8c);
    assert_eq!(SnapshotMark::prefix_of(b"abc", 1), fnv64(b"a"));
    assert_eq!(SnapshotMark::prefix_of(b"abc", 99), fnv64(b"abc"));
}

#[test]
fn evict_to_zero_keys_forgets_everything() {
    let mut u = MemoryUser::new();
    u.record("k0", "كلمة", 0, false, None);
    u.record_negative("k0", "كلمه");
    u.record("k1", "كلمة", 0, false, None);
    u.evict(0);
    assert!(u.sticky("k0").is_none() && u.sticky("k1").is_none());
    assert_eq!(u.counts("k0", "كلمه").negative, 0);
}

#[test]
fn navigating_past_the_pinned_choice_unpins_it() {
    let mut u = MemoryUser::new();
    u.record("salam", "سلام", 0, false, None);
    u.record("kifak", "كيفك", 0, false, None);
    assert_eq!(u.sticky("salam").as_deref(), Some("سلام"));
    u.record_negative("salam", "صلام");
    assert_eq!(u.sticky("salam").as_deref(), Some("سلام"));
    u.record_negative("salam", "سلام");
    assert_eq!(u.sticky("salam"), None);
    assert_eq!(u.sticky("kifak").as_deref(), Some("كيفك"));
}

#[test]
fn snapshot_layout_and_every_flipped_byte_is_caught() {
    let mut u = MemoryUser::new();
    u.record("hala2", "هلق", 2, true, Some("هلأ"));
    u.record_negative("hala2", "هلأ");
    let mark = SnapshotMark {
        consumed: 0x0102_0304,
        prefix_hash: 0x1122_3344_5566_7788,
    };
    let bytes = u.encode_snapshot(mark);
    assert_eq!(&bytes[0..4], &SNAPSHOT_MAGIC.to_le_bytes());
    assert_eq!(&bytes[4..12], &mark.consumed.to_le_bytes());
    assert_eq!(&bytes[12..20], &mark.prefix_hash.to_le_bytes());
    let n = bytes.len();
    assert_eq!(&bytes[n - 8..], &fnv64(&bytes[..n - 8]).to_le_bytes());
    for i in 0..n {
        for x in [1u8, 0x80, 0xff] {
            let mut bad = bytes.clone();
            bad[i] ^= x;
            assert!(MemoryUser::decode_snapshot(&bad).is_none(), "byte {i} ^ {x}");
        }
    }
}

#[test]
fn replaying_an_export_keeps_every_pin() {
    let mut u = MemoryUser::new();
    u.record("ahlan", "أهلا", 0, false, None);
    u.record("salam", "سلام", 0, false, None);
    u.record("ahlan", "اهلا", 1, true, Some("أهلا"));
    u.record("kifak", "كيفك", 0, false, None);
    u.record("ahlan", "أهلا", 0, false, None);
    u.record_negative("kifak", "كيفك");
    u.record_negative("salam", "صلام");
    let mut v = MemoryUser::new();
    for r in u.to_records(0, 3) {
        let (l, a) = (r.latin_str().unwrap(), r.arabic_str().unwrap());
        match r.kind {
            KIND_CHOOSE => v.record(l, a, 0, false, None),
            _ => v.record_negative(l, a),
        }
    }
    for k in ["ahlan", "salam", "kifak", "other"] {
        assert_eq!(v.sticky(k), u.sticky(k), "{k}");
    }
    assert_eq!(v.sticky("ahlan").as_deref(), Some("أهلا"));
    assert_eq!(v.sticky("kifak"), None);
}

#[test]
fn eviction_keeps_exactly_the_most_recent_keys() {
    let mut u = MemoryUser::new();
    for i in 0..10 {
        u.record(&format!("k{i}"), "كلمة", 0, false, None);
    }
    u.record_negative("k2", "كلمة");
    u.evict(4);
    let kept: Vec<usize> = (0..10).filter(|i| u.sticky(&format!("k{i}")).is_some()).collect();
    assert_eq!(kept, vec![6, 7, 8, 9]);
    assert_eq!(u.counts("k2", "كلمة").negative, 0);
    u.evict(20);
    let kept: Vec<usize> = (0..10).filter(|i| u.sticky(&format!("k{i}")).is_some()).collect();
    assert_eq!(kept, vec![6, 7, 8, 9]);
}
