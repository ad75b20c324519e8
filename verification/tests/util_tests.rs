use prompt_manager::util::{fnv_mix, id_stamp, iso_from_unix, new_id, new_token, prefixed, slugify};

#[test]
fn iso_known_values() {
    assert_eq!(iso_from_unix(0), "1970-01-01T00:00:00Z");
    assert_eq!(iso_from_unix(951_782_400), "2000-02-29T00:00:00Z");
    assert_eq!(iso_from_unix(1_753_228_800), "2025-07-23T00:00:00Z");
}

#[test]
fn slugs() {
    assert_eq!(slugify("Code review – Rust"), "code-review-rust");
    assert_eq!(slugify("Žluťoučký kůň!!"), "zlutoucky-kun");
    assert_eq!(slugify("---"), "untitled");
    assert_eq!(slugify("Překlad EN → CZ (technický)"), "preklad-en-cz-technicky");
}

fn fnv(h: &mut u64, bytes: &[u8]) {
    for b in bytes {
        *h ^= *b as u64;
        *h = h.wrapping_mul(0x100000001b3);
    }
}

#[test]
fn ids_unique() {
    let a: Vec<String> = (0..100u64).map(|c| new_id("p", 1_753_228_800_000_000_000, c, 0xbeef)).collect();
    let mut set = a.clone();
    set.sort();
    set.dedup();
    assert_eq!(set.len(), 100);
    assert!(a[0].starts_with("p-"));
}

#[test]
fn id_layout() {
    assert_eq!(new_id("p", 0x1a2b, 0x1ff, 0x12345), "p-1a2bff2345");
    assert_eq!(new_id("r", 0, 5, 0x7), "r-0050007");
    assert_eq!(id_stamp(0x1a2b, 0x1ff, 0x12345), "1a2bff2345");
    assert_eq!(prefixed("p", "1"), "p-1");
}

#[test]
fn tokens_long_and_distinct() {
    let t1 = new_token(1_753_228_800_000_000_123, 4242, 0, 0x7fff_0000_1000, 0x7fff_0000_2000);
    let t2 = new_token(1_753_228_800_000_000_123, 4242, 1, 0x7fff_0000_1000, 0x7fff_0000_2000);
    assert_eq!(t1.len(), 64);
    assert_ne!(t1, t2);
    assert!(t1.chars().all(|c| c.is_ascii_hexdigit() && !c.is_ascii_uppercase()));
}

#[test]
fn token_is_fnv_of_its_sources() {
    let (nanos, pid, counter, addr, thread) = (0x0102_0304_0506_0708_090a_0b0c_0d0e_0f10u128, 7u64, 3u64, 11u64, 13u64);
    let mut h: u64 = 0xcbf29ce484222325;
    fnv(&mut h, &(nanos as u64).to_le_bytes());
    fnv(&mut h, &((nanos >> 64) as u64).to_le_bytes());
    fnv(&mut h, &pid.to_le_bytes());
    fnv(&mut h, &(counter ^ 0x5851f42d4c957f2d).to_le_bytes());
    fnv(&mut h, &addr.to_le_bytes());
    fnv(&mut h, &thread.to_le_bytes());
    let mut expected = String::new();
    for i in 0..4u64 {
        fnv(&mut h, &(0x9e3779b97f4a7c15u64 ^ i).to_le_bytes());
        expected.push_str(&format!("{:016x}", h));
    }
    assert_eq!(new_token(nanos, pid, counter, addr, thread), expected);
}

#[test]
fn fnv_mix_matches_fnv1a() {
    // FNV-1a of "a" is a known value
    assert_eq!(fnv_mix(0xcbf29ce484222325, b"a"), 0xaf63dc4c8601ec8c);
    assert_eq!(fnv_mix(0xcbf29ce484222325, b""), 0xcbf29ce484222325);
}

#[test]
fn ids_differ_by_the_counters_low_byte() {
    assert_ne!(new_id("p", 5, 1, 7), new_id("p", 5, 2, 7));
    // only the low byte of the counter is written
    assert_eq!(new_id("p", 5, 1, 7), new_id("p", 5, 257, 7));
}

#[test]
fn a_slug_slugs_to_itself() {
    for title in ["Žluťoučký kůň -- úpěl!", "  ", "Hello, World", "--a--b--", "ČSN 2024/7"] {
        let s = slugify(title);
        assert_eq!(slugify(&s), s);
    }
}

#[test]
fn iso_stamps_have_the_fixed_shape_up_to_year_9999() {
    assert_eq!(iso_from_unix(253_402_300_799), "9999-12-31T23:59:59Z");
    assert_eq!(iso_from_unix(951_782_400), "2000-02-29T00:00:00Z");
    for secs in [0i64, 59, 86_399, 1_700_000_000, 253_402_300_799] {
        let t = iso_from_unix(secs);
        assert_eq!(t.len(), 20);
        assert_eq!(&t[4..5], "-");
        assert_eq!(&t[10..11], "T");
        assert!(t.ends_with('Z'));
    }
}

#[test]
fn iso_stamps_sort_as_the_times_do() {
    let times = [0i64, 1, 59, 60, 3_599, 3_600, 86_399, 86_400, 951_782_399, 951_782_400, 1_700_000_000, 253_402_300_799];
    for w in times.windows(2) {
        assert!(iso_from_unix(w[0]) < iso_from_unix(w[1]), "{} vs {}", w[0], w[1]);
    }
}
