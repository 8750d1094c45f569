use std::collections::HashSet;
use std::str::FromStr;

use mnemonic_recover::candidate::{address_matches, DerivationAnomaly, Verifier};
use mnemonic_recover::config::{count_words, parse_scheme, AddressScheme, ConfigError, Job};
use mnemonic_recover::odometer::Odometer;
use mnemonic_recover::partition::partition;
use mnemonic_recover::phrase::{assemble, is_whitespace_char, Wordlist};
use mnemonic_recover::progress::{Report, Throughput};
use mnemonic_recover::worker::{Step, Worker};

const ELEVEN: &str =
    "abandon abandon abandon abandon abandon abandon abandon abandon abandon abandon abandon";
const FULL: &str =
    "abandon abandon abandon abandon abandon abandon abandon abandon abandon abandon abandon about";

/// The address the way it is usually derived: the account key, its public
/// key, then the two non-hardened levels.
fn reference_address(phrase: &str) -> String {
    let m = bip39::Mnemonic::parse_in_normalized(bip39::Language::English, phrase).unwrap();
    let seed = m.to_seed("");
    let secp = bitcoin::secp256k1::Secp256k1::new();
    let root = bitcoin::bip32::Xpriv::new_master(bitcoin::Network::Bitcoin, &seed).unwrap();
    let path = bitcoin::bip32::DerivationPath::from_str("m/44'/0'/0'").unwrap();
    let child = root.derive_priv(&secp, &path).unwrap();
    let xpub = bitcoin::bip32::Xpub::from_priv(&secp, &child);
    let zero = bitcoin::bip32::ChildNumber::from_normal_idx(0).unwrap();
    let pk = xpub.derive_pub(&secp, &[zero, zero]).unwrap().public_key;
    bitcoin::Address::p2wpkh(&bitcoin::PublicKey::new(pk), bitcoin::Network::Bitcoin)
        .unwrap()
        .to_string()
}

fn search(job: &Job, start: usize, end: usize) -> Option<String> {
    let words = Wordlist::english();
    let verifier = Verifier::new(job);
    let mut worker = Worker::new(job, start, end);
    loop {
        match worker.run(job, &words, &verifier, 500) {
            Step::Found(p) => return Some(p),
            Step::Exhausted(_) => return None,
            Step::Anomaly(p) => panic!("derivation failed for {}", p),
            Step::Progress(n) => assert_eq!(n, 500),
        }
    }
}

#[test]
fn odometer_counts_with_carry() {
    let mut o = Odometer::new(2, 5);
    assert_eq!(o.digits(), &vec![0, 5]);
    assert_eq!(o.outer(), 5);
    assert!(!o.advance());
    assert_eq!(o.digits(), &vec![1, 5]);
    for _ in 0..2046 {
        assert!(!o.advance());
    }
    assert_eq!(o.digits(), &vec![2047, 5]);
    assert!(!o.advance());
    assert_eq!(o.digits(), &vec![0, 6]);
    assert_eq!(o.outer(), 6);
}

#[test]
fn odometer_single_digit_visits_each_index_once() {
    let mut o = Odometer::new(1, 0);
    let mut seen = HashSet::new();
    seen.insert(o.digits().clone());
    let mut steps = 0;
    while !o.advance() {
        assert!(o.digits()[0] < 2048);
        assert!(seen.insert(o.digits().clone()));
        steps += 1;
    }
    assert_eq!(steps, 2047);
    assert_eq!(seen.len(), 2048);
    assert_eq!(o.digits(), &vec![0]);
}

#[test]
fn odometer_wraps_after_last_position() {
    let mut o = Odometer::new(2, 2047);
    for _ in 0..2047 {
        assert!(!o.advance());
    }
    assert_eq!(o.digits(), &vec![2047, 2047]);
    assert!(o.advance());
    assert_eq!(o.digits(), &vec![0, 0]);
}

fn check_partition(n: usize) {
    let rs = partition(n);
    assert_eq!(rs.len(), n);
    assert_eq!(rs[0].0, 0);
    assert_eq!(rs[n - 1].1, 2048);
    let mut hits = vec![0u32; 2048];
    for (i, r) in rs.iter().enumerate() {
        assert!(r.0 <= r.1);
        if i + 1 < n {
            assert_eq!(r.1, rs[i + 1].0);
        }
        for x in r.0..r.1 {
            hits[x] += 1;
        }
    }
    assert!(hits.iter().all(|&h| h == 1));
}

#[test]
fn partition_is_disjoint_and_exhaustive() {
    for n in [1, 2, 3, 4, 7, 100, 2047, 2048, 3000] {
        check_partition(n);
    }
}

#[test]
fn partition_of_three() {
    assert_eq!(partition(3), vec![(0, 682), (682, 1364), (1364, 2048)]);
}

#[test]
fn assemble_tail_and_head() {
    assert_eq!(assemble("a b", "c", false), "a b c");
    assert_eq!(assemble("a b", "c", true), "c a b");
}

#[test]
fn assemble_round_trip_gives_twelve_tokens() {
    let words = Wordlist::english();
    let gap = words.render(&vec![3, 2047]);
    assert_eq!(gap, "about zoo");
    let known = "abandon ability able absent absorb abstract absurd abuse access accident";
    for head in [false, true] {
        let phrase = assemble(known, &gap, head);
        let tokens: Vec<&str> = phrase.split_whitespace().collect();
        assert_eq!(tokens.len(), 12);
        let known_tokens: Vec<&str> = known.split_whitespace().collect();
        if head {
            assert_eq!(&tokens[2..], &known_tokens[..]);
            assert_eq!(&tokens[..2], &["about", "zoo"]);
        } else {
            assert_eq!(&tokens[..10], &known_tokens[..]);
            assert_eq!(&tokens[10..], &["about", "zoo"]);
        }
    }
}

#[test]
fn render_uses_the_english_list() {
    let words = Wordlist::english();
    assert_eq!(words.render(&vec![0]), "abandon");
    assert_eq!(words.render(&vec![2047]), "zoo");
    assert_eq!(words.render(&vec![1, 0, 2]), "ability abandon able");
}

#[test]
fn counts_words_on_any_whitespace() {
    assert_eq!(count_words(""), 0);
    assert_eq!(count_words("   "), 0);
    assert_eq!(count_words("a"), 1);
    assert_eq!(count_words("  a \t b\nc  "), 3);
    assert_eq!(count_words(ELEVEN), 11);
}

#[test]
fn scheme_tag() {
    assert_eq!(parse_scheme("p2wpkh"), Ok(AddressScheme::P2wpkh));
    assert_eq!(parse_scheme("p2pkh"), Err(ConfigError::UnsupportedAddressScheme));
    assert_eq!(parse_scheme("p2wpkx"), Err(ConfigError::UnsupportedAddressScheme));
    assert_eq!(parse_scheme(""), Err(ConfigError::UnsupportedAddressScheme));
}

#[test]
fn unsupported_scheme_fails_at_configuration() {
    let r = Job::new(ELEVEN, false, "p2tr", "bc1q");
    assert!(matches!(r, Err(ConfigError::UnsupportedAddressScheme)));
}

#[test]
fn word_count_out_of_range_is_refused() {
    assert!(matches!(Job::new("", false, "p2wpkh", "x"), Err(ConfigError::WordCount)));
    assert!(matches!(Job::new(FULL, false, "p2wpkh", "x"), Err(ConfigError::WordCount)));
    let job = Job::new(ELEVEN, true, "p2wpkh", "x").ok().unwrap();
    assert_eq!(job.missing, 1);
    assert!(job.head);
    assert_eq!(job.known, ELEVEN);
    assert_eq!(job.target, "x");
}

#[test]
fn verifier_accepts_the_right_phrase() {
    let target = reference_address(FULL);
    let job = Job::new(ELEVEN, false, "p2wpkh", &target).ok().unwrap();
    let v = Verifier::new(&job);
    assert_eq!(v.check(FULL), Ok(true));
    // the same input gives the same answer
    assert_eq!(v.check(FULL), Ok(true));
}

#[test]
fn verifier_rejects_malformed_phrases() {
    let target = reference_address(FULL);
    let job = Job::new(ELEVEN, false, "p2wpkh", &target).ok().unwrap();
    let v = Verifier::new(&job);
    let bad_checksum = format!("{} abandon", ELEVEN);
    assert_eq!(Ok(false), v.check(&bad_checksum));
    let bad_word = format!("{} notaword", ELEVEN);
    assert_eq!(Ok(false), v.check(&bad_word));
    assert_eq!(Ok(false), v.check(ELEVEN));
    assert_eq!(Ok(false), v.check(""));
}

#[test]
fn verifier_rejects_another_address() {
    let other = "abandon abandon abandon abandon abandon abandon abandon abandon abandon abandon abandon cactus";
    let target = reference_address(other);
    let job = Job::new(ELEVEN, false, "p2wpkh", &target).ok().unwrap();
    let v = Verifier::new(&job);
    assert_eq!(Ok(false), v.check(FULL));
    assert_eq!(v.check(other), Ok(true));
}

#[test]
fn address_match_compares_exactly() {
    let t = "bc1qabc".to_string();
    assert!(address_matches(&Some("bc1qabc".to_string()), &t));
    assert!(!address_matches(&Some("bc1qab".to_string()), &t));
    assert!(!address_matches(&None, &t));
}

#[test]
fn search_finds_the_missing_last_word() {
    let target = reference_address(FULL);
    let job = Job::new(ELEVEN, false, "p2wpkh", &target).ok().unwrap();
    let found = search(&job, 0, 2048).unwrap();
    assert_eq!(found, FULL);
    assert_eq!(found.split_whitespace().last(), Some("about"));
}

#[test]
fn search_finds_the_missing_first_word() {
    let target = reference_address(FULL);
    let known = "abandon abandon abandon abandon abandon abandon abandon abandon abandon abandon about";
    let job = Job::new(known, true, "p2wpkh", &target).ok().unwrap();
    let found = search(&job, 0, 1).unwrap();
    assert_eq!(found, FULL);
}

#[test]
fn search_outside_the_range_is_exhausted() {
    let target = reference_address(FULL);
    let job = Job::new(ELEVEN, false, "p2wpkh", &target).ok().unwrap();
    let words = Wordlist::english();
    let verifier = Verifier::new(&job);
    let mut worker = Worker::new(&job, 0, 3);
    match worker.run(&job, &words, &verifier, 10) {
        Step::Exhausted(n) => assert_eq!(n, 3),
        _ => panic!("expected the range to run out"),
    }
    assert!(matches!(worker.run(&job, &words, &verifier, 10), Step::Exhausted(0)));
    let mut empty = Worker::new(&job, 7, 7);
    assert!(matches!(empty.run(&job, &words, &verifier, 10), Step::Exhausted(0)));
}

#[test]
fn search_reports_progress_in_budgets() {
    let job = Job::new(ELEVEN, false, "p2wpkh", "nothing").ok().unwrap();
    let words = Wordlist::english();
    let verifier = Verifier::new(&job);
    let mut worker = Worker::new(&job, 0, 5);
    assert!(matches!(worker.run(&job, &words, &verifier, 2), Step::Progress(2)));
    assert!(matches!(worker.run(&job, &words, &verifier, 2), Step::Progress(2)));
    assert!(matches!(worker.run(&job, &words, &verifier, 2), Step::Exhausted(1)));
}

#[test]
fn throughput_rate_from_synthetic_messages() {
    let mut t = Throughput::new(100, 0);
    assert_eq!(t.record(60, 500), None);
    assert_eq!(t.record(60, 1000), Some(Report { total: 120, rate: 120 }));
    assert_eq!(t.record(100, 1500), Some(Report { total: 220, rate: 200 }));
    assert_eq!(t.record(50, 1600), None);
    assert_eq!(t.record(50, 2500), Some(Report { total: 320, rate: 100 }));
    assert_eq!(t.total, 320);
}

#[test]
fn throughput_with_no_elapsed_time() {
    let mut t = Throughput::new(10, 42);
    assert_eq!(t.record(10, 42), Some(Report { total: 10, rate: 10_000 }));
}

#[test]
fn verifier_ignores_extra_whitespace() {
    let target = reference_address(FULL);
    let job = Job::new(ELEVEN, false, "p2wpkh", &target).ok().unwrap();
    let v = Verifier::new(&job);
    let spaced = format!("  {}\t\n", FULL.replace(' ', "  "));
    assert_eq!(v.check(&spaced), Ok(true));
    let _: Result<bool, DerivationAnomaly> = v.check(&spaced);
}

#[test]
fn counts_words_on_unicode_whitespace() {
    assert_eq!(count_words("a\u{a0}b\u{3000}c\u{2009}d"), 4);
    assert_eq!("a\u{a0}b\u{3000}c\u{2009}d".split_whitespace().count(), 4);
    for c in ['\t', '\n', ' ', '\u{85}', '\u{a0}', '\u{1680}', '\u{2000}', '\u{200a}', '\u{3000}'] {
        assert!(is_whitespace_char(c));
        assert!(c.is_whitespace());
    }
    for c in ['a', 'z', '\u{200b}', '0', '-'] {
        assert!(!is_whitespace_char(c));
        assert_eq!(c.is_whitespace(), false);
    }
}

#[test]
fn wordlist_words_are_single_tokens_and_distinct() {
    let words = Wordlist::english();
    let mut seen = HashSet::new();
    for i in 0..2048usize {
        let w = words.render(&vec![i]);
        assert!(!w.is_empty());
        assert_eq!(w.split_whitespace().count(), 1);
        assert!(seen.insert(w));
    }
}
