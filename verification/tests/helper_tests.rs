use latte::alternator_error::signal_failure;
use latte::alternator_error::AlternatorError;
use latte::alternator_error::AlternatorErrorKind;
use latte::generators::blob;
use latte::generators::hash;
use latte::generators::hash2;
use latte::generators::hash_range;
use latte::generators::hash_select;
use latte::generators::now_timestamp;
use latte::generators::text;
use latte::registry::Partition;
use latte::strutil::eq_str;
use latte::strutil::join;
use latte::strutil::split_words;
use latte::strutil::u64_to_string;

#[test]
fn hash_is_deterministic_and_non_negative() {
    assert_eq!(hash(1), hash(1));
    assert_eq!(hash(-17), hash(-17));
    assert!(hash(0) >= 0);
    assert!(hash(i64::MIN) >= 0);
    // the digest actually mixes its input
    assert_ne!(hash(1), hash(2));
    assert_ne!(hash(1), 1);
}

#[test]
fn hash2_depends_on_both_values() {
    assert_eq!(hash2(3, 4), hash2(3, 4));
    assert!(hash2(3, 4) >= 0);
    assert_ne!(hash2(3, 4), hash2(4, 3));
    assert_ne!(hash2(3, 4), hash2(3, 5));
}

#[test]
fn hash_range_stays_inside_the_bound() {
    for i in -5i64..5 {
        let r = hash_range(i, 7);
        assert!((0..7).contains(&r));
        assert_eq!(r, hash(i) % 7);
    }
    assert_eq!(hash_range(42, 1), 0);
}

#[test]
fn hash_select_picks_the_hashed_index() {
    let items = vec!["a".to_string(), "b".to_string(), "c".to_string()];
    let picked = hash_select(5, &items);
    let expected = &items[(hash(5) % 3) as usize];
    assert_eq!(picked, expected);
    // deterministic
    assert_eq!(hash_select(5, &items), picked);
}

#[test]
fn blob_has_the_requested_length_and_is_seeded() {
    assert_eq!(blob(1, 0).len(), 0);
    assert_eq!(blob(1, 16).len(), 16);
    assert_eq!(blob(1, 16), blob(1, 16));
    // a different seed gives a different stream
    assert_ne!(blob(1, 16), blob(2, 16));
}

#[test]
fn text_draws_from_the_charset() {
    let charset = "abcdefghijklmnopqrstuvwxyzABCDEFGHIJKLMNOPQRSTUVWXYZ0123456789!@#$%^&*()_+-=[]{}|;:',.<>?/";
    let t = text(7, 32);
    assert_eq!(t.chars().count(), 32);
    for c in t.chars() {
        assert!(charset.contains(c), "unexpected character {c}");
    }
    assert_eq!(text(7, 32), t);
    assert_eq!(text(7, 0), "");
}

#[test]
fn now_timestamp_is_a_recent_unix_time() {
    let t = now_timestamp();
    // after 2020-01-01 and before 2100-01-01
    assert!(t > 1_577_836_800);
    assert!(t < 4_102_444_800);
}

#[test]
fn join_inserts_the_separator_between_entries() {
    let items = vec!["a".to_string(), "b".to_string(), "c".to_string()];
    assert_eq!(join(&items, ", "), "a, b, c");
    assert_eq!(join(&items, ""), "abc");
    assert_eq!(join(&vec!["x".to_string()], ", "), "x");
    assert_eq!(join(&Vec::new(), ", "), "");
}

#[test]
fn split_words_keeps_the_alphabetic_runs() {
    let words = split_words("hello,world  foo");
    assert_eq!(words, vec!["hello", "world", "foo"]);
    assert_eq!(split_words(""), Vec::<String>::new());
    assert_eq!(split_words("123 456"), Vec::<String>::new());
    assert_eq!(split_words("123abc456def"), vec!["abc", "def"]);
    assert_eq!(split_words("one"), vec!["one"]);
}

#[test]
fn u64_to_string_renders_decimal_digits() {
    assert_eq!(u64_to_string(0), "0");
    assert_eq!(u64_to_string(7), "7");
    assert_eq!(u64_to_string(10), "10");
    assert_eq!(u64_to_string(1234567890), "1234567890");
    assert_eq!(u64_to_string(u64::MAX), "18446744073709551615");
}

#[test]
fn eq_str_compares_by_characters() {
    assert!(eq_str("", ""));
    assert!(eq_str("abc", "abc"));
    assert!(!eq_str("abc", "abd"));
    assert!(!eq_str("abc", "abcd"));
    assert!(eq_str("naïve", "naïve"));
}

#[test]
fn signal_failure_raises_a_custom_error() {
    let err = signal_failure("boom").unwrap_err();
    match err.0 {
        AlternatorErrorKind::CustomError(msg) => assert_eq!(msg, "boom"),
        other => panic!("unexpected error kind: {other:?}"),
    }
}

#[test]
fn query_retries_exceeded_names_the_budget() {
    let err = AlternatorError::query_retries_exceeded(17);
    match err.0 {
        AlternatorErrorKind::QueryRetriesExceeded(msg) => {
            assert_eq!(msg, "Max retry attempts (17) reached");
        }
        other => panic!("unexpected error kind: {other:?}"),
    }
}

#[test]
fn partition_cursor_supports_increment_and_decrement() {
    let mut p = Partition {
        idx: 5,
        rows_num: 25,
    };
    p.idx += 2;
    assert_eq!(p.idx, 7);
    p.idx -= 1;
    assert_eq!(p.idx, 6);
    assert_eq!(p.rows_num, 25);
}
