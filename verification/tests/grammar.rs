use nsid::segment::{
    all_alnum, is_ascii_alnum, is_ascii_alpha, is_valid_domain_segment, is_valid_fragment_name,
    is_valid_nsid_name, is_valid_tld, segment_len_in_range, SEGMENT_LEN_MAX, SEGMENT_LEN_MIN,
};
use nsid::split::{find_byte, find_last_byte};

#[test]
fn segment_length_range() {
    assert_eq!(SEGMENT_LEN_MIN, 1);
    assert_eq!(SEGMENT_LEN_MAX, 63);
    assert!(!segment_len_in_range(0));
    assert!(segment_len_in_range(1));
    assert!(segment_len_in_range(63));
    assert!(!segment_len_in_range(64));
}

#[test]
fn byte_classes() {
    for c in 0u8..=255 {
        assert_eq!(is_ascii_alpha(c), c.is_ascii_alphabetic());
        assert_eq!(is_ascii_alnum(c), c.is_ascii_alphanumeric());
    }
    assert!(all_alnum(b""));
    assert!(all_alnum(b"abcXYZ019"));
    assert!(!all_alnum(b"abc-"));
}

#[test]
fn predicates_reject_empty_input() {
    assert!(!is_valid_tld(b""));
    assert!(!is_valid_domain_segment(b""));
    assert!(!is_valid_nsid_name(b""));
    assert!(!is_valid_fragment_name(b""));
}

#[test]
fn domain_segments() {
    assert!(is_valid_domain_segment(b"example"));
    assert!(is_valid_domain_segment(b"8"));
    assert!(is_valid_domain_segment(b"b-1"));
    assert!(is_valid_domain_segment(b"0a--b9"));
    assert!(!is_valid_domain_segment(b"-a"));
    assert!(!is_valid_domain_segment(b"a-"));
    assert!(!is_valid_domain_segment(b"-"));
    assert!(!is_valid_domain_segment(b"a_b"));
    assert!(!is_valid_domain_segment(b"a.b"));
    assert!(!is_valid_domain_segment("exa🤯ple".as_bytes()));
    assert!(is_valid_domain_segment("a".repeat(63).as_bytes()));
    assert!(!is_valid_domain_segment("a".repeat(64).as_bytes()));
}

#[test]
fn top_level_segments() {
    assert!(is_valid_tld(b"com"));
    assert!(is_valid_tld(b"a-0"));
    assert!(is_valid_tld(b"A"));
    assert!(!is_valid_tld(b"8"));
    assert!(!is_valid_tld(b"0a"));
    assert!(!is_valid_tld(b"-a"));
    assert!(!is_valid_tld(b"a-"));
    assert!(is_valid_tld("a".repeat(63).as_bytes()));
    assert!(!is_valid_tld("a".repeat(64).as_bytes()));
}

#[test]
fn name_segments() {
    assert!(is_valid_nsid_name(b"fooBar"));
    assert!(is_valid_nsid_name(b"c"));
    assert!(is_valid_nsid_name(b"f00"));
    assert!(!is_valid_nsid_name(b"0foo"));
    assert!(!is_valid_nsid_name(b"foo-bar"));
    assert!(!is_valid_nsid_name(b"foo_"));
    assert!(!is_valid_nsid_name("thíng".as_bytes()));
    assert!(is_valid_nsid_name("a".repeat(63).as_bytes()));
    assert!(!is_valid_nsid_name("a".repeat(64).as_bytes()));
}

#[test]
fn fragment_names() {
    assert!(is_valid_fragment_name(b"fooBar1"));
    assert!(is_valid_fragment_name(b"1"));
    assert!(!is_valid_fragment_name(b"a-b"));
    assert!(!is_valid_fragment_name(b"a b"));
    assert!(!is_valid_fragment_name(b"#a"));
    assert!(is_valid_fragment_name("a".repeat(63).as_bytes()));
    assert!(!is_valid_fragment_name("a".repeat(64).as_bytes()));
}

#[test]
fn finding_bytes() {
    let text = b"com.example.foo";
    assert_eq!(find_byte(text, 0, b'.'), 3);
    assert_eq!(find_byte(text, 3, b'.'), 3);
    assert_eq!(find_byte(text, 4, b'.'), 11);
    assert_eq!(find_byte(text, 12, b'.'), 15);
    assert_eq!(find_byte(text, 15, b'.'), 15);
    assert_eq!(find_byte(text, 0, b'#'), 15);
    assert_eq!(find_byte(b"", 0, b'.'), 0);
    assert_eq!(find_last_byte(text, b'.'), Some(11));
    assert_eq!(find_last_byte(text, b'e'), Some(10));
    assert_eq!(find_last_byte(text, b'c'), Some(0));
    assert_eq!(find_last_byte(text, b'#'), None);
    assert_eq!(find_last_byte(b"", b'.'), None);
    assert_eq!(find_last_byte(b".", b'.'), Some(0));
}
