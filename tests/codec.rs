use git_status_tracker::codec::{decode, FileStates, ParseError};
use git_status_tracker::text::canonicalize;

fn states(pairs: &[(&str, u64)]) -> FileStates {
    let mut f = FileStates::new();
    for (c, n) in pairs {
        f.insert(c.to_string(), *n);
    }
    f
}

#[test]
fn decode_empty_is_empty() {
    let f = decode("").unwrap();
    assert_eq!(f.len(), 0);
}

#[test]
fn encode_empty_is_empty() {
    assert_eq!(FileStates::new().encode(), "");
}

#[test]
fn decode_two_segments() {
    let f = decode("3 M|1 ??").unwrap();
    assert_eq!(f.len(), 2);
    assert_eq!(f.get("M"), Some(3));
    assert_eq!(f.get("??"), Some(1));
    assert_eq!(f.get("A"), None);
}

#[test]
fn encode_sorts_by_code() {
    let f = states(&[("M", 3), ("??", 1)]);
    assert_eq!(f.encode(), "1 ?? | 3 M ");
}

#[test]
fn decode_non_numeric_count_fails() {
    assert_eq!(decode("X M").unwrap_err(), ParseError::InvalidCount);
}

#[test]
fn decode_missing_space_fails() {
    assert_eq!(decode("3M").unwrap_err(), ParseError::MissingSeparator);
}

#[test]
fn decode_count_overflow_fails() {
    assert_eq!(decode("18446744073709551616 M").unwrap_err(), ParseError::InvalidCount);
    assert_eq!(decode("18446744073709551615 M").unwrap().get("M"), Some(u64::MAX));
}

#[test]
fn decode_code_with_space_fails() {
    assert_eq!(decode("3 M X").unwrap_err(), ParseError::InvalidCode);
}

#[test]
fn decode_skips_empty_segments_and_trims() {
    let f = decode("|| 2 M |").unwrap();
    assert_eq!(f.len(), 1);
    assert_eq!(f.get("M"), Some(2));
}

#[test]
fn decode_later_segment_replaces_earlier() {
    let f = decode("1 M|4 M").unwrap();
    assert_eq!(f.len(), 1);
    assert_eq!(f.get("M"), Some(4));
}

#[test]
fn decode_then_encode_then_decode_keeps_values() {
    let f = decode("3 M|1 ??|12 A").unwrap();
    let s = f.encode();
    assert_eq!(s, "1 ?? | 12 A | 3 M ");
    let g = decode(&s).unwrap();
    assert_eq!(g.len(), 3);
    assert_eq!(g.get("M"), Some(3));
    assert_eq!(g.get("??"), Some(1));
    assert_eq!(g.get("A"), Some(12));
    assert_eq!(g.encode(), s);
}

#[test]
fn encode_renders_zero_and_large_counts() {
    let f = states(&[("b", 0), ("a", 1234567890)]);
    assert_eq!(f.encode(), "1234567890 a | 0 b ");
}

#[test]
fn insert_replaces_count() {
    let mut f = states(&[("M", 1)]);
    f.insert("M".to_string(), 7);
    assert_eq!(f.len(), 1);
    assert_eq!(f.get("M"), Some(7));
}

#[test]
fn from_entries_checks_order() {
    let good = vec![("A".to_string(), 1), ("M".to_string(), 2)];
    assert!(FileStates::from_entries(good).is_some());
    let bad = vec![("M".to_string(), 2), ("A".to_string(), 1)];
    assert!(FileStates::from_entries(bad).is_none());
    let dup = vec![("A".to_string(), 2), ("A".to_string(), 1)];
    assert!(FileStates::from_entries(dup).is_none());
}

#[test]
fn canonicalize_strips_one_separator() {
    assert_eq!(canonicalize("foo/bar/"), canonicalize("foo/bar"));
    assert_eq!(canonicalize("foo/bar/"), "foo/bar");
    assert_eq!(canonicalize("  /home/u/proj/ \n"), "/home/u/proj");
    assert_eq!(canonicalize("a//"), "a/");
    assert_eq!(canonicalize(""), "");
}

#[test]
fn decode_accepts_tab_inside_code() {
    let f = decode("1 M\tX|2 A").unwrap();
    assert_eq!(f.len(), 2);
    assert_eq!(f.get("M\tX"), Some(1));
    assert_eq!(f.encode(), "2 A | 1 M\tX ");
    let g = decode(&f.encode()).unwrap();
    assert_eq!(g.get("M\tX"), Some(1));
}

#[test]
fn decode_strips_only_spaces_around_segments() {
    assert_eq!(decode("\t1 M").unwrap_err(), ParseError::InvalidCount);
    assert_eq!(decode("  1 M  ").unwrap().get("M"), Some(1));
}
