use sosu_seisei_sieve::generator::generate_primes;
use sosu_seisei_sieve::settings::{validate_settings, RunSettings, SettingsError};
use sosu_seisei_sieve::verification::{
    check_line, parse_number, trim_line, Flagged, LineCheck, VerificationTally,
};

#[test]
fn trimming_and_parsing() {
    assert_eq!(trim_line(b"  42 \r\n"), b"42");
    assert_eq!(trim_line(b"\t\n "), b"");
    assert_eq!(parse_number(b"123"), Some(123));
    assert_eq!(parse_number(b"+5"), Some(5));
    assert_eq!(parse_number(b"007"), Some(7));
    assert_eq!(parse_number(b""), None);
    assert_eq!(parse_number(b"+"), None);
    assert_eq!(parse_number(b"12a"), None);
    assert_eq!(parse_number(b"-3"), None);
    assert_eq!(parse_number(b"18446744073709551615"), Some(u64::MAX));
    assert_eq!(parse_number(b"18446744073709551616"), None);
    assert_eq!(parse_number(b"99999999999999999999"), None);
}

#[test]
fn line_verdicts() {
    assert_eq!(check_line(b"97"), LineCheck::Prime(97));
    assert_eq!(check_line(b" 98\r"), LineCheck::Composite(98));
    assert_eq!(check_line(b"1"), LineCheck::Composite(1));
    assert_eq!(check_line(b"hello"), LineCheck::Invalid);
    assert_eq!(check_line(b""), LineCheck::Invalid);
}

#[test]
fn one_altered_entry_is_the_only_one_flagged() {
    let primes = generate_primes(2, 1000, 100);
    let mut lines: Vec<String> = primes.iter().map(|p| p.to_string()).collect();
    let idx = primes.iter().position(|&p| p == 97).unwrap();
    lines[idx] = "98".to_string();
    let mut tally = VerificationTally::new();
    for l in &lines {
        tally.record(l.as_bytes());
    }
    assert_eq!(tally.checked, lines.len() as u64);
    assert_eq!(tally.flagged.len(), 1);
    assert!(matches!(tally.flagged[0], Flagged::Composite(98)));
    assert!(!tally.all_verified());
}

#[test]
fn invalid_lines_are_flagged_with_their_text() {
    let mut tally = VerificationTally::new();
    assert_eq!(tally.record(b"2"), LineCheck::Prime(2));
    assert_eq!(tally.record(b"  not a number "), LineCheck::Invalid);
    assert_eq!(tally.record(b"9"), LineCheck::Composite(9));
    assert_eq!(tally.flagged.len(), 2);
    match &tally.flagged[0] {
        Flagged::Invalid(t) => assert_eq!(t, b"not a number"),
        other => panic!("unexpected {:?}", other),
    }
    assert!(matches!(tally.flagged[1], Flagged::Composite(9)));
}

#[test]
fn clean_list_verifies() {
    let mut tally = VerificationTally::new();
    for p in generate_primes(2, 10_000, 1000) {
        tally.record(p.to_string().as_bytes());
    }
    assert!(tally.all_verified());
    assert_eq!(tally.checked, 1229);
}

#[test]
fn settings_accept_a_good_range() {
    assert_eq!(
        validate_settings(b" 10 ", b"1000", b"0"),
        Ok(RunSettings { prime_min: 10, prime_max: 1000, split_count: 0 })
    );
}

#[test]
fn settings_errors_in_order() {
    assert_eq!(validate_settings(b"x", b"1000", b"5"), Err(vec![SettingsError::MinNotANumber]));
    assert_eq!(
        validate_settings(b"5", b"y", b"z"),
        Err(vec![SettingsError::MaxNotANumber, SettingsError::SplitNotANumber])
    );
    assert_eq!(
        validate_settings(b"1", b"1000000000000000000", b"0"),
        Err(vec![SettingsError::MaxTooLarge])
    );
    assert_eq!(validate_settings(b"101", b"100", b"0"), Err(vec![SettingsError::MinAboveMax]));
    assert_eq!(
        validate_settings(b"100", b"100", b"0"),
        Ok(RunSettings { prime_min: 100, prime_max: 100, split_count: 0 })
    );
    assert_eq!(
        validate_settings(b"20000000000", b"?", b"0"),
        Err(vec![SettingsError::MaxNotANumber, SettingsError::MinAboveMax])
    );
}
