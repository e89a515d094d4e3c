use sdr_acars::label::lookup;

#[test]
fn lookup_known_labels() {
    assert_eq!(lookup(*b"H1"), Some("Crew message"));
    assert_eq!(lookup(*b"Q0"), Some("Link test"));
    assert_eq!(lookup(*b"M1"), Some("Position report"));
    assert_eq!(lookup(*b"_d"), Some("General downlink"));
    assert_eq!(lookup(*b"RB"), Some("Schedule (alias for 26)"));
}

#[test]
fn lookup_numeric_labels() {
    assert_eq!(lookup(*b"10"), Some("Arrival info"));
    assert_eq!(lookup(*b"11"), Some("Out (gate)"));
    assert_eq!(lookup(*b"12"), Some("Off (wheels)"));
    assert_eq!(lookup(*b"13"), Some("On (wheels)"));
    assert_eq!(lookup(*b"14"), Some("In (gate)"));
}

#[test]
fn lookup_unknown_returns_none() {
    assert_eq!(lookup([0xFF, 0xFF]), None);
    assert_eq!(lookup(*b"ZZ"), None);
}

#[test]
fn lookup_is_case_sensitive() {
    assert_eq!(lookup(*b"h1"), None);
}
