use si::defs::Defs;
use si::engine::interpolate;
use si::engine::InterpError;
use si::engine::Outcome;

fn city_os_defs() -> Defs {
    let mut d = Defs::new();
    d.insert("city", String::from("newyork"));
    d.insert("os", String::from("linux"));
    d
}

#[test]
fn plain_text_passes_through() {
    let d = Defs::new();
    let (r, outs) = interpolate("no placeholders here, just text { } $", &d, false);
    assert_eq!(r.unwrap(), "no placeholders here, just text { } $");
    assert!(outs.is_empty());
}

#[test]
fn empty_input() {
    let d = city_os_defs();
    let (r, outs) = interpolate("", &d, true);
    assert_eq!(r.unwrap(), "");
    assert!(outs.is_empty());
}

#[test]
fn concrete_scenario_city_os() {
    let d = city_os_defs();
    let (r, _) = interpolate("City: ${city}, OS: ${os}", &d, false);
    assert_eq!(r.unwrap(), "City: newyork, OS: linux");
}

#[test]
fn replaces_span_exactly() {
    let mut d = Defs::new();
    d.insert("name", String::from("world"));
    let (r, _) = interpolate("hello ${name}!", &d, true);
    assert_eq!(r.unwrap(), "hello world!");
}

#[test]
fn empty_value_splices_to_nothing() {
    let mut d = Defs::new();
    d.insert("gone", String::from(""));
    let (r, _) = interpolate("a${gone}b", &d, true);
    assert_eq!(r.unwrap(), "ab");
}

#[test]
fn value_with_guards_is_not_rescanned() {
    let mut d = Defs::new();
    d.insert("outer", String::from("${inner}"));
    d.insert("inner", String::from("should never appear"));
    let (r, outs) = interpolate("x ${outer} y", &d, true);
    assert_eq!(r.unwrap(), "x ${inner} y");
    assert_eq!(outs.len(), 1);
}

#[test]
fn case_insensitive_lookup() {
    let mut d = Defs::new();
    d.insert("City", String::from("newyork"));
    for input in ["${city}", "${CITY}", "${CiTy}"] {
        let (r, _) = interpolate(input, &d, true);
        assert_eq!(r.unwrap(), "newyork");
    }
}

#[test]
fn unresolved_nonstrict_passes_through() {
    let d = Defs::new();
    let (r, outs) = interpolate("keep ${missing} as is", &d, false);
    assert_eq!(r.unwrap(), "keep ${missing} as is");
    assert_eq!(outs.len(), 1);
    assert!(matches!(&outs[0], Outcome::NotFound { key } if key == "missing"));
}

#[test]
fn unresolved_strict_fails_naming_key() {
    let d = city_os_defs();
    let (r, _) = interpolate("City: ${city}, ${missing}", &d, true);
    match r {
        Err(InterpError::ResolutionError { key }) => assert_eq!(key, "missing"),
        _ => panic!("expected a resolution error"),
    }
}

#[test]
fn mismatched_guard_reports_line_zero() {
    let d = Defs::new();
    let (r, _) = interpolate("hello ${name", &d, false);
    match r {
        Err(InterpError::MismatchedGuard { line }) => assert_eq!(line, 0),
        _ => panic!("expected a mismatched guard error"),
    }
}

#[test]
fn mismatched_guard_line_counts_newlines_before_cursor() {
    let mut d = Defs::new();
    d.insert("x", String::from("X"));
    let (r, _) = interpolate("line1\n${x} ${broken", &d, false);
    match r {
        Err(InterpError::MismatchedGuard { line }) => assert_eq!(line, 1),
        _ => panic!("expected a mismatched guard error"),
    }
}

#[test]
fn scanning_resumes_after_substituted_text() {
    let mut d = Defs::new();
    d.insert("a", String::from("1"));
    d.insert("b", String::from("2"));
    let (r, _) = interpolate("${a}${b}${a}", &d, true);
    assert_eq!(r.unwrap(), "121");
}

#[test]
fn outcomes_are_reported_in_scan_order() {
    let mut d = Defs::new();
    d.insert("known", String::from("yes"));
    let (r, outs) = interpolate("${known} ${unknown} ${known}", &d, false);
    assert_eq!(r.unwrap(), "yes ${unknown} yes");
    assert_eq!(outs.len(), 3);
    assert!(matches!(&outs[0], Outcome::Found { key, value } if key == "known" && value == "yes"));
    assert!(matches!(&outs[1], Outcome::NotFound { key } if key == "unknown"));
    assert!(matches!(&outs[2], Outcome::Found { key, value } if key == "known" && value == "yes"));
}

#[test]
fn strict_failure_keeps_earlier_outcomes() {
    let mut d = Defs::new();
    d.insert("a", String::from("1"));
    let (r, outs) = interpolate("${a}${missing}${a}", &d, true);
    assert!(r.is_err());
    assert_eq!(outs.len(), 2);
    assert!(matches!(&outs[1], Outcome::NotFound { key } if key == "missing"));
}

#[test]
fn empty_key_placeholder() {
    let d = Defs::new();
    let (r, outs) = interpolate("${}", &d, false);
    assert_eq!(r.unwrap(), "${}");
    assert!(matches!(&outs[0], Outcome::NotFound { key } if key.is_empty()));
}

#[test]
fn lone_closing_brace_is_literal() {
    let mut d = Defs::new();
    d.insert("k", String::from("v"));
    let (r, _) = interpolate("a } b ${k} c", &d, true);
    assert_eq!(r.unwrap(), "a } b v c");
}
