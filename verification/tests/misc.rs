use arghda_core::agda::AgdaOutcome;
use arghda_core::config::parse;
use arghda_core::dispatch::{Dispatch, DEFAULT_ECHIDNA_URL};
use arghda_core::graph::{module_name_of, module_to_path};
use arghda_core::lint::unpinned_headline::DEFAULT_HEADLINE_PATTERN;
use arghda_core::prover::tail;
use arghda_core::timestamp::{now_rfc3339, rfc3339_from_unix};
use arghda_core::unused::{extract_json, parse_findings, parse_location, UnusedCheck};

#[test]
fn agda_tail_keeps_last_n_lines() {
    assert_eq!(tail("a\nb\nc\nd", 2), "c\nd");
    assert_eq!(tail("only", 5), "only");
    assert_eq!(tail("", 3), "");
    let o = AgdaOutcome::ran(Some(0), true, "x\ny");
    assert_eq!(o.output_tail, "x\ny");
}

#[test]
fn lint_table_overrides_headline_pattern() {
    let cfg = parse("[lint]\nheadline_pattern = \"^thm-.*$\"\n").unwrap();
    assert_eq!(cfg.headline_pattern, "^thm-.*$");
}

#[test]
fn empty_or_partial_file_keeps_defaults() {
    assert_eq!(parse("").unwrap().headline_pattern, DEFAULT_HEADLINE_PATTERN);
    assert_eq!(parse("[lint]\n").unwrap().headline_pattern, DEFAULT_HEADLINE_PATTERN);
}

#[test]
fn unknown_keys_are_rejected() {
    assert!(parse("[lint]\nheadline_patten = \"x\"\n").is_err());
    assert!(parse("[bogus]\nx = 1\n").is_err());
}

#[test]
fn malformed_toml_errors() {
    assert!(parse("[lint").is_err());
}

#[test]
fn parse_dispatch_values() {
    assert!(matches!(Dispatch::parse("local").unwrap(), Dispatch::Local));
    match Dispatch::parse("echidna").unwrap() {
        Dispatch::Echidna { base_url } => assert_eq!(base_url, DEFAULT_ECHIDNA_URL),
        _ => panic!("expected echidna"),
    }
    match Dispatch::parse("echidna=http://host:9000").unwrap() {
        Dispatch::Echidna { base_url } => assert_eq!(base_url, "http://host:9000"),
        _ => panic!("expected echidna with url"),
    }
    assert!(Dispatch::parse("nonsense").is_err());
}

#[test]
fn module_name_roundtrip() {
    let name = module_name_of("/r/Ordinal/Closure.agda", "/r").unwrap();
    assert_eq!(name, "Ordinal.Closure");
    assert_eq!(module_to_path(&name, "/r"), "/r/Ordinal/Closure.agda");
}

#[test]
fn epoch_is_unix_zero() {
    assert_eq!(rfc3339_from_unix(0), "1970-01-01T00:00:00Z");
}

#[test]
fn known_timestamp_round_trips() {
    assert_eq!(rfc3339_from_unix(1_700_000_000), "2023-11-14T22:13:20Z");
}

#[test]
fn leap_day_2024() {
    assert_eq!(rfc3339_from_unix(1_709_164_800), "2024-02-29T00:00:00Z");
}

#[test]
fn now_has_expected_shape() {
    let s = now_rfc3339();
    assert_eq!(s.len(), 20, "RFC3339 Z form is 20 chars: {s}");
    assert!(s.ends_with('Z'));
}

#[test]
fn default_outcome_is_unavailable_and_empty() {
    let c = UnusedCheck::default();
    assert!(!c.available);
    assert!(c.kind.is_none());
    assert!(c.diagnostics.is_empty());
}

#[test]
fn extract_json_finds_object_amid_noise() {
    assert_eq!(
        extract_json("warn: blah {\"type\":\"none\"} trailing").as_deref(),
        Some("{\"type\":\"none\"}")
    );
    assert_eq!(extract_json("no object here"), None);
}

#[test]
fn parse_location_reads_path_and_line() {
    let (f, l) = parse_location("/home/u/proj/Foo/Bar.agda:12,3-8").unwrap();
    assert_eq!(f, "/home/u/proj/Foo/Bar.agda");
    assert_eq!(l, Some(12));
}

#[test]
fn parse_location_tolerates_line_range_and_rejects_non_location() {
    assert_eq!(parse_location("X.agda:7,1-9,4").unwrap().1, Some(7));
    assert!(parse_location("  unused import \u{2018}Foo\u{2019}").is_none());
}

#[test]
fn parse_findings_pairs_real_location_with_description() {
    let msg = "/p/Main.agda:5,1-19\n  unused import \u{2018}Helper\u{2019}";
    let found = parse_findings(msg);
    assert_eq!(found.len(), 1);
    assert_eq!(found[0].0, "/p/Main.agda");
    assert_eq!(found[0].1, Some(5));
    assert_eq!(found[0].2, "unused import \u{2018}Helper\u{2019}");
}

#[test]
fn unused_tally_stops_at_a_missing_tool_and_notes_errors() {
    let mut t = arghda_core::unused::UnusedTally::new();
    assert!(t.note().is_none());
    assert!(t.record(Some("unused")));
    assert!(t.note().is_none());
    assert!(t.record(Some("error")));
    assert_eq!(t.note(), Some(arghda_core::unused::INCOMPLETE_NOTE));
    assert!(!t.record(None));
    assert_eq!(t.note(), Some(arghda_core::unused::TOOL_ABSENT_NOTE));
}

#[test]
fn extension_filter_matches_listed_extensions() {
    assert!(arghda_core::path::has_extension("r/A.agda", &["agda", "lagda"]));
    assert!(!arghda_core::path::has_extension("r/A.v", &["agda"]));
    assert!(!arghda_core::path::has_extension("r/Makefile", &["agda"]));
    assert!(!arghda_core::path::has_extension("r/.agda", &["agda"]));
}
