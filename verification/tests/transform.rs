use resolvloser::header::{gen_header, gen_header_with, refresh_header, refresh_header_with};
use resolvloser::order::{is_preferred_family, order_groups, sort_addresses, sort_v6_over_v4};
use resolvloser::pipeline::{transform, transform_with};
use resolvloser::rewrite::{render_directive, rewrite_lines};
use resolvloser::scan::{scan_directives, ResolvError};
use resolvloser::text::{split_tokens, str_contains_str, str_starts_with};
use std::cmp::Ordering;

const MARKER: &str = "# Nameservers (possibly) reordered by resolvloser on";

fn lines(v: &[&str]) -> Vec<String> {
    v.iter().map(|s| s.to_string()).collect()
}

#[test]
fn mixed_families_reordered() {
    let input = lines(&[
        "nameserver 8.8.8.8",
        "nameserver 2001:4860:4860::8888",
        "# comment",
        "nameserver 1.1.1.1 2606:4700:4700::1111",
    ]);
    let out = transform_with(&input, "TS").unwrap();
    assert_eq!(
        out,
        lines(&[
            "# Nameservers (possibly) reordered by resolvloser on TS",
            "#",
            "nameserver 2001:4860:4860::8888",
            "nameserver 2606:4700:4700::1111 1.1.1.1",
            "# comment",
            "nameserver 8.8.8.8",
        ])
    );
}

#[test]
fn no_directives_prepends_header_only() {
    let input = lines(&["# just a comment", "", "options ndots:2"]);
    let out = transform_with(&input, "NOW").unwrap();
    assert_eq!(out.len(), input.len() + 2);
    assert_eq!(out[0], format!("{} NOW", MARKER));
    assert_eq!(out[1], "#");
    assert_eq!(&out[2..], &input[..]);
}

#[test]
fn existing_header_refreshed_in_place() {
    let input = lines(&[
        "# Nameservers (possibly) reordered by resolvloser on OLD",
        "#",
        "nameserver 8.8.8.8",
    ]);
    let out = transform_with(&input, "NEW").unwrap();
    assert_eq!(out.len(), input.len());
    assert_eq!(out[0], format!("{} NEW", MARKER));
    assert_eq!(out[1], "#");
    assert_eq!(out[2], "nameserver 8.8.8.8");
}

#[test]
fn directive_without_address_is_error() {
    let input = lines(&["# c", "nameserver", "nameserver 1.1.1.1"]);
    match transform_with(&input, "TS") {
        Err(ResolvError::MalformedDirective { line_no }) => assert_eq!(line_no, 1),
        other => panic!("expected a malformed-directive error, got {:?}", other),
    }
}

#[test]
fn scan_reports_first_malformed_line() {
    let input = lines(&["nameserver 1.1.1.1", "nameserver", "nameserver"]);
    assert_eq!(
        scan_directives(&input),
        Err(ResolvError::MalformedDirective { line_no: 1 })
    );
}

#[test]
fn scan_collects_groups_in_order() {
    let input = lines(&["nameserver 1.1.1.1 ::1", "# x", "nameserver ::2"]);
    let groups = scan_directives(&input).unwrap();
    assert_eq!(groups, vec![lines(&["1.1.1.1", "::1"]), lines(&["::2"])]);
}

#[test]
fn empty_document_gets_header() {
    let input: Vec<String> = Vec::new();
    let out = transform_with(&input, "T").unwrap();
    assert_eq!(out, lines(&[&format!("{} T", MARKER), "#"]));
}

#[test]
fn second_run_changes_only_timestamp() {
    let input = lines(&[
        "nameserver 8.8.8.8",
        "nameserver 2001:4860:4860::8888",
        "# comment",
    ]);
    let once = transform_with(&input, "T1").unwrap();
    let twice = transform_with(&once, "T2").unwrap();
    assert_eq!(twice.len(), once.len());
    assert_eq!(twice[0], format!("{} T2", MARKER));
    assert_eq!(&twice[1..], &once[1..]);
}

#[test]
fn comparator_prefers_colon_addresses() {
    assert_eq!(sort_v6_over_v4("::1", "1.1.1.1"), Ordering::Less);
    assert_eq!(sort_v6_over_v4("1.1.1.1", "::1"), Ordering::Greater);
    assert_eq!(sort_v6_over_v4("1.1.1.1", "8.8.8.8"), Ordering::Equal);
    assert_eq!(
        sort_v6_over_v4("2001:4860:4860::8888", "fe80::1"),
        Ordering::Equal
    );
}

#[test]
fn family_classification() {
    assert!(is_preferred_family("::1"));
    assert!(is_preferred_family("2001:db8::2"));
    assert!(!is_preferred_family("8.8.8.8"));
    assert!(!is_preferred_family(""));
}

#[test]
fn intra_line_sort_is_stable() {
    let g = lines(&["1.1.1.1", "::1", "2.2.2.2", "::2"]);
    assert_eq!(
        sort_addresses(&g),
        lines(&["::1", "::2", "1.1.1.1", "2.2.2.2"])
    );
}

#[test]
fn inter_line_sort_is_stable() {
    let groups = vec![
        lines(&["1.1.1.1"]),
        lines(&["::1"]),
        lines(&["2.2.2.2"]),
        lines(&["::2"]),
    ];
    assert_eq!(
        order_groups(&groups),
        vec![
            lines(&["::1"]),
            lines(&["::2"]),
            lines(&["1.1.1.1"]),
            lines(&["2.2.2.2"]),
        ]
    );
}

#[test]
fn tokens_split_on_whitespace() {
    let toks = split_tokens("  a \t bb  c ");
    assert_eq!(toks, lines(&["a", "bb", "c"]));
    assert_eq!(split_tokens(""), Vec::<String>::new());
    assert_eq!(split_tokens(" \t "), Vec::<String>::new());
}

#[test]
fn prefix_and_substring_tests() {
    assert!(str_starts_with("nameserver 1.1.1.1", "nameserver"));
    assert!(!str_starts_with("# nameserver", "nameserver"));
    assert!(!str_starts_with("names", "nameserver"));
    assert!(str_contains_str("a # Nameservers header", "# Nameservers"));
    assert!(!str_contains_str("plain line", "# Nameservers"));
    assert!(str_contains_str("anything", ""));
}

#[test]
fn header_line_layout() {
    let h = gen_header_with("Sun, 01 Jan 2023 00:00:00 +0000");
    assert_eq!(h, format!("{} Sun, 01 Jan 2023 00:00:00 +0000", MARKER));
    let h2 = gen_header();
    assert!(h2.starts_with(MARKER));
}

#[test]
fn refresh_header_inserts_or_replaces() {
    let mut doc = lines(&["nameserver ::1"]);
    refresh_header_with(&mut doc, "A");
    assert_eq!(doc, lines(&[&format!("{} A", MARKER), "#", "nameserver ::1"]));
    refresh_header_with(&mut doc, "B");
    assert_eq!(doc, lines(&[&format!("{} B", MARKER), "#", "nameserver ::1"]));
    let mut doc2 = lines(&["nameserver ::1"]);
    refresh_header(&mut doc2);
    assert_eq!(doc2.len(), 3);
    assert!(doc2[0].starts_with(MARKER));
    assert_eq!(doc2[1], "#");
}

#[test]
fn render_joins_with_single_spaces() {
    let g = lines(&["::1", "1.1.1.1"]);
    assert_eq!(render_directive(&g), "nameserver ::1 1.1.1.1");
}

#[test]
fn rewrite_keeps_non_directive_lines() {
    let doc = lines(&["# a", "nameserver 1.1.1.1", "", "other"]);
    let groups = vec![lines(&["::9"])];
    let out = rewrite_lines(&doc, &groups);
    assert_eq!(out, lines(&["# a", "nameserver ::9", "", "other"]));
}

#[test]
fn clocked_transform_matches_injected_shape() {
    let input = lines(&["nameserver 8.8.8.8", "nameserver ::1"]);
    let out = transform(&input).unwrap();
    assert_eq!(out.len(), 4);
    assert!(out[0].starts_with(MARKER));
    assert_eq!(out[1], "#");
    assert_eq!(out[2], "nameserver ::1");
    assert_eq!(out[3], "nameserver 8.8.8.8");
}

#[test]
fn multi_address_lines_keep_counts() {
    let input = lines(&["nameserver 1.1.1.1 ::1 2.2.2.2", "nameserver ::2 ::3"]);
    let out = transform_with(&input, "T").unwrap();
    assert_eq!(out[2], "nameserver ::1 1.1.1.1 2.2.2.2");
    assert_eq!(out[3], "nameserver ::2 ::3");
}
