use dockrs::filter::build_filters;
use dockrs::filter::parse_filter;
use dockrs::Error;

#[test]
fn test_parse_filter() {
    let input = "label=foo=bar";

    let filter = parse_filter(input).unwrap();

    let expected = ("label".to_string(), "foo=bar".to_string());

    assert_eq!(filter, expected);
}

#[test]
fn test_parse_filter_without_equals_rejected() {
    match parse_filter("status") {
        Err(Error::InvalidFilter(s)) => assert_eq!(s, "status"),
        other => panic!("expected InvalidFilter, got {:?}", other),
    }
}

#[test]
fn test_build_filters_accumulates_values() {
    let input = vec![
        "label=a=1".to_string(),
        "status=running".to_string(),
        "label=b=2".to_string(),
    ];

    let table = build_filters(&input).unwrap();

    assert_eq!(table.len(), 2);
    assert_eq!(table[0].key, "label");
    assert_eq!(table[0].values, vec!["a=1".to_string(), "b=2".to_string()]);
    assert_eq!(table[1].key, "status");
    assert_eq!(table[1].values, vec!["running".to_string()]);
}

#[test]
fn test_build_filters_reports_first_bad_string() {
    let input = vec!["label=x".to_string(), "broken".to_string()];

    match build_filters(&input) {
        Err(Error::InvalidFilter(s)) => assert_eq!(s, "broken"),
        other => panic!("expected InvalidFilter, got {:?}", other),
    }
}
