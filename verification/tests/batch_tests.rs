use dockrs::batch::batch_verdict;
use dockrs::batch::check_attach_policy;
use dockrs::batch::failures;
use dockrs::batch::image_delete_lines;
use dockrs::batch::pair_outcomes;
use dockrs::batch::successes;
use dockrs::batch::ImageDeleteItem;
use dockrs::Error;

fn targets(items: &[&str]) -> Vec<String> {
    items.iter().map(|s| s.to_string()).collect()
}

#[test]
fn test_batch_one_failure_reports_the_rest() {
    let targets = targets(&["alpha", "beta", "gamma"]);
    let results: Vec<Result<Vec<String>, String>> = vec![
        Ok(vec![]),
        Err("no such container".to_string()),
        Ok(vec![]),
    ];

    let outcomes = pair_outcomes(&targets, results);

    assert_eq!(outcomes.len(), 3);
    assert_eq!(outcomes[0].target, "alpha");
    assert_eq!(outcomes[1].target, "beta");
    assert_eq!(outcomes[2].target, "gamma");

    let ok = successes(&outcomes);
    assert_eq!(ok, vec!["alpha".to_string(), "gamma".to_string()]);

    let failed = failures(&outcomes);
    assert_eq!(failed.len(), 1);
    assert_eq!(failed[0].target, "beta");
    assert_eq!(failed[0].message, "no such container");

    assert!(matches!(batch_verdict(&outcomes), Err(Error::BatchFailed)));
}

#[test]
fn test_batch_all_ok() {
    let targets = targets(&["one", "two"]);
    let results: Vec<Result<Vec<String>, String>> = vec![Ok(vec![]), Ok(vec![])];

    let outcomes = pair_outcomes(&targets, results);

    assert!(batch_verdict(&outcomes).is_ok());
    assert_eq!(successes(&outcomes).len(), 2);
    assert!(failures(&outcomes).is_empty());
}

#[test]
fn test_batch_empty() {
    let outcomes = pair_outcomes(&Vec::new(), Vec::new());

    assert!(batch_verdict(&outcomes).is_ok());
    assert!(successes(&outcomes).is_empty());
}

#[test]
fn test_multi_attach_rejected() {
    let result = check_attach_policy(2, false, true);

    assert!(matches!(result, Err(Error::MultiAttachUnsupported)));
}

#[test]
fn test_attach_single_target_allowed() {
    assert!(check_attach_policy(1, true, true).is_ok());
    assert!(check_attach_policy(1, false, true).is_ok());
    assert!(check_attach_policy(1, true, false).is_ok());
}

#[test]
fn test_batch_without_attach_allows_many() {
    assert!(check_attach_policy(3, false, false).is_ok());
    assert!(check_attach_policy(0, false, false).is_ok());
}

#[test]
fn test_image_delete_lines() {
    let items = vec![
        ImageDeleteItem {
            untagged: Some("hello:latest".to_string()),
            deleted: Some("sha256:abc".to_string()),
        },
        ImageDeleteItem {
            untagged: None,
            deleted: Some("sha256:def".to_string()),
        },
        ImageDeleteItem {
            untagged: None,
            deleted: None,
        },
    ];

    let lines = image_delete_lines(&items);

    assert_eq!(
        lines,
        vec![
            "Untagged: hello:latest".to_string(),
            "Deleted: sha256:abc".to_string(),
            "Deleted: sha256:def".to_string(),
        ]
    );
}

#[test]
fn test_attach_zero_targets_rejected() {
    assert!(matches!(
        check_attach_policy(0, true, false),
        Err(Error::MultiAttachUnsupported)
    ));
}
