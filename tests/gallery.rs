use poligen::gallery::{order_gallery, refresh, shows_before, text_less, ArtifactRecord};

fn record(path: &str, modified_at: u128) -> ArtifactRecord {
    ArtifactRecord { path: path.to_string(), modified_at }
}

#[test]
fn lexicographic_text_order() {
    assert!(text_less("a", "b"));
    assert!(text_less("ab", "abc"));
    assert!(!text_less("abc", "ab"));
    assert!(!text_less("same", "same"));
    assert!(text_less("", "x"));
    assert!(!text_less("b", "a"));
}

#[test]
fn newer_record_shows_first() {
    assert!(shows_before(&record("a", 5), &record("b", 3)));
    assert!(!shows_before(&record("a", 3), &record("b", 5)));
    assert!(shows_before(&record("b", 3), &record("a", 3)));
    assert!(!shows_before(&record("a", 3), &record("b", 3)));
}

#[test]
fn unreadable_directory_gives_empty_gallery() {
    assert!(refresh(None).is_empty());
    assert!(refresh(Some(Vec::new())).is_empty());
}

#[test]
fn newest_first_order() {
    let listing = vec![
        record("outputs/output_2.jpg", 200),
        record("outputs/output_1.jpg", 100),
        record("outputs/output_3.jpg", 300),
    ];
    assert_eq!(
        refresh(Some(listing)),
        vec!["outputs/output_3.jpg", "outputs/output_2.jpg", "outputs/output_1.jpg"]
    );
}

#[test]
fn ordered_records_keep_times() {
    let ordered = order_gallery(vec![record("x", 1), record("y", 3), record("z", 2)]);
    let times: Vec<u128> = ordered.iter().map(|r| r.modified_at).collect();
    assert_eq!(times, vec![3, 2, 1]);
}

#[test]
fn equal_times_order_by_path() {
    let listing = vec![record("b", 7), record("c", 7), record("a", 7)];
    assert_eq!(refresh(Some(listing)), vec!["c", "b", "a"]);
}

#[test]
fn refresh_ignores_listing_order() {
    let first = vec![record("p", 1), record("q", 1), record("r", 2)];
    let second = vec![record("r", 2), record("q", 1), record("p", 1)];
    let a = refresh(Some(first));
    let b = refresh(Some(second));
    assert_eq!(a, b);
    assert_eq!(a, vec!["r", "q", "p"]);
}
