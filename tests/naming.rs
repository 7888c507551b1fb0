use poligen::naming::{decimal_string, next_stem, output_file_name, stem_string};

fn stems(names: &[&str]) -> Vec<String> {
    names.iter().map(|s| s.to_string()).collect()
}

#[test]
fn decimal_of_small_and_large_numbers() {
    assert_eq!(decimal_string(0), "0");
    assert_eq!(decimal_string(7), "7");
    assert_eq!(decimal_string(10), "10");
    assert_eq!(decimal_string(1234), "1234");
    assert_eq!(decimal_string(u64::MAX), "18446744073709551615");
}

#[test]
fn stem_carries_the_number() {
    assert_eq!(stem_string(1), "output_1");
    assert_eq!(stem_string(42), "output_42");
}

#[test]
fn empty_directory_gets_first_name() {
    assert_eq!(next_stem(&Vec::new()), "output_1");
    assert_eq!(output_file_name(&Vec::new(), "jpg"), "output_1.jpg");
}

#[test]
fn first_gap_is_chosen() {
    assert_eq!(next_stem(&stems(&["output_1", "output_3"])), "output_2");
    assert_eq!(next_stem(&stems(&["output_3", "output_2", "output_1"])), "output_4");
}

#[test]
fn other_stems_do_not_count() {
    assert_eq!(next_stem(&stems(&["output_01", "output_", "image", "output_2"])), "output_1");
}

#[test]
fn naming_is_deterministic() {
    let existing = stems(&["output_1", "output_2", "output_5"]);
    let first = next_stem(&existing);
    let second = next_stem(&existing);
    assert_eq!(first, second);
    let mut reordered = existing.clone();
    reordered.reverse();
    assert_eq!(next_stem(&reordered), first);
}

#[test]
fn written_name_is_not_reused() {
    let mut existing = stems(&["output_1", "output_2"]);
    let chosen = next_stem(&existing);
    assert_eq!(chosen, "output_3");
    existing.push(chosen.clone());
    let after = next_stem(&existing);
    assert_ne!(after, chosen);
    assert_eq!(after, "output_4");
}

#[test]
fn chosen_stem_never_exists_already() {
    let existing = stems(&["output_2", "output_1", "output_4", "output_3", "output_6"]);
    let chosen = next_stem(&existing);
    assert!(!existing.contains(&chosen));
    assert_eq!(chosen, "output_5");
}

#[test]
fn extension_is_appended() {
    assert_eq!(output_file_name(&stems(&["output_1"]), "png"), "output_2.png");
}
