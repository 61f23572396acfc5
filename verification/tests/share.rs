use ratatui_elemental::share::{distribute, raise_all, survey};

fn fill(sizes: &[u16], flags: &[bool], budget: u16) -> Vec<u16> {
    let mut sizes = sizes.to_vec();
    distribute(&mut sizes, &flags.to_vec(), budget);
    sizes
}

#[test]
fn single_growable_takes_everything() {
    assert_eq!(fill(&[0], &[true], 100), vec![100]);
    assert_eq!(fill(&[30], &[true], 70), vec![100]);
}

#[test]
fn level_entries_split_evenly() {
    assert_eq!(fill(&[0, 0], &[true, true], 100), vec![50, 50]);
    assert_eq!(fill(&[0, 0, 0], &[true, true, true], 100), vec![33, 33, 33]);
    assert_eq!(fill(&[5, 5], &[true, true], 7), vec![8, 8]);
}

#[test]
fn smallest_is_raised_first() {
    assert_eq!(fill(&[10, 30], &[true, true], 60), vec![50, 50]);
    assert_eq!(fill(&[30, 10], &[true, true], 60), vec![50, 50]);
    assert_eq!(fill(&[10, 30], &[true, true], 5), vec![15, 30]);
    assert_eq!(fill(&[10, 30], &[true, true], 20), vec![30, 30]);
}

#[test]
fn ties_at_the_bottom_are_raised_one_by_one() {
    assert_eq!(fill(&[10, 10, 30], &[true, true, true], 30), vec![30, 20, 30]);
    assert_eq!(fill(&[10, 10, 30], &[true, true, true], 46), vec![32, 32, 32]);
}

#[test]
fn fixed_entries_are_left_alone() {
    assert_eq!(fill(&[10, 0, 7], &[false, true, false], 24), vec![10, 24, 7]);
    assert_eq!(fill(&[10, 7], &[false, false], 24), vec![10, 7]);
    assert_eq!(fill(&[], &[], 24), Vec::<u16>::new());
}

#[test]
fn nothing_to_hand_out_changes_nothing() {
    assert_eq!(fill(&[10, 30], &[true, true], 0), vec![10, 30]);
}

#[test]
fn shares_stop_at_the_largest_length() {
    assert_eq!(fill(&[u16::MAX - 1], &[true], 10), vec![u16::MAX]);
}

#[test]
fn survey_finds_count_lowest_and_next() {
    let sizes = vec![30, 10, 20, 10, 5];
    let flags = vec![true, true, true, true, false];
    let found = survey(&sizes, &flags);
    assert_eq!(found.count, 4);
    assert_eq!(found.lowest, Some(10));
    assert_eq!(found.first, 1);
    assert_eq!(found.next, Some(20));
    let level = survey(&vec![4, 4], &vec![true, true]);
    assert_eq!(level.lowest, Some(4));
    assert_eq!(level.next, None);
    let none = survey(&vec![4, 4], &vec![false, false]);
    assert_eq!(none.count, 0);
    assert_eq!(none.lowest, None);
    assert_eq!(none.next, None);
}

#[test]
fn raise_all_adds_to_the_growable() {
    let mut sizes = vec![1, 2, 3];
    raise_all(&mut sizes, &vec![true, false, true], 10);
    assert_eq!(sizes, vec![11, 2, 13]);
}
