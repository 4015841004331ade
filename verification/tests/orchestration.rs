use basemerge::grouping::{base_name_of, count_by_base};
use basemerge::partition::{chunk_size, partition};
use basemerge::plan::{action_for, first_match, output_name, select_members, GroupAction};

fn names(ns: &[&str]) -> Vec<Vec<u8>> {
    ns.iter().map(|n| n.as_bytes().to_vec()).collect()
}

fn count_for(groups: &[(Vec<u8>, usize)], key: &str) -> Option<usize> {
    groups.iter().find(|g| g.0 == key.as_bytes().to_vec()).map(|g| g.1)
}

#[test]
fn base_name_stops_at_first_underscore() {
    assert_eq!(base_name_of(&b"a_1.csv".to_vec()), b"a".to_vec());
    assert_eq!(base_name_of(&b"a_b_c".to_vec()), b"a".to_vec());
    assert_eq!(base_name_of(&b"plain.csv".to_vec()), b"plain.csv".to_vec());
    assert_eq!(base_name_of(&b"_hidden".to_vec()), b"".to_vec());
    assert_eq!(base_name_of(&b"".to_vec()), b"".to_vec());
}

#[test]
fn counts_group_by_base_name() {
    let groups = count_by_base(&names(&["a_1.csv", "a_2.csv", "b_1.csv", "plain.csv"]));
    assert_eq!(groups.len(), 3);
    assert_eq!(count_for(&groups, "a"), Some(2));
    assert_eq!(count_for(&groups, "b"), Some(1));
    assert_eq!(count_for(&groups, "plain.csv"), Some(1));
}

#[test]
fn no_names_no_groups() {
    assert!(count_by_base(&Vec::new()).is_empty());
}

#[test]
fn chunk_size_rounds_up() {
    assert_eq!(chunk_size(5, 2), 3);
    assert_eq!(chunk_size(4, 2), 2);
    assert_eq!(chunk_size(1, 8), 1);
    assert_eq!(chunk_size(0, 8), 0);
    assert_eq!(chunk_size(7, 1), 7);
}

fn group_list(keys: &[&str]) -> Vec<(Vec<u8>, usize)> {
    keys.iter().map(|k| (k.as_bytes().to_vec(), 1usize)).collect()
}

#[test]
fn partition_keeps_every_group_exactly_once() {
    let groups = group_list(&["a", "b", "c", "d", "e"]);
    let chunks = partition(groups.clone(), 2);
    assert_eq!(chunks.len(), 2);
    assert_eq!(chunks[0].len(), 3);
    assert_eq!(chunks[1].len(), 2);
    let total: usize = chunks.iter().map(|c| c.len()).sum();
    assert_eq!(total, groups.len());
    let joined: Vec<(Vec<u8>, usize)> = chunks.into_iter().flatten().collect();
    assert_eq!(joined, groups);
}

#[test]
fn partition_of_nothing_is_no_chunks() {
    let chunks = partition(Vec::new(), 4);
    assert!(chunks.is_empty());
}

#[test]
fn one_progress_event_per_group() {
    let groups = group_list(&["a", "b", "c", "d"]);
    let chunks = partition(groups, 3);
    let events: usize = chunks.iter().map(|c| c.len()).sum();
    assert_eq!(events, 4);
}

#[test]
fn lone_member_renamed_others_merged() {
    assert_eq!(action_for(1), GroupAction::Rename);
    assert_eq!(action_for(2), GroupAction::Merge);
    assert_eq!(action_for(17), GroupAction::Merge);
    assert_eq!(action_for(0), GroupAction::Merge);
}

#[test]
fn members_are_selected_by_prefix_in_order() {
    let members = select_members(
        &names(&["a_2.csv", "b_1.csv", "a_1.csv", "ab.csv", "c"]),
        &b"a".to_vec(),
    );
    assert_eq!(members, names(&["a_2.csv", "a_1.csv", "ab.csv"]));
    assert!(select_members(&names(&["b_1.csv"]), &b"a".to_vec()).is_empty());
}

#[test]
fn first_match_takes_the_first_entry() {
    let ns = names(&["b_1.csv", "a_2.csv", "a_1.csv"]);
    assert_eq!(first_match(&ns, &b"a".to_vec()), Some(b"a_2.csv".to_vec()));
    assert_eq!(first_match(&ns, &b"z".to_vec()), None);
}

#[test]
fn single_file_goes_to_canonical_name() {
    let ns = names(&["b_1.csv"]);
    let hit = first_match(&ns, &b"b".to_vec()).unwrap();
    assert_eq!(hit, b"b_1.csv".to_vec());
    let target = output_name(&b"b".to_vec(), &b".csv".to_vec());
    assert_eq!(target, b"b.csv".to_vec());
}

#[test]
fn output_name_appends_extension_verbatim() {
    assert_eq!(output_name(&b"a".to_vec(), &b".csv".to_vec()), b"a.csv".to_vec());
    assert_eq!(output_name(&b"a".to_vec(), &b"".to_vec()), b"a".to_vec());
    assert_eq!(output_name(&b"a".to_vec(), &b".txt".to_vec()), b"a.txt".to_vec());
}
