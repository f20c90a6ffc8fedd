use mobile_zipper::orbit::{
    add_link, clear_links_from, delete_idea, find_idea, prepare_new_idea, remaining_order,
    snapshot_slot, state_after_load, Link, SnapshotSlot,
};

fn l(from: u32, to: u32) -> Link {
    Link { from, to }
}

#[test]
fn delete_keeps_others_sorted_by_id() {
    let ids = vec![3, 1, 2, 5];
    let links = vec![l(1, 2), l(2, 3), l(5, 1), l(3, 5)];
    let out = delete_idea(&ids, &links, 2);
    assert_eq!(out.order, vec![1, 0, 3]);
    assert_eq!(out.selected, Some(1));
    assert_eq!(out.links, vec![l(5, 1), l(3, 5)]);
}

#[test]
fn delete_sort_is_stable_for_equal_ids() {
    assert_eq!(remaining_order(&vec![4, 2, 4, 2, 9], 9), vec![1, 3, 0, 2]);
    assert_eq!(remaining_order(&vec![7, 7], 7), Vec::<usize>::new());
}

#[test]
fn delete_last_idea_selects_nothing() {
    let out = delete_idea(&vec![1], &vec![], 1);
    assert!(out.order.is_empty());
    assert_eq!(out.selected, None);
}

#[test]
fn links_are_added_once_and_never_to_self() {
    let mut links = vec![l(1, 2)];
    add_link(&mut links, Some(1), 2);
    assert_eq!(links, vec![l(1, 2)]);
    add_link(&mut links, Some(2), 2);
    assert_eq!(links, vec![l(1, 2)]);
    add_link(&mut links, None, 3);
    assert_eq!(links, vec![l(1, 2)]);
    add_link(&mut links, Some(2), 3);
    assert_eq!(links, vec![l(1, 2), l(2, 3)]);
    add_link(&mut links, Some(2), 3);
    assert_eq!(links, vec![l(1, 2), l(2, 3)]);
}

#[test]
fn clearing_links_keeps_incoming_ones() {
    let links = vec![l(1, 2), l(2, 1), l(1, 3)];
    assert_eq!(clear_links_from(&links, 1), vec![l(2, 1)]);
}

#[test]
fn loading_selects_first_and_counts_past_max() {
    let s = state_after_load(&vec![4, 9, 2]);
    assert_eq!(s.selected, Some(4));
    assert_eq!(s.next_id, 10);
    let s = state_after_load(&vec![]);
    assert_eq!(s.selected, None);
    assert_eq!(s.next_id, 1);
}

#[test]
fn new_ideas_are_trimmed_and_numbered() {
    let idea = prepare_new_idea("  Launch  ", "\tsoon ", 4).unwrap();
    assert_eq!(idea.id, 4);
    assert_eq!(idea.title, "Launch");
    assert_eq!(idea.notes, "soon");
    assert_eq!(idea.next_id, 5);
    assert!(prepare_new_idea("   ", "notes", 4).is_none());
    assert!(prepare_new_idea("", "notes", u32::MAX).is_none());
}

#[test]
fn snapshots_replace_by_name_or_append() {
    let names = vec!["Q1".to_string(), "Q2".to_string(), "Q1".to_string()];
    assert!(matches!(snapshot_slot(&names, "  Q1 "), SnapshotSlot::Replace(0)));
    assert!(matches!(snapshot_slot(&names, "Q2"), SnapshotSlot::Replace(1)));
    match snapshot_slot(&names, " Q3") {
        SnapshotSlot::Append(name) => assert_eq!(name, "Q3"),
        _ => panic!("expected a new snapshot"),
    }
    assert!(matches!(snapshot_slot(&names, "  "), SnapshotSlot::Skip));
}

#[test]
fn find_idea_gives_first_match() {
    assert_eq!(find_idea(&vec![5, 6, 5], 5), Some(0));
    assert_eq!(find_idea(&vec![5, 6, 5], 6), Some(1));
    assert_eq!(find_idea(&vec![5, 6], 7), None);
}

#[test]
fn ids_stay_fresh_from_mount_through_actions() {
    // Mount: ideas 1, 2, 3 and the counter at 4.
    let mut ids: Vec<u32> = vec![1, 2, 3];
    let mut next_id = 4u32;
    let idea = prepare_new_idea("New", "", next_id).unwrap();
    assert!(!ids.contains(&idea.id));
    ids.push(idea.id);
    next_id = idea.next_id;
    let out = delete_idea(&ids, &vec![], 2);
    ids = out.order.iter().map(|k| ids[*k]).collect();
    assert!(ids.iter().all(|id| *id < next_id));
    let loaded = state_after_load(&vec![7, 3]);
    assert!([7u32, 3].iter().all(|id| *id < loaded.next_id));
}
