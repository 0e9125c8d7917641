use part_store::entity::{Part, RawPart};
use part_store::filter::{FilterMethod, RangeFilter};
use part_store::order::SortMethod;
use part_store::store::PartsMaps;

fn raw(id: &str, name: &str, parent: Option<&str>) -> RawPart {
    RawPart {
        id: String::from(id),
        name: String::from(name),
        description: None,
        deadline: None,
        completed_at: None,
        parent_id: parent.map(String::from),
    }
}

fn part(id: i64, name: &str, parent: Option<i64>) -> Part {
    Part {
        id,
        name: String::from(name),
        description: None,
        deadline: None,
        completed_at: None,
        parent_id: parent,
    }
}

#[test]
fn default_store_is_empty_and_grows_by_add() {
    let mut store = PartsMaps::default();
    assert_eq!(store.len(), 0);
    assert!(store.projects().is_empty());
    assert!(store.add_part(part(10, "first", None)).is_ok());
    assert_eq!(store.projects(), &vec![10]);
    assert_eq!(store.children(10), Some(&vec![]));
}

#[test]
fn load_builds_sorted_roots() {
    let store = PartsMaps::new(vec![
        raw("2", "second", None),
        raw("1", "first", None),
        raw("3", "child", Some("1")),
    ])
    .unwrap();
    assert_eq!(store.projects(), &vec![1, 2]);
    assert_eq!(store.children(1), Some(&vec![3]));
    assert_eq!(store.children(2), Some(&vec![]));
    assert_eq!(store.len(), 3);
    assert_eq!(store.get_part(3).unwrap().name, "child");
}

#[test]
fn load_rejects_bad_id() {
    assert!(PartsMaps::new(vec![raw("x1", "a", None)]).is_none());
    assert!(PartsMaps::new(vec![raw("", "a", None)]).is_none());
}

#[test]
fn load_rejects_duplicate_ids() {
    assert!(PartsMaps::new(vec![raw("1", "a", None), raw("1", "b", None)]).is_none());
}

#[test]
fn load_rejects_unknown_parent() {
    assert!(PartsMaps::new(vec![raw("1", "a", Some("7"))]).is_none());
}

#[test]
fn load_rejects_bad_parent_id_text() {
    assert!(PartsMaps::new(vec![raw("1", "a", None), raw("2", "b", Some("one"))]).is_none());
}

#[test]
fn load_rejects_out_of_range_timestamp() {
    // parses as i64 but lies outside chrono's calendar range
    let mut r = raw("1", "a", None);
    r.deadline = Some(String::from("9223372036854775807"));
    assert!(PartsMaps::new(vec![r]).is_none());
}

#[test]
fn load_accepts_forward_parent_reference() {
    let store = PartsMaps::new(vec![raw("2", "kid", Some("1")), raw("1", "root", None)]).unwrap();
    assert_eq!(store.projects(), &vec![1]);
    assert_eq!(store.children(1), Some(&vec![2]));
}

// Scenario: load two roots named "B" and "A", then sort by name: the root
// order flips to [2, 1].
#[test]
fn sort_by_name_reorders_roots() {
    let mut store = PartsMaps::new(vec![raw("1", "B", None), raw("2", "A", None)]).unwrap();
    assert_eq!(store.projects(), &vec![1, 2]);
    store.apply_sort(SortMethod::Name);
    assert_eq!(store.projects(), &vec![2, 1]);
}

// Case folding decides the name order: a lowercase "a" must come before an
// uppercase "B" even though its code point is larger.
#[test]
fn sort_by_name_is_case_insensitive() {
    let mut store = PartsMaps::new(vec![raw("1", "B", None), raw("2", "a", None)]).unwrap();
    store.apply_sort(SortMethod::Name);
    assert_eq!(store.projects(), &vec![2, 1]);
}

// Tie-break: equal sort keys order by ascending id.
#[test]
fn sort_ties_break_by_id() {
    let mut store = PartsMaps::new(vec![
        raw("3", "same", None),
        raw("1", "same", None),
        raw("2", "same", None),
    ])
    .unwrap();
    store.apply_sort(SortMethod::Name);
    assert_eq!(store.projects(), &vec![1, 2, 3]);
}

// An absent deadline sorts last, not first.
#[test]
fn sort_by_deadline_puts_unset_last() {
    let mut a = raw("1", "a", None);
    a.deadline = None;
    let mut b = raw("2", "b", None);
    b.deadline = Some(String::from("100"));
    let mut c = raw("3", "c", None);
    c.deadline = Some(String::from("50"));
    let mut store = PartsMaps::new(vec![a, b, c]).unwrap();
    store.apply_sort(SortMethod::Deadline);
    assert_eq!(store.projects(), &vec![3, 2, 1]);
}

#[test]
fn sort_by_completed_at_puts_uncompleted_last() {
    let mut a = raw("1", "a", None);
    a.completed_at = Some(String::from("-5"));
    let mut b = raw("2", "b", None);
    b.completed_at = None;
    let mut store = PartsMaps::new(vec![b, a]).unwrap();
    store.apply_sort(SortMethod::CompletedAt);
    assert_eq!(store.projects(), &vec![1, 2]);
}

#[test]
fn add_inserts_and_sorts_sibling_list() {
    let mut store = PartsMaps::new(vec![raw("1", "root", None), raw("3", "kid", Some("1"))])
        .unwrap();
    assert!(store.add_part(part(2, "other kid", Some(1))).is_ok());
    assert_eq!(store.children(1), Some(&vec![2, 3]));
    assert_eq!(store.children(2), Some(&vec![]));
    assert!(store.add_part(part(4, "new root", None)).is_ok());
    assert_eq!(store.projects(), &vec![1, 4]);
}

// Scenario: a second add with the same id hands the entity back unchanged
// and the entity map keeps its size.
#[test]
fn add_rejects_duplicate_id() {
    let mut store = PartsMaps::new(vec![raw("1", "root", None)]).unwrap();
    let dup = part(1, "imposter", None);
    let before = store.len();
    match store.add_part(dup.clone()) {
        Err(rejected) => assert_eq!(rejected, dup),
        Ok(()) => panic!("duplicate id accepted"),
    }
    assert_eq!(store.len(), before);
    assert_eq!(store.get_part(1).unwrap().name, "root");
}

#[test]
fn update_replaces_and_resorts() {
    let mut store = PartsMaps::new(vec![raw("1", "b", None), raw("2", "a", None)]).unwrap();
    store.apply_sort(SortMethod::Name);
    assert_eq!(store.projects(), &vec![2, 1]);
    assert!(store.update_part(part(2, "z", None)).is_ok());
    assert_eq!(store.projects(), &vec![1, 2]);
    assert_eq!(store.get_part(2).unwrap().name, "z");
}

#[test]
fn update_rejects_missing_id() {
    let mut store = PartsMaps::new(vec![raw("1", "a", None)]).unwrap();
    let ghosted = part(9, "nobody", None);
    match store.update_part(ghosted.clone()) {
        Err(rejected) => assert_eq!(rejected, ghosted),
        Ok(()) => panic!("missing id accepted"),
    }
}

// Moving an entity between sibling lists is unsupported: such an update is
// handed back.
#[test]
fn update_rejects_parent_change() {
    let mut store =
        PartsMaps::new(vec![raw("1", "a", None), raw("2", "b", Some("1"))]).unwrap();
    assert!(store.update_part(part(2, "b", None)).is_err());
    assert!(store.update_part(part(2, "renamed", Some(1))).is_ok());
    assert_eq!(store.get_part(2).unwrap().name, "renamed");
}

// Scenario: deleting a root removes its whole subtree; the map empties
// without an error.
#[test]
fn delete_removes_subtree() {
    let mut store = PartsMaps::new(vec![raw("1", "root", None)]).unwrap();
    assert!(store.add_part(part(2, "kid", Some(1))).is_ok());
    store.delete_part(1);
    assert_eq!(store.len(), 0);
    assert!(store.get_part(1).is_none());
    assert!(store.get_part(2).is_none());
    assert!(store.projects().is_empty());
}

#[test]
fn delete_deep_subtree_and_unlinks_sibling() {
    let mut store = PartsMaps::new(vec![
        raw("1", "root", None),
        raw("2", "a", Some("1")),
        raw("3", "b", Some("1")),
        raw("4", "a1", Some("2")),
        raw("5", "a11", Some("4")),
    ])
    .unwrap();
    store.delete_part(2);
    assert_eq!(store.len(), 2);
    assert_eq!(store.children(1), Some(&vec![3]));
    assert!(store.get_part(4).is_none());
    assert!(store.get_part(5).is_none());
}

#[test]
fn delete_unknown_id_is_a_no_op() {
    let mut store = PartsMaps::new(vec![raw("1", "root", None)]).unwrap();
    store.delete_part(42);
    assert_eq!(store.len(), 1);
    assert_eq!(store.projects(), &vec![1]);
}

// Scenario: filtering on "completion time must be set" hides every entity
// but the one completed part.
#[test]
fn filter_must_be_set_hides_uncompleted() {
    let mut completed = raw("5", "done", None);
    completed.completed_at = Some(String::from("1000"));
    let mut store = PartsMaps::new(vec![
        raw("1", "a", None),
        raw("2", "b", None),
        completed,
    ])
    .unwrap();
    store.apply_filter(FilterMethod {
        deadline: RangeFilter::Unconstrained,
        completed_at: RangeFilter::MustBeSet,
    });
    assert!(store.id_not_filtered(5));
    assert!(!store.id_not_filtered(1));
    assert!(!store.id_not_filtered(2));
    assert_eq!(store.visible_projects(), vec![5]);
}

// Applying the same policy twice yields the same exclusion outcome as once.
#[test]
fn filter_application_is_idempotent() {
    let mut done = raw("2", "done", None);
    done.completed_at = Some(String::from("7"));
    let mut store = PartsMaps::new(vec![raw("1", "open", None), done]).unwrap();
    let policy = FilterMethod {
        deadline: RangeFilter::Unconstrained,
        completed_at: RangeFilter::MustBeUnset,
    };
    store.apply_filter(policy);
    let first: Vec<bool> = (1..=2).map(|id| store.id_not_filtered(id)).collect();
    store.apply_filter(policy);
    let second: Vec<bool> = (1..=2).map(|id| store.id_not_filtered(id)).collect();
    assert_eq!(first, second);
    assert_eq!(first, vec![true, false]);
}

// An update re-evaluates the entity against the active filter: the cached
// exclusion set tracks the updated attribute values at once.
#[test]
fn update_reevaluates_active_filter() {
    let mut done = raw("2", "done", None);
    done.completed_at = Some(String::from("7"));
    let mut store = PartsMaps::new(vec![raw("1", "open", None), done]).unwrap();
    store.apply_filter(FilterMethod {
        deadline: RangeFilter::Unconstrained,
        completed_at: RangeFilter::MustBeSet,
    });
    assert!(!store.id_not_filtered(1));
    assert!(store.id_not_filtered(2));
    // completing part 1 makes it visible without a fresh apply_filter
    let mut now_done = part(1, "open", None);
    now_done.completed_at = Some(99);
    assert!(store.update_part(now_done).is_ok());
    assert!(store.id_not_filtered(1));
    // clearing part 2's completion hides it again
    assert!(store.update_part(part(2, "done", None)).is_ok());
    assert!(!store.id_not_filtered(2));
    assert_eq!(store.visible_projects(), vec![1]);
}

// A policy that allows all clears the exclusion set: everything is visible.
#[test]
fn filter_allows_all_clears_exclusions() {
    let mut store = PartsMaps::new(vec![raw("1", "a", None)]).unwrap();
    store.apply_filter(FilterMethod {
        deadline: RangeFilter::MustBeUnset,
        completed_at: RangeFilter::MustBeUnset,
    });
    store.apply_filter(FilterMethod::default());
    assert!(store.id_not_filtered(1));
    // even an id the store does not know is "visible" with no filter active
    assert!(store.id_not_filtered(12345));
}

#[test]
fn filter_ranges_are_inclusive() {
    let mut a = raw("1", "a", None);
    a.deadline = Some(String::from("10"));
    let mut b = raw("2", "b", None);
    b.deadline = Some(String::from("20"));
    let mut c = raw("3", "c", None);
    c.deadline = None;
    let mut store = PartsMaps::new(vec![a, b, c]).unwrap();
    store.apply_filter(FilterMethod {
        deadline: RangeFilter::Ranged(10, 19),
        completed_at: RangeFilter::Unconstrained,
    });
    assert!(store.id_not_filtered(1));
    assert!(!store.id_not_filtered(2));
    assert!(!store.id_not_filtered(3));
    store.apply_filter(FilterMethod {
        deadline: RangeFilter::UpperBounded(10),
        completed_at: RangeFilter::Unconstrained,
    });
    assert!(store.id_not_filtered(1));
    assert!(!store.id_not_filtered(2));
    store.apply_filter(FilterMethod {
        deadline: RangeFilter::LowerBounded(20),
        completed_at: RangeFilter::Unconstrained,
    });
    assert!(!store.id_not_filtered(1));
    assert!(store.id_not_filtered(2));
}

// An added part that fails the active filter joins the exclusion set at
// once; one that passes stays visible.
#[test]
fn add_respects_active_filter() {
    let mut store = PartsMaps::new(vec![raw("1", "a", None)]).unwrap();
    store.apply_filter(FilterMethod {
        deadline: RangeFilter::Unconstrained,
        completed_at: RangeFilter::MustBeSet,
    });
    let mut done = part(2, "done", None);
    done.completed_at = Some(50);
    assert!(store.add_part(done).is_ok());
    assert!(store.add_part(part(3, "open", None)).is_ok());
    assert!(store.id_not_filtered(2));
    assert!(!store.id_not_filtered(3));
}

#[test]
fn visible_children_applies_filter_in_order() {
    let mut done = raw("3", "done", Some("1"));
    done.completed_at = Some(String::from("1"));
    let mut store = PartsMaps::new(vec![
        raw("1", "root", None),
        raw("2", "open", Some("1")),
        done,
    ])
    .unwrap();
    assert_eq!(store.visible_children(1), Some(vec![2, 3]));
    store.apply_filter(FilterMethod {
        deadline: RangeFilter::Unconstrained,
        completed_at: RangeFilter::MustBeUnset,
    });
    assert_eq!(store.visible_children(1), Some(vec![2]));
    assert_eq!(store.visible_children(9), None);
}
