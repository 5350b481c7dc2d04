use ancestry::Ancestry;
use ancestry::path::TreePath;

fn path_of(parts: &[&str]) -> TreePath {
    let mut segments: Vec<String> = Vec::new();
    for part in parts {
        segments.push((*part).to_string());
    }
    TreePath::new(segments)
}

#[test]
fn test_no_value_relates_to_itself() {
    for parts in [&[][..], &["A"][..], &["A", "1"][..]] {
        let p = path_of(parts);
        assert!(!p.is_descendant_of(&p));
        assert!(!p.is_ancestor_of(&p));
    }
}

#[test]
fn test_sample_hierarchy_scenario() {
    let a = path_of(&["A"]);
    let a1 = path_of(&["A", "1"]);
    let a2 = path_of(&["A", "2"]);
    let b = path_of(&["B"]);
    let b1 = path_of(&["B", "1"]);

    assert!(a1.is_descendant_of(&a));
    assert!(!a.is_descendant_of(&a1));
    assert_eq!(Some(a.clone()), a1.closest_common_ancestor(&a2));
    assert_eq!(Some(path_of(&[])), a1.closest_common_ancestor(&b1));
    assert!(!a1.is_descendant_of(&b));
}

#[test]
fn test_root_has_no_ancestors() {
    let root = TreePath::root();
    assert!(root.ancestors().is_empty());
}

#[test]
fn test_ancestors_are_the_proper_prefixes_nearest_first() {
    let a1 = path_of(&["A", "1"]);
    let expected = vec![path_of(&["A"]), path_of(&[])];
    assert_eq!(expected, a1.ancestors());
}

#[test]
fn test_closest_common_ancestor_of_equal_values_is_the_value() {
    let a1 = path_of(&["A", "1"]);
    assert_eq!(Some(a1.clone()), a1.closest_common_ancestor(&path_of(&["A", "1"])));
}

#[test]
fn test_closest_common_ancestor_of_direct_relatives_is_the_higher_one() {
    let a = path_of(&["A"]);
    let a1 = path_of(&["A", "1"]);
    assert_eq!(Some(a.clone()), a.closest_common_ancestor(&a1));
    assert_eq!(Some(a.clone()), a1.closest_common_ancestor(&a));
}

#[test]
fn test_eq_value_compares_whole_paths() {
    let a1 = path_of(&["A", "1"]);
    assert!(a1.eq_value(&path_of(&["A", "1"])));
    assert!(!a1.eq_value(&path_of(&["A", "2"])));
    assert!(!a1.eq_value(&path_of(&["A"])));
    assert!(!a1.eq_value(&TreePath::root()));
}

#[test]
fn test_duplicate_preserves_the_path() {
    let a1 = path_of(&["A", "1"]);
    let copy = a1.duplicate();
    assert_eq!(a1, copy);
}

#[test]
fn test_root_and_child_build_the_same_paths_as_new() {
    let built = TreePath::root().child("A".to_string()).child("1".to_string());
    assert_eq!(path_of(&["A", "1"]), built);
}

#[test]
fn test_deeper_descendants_still_relate_across_levels() {
    let a = path_of(&["A"]);
    let deep = path_of(&["A", "1", "x", "y"]);
    assert!(deep.is_descendant_of(&a));
    assert!(a.is_ancestor_of(&deep));
    assert!(!a.is_descendant_of(&deep));
    assert_eq!(Some(a.clone()), deep.closest_common_ancestor(&a));
    assert_eq!(Some(a.clone()), a.closest_common_ancestor(&deep));
}

#[test]
fn test_cousins_at_unequal_depths_meet_at_the_fork() {
    let a = path_of(&["A"]);
    let deep = path_of(&["A", "1", "x"]);
    let shallow = path_of(&["A", "2"]);
    assert_eq!(Some(a.clone()), deep.closest_common_ancestor(&shallow));
    assert_eq!(Some(a.clone()), shallow.closest_common_ancestor(&deep));
    assert!(!deep.is_descendant_of(&shallow));
    assert!(!shallow.is_descendant_of(&deep));
}
