use ancestry::Ancestry;
use ancestry::path::TreePath;

struct PathChildren {
    path: TreePath,
    children: Vec<PathChildren>,
}

fn path_of(parts: &[&str]) -> TreePath {
    let mut segments: Vec<String> = Vec::new();
    for part in parts {
        segments.push((*part).to_string());
    }
    TreePath::new(segments)
}

// The tests in this file are dependent on the following structure of sample
// test data. If the structure is changed, the tests may need to change
// accordingly.
fn sample_tree() -> PathChildren {
    PathChildren {
        path: path_of(&[]),
        children: vec![
            PathChildren {
                path: path_of(&["A"]),
                children: vec![
                    PathChildren {
                        path: path_of(&["A", "1"]),
                        children: Vec::new(),
                    },
                    PathChildren {
                        path: path_of(&["A", "2"]),
                        children: Vec::new(),
                    },
                ],
            },
            PathChildren {
                path: path_of(&["B"]),
                children: vec![
                    PathChildren {
                        path: path_of(&["B", "1"]),
                        children: Vec::new(),
                    },
                    PathChildren {
                        path: path_of(&["B", "2"]),
                        children: Vec::new(),
                    },
                ],
            },
        ],
    }
}

#[test]
fn test_positive_is_descendant_of_parent() {
    let root = sample_tree();
    let mut parents: Vec<&PathChildren> = vec![&root];
    parents.extend(root.children.iter());

    for parent in &parents {
        for child in &parent.children {
            assert!(child.path.is_descendant_of(&parent.path));
        }
    }
}

#[test]
fn test_negative_is_descendant_of_children() {
    let root = sample_tree();
    let mut parents: Vec<&PathChildren> = vec![&root];
    parents.extend(root.children.iter());

    for parent in &parents {
        for child in &parent.children {
            assert!(!parent.path.is_descendant_of(&child.path));
        }
    }
}

#[test]
fn test_positive_is_descendant_of_grandparent() {
    let root = sample_tree();
    for child in &root.children {
        for grandchild in &child.children {
            assert!(grandchild.path.is_descendant_of(&root.path));
        }
    }
}

#[test]
fn test_negative_is_descendant_of_grandchildren() {
    let root = sample_tree();
    for child in &root.children {
        for grandchild in &child.children {
            assert!(!root.path.is_descendant_of(&grandchild.path));
        }
    }
}

#[test]
fn test_positive_is_ancestor_of_children() {
    let root = sample_tree();
    let mut parents: Vec<&PathChildren> = vec![&root];
    parents.extend(root.children.iter());

    for parent in &parents {
        for child in &parent.children {
            assert!(parent.path.is_ancestor_of(&child.path));
        }
    }
}

#[test]
fn test_negative_is_ancestor_of_parent() {
    let root = sample_tree();
    let mut parents: Vec<&PathChildren> = vec![&root];
    parents.extend(root.children.iter());

    for parent in &parents {
        for child in &parent.children {
            assert!(!child.path.is_ancestor_of(&parent.path));
        }
    }
}

#[test]
fn test_positive_is_ancestor_of_grandchildren() {
    let root = sample_tree();
    for child in &root.children {
        for grandchild in &child.children {
            assert!(root.path.is_ancestor_of(&grandchild.path));
        }
    }
}

#[test]
fn test_negative_is_ancestor_of_grandparent() {
    let root = sample_tree();
    for child in &root.children {
        for grandchild in &child.children {
            assert!(!grandchild.path.is_ancestor_of(&root.path));
        }
    }
}

#[test]
fn test_negative_is_descendent_of_relatives() {
    let root = sample_tree();
    let mut families: Vec<Vec<&PathChildren>> = Vec::new();
    for parent in &root.children {
        let mut family = vec![parent];
        family.extend(parent.children.iter());
        families.push(family);
    }

    for (index1, family1) in families.iter().enumerate() {
        for (index2, family2) in families.iter().enumerate() {
            if index1 == index2 {
                continue;
            }

            for relative1 in family1 {
                for relative2 in family2 {
                    assert!(!relative1.path.is_descendant_of(&relative2.path));
                }
            }
        }
    }
}

#[test]
fn test_negative_is_ancestor_of_relatives() {
    let root = sample_tree();
    let mut families: Vec<Vec<&PathChildren>> = Vec::new();
    for parent in &root.children {
        let mut family = vec![parent];
        family.extend(parent.children.iter());
        families.push(family);
    }

    for (index1, family1) in families.iter().enumerate() {
        for (index2, family2) in families.iter().enumerate() {
            if index1 == index2 {
                continue;
            }

            for relative1 in family1 {
                for relative2 in family2 {
                    assert!(!relative1.path.is_ancestor_of(&relative2.path));
                }
            }
        }
    }
}

#[test]
fn test_positive_closest_common_ancestor_children() {
    let root = sample_tree();
    let mut parents: Vec<&PathChildren> = vec![&root];
    parents.extend(root.children.iter());

    for parent in &parents {
        for child in &parent.children {
            let results = (
                parent.path.closest_common_ancestor(&child.path),
                child.path.closest_common_ancestor(&parent.path),
            );
            assert_eq!(Some(parent.path.clone()), results.0);
            assert_eq!(results.0, results.1);
        }
    }
}

#[test]
fn test_positive_closest_common_ancestor_grandchildren() {
    let root = sample_tree();
    for child in &root.children {
        for grandchild in &child.children {
            let results = (
                root.path.closest_common_ancestor(&grandchild.path),
                grandchild.path.closest_common_ancestor(&root.path),
            );
            assert_eq!(Some(root.path.clone()), results.0);
            assert_eq!(results.0, results.1);
        }
    }
}

#[test]
fn test_positive_closest_common_ancestor_relatives() {
    let root = sample_tree();
    let mut families: Vec<Vec<&PathChildren>> = Vec::new();
    for parent in &root.children {
        let mut family = vec![parent];
        family.extend(parent.children.iter());
        families.push(family);
    }

    for (index1, family1) in families.iter().enumerate() {
        for (index2, family2) in families.iter().enumerate() {
            if index1 == index2 {
                continue;
            }

            for relative1 in family1 {
                for relative2 in family2 {
                    assert_eq!(
                        Some(root.path.clone()),
                        relative1.path.closest_common_ancestor(&relative2.path),
                    );
                }
            }
        }
    }
}
