use namespace_sets::category::{CategoryError, NestedCategory};
use namespace_sets::graph::build_graph;
use namespace_sets::query::{find_ancestors, find_descendants, find_parent_from_categories};
use namespace_sets::store::CategoryStore;

fn names(v: &[NestedCategory]) -> Vec<String> {
    v.iter().map(|c| c.name.clone()).collect()
}

fn sample_tree() -> CategoryStore {
    let mut store = CategoryStore::new();
    store.create_root_category_if_not_exists("root").unwrap();
    store.add_category("root", "A").unwrap();
    store.add_category("root", "B").unwrap();
    store.add_category("A", "C").unwrap();
    store
}

#[test]
fn bootstrap_creates_root_interval() {
    let mut store = CategoryStore::new();
    let root = store.create_root_category_if_not_exists("root").unwrap();
    assert_eq!(store.cats.len(), 1);
    assert_eq!((root.lft, root.rgt), (1, 2));
    assert_eq!(root.name, "root");
}

#[test]
fn bootstrap_is_idempotent() {
    let mut store = CategoryStore::new();
    let r1 = store.create_root_category_if_not_exists("root").unwrap();
    let r2 = store.create_root_category_if_not_exists("root").unwrap();
    assert_eq!(store.cats.len(), 1);
    assert_eq!(r1.id, r2.id);
    assert_eq!((r2.lft, r2.rgt), (1, 2));
}

#[test]
fn insertions_shift_intervals() {
    let mut store = CategoryStore::new();
    store.create_root_category_if_not_exists("root").unwrap();
    assert_eq!((store.cats[0].lft, store.cats[0].rgt), (1, 2));

    let a = store.add_category("root", "A").unwrap();
    assert_eq!((a.lft, a.rgt), (2, 3));
    assert_eq!((store.cats[0].lft, store.cats[0].rgt), (1, 4));

    let b = store.add_category("root", "B").unwrap();
    assert_eq!((b.lft, b.rgt), (4, 5));
    assert_eq!((store.cats[0].lft, store.cats[0].rgt), (1, 6));
    // A lies entirely left of the insertion point: untouched.
    assert_eq!((store.cats[1].lft, store.cats[1].rgt), (2, 3));

    let c = store.add_category("A", "C").unwrap();
    assert_eq!((c.lft, c.rgt), (3, 4));
    assert_eq!((store.cats[1].lft, store.cats[1].rgt), (2, 5)); // A
    assert_eq!((store.cats[0].lft, store.cats[0].rgt), (1, 8)); // root
    assert_eq!((store.cats[2].lft, store.cats[2].rgt), (6, 7)); // B shifted
}

#[test]
fn intervals_stay_nested() {
    let store = sample_tree();
    for a in &store.cats {
        assert!(a.lft < a.rgt);
        assert_eq!((a.rgt - a.lft) % 2, 1);
        for b in &store.cats {
            if a.id != b.id {
                let disjoint = a.rgt <= b.lft || b.rgt <= a.lft;
                let a_in_b = b.lft < a.lft && a.rgt < b.rgt;
                let b_in_a = a.lft < b.lft && b.rgt < a.rgt;
                assert!(disjoint || a_in_b || b_in_a);
            }
        }
    }
}

#[test]
fn ancestors_root_first_and_descendants_preorder() {
    let store = sample_tree();
    let anc = find_ancestors(&store.cats, "C").unwrap();
    assert_eq!(names(&anc), vec!["root".to_string(), "A".to_string()]);
    let desc = find_descendants(&store.cats, "root").unwrap();
    assert_eq!(names(&desc), vec!["A".to_string(), "C".to_string(), "B".to_string()]);
    let none = find_descendants(&store.cats, "C").unwrap();
    assert!(none.is_empty());
}

#[test]
fn ancestor_descendant_duality_on_sample() {
    let store = sample_tree();
    // C appears in the descendant set of each of its ancestors, and each
    // ancestor appears in C's ancestor set; the two sets never overlap.
    let anc = find_ancestors(&store.cats, "C").unwrap();
    for a in &anc {
        let desc = find_descendants(&store.cats, &a.name).unwrap();
        assert!(desc.iter().any(|d| d.name == "C"));
    }
    let desc_c = find_descendants(&store.cats, "C").unwrap();
    for a in &anc {
        assert!(!desc_c.iter().any(|d| d.id == a.id));
    }
}

#[test]
fn parent_resolution_finds_innermost() {
    let store = sample_tree();
    let c = store.cats[3].clone();
    assert_eq!(c.name, "C");
    let p = find_parent_from_categories(&store.cats, &c).unwrap();
    assert_eq!(p.name, "A");
    let a = store.cats[1].clone();
    let pa = find_parent_from_categories(&store.cats, &a).unwrap();
    assert_eq!(pa.name, "root");
    let root = store.cats[0].clone();
    assert!(find_parent_from_categories(&store.cats, &root).is_none());
}

#[test]
fn missing_names_are_reported() {
    let mut store = sample_tree();
    let before: Vec<i32> = store.cats.iter().map(|c| c.lft).collect();
    assert_eq!(store.add_category("nope", "X").unwrap_err(), CategoryError::NotFound);
    let after: Vec<i32> = store.cats.iter().map(|c| c.lft).collect();
    assert_eq!(before, after);
    assert_eq!(find_ancestors(&store.cats, "nope").unwrap_err(), CategoryError::NotFound);
    assert_eq!(find_descendants(&store.cats, "nope").unwrap_err(), CategoryError::NotFound);
}

#[test]
fn graph_edges_join_children_to_parents() {
    let store = sample_tree();
    // ids in insertion order: root=1, A=2, B=3, C=4
    let edges = build_graph(&store.cats);
    assert_eq!(edges, vec![(1, 2), (1, 3), (2, 4)]);
}

#[test]
fn graph_of_lone_root_has_no_edges() {
    let mut store = CategoryStore::new();
    store.create_root_category_if_not_exists("root").unwrap();
    let edges = build_graph(&store.cats);
    assert!(edges.is_empty());
}
