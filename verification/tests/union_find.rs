use graph_library::algorithms::mst::union_find::{UnionFind, UnionFindError};

fn test_struct() -> UnionFind {
    let mut union_find = UnionFind::new();
    for i in 1usize..=9 {
        union_find.make_set(i).unwrap();
    }
    union_find
}

#[test]
fn make_set_rejects_duplicate() {
    let mut union_find = UnionFind::new();
    assert!(union_find.make_set(1).is_ok());
    assert!(union_find.make_set(2).is_ok());
    assert!(matches!(union_find.make_set(1), Err(UnionFindError::DuplicateVertex(1))));
    assert_eq!(
        UnionFindError::DuplicateVertex(1).to_string(),
        "Vertex with ID 1 already exists"
    );
}

#[test]
fn find_of_single_elements() {
    let mut union_find = test_struct();
    assert_eq!(union_find.find(1).unwrap(), 1);
    assert_eq!(union_find.find(9).unwrap(), 9);
    assert!(matches!(union_find.find(0), Err(UnionFindError::VertexNotFound(0))));
    assert_eq!(UnionFindError::VertexNotFound(0).to_string(), "Vertex with ID 0 not found");
}

#[test]
fn union_says_whether_it_merged() {
    let mut union_find = test_struct();
    assert_eq!(union_find.union(1, 2).unwrap(), true);
    assert_eq!(union_find.union(1, 3).unwrap(), true);
    assert_eq!(union_find.union(2, 3).unwrap(), false);
    assert!(matches!(union_find.union(0, 3), Err(UnionFindError::VertexNotFound(0))));
    assert!(matches!(union_find.union(3, 10), Err(UnionFindError::VertexNotFound(10))));
}

#[test]
fn union_and_find() {
    let mut union_find = test_struct();
    assert!(union_find.union(1, 2).unwrap());
    assert!(union_find.union(1, 3).unwrap());
    assert!(union_find.union(2, 4).unwrap());
    assert!(union_find.union(2, 5).unwrap());
    assert!(union_find.union(6, 7).unwrap());
    assert!(!union_find.union(3, 2).unwrap());

    assert_eq!(union_find.find(1).unwrap(), 2);
    assert_eq!(union_find.find(2).unwrap(), 2);
    assert_eq!(union_find.find(3).unwrap(), 2);
    assert_eq!(union_find.find(4).unwrap(), 2);
    assert_eq!(union_find.find(5).unwrap(), 2);
    assert_eq!(union_find.find(6).unwrap(), 7);
    assert_eq!(union_find.find(7).unwrap(), 7);
    assert_eq!(union_find.find(8).unwrap(), 8);
    assert_eq!(union_find.find(9).unwrap(), 9);
}

#[test]
fn larger_set_keeps_its_representative() {
    let mut union_find = test_struct();
    union_find.union(1, 2).unwrap();
    union_find.union(2, 3).unwrap();
    // {1, 2, 3} stands under 2; the single 4 joins it whichever way round.
    assert!(union_find.union(1, 4).unwrap());
    assert_eq!(union_find.find(4).unwrap(), 2);
    assert!(union_find.union(5, 3).unwrap());
    assert_eq!(union_find.find(5).unwrap(), 2);
}
