use segmented_changelog::FlatSegment;
use segmented_changelog::IdDag;
use segmented_changelog::PreparedFlatSegments;
use segmented_changelog::SegmentedChangelogError;

// 0 <- 1 <- 2 <- 4 <- 5, and 0 <- 3 <- 4: vertex 4 merges 2 and 3.
fn diamond() -> IdDag {
    let mut dag = IdDag::new();
    assert_eq!(dag.append(&vec![]), Ok(0));
    assert_eq!(dag.append(&vec![0]), Ok(1));
    assert_eq!(dag.append(&vec![1]), Ok(2));
    assert_eq!(dag.append(&vec![0]), Ok(3));
    assert_eq!(dag.append(&vec![2, 3]), Ok(4));
    assert_eq!(dag.append(&vec![4]), Ok(5));
    dag
}

fn seg(low: u64, high: u64, parents: Vec<u64>) -> FlatSegment {
    FlatSegment { low, high, parents }
}

#[test]
fn empty_iddag_has_no_vertex() {
    let dag = IdDag::new();
    assert_eq!(dag.next_id(), 0);
    assert!(!dag.contains(0));
    assert_eq!(dag.parents(0), vec![]);
    assert_eq!(dag.distance(0, 0), None);
    assert!(!dag.is_ancestor(0, 0));
    assert_eq!(dag.merge_base(0, 0), None);
    assert_eq!(dag.flat_segments().segments, vec![]);
}

#[test]
fn segments_partition_assigned_vertices() {
    let dag = diamond();
    assert_eq!(dag.next_id(), 6);
    let segments = dag.flat_segments().segments;
    assert_eq!(
        segments,
        vec![seg(0, 2, vec![]), seg(3, 3, vec![0]), seg(4, 5, vec![2, 3])]
    );
    let mut covered: Vec<u64> = Vec::new();
    for s in &segments {
        for v in s.low..=s.high {
            covered.push(v);
        }
    }
    assert_eq!(covered, vec![0, 1, 2, 3, 4, 5]);
}

#[test]
fn parents_come_first_parent_first() {
    let dag = diamond();
    assert_eq!(dag.parents(0), vec![]);
    assert_eq!(dag.parents(1), vec![0]);
    assert_eq!(dag.parents(2), vec![1]);
    assert_eq!(dag.parents(3), vec![0]);
    assert_eq!(dag.parents(4), vec![2, 3]);
    assert_eq!(dag.parents(5), vec![4]);
    assert_eq!(dag.parents(6), vec![]);
}

#[test]
fn distance_follows_first_parents() {
    let dag = diamond();
    assert_eq!(dag.distance(5, 0), Some(5));
    assert_eq!(dag.distance(5, 1), Some(4));
    assert_eq!(dag.distance(5, 2), Some(2));
    assert_eq!(dag.distance(5, 3), Some(1));
    assert_eq!(dag.distance(5, 4), Some(0));
    assert_eq!(dag.distance(5, 5), None);
    assert_eq!(dag.distance(5, u64::MAX), None);
    assert_eq!(dag.distance(3, 1), Some(0));
    assert_eq!(dag.distance(3, 2), None);
    assert_eq!(dag.distance(6, 0), None);
}

#[test]
fn distance_on_linear_chain() {
    let mut dag = IdDag::new();
    dag.append(&vec![]).unwrap();
    for v in 1..=20u64 {
        assert_eq!(dag.append(&vec![v - 1]), Ok(v));
    }
    assert_eq!(dag.flat_segments().segments, vec![seg(0, 20, vec![])]);
    for k in 0..=20u64 {
        assert_eq!(dag.distance(20, k), Some(20 - k));
    }
    assert_eq!(dag.distance(20, 21), None);
}

#[test]
fn is_ancestor_on_diamond() {
    let dag = diamond();
    for v in 0..6u64 {
        assert!(dag.is_ancestor(v, v));
        assert!(dag.is_ancestor(0, v));
    }
    assert!(dag.is_ancestor(3, 4));
    assert!(dag.is_ancestor(3, 5));
    assert!(dag.is_ancestor(2, 5));
    assert!(dag.is_ancestor(1, 4));
    assert!(!dag.is_ancestor(3, 2));
    assert!(!dag.is_ancestor(1, 3));
    assert!(!dag.is_ancestor(2, 3));
    assert!(!dag.is_ancestor(5, 4));
    assert!(!dag.is_ancestor(4, 2));
    assert!(!dag.is_ancestor(0, 6));
    assert!(!dag.is_ancestor(6, 5));
    assert!(!dag.is_ancestor(6, 6));
}

#[test]
fn merge_base_on_diamond() {
    let dag = diamond();
    assert_eq!(dag.merge_base(2, 3), Some(0));
    assert_eq!(dag.merge_base(3, 2), Some(0));
    assert_eq!(dag.merge_base(4, 5), Some(4));
    assert_eq!(dag.merge_base(2, 1), Some(1));
    assert_eq!(dag.merge_base(5, 3), Some(3));
    assert_eq!(dag.merge_base(5, 5), Some(5));
    assert_eq!(dag.merge_base(2, 6), None);
    assert_eq!(dag.merge_base(6, 2), None);
}

#[test]
fn merge_base_of_unrelated_roots_is_none() {
    let mut dag = IdDag::new();
    assert_eq!(dag.append(&vec![]), Ok(0));
    assert_eq!(dag.append(&vec![]), Ok(1));
    assert_eq!(dag.append(&vec![1]), Ok(2));
    assert_eq!(
        dag.flat_segments().segments,
        vec![seg(0, 0, vec![]), seg(1, 2, vec![])]
    );
    assert_eq!(dag.merge_base(0, 1), None);
    assert_eq!(dag.merge_base(0, 2), None);
    assert_eq!(dag.merge_base(1, 2), Some(1));
    assert!(!dag.is_ancestor(0, 2));
}

#[test]
fn append_refuses_unassigned_parent() {
    let mut dag = diamond();
    assert_eq!(dag.append(&vec![6]), Err(SegmentedChangelogError::GraphInconsistent));
    assert_eq!(dag.append(&vec![5, 9]), Err(SegmentedChangelogError::GraphInconsistent));
    assert_eq!(dag.next_id(), 6);
    assert_eq!(dag.flat_segments().segments.len(), 3);
}

#[test]
fn append_opens_segment_for_second_child() {
    let mut dag = IdDag::new();
    dag.append(&vec![]).unwrap();
    dag.append(&vec![0]).unwrap();
    // a second child of vertex 0 cannot extend the run 0..=1
    dag.append(&vec![0]).unwrap();
    // a child of the run's last vertex that names it twice is no plain successor
    dag.append(&vec![2, 2]).unwrap();
    assert_eq!(
        dag.flat_segments().segments,
        vec![seg(0, 1, vec![]), seg(2, 2, vec![0]), seg(3, 3, vec![2, 2])]
    );
}

#[test]
fn append_refuses_when_vertex_space_is_exhausted() {
    let prepared = PreparedFlatSegments { segments: vec![seg(0, u64::MAX - 1, vec![])] };
    let mut dag = IdDag::from_flat_segments(&prepared).unwrap();
    assert_eq!(dag.next_id(), u64::MAX);
    assert_eq!(dag.append(&vec![]), Err(SegmentedChangelogError::VertexSpaceExhausted));
    assert_eq!(
        dag.append(&vec![u64::MAX]),
        Err(SegmentedChangelogError::GraphInconsistent)
    );
    assert_eq!(dag.distance(u64::MAX - 1, 1_000_000_000_000), Some(u64::MAX - 1 - 1_000_000_000_000));
    assert_eq!(dag.distance(u64::MAX - 1, u64::MAX - 1), Some(0));
    assert_eq!(dag.distance(u64::MAX - 1, u64::MAX), None);
    assert!(dag.is_ancestor(7, u64::MAX - 1));
    assert_eq!(dag.merge_base(12, 1 << 40), Some(12));
}

#[test]
fn from_flat_segments_accepts_valid_segments() {
    let prepared = diamond().flat_segments();
    let dag = IdDag::from_flat_segments(&prepared).unwrap();
    assert_eq!(dag.flat_segments(), prepared);
    assert_eq!(dag.next_id(), 6);
    assert_eq!(dag.parents(4), vec![2, 3]);
}

#[test]
fn from_flat_segments_refuses_invalid_segments() {
    let cases: Vec<Vec<FlatSegment>> = vec![
        vec![seg(1, 2, vec![])],
        vec![seg(0, 2, vec![]), seg(4, 5, vec![0])],
        vec![seg(0, 2, vec![]), seg(2, 5, vec![0])],
        vec![seg(0, 2, vec![]), seg(3, 2, vec![0])],
        vec![seg(0, 2, vec![]), seg(3, 5, vec![3])],
        vec![seg(0, 2, vec![0])],
        vec![seg(0, u64::MAX, vec![])],
        vec![seg(0, 2, vec![]), seg(3, 5, vec![2])],
    ];
    for segments in cases {
        let prepared = PreparedFlatSegments { segments };
        assert_eq!(
            IdDag::from_flat_segments(&prepared).err(),
            Some(SegmentedChangelogError::GraphInconsistent)
        );
    }
}

#[test]
fn iddag_duplicate_is_independent() {
    let mut dag = diamond();
    let copy = dag.duplicate();
    dag.append(&vec![5]).unwrap();
    assert_eq!(copy.next_id(), 6);
    assert_eq!(dag.next_id(), 7);
    assert_eq!(copy.flat_segments(), diamond().flat_segments());
}
