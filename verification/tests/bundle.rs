use segmented_changelog::ChangesetId;
use segmented_changelog::CloneData;
use segmented_changelog::CommitEntry;
use segmented_changelog::Dag;
use segmented_changelog::FlatSegment;
use segmented_changelog::IdMapStream;
use segmented_changelog::PreparedFlatSegments;
use segmented_changelog::Seeder;
use segmented_changelog::SegmentedChangelog;
use segmented_changelog::SegmentedChangelogError;
use segmented_changelog::bundle::replay;

fn cs(n: u8) -> ChangesetId {
    let mut bytes = [0u8; 32];
    bytes[3] = n;
    ChangesetId::from_bytes(bytes)
}

fn commit(id: u8, parents: &[u8]) -> CommitEntry {
    CommitEntry { id: cs(id), parents: parents.iter().map(|p| cs(*p)).collect() }
}

fn seg(low: u64, high: u64, parents: Vec<u64>) -> FlatSegment {
    FlatSegment { low, high, parents }
}

// vertices 0..=6: 0 <- 1 <- 2 <- 4 <- 5 <- 6, 0 <- 3 <- 4
fn merged() -> Dag {
    Seeder::build_in_order(&vec![
        commit(10, &[]),
        commit(11, &[10]),
        commit(12, &[11]),
        commit(13, &[10]),
        commit(14, &[12, 13]),
        commit(15, &[14]),
        commit(16, &[15]),
    ])
    .unwrap()
}

#[test]
fn clone_data_holds_head_segments_and_boundaries() {
    let data = merged().clone_data().unwrap();
    assert_eq!(data.head_id, 6);
    assert_eq!(
        data.flat_segments.segments,
        vec![seg(0, 2, vec![]), seg(3, 3, vec![0]), seg(4, 6, vec![2, 3])]
    );
    assert_eq!(
        data.idmap,
        vec![(0, cs(10)), (2, cs(12)), (3, cs(13)), (4, cs(14)), (6, cs(16))]
    );
}

#[test]
fn clone_data_of_empty_group_is_head_not_found() {
    let dag = Dag::new();
    assert_eq!(dag.clone_data().err(), Some(SegmentedChangelogError::HeadNotFound));
    assert_eq!(dag.full_idmap_clone_data().err(), Some(SegmentedChangelogError::HeadNotFound));
}

#[test]
fn full_idmap_clone_data_streams_every_entry() {
    let mut data = merged().full_idmap_clone_data().unwrap();
    assert_eq!(data.head_id, 6);
    assert_eq!(data.flat_segments.segments.len(), 3);
    let mut seen = Vec::new();
    while let Some(entry) = data.idmap_stream.next_entry() {
        seen.push(entry);
    }
    assert_eq!(
        seen,
        vec![
            (0, cs(10)),
            (1, cs(11)),
            (2, cs(12)),
            (3, cs(13)),
            (4, cs(14)),
            (5, cs(15)),
            (6, cs(16))
        ]
    );
    assert_eq!(data.idmap_stream.next_entry(), None);
}

#[test]
fn idmap_stream_hands_out_pages() {
    let mut stream = IdMapStream::new(vec![(0u64, 'a'), (1, 'b'), (2, 'c'), (3, 'd'), (4, 'e')]);
    assert_eq!(stream.next_page(2), vec![(0, 'a'), (1, 'b')]);
    assert_eq!(stream.next_page(0), vec![]);
    assert_eq!(stream.next_entry(), Some((2, 'c')));
    assert_eq!(stream.next_page(10), vec![(3, 'd'), (4, 'e')]);
    assert_eq!(stream.next_page(10), vec![]);
    assert_eq!(stream.next_entry(), None);
}

#[test]
fn replayed_clone_data_answers_like_the_group() {
    let dag = merged();
    let data = dag.clone_data().unwrap();
    let replayed = replay(&data).unwrap();
    assert_eq!(replayed.flat_segments(), dag.iddag().flat_segments());
    let hints: Vec<u64> = data.idmap.iter().map(|(v, _)| *v).collect();
    for a in &hints {
        for b in &hints {
            assert_eq!(replayed.is_ancestor(*a, *b), dag.iddag().is_ancestor(*a, *b));
            assert_eq!(replayed.merge_base(*a, *b), dag.iddag().merge_base(*a, *b));
        }
        for n in 0..8u64 {
            assert_eq!(replayed.distance(*a, n), dag.iddag().distance(*a, n));
        }
    }
    assert!(replayed.is_ancestor(3, 6));
    assert!(!replayed.is_ancestor(3, 2));
    assert_eq!(replayed.distance(6, 3), Some(2));
}

#[test]
fn replay_refuses_wrong_head_and_bad_segments() {
    let good = merged().clone_data().unwrap();
    let wrong_head = CloneData { head_id: 5, ..good.clone() };
    assert_eq!(replay(&wrong_head).err(), Some(SegmentedChangelogError::GraphInconsistent));
    let gap = CloneData {
        head_id: 6,
        flat_segments: PreparedFlatSegments { segments: vec![seg(0, 2, vec![]), seg(4, 6, vec![2])] },
        idmap: Vec::<(u64, ChangesetId)>::new(),
    };
    assert_eq!(replay(&gap).err(), Some(SegmentedChangelogError::GraphInconsistent));
    let empty = CloneData {
        head_id: 0,
        flat_segments: PreparedFlatSegments { segments: vec![] },
        idmap: Vec::<(u64, ChangesetId)>::new(),
    };
    assert_eq!(replay(&empty).err(), Some(SegmentedChangelogError::GraphInconsistent));
}
