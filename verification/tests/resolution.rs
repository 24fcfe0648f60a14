use segmented_changelog::ChangesetId;
use segmented_changelog::CommitEntry;
use segmented_changelog::Dag;
use segmented_changelog::DisabledSegmentedChangelog;
use segmented_changelog::Location;
use segmented_changelog::Seeder;
use segmented_changelog::SegmentedChangelog;
use segmented_changelog::SegmentedChangelogError;
use segmented_changelog::changelog::resolve_single;
use segmented_changelog::changelog::single_result;

fn cs(n: u8) -> ChangesetId {
    let mut bytes = [0u8; 32];
    bytes[0] = n;
    ChangesetId::from_bytes(bytes)
}

fn commit(id: u8, parents: &[u8]) -> CommitEntry {
    CommitEntry { id: cs(id), parents: parents.iter().map(|p| cs(*p)).collect() }
}

const A: u8 = 0xa;
const B: u8 = 0xb;
const C: u8 = 0xc;

fn abc() -> Dag {
    Seeder::build_in_order(&vec![commit(A, &[]), commit(B, &[A]), commit(C, &[B])]).unwrap()
}

// 1 <- 2 <- 3 <- 5 <- 6, and 1 <- 4 <- 5: commit 5 merges 3 (first parent) and 4.
fn merged() -> Dag {
    Seeder::build_in_order(&vec![
        commit(1, &[]),
        commit(2, &[1]),
        commit(3, &[2]),
        commit(4, &[1]),
        commit(5, &[3, 4]),
        commit(6, &[5]),
    ])
    .unwrap()
}

#[test]
fn seeded_chain_assigns_vertices_in_order() {
    let dag = abc();
    assert_eq!(dag.idmap().find_vertex(cs(A)), Some(0));
    assert_eq!(dag.idmap().find_vertex(cs(B)), Some(1));
    assert_eq!(dag.idmap().find_vertex(cs(C)), Some(2));
    assert_eq!(dag.head(), Some(2));
    assert_eq!(dag.iddag().next_id(), 3);
}

#[test]
fn location_to_changeset_id_on_chain() {
    let dag = abc();
    assert_eq!(dag.location_to_changeset_id(Location::new(cs(C), 2)), Ok(cs(A)));
    assert_eq!(dag.location_to_changeset_id(Location::new(cs(C), 1)), Ok(cs(B)));
    assert_eq!(dag.location_to_changeset_id(Location::new(cs(C), 0)), Ok(cs(C)));
    assert_eq!(dag.location_to_changeset_id(Location::new(cs(A), 0)), Ok(cs(A)));
}

#[test]
fn location_to_many_changeset_ids_on_chain() {
    let dag = abc();
    assert_eq!(
        SegmentedChangelog::location_to_many_changeset_ids(&dag, Location::new(cs(C), 1), 2),
        Ok(vec![cs(B), cs(A)])
    );
    assert_eq!(
        SegmentedChangelog::location_to_many_changeset_ids(&dag, Location::new(cs(C), 0), 3),
        Ok(vec![cs(C), cs(B), cs(A)])
    );
    assert_eq!(
        SegmentedChangelog::location_to_many_changeset_ids(&dag, Location::new(cs(C), 2), 1),
        Ok(vec![cs(A)])
    );
}

#[test]
fn location_beyond_root_is_head_not_found() {
    let dag = abc();
    assert_eq!(
        dag.location_to_changeset_id(Location::new(cs(C), 3)),
        Err(SegmentedChangelogError::HeadNotFound)
    );
    assert_eq!(
        dag.location_to_changeset_id(Location::new(cs(C), u64::MAX)),
        Err(SegmentedChangelogError::HeadNotFound)
    );
}

#[test]
fn count_beyond_available_ancestors_is_head_not_found() {
    let dag = abc();
    assert_eq!(
        SegmentedChangelog::location_to_many_changeset_ids(&dag, Location::new(cs(C), 1), 3),
        Err(SegmentedChangelogError::HeadNotFound)
    );
    assert_eq!(
        SegmentedChangelog::location_to_many_changeset_ids(&dag, Location::new(cs(C), 0), 4),
        Err(SegmentedChangelogError::HeadNotFound)
    );
    assert_eq!(
        SegmentedChangelog::location_to_many_changeset_ids(&dag, Location::new(cs(C), 2), u64::MAX),
        Err(SegmentedChangelogError::HeadNotFound)
    );
}

#[test]
fn unknown_commit_is_head_not_found() {
    let dag = abc();
    assert_eq!(
        dag.location_to_changeset_id(Location::new(cs(0x77), 0)),
        Err(SegmentedChangelogError::HeadNotFound)
    );
    assert_eq!(
        SegmentedChangelog::location_to_many_changeset_ids(&dag, Location::new(cs(0x77), 0), 0),
        Err(SegmentedChangelogError::HeadNotFound)
    );
}

#[test]
fn count_zero_gives_empty_list() {
    let dag = abc();
    assert_eq!(
        SegmentedChangelog::location_to_many_changeset_ids(&dag, Location::new(cs(C), 1), 0),
        Ok(vec![])
    );
    assert_eq!(
        SegmentedChangelog::location_to_many_changeset_ids(&dag, Location::new(cs(C), 9), 0),
        Ok(vec![])
    );
}

#[test]
fn resolution_follows_first_parent_through_merge() {
    let dag = merged();
    assert_eq!(
        SegmentedChangelog::location_to_many_changeset_ids(&dag, Location::new(cs(6), 0), 5),
        Ok(vec![cs(6), cs(5), cs(3), cs(2), cs(1)])
    );
    assert_eq!(dag.location_to_changeset_id(Location::new(cs(4), 1)), Ok(cs(1)));
    assert_eq!(
        SegmentedChangelog::location_to_many_changeset_ids(&dag, Location::new(cs(6), 1), 5),
        Err(SegmentedChangelogError::HeadNotFound)
    );
}

#[test]
fn single_result_wants_exactly_one() {
    assert_eq!(single_result(vec![cs(1)]), Ok(cs(1)));
    assert_eq!(single_result(vec![]), Err(SegmentedChangelogError::UnexpectedResultCount));
    assert_eq!(
        single_result(vec![cs(1), cs(2)]),
        Err(SegmentedChangelogError::UnexpectedResultCount)
    );
}

#[test]
fn resolve_single_goes_through_many() {
    let dag = abc();
    assert_eq!(resolve_single(&dag, Location::new(cs(C), 2)), Ok(cs(A)));
    let disabled = DisabledSegmentedChangelog::new();
    assert_eq!(
        resolve_single(&disabled, Location::new(cs(C), 2)),
        Err(SegmentedChangelogError::NotEnabled)
    );
}

#[test]
fn disabled_changelog_clone_data_is_not_enabled() {
    let disabled = DisabledSegmentedChangelog::new();
    assert_eq!(disabled.clone_data().err(), Some(SegmentedChangelogError::NotEnabled));
    assert_eq!(
        disabled.full_idmap_clone_data().err(),
        Some(SegmentedChangelogError::NotEnabled)
    );
}

#[test]
fn disabled_changelog_resolves_nothing() {
    let disabled = DisabledSegmentedChangelog::new();
    for id in [cs(A), cs(0), cs(0xff)] {
        for distance in [0u64, 1, u64::MAX] {
            assert_eq!(
                disabled.location_to_changeset_id(Location::new(id, distance)),
                Err(SegmentedChangelogError::NotEnabled)
            );
            for count in [0u64, 1, 2] {
                assert_eq!(
                    disabled.location_to_many_changeset_ids(Location::new(id, distance), count),
                    Err(SegmentedChangelogError::NotEnabled)
                );
            }
        }
    }
}

#[test]
fn error_messages_are_fixed() {
    assert_eq!(
        SegmentedChangelogError::NotEnabled.message(),
        "Segmented Changelog is not enabled for this repo"
    );
    assert_eq!(
        SegmentedChangelogError::UnexpectedResultCount.message(),
        "unexpected result from location_to_many_changeset_ids"
    );
    let all = [
        SegmentedChangelogError::NotEnabled,
        SegmentedChangelogError::HeadNotFound,
        SegmentedChangelogError::GraphInconsistent,
        SegmentedChangelogError::Diverged,
        SegmentedChangelogError::Inconsistent,
        SegmentedChangelogError::UnexpectedResultCount,
        SegmentedChangelogError::BuildInProgress,
        SegmentedChangelogError::VertexSpaceExhausted,
    ];
    for (i, a) in all.iter().enumerate() {
        for (j, b) in all.iter().enumerate() {
            assert_eq!(a.message() == b.message(), i == j);
        }
    }
}

#[test]
fn seeder_distance_on_linear_chain() {
    let n: u8 = 30;
    let mut commits = vec![commit(100, &[])];
    for i in 1..=n {
        commits.push(commit(100 + i, &[100 + i - 1]));
    }
    let dag = Seeder::build_in_order(&commits).unwrap();
    let head = dag.idmap().find_vertex(cs(100 + n)).unwrap();
    assert_eq!(head, n as u64);
    for k in 0..=n {
        let vertex = dag.iddag().distance(head, k as u64).unwrap();
        assert_eq!(dag.idmap().find_changeset_id(vertex), Some(cs(100 + n - k)));
        assert_eq!(
            dag.location_to_changeset_id(Location::new(cs(100 + n), k as u64)),
            Ok(cs(100 + n - k))
        );
    }
    assert_eq!(dag.iddag().distance(head, n as u64 + 1), None);
}

#[test]
fn seeder_builds_empty_group_from_no_commits() {
    let dag = Seeder::build_in_order(&vec![]).unwrap();
    assert_eq!(dag.head(), None);
    assert!(dag.idmap().is_empty());
}

#[test]
fn seeder_refuses_child_before_parent() {
    let r = Seeder::build_in_order(&vec![commit(B, &[A]), commit(A, &[])]);
    assert_eq!(r.err(), Some(SegmentedChangelogError::GraphInconsistent));
}

#[test]
fn seeder_refuses_repeated_commit() {
    let r = Seeder::build_in_order(&vec![commit(A, &[]), commit(B, &[A]), commit(A, &[])]);
    assert_eq!(r.err(), Some(SegmentedChangelogError::Inconsistent));
    let r = Seeder::build_in_order(&vec![commit(A, &[]), commit(A, &[0x55])]);
    assert_eq!(r.err(), Some(SegmentedChangelogError::Inconsistent));
}

#[test]
fn seeder_refuses_commit_that_is_its_own_parent() {
    let r = Seeder::build_in_order(&vec![commit(A, &[A])]);
    assert_eq!(r.err(), Some(SegmentedChangelogError::GraphInconsistent));
}

#[test]
fn add_commit_leaves_group_unchanged_on_failure() {
    let mut dag = abc();
    assert_eq!(dag.add_commit(&commit(A, &[])), Err(SegmentedChangelogError::Inconsistent));
    assert_eq!(
        dag.add_commit(&commit(0x10, &[0x11])),
        Err(SegmentedChangelogError::GraphInconsistent)
    );
    assert_eq!(dag.head(), Some(2));
    assert_eq!(dag.add_commit(&commit(0x10, &[C, A])), Ok(3));
    assert_eq!(dag.iddag().parents(3), vec![2, 0]);
    assert_eq!(dag.idmap().find_changeset_id(3), Some(cs(0x10)));
}

#[test]
fn extended_does_not_change_the_group() {
    let dag = abc();
    let bigger = dag.extended(&vec![commit(0x10, &[C]), commit(0x11, &[0x10, A])]).unwrap();
    assert_eq!(dag.head(), Some(2));
    assert_eq!(bigger.head(), Some(4));
    assert_eq!(bigger.idmap().find_vertex(cs(0x11)), Some(4));
    assert_eq!(bigger.iddag().parents(4), vec![3, 0]);
    assert_eq!(bigger.iddag().parents(3), vec![2]);
    assert_eq!(bigger.iddag().flat_segments().segments.len(), 2);
}
