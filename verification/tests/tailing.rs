use segmented_changelog::AppendResult;
use segmented_changelog::ChangesetId;
use segmented_changelog::CommitEntry;
use segmented_changelog::Dag;
use segmented_changelog::Seeder;
use segmented_changelog::SegmentedChangelogError;
use segmented_changelog::Tailer;
use segmented_changelog::tailer::all_heads_mapped;

fn cs(n: u8) -> ChangesetId {
    let mut bytes = [0u8; 32];
    bytes[1] = n;
    ChangesetId::from_bytes(bytes)
}

fn commit(id: u8, parents: &[u8]) -> CommitEntry {
    CommitEntry { id: cs(id), parents: parents.iter().map(|p| cs(*p)).collect() }
}

fn base() -> Dag {
    Seeder::build_in_order(&vec![commit(1, &[]), commit(2, &[1])]).unwrap()
}

fn shape(dag: &Dag) -> (Vec<(u64, ChangesetId)>, Vec<(u64, u64, Vec<u64>)>) {
    (
        dag.idmap().enumerate_all(),
        dag.iddag()
            .flat_segments()
            .segments
            .iter()
            .map(|s| (s.low, s.high, s.parents.clone()))
            .collect(),
    )
}

#[test]
fn tailer_appends_new_commits() {
    let mut tailer = Tailer::new(base());
    let r = tailer.advance_to(&vec![cs(4)], &vec![commit(3, &[2]), commit(4, &[3])]);
    assert_eq!(r, Ok(AppendResult::Appended { first: 2, count: 2 }));
    let dag = tailer.into_dag();
    assert_eq!(dag.head(), Some(3));
    assert_eq!(dag.idmap().find_vertex(cs(3)), Some(2));
    assert_eq!(dag.idmap().find_vertex(cs(4)), Some(3));
    assert_eq!(shape(&dag).1, vec![(0, 3, vec![])]);
}

#[test]
fn tailer_second_advance_is_already_up_to_date() {
    let mut tailer = Tailer::new(base());
    let heads = vec![cs(4)];
    let delta = vec![commit(3, &[2]), commit(4, &[3])];
    assert_eq!(
        tailer.advance_to(&heads, &delta),
        Ok(AppendResult::Appended { first: 2, count: 2 })
    );
    let before = shape(tailer.dag());
    assert_eq!(tailer.advance_to(&heads, &delta), Ok(AppendResult::AlreadyUpToDate));
    assert_eq!(shape(tailer.dag()), before);
    assert_eq!(tailer.advance_to(&heads, &vec![]), Ok(AppendResult::AlreadyUpToDate));
    assert_eq!(shape(tailer.dag()), before);
}

#[test]
fn tailer_is_up_to_date_for_known_heads_and_for_no_heads() {
    let mut tailer = Tailer::new(base());
    let before = shape(tailer.dag());
    assert_eq!(tailer.advance_to(&vec![cs(2)], &vec![]), Ok(AppendResult::AlreadyUpToDate));
    assert_eq!(tailer.advance_to(&vec![cs(1), cs(2)], &vec![]), Ok(AppendResult::AlreadyUpToDate));
    assert_eq!(tailer.advance_to(&vec![], &vec![commit(9, &[])]), Ok(AppendResult::AlreadyUpToDate));
    assert_eq!(shape(tailer.dag()), before);
}

#[test]
fn tailer_reports_head_not_found() {
    let mut tailer = Tailer::new(base());
    let before = shape(tailer.dag());
    assert_eq!(
        tailer.advance_to(&vec![cs(7)], &vec![]),
        Err(SegmentedChangelogError::HeadNotFound)
    );
    assert_eq!(
        tailer.advance_to(&vec![cs(3), cs(7)], &vec![commit(3, &[2])]),
        Err(SegmentedChangelogError::HeadNotFound)
    );
    assert_eq!(shape(tailer.dag()), before);
}

#[test]
fn tailer_reports_diverged() {
    let mut tailer = Tailer::new(base());
    let before = shape(tailer.dag());
    // commit 5 descends from commit 1 but not from the head, commit 2
    assert_eq!(
        tailer.advance_to(&vec![cs(5)], &vec![commit(5, &[1])]),
        Err(SegmentedChangelogError::Diverged)
    );
    assert_eq!(shape(tailer.dag()), before);
    // one head that continues the group is enough
    assert_eq!(
        tailer.advance_to(&vec![cs(5), cs(6)], &vec![commit(5, &[1]), commit(6, &[2])]),
        Ok(AppendResult::Appended { first: 2, count: 2 })
    );
}

#[test]
fn tailer_reports_graph_inconsistent() {
    let mut tailer = Tailer::new(base());
    let before = shape(tailer.dag());
    assert_eq!(
        tailer.advance_to(&vec![cs(5)], &vec![commit(5, &[4])]),
        Err(SegmentedChangelogError::GraphInconsistent)
    );
    assert_eq!(shape(tailer.dag()), before);
}

#[test]
fn tailer_reports_inconsistent() {
    let mut tailer = Tailer::new(base());
    let before = shape(tailer.dag());
    assert_eq!(
        tailer.advance_to(&vec![cs(5)], &vec![commit(2, &[1]), commit(5, &[2])]),
        Err(SegmentedChangelogError::Inconsistent)
    );
    assert_eq!(shape(tailer.dag()), before);
}

#[test]
fn tailer_starts_from_empty_group() {
    let mut tailer = Tailer::new(Dag::new());
    assert_eq!(
        tailer.advance_to(&vec![cs(2)], &vec![commit(1, &[]), commit(2, &[1])]),
        Ok(AppendResult::Appended { first: 0, count: 2 })
    );
    assert_eq!(shape(tailer.dag()), shape(&base()));
}

#[test]
fn all_heads_mapped_checks_every_head() {
    let dag = base();
    assert!(all_heads_mapped(&dag, &vec![]));
    assert!(all_heads_mapped(&dag, &vec![cs(1), cs(2)]));
    assert!(!all_heads_mapped(&dag, &vec![cs(1), cs(3)]));
}

#[test]
fn tailer_advances_through_graph() {
    let graph = vec![commit(4, &[3]), commit(3, &[2]), commit(2, &[1]), commit(1, &[]), commit(5, &[1])];
    let mut tailer = Tailer::new(base());
    assert_eq!(
        tailer.advance_in_graph(&vec![cs(4)], &graph),
        Ok(AppendResult::Appended { first: 2, count: 2 })
    );
    let after = shape(tailer.dag());
    assert_eq!(after.1, vec![(0, 3, vec![])]);
    assert_eq!(tailer.advance_in_graph(&vec![cs(4)], &graph), Ok(AppendResult::AlreadyUpToDate));
    assert_eq!(tailer.advance_in_graph(&vec![cs(4)], &vec![]), Ok(AppendResult::AlreadyUpToDate));
    assert_eq!(shape(tailer.dag()), after);
    assert_eq!(
        tailer.advance_in_graph(&vec![cs(8)], &graph),
        Err(SegmentedChangelogError::HeadNotFound)
    );
    assert_eq!(
        tailer.advance_in_graph(&vec![cs(5)], &graph),
        Err(SegmentedChangelogError::Diverged)
    );
    assert_eq!(
        tailer.advance_in_graph(&vec![cs(6)], &vec![commit(6, &[7])]),
        Err(SegmentedChangelogError::GraphInconsistent)
    );
    assert_eq!(shape(tailer.dag()), after);
}
