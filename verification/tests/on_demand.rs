use segmented_changelog::ChangesetId;
use segmented_changelog::CommitEntry;
use segmented_changelog::Dag;
use segmented_changelog::GraphReply;
use segmented_changelog::Location;
use segmented_changelog::OnDemandWalk;
use segmented_changelog::Seeder;
use segmented_changelog::SegmentedChangelog;
use segmented_changelog::SegmentedChangelogError;
use segmented_changelog::WalkRequest;
use segmented_changelog::on_demand::assign_missing;
use segmented_changelog::on_demand::batch_contains;
use segmented_changelog::on_demand::lookup;
use segmented_changelog::on_demand::walk_graph;

fn cs(n: u8) -> ChangesetId {
    let mut bytes = [0u8; 32];
    bytes[2] = n;
    ChangesetId::from_bytes(bytes)
}

fn commit(id: u8, parents: &[u8]) -> CommitEntry {
    CommitEntry { id: cs(id), parents: parents.iter().map(|p| cs(*p)).collect() }
}

fn parents(list: &[u8]) -> GraphReply {
    GraphReply::Parents(list.iter().map(|p| cs(*p)).collect())
}

// Runs a walk against a commit graph given as a list of commits.
fn run(
    base: &Dag,
    heads: &[u8],
    graph: &[(u8, Vec<u8>)],
) -> Result<(OnDemandWalk, Vec<ChangesetId>), SegmentedChangelogError> {
    let mut walk = OnDemandWalk::start(heads.iter().map(|h| cs(*h)).collect());
    let mut asked = Vec::new();
    loop {
        match walk.next_request(base)? {
            WalkRequest::Done => return Ok((walk, asked)),
            WalkRequest::Fetch(id) => {
                asked.push(id);
                let reply = match graph.iter().find(|(c, _)| cs(*c) == id) {
                    Some((_, ps)) => parents(ps),
                    None => GraphReply::Unknown,
                };
                walk.supply(reply)?;
            }
        }
    }
}

#[test]
fn walk_collects_missing_ancestors_parents_first() {
    let base = Dag::new();
    let graph = vec![(1, vec![]), (2, vec![1]), (3, vec![2, 1])];
    let (walk, asked) = run(&base, &[3], &graph).unwrap();
    assert_eq!(asked, vec![cs(3), cs(2), cs(1)]);
    assert!(walk.is_done());
    assert_eq!(
        walk.into_batch(),
        vec![commit(1, &[]), commit(2, &[1]), commit(3, &[2, 1])]
    );
}

#[test]
fn walk_stops_at_mapped_commits() {
    let base = Seeder::build_in_order(&vec![commit(1, &[]), commit(2, &[1])]).unwrap();
    let graph = vec![(1, vec![]), (2, vec![1]), (3, vec![2]), (4, vec![3, 1])];
    let (walk, asked) = run(&base, &[4], &graph).unwrap();
    assert_eq!(asked, vec![cs(4), cs(3)]);
    assert_eq!(walk.into_batch(), vec![commit(3, &[2]), commit(4, &[3, 1])]);
}

#[test]
fn walk_with_known_heads_asks_nothing() {
    let base = Seeder::build_in_order(&vec![commit(1, &[]), commit(2, &[1])]).unwrap();
    let (walk, asked) = run(&base, &[2, 1], &[]).unwrap();
    assert_eq!(asked, vec![]);
    assert_eq!(walk.into_batch(), vec![]);
    let (walk, _) = run(&base, &[], &[]).unwrap();
    assert!(walk.is_done());
}

#[test]
fn walk_handles_several_heads_and_shared_ancestors() {
    let base = Dag::new();
    let graph = vec![(1, vec![]), (2, vec![1]), (3, vec![1]), (4, vec![2, 3])];
    let (walk, asked) = run(&base, &[2, 4, 2], &graph).unwrap();
    assert_eq!(asked, vec![cs(2), cs(1), cs(4), cs(3)]);
    assert_eq!(
        walk.into_batch(),
        vec![commit(1, &[]), commit(2, &[1]), commit(3, &[1]), commit(4, &[2, 3])]
    );
}

#[test]
fn walk_reports_unknown_head() {
    let base = Dag::new();
    let r = run(&base, &[9], &[]);
    assert_eq!(r.err(), Some(SegmentedChangelogError::HeadNotFound));
}

#[test]
fn walk_reports_unknown_parent() {
    let base = Dag::new();
    let r = run(&base, &[2], &[(2, vec![1])]);
    assert_eq!(r.err(), Some(SegmentedChangelogError::GraphInconsistent));
}

#[test]
fn walk_reports_cycle() {
    let base = Dag::new();
    let r = run(&base, &[1], &[(1, vec![2]), (2, vec![3]), (3, vec![1])]);
    assert_eq!(r.err(), Some(SegmentedChangelogError::GraphInconsistent));
    let r = run(&base, &[1], &[(1, vec![1])]);
    assert_eq!(r.err(), Some(SegmentedChangelogError::GraphInconsistent));
}

#[test]
fn walk_asks_again_until_it_is_told() {
    let base = Dag::new();
    let mut walk = OnDemandWalk::start(vec![cs(1)]);
    assert_eq!(walk.next_request(&base), Ok(WalkRequest::Fetch(cs(1))));
    assert_eq!(walk.next_request(&base), Ok(WalkRequest::Fetch(cs(1))));
    assert!(!walk.is_done());
    assert_eq!(walk.supply(GraphReply::Unknown), Err(SegmentedChangelogError::HeadNotFound));
    assert_eq!(walk.next_request(&base), Ok(WalkRequest::Fetch(cs(1))));
    assert_eq!(walk.supply(parents(&[])), Ok(()));
    // nothing is asked for now: this reply is dropped
    assert_eq!(walk.supply(parents(&[7])), Ok(()));
    assert_eq!(walk.supply(GraphReply::Unknown), Ok(()));
    assert_eq!(walk.next_request(&base), Ok(WalkRequest::Done));
    assert_eq!(walk.next_request(&base), Ok(WalkRequest::Done));
    assert_eq!(walk.into_batch(), vec![commit(1, &[])]);
}

#[test]
fn assign_missing_maps_every_head() {
    let base = Seeder::build_in_order(&vec![commit(1, &[]), commit(2, &[1])]).unwrap();
    let graph = vec![(3, vec![2]), (4, vec![3, 1]), (5, vec![1])];
    let (walk, _) = run(&base, &[4, 5], &graph).unwrap();
    let dag = assign_missing(&base, walk).unwrap();
    assert_eq!(dag.idmap().find_vertex(cs(3)), Some(2));
    assert_eq!(dag.idmap().find_vertex(cs(4)), Some(3));
    assert_eq!(dag.idmap().find_vertex(cs(5)), Some(4));
    assert_eq!(dag.iddag().parents(3), vec![2, 0]);
    assert_eq!(dag.location_to_changeset_id(Location::new(cs(4), 3)), Ok(cs(1)));
    assert_eq!(dag.location_to_changeset_id(Location::new(cs(5), 1)), Ok(cs(1)));
    assert_eq!(base.head(), Some(1));
}

#[test]
fn batch_contains_finds_commit_ids() {
    let batch = vec![commit(1, &[]), commit(2, &[1, 7])];
    assert!(batch_contains(&batch, cs(1)));
    assert!(batch_contains(&batch, cs(2)));
    assert!(!batch_contains(&batch, cs(7)));
    assert!(!batch_contains(&vec![], cs(1)));
}

#[test]
fn lookup_answers_from_first_commit_with_the_id() {
    let graph = vec![commit(1, &[]), commit(2, &[1]), commit(2, &[7]), commit(3, &[2, 1])];
    assert_eq!(lookup(&graph, cs(3)), parents(&[2, 1]));
    assert_eq!(lookup(&graph, cs(2)), parents(&[1]));
    assert_eq!(lookup(&graph, cs(1)), parents(&[]));
    assert_eq!(lookup(&graph, cs(7)), GraphReply::Unknown);
    assert_eq!(lookup(&vec![], cs(1)), GraphReply::Unknown);
}

#[test]
fn walk_graph_finds_missing_commits_in_any_listing_order() {
    let base = Seeder::build_in_order(&vec![commit(1, &[])]).unwrap();
    let graph = vec![
        commit(5, &[4, 3]),
        commit(3, &[1]),
        commit(9, &[5]),
        commit(4, &[2]),
        commit(2, &[1]),
        commit(1, &[]),
    ];
    assert_eq!(
        walk_graph(&base, &vec![cs(5)], &graph),
        Ok(vec![commit(2, &[1]), commit(4, &[2]), commit(3, &[1]), commit(5, &[4, 3])])
    );
    assert_eq!(walk_graph(&base, &vec![cs(1)], &graph), Ok(vec![]));
    assert_eq!(walk_graph(&base, &vec![], &graph), Ok(vec![]));
    assert_eq!(
        walk_graph(&base, &vec![cs(3), cs(2), cs(3)], &graph),
        Ok(vec![commit(3, &[1]), commit(2, &[1])])
    );
}

#[test]
fn walk_graph_reports_failures() {
    let base = Dag::new();
    let graph = vec![commit(2, &[1]), commit(3, &[4]), commit(4, &[5]), commit(5, &[3])];
    assert_eq!(
        walk_graph(&base, &vec![cs(8)], &graph),
        Err(SegmentedChangelogError::HeadNotFound)
    );
    assert_eq!(
        walk_graph(&base, &vec![cs(2)], &graph),
        Err(SegmentedChangelogError::GraphInconsistent)
    );
    assert_eq!(
        walk_graph(&base, &vec![cs(3)], &graph),
        Err(SegmentedChangelogError::GraphInconsistent)
    );
    assert_eq!(
        walk_graph(&base, &vec![cs(1)], &vec![]),
        Err(SegmentedChangelogError::HeadNotFound)
    );
}

#[test]
fn walk_graph_covers_long_chain() {
    let mut graph = Vec::new();
    for i in (1..=200u8).rev() {
        graph.push(commit(i, &[i - 1]));
    }
    graph.push(commit(0, &[]));
    let found = walk_graph(&Dag::new(), &vec![cs(200)], &graph).unwrap();
    assert_eq!(found.len(), 201);
    for (i, entry) in found.iter().enumerate() {
        assert_eq!(entry.id, cs(i as u8));
    }
}

#[test]
fn seeder_traverses_full_graph_from_leaves() {
    let graph = vec![
        commit(6, &[5]),
        commit(5, &[3, 4]),
        commit(4, &[1]),
        commit(3, &[2]),
        commit(2, &[1]),
        commit(1, &[]),
        commit(7, &[2]),
    ];
    let dag = Seeder::build_from_full_graph(&graph, &vec![cs(6), cs(7)]).unwrap();
    let order: Vec<ChangesetId> = dag.idmap().enumerate_all().into_iter().map(|(_, id)| id).collect();
    assert_eq!(order, vec![cs(1), cs(2), cs(3), cs(4), cs(5), cs(6), cs(7)]);
    assert_eq!(dag.iddag().parents(4), vec![2, 3]);
    assert_eq!(dag.iddag().parents(6), vec![1]);
    assert_eq!(dag.location_to_changeset_id(Location::new(cs(6), 4)), Ok(cs(1)));
    assert_eq!(dag.head(), Some(6));

    let only_six = Seeder::build_from_full_graph(&graph, &vec![cs(6)]).unwrap();
    assert_eq!(only_six.head(), Some(5));
    assert_eq!(only_six.idmap().find_vertex(cs(7)), None);

    let none = Seeder::build_from_full_graph(&graph, &vec![]).unwrap();
    assert_eq!(none.head(), None);
}

#[test]
fn seeder_traversal_reports_failures() {
    let graph = vec![commit(2, &[1]), commit(3, &[3])];
    assert_eq!(
        Seeder::build_from_full_graph(&graph, &vec![cs(9)]).err(),
        Some(SegmentedChangelogError::HeadNotFound)
    );
    assert_eq!(
        Seeder::build_from_full_graph(&graph, &vec![cs(2)]).err(),
        Some(SegmentedChangelogError::GraphInconsistent)
    );
    assert_eq!(
        Seeder::build_from_full_graph(&graph, &vec![cs(3)]).err(),
        Some(SegmentedChangelogError::GraphInconsistent)
    );
}
