use segmented_changelog::ChangesetId;
use segmented_changelog::CommitEntry;
use segmented_changelog::Dag;
use segmented_changelog::Location;
use segmented_changelog::Manager;
use segmented_changelog::Seeder;
use segmented_changelog::SegmentedChangelog;
use segmented_changelog::SegmentedChangelogError;
use segmented_changelog::Tailer;

fn cs(n: u8) -> ChangesetId {
    let mut bytes = [0u8; 32];
    bytes[4] = n;
    ChangesetId::from_bytes(bytes)
}

fn commit(id: u8, parents: &[u8]) -> CommitEntry {
    CommitEntry { id: cs(id), parents: parents.iter().map(|p| cs(*p)).collect() }
}

fn first() -> Dag {
    Seeder::build_in_order(&vec![commit(1, &[]), commit(2, &[1])]).unwrap()
}

#[test]
fn manager_has_no_group_before_first_publish() {
    let manager = Manager::new();
    assert!(manager.current().is_none());
}

#[test]
fn manager_hands_out_the_published_group() {
    let mut manager = Manager::new();
    manager.publish(first());
    let handle = manager.current().unwrap();
    assert_eq!(handle.head(), Some(1));
    assert_eq!(handle.location_to_changeset_id(Location::new(cs(2), 1)), Ok(cs(1)));
    let again = manager.current().unwrap();
    assert!(std::sync::Arc::ptr_eq(&handle, &again));
}

#[test]
fn handle_taken_before_publish_keeps_its_group() {
    let mut manager = Manager::new();
    manager.publish(first());
    let old = manager.current().unwrap();
    let before = old.location_to_many_changeset_ids(Location::new(cs(2), 0), 2);
    assert_eq!(before, Ok(vec![cs(2), cs(1)]));
    assert_eq!(
        old.location_to_changeset_id(Location::new(cs(3), 0)),
        Err(SegmentedChangelogError::HeadNotFound)
    );

    let mut tailer = Tailer::new(old.duplicate());
    tailer.advance_to(&vec![cs(3)], &vec![commit(3, &[2])]).unwrap();
    manager.publish(tailer.into_dag());

    assert_eq!(old.location_to_many_changeset_ids(Location::new(cs(2), 0), 2), before);
    assert_eq!(
        old.location_to_changeset_id(Location::new(cs(3), 0)),
        Err(SegmentedChangelogError::HeadNotFound)
    );
    assert_eq!(old.head(), Some(1));
    assert_eq!(old.clone_data().unwrap().head_id, 1);

    let new = manager.current().unwrap();
    assert_eq!(new.head(), Some(2));
    assert_eq!(new.location_to_changeset_id(Location::new(cs(3), 2)), Ok(cs(1)));
}

#[test]
fn manager_refuses_second_writer() {
    let mut manager = Manager::new();
    assert_eq!(manager.begin_build(), Ok(()));
    assert_eq!(manager.begin_build(), Err(SegmentedChangelogError::BuildInProgress));
    manager.publish(first());
    assert_eq!(manager.begin_build(), Err(SegmentedChangelogError::BuildInProgress));
    manager.finish_build();
    assert_eq!(manager.begin_build(), Ok(()));
    assert_eq!(manager.current().unwrap().head(), Some(1));
}
