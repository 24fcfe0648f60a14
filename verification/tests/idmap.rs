use segmented_changelog::ChangesetId;
use segmented_changelog::IdMap;
use segmented_changelog::SegmentedChangelogError;

fn cs(n: u8) -> ChangesetId {
    let mut bytes = [0u8; 32];
    bytes[0] = n;
    bytes[31] = 0xee;
    ChangesetId::from_bytes(bytes)
}

#[test]
fn empty_idmap_finds_nothing() {
    let map = IdMap::new();
    assert!(map.is_empty());
    assert_eq!(map.len(), 0);
    assert_eq!(map.find_vertex(cs(1)), None);
    assert_eq!(map.find_changeset_id(0), None);
    assert_eq!(map.enumerate_all(), vec![]);
}

#[test]
fn idmap_lookups_are_inverse_of_each_other() {
    let mut map = IdMap::new();
    for v in [5u64, 0, 9, 2, 7] {
        assert_eq!(map.insert(cs(v as u8 + 10), v), Ok(()));
    }
    for v in [0u64, 2, 5, 7, 9] {
        let id = map.find_changeset_id(v).unwrap();
        assert_eq!(id, cs(v as u8 + 10));
        assert_eq!(map.find_vertex(id), Some(v));
    }
    for v in [1u64, 3, 4, 6, 8, 10] {
        assert_eq!(map.find_changeset_id(v), None);
        assert_eq!(map.find_vertex(cs(v as u8 + 10)), None);
    }
}

#[test]
fn idmap_insert_of_same_pair_changes_nothing() {
    let mut map = IdMap::new();
    assert_eq!(map.insert(cs(1), 4), Ok(()));
    assert_eq!(map.insert(cs(1), 4), Ok(()));
    assert_eq!(map.len(), 1);
    assert_eq!(map.enumerate_all(), vec![(4, cs(1))]);
}

#[test]
fn idmap_insert_refuses_second_changeset_for_vertex() {
    let mut map = IdMap::new();
    assert_eq!(map.insert(cs(1), 4), Ok(()));
    assert_eq!(map.insert(cs(2), 4), Err(SegmentedChangelogError::Inconsistent));
    assert_eq!(map.find_changeset_id(4), Some(cs(1)));
    assert_eq!(map.find_vertex(cs(2)), None);
    assert_eq!(map.len(), 1);
}

#[test]
fn idmap_insert_refuses_second_vertex_for_changeset() {
    let mut map = IdMap::new();
    assert_eq!(map.insert(cs(1), 4), Ok(()));
    assert_eq!(map.insert(cs(1), 5), Err(SegmentedChangelogError::Inconsistent));
    assert_eq!(map.find_vertex(cs(1)), Some(4));
    assert_eq!(map.find_changeset_id(5), None);
}

#[test]
fn idmap_enumerates_in_ascending_vertex_order() {
    let mut map = IdMap::new();
    for v in [3u64, 1, 2, 0] {
        map.insert(cs(v as u8), v).unwrap();
    }
    assert_eq!(
        map.enumerate_all(),
        vec![(0, cs(0)), (1, cs(1)), (2, cs(2)), (3, cs(3))]
    );
}

#[test]
fn idmap_enumerates_pages() {
    let mut map = IdMap::new();
    for v in [10u64, 20, 30, 40, 50] {
        map.insert(cs(v as u8), v).unwrap();
    }
    assert_eq!(map.enumerate_from(0, 2), vec![(10, cs(10)), (20, cs(20))]);
    assert_eq!(map.enumerate_from(21, 2), vec![(30, cs(30)), (40, cs(40))]);
    assert_eq!(map.enumerate_from(41, 2), vec![(50, cs(50))]);
    assert_eq!(map.enumerate_from(51, 2), vec![]);
    assert_eq!(map.enumerate_from(0, 0), vec![]);
    assert_eq!(map.enumerate_from(30, 100), vec![(30, cs(30)), (40, cs(40)), (50, cs(50))]);
}

#[test]
fn idmap_duplicate_is_independent() {
    let mut map = IdMap::new();
    map.insert(cs(1), 1).unwrap();
    let copy = map.duplicate();
    map.insert(cs(2), 2).unwrap();
    assert_eq!(copy.enumerate_all(), vec![(1, cs(1))]);
    assert_eq!(map.enumerate_all(), vec![(1, cs(1)), (2, cs(2))]);
}

#[test]
fn changeset_id_hex_round_trip() {
    let id = cs(0xab);
    let text = id.to_hex();
    assert_eq!(
        text,
        "ab000000000000000000000000000000000000000000000000000000000000ee"
    );
    assert_eq!(ChangesetId::from_hex(&text), Some(id));
    assert_eq!(
        ChangesetId::from_hex("AB000000000000000000000000000000000000000000000000000000000000EE"),
        Some(id)
    );
    assert_eq!(ChangesetId::from_hex("ab"), None);
    assert_eq!(
        ChangesetId::from_hex("zz000000000000000000000000000000000000000000000000000000000000ee"),
        None
    );
}
