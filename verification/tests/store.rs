use movement_store::error::StoreError;
use movement_store::model::{Geolocation, Move, Travel};
use movement_store::store::MovementStore;

fn timestamps(fixes: &[Geolocation]) -> Vec<i64> {
    fixes.iter().map(|g| g.timestamp).collect()
}

fn starts(moves: &[Move]) -> Vec<i64> {
    moves.iter().map(|m| m.start_timestamp).collect()
}

fn ids(moves: &[Move]) -> Vec<String> {
    moves.iter().map(|m| m.move_id.clone()).collect()
}

#[test]
fn a_new_store_has_no_tables() {
    let mut store = MovementStore::new();
    assert_eq!(store.schema_version(), 0);
    assert!(!store.is_ready());
    assert_eq!(store.create_travel("Alps", "hiking"), Err(StoreError::StorageUnavailable));
    assert_eq!(
        store.create_travel_with_id("T1", "Alps", "hiking"),
        Err(StoreError::StorageUnavailable)
    );
    assert_eq!(store.update_travel("T1", "Alps", "skiing"), Err(StoreError::StorageUnavailable));
    assert_eq!(store.start_move("T1", 100), Err(StoreError::StorageUnavailable));
    assert_eq!(store.start_move_with_id("M1", "T1", 100), Err(StoreError::StorageUnavailable));
    assert_eq!(store.end_move("M1", 100), Err(StoreError::StorageUnavailable));
    assert_eq!(store.record_geolocation(100, 0, 0), Err(StoreError::StorageUnavailable));
    assert_eq!(store.delete_travel("T1"), Err(StoreError::StorageUnavailable));
    assert_eq!(store.travel_count(), 0);
    assert_eq!(store.move_count(), 0);
    assert_eq!(store.geolocation_count(), 0);
}

#[test]
fn an_opened_store_is_ready_and_empty() {
    let store = MovementStore::open();
    assert_eq!(store.schema_version(), 3);
    assert!(store.is_ready());
    assert_eq!(store.travel_count(), 0);
    assert_eq!(store.move_count(), 0);
    assert_eq!(store.geolocation_count(), 0);
}

#[test]
fn a_created_travel_has_no_moves() {
    let mut store = MovementStore::open();
    let travel = store.create_travel("Alps", "hiking in July").unwrap();
    assert_eq!(travel.name, "Alps");
    assert_eq!(travel.description, "hiking in July");
    assert!(store.list_moves_for_travel(&travel.id).is_empty());
    assert_eq!(store.travel_count(), 1);
    assert_eq!(store.get_travel(&travel.id), Some(travel));
}

#[test]
fn created_travels_get_running_identifiers() {
    let mut store = MovementStore::open();
    assert_eq!(store.create_travel("a", "").unwrap().id, "T1");
    assert_eq!(store.create_travel("b", "").unwrap().id, "T2");
    assert_eq!(store.create_travel("a", "").unwrap().id, "T3");
    assert_eq!(store.travel_count(), 3);
}

#[test]
fn a_travel_identifier_is_stored_once() {
    let mut store = MovementStore::open();
    let first = store.create_travel_with_id("trip", "Alps", "hiking").unwrap();
    assert_eq!(
        first,
        Travel {
            id: "trip".to_string(),
            name: "Alps".to_string(),
            description: "hiking".to_string()
        }
    );
    assert_eq!(
        store.create_travel_with_id("trip", "Andes", "climbing"),
        Err(StoreError::DuplicateIdentifier)
    );
    assert_eq!(store.travel_count(), 1);
    assert_eq!(store.get_travel("trip"), Some(first));
}

#[test]
fn a_collision_spends_the_running_number() {
    let mut store = MovementStore::open();
    store.create_travel_with_id("T1", "taken", "").unwrap();
    assert_eq!(store.create_travel("Alps", ""), Err(StoreError::DuplicateIdentifier));
    assert_eq!(store.travel_count(), 1);
    assert_eq!(store.create_travel("Alps", "").unwrap().id, "T2");
}

#[test]
fn an_unknown_travel_is_not_found() {
    let mut store = MovementStore::open();
    store.create_travel("Alps", "").unwrap();
    assert_eq!(store.get_travel("T2"), None);
    assert_eq!(store.get_travel(""), None);
    assert!(store.list_moves_for_travel("T2").is_empty());
}

#[test]
fn a_travel_can_be_renamed() {
    let mut store = MovementStore::open();
    store.create_travel("Alps", "hiking").unwrap();
    store.create_travel("Andes", "climbing").unwrap();
    store.start_move("T1", 10).unwrap();
    let updated = store.update_travel("T1", "Dolomites", "via ferrata").unwrap();
    assert_eq!(updated.id, "T1");
    assert_eq!(updated.name, "Dolomites");
    assert_eq!(updated.description, "via ferrata");
    assert_eq!(store.get_travel("T1"), Some(updated));
    assert_eq!(store.get_travel("T2").unwrap().name, "Andes");
    assert_eq!(store.list_moves_for_travel("T1").len(), 1);
    assert_eq!(store.update_travel("T9", "x", "y"), Err(StoreError::UnknownTravel));
    assert_eq!(store.travel_count(), 2);
}

#[test]
fn a_move_needs_its_travel() {
    let mut store = MovementStore::open();
    assert_eq!(store.start_move("T1", 100), Err(StoreError::UnknownTravel));
    assert_eq!(store.start_move_with_id("M1", "T1", 100), Err(StoreError::UnknownTravel));
    assert_eq!(store.move_count(), 0);
    store.create_travel("Alps", "").unwrap();
    assert_eq!(store.start_move("T1", 100).unwrap().move_id, "M1");
}

#[test]
fn a_started_move_is_listed_without_an_end() {
    let mut store = MovementStore::open();
    let travel = store.create_travel("Alps", "").unwrap();
    let started = store.start_move(&travel.id, 100).unwrap();
    assert_eq!(
        started,
        Move {
            move_id: "M1".to_string(),
            travel_id: "T1".to_string(),
            start_timestamp: 100,
            end_timestamp: None
        }
    );
    let listed = store.list_moves_for_travel(&travel.id);
    assert_eq!(listed, vec![started.clone()]);
    assert_eq!(listed[0].end_timestamp, None);
    assert_eq!(store.get_move("M1"), Some(started));
    assert_eq!(store.get_move("M2"), None);
}

#[test]
fn a_move_identifier_is_stored_once() {
    let mut store = MovementStore::open();
    store.create_travel("Alps", "").unwrap();
    store.create_travel("Andes", "").unwrap();
    store.start_move_with_id("walk", "T1", 100).unwrap();
    assert_eq!(
        store.start_move_with_id("walk", "T2", 200),
        Err(StoreError::DuplicateIdentifier)
    );
    assert_eq!(store.move_count(), 1);
    store.start_move_with_id("M1", "T1", 300).unwrap();
    assert_eq!(store.start_move("T1", 400), Err(StoreError::DuplicateIdentifier));
    assert_eq!(store.start_move("T1", 400).unwrap().move_id, "M2");
    assert_eq!(store.start_move("T9", 400), Err(StoreError::UnknownTravel));
    assert_eq!(store.start_move("T1", 500).unwrap().move_id, "M3");
}

#[test]
fn moves_are_listed_by_start() {
    let mut store = MovementStore::open();
    store.create_travel("Alps", "").unwrap();
    store.create_travel("Andes", "").unwrap();
    store.start_move("T1", 300).unwrap();
    store.start_move("T2", 150).unwrap();
    store.start_move("T1", 100).unwrap();
    store.start_move("T1", 200).unwrap();
    store.start_move("T1", 100).unwrap();
    store.start_move("T1", -5).unwrap();
    let first = store.list_moves_for_travel("T1");
    assert_eq!(starts(&first), vec![-5, 100, 100, 200, 300]);
    assert_eq!(ids(&first), vec!["M6", "M3", "M5", "M4", "M1"]);
    let second = store.list_moves_for_travel("T2");
    assert_eq!(ids(&second), vec!["M2"]);
    assert_eq!(store.move_count(), 6);
}

#[test]
fn a_move_ends_once_and_not_before_its_start() {
    let mut store = MovementStore::open();
    store.create_travel("Alps", "").unwrap();
    store.start_move("T1", 100).unwrap();
    assert_eq!(store.end_move("M1", 99), Err(StoreError::InvalidInterval));
    assert_eq!(store.get_move("M1").unwrap().end_timestamp, None);
    assert_eq!(store.end_move("M2", 150), Err(StoreError::UnknownMove));
    assert_eq!(store.end_move("M1", 150), Ok(()));
    assert_eq!(store.get_move("M1").unwrap().end_timestamp, Some(150));
    assert_eq!(store.end_move("M1", 150), Err(StoreError::AlreadyEnded));
    assert_eq!(store.end_move("M1", 200), Err(StoreError::AlreadyEnded));
    assert_eq!(store.end_move("M1", 50), Err(StoreError::InvalidInterval));
    assert_eq!(store.get_move("M1").unwrap().end_timestamp, Some(150));
    assert_eq!(store.list_moves_for_travel("T1")[0].end_timestamp, Some(150));
}

#[test]
fn a_move_may_end_when_it_starts() {
    let mut store = MovementStore::open();
    store.create_travel("Alps", "").unwrap();
    store.start_move("T1", 100).unwrap();
    store.start_move("T1", 100).unwrap();
    assert_eq!(store.end_move("M2", 100), Ok(()));
    assert_eq!(store.get_move("M1").unwrap().end_timestamp, None);
    assert_eq!(store.get_move("M2").unwrap().end_timestamp, Some(100));
    assert_eq!(ids(&store.list_moves_for_travel("T1")), vec!["M1", "M2"]);
}

#[test]
fn a_fix_must_lie_on_the_globe() {
    let mut store = MovementStore::open();
    assert_eq!(store.record_geolocation(1, 910_000_000, 0), Err(StoreError::OutOfRange));
    assert_eq!(store.record_geolocation(1, 0, 1_810_000_000), Err(StoreError::OutOfRange));
    assert_eq!(store.record_geolocation(1, 900_000_001, 0), Err(StoreError::OutOfRange));
    assert_eq!(store.record_geolocation(1, -900_000_001, 0), Err(StoreError::OutOfRange));
    assert_eq!(store.record_geolocation(1, 0, 1_800_000_001), Err(StoreError::OutOfRange));
    assert_eq!(store.record_geolocation(1, 0, -1_800_000_001), Err(StoreError::OutOfRange));
    assert_eq!(store.record_geolocation(1, i32::MIN, i32::MAX), Err(StoreError::OutOfRange));
    assert_eq!(store.geolocation_count(), 0);
    assert!(store.record_geolocation(1, 900_000_000, 1_800_000_000).is_ok());
    assert!(store.record_geolocation(2, -900_000_000, -1_800_000_000).is_ok());
    assert_eq!(store.geolocation_count(), 2);
}

#[test]
fn a_fix_off_the_globe_is_refused_before_the_tables_are_asked() {
    let mut store = MovementStore::new();
    assert_eq!(store.record_geolocation(1, 910_000_000, 0), Err(StoreError::OutOfRange));
    let mut opened = MovementStore::open();
    opened.record_geolocation(1, 0, 0).unwrap();
    assert_eq!(opened.record_geolocation(1, 0, 1_810_000_000), Err(StoreError::OutOfRange));
}

#[test]
fn an_instant_holds_one_fix() {
    let mut store = MovementStore::open();
    let fix = store.record_geolocation(100, 485_000_000, 23_000_000).unwrap();
    assert_eq!(
        store.record_geolocation(100, 485_000_000, 23_000_000),
        Err(StoreError::DuplicateTimestamp)
    );
    assert_eq!(store.record_geolocation(100, 1, 2), Err(StoreError::DuplicateTimestamp));
    assert_eq!(store.geolocation_count(), 1);
    assert_eq!(store.get_geolocation(100), Some(fix));
}

#[test]
fn a_recorded_fix_is_found_again() {
    let mut store = MovementStore::open();
    for t in [50i64, 10, 30, 20, 40, -7, i64::MAX, i64::MIN] {
        let lat = (t % 1000) as i32;
        let recorded = store.record_geolocation(t, lat, -lat).unwrap();
        assert_eq!(recorded, Geolocation { timestamp: t, latitude_e7: lat, longitude_e7: -lat });
        assert_eq!(store.get_geolocation(t), Some(recorded));
    }
    assert_eq!(
        store.get_geolocation(30),
        Some(Geolocation { timestamp: 30, latitude_e7: 30, longitude_e7: -30 })
    );
    assert_eq!(store.get_geolocation(31), None);
    assert_eq!(store.get_geolocation(0), None);
    assert_eq!(store.geolocation_count(), 8);
}

#[test]
fn the_fixes_of_a_closed_move_are_listed_in_order() {
    let mut store = MovementStore::open();
    let travel = store.create_travel("T1", "").unwrap();
    let m = store.start_move(&travel.id, 100).unwrap();
    let a = store.record_geolocation(100, 10, 20).unwrap();
    let b = store.record_geolocation(105, 11, 21).unwrap();
    let c = store.record_geolocation(110, 12, 22).unwrap();
    store.end_move(&m.move_id, 110).unwrap();
    assert_eq!(store.list_geolocations_for_move(&m.move_id), Ok(vec![a, b, c]));
}

#[test]
fn fixes_outside_the_span_are_left_out() {
    let mut store = MovementStore::open();
    store.create_travel("Alps", "").unwrap();
    store.start_move("T1", 100).unwrap();
    for t in [120i64, 99, 110, 100, 111, 105, 50] {
        store.record_geolocation(t, 0, 0).unwrap();
    }
    let open = store.list_geolocations_for_move("M1").unwrap();
    assert_eq!(timestamps(&open), vec![100, 105, 110, 111, 120]);
    store.end_move("M1", 110).unwrap();
    let closed = store.list_geolocations_for_move("M1").unwrap();
    assert_eq!(timestamps(&closed), vec![100, 105, 110]);
    store.record_geolocation(107, 0, 0).unwrap();
    store.record_geolocation(112, 0, 0).unwrap();
    let later = store.list_geolocations_for_move("M1").unwrap();
    assert_eq!(timestamps(&later), vec![100, 105, 107, 110]);
}

#[test]
fn the_fixes_of_an_unknown_move_are_not_listed() {
    let mut store = MovementStore::open();
    store.record_geolocation(100, 0, 0).unwrap();
    assert_eq!(store.list_geolocations_for_move("M1"), Err(StoreError::UnknownMove));
}

#[test]
fn a_move_without_fixes_lists_none() {
    let mut store = MovementStore::open();
    store.create_travel("Alps", "").unwrap();
    store.start_move("T1", 100).unwrap();
    assert_eq!(store.list_geolocations_for_move("M1"), Ok(vec![]));
    store.record_geolocation(99, 0, 0).unwrap();
    assert_eq!(store.list_geolocations_for_move("M1"), Ok(vec![]));
    store.end_move("M1", 100).unwrap();
    store.record_geolocation(101, 0, 0).unwrap();
    assert_eq!(store.list_geolocations_for_move("M1"), Ok(vec![]));
}

#[test]
fn a_span_may_reach_the_last_instant() {
    let mut store = MovementStore::open();
    store.create_travel("Alps", "").unwrap();
    store.start_move("T1", i64::MAX - 1).unwrap();
    store.record_geolocation(i64::MAX, 1, 1).unwrap();
    store.record_geolocation(i64::MAX - 1, 2, 2).unwrap();
    store.record_geolocation(i64::MAX - 2, 3, 3).unwrap();
    store.end_move("M1", i64::MAX).unwrap();
    let listed = store.list_geolocations_for_move("M1").unwrap();
    assert_eq!(timestamps(&listed), vec![i64::MAX - 1, i64::MAX]);
}

#[test]
fn deleting_a_travel_takes_its_moves_and_leaves_the_fixes() {
    let mut store = MovementStore::open();
    store.create_travel("Alps", "").unwrap();
    store.create_travel("Andes", "").unwrap();
    store.start_move("T1", 100).unwrap();
    store.start_move("T2", 150).unwrap();
    store.start_move("T1", 200).unwrap();
    store.record_geolocation(100, 0, 0).unwrap();
    store.record_geolocation(160, 0, 0).unwrap();
    assert_eq!(store.delete_travel("T1"), Ok(()));
    assert_eq!(store.get_travel("T1"), None);
    assert!(store.list_moves_for_travel("T1").is_empty());
    assert_eq!(store.get_move("M1"), None);
    assert_eq!(store.get_move("M3"), None);
    assert_eq!(store.list_geolocations_for_move("M1"), Err(StoreError::UnknownMove));
    assert_eq!(store.travel_count(), 1);
    assert_eq!(store.move_count(), 1);
    assert_eq!(store.geolocation_count(), 2);
    assert_eq!(store.get_travel("T2").unwrap().name, "Andes");
    assert_eq!(ids(&store.list_moves_for_travel("T2")), vec!["M2"]);
    assert_eq!(timestamps(&store.list_geolocations_for_move("M2").unwrap()), vec![160]);
    assert_eq!(store.delete_travel("T1"), Err(StoreError::UnknownTravel));
    assert_eq!(store.start_move("T1", 300), Err(StoreError::UnknownTravel));
    assert_eq!(store.travel_count(), 1);
}

#[test]
fn a_deleted_identifier_is_not_handed_out_again() {
    let mut store = MovementStore::open();
    store.create_travel("Alps", "").unwrap();
    store.delete_travel("T1").unwrap();
    assert_eq!(store.create_travel("Andes", "").unwrap().id, "T2");
    assert_eq!(store.get_travel("T1"), None);
}

#[test]
fn only_missing_tables_are_fatal() {
    assert!(StoreError::StorageUnavailable.is_fatal());
    for e in [
        StoreError::DuplicateIdentifier,
        StoreError::DuplicateTimestamp,
        StoreError::UnknownTravel,
        StoreError::UnknownMove,
        StoreError::InvalidInterval,
        StoreError::AlreadyEnded,
        StoreError::OutOfRange,
        StoreError::MigrationOrderError,
    ] {
        assert!(!e.is_fatal());
    }
}
