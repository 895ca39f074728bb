use movement_store::error::StoreError;
use movement_store::migration::{
    check_migration_order, first_pending, schema_migrations, Migration, CREATE_GEOLOCATION_TABLE,
    CREATE_MOVE_TABLE, CREATE_TRAVEL_TABLE,
};
use movement_store::store::MovementStore;

fn migration(version: i64) -> Migration {
    Migration { version, description: "step", sql: "SELECT 1;" }
}

fn list(versions: &[i64]) -> Vec<Migration> {
    versions.iter().map(|v| migration(*v)).collect()
}

#[test]
fn the_schema_has_three_migrations_in_order() {
    let migrations = schema_migrations();
    assert_eq!(migrations.len(), 3);
    assert_eq!(migrations[0].version, 1);
    assert_eq!(migrations[1].version, 2);
    assert_eq!(migrations[2].version, 3);
    assert_eq!(migrations[0].description, "create_travel_tables");
    assert_eq!(migrations[1].description, "create_move_tables");
    assert_eq!(migrations[2].description, "create_geolocation_tables");
    assert!(migrations[0].sql.contains("travel"));
    assert!(migrations[1].sql.contains("move"));
    assert!(migrations[2].sql.contains("geolocation"));
    for m in &migrations {
        assert!(m.sql.starts_with("CREATE TABLE IF NOT EXISTS "));
    }
    assert_eq!(migrations[0].sql, CREATE_TRAVEL_TABLE);
    assert_eq!(migrations[1].sql, CREATE_MOVE_TABLE);
    assert_eq!(migrations[2].sql, CREATE_GEOLOCATION_TABLE);
    assert_eq!(check_migration_order(&migrations), Ok(()));
}

#[test]
fn migrations_applied_twice_change_nothing() {
    let mut store = MovementStore::new();
    let migrations = schema_migrations();
    assert_eq!(store.run_migrations(&migrations), Ok(3));
    assert_eq!(store.schema_version(), 3);
    store.create_travel("Alps", "").unwrap();
    store.start_move("T1", 100).unwrap();
    store.record_geolocation(100, 1, 2).unwrap();
    assert_eq!(store.run_migrations(&migrations), Ok(0));
    assert_eq!(store.schema_version(), 3);
    assert_eq!(store.travel_count(), 1);
    assert_eq!(store.move_count(), 1);
    assert_eq!(store.geolocation_count(), 1);
    assert_eq!(store.get_travel("T1").unwrap().name, "Alps");
    assert_eq!(store.create_travel("Andes", "").unwrap().id, "T2");
}

#[test]
fn migrations_with_one_version_are_refused() {
    let mut store = MovementStore::new();
    assert_eq!(store.run_migrations(&list(&[1, 1, 1])), Err(StoreError::MigrationOrderError));
    assert_eq!(store.schema_version(), 0);
    assert_eq!(check_migration_order(&list(&[1, 1, 1])), Err(StoreError::MigrationOrderError));
}

#[test]
fn migrations_out_of_order_are_refused() {
    let mut store = MovementStore::new();
    assert_eq!(store.run_migrations(&list(&[2, 1])), Err(StoreError::MigrationOrderError));
    assert_eq!(store.run_migrations(&list(&[1, 3, 2])), Err(StoreError::MigrationOrderError));
    assert_eq!(store.run_migrations(&list(&[1, 2, 2])), Err(StoreError::MigrationOrderError));
    assert_eq!(store.schema_version(), 0);
    assert!(!store.is_ready());
    store.run_migrations(&list(&[1, 2, 3])).unwrap();
    assert_eq!(store.run_migrations(&list(&[4, 4])), Err(StoreError::MigrationOrderError));
    assert_eq!(store.schema_version(), 3);
}

#[test]
fn migrations_that_ran_are_passed_over() {
    let mut store = MovementStore::new();
    assert_eq!(store.run_migrations(&list(&[1, 2])), Ok(2));
    assert_eq!(store.schema_version(), 2);
    assert!(!store.is_ready());
    assert_eq!(store.run_migrations(&list(&[1, 2, 3])), Ok(1));
    assert_eq!(store.schema_version(), 3);
    assert!(store.is_ready());
    assert_eq!(store.run_migrations(&list(&[1, 2])), Ok(0));
    assert_eq!(store.schema_version(), 3);
    assert_eq!(store.run_migrations(&list(&[2, 5, 9])), Ok(2));
    assert_eq!(store.schema_version(), 9);
    assert!(store.is_ready());
}

#[test]
fn an_empty_list_of_migrations_runs_nothing() {
    let mut store = MovementStore::new();
    assert_eq!(store.run_migrations(&list(&[])), Ok(0));
    assert_eq!(store.schema_version(), 0);
    assert_eq!(check_migration_order(&list(&[])), Ok(()));
    assert_eq!(check_migration_order(&list(&[7])), Ok(()));
}

#[test]
fn versions_below_one_never_run() {
    let mut store = MovementStore::new();
    assert_eq!(store.run_migrations(&list(&[-3, 0])), Ok(0));
    assert_eq!(store.schema_version(), 0);
    assert_eq!(store.run_migrations(&list(&[-3, 0, 1])), Ok(1));
    assert_eq!(store.schema_version(), 1);
}

#[test]
fn a_single_migration_must_exceed_the_marker() {
    let mut store = MovementStore::new();
    assert_eq!(store.apply_migration(&migration(0)), Err(StoreError::MigrationOrderError));
    assert_eq!(store.apply_migration(&migration(-1)), Err(StoreError::MigrationOrderError));
    assert_eq!(store.apply_migration(&migration(1)), Ok(()));
    assert_eq!(store.schema_version(), 1);
    assert_eq!(store.apply_migration(&migration(1)), Err(StoreError::MigrationOrderError));
    assert_eq!(store.apply_migration(&migration(3)), Ok(()));
    assert_eq!(store.apply_migration(&migration(2)), Err(StoreError::MigrationOrderError));
    assert_eq!(store.schema_version(), 3);
    assert!(store.is_ready());
    assert_eq!(store.apply_migration(&migration(i64::MAX)), Ok(()));
    assert_eq!(store.apply_migration(&migration(i64::MAX)), Err(StoreError::MigrationOrderError));
}

#[test]
fn the_first_pending_migration_follows_the_marker() {
    let migrations = list(&[1, 2, 3, 5, 8]);
    assert_eq!(first_pending(&migrations, 0), Ok(0));
    assert_eq!(first_pending(&migrations, 1), Ok(1));
    assert_eq!(first_pending(&migrations, 3), Ok(3));
    assert_eq!(first_pending(&migrations, 4), Ok(3));
    assert_eq!(first_pending(&migrations, 7), Ok(4));
    assert_eq!(first_pending(&migrations, 8), Ok(5));
    assert_eq!(first_pending(&migrations, i64::MAX), Ok(5));
    assert_eq!(first_pending(&migrations, i64::MIN), Ok(0));
    assert_eq!(first_pending(&list(&[]), 0), Ok(0));
    assert_eq!(first_pending(&list(&[1, 1]), 0), Err(StoreError::MigrationOrderError));
    assert_eq!(first_pending(&list(&[3, 2]), 9), Err(StoreError::MigrationOrderError));
}
