//! Versioned schema migrations and the order in which they may run.

use vstd::prelude::*;
use crate::error::StoreError;
use crate::sequences::lemma_filter_is_range;
use crate::state::SCHEMA_VERSION;

verus! {

/// One step of the schema's history: a version, a label, and the forward
/// script that the storage engine runs once.
#[derive(Clone, Copy, Debug, PartialEq, Eq)]
pub struct Migration {
    pub version: i64,
    pub description: &'static str,
    pub sql: &'static str,
}

/// The script that creates the travel table.
pub const CREATE_TRAVEL_TABLE: &'static str =
    "CREATE TABLE IF NOT EXISTS travel (id TEXT PRIMARY KEY, name TEXT NOT NULL, description TEXT NOT NULL);";

/// The script that creates the move table. A move goes when its travel goes.
pub const CREATE_MOVE_TABLE: &'static str =
    "CREATE TABLE IF NOT EXISTS move (move_id TEXT PRIMARY KEY, travel_id TEXT NOT NULL REFERENCES travel (id) ON DELETE CASCADE, start_timestamp INTEGER NOT NULL, end_timestamp INTEGER);";

/// The script that creates the table of fixes.
pub const CREATE_GEOLOCATION_TABLE: &'static str =
    "CREATE TABLE IF NOT EXISTS geolocation (timestamp INTEGER PRIMARY KEY, latitude REAL NOT NULL, longitude REAL NOT NULL);";

/// The versions of a list of migrations, in the order of the list.
pub open spec fn versions_of(migrations: Seq<Migration>) -> Seq<i64> {
    migrations.map_values(|m: Migration| m.version)
}

/// Whether each version exceeds all versions before it.
pub open spec fn strictly_increasing(versions: Seq<i64>) -> bool {
    forall|i: int, j: int| 0 <= i < j < versions.len() ==> versions[i] < versions[j]
}

/// The test that picks the versions above a marker: those still to run.
pub open spec fn above(marker: i64) -> spec_fn(i64) -> bool {
    |v: i64| v > marker
}

/// The versions of a list that a store at `marker` has still to run.
pub open spec fn pending(versions: Seq<i64>, marker: i64) -> Seq<i64> {
    versions.filter(above(marker))
}

/// The marker after a list has run: the last version of the list, unless
/// the marker is there or beyond already.
pub open spec fn marker_after(versions: Seq<i64>, marker: i64) -> i64 {
    if versions.len() > 0 && versions.last() > marker {
        versions.last()
    } else {
        marker
    }
}

/// The migrations that bring an empty database to the current schema: one
/// table each for travels, moves and fixes.
pub fn schema_migrations() -> (migrations: Vec<Migration>)
    ensures
        versions_of(migrations@) == seq![1i64, 2i64, 3i64],
        strictly_increasing(versions_of(migrations@)),
        migrations@.last().version == SCHEMA_VERSION,
        migrations@[0].description@ == "create_travel_tables"@,
        migrations@[1].description@ == "create_move_tables"@,
        migrations@[2].description@ == "create_geolocation_tables"@,
        migrations@[0].sql@ == CREATE_TRAVEL_TABLE@,
        migrations@[1].sql@ == CREATE_MOVE_TABLE@,
        migrations@[2].sql@ == CREATE_GEOLOCATION_TABLE@,
{
    let mut migrations: Vec<Migration> = Vec::new();
    migrations.push(
        Migration {
            version: 1,
            description: "create_travel_tables",
            sql: CREATE_TRAVEL_TABLE,
        },
    );
    migrations.push(
        Migration {
            version: 2,
            description: "create_move_tables",
            sql: CREATE_MOVE_TABLE,
        },
    );
    migrations.push(
        Migration {
            version: 3,
            description: "create_geolocation_tables",
            sql: CREATE_GEOLOCATION_TABLE,
        },
    );
    assert(versions_of(migrations@) =~= seq![1i64, 2i64, 3i64]);
    migrations
}

/// Tests that each migration's version exceeds the versions before it.
pub fn check_migration_order(migrations: &Vec<Migration>) -> (checked: Result<(), StoreError>)
    ensures
        checked is Ok <==> strictly_increasing(versions_of(migrations@)),
        checked matches Err(e) ==> e == StoreError::MigrationOrderError,
{
    let ghost versions = versions_of(migrations@);
    let mut i: usize = 1;
    while i < migrations.len()
        invariant
            1 <= i,
            versions == versions_of(migrations@),
            forall|k: int|
                0 < k < i && k < versions.len() ==> versions[k - 1] < #[trigger] versions[k],
        decreases migrations.len() - i,
    {
        if migrations[i - 1].version >= migrations[i].version {
            assert(versions[i - 1] >= versions[i as int]);
            return Err(StoreError::MigrationOrderError);
        }
        i += 1;
    }
    proof {
        lemma_adjacent_increasing(versions);
    }
    Ok(())
}

/// A list in which each version exceeds the one just before it is strictly
/// increasing.
pub proof fn lemma_adjacent_increasing(versions: Seq<i64>)
    requires
        forall|k: int| 0 < k < versions.len() ==> versions[k - 1] < #[trigger] versions[k],
    ensures
        strictly_increasing(versions),
    decreases versions.len(),
{
    if versions.len() > 1 {
        let front = versions.drop_last();
        assert forall|k: int| 0 < k < front.len() implies front[k - 1] < #[trigger] front[k] by {
            assert(versions[k - 1] < versions[k]);
        }
        lemma_adjacent_increasing(front);
        let last = versions.len() - 1;
        assert(versions[last - 1] < versions[last]);
        assert forall|i: int, j: int| 0 <= i < j < versions.len() implies versions[i]
            < versions[j] by {
            if j < last {
                assert(front[i] < front[j]);
            } else if i < last - 1 {
                assert(front[i] < front[last - 1]);
            }
        }
    }
}

/// Where the migrations at the head of a list have run already: the index
/// of the first one that a store at `marker` has still to run. A list that
/// is not in strictly increasing order of version is refused.
pub fn first_pending(migrations: &Vec<Migration>, marker: i64) -> (first: Result<
    usize,
    StoreError,
>)
    ensures
        first is Ok <==> strictly_increasing(versions_of(migrations@)),
        first matches Ok(index) ==> index <= migrations@.len() && pending(
            versions_of(migrations@),
            marker,
        ) == versions_of(migrations@).skip(index as int) && (forall|k: int|
            0 <= k < index ==> migrations@[k].version <= marker) && (forall|k: int|
            index <= k < migrations@.len() ==> migrations@[k].version > marker),
        first matches Err(e) ==> e == StoreError::MigrationOrderError,
{
    match check_migration_order(migrations) {
        Err(e) => Err(e),
        Ok(_) => Ok(split_at_marker(migrations, marker)),
    }
}

/// The index of the first migration above `marker` in a list in strictly
/// increasing order.
pub(crate) fn split_at_marker(migrations: &Vec<Migration>, marker: i64) -> (first: usize)
    requires
        strictly_increasing(versions_of(migrations@)),
    ensures
        first <= migrations@.len(),
        pending(versions_of(migrations@), marker) == versions_of(migrations@).skip(first as int),
        forall|k: int| 0 <= k < first ==> migrations@[k].version <= marker,
        forall|k: int| first <= k < migrations@.len() ==> migrations@[k].version > marker,
{
    let ghost versions = versions_of(migrations@);
    let mut low: usize = 0;
    let mut high: usize = migrations.len();
    while low < high
        invariant
            low <= high <= migrations.len(),
            versions == versions_of(migrations@),
            strictly_increasing(versions),
            forall|k: int| 0 <= k < low ==> migrations@[k].version <= marker,
            forall|k: int| high <= k < migrations@.len() ==> migrations@[k].version > marker,
        decreases high - low,
    {
        let mid: usize = low + (high - low) / 2;
        if migrations[mid].version <= marker {
            assert forall|k: int| 0 <= k < mid + 1 implies migrations@[k].version <= marker by {
                if k < mid {
                    assert(versions[k] < versions[mid as int]);
                }
            }
            low = mid + 1;
        } else {
            assert forall|k: int| mid <= k < migrations@.len() implies migrations@[k].version
                > marker by {
                if mid < k {
                    assert(versions[mid as int] < versions[k]);
                }
            }
            high = mid;
        }
    }
    proof {
        assert forall|k: int| 0 <= k < versions.len() implies (above(marker)(#[trigger] versions[k])
            <==> low <= k < versions.len()) by {
            assert(versions[k] == migrations@[k].version);
        }
        lemma_filter_is_range(versions, above(marker), low as int, versions.len() as int);
    }
    low
}

/// A list that has run leaves nothing of itself to run, and running it
/// again leaves the marker where it is.
pub proof fn lemma_nothing_pending_after(versions: Seq<i64>, marker: i64)
    requires
        strictly_increasing(versions),
    ensures
        pending(versions, marker_after(versions, marker)).len() == 0,
        marker_after(versions, marker_after(versions, marker)) == marker_after(versions, marker),
        marker_after(versions, marker) >= marker,
{
    let after = marker_after(versions, marker);
    assert forall|k: int| 0 <= k < versions.len() implies (above(after)(#[trigger] versions[k])
        <==> versions.len() <= k < versions.len()) by {
        if k < versions.len() - 1 {
            assert(versions[k] < versions[versions.len() - 1]);
        }
    }
    lemma_filter_is_range(versions, above(after), versions.len() as int, versions.len() as int);
}

} // verus!
