//! The executable store.

use vstd::prelude::*;
use crate::error::StoreError;
use crate::identifier::{
    move_identifier, next_number, render_move_identifier, render_travel_identifier,
    travel_identifier,
};
use crate::migration::{
    Migration, check_migration_order, pending, schema_migrations, split_at_marker,
    strictly_increasing, versions_of,
};
use crate::model::{Geolocation, Move, Timestamp, Travel, check_coordinates};
use crate::sequences::{lemma_filter_is_range, lemma_filter_next};
use crate::snapshot::Snapshot;
use crate::state::{
    SCHEMA_VERSION, StoreState, lemma_fix_unique, lemma_move_unique, lemma_same_rows_answers,
    lemma_same_rows_wf, lemma_travel_unique, lemma_with_fix_wf, lemma_with_move_ended_wf,
    lemma_with_move_wf, lemma_with_travel_updated_wf, lemma_with_travel_wf,
    lemma_without_travel_wf, move_of, move_outside, starts_after, starts_by, taken_after,
    taken_before, taken_within, travel_other_than,
};

verus! {

/// The movement history of one user on one device: three tables, the
/// version marker of their schema, and the running numbers from which
/// identifiers are made.
///
/// A store is valid at every step. An operation that rewrites a table takes
/// the table out first, leaving an empty one in its place, and puts it back
/// when it is done: the moves go out before the travels they belong to, and
/// come back after them.
pub struct MovementStore {
    schema_version: i64,
    next_travel_number: u64,
    next_move_number: u64,
    travels: Vec<Travel>,
    moves: Vec<Move>,
    fixes: Vec<Geolocation>,
}

impl View for MovementStore {
    type V = StoreState;

    closed spec fn view(&self) -> StoreState {
        StoreState {
            schema_version: self.schema_version,
            next_travel_number: self.next_travel_number,
            next_move_number: self.next_move_number,
            travels: self.travels@,
            moves: self.moves@,
            fixes: self.fixes@,
        }
    }
}

impl MovementStore {
    #[verifier::type_invariant]
    spec fn valid(self) -> bool {
        self@.wf()
    }

    /// A store on which no migration has run.
    pub fn new() -> (store: MovementStore)
        ensures
            store@ == StoreState::empty(),
            store@.wf(),
    {
        MovementStore {
            schema_version: 0,
            next_travel_number: 1,
            next_move_number: 1,
            travels: Vec::new(),
            moves: Vec::new(),
            fixes: Vec::new(),
        }
    }

    /// An empty store whose schema is up to date.
    pub fn open() -> (store: MovementStore)
        ensures
            store@ == StoreState::empty().with_schema_version(SCHEMA_VERSION),
            store@.wf(),
            store@.ready(),
    {
        let mut store = MovementStore::new();
        let migrations = schema_migrations();
        let _ = store.run_migrations(&migrations);
        store
    }

    /// A store with the rows of a snapshot. Rows that cannot be a store's
    /// content are refused: the storage they came from is damaged.
    pub fn restore(snapshot: Snapshot) -> (restored: Result<MovementStore, StoreError>)
        ensures
            restored is Ok <==> snapshot@.wf(),
            restored matches Ok(store) ==> store@ == snapshot@ && store@.wf(),
            restored matches Err(e) ==> e == StoreError::StorageUnavailable,
    {
        if !snapshot.is_valid() {
            return Err(StoreError::StorageUnavailable);
        }
        Ok(
            MovementStore {
                schema_version: snapshot.schema_version,
                next_travel_number: snapshot.next_travel_number,
                next_move_number: snapshot.next_move_number,
                travels: snapshot.travels,
                moves: snapshot.moves,
                fixes: snapshot.fixes,
            },
        )
    }

    /// The rows of the store, to be written to durable storage.
    pub fn snapshot(&self) -> (copy: Snapshot)
        ensures
            self@.wf(),
            copy@ == self@,
    {
        proof {
            use_type_invariant(self);
        }
        let travels = self.travels.clone();
        let moves = self.moves.clone();
        let fixes = self.fixes.clone();
        assert(travels@ =~= self.travels@);
        assert(moves@ =~= self.moves@);
        assert(fixes@ =~= self.fixes@);
        Snapshot {
            schema_version: self.schema_version,
            next_travel_number: self.next_travel_number,
            next_move_number: self.next_move_number,
            travels,
            moves,
            fixes,
        }
    }

    /// The version of the last migration that ran, 0 where none did.
    pub fn schema_version(&self) -> (version: i64)
        ensures
            self@.wf(),
            version == self@.schema_version,
    {
        proof {
            use_type_invariant(self);
        }
        self.schema_version
    }

    /// Whether the tables exist.
    pub fn is_ready(&self) -> (ready: bool)
        ensures
            self@.wf(),
            ready == self@.ready(),
    {
        proof {
            use_type_invariant(self);
        }
        self.schema_version >= SCHEMA_VERSION
    }

    /// Runs one migration. Its version must exceed the version marker.
    pub fn apply_migration(&mut self, migration: &Migration) -> (applied: Result<(), StoreError>)
        ensures
            final(self)@.wf(),
            applied.err() == old(self)@.apply_migration_error(migration.version),
            applied is Ok ==> final(self)@ == old(self)@.with_schema_version(migration.version),
            applied is Err ==> final(self)@ == old(self)@,
    {
        proof {
            use_type_invariant(&*self);
        }
        if migration.version <= self.schema_version {
            return Err(StoreError::MigrationOrderError);
        }
        proof {
            lemma_same_rows_wf(self@, self@.with_schema_version(migration.version));
        }
        self.schema_version = migration.version;
        Ok(())
    }

    /// Runs a list of migrations and says how many of them ran. The list
    /// must be in strictly increasing order of version. The migrations whose
    /// version the marker has reached are passed over.
    pub fn run_migrations(&mut self, migrations: &Vec<Migration>) -> (ran: Result<
        usize,
        StoreError,
    >)
        ensures
            final(self)@.wf(),
            ran is Ok <==> strictly_increasing(versions_of(migrations@)),
            ran matches Ok(count) ==> final(self)@ == old(self)@.migrated(versions_of(migrations@))
                && count == pending(versions_of(migrations@), old(self)@.schema_version).len(),
            ran matches Err(e) ==> e == StoreError::MigrationOrderError && final(self)@ == old(
                self,
            )@,
    {
        proof {
            use_type_invariant(&*self);
        }
        match check_migration_order(migrations) {
            Err(e) => {
                return Err(e);
            },
            Ok(_) => {},
        }
        let first: usize = split_at_marker(migrations, self.schema_version);
        let count: usize = migrations.len() - first;
        if first < migrations.len() {
            let last: usize = migrations.len() - 1;
            proof {
                assert(versions_of(migrations@).last() == migrations@[last as int].version);
                lemma_same_rows_wf(
                    self@,
                    self@.with_schema_version(migrations@[last as int].version),
                );
            }
            self.schema_version = migrations[last].version;
        } else {
            proof {
                if migrations@.len() > 0 {
                    assert(versions_of(migrations@).last() == migrations@[migrations@.len()
                        - 1].version);
                }
                assert(self@ == old(self)@.migrated(versions_of(migrations@)));
            }
        }
        Ok(count)
    }

    /// How many travels are stored.
    pub fn travel_count(&self) -> (count: usize)
        ensures
            self@.wf(),
            count == self@.travels.len(),
    {
        proof {
            use_type_invariant(self);
        }
        self.travels.len()
    }

    /// How many moves are stored.
    pub fn move_count(&self) -> (count: usize)
        ensures
            self@.wf(),
            count == self@.moves.len(),
    {
        proof {
            use_type_invariant(self);
        }
        self.moves.len()
    }

    /// How many fixes are stored.
    pub fn geolocation_count(&self) -> (count: usize)
        ensures
            self@.wf(),
            count == self@.fixes.len(),
    {
        proof {
            use_type_invariant(self);
        }
        self.fixes.len()
    }

    fn travel_position(&self, id: &String) -> (found: Option<usize>)
        ensures
            found is None <==> !self@.has_travel(id@),
            found matches Some(i) ==> i < self@.travels.len() && self@.travels[i as int].id@ == id@,
    {
        let mut i: usize = 0;
        while i < self.travels.len()
            invariant
                i <= self.travels.len(),
                forall|k: int| 0 <= k < i ==> (#[trigger] self.travels@[k]).id@ != id@,
            decreases self.travels.len() - i,
        {
            if self.travels[i].id == *id {
                assert(self@.travels[i as int].id@ == id@);
                return Some(i);
            }
            i += 1;
        }
        None
    }

    fn move_position(&self, id: &String) -> (found: Option<usize>)
        ensures
            found is None <==> !self@.has_move(id@),
            found matches Some(i) ==> i < self@.moves.len() && self@.moves[i as int].move_id@
                == id@,
    {
        let mut i: usize = 0;
        while i < self.moves.len()
            invariant
                i <= self.moves.len(),
                forall|k: int| 0 <= k < i ==> (#[trigger] self.moves@[k]).move_id@ != id@,
            decreases self.moves.len() - i,
        {
            if self.moves[i].move_id == *id {
                assert(self@.moves[i as int].move_id@ == id@);
                return Some(i);
            }
            i += 1;
        }
        None
    }

    /// The place in the move table behind the moves that start at `start`
    /// or before.
    fn move_slot(&self, start: Timestamp) -> (slot: usize)
        requires
            self@.wf(),
        ensures
            slot <= self@.moves.len(),
            forall|k: int| 0 <= k < slot ==> (#[trigger] self@.moves[k]).start_timestamp <= start,
            forall|k: int|
                slot <= k < self@.moves.len() ==> (#[trigger] self@.moves[k]).start_timestamp
                    > start,
    {
        let mut low: usize = 0;
        let mut high: usize = self.moves.len();
        while low < high
            invariant
                low <= high <= self.moves.len(),
                self@.wf(),
                forall|k: int|
                    0 <= k < low ==> (#[trigger] self@.moves[k]).start_timestamp <= start,
                forall|k: int|
                    high <= k < self@.moves.len() ==> (#[trigger] self@.moves[k]).start_timestamp
                        > start,
            decreases high - low,
        {
            let mid: usize = low + (high - low) / 2;
            if self.moves[mid].start_timestamp <= start {
                assert forall|k: int| 0 <= k < mid + 1 implies (
                #[trigger] self@.moves[k]).start_timestamp <= start by {
                    if k < mid {
                        assert(self@.moves[k].start_timestamp
                            <= self@.moves[mid as int].start_timestamp);
                    }
                }
                low = mid + 1;
            } else {
                assert forall|k: int| mid <= k < self@.moves.len() implies (
                #[trigger] self@.moves[k]).start_timestamp > start by {
                    if mid < k {
                        assert(self@.moves[mid as int].start_timestamp
                            <= self@.moves[k].start_timestamp);
                    }
                }
                high = mid;
            }
        }
        low
    }

    /// The place in the fix table of the first fix taken at `t` or later.
    fn fix_position(&self, t: Timestamp) -> (position: usize)
        requires
            self@.wf(),
        ensures
            position <= self@.fixes.len(),
            forall|k: int| 0 <= k < position ==> (#[trigger] self@.fixes[k]).timestamp < t,
            forall|k: int|
                position <= k < self@.fixes.len() ==> (#[trigger] self@.fixes[k]).timestamp >= t,
    {
        let mut low: usize = 0;
        let mut high: usize = self.fixes.len();
        while low < high
            invariant
                low <= high <= self.fixes.len(),
                self@.wf(),
                forall|k: int| 0 <= k < low ==> (#[trigger] self@.fixes[k]).timestamp < t,
                forall|k: int|
                    high <= k < self@.fixes.len() ==> (#[trigger] self@.fixes[k]).timestamp >= t,
            decreases high - low,
        {
            let mid: usize = low + (high - low) / 2;
            if self.fixes[mid].timestamp < t {
                assert forall|k: int| 0 <= k < mid + 1 implies (#[trigger] self@.fixes[k]).timestamp
                    < t by {
                    if k < mid {
                        assert(self@.fixes[k].timestamp < self@.fixes[mid as int].timestamp);
                    }
                }
                low = mid + 1;
            } else {
                assert forall|k: int| mid <= k < self@.fixes.len() implies (
                #[trigger] self@.fixes[k]).timestamp >= t by {
                    if mid < k {
                        assert(self@.fixes[mid as int].timestamp < self@.fixes[k].timestamp);
                    }
                }
                high = mid;
            }
        }
        low
    }

    /// Stores a new travel under an identifier of the store's own making.
    /// The travel has no moves yet. The identifier is `T` and the next
    /// running number; where a travel has it already, the travel is refused
    /// and the number is spent all the same.
    pub fn create_travel(&mut self, name: &str, description: &str) -> (created: Result<
        Travel,
        StoreError,
    >)
        ensures
            final(self)@.wf(),
            created.err() == old(self)@.create_travel_error(
                travel_identifier(old(self)@.next_travel_number),
            ),
            created matches Ok(travel) ==> travel.id@ == travel_identifier(
                old(self)@.next_travel_number,
            ) && travel.name@ == name@ && travel.description@ == description@ && final(self)@
                == old(self)@.with_travel_number_taken().with_travel(travel),
            created matches Err(e) ==> final(self)@ == if e == StoreError::DuplicateIdentifier {
                old(self)@.with_travel_number_taken()
            } else {
                old(self)@
            },
    {
        proof {
            use_type_invariant(&*self);
        }
        if self.schema_version < SCHEMA_VERSION {
            return Err(StoreError::StorageUnavailable);
        }
        let id = render_travel_identifier(self.next_travel_number);
        proof {
            lemma_same_rows_wf(self@, self@.with_travel_number_taken());
            lemma_same_rows_answers(self@, self@.with_travel_number_taken());
        }
        self.next_travel_number = next_number(self.next_travel_number);
        self.create_travel_with_id(id.as_str(), name, description)
    }

    /// Stores a new travel under the identifier `id`, which the caller
    /// chose. The travel has no moves yet.
    pub fn create_travel_with_id(&mut self, id: &str, name: &str, description: &str) -> (created:
        Result<Travel, StoreError>)
        ensures
            final(self)@.wf(),
            created.err() == old(self)@.create_travel_error(id@),
            created matches Ok(travel) ==> travel.id@ == id@ && travel.name@ == name@
                && travel.description@ == description@ && final(self)@ == old(self)@.with_travel(
                travel,
            ),
            created is Err ==> final(self)@ == old(self)@,
    {
        proof {
            use_type_invariant(&*self);
        }
        if self.schema_version < SCHEMA_VERSION {
            return Err(StoreError::StorageUnavailable);
        }
        let key = id.to_owned();
        if self.travel_position(&key).is_some() {
            return Err(StoreError::DuplicateIdentifier);
        }
        let travel = Travel { id: key, name: name.to_owned(), description: description.to_owned() };
        let copy = travel.clone();
        proof {
            lemma_with_travel_wf(self@, travel);
        }
        let mut moves: Vec<Move> = Vec::new();
        std::mem::swap(&mut moves, &mut self.moves);
        let mut travels: Vec<Travel> = Vec::new();
        std::mem::swap(&mut travels, &mut self.travels);
        travels.push(travel);
        self.travels = travels;
        self.moves = moves;
        Ok(copy)
    }

    /// The travel stored under `id`, if there is one.
    pub fn get_travel(&self, id: &str) -> (found: Option<Travel>)
        ensures
            self@.wf(),
            found is Some <==> self@.has_travel(id@),
            found matches Some(travel) ==> travel == self@.travel(id@),
    {
        proof {
            use_type_invariant(self);
        }
        let key = id.to_owned();
        match self.travel_position(&key) {
            Some(i) => {
                proof {
                    lemma_travel_unique(self@, i as int);
                }
                Some(self.travels[i].clone())
            },
            None => None,
        }
    }

    /// Gives the travel `id` a new name and description, and returns the
    /// row as it now stands.
    pub fn update_travel(&mut self, id: &str, name: &str, description: &str) -> (updated: Result<
        Travel,
        StoreError,
    >)
        ensures
            final(self)@.wf(),
            updated.err() == old(self)@.update_travel_error(id@),
            updated matches Ok(travel) ==> travel.id@ == id@ && travel.name@ == name@
                && travel.description@ == description@ && final(self)@ == old(
                self,
            )@.with_travel_updated(id@, travel.name, travel.description),
            updated is Err ==> final(self)@ == old(self)@,
    {
        proof {
            use_type_invariant(&*self);
        }
        if self.schema_version < SCHEMA_VERSION {
            return Err(StoreError::StorageUnavailable);
        }
        let key = id.to_owned();
        match self.travel_position(&key) {
            None => Err(StoreError::UnknownTravel),
            Some(i) => {
                let travel = Travel {
                    id: self.travels[i].id.clone(),
                    name: name.to_owned(),
                    description: description.to_owned(),
                };
                let copy = travel.clone();
                let ghost before = self@;
                let ghost after = before.with_travel_updated(id@, travel.name, travel.description);
                proof {
                    lemma_with_travel_updated_wf(before, id@, travel.name, travel.description);
                    assert forall|k: int| 0 <= k < before.travels.len() implies (
                    #[trigger] after.travels[k]) == before.travels.update(i as int, travel)[k] by {
                        if k != i {
                            lemma_travel_unique(before, k);
                            lemma_travel_unique(before, i as int);
                        }
                    }
                    assert(after.travels =~= before.travels.update(i as int, travel));
                }
                let mut moves: Vec<Move> = Vec::new();
                std::mem::swap(&mut moves, &mut self.moves);
                let mut travels: Vec<Travel> = Vec::new();
                std::mem::swap(&mut travels, &mut self.travels);
                travels[i] = travel;
                self.travels = travels;
                self.moves = moves;
                Ok(copy)
            },
        }
    }

    /// Starts a move of the travel `travel_id` at `start`, under an
    /// identifier of the store's own making. The move has no end yet. The
    /// identifier is `M` and the next running number; where a move has it
    /// already, the move is refused and the number is spent all the same.
    pub fn start_move(&mut self, travel_id: &str, start: Timestamp) -> (started: Result<
        Move,
        StoreError,
    >)
        ensures
            final(self)@.wf(),
            started.err() == old(self)@.start_move_error(
                move_identifier(old(self)@.next_move_number),
                travel_id@,
            ),
            started matches Ok(m) ==> m.move_id@ == move_identifier(old(self)@.next_move_number)
                && m.travel_id@ == travel_id@ && m.start_timestamp == start && m.end_timestamp
                is None && final(self)@ == old(self)@.with_move_number_taken().with_move(m),
            started matches Err(e) ==> final(self)@ == if e == StoreError::DuplicateIdentifier {
                old(self)@.with_move_number_taken()
            } else {
                old(self)@
            },
    {
        proof {
            use_type_invariant(&*self);
        }
        if self.schema_version < SCHEMA_VERSION {
            return Err(StoreError::StorageUnavailable);
        }
        let travel_key = travel_id.to_owned();
        if self.travel_position(&travel_key).is_none() {
            return Err(StoreError::UnknownTravel);
        }
        let id = render_move_identifier(self.next_move_number);
        proof {
            lemma_same_rows_wf(self@, self@.with_move_number_taken());
            lemma_same_rows_answers(self@, self@.with_move_number_taken());
        }
        self.next_move_number = next_number(self.next_move_number);
        self.start_move_with_id(id.as_str(), travel_id, start)
    }

    /// Starts a move of the travel `travel_id` at `start` and stores it
    /// under the identifier `move_id`, which the caller chose. The move has
    /// no end yet.
    pub fn start_move_with_id(
        &mut self,
        move_id: &str,
        travel_id: &str,
        start: Timestamp,
    ) -> (started: Result<Move, StoreError>)
        ensures
            final(self)@.wf(),
            started.err() == old(self)@.start_move_error(move_id@, travel_id@),
            started matches Ok(m) ==> m.move_id@ == move_id@ && m.travel_id@ == travel_id@
                && m.start_timestamp == start && m.end_timestamp is None && final(self)@ == old(
                self,
            )@.with_move(m),
            started is Err ==> final(self)@ == old(self)@,
    {
        proof {
            use_type_invariant(&*self);
        }
        if self.schema_version < SCHEMA_VERSION {
            return Err(StoreError::StorageUnavailable);
        }
        let travel_key = travel_id.to_owned();
        if self.travel_position(&travel_key).is_none() {
            return Err(StoreError::UnknownTravel);
        }
        let move_key = move_id.to_owned();
        if self.move_position(&move_key).is_some() {
            return Err(StoreError::DuplicateIdentifier);
        }
        let slot: usize = self.move_slot(start);
        let m = Move {
            move_id: move_key,
            travel_id: travel_key,
            start_timestamp: start,
            end_timestamp: None,
        };
        let copy = m.clone();
        proof {
            let rows = self@.moves;
            let n = rows.len() as int;
            lemma_with_move_wf(self@, m);
            assert forall|k: int| 0 <= k < n implies (starts_by(start)(#[trigger] rows[k]) <==> 0
                <= k < slot) by {}
            assert forall|k: int| 0 <= k < n implies (starts_after(start)(#[trigger] rows[k])
                <==> slot <= k < n) by {}
            lemma_filter_is_range(rows, starts_by(start), 0, slot as int);
            lemma_filter_is_range(rows, starts_after(start), slot as int, n);
            assert(rows.insert(slot as int, m) =~= rows.subrange(0, slot as int).push(m)
                + rows.subrange(slot as int, n));
        }
        let mut moves: Vec<Move> = Vec::new();
        std::mem::swap(&mut moves, &mut self.moves);
        moves.insert(slot, m);
        self.moves = moves;
        Ok(copy)
    }

    /// The move stored under `move_id`, if there is one.
    pub fn get_move(&self, move_id: &str) -> (found: Option<Move>)
        ensures
            self@.wf(),
            found is Some <==> self@.has_move(move_id@),
            found matches Some(m) ==> m == self@.move_by_id(move_id@),
    {
        proof {
            use_type_invariant(self);
        }
        let key = move_id.to_owned();
        match self.move_position(&key) {
            Some(i) => {
                proof {
                    lemma_move_unique(self@, i as int);
                }
                Some(self.moves[i].clone())
            },
            None => None,
        }
    }

    /// Ends the move `move_id` at `end`. A move ends once, and not before
    /// it started.
    pub fn end_move(&mut self, move_id: &str, end: Timestamp) -> (ended: Result<(), StoreError>)
        ensures
            final(self)@.wf(),
            ended.err() == old(self)@.end_move_error(move_id@, end),
            ended is Ok ==> final(self)@ == old(self)@.with_move_ended(move_id@, end),
            ended is Err ==> final(self)@ == old(self)@,
    {
        proof {
            use_type_invariant(&*self);
        }
        if self.schema_version < SCHEMA_VERSION {
            return Err(StoreError::StorageUnavailable);
        }
        let key = move_id.to_owned();
        match self.move_position(&key) {
            None => Err(StoreError::UnknownMove),
            Some(i) => {
                proof {
                    lemma_move_unique(self@, i as int);
                }
                if end < self.moves[i].start_timestamp {
                    return Err(StoreError::InvalidInterval);
                }
                if self.moves[i].end_timestamp.is_some() {
                    return Err(StoreError::AlreadyEnded);
                }
                let closed = Move {
                    move_id: self.moves[i].move_id.clone(),
                    travel_id: self.moves[i].travel_id.clone(),
                    start_timestamp: self.moves[i].start_timestamp,
                    end_timestamp: Some(end),
                };
                let ghost before = self@;
                let ghost after = before.with_move_ended(move_id@, end);
                proof {
                    lemma_with_move_ended_wf(before, move_id@, end);
                    assert forall|k: int| 0 <= k < before.moves.len() implies (
                    #[trigger] after.moves[k]) == before.moves.update(i as int, closed)[k] by {
                        if k != i {
                            lemma_move_unique(before, k);
                        }
                    }
                    assert(after.moves =~= before.moves.update(i as int, closed));
                }
                let mut moves: Vec<Move> = Vec::new();
                std::mem::swap(&mut moves, &mut self.moves);
                moves[i] = closed;
                self.moves = moves;
                Ok(())
            },
        }
    }

    /// Stores a raw fix. The coordinates are in units of 1e-7 degree.
    pub fn record_geolocation(
        &mut self,
        timestamp: Timestamp,
        latitude_e7: i32,
        longitude_e7: i32,
    ) -> (recorded: Result<Geolocation, StoreError>)
        ensures
            final(self)@.wf(),
            recorded.err() == old(self)@.record_geolocation_error(
                Geolocation { timestamp, latitude_e7, longitude_e7 },
            ),
            recorded matches Ok(fix) ==> fix == (Geolocation {
                timestamp,
                latitude_e7,
                longitude_e7,
            }) && final(self)@ == old(self)@.with_fix(fix),
            recorded is Err ==> final(self)@ == old(self)@,
    {
        proof {
            use_type_invariant(&*self);
        }
        if !check_coordinates(latitude_e7, longitude_e7) {
            return Err(StoreError::OutOfRange);
        }
        if self.schema_version < SCHEMA_VERSION {
            return Err(StoreError::StorageUnavailable);
        }
        let position: usize = self.fix_position(timestamp);
        if position < self.fixes.len() && self.fixes[position].timestamp == timestamp {
            assert(self@.fixes[position as int].timestamp == timestamp);
            return Err(StoreError::DuplicateTimestamp);
        }
        let fix = Geolocation { timestamp, latitude_e7, longitude_e7 };
        proof {
            let rows = self@.fixes;
            let n = rows.len() as int;
            assert forall|k: int| 0 <= k < n implies (#[trigger] rows[k]).timestamp
                != timestamp by {
                if k >= position && k != position {
                    assert(rows[position as int].timestamp < rows[k].timestamp);
                }
            }
            assert(!self@.has_fix(timestamp));
            lemma_with_fix_wf(self@, fix);
            assert forall|k: int| 0 <= k < n implies (taken_before(timestamp)(#[trigger] rows[k])
                <==> 0 <= k < position) by {}
            assert forall|k: int| 0 <= k < n implies (taken_after(timestamp)(#[trigger] rows[k])
                <==> position <= k < n) by {}
            lemma_filter_is_range(rows, taken_before(timestamp), 0, position as int);
            lemma_filter_is_range(rows, taken_after(timestamp), position as int, n);
            assert(rows.insert(position as int, fix) =~= rows.subrange(0, position as int).push(fix)
                + rows.subrange(position as int, n));
        }
        let mut fixes: Vec<Geolocation> = Vec::new();
        std::mem::swap(&mut fixes, &mut self.fixes);
        fixes.insert(position, fix);
        self.fixes = fixes;
        Ok(fix)
    }

    /// The fix taken at `timestamp`, if there is one.
    pub fn get_geolocation(&self, timestamp: Timestamp) -> (found: Option<Geolocation>)
        ensures
            self@.wf(),
            found is Some <==> self@.has_fix(timestamp),
            found matches Some(fix) ==> fix == self@.fix_at(timestamp),
    {
        proof {
            use_type_invariant(self);
        }
        let position: usize = self.fix_position(timestamp);
        if position < self.fixes.len() && self.fixes[position].timestamp == timestamp {
            proof {
                lemma_fix_unique(self@, position as int);
            }
            Some(self.fixes[position])
        } else {
            proof {
                let rows = self@.fixes;
                assert forall|k: int| 0 <= k < rows.len() implies (#[trigger] rows[k]).timestamp
                    != timestamp by {
                    if k >= position && k != position {
                        assert(rows[position as int].timestamp < rows[k].timestamp);
                    }
                }
            }
            None
        }
    }

    /// The moves of the travel `travel_id`, earliest start first. A travel
    /// without moves, and an identifier that names no travel, give the empty
    /// list.
    pub fn list_moves_for_travel(&self, travel_id: &str) -> (moves: Vec<Move>)
        ensures
            self@.wf(),
            moves@ == self@.moves_of(travel_id@),
    {
        proof {
            use_type_invariant(self);
        }
        let key = travel_id.to_owned();
        let mut moves: Vec<Move> = Vec::new();
        let mut i: usize = 0;
        proof {
            assert(self@.moves.take(0) =~= Seq::<Move>::empty());
            reveal(Seq::filter);
        }
        while i < self.moves.len()
            invariant
                i <= self.moves.len(),
                key@ == travel_id@,
                moves@ == self@.moves.take(i as int).filter(move_of(travel_id@)),
            decreases self.moves.len() - i,
        {
            proof {
                lemma_filter_next(self@.moves, move_of(travel_id@), i as int);
            }
            if self.moves[i].travel_id == key {
                moves.push(self.moves[i].clone());
            }
            i += 1;
        }
        proof {
            assert(self@.moves.take(i as int) =~= self@.moves);
        }
        moves
    }

    /// The fixes taken within the span of the move `move_id`, earliest
    /// first. While the move is open its span has no end.
    pub fn list_geolocations_for_move(&self, move_id: &str) -> (fixes: Result<
        Vec<Geolocation>,
        StoreError,
    >)
        ensures
            self@.wf(),
            fixes is Ok <==> self@.has_move(move_id@),
            fixes matches Ok(listed) ==> listed@ == self@.fixes_within(self@.move_by_id(move_id@)),
            fixes matches Err(e) ==> e == StoreError::UnknownMove,
    {
        proof {
            use_type_invariant(self);
        }
        let key = move_id.to_owned();
        let at: usize = match self.move_position(&key) {
            None => {
                return Err(StoreError::UnknownMove);
            },
            Some(i) => i,
        };
        proof {
            lemma_move_unique(self@, at as int);
        }
        let ghost span = self@.moves[at as int];
        let low: usize = self.fix_position(self.moves[at].start_timestamp);
        let high: usize = match self.moves[at].end_timestamp {
            Some(end) => {
                if end < i64::MAX {
                    self.fix_position(end + 1)
                } else {
                    self.fixes.len()
                }
            },
            None => self.fixes.len(),
        };
        proof {
            let rows = self@.fixes;
            assert(span.interval_valid());
            if high < low {
                assert(rows[high as int].timestamp < span.start_timestamp);
            }
            assert forall|k: int| 0 <= k < rows.len() implies (taken_within(span)(
                #[trigger] rows[k],
            ) <==> low <= k < high) by {}
            lemma_filter_is_range(rows, taken_within(span), low as int, high as int);
        }
        let mut listed: Vec<Geolocation> = Vec::new();
        let mut i: usize = low;
        while i < high
            invariant
                low <= i <= high <= self.fixes.len(),
                listed@ == self@.fixes.subrange(low as int, i as int),
            decreases high - i,
        {
            listed.push(self.fixes[i]);
            proof {
                assert(self@.fixes.subrange(low as int, i + 1) =~= self@.fixes.subrange(
                    low as int,
                    i as int,
                ).push(self@.fixes[i as int]));
            }
            i += 1;
        }
        Ok(listed)
    }

    /// Removes the travel `id` and its moves. The fixes stay.
    pub fn delete_travel(&mut self, id: &str) -> (deleted: Result<(), StoreError>)
        ensures
            final(self)@.wf(),
            deleted.err() == old(self)@.delete_travel_error(id@),
            deleted is Ok ==> final(self)@ == old(self)@.without_travel(id@),
            deleted is Err ==> final(self)@ == old(self)@,
    {
        proof {
            use_type_invariant(&*self);
        }
        if self.schema_version < SCHEMA_VERSION {
            return Err(StoreError::StorageUnavailable);
        }
        let key = id.to_owned();
        if self.travel_position(&key).is_none() {
            return Err(StoreError::UnknownTravel);
        }
        let mut travels: Vec<Travel> = Vec::new();
        let mut i: usize = 0;
        proof {
            assert(self@.travels.take(0) =~= Seq::<Travel>::empty());
            reveal(Seq::filter);
        }
        while i < self.travels.len()
            invariant
                i <= self.travels.len(),
                key@ == id@,
                travels@ == self@.travels.take(i as int).filter(travel_other_than(id@)),
            decreases self.travels.len() - i,
        {
            proof {
                lemma_filter_next(self@.travels, travel_other_than(id@), i as int);
            }
            if self.travels[i].id != key {
                travels.push(self.travels[i].clone());
            }
            i += 1;
        }
        let mut moves: Vec<Move> = Vec::new();
        let mut j: usize = 0;
        proof {
            assert(self@.travels.take(i as int) =~= self@.travels);
            assert(self@.moves.take(0) =~= Seq::<Move>::empty());
        }
        while j < self.moves.len()
            invariant
                j <= self.moves.len(),
                key@ == id@,
                moves@ == self@.moves.take(j as int).filter(move_outside(id@)),
            decreases self.moves.len() - j,
        {
            proof {
                lemma_filter_next(self@.moves, move_outside(id@), j as int);
            }
            if self.moves[j].travel_id != key {
                moves.push(self.moves[j].clone());
            }
            j += 1;
        }
        proof {
            assert(self@.moves.take(j as int) =~= self@.moves);
            lemma_without_travel_wf(self@, id@);
        }
        let mut emptied: Vec<Move> = Vec::new();
        std::mem::swap(&mut emptied, &mut self.moves);
        proof {
            let next = old(self)@.without_travel(id@);
            assert(travels@ == next.travels);
            assert(moves@ == next.moves);
        }
        self.travels = travels;
        self.moves = moves;
        Ok(())
    }
}

} // verus!
