//! The mathematical content of a store, and the transitions that the
//! operations make.

use vstd::prelude::*;
use crate::error::StoreError;
use crate::identifier::successor;
use crate::migration::marker_after;
use crate::model::{Geolocation, Move, Timestamp, Travel, coordinates_in_range};
use crate::sequences::{lemma_filter_keeps_order, lemma_filter_members};

verus! {

/// The schema version at which all three tables exist.
pub const SCHEMA_VERSION: i64 = 3;

/// What a store holds: the version marker, the running numbers of the next
/// travel and the next move, and the rows of the three tables, each table in
/// the order in which queries hand its rows out.
pub struct StoreState {
    pub schema_version: i64,
    pub next_travel_number: u64,
    pub next_move_number: u64,
    pub travels: Seq<Travel>,
    pub moves: Seq<Move>,
    pub fixes: Seq<Geolocation>,
}

/// The test that picks the travels other than `id`.
pub open spec fn travel_other_than(id: Seq<char>) -> spec_fn(Travel) -> bool {
    |t: Travel| t.id@ != id
}

/// The test that picks the moves of the travel `travel_id`.
pub open spec fn move_of(travel_id: Seq<char>) -> spec_fn(Move) -> bool {
    |m: Move| m.travel_id@ == travel_id
}

/// The test that picks the moves of the travels other than `travel_id`.
pub open spec fn move_outside(travel_id: Seq<char>) -> spec_fn(Move) -> bool {
    |m: Move| m.travel_id@ != travel_id
}

/// The test that picks the moves that start at `t` or before.
pub open spec fn starts_by(t: Timestamp) -> spec_fn(Move) -> bool {
    |m: Move| m.start_timestamp <= t
}

/// The test that picks the moves that start after `t`.
pub open spec fn starts_after(t: Timestamp) -> spec_fn(Move) -> bool {
    |m: Move| m.start_timestamp > t
}

/// The test that picks the fixes taken before `t`.
pub open spec fn taken_before(t: Timestamp) -> spec_fn(Geolocation) -> bool {
    |g: Geolocation| g.timestamp < t
}

/// The test that picks the fixes taken after `t`.
pub open spec fn taken_after(t: Timestamp) -> spec_fn(Geolocation) -> bool {
    |g: Geolocation| g.timestamp > t
}

/// The test that picks the fixes taken within a span.
pub open spec fn taken_within(span: Move) -> spec_fn(Geolocation) -> bool {
    |g: Geolocation| span.covers(g.timestamp)
}

impl StoreState {
    /// The state of a store before any migration.
    pub open spec fn empty() -> StoreState {
        StoreState {
            schema_version: 0,
            next_travel_number: 1,
            next_move_number: 1,
            travels: Seq::empty(),
            moves: Seq::empty(),
            fixes: Seq::empty(),
        }
    }

    /// Whether the tables exist.
    pub open spec fn ready(self) -> bool {
        self.schema_version >= SCHEMA_VERSION
    }

    /// Whether a travel is stored under this identifier.
    pub open spec fn has_travel(self, id: Seq<char>) -> bool {
        exists|i: int| 0 <= i < self.travels.len() && (#[trigger] self.travels[i]).id@ == id
    }

    /// Whether a move is stored under this identifier.
    pub open spec fn has_move(self, id: Seq<char>) -> bool {
        exists|i: int| 0 <= i < self.moves.len() && (#[trigger] self.moves[i]).move_id@ == id
    }

    /// Whether a fix was taken at this instant.
    pub open spec fn has_fix(self, t: Timestamp) -> bool {
        exists|i: int| 0 <= i < self.fixes.len() && (#[trigger] self.fixes[i]).timestamp == t
    }

    /// The travel with this identifier, where there is one.
    pub open spec fn travel(self, id: Seq<char>) -> Travel
        recommends
            self.has_travel(id),
    {
        self.travels[choose|i: int|
            0 <= i < self.travels.len() && (#[trigger] self.travels[i]).id@ == id]
    }

    /// The move with this identifier, where there is one.
    pub open spec fn move_by_id(self, id: Seq<char>) -> Move
        recommends
            self.has_move(id),
    {
        self.moves[choose|i: int|
            0 <= i < self.moves.len() && (#[trigger] self.moves[i]).move_id@ == id]
    }

    /// The fix taken at this instant, where there is one.
    pub open spec fn fix_at(self, t: Timestamp) -> Geolocation
        recommends
            self.has_fix(t),
    {
        self.fixes[choose|i: int|
            0 <= i < self.fixes.len() && (#[trigger] self.fixes[i]).timestamp == t]
    }

    /// The invariant of every store:
    /// - the version marker is not negative, and below `SCHEMA_VERSION` the
    ///   tables hold nothing;
    /// - no two travels share an identifier, nor do two moves;
    /// - the moves stand in the order of their starts, none ends before it
    ///   starts, and each belongs to a travel that is stored;
    /// - the fixes stand in the order of their timestamps, no two at one
    ///   instant, and each lies on the globe.
    pub open spec fn wf(self) -> bool {
        &&& self.schema_version >= 0
        &&& !self.ready() ==> self.travels.len() == 0 && self.moves.len() == 0
            && self.fixes.len() == 0
        &&& forall|i: int, j: int|
            0 <= i < j < self.travels.len() ==> (#[trigger] self.travels[i]).id@
                != (#[trigger] self.travels[j]).id@
        &&& forall|i: int, j: int|
            0 <= i < j < self.moves.len() ==> (#[trigger] self.moves[i]).move_id@
                != (#[trigger] self.moves[j]).move_id@
        &&& forall|i: int, j: int|
            0 <= i < j < self.moves.len() ==> (#[trigger] self.moves[i]).start_timestamp
                <= (#[trigger] self.moves[j]).start_timestamp
        &&& forall|i: int|
            0 <= i < self.moves.len() ==> (#[trigger] self.moves[i]).interval_valid()
                && self.has_travel(self.moves[i].travel_id@)
        &&& forall|i: int, j: int|
            0 <= i < j < self.fixes.len() ==> (#[trigger] self.fixes[i]).timestamp
                < (#[trigger] self.fixes[j]).timestamp
        &&& forall|i: int|
            0 <= i < self.fixes.len() ==> coordinates_in_range(
                (#[trigger] self.fixes[i]).latitude_e7,
                self.fixes[i].longitude_e7,
            )
    }

    /// The moves of one travel, earliest start first.
    pub open spec fn moves_of(self, travel_id: Seq<char>) -> Seq<Move> {
        self.moves.filter(move_of(travel_id))
    }

    /// The fixes taken within a span, earliest first.
    pub open spec fn fixes_within(self, span: Move) -> Seq<Geolocation> {
        self.fixes.filter(taken_within(span))
    }

    /// Why a travel with this identifier cannot be created, if it cannot.
    pub open spec fn create_travel_error(self, id: Seq<char>) -> Option<StoreError> {
        if !self.ready() {
            Some(StoreError::StorageUnavailable)
        } else if self.has_travel(id) {
            Some(StoreError::DuplicateIdentifier)
        } else {
            None
        }
    }

    /// The state with one more travel, which has no moves yet.
    pub open spec fn with_travel(self, travel: Travel) -> StoreState {
        StoreState { travels: self.travels.push(travel), ..self }
    }

    /// The state in which the next travel's running number is spent.
    pub open spec fn with_travel_number_taken(self) -> StoreState {
        StoreState { next_travel_number: successor(self.next_travel_number), ..self }
    }

    /// The state in which the next move's running number is spent.
    pub open spec fn with_move_number_taken(self) -> StoreState {
        StoreState { next_move_number: successor(self.next_move_number), ..self }
    }

    /// Whether the other state holds the same rows.
    pub open spec fn same_rows(self, other: StoreState) -> bool {
        &&& self.travels == other.travels
        &&& self.moves == other.moves
        &&& self.fixes == other.fixes
    }

    /// Why a travel cannot be given a new name and description, if it
    /// cannot.
    pub open spec fn update_travel_error(self, id: Seq<char>) -> Option<StoreError> {
        if !self.ready() {
            Some(StoreError::StorageUnavailable)
        } else if !self.has_travel(id) {
            Some(StoreError::UnknownTravel)
        } else {
            None
        }
    }

    /// The state in which the travel `id` has this name and description.
    pub open spec fn with_travel_updated(
        self,
        id: Seq<char>,
        name: String,
        description: String,
    ) -> StoreState {
        StoreState {
            travels: self.travels.map_values(
                |t: Travel|
                    if t.id@ == id {
                        Travel { id: t.id, name, description }
                    } else {
                        t
                    },
            ),
            ..self
        }
    }

    /// Why a move cannot be started, if it cannot.
    pub open spec fn start_move_error(self, move_id: Seq<char>, travel_id: Seq<char>) -> Option<
        StoreError,
    > {
        if !self.ready() {
            Some(StoreError::StorageUnavailable)
        } else if !self.has_travel(travel_id) {
            Some(StoreError::UnknownTravel)
        } else if self.has_move(move_id) {
            Some(StoreError::DuplicateIdentifier)
        } else {
            None
        }
    }

    /// The state with one more move. It stands behind the moves that start
    /// no later than it does, and before the others.
    pub open spec fn with_move(self, started: Move) -> StoreState {
        StoreState {
            moves: self.moves.filter(starts_by(started.start_timestamp)).push(started)
                + self.moves.filter(starts_after(started.start_timestamp)),
            ..self
        }
    }

    /// Why a move cannot be ended at `end`, if it cannot.
    pub open spec fn end_move_error(self, move_id: Seq<char>, end: Timestamp) -> Option<
        StoreError,
    > {
        if !self.ready() {
            Some(StoreError::StorageUnavailable)
        } else if !self.has_move(move_id) {
            Some(StoreError::UnknownMove)
        } else if end < self.move_by_id(move_id).start_timestamp {
            Some(StoreError::InvalidInterval)
        } else if self.move_by_id(move_id).end_timestamp is Some {
            Some(StoreError::AlreadyEnded)
        } else {
            None
        }
    }

    /// The state in which the move `move_id` ends at `end`.
    pub open spec fn with_move_ended(self, move_id: Seq<char>, end: Timestamp) -> StoreState {
        StoreState {
            moves: self.moves.map_values(
                |m: Move|
                    if m.move_id@ == move_id {
                        Move { end_timestamp: Some(end), ..m }
                    } else {
                        m
                    },
            ),
            ..self
        }
    }

    /// Why a fix cannot be recorded, if it cannot.
    pub open spec fn record_geolocation_error(self, fix: Geolocation) -> Option<StoreError> {
        if !coordinates_in_range(fix.latitude_e7, fix.longitude_e7) {
            Some(StoreError::OutOfRange)
        } else if !self.ready() {
            Some(StoreError::StorageUnavailable)
        } else if self.has_fix(fix.timestamp) {
            Some(StoreError::DuplicateTimestamp)
        } else {
            None
        }
    }

    /// The state with one more fix, which stands between the earlier fixes
    /// and the later ones.
    pub open spec fn with_fix(self, fix: Geolocation) -> StoreState {
        StoreState {
            fixes: self.fixes.filter(taken_before(fix.timestamp)).push(fix) + self.fixes.filter(
                taken_after(fix.timestamp),
            ),
            ..self
        }
    }

    /// Why a travel cannot be deleted, if it cannot.
    pub open spec fn delete_travel_error(self, id: Seq<char>) -> Option<StoreError> {
        if !self.ready() {
            Some(StoreError::StorageUnavailable)
        } else if !self.has_travel(id) {
            Some(StoreError::UnknownTravel)
        } else {
            None
        }
    }

    /// The state without the travel `id` and without its moves. The fixes
    /// stay.
    pub open spec fn without_travel(self, id: Seq<char>) -> StoreState {
        StoreState {
            travels: self.travels.filter(travel_other_than(id)),
            moves: self.moves.filter(move_outside(id)),
            ..self
        }
    }

    /// The state with the version marker at `version`.
    pub open spec fn with_schema_version(self, version: i64) -> StoreState {
        StoreState { schema_version: version, ..self }
    }

    /// Why a single migration cannot run, if it cannot: its version must
    /// exceed every version that has run.
    pub open spec fn apply_migration_error(self, version: i64) -> Option<StoreError> {
        if version <= self.schema_version {
            Some(StoreError::MigrationOrderError)
        } else {
            None
        }
    }

    /// The state after a list of migrations has run: those at or below the
    /// marker are passed over, the others raise it.
    pub open spec fn migrated(self, versions: Seq<i64>) -> StoreState {
        self.with_schema_version(marker_after(versions, self.schema_version))
    }
}

/// In a valid state an identifier names one travel: the row found under the
/// identifier of a row is that row.
pub proof fn lemma_travel_unique(state: StoreState, i: int)
    requires
        state.wf(),
        0 <= i < state.travels.len(),
    ensures
        state.has_travel(state.travels[i].id@),
        state.travel(state.travels[i].id@) == state.travels[i],
{
    let id = state.travels[i].id@;
    let k = choose|k: int| 0 <= k < state.travels.len() && (#[trigger] state.travels[k]).id@ == id;
    if k < i {
        assert(state.travels[k].id@ != state.travels[i].id@);
    } else if i < k {
        assert(state.travels[i].id@ != state.travels[k].id@);
    }
}

/// In a valid state an identifier names one move.
pub proof fn lemma_move_unique(state: StoreState, i: int)
    requires
        state.wf(),
        0 <= i < state.moves.len(),
    ensures
        state.has_move(state.moves[i].move_id@),
        state.move_by_id(state.moves[i].move_id@) == state.moves[i],
{
    let id = state.moves[i].move_id@;
    let k = choose|k: int| 0 <= k < state.moves.len() && (#[trigger] state.moves[k]).move_id@ == id;
    if k < i {
        assert(state.moves[k].move_id@ != state.moves[i].move_id@);
    } else if i < k {
        assert(state.moves[i].move_id@ != state.moves[k].move_id@);
    }
}

/// In a valid state an instant holds one fix.
pub proof fn lemma_fix_unique(state: StoreState, i: int)
    requires
        state.wf(),
        0 <= i < state.fixes.len(),
    ensures
        state.has_fix(state.fixes[i].timestamp),
        state.fix_at(state.fixes[i].timestamp) == state.fixes[i],
{
    let t = state.fixes[i].timestamp;
    let k = choose|k: int| 0 <= k < state.fixes.len() && (#[trigger] state.fixes[k]).timestamp == t;
    if k < i {
        assert(state.fixes[k].timestamp < state.fixes[i].timestamp);
    } else if i < k {
        assert(state.fixes[i].timestamp < state.fixes[k].timestamp);
    }
}

/// Whether a travel is stored depends on the travel table alone.
pub proof fn lemma_has_travel_same(a: StoreState, b: StoreState, id: Seq<char>)
    requires
        a.travels == b.travels,
    ensures
        a.has_travel(id) == b.has_travel(id),
{
    if a.has_travel(id) {
        let k = choose|k: int| 0 <= k < a.travels.len() && (#[trigger] a.travels[k]).id@ == id;
        assert(b.travels[k].id@ == id);
    }
    if b.has_travel(id) {
        let k = choose|k: int| 0 <= k < b.travels.len() && (#[trigger] b.travels[k]).id@ == id;
        assert(a.travels[k].id@ == id);
    }
}

/// The empty state is valid.
pub proof fn lemma_empty_wf()
    ensures
        StoreState::empty().wf(),
{
}

/// Creating a travel keeps the state valid.
pub proof fn lemma_with_travel_wf(state: StoreState, travel: Travel)
    requires
        state.wf(),
        state.create_travel_error(travel.id@) is None,
    ensures
        state.with_travel(travel).wf(),
{
    let next = state.with_travel(travel);
    assert forall|i: int| 0 <= i < next.moves.len() implies next.has_travel(
        (#[trigger] next.moves[i]).travel_id@,
    ) by {
        let id = state.moves[i].travel_id@;
        let k = choose|k: int|
            0 <= k < state.travels.len() && (#[trigger] state.travels[k]).id@ == id;
        assert(next.travels[k].id@ == id);
    }
}

/// Renaming a travel keeps the state valid.
pub proof fn lemma_with_travel_updated_wf(
    state: StoreState,
    id: Seq<char>,
    name: String,
    description: String,
)
    requires
        state.wf(),
    ensures
        state.with_travel_updated(id, name, description).wf(),
{
    let next = state.with_travel_updated(id, name, description);
    assert forall|i: int| 0 <= i < next.travels.len() implies (#[trigger] next.travels[i]).id@
        == state.travels[i].id@ by {}
    assert forall|i: int| 0 <= i < next.moves.len() implies next.has_travel(
        (#[trigger] next.moves[i]).travel_id@,
    ) by {
        let wanted = state.moves[i].travel_id@;
        let k = choose|k: int|
            0 <= k < state.travels.len() && (#[trigger] state.travels[k]).id@ == wanted;
        assert(next.travels[k].id@ == wanted);
    }
    assert forall|i: int, j: int| 0 <= i < j < next.travels.len() implies (
    #[trigger] next.travels[i]).id@ != (#[trigger] next.travels[j]).id@ by {
        assert(state.travels[i].id@ != state.travels[j].id@);
    }
}

/// Starting a move keeps the state valid.
pub proof fn lemma_with_move_wf(state: StoreState, started: Move)
    requires
        state.wf(),
        state.start_move_error(started.move_id@, started.travel_id@) is None,
        started.interval_valid(),
    ensures
        state.with_move(started).wf(),
{
    let next = state.with_move(started);
    let early = starts_by(started.start_timestamp);
    let late = starts_after(started.start_timestamp);
    let front = state.moves.filter(early);
    let back = state.moves.filter(late);
    let n = front.len() as int;
    let by_start = |a: Move, b: Move| a.start_timestamp <= b.start_timestamp;
    let by_id = |a: Move, b: Move| a.move_id@ != b.move_id@;
    lemma_filter_members(state.moves, early);
    lemma_filter_members(state.moves, late);
    lemma_filter_keeps_order(state.moves, early, by_start);
    lemma_filter_keeps_order(state.moves, late, by_start);
    lemma_filter_keeps_order(state.moves, early, by_id);
    lemma_filter_keeps_order(state.moves, late, by_id);
    assert(next.moves.len() == n + 1 + back.len());
    assert forall|i: int| 0 <= i < next.moves.len() && i != n implies state.moves.contains(
        #[trigger] next.moves[i],
    ) && (i < n ==> early(next.moves[i])) && (i > n ==> late(next.moves[i])) by {
        if i < n {
            assert(next.moves[i] == front[i]);
        } else {
            assert(next.moves[i] == back[i - n - 1]);
        }
    }
    assert(next.moves[n] == started);
    assert forall|i: int| 0 <= i < next.moves.len() implies (
    #[trigger] next.moves[i]).interval_valid() && next.has_travel(next.moves[i].travel_id@) by {
        if i != n {
            let k = choose|k: int| 0 <= k < state.moves.len() && state.moves[k] == next.moves[i];
            assert(state.moves[k].interval_valid());
        }
        lemma_has_travel_same(state, next, next.moves[i].travel_id@);
    }
    assert forall|i: int, j: int| 0 <= i < j < next.moves.len() implies (
    #[trigger] next.moves[i]).start_timestamp <= (#[trigger] next.moves[j]).start_timestamp by {
        if j < n {
            assert(by_start(front[i], front[j]));
        } else if i > n {
            assert(by_start(back[i - n - 1], back[j - n - 1]));
        }
    }
    assert forall|i: int, j: int| 0 <= i < j < next.moves.len() implies (
    #[trigger] next.moves[i]).move_id@ != (#[trigger] next.moves[j]).move_id@ by {
        if j < n {
            assert(by_id(front[i], front[j]));
        } else if i > n {
            assert(by_id(back[i - n - 1], back[j - n - 1]));
        } else if i == n {
            let k = choose|k: int| 0 <= k < state.moves.len() && state.moves[k] == next.moves[j];
            assert(state.moves[k].move_id@ != started.move_id@);
        } else if j == n {
            let k = choose|k: int| 0 <= k < state.moves.len() && state.moves[k] == next.moves[i];
            assert(state.moves[k].move_id@ != started.move_id@);
        } else {
            let a = choose|k: int| 0 <= k < state.moves.len() && state.moves[k] == next.moves[i];
            let b = choose|k: int| 0 <= k < state.moves.len() && state.moves[k] == next.moves[j];
            if a < b {
                assert(state.moves[a].move_id@ != state.moves[b].move_id@);
            } else if b < a {
                assert(state.moves[b].move_id@ != state.moves[a].move_id@);
            }
        }
    }
}

/// Ending a move keeps the state valid.
pub proof fn lemma_with_move_ended_wf(state: StoreState, move_id: Seq<char>, end: Timestamp)
    requires
        state.wf(),
        state.end_move_error(move_id, end) is None,
    ensures
        state.with_move_ended(move_id, end).wf(),
{
    let next = state.with_move_ended(move_id, end);
    assert forall|i: int| 0 <= i < next.moves.len() implies (#[trigger] next.moves[i]).move_id@
        == state.moves[i].move_id@ && next.moves[i].travel_id@ == state.moves[i].travel_id@
        && next.moves[i].start_timestamp == state.moves[i].start_timestamp by {}
    assert forall|i: int| 0 <= i < next.moves.len() implies (
    #[trigger] next.moves[i]).interval_valid() && next.has_travel(next.moves[i].travel_id@) by {
        assert(state.moves[i].interval_valid());
        if state.moves[i].move_id@ == move_id {
            lemma_move_unique(state, i);
        }
        lemma_has_travel_same(state, next, next.moves[i].travel_id@);
    }
    assert forall|i: int, j: int| 0 <= i < j < next.moves.len() implies (
    #[trigger] next.moves[i]).start_timestamp <= (#[trigger] next.moves[j]).start_timestamp by {
        assert(state.moves[i].start_timestamp <= state.moves[j].start_timestamp);
    }
    assert forall|i: int, j: int| 0 <= i < j < next.moves.len() implies (
    #[trigger] next.moves[i]).move_id@ != (#[trigger] next.moves[j]).move_id@ by {
        assert(state.moves[i].move_id@ != state.moves[j].move_id@);
    }
}

/// Recording a fix keeps the state valid.
pub proof fn lemma_with_fix_wf(state: StoreState, fix: Geolocation)
    requires
        state.wf(),
        state.record_geolocation_error(fix) is None,
    ensures
        state.with_fix(fix).wf(),
{
    let next = state.with_fix(fix);
    let earlier = taken_before(fix.timestamp);
    let later = taken_after(fix.timestamp);
    let front = state.fixes.filter(earlier);
    let back = state.fixes.filter(later);
    let n = front.len() as int;
    let by_time = |a: Geolocation, b: Geolocation| a.timestamp < b.timestamp;
    lemma_filter_members(state.fixes, earlier);
    lemma_filter_members(state.fixes, later);
    lemma_filter_keeps_order(state.fixes, earlier, by_time);
    lemma_filter_keeps_order(state.fixes, later, by_time);
    assert(next.fixes.len() == n + 1 + back.len());
    assert forall|i: int| 0 <= i < next.fixes.len() && i != n implies state.fixes.contains(
        #[trigger] next.fixes[i],
    ) && (i < n ==> earlier(next.fixes[i])) && (i > n ==> later(next.fixes[i])) by {
        if i < n {
            assert(next.fixes[i] == front[i]);
        } else {
            assert(next.fixes[i] == back[i - n - 1]);
        }
    }
    assert(next.fixes[n] == fix);
    assert forall|i: int| 0 <= i < next.fixes.len() implies coordinates_in_range(
        (#[trigger] next.fixes[i]).latitude_e7,
        next.fixes[i].longitude_e7,
    ) by {
        if i != n {
            let k = choose|k: int| 0 <= k < state.fixes.len() && state.fixes[k] == next.fixes[i];
            assert(coordinates_in_range(state.fixes[k].latitude_e7, state.fixes[k].longitude_e7));
        }
    }
    assert forall|i: int, j: int| 0 <= i < j < next.fixes.len() implies (
    #[trigger] next.fixes[i]).timestamp < (#[trigger] next.fixes[j]).timestamp by {
        if j < n {
            assert(by_time(front[i], front[j]));
        } else if i > n {
            assert(by_time(back[i - n - 1], back[j - n - 1]));
        }
    }
    assert(next.schema_version == state.schema_version);
    assert(next.travels == state.travels);
    assert(next.moves == state.moves);
    assert forall|i: int| 0 <= i < next.moves.len() implies next.has_travel(
        (#[trigger] next.moves[i]).travel_id@,
    ) by {
        lemma_has_travel_same(state, next, next.moves[i].travel_id@);
    }
}

/// Deleting a travel keeps the state valid: its moves leave with it, so no
/// move is left without its travel.
pub proof fn lemma_without_travel_wf(state: StoreState, id: Seq<char>)
    requires
        state.wf(),
    ensures
        state.without_travel(id).wf(),
{
    let next = state.without_travel(id);
    let other_travel = travel_other_than(id);
    let other_move = move_outside(id);
    let travel_ids = |a: Travel, b: Travel| a.id@ != b.id@;
    let by_start = |a: Move, b: Move| a.start_timestamp <= b.start_timestamp;
    let by_id = |a: Move, b: Move| a.move_id@ != b.move_id@;
    lemma_filter_members(state.travels, other_travel);
    lemma_filter_members(state.moves, other_move);
    lemma_filter_keeps_order(state.travels, other_travel, travel_ids);
    lemma_filter_keeps_order(state.moves, other_move, by_start);
    lemma_filter_keeps_order(state.moves, other_move, by_id);
    state.travels.lemma_filter_len(other_travel);
    state.moves.lemma_filter_len(other_move);
    assert forall|i: int, j: int| 0 <= i < j < next.travels.len() implies (
    #[trigger] next.travels[i]).id@ != (#[trigger] next.travels[j]).id@ by {
        assert(travel_ids(next.travels[i], next.travels[j]));
    }
    assert forall|i: int, j: int| 0 <= i < j < next.moves.len() implies (
    #[trigger] next.moves[i]).start_timestamp <= (#[trigger] next.moves[j]).start_timestamp by {
        assert(by_start(next.moves[i], next.moves[j]));
    }
    assert forall|i: int, j: int| 0 <= i < j < next.moves.len() implies (
    #[trigger] next.moves[i]).move_id@ != (#[trigger] next.moves[j]).move_id@ by {
        assert(by_id(next.moves[i], next.moves[j]));
    }
    assert forall|i: int| 0 <= i < next.moves.len() implies (
    #[trigger] next.moves[i]).interval_valid() && next.has_travel(next.moves[i].travel_id@) by {
        let kept = next.moves[i];
        assert(other_move(kept));
        let k = choose|k: int| 0 <= k < state.moves.len() && state.moves[k] == kept;
        assert(state.moves[k].interval_valid());
        let t = choose|t: int|
            0 <= t < state.travels.len() && (#[trigger] state.travels[t]).id@ == kept.travel_id@;
        assert(other_travel(state.travels[t]));
        state.travels.lemma_filter_contains(other_travel, t);
        let u = choose|u: int| 0 <= u < next.travels.len() && next.travels[u] == state.travels[t];
        assert(next.travels[u].id@ == kept.travel_id@);
    }
}

/// A state with the rows of a valid state is valid, unless its version
/// marker is lower.
pub proof fn lemma_same_rows_wf(state: StoreState, next: StoreState)
    requires
        state.wf(),
        state.same_rows(next),
        next.schema_version >= state.schema_version,
    ensures
        next.wf(),
{
    assert forall|i: int| 0 <= i < next.moves.len() implies next.has_travel(
        (#[trigger] next.moves[i]).travel_id@,
    ) by {
        lemma_has_travel_same(state, next, next.moves[i].travel_id@);
    }
}

/// What a state is asked about its rows, it answers as any state with the
/// same rows and the same readiness does.
pub proof fn lemma_same_rows_answers(state: StoreState, next: StoreState)
    requires
        state.same_rows(next),
    ensures
        forall|id: Seq<char>| #[trigger] state.has_travel(id) == next.has_travel(id),
        forall|id: Seq<char>| #[trigger] state.has_move(id) == next.has_move(id),
        forall|t: Timestamp| #[trigger] state.has_fix(t) == next.has_fix(t),
{
    assert forall|id: Seq<char>| #[trigger] state.has_travel(id) == next.has_travel(id) by {
        lemma_has_travel_same(state, next, id);
    }
    assert forall|id: Seq<char>| #[trigger] state.has_move(id) == next.has_move(id) by {
        if state.has_move(id) {
            let k = choose|k: int|
                0 <= k < state.moves.len() && (#[trigger] state.moves[k]).move_id@ == id;
            assert(next.moves[k].move_id@ == id);
        }
        if next.has_move(id) {
            let k = choose|k: int|
                0 <= k < next.moves.len() && (#[trigger] next.moves[k]).move_id@ == id;
            assert(state.moves[k].move_id@ == id);
        }
    }
    assert forall|t: Timestamp| #[trigger] state.has_fix(t) == next.has_fix(t) by {
        if state.has_fix(t) {
            let k = choose|k: int|
                0 <= k < state.fixes.len() && (#[trigger] state.fixes[k]).timestamp == t;
            assert(next.fixes[k].timestamp == t);
        }
        if next.has_fix(t) {
            let k = choose|k: int|
                0 <= k < next.fixes.len() && (#[trigger] next.fixes[k]).timestamp == t;
            assert(state.fixes[k].timestamp == t);
        }
    }
}

} // verus!
