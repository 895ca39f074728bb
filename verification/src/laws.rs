//! What holds of every valid state, whatever the operations that led to it.

use vstd::prelude::*;
use crate::error::StoreError;
use crate::migration::{lemma_nothing_pending_after, pending, strictly_increasing};
use crate::model::{Geolocation, Move, Timestamp, Travel, coordinates_in_range};
use crate::sequences::{lemma_filter_is_range, lemma_filter_keeps_order, lemma_filter_members};
use crate::state::{
    StoreState, lemma_fix_unique, lemma_move_unique, lemma_with_fix_wf, lemma_with_move_ended_wf,
    move_of, move_outside, starts_after, starts_by, taken_before, taken_within, travel_other_than,
};

verus! {

/// A travel that has just been created has no moves, whether its identifier
/// was chosen by the caller or made by the store.
pub proof fn lemma_new_travel_has_no_moves(state: StoreState, travel: Travel)
    requires
        state.wf(),
        state.create_travel_error(travel.id@) is None,
    ensures
        state.with_travel(travel).moves_of(travel.id@) == Seq::<Move>::empty(),
        state.with_travel_number_taken().with_travel(travel).moves_of(travel.id@) == Seq::<
            Move,
        >::empty(),
{
    let rows = state.moves;
    assert forall|k: int| 0 <= k < rows.len() implies (move_of(travel.id@)(#[trigger] rows[k])
        <==> 0 <= k < 0) by {
        assert(state.has_travel(rows[k].travel_id@));
    }
    lemma_filter_is_range(rows, move_of(travel.id@), 0, 0);
    assert(rows.subrange(0, 0) =~= Seq::<Move>::empty());
}

/// A move that has just been started is among the moves of its travel, as
/// it was started: without an end where it was started without one.
pub proof fn lemma_started_move_is_listed(state: StoreState, started: Move)
    ensures
        state.with_move(started).moves_of(started.travel_id@).contains(started),
        state.with_move_number_taken().with_move(started).moves_of(started.travel_id@).contains(
            started,
        ),
{
    let of_travel = move_of(started.travel_id@);
    let front = state.moves.filter(starts_by(started.start_timestamp));
    let back = state.moves.filter(starts_after(started.start_timestamp));
    Seq::filter_distributes_over_add(front.push(started), back, of_travel);
    front.lemma_filter_push(started, of_travel);
    let listed = state.with_move(started).moves_of(started.travel_id@);
    let at = front.filter(of_travel).len() as int;
    assert(listed[at] == started);
    assert(state.with_move_number_taken().with_move(started).moves == state.with_move(
        started,
    ).moves);
}

/// The moves of a travel are listed in the order of their starts; each
/// listed move is a stored move of that travel, and each stored move of that
/// travel is listed.
pub proof fn lemma_moves_of_ordered(state: StoreState, travel_id: Seq<char>)
    requires
        state.wf(),
    ensures
        forall|a: int, b: int|
            0 <= a < b < state.moves_of(travel_id).len() ==> (#[trigger] state.moves_of(
                travel_id,
            )[a]).start_timestamp <= (#[trigger] state.moves_of(travel_id)[b]).start_timestamp,
        forall|m: Move|
            state.moves_of(travel_id).contains(m) <==> state.moves.contains(m) && m.travel_id@
                == travel_id,
{
    let of_travel = move_of(travel_id);
    let listed = state.moves_of(travel_id);
    let by_start = |a: Move, b: Move| a.start_timestamp <= b.start_timestamp;
    lemma_filter_keeps_order(state.moves, of_travel, by_start);
    lemma_filter_members(state.moves, of_travel);
    assert forall|a: int, b: int| 0 <= a < b < listed.len() implies (
    #[trigger] listed[a]).start_timestamp <= (#[trigger] listed[b]).start_timestamp by {
        assert(by_start(listed[a], listed[b]));
    }
    assert forall|m: Move| listed.contains(m) <==> state.moves.contains(m) && m.travel_id@
        == travel_id by {
        if listed.contains(m) {
            let k = choose|k: int| 0 <= k < listed.len() && listed[k] == m;
            assert(of_travel(listed[k]));
        }
        if state.moves.contains(m) && m.travel_id@ == travel_id {
            let k = choose|k: int| 0 <= k < state.moves.len() && state.moves[k] == m;
            state.moves.lemma_filter_contains(of_travel, k);
        }
    }
}

/// The fixes of a span are listed in the order of their timestamps, no two
/// at one instant; each listed fix is a stored fix within the span, and each
/// stored fix within the span is listed.
pub proof fn lemma_fixes_within_ordered(state: StoreState, span: Move)
    requires
        state.wf(),
    ensures
        forall|a: int, b: int|
            0 <= a < b < state.fixes_within(span).len() ==> (#[trigger] state.fixes_within(
                span,
            )[a]).timestamp < (#[trigger] state.fixes_within(span)[b]).timestamp,
        forall|g: Geolocation|
            state.fixes_within(span).contains(g) <==> state.fixes.contains(g) && span.covers(
                g.timestamp,
            ),
{
    let within = taken_within(span);
    let listed = state.fixes_within(span);
    let by_time = |a: Geolocation, b: Geolocation| a.timestamp < b.timestamp;
    lemma_filter_keeps_order(state.fixes, within, by_time);
    lemma_filter_members(state.fixes, within);
    assert forall|a: int, b: int| 0 <= a < b < listed.len() implies (#[trigger] listed[a]).timestamp
        < (#[trigger] listed[b]).timestamp by {
        assert(by_time(listed[a], listed[b]));
    }
    assert forall|g: Geolocation| listed.contains(g) <==> state.fixes.contains(g) && span.covers(
        g.timestamp,
    ) by {
        if listed.contains(g) {
            let k = choose|k: int| 0 <= k < listed.len() && listed[k] == g;
            assert(within(listed[k]));
        }
        if state.fixes.contains(g) && span.covers(g.timestamp) {
            let k = choose|k: int| 0 <= k < state.fixes.len() && state.fixes[k] == g;
            state.fixes.lemma_filter_contains(within, k);
        }
    }
}

/// A move cannot end before it starts.
pub proof fn lemma_end_before_start_refused(state: StoreState, move_id: Seq<char>, end: Timestamp)
    requires
        state.wf(),
        state.has_move(move_id),
        end < state.move_by_id(move_id).start_timestamp,
    ensures
        state.end_move_error(move_id, end) == Some(StoreError::InvalidInterval),
{
}

/// A move ends once: after it has ended, every further end that is not
/// before its start is refused because the move has ended already. The end
/// that was just set is such an end.
pub proof fn lemma_second_end_refused(
    state: StoreState,
    move_id: Seq<char>,
    end: Timestamp,
    again: Timestamp,
)
    requires
        state.wf(),
        state.end_move_error(move_id, end) is None,
        again >= state.move_by_id(move_id).start_timestamp,
    ensures
        state.with_move_ended(move_id, end).end_move_error(move_id, again) == Some(
            StoreError::AlreadyEnded,
        ),
        state.with_move_ended(move_id, end).end_move_error(move_id, end) == Some(
            StoreError::AlreadyEnded,
        ),
{
    let next = state.with_move_ended(move_id, end);
    lemma_with_move_ended_wf(state, move_id, end);
    let i = choose|i: int| 0 <= i < state.moves.len() && (#[trigger] state.moves[i]).move_id@
        == move_id;
    lemma_move_unique(state, i);
    assert(next.moves[i].move_id@ == move_id);
    lemma_move_unique(next, i);
}

/// A fix off the globe is refused, whatever the store holds.
pub proof fn lemma_out_of_range_refused(state: StoreState, fix: Geolocation)
    requires
        !coordinates_in_range(fix.latitude_e7, fix.longitude_e7),
    ensures
        state.record_geolocation_error(fix) == Some(StoreError::OutOfRange),
{
}

/// After a fix has been recorded, a lookup at its instant finds exactly
/// that fix, and every further fix at that instant is refused.
pub proof fn lemma_recorded_fix_is_found(state: StoreState, fix: Geolocation, again: Geolocation)
    requires
        state.wf(),
        state.record_geolocation_error(fix) is None,
        again.timestamp == fix.timestamp,
        coordinates_in_range(again.latitude_e7, again.longitude_e7),
    ensures
        state.with_fix(fix).has_fix(fix.timestamp),
        state.with_fix(fix).fix_at(fix.timestamp) == fix,
        state.with_fix(fix).record_geolocation_error(again) == Some(
            StoreError::DuplicateTimestamp,
        ),
{
    let next = state.with_fix(fix);
    let at = state.fixes.filter(taken_before(fix.timestamp)).len() as int;
    lemma_with_fix_wf(state, fix);
    assert(next.fixes[at] == fix);
    lemma_fix_unique(next, at);
}

/// Deleting a travel takes the travel and its moves and nothing else: the
/// other travels and the fixes stay.
pub proof fn lemma_deleted_travel_is_gone(state: StoreState, id: Seq<char>)
    requires
        state.wf(),
    ensures
        !state.without_travel(id).has_travel(id),
        state.without_travel(id).moves_of(id) == Seq::<Move>::empty(),
        state.without_travel(id).fixes == state.fixes,
        forall|other: Seq<char>|
            other != id ==> (#[trigger] state.without_travel(id).has_travel(other)
                == state.has_travel(other)),
{
    let next = state.without_travel(id);
    lemma_filter_members(state.travels, travel_other_than(id));
    lemma_filter_members(state.moves, move_outside(id));
    assert forall|k: int| 0 <= k < next.moves.len() implies (move_of(id)(#[trigger] next.moves[k])
        <==> 0 <= k < 0) by {
        assert(move_outside(id)(next.moves[k]));
    }
    lemma_filter_is_range(next.moves, move_of(id), 0, 0);
    assert(next.moves.subrange(0, 0) =~= Seq::<Move>::empty());
    if next.has_travel(id) {
        let k = choose|k: int|
            0 <= k < next.travels.len() && (#[trigger] next.travels[k]).id@ == id;
        assert(travel_other_than(id)(next.travels[k]));
    }
    assert forall|other: Seq<char>| other != id implies (#[trigger] next.has_travel(other)
        == state.has_travel(other)) by {
        if state.has_travel(other) {
            let k = choose|k: int|
                0 <= k < state.travels.len() && (#[trigger] state.travels[k]).id@ == other;
            state.travels.lemma_filter_contains(travel_other_than(id), k);
            let j = choose|j: int|
                0 <= j < next.travels.len() && next.travels[j] == state.travels[k];
            assert(next.travels[j].id@ == other);
        }
        if next.has_travel(other) {
            let j = choose|j: int|
                0 <= j < next.travels.len() && (#[trigger] next.travels[j]).id@ == other;
            assert(state.travels.contains(next.travels[j]));
            let k = choose|k: int|
                0 <= k < state.travels.len() && state.travels[k] == next.travels[j];
            assert(state.travels[k].id@ == other);
        }
    }
}

/// Running a list of migrations a second time changes nothing: none of
/// them is left to run, the marker stays, and the rows stay as the first run
/// left them, which is as they were.
pub proof fn lemma_migrations_idempotent(state: StoreState, versions: Seq<i64>)
    requires
        strictly_increasing(versions),
    ensures
        state.migrated(versions).migrated(versions) == state.migrated(versions),
        pending(versions, state.migrated(versions).schema_version).len() == 0,
        state.same_rows(state.migrated(versions)),
{
    lemma_nothing_pending_after(versions, state.schema_version);
}

} // verus!
