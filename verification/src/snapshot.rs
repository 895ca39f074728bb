//! The content of a store as plain rows, for whoever keeps it on disk, and
//! the test that tells whether such rows can be a store's content.

use vstd::prelude::*;
use crate::model::{Geolocation, Move, Travel, check_coordinates, coordinates_in_range};
use crate::state::{SCHEMA_VERSION, StoreState};

verus! {

/// Everything that a store holds, as it is written to and read from durable
/// storage. Rows that were read back may have been tampered with or
/// damaged: `is_valid` tells whether they still make up a store.
pub struct Snapshot {
    pub schema_version: i64,
    pub next_travel_number: u64,
    pub next_move_number: u64,
    pub travels: Vec<Travel>,
    pub moves: Vec<Move>,
    pub fixes: Vec<Geolocation>,
}

impl View for Snapshot {
    type V = StoreState;

    open spec fn view(&self) -> StoreState {
        StoreState {
            schema_version: self.schema_version,
            next_travel_number: self.next_travel_number,
            next_move_number: self.next_move_number,
            travels: self.travels@,
            moves: self.moves@,
            fixes: self.fixes@,
        }
    }
}

impl Snapshot {
    fn has_travel(&self, id: &String) -> (found: bool)
        ensures
            found == self@.has_travel(id@),
    {
        let mut i: usize = 0;
        while i < self.travels.len()
            invariant
                i <= self.travels.len(),
                forall|k: int| 0 <= k < i ==> (#[trigger] self@.travels[k]).id@ != id@,
            decreases self.travels.len() - i,
        {
            if self.travels[i].id == *id {
                assert(self@.travels[i as int].id@ == id@);
                return true;
            }
            i += 1;
        }
        false
    }

    fn travel_ids_distinct(&self) -> (ok: bool)
        ensures
            ok == (forall|i: int, j: int|
                0 <= i < j < self@.travels.len() ==> (#[trigger] self@.travels[i]).id@ != (
                #[trigger] self@.travels[j]).id@),
    {
        let mut j: usize = 0;
        while j < self.travels.len()
            invariant
                j <= self.travels.len(),
                forall|a: int, b: int|
                    0 <= a < b < j ==> (#[trigger] self@.travels[a]).id@ != (
                    #[trigger] self@.travels[b]).id@,
            decreases self.travels.len() - j,
        {
            let mut i: usize = 0;
            while i < j
                invariant
                    i <= j < self.travels.len(),
                    forall|a: int|
                        0 <= a < i ==> (#[trigger] self@.travels[a]).id@
                            != self@.travels[j as int].id@,
                decreases j - i,
            {
                if self.travels[i].id == self.travels[j].id {
                    assert(self@.travels[i as int].id@ == self@.travels[j as int].id@);
                    return false;
                }
                i += 1;
            }
            j += 1;
        }
        true
    }

    fn move_ids_distinct(&self) -> (ok: bool)
        ensures
            ok == (forall|i: int, j: int|
                0 <= i < j < self@.moves.len() ==> (#[trigger] self@.moves[i]).move_id@ != (
                #[trigger] self@.moves[j]).move_id@),
    {
        let mut j: usize = 0;
        while j < self.moves.len()
            invariant
                j <= self.moves.len(),
                forall|a: int, b: int|
                    0 <= a < b < j ==> (#[trigger] self@.moves[a]).move_id@ != (
                    #[trigger] self@.moves[b]).move_id@,
            decreases self.moves.len() - j,
        {
            let mut i: usize = 0;
            while i < j
                invariant
                    i <= j < self.moves.len(),
                    forall|a: int|
                        0 <= a < i ==> (#[trigger] self@.moves[a]).move_id@
                            != self@.moves[j as int].move_id@,
                decreases j - i,
            {
                if self.moves[i].move_id == self.moves[j].move_id {
                    assert(self@.moves[i as int].move_id@ == self@.moves[j as int].move_id@);
                    return false;
                }
                i += 1;
            }
            j += 1;
        }
        true
    }

    fn moves_in_order(&self) -> (ok: bool)
        ensures
            ok == (forall|i: int, j: int|
                0 <= i < j < self@.moves.len() ==> (#[trigger] self@.moves[i]).start_timestamp <= (
                #[trigger] self@.moves[j]).start_timestamp),
    {
        let mut j: usize = 1;
        while j < self.moves.len()
            invariant
                1 <= j,
                forall|a: int, b: int|
                    0 <= a < b < j && b < self@.moves.len() ==> (
                    #[trigger] self@.moves[a]).start_timestamp <= (
                    #[trigger] self@.moves[b]).start_timestamp,
            decreases self.moves.len() - j,
        {
            if self.moves[j - 1].start_timestamp > self.moves[j].start_timestamp {
                assert(self@.moves[j - 1].start_timestamp > self@.moves[j as int].start_timestamp);
                return false;
            }
            assert forall|a: int, b: int| 0 <= a < b < j + 1 && b < self@.moves.len() implies (
            #[trigger] self@.moves[a]).start_timestamp <= (
            #[trigger] self@.moves[b]).start_timestamp by {
                if b == j && a < j - 1 {
                    assert(self@.moves[a].start_timestamp <= self@.moves[j - 1].start_timestamp);
                }
            }
            j += 1;
        }
        true
    }

    fn moves_sound(&self) -> (ok: bool)
        ensures
            ok == (forall|i: int|
                0 <= i < self@.moves.len() ==> (#[trigger] self@.moves[i]).interval_valid()
                    && self@.has_travel(self@.moves[i].travel_id@)),
    {
        let mut i: usize = 0;
        while i < self.moves.len()
            invariant
                i <= self.moves.len(),
                forall|k: int|
                    0 <= k < i ==> (#[trigger] self@.moves[k]).interval_valid()
                        && self@.has_travel(self@.moves[k].travel_id@),
            decreases self.moves.len() - i,
        {
            let ends_in_time = match self.moves[i].end_timestamp {
                Some(end) => self.moves[i].start_timestamp <= end,
                None => true,
            };
            if !ends_in_time || !self.has_travel(&self.moves[i].travel_id) {
                assert(!(self@.moves[i as int].interval_valid() && self@.has_travel(
                    self@.moves[i as int].travel_id@,
                )));
                return false;
            }
            i += 1;
        }
        true
    }

    fn fixes_in_order(&self) -> (ok: bool)
        ensures
            ok == (forall|i: int, j: int|
                0 <= i < j < self@.fixes.len() ==> (#[trigger] self@.fixes[i]).timestamp < (
                #[trigger] self@.fixes[j]).timestamp),
    {
        let mut j: usize = 1;
        while j < self.fixes.len()
            invariant
                1 <= j,
                forall|a: int, b: int|
                    0 <= a < b < j && b < self@.fixes.len() ==> (
                    #[trigger] self@.fixes[a]).timestamp < (
                    #[trigger] self@.fixes[b]).timestamp,
            decreases self.fixes.len() - j,
        {
            if self.fixes[j - 1].timestamp >= self.fixes[j].timestamp {
                assert(self@.fixes[j - 1].timestamp >= self@.fixes[j as int].timestamp);
                return false;
            }
            assert forall|a: int, b: int| 0 <= a < b < j + 1 && b < self@.fixes.len() implies (
            #[trigger] self@.fixes[a]).timestamp < (#[trigger] self@.fixes[b]).timestamp by {
                if b == j && a < j - 1 {
                    assert(self@.fixes[a].timestamp < self@.fixes[j - 1].timestamp);
                }
            }
            j += 1;
        }
        true
    }

    fn fixes_on_globe(&self) -> (ok: bool)
        ensures
            ok == (forall|i: int|
                0 <= i < self@.fixes.len() ==> coordinates_in_range(
                    (#[trigger] self@.fixes[i]).latitude_e7,
                    self@.fixes[i].longitude_e7,
                )),
    {
        let mut i: usize = 0;
        while i < self.fixes.len()
            invariant
                i <= self.fixes.len(),
                forall|k: int|
                    0 <= k < i ==> coordinates_in_range(
                        (#[trigger] self@.fixes[k]).latitude_e7,
                        self@.fixes[k].longitude_e7,
                    ),
            decreases self.fixes.len() - i,
        {
            if !check_coordinates(self.fixes[i].latitude_e7, self.fixes[i].longitude_e7) {
                assert(!coordinates_in_range(
                    self@.fixes[i as int].latitude_e7,
                    self@.fixes[i as int].longitude_e7,
                ));
                return false;
            }
            i += 1;
        }
        true
    }

    /// Tests whether the rows can be the content of a store.
    pub fn is_valid(&self) -> (ok: bool)
        ensures
            ok == self@.wf(),
    {
        if self.schema_version < 0 {
            return false;
        }
        if self.schema_version < SCHEMA_VERSION && (self.travels.len() > 0 || self.moves.len() > 0
            || self.fixes.len() > 0) {
            return false;
        }
        self.travel_ids_distinct() && self.move_ids_distinct() && self.moves_in_order()
            && self.moves_sound() && self.fixes_in_order() && self.fixes_on_globe()
    }
}

} // verus!
