//! Between the board in memory and its stored forms.
//!
//! The version of a stored board or event is written once, at the head of
//! the file that holds it. `CURRENT_VERSION` is the version of everything
//! that is written now; older versions are still read and brought to the
//! form in memory.

use crate::board::common::{Board as LiveBoard, BoardObject, BoardView, Image};
use crate::board::common::keys_of;
use crate::store::codec::{decode_board, decode_event, decoded_board, decoded_event};
use crate::store::error::StoreError;
use crate::store::event_store::{
    file_view, files_view, loads_view, store_headed, store_loads, EventStore, Load, LoadView,
    StateBuilder,
};
use crate::store::v1::{BoardV1, BoardV1View, EventV1, Object};
use std::collections::HashMap;
use vstd::prelude::*;

verus! {

/// The version of the stored forms that are written now.
pub const CURRENT_VERSION: u64 = 1;

pub type EventLatest = EventV1;

pub type BoardLatest = BoardV1;

/// The stored forms that can be read, one for each version.
#[derive(Clone, Copy, Debug, PartialEq, Eq, Structural)]
pub enum Schema {
    V1,
}

/// The stored form that belongs to a version.
pub fn schema_of(version: u64) -> (schema: Result<Schema, StoreError>)
    ensures
        schema == (if version == 1 {
            Ok::<Schema, StoreError>(Schema::V1)
        } else {
            Err::<Schema, StoreError>(StoreError::UnsupportedVersion { version })
        }),
{
    if version == 1 {
        Ok(Schema::V1)
    } else {
        Err(StoreError::UnsupportedVersion { version })
    }
}

/// A stored event of any version.
#[derive(Clone, Debug)]
pub enum Event {
    V1(EventV1),
}

/// A stored board of any version.
#[derive(Clone, Debug)]
pub enum Board {
    V1(BoardV1),
}

/// The stored form of an object.
pub open spec fn stored_object(object: BoardObject<u64>) -> Object {
    match object {
        BoardObject::Image(image) => Object::Image {
            x: image.x,
            y: image.y,
            texture_id: image.texture,
        },
        BoardObject::Line => Object::Line,
    }
}

/// The object that is stored as `object` under the name `id`.
pub open spec fn restored_object(id: u64, object: Object) -> BoardObject<u64> {
    match object {
        Object::Image { x, y, texture_id } => BoardObject::Image(
            Image { id, x, y, texture: texture_id },
        ),
        Object::Line => BoardObject::Line,
    }
}

/// The stored form of a board.
pub open spec fn stored(board: BoardView) -> BoardV1View {
    BoardV1View {
        textures: board.textures,
        objects: Map::new(
            |id: u64| board.objects.contains_key(id),
            |id: u64| stored_object(board.objects[id]),
        ),
    }
}

/// The board that is stored as `board`.
pub open spec fn restored(board: BoardV1View) -> BoardView {
    BoardView {
        textures: board.textures,
        objects: Map::new(
            |id: u64| board.objects.contains_key(id),
            |id: u64| restored_object(id, board.objects[id]),
        ),
    }
}

/// Brings a board to its stored form.
pub fn convert_board(board: LiveBoard<u64>) -> (converted: BoardLatest)
    ensures
        converted@ == stored(board@),
{
    let ids = keys_of(&board.objects);
    let mut objects: HashMap<u64, Object> = HashMap::new();
    let mut i: usize = 0;
    while i < ids.len()
        invariant
            i <= ids.len(),
            ids@.to_set() == board.objects@.dom(),
            forall|id: u64|
                objects@.contains_key(id) <==> exists|j: int| 0 <= j < i && ids@[j] == id,
            forall|id: u64|
                objects@.contains_key(id) ==> board.objects@.contains_key(id) && objects@[id]
                    == stored_object(board.objects@[id]),
        decreases ids.len() - i,
    {
        let id = ids[i];
        assert(ids@.to_set().contains(id));
        let ghost before = objects@;
        match board.objects.get(&id) {
            Some(BoardObject::Image(image)) => {
                objects.insert(id, Object::Image { x: image.x, y: image.y, texture_id: image.texture });
            },
            Some(BoardObject::Line) => {
                objects.insert(id, Object::Line);
            },
            None => {},
        }
        proof {
            assert forall|other: u64|
                objects@.contains_key(other) <==> exists|j: int|
                    0 <= j < i + 1 && ids@[j] == other by {
                if other == id {
                    assert(0 <= i < i + 1 && ids@[i as int] == other);
                } else if before.contains_key(other) {
                    let j = choose|j: int| 0 <= j < i && ids@[j] == other;
                    assert(0 <= j < i + 1 && ids@[j] == other);
                } else if exists|j: int| 0 <= j < i + 1 && ids@[j] == other {
                    let j = choose|j: int| 0 <= j < i + 1 && ids@[j] == other;
                    assert(0 <= j < i && ids@[j] == other);
                }
            }
        }
        i = i + 1;
    }
    let converted = BoardV1 { textures: board.textures, objects };
    proof {
        assert forall|id: u64| board.objects@.contains_key(id) implies objects@.contains_key(id) by {
            assert(ids@.to_set().contains(id));
            let j = choose|j: int| 0 <= j < ids@.len() && ids@[j] == id;
            assert(0 <= j < i && ids@[j] == id);
        }
        assert(converted@.objects =~= stored(board@).objects);
        assert(converted@.textures =~= stored(board@).textures);
    }
    converted
}

/// Builds a board from what is read from storage: a stored board to begin
/// with, if there is one, and the stored events that followed it.
pub struct BoardLoader {
    board: BoardV1,
}

impl View for BoardLoader {
    type V = BoardV1View;

    closed spec fn view(&self) -> BoardV1View {
        self.board@
    }
}

impl BoardLoader {
    /// A loader that has read nothing: its board is empty.
    pub fn new() -> (loader: BoardLoader)
        ensures
            loader@ == BoardV1View::empty(),
    {
        BoardLoader { board: BoardV1::new() }
    }

    /// The board that was read, in the form in memory. An image has the
    /// name that it was stored under.
    pub fn get_board(self) -> (board: LiveBoard<u64>)
        ensures
            board@ == restored(self@),
    {
        let ids = keys_of(&self.board.objects);
        let mut objects: HashMap<u64, BoardObject<u64>> = HashMap::new();
        let mut i: usize = 0;
        while i < ids.len()
            invariant
                i <= ids.len(),
                ids@.to_set() == self.board.objects@.dom(),
                forall|id: u64|
                    objects@.contains_key(id) <==> exists|j: int| 0 <= j < i && ids@[j] == id,
                forall|id: u64|
                    objects@.contains_key(id) ==> self.board.objects@.contains_key(id) && objects@[id]
                        == restored_object(id, self.board.objects@[id]),
            decreases ids.len() - i,
        {
            let id = ids[i];
            assert(ids@.to_set().contains(id));
            let ghost before = objects@;
            match self.board.objects.get(&id) {
                Some(Object::Image { x, y, texture_id }) => {
                    objects.insert(
                        id,
                        BoardObject::Image(Image { id, x: *x, y: *y, texture: *texture_id }),
                    );
                },
                Some(Object::Line) => {
                    objects.insert(id, BoardObject::Line);
                },
                None => {},
            }
            proof {
                assert forall|other: u64|
                    objects@.contains_key(other) <==> exists|j: int|
                        0 <= j < i + 1 && ids@[j] == other by {
                    if other == id {
                        assert(0 <= i < i + 1 && ids@[i as int] == other);
                    } else if before.contains_key(other) {
                        let j = choose|j: int| 0 <= j < i && ids@[j] == other;
                        assert(0 <= j < i + 1 && ids@[j] == other);
                    } else if exists|j: int| 0 <= j < i + 1 && ids@[j] == other {
                        let j = choose|j: int| 0 <= j < i + 1 && ids@[j] == other;
                        assert(0 <= j < i && ids@[j] == other);
                    }
                }
            }
            i = i + 1;
        }
        proof {
            assert forall|id: u64| self.board.objects@.contains_key(id) implies objects@.contains_key(
                id,
            ) by {
                assert(ids@.to_set().contains(id));
                let j = choose|j: int| 0 <= j < ids@.len() && ids@[j] == id;
                assert(0 <= j < i && ids@[j] == id);
            }
        }
        let board = LiveBoard { textures: self.board.textures, objects };
        assert(board@.objects =~= restored(self@).objects);
        assert(board@.textures =~= restored(self@).textures);
        board
    }

    /// Begins anew with a stored board.
    pub fn load_board(&mut self, board: Board)
        ensures
            board matches Board::V1(b) && final(self)@ == b@,
    {
        match board {
            Board::V1(b) => {
                self.board = b;
            },
        }
    }

    /// Takes up a stored event.
    pub fn load_board_event(&mut self, event: Event)
        ensures
            event matches Event::V1(e) && final(self)@ == old(self)@.apply_event(e@),
    {
        match event {
            Event::V1(e) => self.board.apply_event(e),
        }
    }
}

/// A board comes back from its stored form as it was, provided each of its
/// images is held under the image's own name.
pub proof fn lemma_stored_board_comes_back(board: BoardView)
    requires
        forall|id: u64| #[trigger]
            board.objects.contains_key(id) ==> (board.objects[id] matches BoardObject::Image(image)
                ==> image.id == id),
    ensures
        restored(stored(board)) == board,
{
    assert(restored(stored(board)).objects =~= board.objects);
}

/// What becomes of a loader's board when it is handed the payload of a
/// snapshot: with a known version and a payload in its stored form, the
/// board that the payload holds; else an error, and the board stays.
pub open spec fn state_loaded(board: BoardV1View, version: u64, data: Seq<u8>) -> (
    BoardV1View,
    Option<StoreError>,
) {
    if version != 1 {
        (board, Some(StoreError::UnsupportedVersion { version }))
    } else {
        match decoded_board(data) {
            Some(read) => (read, None),
            None => (board, Some(StoreError::Malformed)),
        }
    }
}

/// What becomes of a loader's board when it is handed records, one after
/// the other: each record that holds an event in the stored form of the
/// version is taken up; at the first that does not, or at once if the
/// version is not known, the loader stops with an error.
pub open spec fn records_loaded(board: BoardV1View, version: u64, records: Seq<Seq<u8>>) -> (
    BoardV1View,
    Option<StoreError>,
)
    decreases records.len(),
{
    if records.len() == 0 {
        (board, None)
    } else if version != 1 {
        (board, Some(StoreError::UnsupportedVersion { version }))
    } else {
        match decoded_event(records.first()) {
            Some(event) => records_loaded(board.apply_event(event), version, records.drop_first()),
            None => (board, Some(StoreError::Malformed)),
        }
    }
}

/// The result that goes with an outcome of loading.
pub open spec fn load_result(error: Option<StoreError>) -> Result<(), StoreError> {
    match error {
        Some(error) => Err(error),
        None => Ok(()),
    }
}

/// What becomes of a loader's board when it is handed one load.
pub open spec fn load_taken(board: BoardV1View, load: LoadView) -> (BoardV1View, Option<StoreError>) {
    match load {
        LoadView::State { version, data } => state_loaded(board, version, data),
        LoadView::Event { version, data } => records_loaded(board, version, seq![data]),
    }
}

/// What becomes of a loader's board when it is handed loads, one after the
/// other, up to the first that ends in an error.
pub open spec fn taken(board: BoardV1View, loads: Seq<LoadView>) -> (BoardV1View, Option<StoreError>)
    decreases loads.len(),
{
    if loads.len() == 0 {
        (board, None)
    } else {
        let (next, error) = load_taken(board, loads.first());
        if error is Some {
            (next, error)
        } else {
            taken(next, loads.drop_first())
        }
    }
}

/// What becomes of a loader's board when it is handed what a store holds:
/// the loads that the store lists, and `MissingHeader` at the end if a file
/// has no version.
pub open spec fn store_loaded(board: BoardV1View, snapshot: Option<Seq<u8>>, segments: Seq<Seq<u8>>) -> (
    BoardV1View,
    Option<StoreError>,
) {
    let (next, error) = taken(board, store_loads(snapshot, segments));
    if error is Some {
        (next, error)
    } else if store_headed(snapshot, segments) {
        (next, None)
    } else {
        (next, Some(StoreError::MissingHeader))
    }
}

impl BoardLoader {
    /// Takes up the payload of a snapshot; see `state_loaded`.
    pub fn load_snapshot(&mut self, version: u64, data: &[u8]) -> (result: Result<(), StoreError>)
        ensures
            final(self)@ == state_loaded(old(self)@, version, data@).0,
            result == load_result(state_loaded(old(self)@, version, data@).1),
    {
        match schema_of(version) {
            Ok(Schema::V1) => match decode_board(data) {
                Some(board) => {
                    self.load_board(Board::V1(board));
                    Ok(())
                },
                None => Err(StoreError::Malformed),
            },
            Err(error) => Err(error),
        }
    }

    /// Takes up one record of a segment; see `records_loaded`.
    pub fn load_record(&mut self, version: u64, data: &[u8]) -> (result: Result<(), StoreError>)
        ensures
            final(self)@ == records_loaded(old(self)@, version, seq![data@]).0,
            result == load_result(records_loaded(old(self)@, version, seq![data@]).1),
    {
        proof {
            let one = seq![data@];
            assert(one.first() == data@);
            assert(one.drop_first() =~= Seq::<Seq<u8>>::empty());
            if version == 1 && decoded_event(data@) is Some {
                let next = old(self)@.apply_event(decoded_event(data@)->0);
                assert(records_loaded(next, version, one.drop_first()) == (next, None::<StoreError>));
            }
        }
        match schema_of(version) {
            Ok(Schema::V1) => match decode_event(data) {
                Some(event) => {
                    self.load_board_event(Event::V1(event));
                    Ok(())
                },
                None => Err(StoreError::Malformed),
            },
            Err(error) => Err(error),
        }
    }

    /// Takes up what a store hands over: the payload of a snapshot as
    /// `load_snapshot` does, a record as `load_record` does.
    pub fn load(&mut self, load: &Load) -> (result: Result<(), StoreError>)
        ensures
            final(self)@ == load_taken(old(self)@, load@).0,
            result == load_result(load_taken(old(self)@, load@).1),
    {
        match load {
            Load::State { version, data } => self.load_snapshot(*version, data.as_slice()),
            Load::Event { version, data } => self.load_record(*version, data.as_slice()),
        }
    }

    /// Takes up what a store hands over, one load after the other, up to the
    /// first that ends in an error; what was taken up before stays.
    pub fn load_all(&mut self, loads: &Vec<Load>) -> (result: Result<(), StoreError>)
        ensures
            final(self)@ == taken(old(self)@, loads_view(loads@)).0,
            result == load_result(taken(old(self)@, loads_view(loads@)).1),
    {
        let ghost all = loads_view(loads@);
        let mut i: usize = 0;
        assert(all.skip(0) =~= all);
        while i < loads.len()
            invariant
                i <= loads@.len(),
                all == loads_view(loads@),
                taken(old(self)@, all) == taken(self@, all.skip(i as int)),
            decreases loads.len() - i,
        {
            let ghost left = all.skip(i as int);
            proof {
                assert(left.first() == loads@[i as int]@);
                assert(left.drop_first() =~= all.skip(i + 1));
            }
            match self.load(&loads[i]) {
                Ok(()) => {},
                Err(error) => {
                    return Err(error);
                },
            }
            i = i + 1;
        }
        assert(all.skip(all.len() as int) =~= Seq::<LoadView>::empty());
        Ok(())
    }

    /// Takes up what a store holds: the newest snapshot, if there is one,
    /// and then the segments to replay, in their order, as
    /// `EventStore::replay` lists them. The loader stops at the first load
    /// that ends in an error; what it took up before stays. A file too short
    /// to hold a version ends the replay with `MissingHeader`, after what
    /// stands before it was taken up.
    pub fn replay(&mut self, snapshot: Option<&Vec<u8>>, segments: &Vec<Vec<u8>>) -> (result: Result<
        (),
        StoreError,
    >)
        ensures
            final(self)@ == store_loaded(old(self)@, file_view(snapshot), files_view(segments@)).0,
            result == load_result(
                store_loaded(old(self)@, file_view(snapshot), files_view(segments@)).1,
            ),
    {
        let replay = EventStore::replay(snapshot, segments);
        match self.load_all(&replay.loads) {
            Ok(()) => match replay.error {
                Some(error) => Err(error),
                None => Ok(()),
            },
            Err(error) => Err(error),
        }
    }
}

impl StateBuilder for BoardLoader {
    /// Takes up the payload of a snapshot; see `state_loaded`.
    fn load_state(&mut self, version: u64, data: Vec<u8>) -> (result: Result<(), StoreError>)
        ensures
            final(self)@ == state_loaded(old(self)@, version, data@).0,
            result == load_result(state_loaded(old(self)@, version, data@).1),
    {
        self.load_snapshot(version, data.as_slice())
    }

    /// Takes up one record of a segment; see `records_loaded`.
    fn load_event(&mut self, version: u64, data: Vec<u8>) -> (result: Result<(), StoreError>)
        ensures
            final(self)@ == records_loaded(old(self)@, version, seq![data@]).0,
            result == load_result(records_loaded(old(self)@, version, seq![data@]).1),
    {
        self.load_record(version, data.as_slice())
    }
}

} // verus!
