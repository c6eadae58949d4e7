//! Making a board durable: the stored form of a board and of its events,
//! the loader that brings a stored board back, the layout of the files that
//! hold them, and the bookkeeping of the event log.

pub mod codec;
pub mod error;
pub mod event_store;
pub mod names;
pub mod serialization;
pub mod v1;
pub mod wal;

use crate::board::common::{Board, BoardActionView, BoardObject, BoardView, Texture, TextureView};
use crate::board::global_board::{run_state, run_valid, GlobalBoardView, PlacedImageView, Step};
use crate::store::codec::{
    decoded_board, decoded_event, enc_board, enc_event, encode_board, encode_event,
    lemma_event_round_trip,
    sorted_entries,
};
use crate::store::error::StoreError;
use crate::store::serialization::{
    convert_board, lemma_stored_board_comes_back, load_taken, records_loaded, restored,
    state_loaded, store_loaded, stored, taken, BoardLatest, EventLatest, CURRENT_VERSION,
};
use crate::store::event_store::{
    lemma_written_loads, segment_loads, segments_loads, snapshot_load, store_headed, store_loads,
    LoadView,
};
use crate::store::v1::lemma_replay_twice;
use crate::store::v1::{BoardV1View, EventV1, EventV1View};
use crate::store::wal::{
    body_in, lemma_segment_round_trip, lemma_snapshot_round_trip, records_in, segment_of, snapshot_of,
    version_in,
};
use vstd::prelude::*;

verus! {

/// Writes boards and events to a store, in their current stored form. The
/// store itself is whatever its owner makes of it.
pub struct BoardStore<S> {
    pub store: S,
}

impl<S> BoardStore<S> {
    pub fn new(store: S) -> (board_store: BoardStore<S>)
        ensures
            board_store.store == store,
    {
        BoardStore { store }
    }

    /// The record to append to the log for an event.
    pub fn apply_event(&self, event: &EventLatest) -> (record: Vec<u8>)
        ensures
            record@ == enc_event(event@),
    {
        encode_event(event)
    }

    /// The payload of a snapshot of a board: its written form, which is
    /// read back as the board.
    pub fn snapshot(&self, board: &BoardLatest) -> (payload: Vec<u8>)
        ensures
            payload@ == enc_board(sorted_entries(board@.textures), sorted_entries(board@.objects)),
            decoded_board(payload@) == Some(board@),
    {
        encode_board(board)
    }
}

/// The stored event that records a placed image.
pub open spec fn event_of(placed: PlacedImageView) -> EventV1View {
    EventV1View::NewImage { id: placed.id, x: placed.x, y: placed.y, texture: placed.texture }
}

/// Follows the server's board and turns what happens on it into what is to
/// be stored.
pub struct StoringObserver<S> {
    store: BoardStore<S>,
}

impl<S> StoringObserver<S> {
    pub closed spec fn store(&self) -> S {
        self.store.store
    }

    pub fn new(store: S) -> (observer: StoringObserver<S>)
        ensures
            observer.store() == store,
    {
        StoringObserver { store: BoardStore::new(store) }
    }

    /// The store, to write to.
    pub fn get_store_mut(&mut self) -> (store: &mut S)
        ensures
            *store == old(self).store(),
            final(self).store() == *final(store),
    {
        &mut self.store.store
    }

    /// The stored form of a board, for a snapshot.
    pub fn snapshot(&self, board: Board<u64>) -> (converted: BoardLatest)
        ensures
            converted@ == stored(board@),
    {
        convert_board(board)
    }

    /// The event to store for an image that was placed on the board.
    pub fn new_image(&self, id: u64, x: u64, y: u64, texture: Texture<u64>) -> (event: EventLatest)
        ensures
            event@ == event_of(PlacedImageView { id, x, y, texture: texture@ }),
    {
        let texture = match texture {
            Texture::New { id, data } => crate::store::v1::Texture::New { id, data },
            Texture::Existing { id: tex_id } => crate::store::v1::Texture::Existing { id: tex_id },
        };
        EventV1::NewImage { id, x, y, texture }
    }
}

/// The events that are stored for the steps: one for each step that placed
/// an image, in order.
pub open spec fn run_log(state: GlobalBoardView, steps: Seq<Step>) -> Seq<EventV1View>
    decreases steps.len(),
{
    if steps.len() == 0 {
        Seq::empty()
    } else {
        let step = steps.last();
        let before = run_state(state, steps.drop_last());
        let earlier = run_log(state, steps.drop_last());
        match before.placed(step.action, step.resolved) {
            Some(placed) => earlier.push(event_of(placed)),
            None => earlier,
        }
    }
}

/// The stored board follows the server's board: taking up the event that is
/// stored for an action leads to the stored form of the board after the
/// action, and an action that is dropped leaves the stored form as it is.
pub proof fn lemma_event_follows_action(
    state: GlobalBoardView,
    client_id: u64,
    action: BoardActionView,
    resolved: Option<TextureView<u64>>,
)
    requires
        state.resolves(client_id, action.texture(), resolved),
    ensures
        stored(state.applied(client_id, action, resolved).board) == (match state.placed(
            action,
            resolved,
        ) {
            Some(placed) => stored(state.board).apply_event(event_of(placed)),
            None => stored(state.board),
        }),
{
    let after = stored(state.applied(client_id, action, resolved).board);
    match state.placed(action, resolved) {
        Some(placed) => {
            let expected = stored(state.board).apply_event(event_of(placed));
            assert(after.objects =~= expected.objects);
            assert(after.textures =~= expected.textures);
        },
        None => {
            assert(after.objects =~= stored(state.board).objects);
        },
    }
}

/// Replaying a log reconstructs the board: the stored form of a board,
/// followed by the events that were stored for the actions applied to it
/// since, yields the stored form of the board as it is after these actions.
/// With the empty board for a start this is the replay of a log alone.
pub proof fn lemma_replay_reconstructs(state: GlobalBoardView, steps: Seq<Step>)
    requires
        run_valid(state, steps),
    ensures
        stored(state.board).apply_events(run_log(state, steps)) == stored(
            run_state(state, steps).board,
        ),
    decreases steps.len(),
{
    if steps.len() > 0 {
        let step = steps.last();
        let before = run_state(state, steps.drop_last());
        let earlier = run_log(state, steps.drop_last());
        lemma_replay_reconstructs(state, steps.drop_last());
        lemma_event_follows_action(before, step.client_id, step.action, step.resolved);
        match before.placed(step.action, step.resolved) {
            Some(placed) => {
                let log = earlier.push(event_of(placed));
                assert(log.drop_last() =~= earlier);
                assert(log.last() == event_of(placed));
            },
            None => {},
        }
    }
}

/// Events can be replayed in parts: taking up one log and then another is
/// taking up the two joined.
pub proof fn lemma_replay_in_parts(board: BoardV1View, first: Seq<EventV1View>, second: Seq<EventV1View>)
    ensures
        board.apply_events(first + second) == board.apply_events(first).apply_events(second),
    decreases second.len(),
{
    if second.len() == 0 {
        assert(first + second =~= first);
    } else {
        lemma_replay_in_parts(board, first, second.drop_last());
        assert((first + second).drop_last() =~= first + second.drop_last());
        assert((first + second).last() == second.last());
    }
}

/// The records that are appended to the log for the events.
pub open spec fn records_of(events: Seq<EventV1View>) -> Seq<Seq<u8>> {
    Seq::new(events.len(), |i: int| enc_event(events[i]))
}

/// Whether each event, and its record, is short enough to be written.
pub open spec fn writable(events: Seq<EventV1View>) -> bool {
    forall|i: int|
        0 <= i < events.len() ==> (#[trigger] enc_event(events[i])).len() <= u32::MAX && (events[i] matches EventV1View::NewImage {
            id,
            x,
            y,
            texture,
        } && (texture matches TextureView::New { id: texture_id, data } ==> data.len() <= u64::MAX))
}

/// Taking up events from the first on is taking up the first and then the
/// others.
proof fn lemma_apply_events_front(board: BoardV1View, events: Seq<EventV1View>)
    requires
        events.len() > 0,
    ensures
        board.apply_events(events) == board.apply_event(events.first()).apply_events(
            events.drop_first(),
        ),
    decreases events.len(),
{
    if events.len() == 1 {
        assert(events.drop_last() =~= Seq::<EventV1View>::empty());
        assert(events.drop_first() =~= Seq::<EventV1View>::empty());
        assert(events.last() == events.first());
        assert(board.apply_events(events.drop_last()) == board);
    } else {
        lemma_apply_events_front(board, events.drop_last());
        assert(events.drop_last().first() == events.first());
        assert(events.drop_last().drop_first() =~= events.drop_first().drop_last());
        assert(events.drop_first().last() == events.last());
    }
}

/// The records of events, read back one after the other, are the events:
/// a loader that takes them up ends with the board after the events.
pub proof fn lemma_records_replay(board: BoardV1View, events: Seq<EventV1View>)
    requires
        writable(events),
    ensures
        records_loaded(board, CURRENT_VERSION, records_of(events)) == (
            board.apply_events(events),
            None::<StoreError>,
        ),
    decreases events.len(),
{
    let records = records_of(events);
    if events.len() > 0 {
        let first = events.first();
        assert(enc_event(events[0]).len() <= u32::MAX);
        lemma_event_round_trip(first, Seq::empty());
        assert(enc_event(first) + Seq::<u8>::empty() =~= enc_event(first));
        assert(records.first() == enc_event(first));
        assert(records.drop_first() =~= records_of(events.drop_first()));
        assert forall|i: int| 0 <= i < events.drop_first().len() implies (#[trigger] enc_event(
            events.drop_first()[i],
        )).len() <= u32::MAX && (events.drop_first()[i] matches EventV1View::NewImage {
            id,
            x,
            y,
            texture,
        } && (texture matches TextureView::New { id: texture_id, data } ==> data.len() <= u64::MAX)) by {
            assert(events.drop_first()[i] == events[i + 1]);
            assert(enc_event(events[i + 1]).len() <= u32::MAX);
        }
        lemma_records_replay(board.apply_event(first), events.drop_first());
        lemma_apply_events_front(board, events);
    }
}

/// A snapshot brings a board back: the file written for the stored form of
/// a board, read into any loader, leaves that loader with the stored form,
/// from which the board comes back as it was. (Each image of the board must
/// be held under the image's own name.)
pub proof fn lemma_snapshot_restores(board: BoardView, payload: Seq<u8>, loader: BoardV1View)
    requires
        forall|id: u64| #[trigger]
            board.objects.contains_key(id) ==> (board.objects[id] matches BoardObject::Image(image)
                ==> image.id == id),
        decoded_board(payload) == Some(stored(board)),
    ensures
        version_in(snapshot_of(CURRENT_VERSION, payload)) == Some(CURRENT_VERSION),
        state_loaded(loader, CURRENT_VERSION, body_in(snapshot_of(CURRENT_VERSION, payload))) == (
            stored(board),
            None::<StoreError>,
        ),
        restored(stored(board)) == board,
{
    lemma_snapshot_round_trip(CURRENT_VERSION, payload);
    lemma_stored_board_comes_back(board);
}

/// A log brings a board back: the segment written for the actions that
/// were applied to a board, read into a loader that holds the stored form of
/// the board before these actions, leaves the loader with the stored form of
/// the board after them. With the empty board and an empty loader for a
/// start this is the replay of a whole log; with the board of a snapshot it
/// is the replay of what followed the snapshot.
pub proof fn lemma_log_restores(state: GlobalBoardView, steps: Seq<Step>)
    requires
        run_valid(state, steps),
        writable(run_log(state, steps)),
    ensures
        version_in(segment_of(CURRENT_VERSION, records_of(run_log(state, steps)))) == Some(
            CURRENT_VERSION,
        ),
        records_loaded(
            stored(state.board),
            CURRENT_VERSION,
            records_in(body_in(segment_of(CURRENT_VERSION, records_of(run_log(state, steps))))),
        ) == (stored(run_state(state, steps).board), None::<StoreError>),
{
    let events = run_log(state, steps);
    let records = records_of(events);
    assert forall|i: int| 0 <= i < records.len() implies (#[trigger] records[i]).len()
        <= u32::MAX by {
        assert(enc_event(events[i]).len() <= u32::MAX);
    }
    lemma_segment_round_trip(CURRENT_VERSION, records);
    lemma_records_replay(stored(state.board), events);
    lemma_replay_reconstructs(state, steps);
}

/// Replaying a log brings the board back: a store holds no snapshot and one
/// segment, written for the actions that were applied to a board. A loader
/// that holds the stored form of the board before these actions and takes
/// up what the store lists ends with the stored form of the board after
/// them. With the empty board and an empty loader for a start this is the
/// replay of a whole log.
pub proof fn lemma_log_replays(state: GlobalBoardView, steps: Seq<Step>)
    requires
        run_valid(state, steps),
        writable(run_log(state, steps)),
    ensures
        store_loaded(
            stored(state.board),
            None,
            seq![segment_of(CURRENT_VERSION, records_of(run_log(state, steps)))],
        ) == (stored(run_state(state, steps).board), None::<StoreError>),
{
    let events = run_log(state, steps);
    let records = records_of(events);
    let segment = segment_of(CURRENT_VERSION, records);
    let segments = seq![segment];
    assert forall|i: int| 0 <= i < records.len() implies (#[trigger] records[i]).len()
        <= u32::MAX by {
        assert(enc_event(events[i]).len() <= u32::MAX);
    }
    lemma_written_loads(CURRENT_VERSION, records, Seq::empty());
    assert(segments.first() == segment);
    assert(segments.drop_first() =~= Seq::<Seq<u8>>::empty());
    assert(segments_loads(segments.drop_first()) =~= Seq::<LoadView>::empty());
    assert(segments_loads(segments) =~= segment_loads(segment));
    assert(store_headed(None, segments));
    lemma_taken_events(stored(state.board), CURRENT_VERSION, records);
    lemma_log_restores(state, steps);
    lemma_segment_round_trip(CURRENT_VERSION, records);
}

/// A restart brings the board back. A store holds a snapshot that was taken
/// when a segment was sealed, that segment, and the segment that was written
/// after it. Whatever a loader held before, after it has taken up the
/// snapshot and then both segments it holds the stored form of the board as
/// it was when the last action was applied: taking up the sealed segment
/// once more changes nothing, because the snapshot holds all of it already.
pub proof fn lemma_restart_restores(
    earlier: GlobalBoardView,
    sealed: Seq<Step>,
    later: Seq<Step>,
    payload: Seq<u8>,
    loader: BoardV1View,
)
    requires
        run_valid(earlier, sealed),
        run_valid(run_state(earlier, sealed), later),
        writable(run_log(earlier, sealed)),
        writable(run_log(run_state(earlier, sealed), later)),
        decoded_board(payload) == Some(stored(run_state(earlier, sealed).board)),
    ensures
        store_loaded(
            loader,
            Some(snapshot_of(CURRENT_VERSION, payload)),
            seq![
                segment_of(CURRENT_VERSION, records_of(run_log(earlier, sealed))),
                segment_of(CURRENT_VERSION, records_of(run_log(run_state(earlier, sealed), later))),
            ],
        ) == (stored(run_state(run_state(earlier, sealed), later).board), None::<StoreError>),
{
    let state = run_state(earlier, sealed);
    let at_snapshot = stored(state.board);
    let at_end = stored(run_state(state, later).board);
    let snapshot = snapshot_of(CURRENT_VERSION, payload);
    let first_events = run_log(earlier, sealed);
    let second_events = run_log(state, later);
    let first = segment_of(CURRENT_VERSION, records_of(first_events));
    let second = segment_of(CURRENT_VERSION, records_of(second_events));
    let segments = seq![first, second];
    assert forall|i: int| 0 <= i < records_of(first_events).len() implies (
    #[trigger] records_of(first_events)[i]).len() <= u32::MAX by {
        assert(enc_event(first_events[i]).len() <= u32::MAX);
    }
    assert forall|i: int| 0 <= i < records_of(second_events).len() implies (
    #[trigger] records_of(second_events)[i]).len() <= u32::MAX by {
        assert(enc_event(second_events[i]).len() <= u32::MAX);
    }
    lemma_written_loads(CURRENT_VERSION, records_of(first_events), payload);
    lemma_written_loads(CURRENT_VERSION, records_of(second_events), payload);
    // what the store lists: the snapshot, then the records of both segments
    let head = seq![snapshot_load(snapshot)];
    assert(segments.first() == first);
    assert(segments.drop_first().first() == second);
    assert(segments.drop_first().drop_first() =~= Seq::<Seq<u8>>::empty());
    assert(segments_loads(segments.drop_first().drop_first()) =~= Seq::<LoadView>::empty());
    assert(version_in(second) is Some && version_in(first) is Some);
    assert(segments_loads(segments.drop_first()) =~= segment_loads(second));
    assert(segments_loads(segments) =~= segment_loads(first) + segment_loads(second));
    assert(store_loads(Some(snapshot), segments) =~= head + (segment_loads(first) + segment_loads(
        second,
    )));
    assert(store_headed(Some(snapshot), segments)) by {
        assert forall|i: int| 0 <= i < segments.len() implies version_in(#[trigger] segments[i])
            is Some by {
            if i == 0 {
            } else {
                assert(segments[i] == second);
            }
        }
    }
    // what the loader makes of each part
    assert(taken(loader, head) == (at_snapshot, None::<StoreError>)) by {
        assert(head.first() == snapshot_load(snapshot));
        assert(head.drop_first() =~= Seq::<LoadView>::empty());
        assert(load_taken(loader, head.first()) == (at_snapshot, None::<StoreError>));
        assert(taken(at_snapshot, head.drop_first()) == (at_snapshot, None::<StoreError>));
    }
    assert(taken(at_snapshot, segment_loads(first)) == (at_snapshot, None::<StoreError>)) by {
        lemma_taken_events(at_snapshot, CURRENT_VERSION, records_of(first_events));
        lemma_records_replay(at_snapshot, first_events);
        lemma_replay_reconstructs(earlier, sealed);
        lemma_replay_twice(stored(earlier.board), first_events);
    }
    assert(taken(at_snapshot, segment_loads(second)) == (at_end, None::<StoreError>)) by {
        lemma_taken_events(at_snapshot, CURRENT_VERSION, records_of(second_events));
        lemma_records_replay(at_snapshot, second_events);
        lemma_replay_reconstructs(state, later);
    }
    lemma_taken_in_parts(at_snapshot, segment_loads(first), segment_loads(second));
    lemma_taken_in_parts(loader, head, segment_loads(first) + segment_loads(second));
}

/// A loader that is handed the records of a segment takes them up as
/// `records_loaded` says.
pub proof fn lemma_taken_events(board: BoardV1View, version: u64, records: Seq<Seq<u8>>)
    ensures
        taken(board, Seq::new(records.len(), |i: int| LoadView::Event { version, data: records[i] }))
            == records_loaded(board, version, records),
    decreases records.len(),
{
    let loads = Seq::new(records.len(), |i: int| LoadView::Event { version, data: records[i] });
    if records.len() > 0 {
        let one = seq![records.first()];
        assert(one.first() == records.first());
        assert(one.drop_first() =~= Seq::<Seq<u8>>::empty());
        assert(loads.first() == LoadView::Event { version, data: records.first() });
        let rest = records.drop_first();
        assert(loads.drop_first() =~= Seq::new(
            rest.len(),
            |i: int| LoadView::Event { version, data: rest[i] },
        ));
        if version == 1 && decoded_event(records.first()) is Some {
            let next = board.apply_event(decoded_event(records.first())->0);
            assert(records_loaded(next, version, one.drop_first()) == (next, None::<StoreError>));
            lemma_taken_events(next, version, rest);
        }
    }
}

/// Loads can be handed over in parts: if the first part is taken up without
/// an error, taking up both parts joined is taking up the second after the
/// first.
pub proof fn lemma_taken_in_parts(board: BoardV1View, first: Seq<LoadView>, second: Seq<LoadView>)
    requires
        taken(board, first).1 is None,
    ensures
        taken(board, first + second) == taken(taken(board, first).0, second),
    decreases first.len(),
{
    if first.len() == 0 {
        assert(first + second =~= second);
    } else {
        let (next, error) = load_taken(board, first.first());
        assert((first + second).first() == first.first());
        assert((first + second).drop_first() =~= first.drop_first() + second);
        lemma_taken_in_parts(next, first.drop_first(), second);
    }
}

} // verus!
