//! Version 1 of the stored form of a board and of its events.
//!
//! Once boards have been stored in this form it must not change: a changed
//! form is a new version beside this one.

use crate::board::common::TextureView;
use std::collections::HashMap;
use vstd::prelude::*;

verus! {

/// A stored object. An image is stored under its name, so it does not hold
/// the name itself.
#[derive(Clone, Copy, Debug, PartialEq, Eq)]
pub enum Object {
    Image { x: u64, y: u64, texture_id: u64 },
    Line,
}

/// A stored board.
#[derive(Clone, Debug)]
pub struct BoardV1 {
    pub textures: HashMap<u64, Vec<u8>>,
    pub objects: HashMap<u64, Object>,
}

/// The texture of a stored event.
#[derive(Clone, Debug, PartialEq, Eq)]
pub enum Texture {
    New { id: u64, data: Vec<u8> },
    Existing { id: u64 },
}

impl View for Texture {
    type V = TextureView<u64>;

    open spec fn view(&self) -> TextureView<u64> {
        match *self {
            Texture::New { id, data } => TextureView::New { id, data: data@ },
            Texture::Existing { id } => TextureView::Existing { id },
        }
    }
}

/// A stored event.
#[derive(Clone, Debug, PartialEq, Eq)]
pub enum EventV1 {
    NewImage { id: u64, x: u64, y: u64, texture: Texture },
}

/// An `EventV1` as a mathematical value.
pub enum EventV1View {
    NewImage { id: u64, x: u64, y: u64, texture: TextureView<u64> },
}

impl View for EventV1 {
    type V = EventV1View;

    open spec fn view(&self) -> EventV1View {
        match *self {
            EventV1::NewImage { id, x, y, texture } => EventV1View::NewImage {
                id,
                x,
                y,
                texture: texture@,
            },
        }
    }
}

/// A `BoardV1` as a mathematical value.
pub struct BoardV1View {
    pub textures: Map<u64, Seq<u8>>,
    pub objects: Map<u64, Object>,
}

impl BoardV1View {
    pub open spec fn empty() -> BoardV1View {
        BoardV1View { textures: Map::empty(), objects: Map::empty() }
    }

    /// The board after an event: the image is stored under its name, and
    /// the bytes of its texture, if the event carries them, under the
    /// texture's name.
    pub open spec fn apply_event(self, event: EventV1View) -> BoardV1View {
        match event {
            EventV1View::NewImage { id, x, y, texture } => BoardV1View {
                textures: match texture {
                    TextureView::New { id: texture_id, data } => self.textures.insert(texture_id, data),
                    TextureView::Existing { id: texture_id } => self.textures,
                },
                objects: self.objects.insert(id, Object::Image { x, y, texture_id: texture.id() }),
            },
        }
    }

    /// The board after a sequence of events, taken in order.
    pub open spec fn apply_events(self, events: Seq<EventV1View>) -> BoardV1View
        decreases events.len(),
    {
        if events.len() == 0 {
            self
        } else {
            self.apply_events(events.drop_last()).apply_event(events.last())
        }
    }
}

impl View for BoardV1 {
    type V = BoardV1View;

    open spec fn view(&self) -> BoardV1View {
        BoardV1View {
            textures: Map::new(
                |id: u64| self.textures@.contains_key(id),
                |id: u64| self.textures@[id]@,
            ),
            objects: self.objects@,
        }
    }
}

impl BoardV1 {
    /// An empty board.
    pub fn new() -> (board: BoardV1)
        ensures
            board@ == BoardV1View::empty(),
    {
        let board = BoardV1 { textures: HashMap::new(), objects: HashMap::new() };
        assert(board@.textures =~= Map::<u64, Seq<u8>>::empty());
        board
    }

    /// Takes up a stored event.
    pub fn apply_event(&mut self, event: EventV1)
        ensures
            final(self)@ == old(self)@.apply_event(event@),
    {
        match event {
            EventV1::NewImage { id, x, y, texture } => {
                let texture_id = match texture {
                    Texture::New { id: tex_id, data } => {
                        self.textures.insert(tex_id, data);
                        tex_id
                    },
                    Texture::Existing { id: tex_id } => tex_id,
                };
                self.objects.insert(id, Object::Image { x, y, texture_id });
                assert(self@.textures =~= old(self)@.apply_event(event@).textures);
            },
        }
    }
}

/// `base` with everything of `top` put over it.
pub open spec fn overlay(base: BoardV1View, top: BoardV1View) -> BoardV1View {
    BoardV1View {
        textures: base.textures.union_prefer_right(top.textures),
        objects: base.objects.union_prefer_right(top.objects),
    }
}

/// Events only put things on a board: taking up a log on a board is putting
/// over it what the log makes of the empty board.
pub proof fn lemma_events_overlay(board: BoardV1View, events: Seq<EventV1View>)
    ensures
        board.apply_events(events) == overlay(board, BoardV1View::empty().apply_events(events)),
    decreases events.len(),
{
    let alone = BoardV1View::empty().apply_events(events);
    if events.len() == 0 {
        assert(overlay(board, alone).textures =~= board.textures);
        assert(overlay(board, alone).objects =~= board.objects);
    } else {
        lemma_events_overlay(board, events.drop_last());
        let earlier = BoardV1View::empty().apply_events(events.drop_last());
        let after = overlay(board, earlier).apply_event(events.last());
        assert(after.textures =~= overlay(board, alone).textures);
        assert(after.objects =~= overlay(board, alone).objects);
    }
}

/// Taking up a log a second time changes nothing. So a board that was
/// stored after a segment was closed may be brought back by taking up that
/// segment once more.
pub proof fn lemma_replay_twice(board: BoardV1View, events: Seq<EventV1View>)
    ensures
        board.apply_events(events).apply_events(events) == board.apply_events(events),
{
    let alone = BoardV1View::empty().apply_events(events);
    let once = board.apply_events(events);
    lemma_events_overlay(board, events);
    lemma_events_overlay(once, events);
    assert(overlay(overlay(board, alone), alone).textures =~= overlay(board, alone).textures);
    assert(overlay(overlay(board, alone), alone).objects =~= overlay(board, alone).objects);
}

} // verus!
