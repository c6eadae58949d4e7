//! The server's authoritative board.
//!
//! The board assigns global names to the images and textures that clients
//! submit under local names, keeps one copy of each texture whatever number
//! of clients submit its bytes, remembers for every client which global name
//! each of its local names received, and says which event goes to which
//! client after an action.

use crate::board::common::{
    copy_bytes, copy_texture, increasing, keys_of, lemma_increasing_unique, sorted_keys, Board, BoardAction, BoardActionView, BoardEvent, BoardEventView,
    BoardObject, BoardView, Image, ObjectIdentifier, Texture, TextureView,
};
use std::collections::HashMap;
use vstd::prelude::*;
use vstd::std_specs::iter::IteratorSpec;

verus! {

/// What the board remembers of one connected client: the global name behind
/// each local name that the client has used.
pub struct Client {
    id: u64,
    ids_map: HashMap<u64, u64>,
}

impl View for Client {
    type V = Map<u64, u64>;

    closed spec fn view(&self) -> Map<u64, u64> {
        self.ids_map@
    }
}

/// The global name that `id` stands for when a client with the remap table
/// `ids` uses it.
pub open spec fn global_name(ids: Map<u64, u64>, id: ObjectIdentifier) -> Option<u64> {
    match id {
        ObjectIdentifier::Local(local_id) => if ids.contains_key(local_id) {
            Some(ids[local_id])
        } else {
            None
        },
        ObjectIdentifier::Global(global_id) => Some(global_id),
    }
}

impl Client {
    pub closed spec fn id(&self) -> u64 {
        self.id
    }

    /// A client that has not used any local name yet.
    pub fn new(id: u64) -> (client: Client)
        ensures
            client.id() == id,
            client@ == Map::<u64, u64>::empty(),
    {
        Client { id, ids_map: HashMap::new() }
    }

    /// Records that `local_id` now stands for `global_id`.
    pub fn set_global_id(&mut self, local_id: u64, global_id: u64)
        ensures
            final(self).id() == old(self).id(),
            final(self)@ == old(self)@.insert(local_id, global_id),
    {
        self.ids_map.insert(local_id, global_id);
    }

    /// The global name behind `id`: a global name stands for itself, a local
    /// one for what was recorded for it, if anything.
    pub fn get_global_id(&self, id: ObjectIdentifier) -> (global_id: Option<u64>)
        ensures
            global_id == global_name(self@, id),
    {
        match id {
            ObjectIdentifier::Local(local_id) => match self.ids_map.get(&local_id) {
                Some(global_id) => Some(*global_id),
                None => None,
            },
            ObjectIdentifier::Global(global_id) => Some(global_id),
        }
    }
}

/// The image that an action put on the board, under its global name and
/// with its texture resolved to a global name. This is what a durable record
/// of the action has to hold.
#[derive(Clone, Debug, PartialEq, Eq)]
pub struct PlacedImage {
    pub id: u64,
    pub x: u64,
    pub y: u64,
    pub texture: Texture<u64>,
}

/// A `PlacedImage` as a mathematical value.
pub struct PlacedImageView {
    pub id: u64,
    pub x: u64,
    pub y: u64,
    pub texture: TextureView<u64>,
}

impl View for PlacedImage {
    type V = PlacedImageView;

    open spec fn view(&self) -> PlacedImageView {
        PlacedImageView { id: self.id, x: self.x, y: self.y, texture: self.texture@ }
    }
}

/// An event together with the client that is to receive it.
#[derive(Clone, Debug, PartialEq, Eq)]
pub struct Delivery {
    pub client_id: u64,
    pub event: BoardEvent,
}

/// A `Delivery` as a mathematical value.
pub struct DeliveryView {
    pub client_id: u64,
    pub event: BoardEventView,
}

impl View for Delivery {
    type V = DeliveryView;

    open spec fn view(&self) -> DeliveryView {
        DeliveryView { client_id: self.client_id, event: self.event@ }
    }
}

/// What an action led to: the image that was placed, if the action was not
/// dropped, and the events to send, in the order in which to send them.
#[derive(Clone, Debug, PartialEq, Eq)]
pub struct Outcome {
    pub placed: Option<PlacedImage>,
    pub deliveries: Vec<Delivery>,
}

impl Outcome {
    /// The texture of the placed image under its global name; `None` when the
    /// action was dropped.
    pub open spec fn resolved(&self) -> Option<TextureView<u64>> {
        match self.placed {
            Some(placed) => Some(placed.texture@),
            None => None,
        }
    }

    pub open spec fn deliveries_view(&self) -> Seq<DeliveryView> {
        Seq::new(self.deliveries@.len(), |i: int| self.deliveries@[i]@)
    }
}

impl BoardActionView {
    pub open spec fn x(self) -> u64 {
        match self {
            BoardActionView::NewImage { x, y, local_id, texture } => x,
        }
    }

    pub open spec fn y(self) -> u64 {
        match self {
            BoardActionView::NewImage { x, y, local_id, texture } => y,
        }
    }

    pub open spec fn local_id(self) -> u64 {
        match self {
            BoardActionView::NewImage { x, y, local_id, texture } => local_id,
        }
    }

    pub open spec fn texture(self) -> TextureView<ObjectIdentifier> {
        match self {
            BoardActionView::NewImage { x, y, local_id, texture } => texture,
        }
    }
}

/// The state of the server's board: the board itself, the last global name
/// that was handed out, and for each connected client its remap table from
/// local to global names.
pub struct GlobalBoardView {
    pub board: BoardView,
    pub counter: u64,
    pub clients: Map<u64, Map<u64, u64>>,
}

/// The remap table of an action's originator after the action: the image's
/// local name stands for its global one, and so does the texture's, if the
/// texture was submitted under a local name.
pub open spec fn remapped(
    ids: Map<u64, u64>,
    local_id: u64,
    image_id: u64,
    texture: ObjectIdentifier,
    texture_id: u64,
) -> Map<u64, u64> {
    let with_image = ids.insert(local_id, image_id);
    match texture {
        ObjectIdentifier::Local(local_texture_id) => with_image.insert(local_texture_id, texture_id),
        ObjectIdentifier::Global(_) => with_image,
    }
}

/// The events that follow a placed image: the confirmation to the
/// originator, if it is connected, and then the announcement to each of
/// `others`.
pub open spec fn fan_out(
    confirm: bool,
    client_id: u64,
    local_id: u64,
    placed: PlacedImageView,
    others: Seq<u64>,
) -> Seq<DeliveryView> {
    let confirmation = DeliveryView {
        client_id,
        event: BoardEventView::ConfirmImage {
            local_id,
            global_id: placed.id,
            texture_id: placed.texture.id(),
        },
    };
    let announcements = Seq::new(
        others.len(),
        |i: int|
            DeliveryView {
                client_id: others[i],
                event: BoardEventView::NewImage {
                    id: placed.id,
                    x: placed.x,
                    y: placed.y,
                    texture: placed.texture,
                },
            },
    );
    if confirm {
        seq![confirmation] + announcements
    } else {
        announcements
    }
}

impl GlobalBoardView {
    pub open spec fn empty() -> GlobalBoardView {
        GlobalBoardView { board: BoardView::empty(), counter: 0, clients: Map::empty() }
    }

    /// No name in use is larger than the last one handed out.
    pub open spec fn bounded(self) -> bool {
        forall|id: u64| #[trigger] self.board.uses(id) ==> id <= self.counter
    }

    /// An action may need two fresh names. When fewer are left, actions are
    /// dropped.
    pub open spec fn exhausted(self) -> bool {
        self.counter >= u64::MAX - 1
    }

    /// The global name that `id` stands for when `client_id` uses it; `None`
    /// when the client is not connected or has not used that local name.
    pub open spec fn global_id(self, client_id: u64, id: ObjectIdentifier) -> Option<u64> {
        if self.clients.contains_key(client_id) {
            global_name(self.clients[client_id], id)
        } else {
            None
        }
    }

    /// Whether an action by `client_id` names a texture, and the name stands
    /// for a global name, but no texture of the board goes by that name.
    /// Such an action puts an image on the board whose texture is not on it.
    pub open spec fn dangling(self, client_id: u64, texture: TextureView<ObjectIdentifier>) -> bool {
        !self.exhausted() && (texture matches TextureView::Existing { id } && (self.global_id(
            client_id,
            id,
        ) matches Some(global_id) && !self.board.textures.contains_key(global_id)))
    }

    /// Whether `resolved` is what the texture of an action by `client_id`
    /// resolves to in this state.
    ///
    /// Submitted bytes that the board already has resolve to the texture
    /// that has them, by name alone. Bytes that are new to the board resolve
    /// to themselves under the second fresh name (the first goes to the
    /// image). A texture given by name resolves to the global name behind
    /// it, and to nothing when there is none. With the names exhausted
    /// nothing resolves.
    pub open spec fn resolves(
        self,
        client_id: u64,
        texture: TextureView<ObjectIdentifier>,
        resolved: Option<TextureView<u64>>,
    ) -> bool {
        if self.exhausted() {
            resolved is None
        } else {
            match texture {
                TextureView::New { id, data } => if self.board.knows_bytes(data) {
                    exists|existing: u64| #[trigger]
                        self.board.holds_bytes(existing, data) && resolved == Some(
                            TextureView::Existing { id: existing },
                        )
                } else {
                    resolved == Some(TextureView::New { id: (self.counter + 2) as u64, data })
                },
                TextureView::Existing { id } => resolved == match self.global_id(client_id, id) {
                    Some(global_id) => Some(TextureView::Existing { id: global_id }),
                    None => None,
                },
            }
        }
    }

    /// The state after an action by `client_id` whose texture resolved to
    /// `resolved`.
    ///
    /// With the names exhausted nothing changes. Otherwise the first fresh
    /// name is used up for the image. If the texture did not resolve, that is
    /// all. If it did, the image is on the board under that name, bytes that
    /// were new to the board are on it under the second fresh name, and the
    /// originator's remap table, if it is connected, has the local names of
    /// the action.
    pub open spec fn applied(
        self,
        client_id: u64,
        action: BoardActionView,
        resolved: Option<TextureView<u64>>,
    ) -> GlobalBoardView {
        let image_id = (self.counter + 1) as u64;
        if self.exhausted() {
            self
        } else {
            match resolved {
                None => GlobalBoardView { counter: image_id, ..self },
                Some(texture) => GlobalBoardView {
                    board: BoardView {
                        objects: self.board.objects.insert(
                            image_id,
                            BoardObject::Image(
                                Image {
                                    id: image_id,
                                    x: action.x(),
                                    y: action.y(),
                                    texture: texture.id(),
                                },
                            ),
                        ),
                        textures: match texture {
                            TextureView::New { id, data } => self.board.textures.insert(id, data),
                            TextureView::Existing { id } => self.board.textures,
                        },
                    },
                    counter: match texture {
                        TextureView::New { id, data } => id,
                        TextureView::Existing { id } => image_id,
                    },
                    clients: if self.clients.contains_key(client_id) {
                        self.clients.insert(
                            client_id,
                            remapped(
                                self.clients[client_id],
                                action.local_id(),
                                image_id,
                                action.texture().id(),
                                texture.id(),
                            ),
                        )
                    } else {
                        self.clients
                    },
                },
            }
        }
    }

    /// The image that the action put on the board, if its texture resolved.
    pub open spec fn placed(
        self,
        action: BoardActionView,
        resolved: Option<TextureView<u64>>,
    ) -> Option<PlacedImageView> {
        match resolved {
            Some(texture) => Some(
                PlacedImageView {
                    id: (self.counter + 1) as u64,
                    x: action.x(),
                    y: action.y(),
                    texture,
                },
            ),
            None => None,
        }
    }
}

/// The server's board.
pub struct GlobalBoard {
    board: Board<u64>,
    global_id_counter: u64,
    clients: HashMap<u64, Client>,
}

impl View for GlobalBoard {
    type V = GlobalBoardView;

    closed spec fn view(&self) -> GlobalBoardView {
        GlobalBoardView {
            board: self.board@,
            counter: self.global_id_counter,
            clients: Map::new(
                |id: u64| self.clients@.contains_key(id),
                |id: u64| self.clients@[id]@,
            ),
        }
    }
}

/// The largest key of `map`, and 0 for an empty one.
fn largest_key<V>(map: &HashMap<u64, V>) -> (largest: u64)
    ensures
        forall|id: u64| map@.contains_key(id) ==> id <= largest,
        largest == 0 || map@.contains_key(largest),
{
    let mut largest: u64 = 0;
    let ghost walk: Seq<u64> = map.keys().remaining().unref();
    for id in it: map.keys()
        invariant
            it.seq().unref() == walk,
            walk.to_set() == map@.dom(),
            forall|i: int| 0 <= i < it.index() ==> walk[i] <= largest,
            largest == 0 || map@.contains_key(largest),
    {
        assert(walk[it.index()] == *id);
        assert(walk.to_set().contains(*id));
        if *id > largest {
            largest = *id;
        }
    }
    assert forall|id: u64| map@.contains_key(id) implies id <= largest by {
        assert(walk.to_set().contains(id));
    }
    largest
}

/// The key of an entry of `textures` whose bytes are `data`, if there is
/// one.
fn find_bytes(textures: &HashMap<u64, Vec<u8>>, data: &Vec<u8>) -> (found: Option<u64>)
    ensures
        match found {
            Some(id) => textures@.contains_key(id) && textures@[id]@ == data@,
            None => forall|id: u64| textures@.contains_key(id) ==> textures@[id]@ != data@,
        },
{
    let mut found: Option<u64> = None;
    for entry in it: textures.iter()
        invariant
            match found {
                Some(id) => textures@.contains_key(id) && textures@[id]@ == data@,
                None => forall|i: int| 0 <= i < it.index() ==> (*it.seq()[i].1)@ != data@,
            },
    {
        let (id, bytes) = entry;
        if found.is_none() && bytes == data {
            found = Some(*id);
        }
    }
    found
}

/// The events for a placed image: the confirmation for the originator, if
/// `confirm` says so, then the announcement for every other client, in the
/// order of `ids`.
fn deliveries_for(
    ids: &Vec<u64>,
    confirm: bool,
    client_id: u64,
    local_id: u64,
    placed: &PlacedImage,
) -> (out: (Vec<Delivery>, Ghost<Seq<u64>>))
    requires
        increasing(ids@),
    ensures
        increasing(out.1@),
        out.1@.to_set() == ids@.to_set().remove(client_id),
        Seq::new(out.0@.len(), |i: int| out.0@[i]@) == fan_out(
            confirm,
            client_id,
            local_id,
            placed@,
            out.1@,
        ),
{
    let mut deliveries: Vec<Delivery> = Vec::new();
    let ghost lead: int = if confirm { 1 } else { 0 };
    if confirm {
        deliveries.push(
            Delivery {
                client_id,
                event: BoardEvent::ConfirmImage {
                    local_id,
                    global_id: placed.id,
                    texture_id: placed.texture.get_id(),
                },
            },
        );
    }
    let ghost mut others: Seq<u64> = Seq::empty();
    let mut i: usize = 0;
    while i < ids.len()
        invariant
            i <= ids.len(),
            increasing(ids@),
            lead == (if confirm { 1int } else { 0int }),
            increasing(others),
            forall|id: u64|
                others.contains(id) <==> id != client_id && exists|j: int|
                    0 <= j < i && ids@[j] == id,
            deliveries@.len() == lead + others.len(),
            confirm ==> deliveries@[0]@ == (DeliveryView {
                client_id,
                event: BoardEventView::ConfirmImage {
                    local_id,
                    global_id: placed.id,
                    texture_id: placed.texture@.id(),
                },
            }),
            forall|j: int|
                0 <= j < others.len() ==> (#[trigger] deliveries@[lead + j])@ == (DeliveryView {
                    client_id: others[j],
                    event: BoardEventView::NewImage {
                        id: placed.id,
                        x: placed.x,
                        y: placed.y,
                        texture: placed.texture@,
                    },
                }),
        decreases ids.len() - i,
    {
        let id = ids[i];
        if id != client_id {
            proof {
                let longer = others.push(id);
                assert forall|a: int, b: int| 0 <= a < b < longer.len() implies longer[a]
                    < longer[b] by {
                    if b < others.len() {
                        assert(others[a] < others[b]);
                    } else {
                        assert(others.contains(others[a]));
                        let j = choose|j: int| 0 <= j < i && ids@[j] == others[a];
                        assert(ids@[j] < ids@[i as int]);
                    }
                }
                assert forall|other: u64| longer.contains(other) <==> other != client_id && exists|j: int|
                    0 <= j < i + 1 && ids@[j] == other by {
                    if longer.contains(other) {
                        let k = choose|k: int| 0 <= k < longer.len() && longer[k] == other;
                        if k < others.len() {
                            assert(others.contains(other));
                            let j = choose|j: int| 0 <= j < i && ids@[j] == other;
                            assert(0 <= j < i + 1 && ids@[j] == other);
                        } else {
                            assert(0 <= i < i + 1 && ids@[i as int] == other);
                        }
                    }
                    if other != client_id && exists|j: int| 0 <= j < i + 1 && ids@[j] == other {
                        let j = choose|j: int| 0 <= j < i + 1 && ids@[j] == other;
                        if j < i {
                            assert(others.contains(other));
                            let k = choose|k: int| 0 <= k < others.len() && others[k] == other;
                            assert(longer[k] == other);
                        } else {
                            assert(longer[others.len() as int] == other);
                        }
                    }
                }
                others = longer;
            }
            deliveries.push(
                Delivery {
                    client_id: id,
                    event: BoardEvent::NewImage {
                        id: placed.id,
                        x: placed.x,
                        y: placed.y,
                        texture: copy_texture(&placed.texture),
                    },
                },
            );
        } else {
            proof {
                assert forall|other: u64| others.contains(other) <==> other != client_id && exists|j: int|
                    0 <= j < i + 1 && ids@[j] == other by {
                    if other != client_id && exists|j: int| 0 <= j < i + 1 && ids@[j] == other {
                        let j = choose|j: int| 0 <= j < i + 1 && ids@[j] == other;
                        assert(j < i);
                    }
                }
            }
        }
        i = i + 1;
    }
    proof {
        assert forall|id: u64| others.to_set().contains(id) <==> ids@.to_set().remove(client_id).contains(
            id,
        ) by {
            if others.contains(id) {
                let j = choose|j: int| 0 <= j < ids@.len() && ids@[j] == id;
                assert(ids@.contains(id));
            }
            if ids@.contains(id) && id != client_id {
                let j = choose|j: int| 0 <= j < ids@.len() && ids@[j] == id;
                assert(0 <= j < i && ids@[j] == id);
            }
        }
        assert(others.to_set() =~= ids@.to_set().remove(client_id));
        let views = Seq::new(deliveries@.len(), |i: int| deliveries@[i]@);
        let expected = fan_out(confirm, client_id, local_id, placed@, others);
        assert(views.len() == expected.len());
        assert forall|k: int| 0 <= k < views.len() implies views[k] == expected[k] by {
            if k >= lead {
                assert(deliveries@[lead + (k - lead)]@ == expected[k]);
            }
        }
        assert(views =~= expected);
    }
    (deliveries, Ghost(others))
}

impl GlobalBoard {
    pub open spec fn wf(&self) -> bool {
        self@.bounded()
    }

    /// An empty board without clients. The first name it hands out is 1.
    pub fn new() -> (board: GlobalBoard)
        ensures
            board.wf(),
            board@ == GlobalBoardView::empty(),
            board@.board.consistent(),
    {
        let board = GlobalBoard {
            board: Board { objects: HashMap::new(), textures: HashMap::new() },
            global_id_counter: 0,
            clients: HashMap::new(),
        };
        assert(board@.board.textures =~= Map::<u64, Seq<u8>>::empty());
        assert(board@.clients =~= Map::<u64, Map<u64, u64>>::empty());
        board
    }

    /// Takes up a stored board. No client is connected, and the last name
    /// handed out is taken to be the largest name on the board (0 for an
    /// empty board), so that the next one is new.
    pub fn from_board(board: Board<u64>) -> (global: GlobalBoard)
        ensures
            global.wf(),
            global@.board == board@,
            global@.clients == Map::<u64, Map<u64, u64>>::empty(),
            global@.counter == 0 || board@.uses(global@.counter),
    {
        let largest_object = largest_key(&board.objects);
        let largest_texture = largest_key(&board.textures);
        let global_id_counter = if largest_object > largest_texture {
            largest_object
        } else {
            largest_texture
        };
        let global = GlobalBoard { board, global_id_counter, clients: HashMap::new() };
        assert(global@.clients =~= Map::<u64, Map<u64, u64>>::empty());
        global
    }

    /// A copy of the board as it stands.
    pub fn get_state(&self) -> (state: Board<u64>)
        ensures
            state@ == self@.board,
    {
        let state = Board { objects: self.board.objects.clone(), textures: self.board.textures.clone() };
        assert(state@.textures =~= self@.board.textures);
        state
    }

    /// Registers a client, with an empty remap table. Registering a client
    /// again empties its table.
    pub fn new_client(&mut self, client_id: u64)
        ensures
            final(self)@ == (GlobalBoardView {
                clients: old(self)@.clients.insert(client_id, Map::empty()),
                ..old(self)@
            }),
    {
        self.clients.insert(client_id, Client::new(client_id));
        assert(self@.clients =~= old(self)@.clients.insert(client_id, Map::empty()));
    }
    /// Forgets a client and its remap table. Nothing happens if the client
    /// is not registered.
    pub fn remove_client(&mut self, client_id: u64)
        ensures
            final(self)@ == (GlobalBoardView {
                clients: old(self)@.clients.remove(client_id),
                ..old(self)@
            }),
    {
        self.clients.remove(&client_id);
        assert(self@.clients =~= old(self)@.clients.remove(client_id));
    }

    /// Whether a client is registered.
    pub fn has_client(&self, client_id: u64) -> (registered: bool)
        ensures
            registered == self@.clients.contains_key(client_id),
    {
        self.clients.contains_key(&client_id)
    }

    /// Hands out the next global name.
    fn next_global_id(&mut self) -> (id: u64)
        requires
            old(self)@.counter < u64::MAX,
        ensures
            id == old(self)@.counter + 1,
            final(self)@ == (GlobalBoardView { counter: id, ..old(self)@ }),
    {
        self.global_id_counter = self.global_id_counter + 1;
        self.global_id_counter
    }

    /// Resolves the texture of an action by `client_id` to a global name.
    ///
    /// Bytes that the board has already are answered with the name of the
    /// texture that has them. New bytes are stored under the next global
    /// name. A texture given by name is looked up in the client's remap
    /// table.
    fn get_global_texture(&mut self, client_id: u64, texture: &Texture<ObjectIdentifier>) -> (resolved:
        Option<Texture<u64>>)
        requires
            old(self)@.counter < u64::MAX,
        ensures
            match texture@ {
                TextureView::New { id, data } => if old(self)@.board.knows_bytes(data) {
                    &&& final(self)@ == old(self)@
                    &&& resolved matches Some(Texture::Existing { id: existing })
                    &&& old(self)@.board.holds_bytes(existing, data)
                } else {
                    let fresh = (old(self)@.counter + 1) as u64;
                    &&& resolved matches Some(found)
                    &&& found@ == (TextureView::New { id: fresh, data })
                    &&& final(self)@ == (GlobalBoardView {
                        counter: fresh,
                        board: BoardView {
                            textures: old(self)@.board.textures.insert(fresh, data),
                            ..old(self)@.board
                        },
                        ..old(self)@
                    })
                },
                TextureView::Existing { id } => {
                    &&& final(self)@ == old(self)@
                    &&& match old(self)@.global_id(client_id, id) {
                        Some(global_id) => resolved matches Some(found) && found@ == (
                        TextureView::Existing { id: global_id }),
                        None => resolved is None,
                    }
                },
            },
    {
        match texture {
            Texture::New { id: _, data } => {
                match find_bytes(&self.board.textures, data) {
                    Some(existing) => {
                        assert(self@.board.holds_bytes(existing, data@));
                        Some(Texture::Existing { id: existing })
                    },
                    None => {
                        assert(!self@.board.knows_bytes(data@)) by {
                            if self@.board.knows_bytes(data@) {
                                let id = choose|id: u64| self@.board.holds_bytes(id, data@);
                                assert(self.board.textures@.contains_key(id));
                            }
                        }
                        let global_id = self.next_global_id();
                        self.board.textures.insert(global_id, copy_bytes(data));
                        assert(self@.board.textures =~= old(self)@.board.textures.insert(
                            global_id,
                            data@,
                        ));
                        Some(Texture::New { id: global_id, data: copy_bytes(data) })
                    },
                }
            },
            Texture::Existing { id } => match self.clients.get(&client_id) {
                Some(client) => match client.get_global_id(*id) {
                    Some(global_id) => Some(Texture::Existing { id: global_id }),
                    None => None,
                },
                None => None,
            },
        }
    }

    /// Applies an action that `client_id` submitted.
    ///
    /// The image receives the next global name. Its texture is resolved:
    /// bytes that the board has already, whoever submitted them, to the one
    /// texture that has them; new bytes to a new texture under the name
    /// after the image's; a name to the global name behind it. If a name
    /// does not resolve, the action is dropped: nothing is placed and nothing
    /// is sent, and only the image's name is used up. An action is dropped
    /// too, without any change, when fewer than two names are left.
    ///
    /// The events in the outcome are the confirmation for the originator, if
    /// it is connected, followed by the announcement for each other
    /// connected client, from the smallest client number to the largest:
    /// the clients listed are the other registered clients, each once, in
    /// increasing order.
    pub fn apply(&mut self, client_id: u64, board_action: BoardAction) -> (outcome: Outcome)
        requires
            old(self).wf(),
        ensures
            final(self).wf(),
            old(self)@.resolves(client_id, board_action@.texture(), outcome.resolved()),
            final(self)@ == old(self)@.applied(client_id, board_action@, outcome.resolved()),
            match outcome.placed {
                Some(placed) => {
                    &&& Some(placed@) == old(self)@.placed(board_action@, outcome.resolved())
                    &&& outcome.deliveries_view() == fan_out(
                        old(self)@.clients.contains_key(client_id),
                        client_id,
                        board_action@.local_id(),
                        placed@,
                        sorted_keys(old(self)@.clients.dom().remove(client_id)),
                    )
                    &&& increasing(sorted_keys(old(self)@.clients.dom().remove(client_id)))
                    &&& sorted_keys(old(self)@.clients.dom().remove(client_id)).to_set() == old(
                        self,
                    )@.clients.dom().remove(client_id)
                },
                None => outcome.deliveries@.len() == 0,
            },
            old(self)@.board.consistent() && !old(self)@.dangling(
                client_id,
                board_action@.texture(),
            ) ==> final(self)@.board.consistent(),
    {
        proof {
            if old(self)@.board.consistent() && !old(self)@.dangling(client_id, board_action@.texture()) {
                assert forall|resolved: Option<TextureView<u64>>|
                    old(self)@.resolves(
                        client_id,
                        board_action@.texture(),
                        resolved,
                    ) implies #[trigger] old(self)@.applied(
                    client_id,
                    board_action@,
                    resolved,
                ).board.consistent() by {
                    Self::lemma_applied_consistent(old(self)@, client_id, board_action@, resolved);
                }
            }
        }
        if self.global_id_counter >= u64::MAX - 1 {
            return Outcome { placed: None, deliveries: Vec::new() };
        }
        match board_action {
            BoardAction::NewImage { x, y, local_id, texture } => {
                let global_id = self.next_global_id();
                let resolved = self.get_global_texture(client_id, &texture);
                let texture_global = match resolved {
                    Some(texture_global) => texture_global,
                    None => {
                        return Outcome { placed: None, deliveries: Vec::new() };
                    },
                };
                let texture_id = texture_global.get_id();
                self.board.objects.insert(
                    global_id,
                    BoardObject::Image(Image { id: global_id, x, y, texture: texture_id }),
                );
                let confirm = match self.clients.remove(&client_id) {
                    Some(client) => {
                        let mut client = client;
                        client.set_global_id(local_id, global_id);
                        if let ObjectIdentifier::Local(local_texture_id) = texture.get_id() {
                            client.set_global_id(local_texture_id, texture_id);
                        }
                        self.clients.insert(client_id, client);
                        true
                    },
                    None => false,
                };
                let ids = keys_of(&self.clients);
                let placed = PlacedImage { id: global_id, x, y, texture: texture_global };
                let (deliveries, others) = deliveries_for(&ids, confirm, client_id, local_id, &placed);
                let outcome = Outcome { placed: Some(placed), deliveries };
                proof {
                    let after = old(self)@.applied(client_id, board_action@, outcome.resolved());
                    Self::lemma_applied_bounded(old(self)@, client_id, board_action@, outcome.resolved());
                    assert(confirm == old(self)@.clients.contains_key(client_id));
                    assert(Some(placed@) == old(self)@.placed(board_action@, outcome.resolved()));
                    assert(outcome.deliveries_view() == Seq::new(
                        deliveries@.len(),
                        |i: int| deliveries@[i]@,
                    ));
                    assert(self@.clients.dom() =~= old(self)@.clients.dom());
                    assert(self@.clients =~= after.clients);
                    assert(self@.board.textures =~= after.board.textures);
                    assert(self@.board.objects =~= after.board.objects);
                    assert(ids@.to_set() =~= old(self)@.clients.dom());
                    assert(others@.to_set() == old(self)@.clients.dom().remove(client_id));
                    let chosen = sorted_keys(old(self)@.clients.dom().remove(client_id));
                    assert(increasing(chosen) && chosen.to_set() == old(self)@.clients.dom().remove(
                        client_id,
                    ));
                    lemma_increasing_unique(others@, chosen);
                    assert(fan_out(
                        old(self)@.clients.contains_key(client_id),
                        client_id,
                        board_action@.local_id(),
                        outcome.placed->0@,
                        chosen,
                    ) == outcome.deliveries_view());
                }
                outcome
            },
        }
    }

    /// No action puts a name on the board that is larger than the last one
    /// handed out.
    pub proof fn lemma_applied_bounded(
        state: GlobalBoardView,
        client_id: u64,
        action: BoardActionView,
        resolved: Option<TextureView<u64>>,
    )
        requires
            state.bounded(),
            state.resolves(client_id, action.texture(), resolved),
        ensures
            state.applied(client_id, action, resolved).bounded(),
            state.applied(client_id, action, resolved).counter >= state.counter,
    {
        let after = state.applied(client_id, action, resolved);
        assert forall|id: u64| #[trigger] after.board.uses(id) implies id <= after.counter by {
            if state.board.uses(id) {
            }
        }
    }

    /// An action on a consistent board leaves a consistent board, unless the
    /// action names a texture, and the name resolves, but not to a texture of
    /// the board.
    pub proof fn lemma_applied_consistent(
        state: GlobalBoardView,
        client_id: u64,
        action: BoardActionView,
        resolved: Option<TextureView<u64>>,
    )
        requires
            state.bounded(),
            state.board.consistent(),
            state.resolves(client_id, action.texture(), resolved),
            !state.dangling(client_id, action.texture()),
        ensures
            state.applied(client_id, action, resolved).bounded(),
            state.applied(client_id, action, resolved).board.consistent(),
    {
        let after = state.applied(client_id, action, resolved);
        Self::lemma_applied_bounded(state, client_id, action, resolved);
        if !state.exhausted() && resolved is Some {
            let image_id = (state.counter + 1) as u64;
            assert(!state.board.uses(image_id));
            assert(!state.board.uses((state.counter + 2) as u64));
            assert forall|id: u64| #[trigger]
                after.board.objects.contains_key(id) implies (after.board.objects[id] matches BoardObject::Image(
                image,
            ) ==> image.id == id && after.board.textures.contains_key(image.texture)) by {
                if id != image_id {
                    assert(state.board.objects.contains_key(id));
                }
            }
            assert forall|id: u64|
                !(#[trigger] after.board.objects.contains_key(id)
                    && #[trigger] after.board.textures.contains_key(id)) by {
                if after.board.objects.contains_key(id) && after.board.textures.contains_key(id) {
                    assert(state.board.uses(id));
                }
            }
            assert forall|a: u64, b: u64|
                #![trigger after.board.textures[a], after.board.textures[b]]
                after.board.textures.contains_key(a) && after.board.textures.contains_key(b)
                    && after.board.textures[a] == after.board.textures[b] implies a == b by {
                if a != b {
                    if state.board.textures.contains_key(a) && state.board.textures.contains_key(b) {
                    } else if state.board.textures.contains_key(a) {
                        assert(state.board.holds_bytes(a, after.board.textures[b]));
                    } else if state.board.textures.contains_key(b) {
                        assert(state.board.holds_bytes(b, after.board.textures[a]));
                    }
                }
            }
        }
    }

    /// However often the same bytes are submitted, a consistent board holds
    /// them exactly once: after an action that submits bytes and is not
    /// dropped, one texture of the board has these bytes and no second one
    /// has.
    pub proof fn lemma_one_texture_per_content(
        state: GlobalBoardView,
        client_id: u64,
        action: BoardActionView,
        resolved: Option<TextureView<u64>>,
        data: Seq<u8>,
    )
        requires
            state.bounded(),
            state.board.consistent(),
            state.resolves(client_id, action.texture(), resolved),
            action.texture() matches TextureView::New { id, data: submitted } && submitted == data,
            !state.exhausted(),
        ensures
            resolved is Some,
            state.applied(client_id, action, resolved).board.knows_bytes(data),
            forall|a: u64, b: u64|
                state.applied(client_id, action, resolved).board.holds_bytes(a, data) && state.applied(
                    client_id,
                    action,
                    resolved,
                ).board.holds_bytes(b, data) ==> a == b,
    {
        let after = state.applied(client_id, action, resolved);
        Self::lemma_applied_consistent(state, client_id, action, resolved);
        if state.board.knows_bytes(data) {
            let existing = choose|existing: u64| #[trigger]
                state.board.holds_bytes(existing, data) && resolved == Some(
                    TextureView::Existing { id: existing },
                );
            assert(after.board.holds_bytes(existing, data));
        } else {
            assert(after.board.holds_bytes((state.counter + 2) as u64, data));
        }
    }
}

/// One action as the server's board took it: who submitted it, what it was
/// and what its texture resolved to.
pub struct Step {
    pub client_id: u64,
    pub action: BoardActionView,
    pub resolved: Option<TextureView<u64>>,
}

/// The state of the server's board after the steps, taken in order.
pub open spec fn run_state(state: GlobalBoardView, steps: Seq<Step>) -> GlobalBoardView
    decreases steps.len(),
{
    if steps.len() == 0 {
        state
    } else {
        let step = steps.last();
        run_state(state, steps.drop_last()).applied(step.client_id, step.action, step.resolved)
    }
}

/// Whether each step's texture resolved as the state before the step says.
pub open spec fn run_valid(state: GlobalBoardView, steps: Seq<Step>) -> bool
    decreases steps.len(),
{
    if steps.len() == 0 {
        true
    } else {
        let step = steps.last();
        &&& run_valid(state, steps.drop_last())
        &&& run_state(state, steps.drop_last()).resolves(
            step.client_id,
            step.action.texture(),
            step.resolved,
        )
    }
}


/// Whether no step names a texture that is not on the board when the step is
/// taken.
pub open spec fn run_sound(state: GlobalBoardView, steps: Seq<Step>) -> bool
    decreases steps.len(),
{
    if steps.len() == 0 {
        true
    } else {
        let step = steps.last();
        &&& run_sound(state, steps.drop_last())
        &&& !run_state(state, steps.drop_last()).dangling(step.client_id, step.action.texture())
    }
}

/// A board that is consistent stays so over any history of actions of which
/// none names a texture that is not on the board: its images are held under
/// their own names and have their textures on the board, no name is used for
/// both an image and a texture, and no two textures have the same bytes.
/// The empty board is a consistent one to begin with.
pub proof fn lemma_run_consistent(state: GlobalBoardView, steps: Seq<Step>)
    requires
        state.bounded(),
        state.board.consistent(),
        run_valid(state, steps),
        run_sound(state, steps),
    ensures
        run_state(state, steps).bounded(),
        run_state(state, steps).board.consistent(),
        run_state(state, steps).counter >= state.counter,
    decreases steps.len(),
{
    if steps.len() > 0 {
        let step = steps.last();
        let before = run_state(state, steps.drop_last());
        lemma_run_consistent(state, steps.drop_last());
        GlobalBoard::lemma_applied_consistent(before, step.client_id, step.action, step.resolved);
        GlobalBoard::lemma_applied_bounded(before, step.client_id, step.action, step.resolved);
    }
}

/// The empty board is consistent, and no name is in use on it.
pub proof fn lemma_empty_consistent()
    ensures
        GlobalBoardView::empty().bounded(),
        GlobalBoardView::empty().board.consistent(),
{
}

} // verus!
