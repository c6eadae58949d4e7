//! The client's mirror of the board.
//!
//! A client names what it creates itself with local names until the server
//! confirms them under global names. Beside the board the mirror keeps, for
//! every texture and image, the handle under which the graphics side knows
//! it; these handles stay when a name changes from local to global.

use crate::board::common::{
    copy_bytes, keys_of, sorted_keys, Board, BoardAction, BoardActionView, BoardEvent, BoardEventView, BoardObject,
    BoardView, Image, ObjectIdentifier, Texture, TextureView,
};
use crate::board::id_map::IdMap;
use std::collections::HashMap;
use vstd::pervasive::unreached;
use vstd::prelude::*;

verus! {

/// The graphics side of a client, as far as the mirror needs it.
pub trait BoardObserver {
    /// Makes a texture of the given bytes and returns its handle, or `None`
    /// when the bytes are not an image that it can use. Equal bytes may be
    /// answered with the same handle.
    fn create_texture(&mut self, data: Vec<u8>) -> Option<u64>;

    /// Shows the texture with the given handle at `(x, y)` and returns the
    /// handle of the image.
    fn new_image(&mut self, x: u64, y: u64, texture_id: u64) -> u64;
}

/// Why an event could not be taken up.
#[derive(Clone, Copy, Debug, PartialEq, Eq, Structural)]
pub enum EventError {
    /// The graphics side refused the bytes of a texture.
    TextureRejected,
    /// A texture was referred to by a name that the mirror does not know.
    UnknownTexture,
    /// A confirmation named a local image that the mirror does not have.
    UnknownImage,
}

/// The state of the mirror: the objects by name, the graphics handle of each
/// texture and of each image by name, the name that each texture handle was
/// last given, and the last local name that was made up.
pub struct LocalBoardView {
    pub objects: Map<ObjectIdentifier, BoardObject<ObjectIdentifier>>,
    pub texture_ids: Map<ObjectIdentifier, u64>,
    pub texture_names: Map<u64, ObjectIdentifier>,
    pub image_ids: Map<ObjectIdentifier, u64>,
    pub counter: u64,
}

impl LocalBoardView {
    pub open spec fn empty() -> LocalBoardView {
        LocalBoardView {
            objects: Map::empty(),
            texture_ids: Map::empty(),
            texture_names: Map::empty(),
            image_ids: Map::empty(),
            counter: 0,
        }
    }

    /// The texture `id` is known under the handle `internal`.
    pub open spec fn with_texture(self, id: ObjectIdentifier, internal: u64) -> LocalBoardView {
        LocalBoardView {
            texture_ids: self.texture_ids.insert(id, internal),
            texture_names: self.texture_names.insert(internal, id),
            ..self
        }
    }

    /// The image `id` is on the board and known under the handle `internal`.
    pub open spec fn with_image(
        self,
        id: ObjectIdentifier,
        x: u64,
        y: u64,
        texture: ObjectIdentifier,
        internal: u64,
    ) -> LocalBoardView {
        LocalBoardView {
            objects: self.objects.insert(id, BoardObject::Image(Image { id, x, y, texture })),
            image_ids: self.image_ids.insert(id, internal),
            ..self
        }
    }

    /// A pasted image needs up to two fresh local names. When fewer are
    /// left, nothing is pasted.
    pub open spec fn exhausted(self) -> bool {
        self.counter >= u64::MAX - 1
    }

    /// How a pasted image refers to its texture: by the name that the
    /// texture's handle was last given, if it has one, else with its bytes
    /// under the second fresh local name.
    pub open spec fn pasted_texture(self, data: Seq<u8>, texture_internal: u64) -> TextureView<
        ObjectIdentifier,
    > {
        if self.texture_names.contains_key(texture_internal) {
            TextureView::Existing { id: self.texture_names[texture_internal] }
        } else {
            TextureView::New { id: ObjectIdentifier::Local((self.counter + 2) as u64), data }
        }
    }

    /// The action that tells the server of a pasted image.
    pub open spec fn pasted_action(self, x: u64, y: u64, data: Seq<u8>, texture_internal: u64) -> BoardActionView {
        BoardActionView::NewImage {
            x,
            y,
            local_id: (self.counter + 1) as u64,
            texture: self.pasted_texture(data, texture_internal),
        }
    }

    /// The state after an image was pasted whose texture has the handle
    /// `texture_internal` and which itself got the handle `image_internal`.
    pub open spec fn pasted(
        self,
        x: u64,
        y: u64,
        data: Seq<u8>,
        texture_internal: u64,
        image_internal: u64,
    ) -> LocalBoardView {
        let image = ObjectIdentifier::Local((self.counter + 1) as u64);
        let texture = self.pasted_texture(data, texture_internal);
        let named = match texture {
            TextureView::New { id, data } => LocalBoardView {
                counter: (self.counter + 2) as u64,
                ..self.with_texture(id, texture_internal)
            },
            TextureView::Existing { id } => LocalBoardView {
                counter: (self.counter + 1) as u64,
                ..self
            },
        };
        named.with_image(image, x, y, texture.id(), image_internal)
    }

    /// The action that tells the server of a paste, given what the graphics
    /// side answered to the request to make its texture: none with the local
    /// names exhausted or the bytes refused.
    pub open spec fn paste_action(self, x: u64, y: u64, data: Seq<u8>, created: Option<u64>) -> Option<
        BoardActionView,
    > {
        match created {
            Some(texture_internal) => if self.exhausted() {
                None
            } else {
                Some(self.pasted_action(x, y, data, texture_internal))
            },
            None => None,
        }
    }

    /// The state after a paste, given what the graphics side answered. With
    /// the local names exhausted nothing changes. If the bytes were refused,
    /// only a local name is used up. Else the image is recorded as `pasted`
    /// says.
    pub open spec fn after_paste(
        self,
        x: u64,
        y: u64,
        data: Seq<u8>,
        created: Option<u64>,
        image_internal: u64,
    ) -> LocalBoardView {
        if self.exhausted() {
            self
        } else {
            match created {
                Some(texture_internal) => self.pasted(x, y, data, texture_internal, image_internal),
                None => LocalBoardView { counter: (self.counter + 1) as u64, ..self },
            }
        }
    }

    /// The handle of the texture of an announced image: the one that the
    /// graphics side made for new bytes, or the one on record for a name.
    pub open spec fn announced_texture(self, texture: TextureView<u64>, created: Option<u64>) -> Result<
        u64,
        EventError,
    > {
        match texture {
            TextureView::New { id, data } => match created {
                Some(internal) => Ok(internal),
                None => Err(EventError::TextureRejected),
            },
            TextureView::Existing { id } => if self.texture_ids.contains_key(
                ObjectIdentifier::Global(id),
            ) {
                Ok(self.texture_ids[ObjectIdentifier::Global(id)])
            } else {
                Err(EventError::UnknownTexture)
            },
        }
    }

    /// Whether a confirmation can be taken up, and if not, why not: the
    /// image must be there under its local name, with a handle, and its
    /// texture must have a handle, under the name by which the image refers
    /// to it or already under its global name.
    pub open spec fn confirmable(self, local_id: u64, texture_id: u64) -> Result<(), EventError> {
        let old_id = ObjectIdentifier::Local(local_id);
        if !self.objects.contains_key(old_id) || !self.image_ids.contains_key(old_id) {
            Err(EventError::UnknownImage)
        } else {
            match self.objects[old_id] {
                BoardObject::Line => Err(EventError::UnknownImage),
                BoardObject::Image(image) => if self.texture_ids.contains_key(image.texture) {
                    Ok(())
                } else if self.texture_ids.contains_key(ObjectIdentifier::Global(texture_id)) {
                    Ok(())
                } else {
                    Err(EventError::UnknownTexture)
                },
            }
        }
    }

    /// The state after a confirmation that can be taken up: the image goes by
    /// its global name and refers to its texture by the texture's global
    /// name; so do the handles of both. The texture's handle moves to the
    /// global name from whatever name the image referred to it by; if no
    /// handle is under that name any more, the texture was renamed before
    /// and stays as it is.
    pub open spec fn confirmed(self, local_id: u64, global_id: u64, texture_id: u64) -> LocalBoardView {
        let old_id = ObjectIdentifier::Local(local_id);
        let new_id = ObjectIdentifier::Global(global_id);
        let new_texture = ObjectIdentifier::Global(texture_id);
        match self.objects[old_id] {
            BoardObject::Image(image) => {
                let renamed = if self.texture_ids.contains_key(image.texture) {
                    let internal = self.texture_ids[image.texture];
                    LocalBoardView {
                        texture_ids: self.texture_ids.remove(image.texture).insert(new_texture, internal),
                        texture_names: self.texture_names.insert(internal, new_texture),
                        ..self
                    }
                } else {
                    self
                };
                LocalBoardView {
                    objects: self.objects.remove(old_id).insert(
                        new_id,
                        BoardObject::Image(
                            Image { id: new_id, x: image.x, y: image.y, texture: new_texture },
                        ),
                    ),
                    image_ids: self.image_ids.remove(old_id).insert(new_id, self.image_ids[old_id]),
                    ..renamed
                }
            },
            BoardObject::Line => self,
        }
    }

    /// What becomes of an event, given what the graphics side answers:
    /// `created` when it is asked to make the texture of an announced image,
    /// `image_internal` when it is asked to show one.
    pub open spec fn event_result(self, event: BoardEventView, created: Option<u64>) -> Result<
        (),
        EventError,
    > {
        match event {
            BoardEventView::NewImage { id, x, y, texture } => match self.announced_texture(
                texture,
                created,
            ) {
                Ok(_) => Ok(()),
                Err(error) => Err(error),
            },
            BoardEventView::ConfirmImage { local_id, global_id, texture_id } => self.confirmable(
                local_id,
                texture_id,
            ),
        }
    }

    /// The state after an event. An event that cannot be taken up changes
    /// nothing.
    pub open spec fn after_event(
        self,
        event: BoardEventView,
        created: Option<u64>,
        image_internal: u64,
    ) -> LocalBoardView {
        if self.event_result(event, created) is Err {
            self
        } else {
            match event {
                BoardEventView::NewImage { id, x, y, texture } => {
                    let internal = self.announced_texture(texture, created)->Ok_0;
                    let named = match texture {
                        TextureView::New { id: texture_id, data } => self.with_texture(
                            ObjectIdentifier::Global(texture_id),
                            internal,
                        ),
                        TextureView::Existing { id: texture_id } => self,
                    };
                    named.with_image(
                        ObjectIdentifier::Global(id),
                        x,
                        y,
                        ObjectIdentifier::Global(texture.id()),
                        image_internal,
                    )
                },
                BoardEventView::ConfirmImage { local_id, global_id, texture_id } => self.confirmed(
                    local_id,
                    global_id,
                    texture_id,
                ),
            }
        }
    }

    /// Whether a stored board has an image whose texture is neither on that
    /// board nor known to the mirror.
    pub open spec fn lacks_texture_of(self, board: BoardView) -> bool {
        exists|id: u64|
            #![trigger board.objects[id]]
            board.objects.contains_key(id) && (board.objects[id] matches BoardObject::Image(image)
                && !board.textures.contains_key(image.texture) && !self.texture_ids.contains_key(
                ObjectIdentifier::Global(image.texture),
            ))
    }

    /// The objects of the mirror after a stored board was loaded on top of
    /// `self`: every object of the stored board, under its global name, and
    /// what was there before under other names.
    pub open spec fn loaded_objects(self, board: BoardView) -> Map<
        ObjectIdentifier,
        BoardObject<ObjectIdentifier>,
    > {
        Map::new(
            |id: ObjectIdentifier|
                self.objects.contains_key(id) || (id matches ObjectIdentifier::Global(g)
                    && board.objects.contains_key(g)),
            |id: ObjectIdentifier|
                match id {
                    ObjectIdentifier::Global(g) => if board.objects.contains_key(g) {
                        mirrored(g, board.objects[g])
                    } else {
                        self.objects[id]
                    },
                    ObjectIdentifier::Local(_) => self.objects[id],
                },
        )
    }

    /// Whether `after` is a state of the mirror after the graphics side
    /// refused a texture of a stored board that was being loaded on top of
    /// `self`. The textures are made from the smallest name to the largest:
    /// the first `made` of them have a handle, and that handle has a name;
    /// the next one was refused. Handles of other names stay. No object was
    /// loaded.
    pub open spec fn partly_loaded(self, board: BoardView, made: int, after: LocalBoardView) -> bool {
        let names = sorted_keys(board.textures.dom());
        &&& 0 <= made < names.len()
        &&& after.counter == self.counter
        &&& after.objects == self.objects
        &&& after.image_ids == self.image_ids
        &&& forall|id: ObjectIdentifier|
            after.texture_ids.contains_key(id) <==> self.texture_ids.contains_key(id) || (
            id matches ObjectIdentifier::Global(t) && exists|j: int| 0 <= j < made && names[j] == t)
        &&& forall|id: ObjectIdentifier|
            self.texture_ids.contains_key(id) && !(id matches ObjectIdentifier::Global(t)
                && board.textures.contains_key(t)) ==> after.texture_ids[id] == self.texture_ids[id]
        &&& forall|j: int|
            0 <= j < made ==> after.texture_names.contains_key(
                #[trigger] after.texture_ids[ObjectIdentifier::Global(names[j])],
            )
        &&& forall|internal: u64|
            self.texture_names.contains_key(internal) ==> after.texture_names.contains_key(internal)
    }

    /// Whether `after` is a state of the mirror after a stored board was
    /// loaded on top of `self`. The objects are as `loaded_objects` says.
    /// Every texture of the stored board has a handle, and that handle has a
    /// name; every image of the stored board has a handle. Which handles
    /// these are is up to the graphics side. Handles of other names stay.
    pub open spec fn loaded(self, board: BoardView, after: LocalBoardView) -> bool {
        &&& after.counter == self.counter
        &&& after.objects == self.loaded_objects(board)
        &&& forall|id: ObjectIdentifier|
            after.texture_ids.contains_key(id) <==> self.texture_ids.contains_key(id) || (
            id matches ObjectIdentifier::Global(t) && board.textures.contains_key(t))
        &&& forall|id: ObjectIdentifier|
            self.texture_ids.contains_key(id) && !(id matches ObjectIdentifier::Global(t)
                && board.textures.contains_key(t)) ==> after.texture_ids[id] == self.texture_ids[id]
        &&& forall|t: u64|
            board.textures.contains_key(t) ==> after.texture_names.contains_key(
                #[trigger] after.texture_ids[ObjectIdentifier::Global(t)],
            )
        &&& forall|internal: u64|
            self.texture_names.contains_key(internal) ==> after.texture_names.contains_key(internal)
        &&& forall|id: ObjectIdentifier|
            after.image_ids.contains_key(id) <==> self.image_ids.contains_key(id) || (
            id matches ObjectIdentifier::Global(g) && board.objects.contains_key(g)
                && board.objects[g] is Image)
        &&& forall|id: ObjectIdentifier|
            self.image_ids.contains_key(id) && !(id matches ObjectIdentifier::Global(g)
                && board.objects.contains_key(g) && board.objects[g] is Image)
                ==> after.image_ids[id] == self.image_ids[id]
    }

    /// Whether an event is taken up, or refused, without the graphics side:
    /// a confirmation, and an announced image whose texture is given by a
    /// name that has no handle on record.
    pub open spec fn unasked(self, event: BoardEventView) -> bool {
        match event {
            BoardEventView::ConfirmImage { local_id, global_id, texture_id } => true,
            BoardEventView::NewImage { id, x, y, texture } => texture matches TextureView::Existing {
                id: texture_id,
            } && !self.texture_ids.contains_key(ObjectIdentifier::Global(texture_id)),
        }
    }

    /// Whether an event is a confirmation that takes a global name from a
    /// texture: the image that it confirms refers to its texture by a global
    /// name that has a handle, and the confirmation gives the texture another
    /// global name. A server that names every texture once sends no such
    /// confirmation. After it, other images that refer to the texture by the
    /// name that it had find no handle under that name.
    pub open spec fn takes_global_name(self, event: BoardEventView) -> bool {
        event matches BoardEventView::ConfirmImage { local_id, global_id, texture_id } && {
            let old_id = ObjectIdentifier::Local(local_id);
            &&& self.confirmable(local_id, texture_id) is Ok
            &&& self.objects[old_id] matches BoardObject::Image(image)
            &&& image.texture matches ObjectIdentifier::Global(known)
            &&& known != texture_id
            &&& self.texture_ids.contains_key(image.texture)
        }
    }

    /// Every image that goes by a global name refers to its texture by a
    /// global name, and that texture has a handle.
    pub open spec fn settled(self) -> bool {
        forall|id: u64| #[trigger]
            self.objects.contains_key(ObjectIdentifier::Global(id)) ==> (
            self.objects[ObjectIdentifier::Global(id)] matches BoardObject::Image(image)
                ==> image.texture is Global && self.texture_ids.contains_key(image.texture))
    }
}

/// What an object of a stored board, stored under the global name `id`,
/// becomes on the mirror.
pub open spec fn mirrored(id: u64, object: BoardObject<u64>) -> BoardObject<ObjectIdentifier> {
    match object {
        BoardObject::Image(image) => BoardObject::Image(
            Image {
                id: ObjectIdentifier::Global(id),
                x: image.x,
                y: image.y,
                texture: ObjectIdentifier::Global(image.texture),
            },
        ),
        BoardObject::Line => BoardObject::Line,
    }
}

/// The client's mirror of the board.
pub struct LocalBoard {
    objects: IdMap<BoardObject<ObjectIdentifier>>,
    texture_internal_ids: IdMap<u64>,
    texture_internal_ids_reverse: HashMap<u64, ObjectIdentifier>,
    image_internal_ids: IdMap<u64>,
    local_id_counter: u64,
}

impl View for LocalBoard {
    type V = LocalBoardView;

    closed spec fn view(&self) -> LocalBoardView {
        LocalBoardView {
            objects: self.objects@,
            texture_ids: self.texture_internal_ids@,
            texture_names: self.texture_internal_ids_reverse@,
            image_ids: self.image_internal_ids@,
            counter: self.local_id_counter,
        }
    }
}

impl LocalBoard {
    /// An empty mirror. The first local name it makes up is 1.
    pub fn new() -> (board: LocalBoard)
        ensures
            board@ == LocalBoardView::empty(),
    {
        LocalBoard {
            objects: IdMap::new(),
            texture_internal_ids: IdMap::new(),
            texture_internal_ids_reverse: HashMap::new(),
            image_internal_ids: IdMap::new(),
            local_id_counter: 0,
        }
    }

    /// Makes up the next local name.
    fn next_local_id(&mut self) -> (id: u64)
        requires
            old(self)@.counter < u64::MAX,
        ensures
            id == old(self)@.counter + 1,
            final(self)@ == (LocalBoardView { counter: id, ..old(self)@ }),
    {
        self.local_id_counter = self.local_id_counter + 1;
        self.local_id_counter
    }

    fn init_image_id(&mut self, id: ObjectIdentifier, internal_id: u64)
        ensures
            final(self)@ == (LocalBoardView {
                image_ids: old(self)@.image_ids.insert(id, internal_id),
                ..old(self)@
            }),
    {
        self.image_internal_ids.insert(id, internal_id);
    }

    fn init_texture_id(&mut self, id: ObjectIdentifier, internal_id: u64)
        ensures
            final(self)@ == old(self)@.with_texture(id, internal_id),
    {
        self.texture_internal_ids.insert(id, internal_id);
        self.texture_internal_ids_reverse.insert(internal_id, id);
    }

    /// Puts an image on the board and records its handle.
    fn init_image(&mut self, id: ObjectIdentifier, x: u64, y: u64, texture: ObjectIdentifier, internal_id: u64)
        ensures
            final(self)@ == old(self)@.with_image(id, x, y, texture, internal_id),
    {
        self.init_image_id(id, internal_id);
        self.objects.insert(id, BoardObject::Image(Image { id, x, y, texture }));
    }

    /// Moves the handle of an image from its old name to its new one.
    fn update_image_id(&mut self, old_id: ObjectIdentifier, new_id: ObjectIdentifier)
        requires
            old(self)@.image_ids.contains_key(old_id),
        ensures
            final(self)@ == (LocalBoardView {
                image_ids: old(self)@.image_ids.remove(old_id).insert(
                    new_id,
                    old(self)@.image_ids[old_id],
                ),
                ..old(self)@
            }),
    {
        match self.image_internal_ids.remove(&old_id) {
            Some(internal_id) => {
                self.image_internal_ids.insert(new_id, internal_id);
            },
            None => {},
        }
    }

    /// Moves the handle of a texture from its old name to its new one, and
    /// gives the handle the new name.
    fn update_texture_id(&mut self, old_id: ObjectIdentifier, new_id: ObjectIdentifier)
        requires
            old(self)@.texture_ids.contains_key(old_id),
        ensures
            final(self)@ == (LocalBoardView {
                texture_ids: old(self)@.texture_ids.remove(old_id).insert(
                    new_id,
                    old(self)@.texture_ids[old_id],
                ),
                texture_names: old(self)@.texture_names.insert(old(self)@.texture_ids[old_id], new_id),
                ..old(self)@
            }),
    {
        match self.texture_internal_ids.remove(&old_id) {
            Some(internal_id) => {
                self.texture_internal_ids.insert(new_id, internal_id);
                self.texture_internal_ids_reverse.insert(internal_id, new_id);
            },
            None => {},
        }
    }
    /// Records an image that the user pasted, given what the graphics side
    /// answered: `created` to the request to make a texture of the bytes,
    /// and `image_internal` to the request to show the image (not looked at
    /// where no such request is made). Returns the action that tells the
    /// server.
    ///
    /// With fewer than two local names left nothing happens. If the graphics
    /// side refused the bytes, nothing is recorded and there is no action;
    /// only a local name is used up. Else the image gets the next local name.
    /// If the texture's handle already has a name, the action refers to the
    /// texture by that name. If not, the texture gets the local name after
    /// the image's and the action carries its bytes.
    pub fn record_new_image(
        &mut self,
        x: u64,
        y: u64,
        data: Vec<u8>,
        created: Option<u64>,
        image_internal: u64,
    ) -> (action: Option<BoardAction>)
        ensures
            final(self)@ == old(self)@.after_paste(x, y, data@, created, image_internal),
            match action {
                Some(a) => Some(a@) == old(self)@.paste_action(x, y, data@, created),
                None => old(self)@.paste_action(x, y, data@, created) is None,
            },
            old(self)@.settled() ==> final(self)@.settled(),
    {
        if self.local_id_counter >= u64::MAX - 1 {
            return None;
        }
        let img_local_id = self.next_local_id();
        let texture_internal = match created {
            Some(texture_internal) => texture_internal,
            None => {
                return None;
            },
        };
        let img_id = ObjectIdentifier::Local(img_local_id);
        let texture = match self.texture_internal_ids_reverse.get(&texture_internal) {
            Some(texture_id) => Texture::Existing { id: *texture_id },
            None => {
                let texture_id = ObjectIdentifier::Local(self.next_local_id());
                self.init_texture_id(texture_id, texture_internal);
                Texture::New { id: texture_id, data }
            },
        };
        self.init_image(img_id, x, y, texture.get_id(), image_internal);
        Some(BoardAction::NewImage { x, y, local_id: img_local_id, texture })
    }

    /// Takes up an image that the user pasted at `(x, y)`.
    ///
    /// With fewer than two local names left nothing happens, and the
    /// graphics side is not asked. Else the graphics side is asked to make a
    /// texture of the bytes and, if it does, to show it; the image is then
    /// recorded as `record_new_image` says, with what the graphics side
    /// answered.
    pub fn new_image<O: BoardObserver>(&mut self, x: u64, y: u64, data: Vec<u8>, observer: &mut O) -> (action:
        Option<BoardAction>)
        ensures
            old(self)@.exhausted() ==> action is None && final(self)@ == old(self)@ && *final(observer)
                == *old(observer),
            exists|created: Option<u64>, image_internal: u64|
                {
                    &&& final(self)@ == #[trigger] old(self)@.after_paste(
                        x,
                        y,
                        data@,
                        created,
                        image_internal,
                    )
                    &&& match action {
                        Some(a) => Some(a@) == old(self)@.paste_action(x, y, data@, created),
                        None => old(self)@.paste_action(x, y, data@, created) is None,
                    }
                },
            old(self)@.settled() ==> final(self)@.settled(),
    {
        if self.local_id_counter >= u64::MAX - 1 {
            assert(self@ == self@.after_paste(x, y, data@, None, 0));
            return None;
        }
        let created = observer.create_texture(copy_bytes(&data));
        let image_internal = match created {
            Some(texture_internal) => observer.new_image(x, y, texture_internal),
            None => 0,
        };
        self.record_new_image(x, y, data, created, image_internal)
    }

    /// Takes up a confirmation, if `confirmable` allows it.
    fn confirm_image(&mut self, local_id: u64, global_id: u64, texture_id: u64) -> (result: Result<
        (),
        EventError,
    >)
        ensures
            result == old(self)@.confirmable(local_id, texture_id),
            final(self)@ == (if result is Ok {
                old(self)@.confirmed(local_id, global_id, texture_id)
            } else {
                old(self)@
            }),
    {
        let img_old_id = ObjectIdentifier::Local(local_id);
        let img_new_id = ObjectIdentifier::Global(global_id);
        let texture_new_id = ObjectIdentifier::Global(texture_id);
        if !self.image_internal_ids.contains_key(&img_old_id) {
            return Err(EventError::UnknownImage);
        }
        let img = match self.objects.get(&img_old_id) {
            Some(BoardObject::Image(img)) => *img,
            Some(BoardObject::Line) => {
                return Err(EventError::UnknownImage);
            },
            None => {
                return Err(EventError::UnknownImage);
            },
        };
        let texture_old_id = img.texture;
        let rename = if self.texture_internal_ids.contains_key(&texture_old_id) {
            true
        } else if self.texture_internal_ids.contains_key(&texture_new_id) {
            false
        } else {
            return Err(EventError::UnknownTexture);
        };
        self.objects.remove(&img_old_id);
        self.update_image_id(img_old_id, img_new_id);
        if rename {
            self.update_texture_id(texture_old_id, texture_new_id);
        }
        self.objects.insert(
            img_new_id,
            BoardObject::Image(Image { id: img_new_id, x: img.x, y: img.y, texture: texture_new_id }),
        );
        Ok(())
    }

    /// Takes up an event from the server, given what the graphics side
    /// answered: `created` to the request to make the texture of an
    /// announced image (not looked at where no such request is made), and
    /// `image_internal` to the request to show the image.
    ///
    /// An announced image goes on the board under its global name. Its
    /// texture is recorded under the handle `created` if the event carries
    /// the bytes, and must have a handle on record if the event gives only
    /// its name. A confirmation renames a local image and its texture to
    /// their global names. An event that cannot be taken up changes nothing.
    pub fn record_event(&mut self, event: BoardEvent, created: Option<u64>, image_internal: u64) -> (result:
        Result<(), EventError>)
        ensures
            result == old(self)@.event_result(event@, created),
            final(self)@ == old(self)@.after_event(event@, created, image_internal),
            old(self)@.settled() && !old(self)@.takes_global_name(event@) ==> final(self)@.settled(),
    {
        match event {
            BoardEvent::NewImage { id, x, y, texture } => {
                let img_id = ObjectIdentifier::Global(id);
                let texture_id = ObjectIdentifier::Global(texture.get_id());
                let texture_internal = match texture {
                    Texture::New { id: _, data: _ } => match created {
                        Some(internal) => {
                            self.init_texture_id(texture_id, internal);
                            internal
                        },
                        None => {
                            return Err(EventError::TextureRejected);
                        },
                    },
                    Texture::Existing { id: _ } => match self.texture_internal_ids.get(&texture_id) {
                        Some(internal) => *internal,
                        None => {
                            return Err(EventError::UnknownTexture);
                        },
                    },
                };
                self.init_image(img_id, x, y, texture_id, image_internal);
                Ok(())
            },
            BoardEvent::ConfirmImage { local_id, global_id, texture_id } => {
                let result = self.confirm_image(local_id, global_id, texture_id);
                proof {
                    if result is Ok && old(self)@.settled() && !old(self)@.takes_global_name(event@) {
                        Self::lemma_confirmed_settled(old(self)@, local_id, global_id, texture_id);
                    }
                }
                result
            },
        }
    }

    /// A confirmation keeps a settled mirror settled, unless it takes a
    /// global name from a texture.
    proof fn lemma_confirmed_settled(state: LocalBoardView, local_id: u64, global_id: u64, texture_id: u64)
        requires
            state.settled(),
            state.confirmable(local_id, texture_id) is Ok,
            !state.takes_global_name(
                BoardEventView::ConfirmImage { local_id, global_id, texture_id },
            ),
        ensures
            state.confirmed(local_id, global_id, texture_id).settled(),
    {
        let after = state.confirmed(local_id, global_id, texture_id);
        assert forall|id: u64| #[trigger]
            after.objects.contains_key(ObjectIdentifier::Global(id)) implies (
        after.objects[ObjectIdentifier::Global(id)] matches BoardObject::Image(image)
            ==> image.texture is Global && after.texture_ids.contains_key(image.texture)) by {
            if id != global_id {
                assert(state.objects.contains_key(ObjectIdentifier::Global(id)));
            }
        }
    }

    /// Takes up an event from the server.
    ///
    /// For an announced image that comes with the bytes of its texture, the
    /// graphics side is asked to make the texture. Unless it refuses, or the
    /// event names a texture that has no handle on record, the graphics side
    /// is asked to show the image. The event is then taken up as
    /// `record_event` says, with what the graphics side answered. A
    /// confirmation needs nothing from the graphics side, which is left as
    /// it was; so it is where an announced image names an unknown texture.
    pub fn apply_event<O: BoardObserver>(&mut self, event: BoardEvent, observer: &mut O) -> (result: Result<
        (),
        EventError,
    >)
        ensures
            exists|created: Option<u64>, image_internal: u64|
                {
                    &&& result == old(self)@.event_result(event@, created)
                    &&& final(self)@ == #[trigger] old(self)@.after_event(
                        event@,
                        created,
                        image_internal,
                    )
                },
            old(self)@.settled() && !old(self)@.takes_global_name(event@) ==> final(self)@.settled(),
            old(self)@.unasked(event@) ==> *final(observer) == *old(observer),
    {
        match &event {
            BoardEvent::NewImage { id: _, x, y, texture } => {
                let created = match texture {
                    Texture::New { id: _, data } => observer.create_texture(copy_bytes(data)),
                    Texture::Existing { id: _ } => None,
                };
                let texture_internal = match texture {
                    Texture::New { id: _, data: _ } => match created {
                        Some(internal) => internal,
                        None => {
                            assert(self@ == self@.after_event(event@, None, 0));
                            return Err(EventError::TextureRejected);
                        },
                    },
                    Texture::Existing { id } => match self.texture_internal_ids.get(
                        &ObjectIdentifier::Global(*id),
                    ) {
                        Some(internal) => *internal,
                        None => {
                            assert(self@ == self@.after_event(event@, None, 0));
                            return Err(EventError::UnknownTexture);
                        },
                    },
                };
                let image_internal = observer.new_image(*x, *y, texture_internal);
                self.record_event(event, created, image_internal)
            },
            BoardEvent::ConfirmImage { local_id: _, global_id: _, texture_id: _ } => self.record_event(
                event,
                None,
                0,
            ),
        }
    }
    /// Whether every image of `board` has its texture on `board` or among the
    /// textures that the mirror knows.
    fn has_textures_of(&self, board: &Board<u64>, object_ids: &Vec<u64>) -> (complete: bool)
        requires
            object_ids@.to_set() == board.objects@.dom(),
        ensures
            complete == !self@.lacks_texture_of(board@),
    {
        let mut i: usize = 0;
        while i < object_ids.len()
            invariant
                i <= object_ids.len(),
                object_ids@.to_set() == board.objects@.dom(),
                forall|j: int|
                    0 <= j < i ==> !(#[trigger] board@.objects[object_ids@[j]] matches BoardObject::Image(
                        image,
                    ) && !board@.textures.contains_key(image.texture)
                        && !self@.texture_ids.contains_key(ObjectIdentifier::Global(image.texture))),
            decreases object_ids.len() - i,
        {
            let id = object_ids[i];
            assert(object_ids@.to_set().contains(id));
            match board.objects.get(&id) {
                Some(BoardObject::Image(image)) => {
                    if !board.textures.contains_key(&image.texture)
                        && !self.texture_internal_ids.contains_key(
                        &ObjectIdentifier::Global(image.texture),
                    ) {
                        return false;
                    }
                },
                _ => {},
            }
            i = i + 1;
        }
        proof {
            if self@.lacks_texture_of(board@) {
                let id = choose|id: u64|
                    #![trigger board@.objects[id]]
                    board@.objects.contains_key(id) && (board@.objects[id] matches BoardObject::Image(image)
                        && !board@.textures.contains_key(image.texture)
                        && !self@.texture_ids.contains_key(ObjectIdentifier::Global(image.texture)));
                assert(object_ids@.to_set().contains(id));
                let j = choose|j: int| 0 <= j < object_ids@.len() && object_ids@[j] == id;
                assert(board@.objects[object_ids@[j]] == board@.objects[id]);
            }
        }
        true
    }

    /// Loads a stored board on top of what the mirror holds.
    ///
    /// If an image of the stored board refers to a texture that is neither
    /// on that board nor known to the mirror, nothing is loaded and the
    /// result is `UnknownTexture`. Otherwise the graphics side is asked to
    /// make every texture of the stored board, from the smallest name to the
    /// largest; if it refuses one, the result is `TextureRejected`, no object
    /// has been loaded, and the textures made so far stay known. Otherwise the graphics side is asked to show every
    /// image, and the result is `Ok`: the mirror then holds every object of
    /// the stored board under its global name. Lines are kept and not shown.
    pub fn load<O: BoardObserver>(&mut self, board: Board<u64>, observer: &mut O) -> (result: Result<
        (),
        EventError,
    >)
        ensures
            result == Err::<(), EventError>(EventError::UnknownTexture) <==> old(self)@.lacks_texture_of(
                board@,
            ),
            result is Err ==> result == Err::<(), EventError>(EventError::UnknownTexture) || result
                == Err::<(), EventError>(EventError::TextureRejected),
            result == Err::<(), EventError>(EventError::UnknownTexture) ==> final(self)@ == old(self)@
                && *final(observer) == *old(observer),
            result == Err::<(), EventError>(EventError::TextureRejected) ==> exists|made: int| #[trigger]
                old(self)@.partly_loaded(board@, made, final(self)@),
            result is Ok ==> old(self)@.loaded(board@, final(self)@),
            result is Ok && old(self)@.settled() ==> final(self)@.settled(),
    {
        let object_ids = keys_of(&board.objects);
        if !self.has_textures_of(&board, &object_ids) {
            return Err(EventError::UnknownTexture);
        }
        let texture_ids = keys_of(&board.textures);
        assert(board@.textures.dom() =~= board.textures@.dom());
        let mut i: usize = 0;
        while i < texture_ids.len()
            invariant
                i <= texture_ids.len(),
                texture_ids@.no_duplicates(),
                texture_ids@.to_set() == board.textures@.dom(),
                texture_ids@ == sorted_keys(board@.textures.dom()),
                !old(self)@.lacks_texture_of(board@),
                self@.objects == old(self)@.objects,
                self@.image_ids == old(self)@.image_ids,
                self@.counter == old(self)@.counter,
                forall|id: ObjectIdentifier|
                    self@.texture_ids.contains_key(id) <==> old(self)@.texture_ids.contains_key(id) || (
                    id matches ObjectIdentifier::Global(t) && exists|j: int|
                        0 <= j < i && texture_ids@[j] == t),
                forall|id: ObjectIdentifier|
                    old(self)@.texture_ids.contains_key(id) && !(id matches ObjectIdentifier::Global(t)
                        && board@.textures.contains_key(t)) ==> self@.texture_ids[id] == old(
                        self,
                    )@.texture_ids[id],
                forall|j: int|
                    0 <= j < i ==> self@.texture_names.contains_key(
                        #[trigger] self@.texture_ids[ObjectIdentifier::Global(texture_ids@[j])],
                    ),
                forall|internal: u64|
                    old(self)@.texture_names.contains_key(internal) ==> self@.texture_names.contains_key(
                        internal,
                    ),
            decreases texture_ids.len() - i,
        {
            let id = texture_ids[i];
            assert(texture_ids@.to_set().contains(id));
            let created = match board.textures.get(&id) {
                Some(data) => observer.create_texture(copy_bytes(data)),
                None => None,
            };
            match created {
                Some(internal) => {
                    let ghost before = self@;
                    self.init_texture_id(ObjectIdentifier::Global(id), internal);
                    proof {
                        assert forall|name: ObjectIdentifier|
                            self@.texture_ids.contains_key(name) <==> old(self)@.texture_ids.contains_key(
                                name,
                            ) || (name matches ObjectIdentifier::Global(t) && exists|j: int|
                                0 <= j < i + 1 && texture_ids@[j] == t) by {
                            if name == ObjectIdentifier::Global(id) {
                                assert(0 <= i < i + 1 && texture_ids@[i as int] == id);
                            } else if before.texture_ids.contains_key(name)
                                && !old(self)@.texture_ids.contains_key(name) {
                                let t = name->Global_0;
                                let j = choose|j: int| 0 <= j < i && texture_ids@[j] == t;
                                assert(0 <= j < i + 1 && texture_ids@[j] == t);
                            }
                        }
                        assert forall|j: int| 0 <= j < i + 1 implies self@.texture_names.contains_key(
                            #[trigger] self@.texture_ids[ObjectIdentifier::Global(texture_ids@[j])],
                        ) by {
                            if j < i {
                                assert(texture_ids@[j] != texture_ids@[i as int]);
                                assert(before.texture_names.contains_key(
                                    before.texture_ids[ObjectIdentifier::Global(texture_ids@[j])],
                                ));
                            }
                        }
                    }
                },
                None => {
                    assert(old(self)@.partly_loaded(board@, i as int, self@));
                    return Err(EventError::TextureRejected);
                },
            }
            i = i + 1;
        }
        let ghost named = self@;
        proof {
            assert forall|id: ObjectIdentifier|
                named.texture_ids.contains_key(id) <==> old(self)@.texture_ids.contains_key(id) || (
                id matches ObjectIdentifier::Global(t) && board@.textures.contains_key(t)) by {
                if id matches ObjectIdentifier::Global(t) && board@.textures.contains_key(t) {
                    let t = id->Global_0;
                    assert(texture_ids@.to_set().contains(t));
                    let j = choose|j: int| 0 <= j < texture_ids@.len() && texture_ids@[j] == t;
                    assert(0 <= j < i && texture_ids@[j] == t);
                }
                if named.texture_ids.contains_key(id) && !old(self)@.texture_ids.contains_key(id) {
                    let t = id->Global_0;
                    let j = choose|j: int| 0 <= j < i && texture_ids@[j] == t;
                    assert(texture_ids@.to_set().contains(texture_ids@[j]));
                }
            }
            assert forall|t: u64|
                board@.textures.contains_key(t) implies named.texture_names.contains_key(
                #[trigger] named.texture_ids[ObjectIdentifier::Global(t)],
            ) by {
                assert(texture_ids@.to_set().contains(t));
                let j = choose|j: int| 0 <= j < texture_ids@.len() && texture_ids@[j] == t;
                assert(named.texture_names.contains_key(
                    named.texture_ids[ObjectIdentifier::Global(texture_ids@[j])],
                ));
            }
        }
        let mut k: usize = 0;
        while k < object_ids.len()
            invariant
                k <= object_ids.len(),
                object_ids@.no_duplicates(),
                object_ids@.to_set() == board.objects@.dom(),
                !old(self)@.lacks_texture_of(board@),
                self@.counter == old(self)@.counter,
                self@.texture_ids == named.texture_ids,
                self@.texture_names == named.texture_names,
                forall|id: ObjectIdentifier|
                    named.texture_ids.contains_key(id) <==> old(self)@.texture_ids.contains_key(id) || (
                    id matches ObjectIdentifier::Global(t) && board@.textures.contains_key(t)),
                forall|id: ObjectIdentifier|
                    self@.objects.contains_key(id) <==> old(self)@.objects.contains_key(id) || (
                    id matches ObjectIdentifier::Global(g) && exists|j: int|
                        0 <= j < k && object_ids@[j] == g),
                forall|id: ObjectIdentifier|
                    self@.objects.contains_key(id) ==> self@.objects[id] == (if (
                    id matches ObjectIdentifier::Global(g) && exists|j: int|
                        0 <= j < k && object_ids@[j] == g) {
                        mirrored(id->Global_0, board@.objects[id->Global_0])
                    } else {
                        old(self)@.objects[id]
                    }),
                forall|id: ObjectIdentifier|
                    self@.image_ids.contains_key(id) <==> old(self)@.image_ids.contains_key(id) || (
                    id matches ObjectIdentifier::Global(g) && board@.objects.contains_key(g)
                        && board@.objects[g] is Image && exists|j: int|
                        0 <= j < k && object_ids@[j] == g),
                forall|id: ObjectIdentifier|
                    old(self)@.image_ids.contains_key(id) && !(id matches ObjectIdentifier::Global(g)
                        && board@.objects.contains_key(g) && board@.objects[g] is Image)
                        ==> self@.image_ids[id] == old(self)@.image_ids[id],
            decreases object_ids.len() - k,
        {
            let id = object_ids[k];
            assert(object_ids@.to_set().contains(id));
            let ghost before = self@;
            match board.objects.get(&id) {
                Some(BoardObject::Image(image)) => {
                    let texture_id = ObjectIdentifier::Global(image.texture);
                    assert(board@.objects[id] == BoardObject::Image(*image));
                    assert(!(board@.objects[id] matches BoardObject::Image(image)
                        && !board@.textures.contains_key(image.texture)
                        && !old(self)@.texture_ids.contains_key(
                        ObjectIdentifier::Global(image.texture),
                    )));
                    assert(self@.texture_ids.contains_key(texture_id));
                    let texture_internal = match self.texture_internal_ids.get(&texture_id) {
                        Some(internal) => *internal,
                        None => unreached(),
                    };
                    let image_internal = observer.new_image(image.x, image.y, texture_internal);
                    self.init_image(ObjectIdentifier::Global(id), image.x, image.y, texture_id, image_internal);
                },
                Some(BoardObject::Line) => {
                    self.objects.insert(ObjectIdentifier::Global(id), BoardObject::Line);
                },
                None => {},
            }
            proof {
                assert forall|name: ObjectIdentifier|
                    self@.objects.contains_key(name) <==> old(self)@.objects.contains_key(name) || (
                    name matches ObjectIdentifier::Global(g) && exists|j: int|
                        0 <= j < k + 1 && object_ids@[j] == g) by {
                    if name == ObjectIdentifier::Global(id) {
                        assert(0 <= k < k + 1 && object_ids@[k as int] == id);
                    } else if before.objects.contains_key(name) && !old(self)@.objects.contains_key(
                        name,
                    ) {
                        let g = name->Global_0;
                        let j = choose|j: int| 0 <= j < k && object_ids@[j] == g;
                        assert(0 <= j < k + 1 && object_ids@[j] == g);
                    }
                }
                assert forall|name: ObjectIdentifier|
                    self@.objects.contains_key(name) implies self@.objects[name] == (if (
                name matches ObjectIdentifier::Global(g) && exists|j: int|
                    0 <= j < k + 1 && object_ids@[j] == g) {
                    mirrored(name->Global_0, board@.objects[name->Global_0])
                } else {
                    old(self)@.objects[name]
                }) by {
                    if name == ObjectIdentifier::Global(id) {
                        assert(0 <= k < k + 1 && object_ids@[k as int] == id);
                    } else {
                        assert(before.objects.contains_key(name));
                        if name matches ObjectIdentifier::Global(g) && exists|j: int|
                            0 <= j < k + 1 && object_ids@[j] == g {
                            let g = name->Global_0;
                            let j = choose|j: int| 0 <= j < k + 1 && object_ids@[j] == g;
                            assert(0 <= j < k && object_ids@[j] == g);
                        } else if name matches ObjectIdentifier::Global(g) && exists|j: int|
                            0 <= j < k && object_ids@[j] == g {
                            let g = name->Global_0;
                            let j = choose|j: int| 0 <= j < k && object_ids@[j] == g;
                            assert(0 <= j < k + 1 && object_ids@[j] == g);
                        }
                    }
                }
                assert forall|name: ObjectIdentifier|
                    self@.image_ids.contains_key(name) <==> old(self)@.image_ids.contains_key(name) || (
                    name matches ObjectIdentifier::Global(g) && board@.objects.contains_key(g)
                        && board@.objects[g] is Image && exists|j: int|
                        0 <= j < k + 1 && object_ids@[j] == g) by {
                    if name == ObjectIdentifier::Global(id) {
                        assert(0 <= k < k + 1 && object_ids@[k as int] == id);
                        if name matches ObjectIdentifier::Global(g) && board@.objects.contains_key(g)
                            && board@.objects[g] is Image && exists|j: int|
                            0 <= j < k && object_ids@[j] == g {
                            let j = choose|j: int| 0 <= j < k && object_ids@[j] == id;
                            assert(object_ids@[j] == object_ids@[k as int]);
                        }
                    } else if before.image_ids.contains_key(name) && !old(self)@.image_ids.contains_key(
                        name,
                    ) {
                        let g = name->Global_0;
                        let j = choose|j: int| 0 <= j < k && object_ids@[j] == g;
                        assert(0 <= j < k + 1 && object_ids@[j] == g);
                    } else if name matches ObjectIdentifier::Global(g) && board@.objects.contains_key(g)
                        && board@.objects[g] is Image && exists|j: int|
                        0 <= j < k + 1 && object_ids@[j] == g {
                        let g = name->Global_0;
                        let j = choose|j: int| 0 <= j < k + 1 && object_ids@[j] == g;
                        assert(0 <= j < k && object_ids@[j] == g);
                    }
                }
            }
            k = k + 1;
        }
        proof {
            let after = self@;
            assert forall|id: ObjectIdentifier|
                after.objects.contains_key(id) <==> old(self)@.loaded_objects(board@).contains_key(
                    id,
                ) by {
                if id matches ObjectIdentifier::Global(g) && board@.objects.contains_key(g) {
                    let g = id->Global_0;
                    assert(object_ids@.to_set().contains(g));
                    let j = choose|j: int| 0 <= j < object_ids@.len() && object_ids@[j] == g;
                    assert(0 <= j < k && object_ids@[j] == g);
                }
                if after.objects.contains_key(id) && !old(self)@.objects.contains_key(id) {
                    let g = id->Global_0;
                    let j = choose|j: int| 0 <= j < k && object_ids@[j] == g;
                    assert(object_ids@.to_set().contains(object_ids@[j]));
                }
            }
            assert forall|id: ObjectIdentifier|
                after.objects.contains_key(id) implies after.objects[id] == old(self)@.loaded_objects(
                board@,
            )[id] by {
                if id matches ObjectIdentifier::Global(g) && board@.objects.contains_key(g) {
                    let g = id->Global_0;
                    assert(object_ids@.to_set().contains(g));
                    let j = choose|j: int| 0 <= j < object_ids@.len() && object_ids@[j] == g;
                    assert(0 <= j < k && object_ids@[j] == g);
                } else if id matches ObjectIdentifier::Global(g) && exists|j: int|
                    0 <= j < k && object_ids@[j] == g {
                    let g = id->Global_0;
                    let j = choose|j: int| 0 <= j < k && object_ids@[j] == g;
                    assert(object_ids@.to_set().contains(object_ids@[j]));
                }
            }
            assert(after.objects =~= old(self)@.loaded_objects(board@));
            assert forall|id: ObjectIdentifier|
                after.image_ids.contains_key(id) <==> old(self)@.image_ids.contains_key(id) || (
                id matches ObjectIdentifier::Global(g) && board@.objects.contains_key(g)
                    && board@.objects[g] is Image) by {
                if id matches ObjectIdentifier::Global(g) && board@.objects.contains_key(g)
                    && board@.objects[g] is Image {
                    let g = id->Global_0;
                    assert(object_ids@.to_set().contains(g));
                    let j = choose|j: int| 0 <= j < object_ids@.len() && object_ids@[j] == g;
                    assert(0 <= j < k && object_ids@[j] == g);
                }
                if after.image_ids.contains_key(id) && !old(self)@.image_ids.contains_key(id) {
                    let g = id->Global_0;
                    let j = choose|j: int| 0 <= j < k && object_ids@[j] == g;
                    assert(object_ids@.to_set().contains(object_ids@[j]));
                }
            }
            if old(self)@.settled() {
                assert forall|g: u64| #[trigger]
                    after.objects.contains_key(ObjectIdentifier::Global(g)) implies (
                after.objects[ObjectIdentifier::Global(g)] matches BoardObject::Image(image)
                    ==> image.texture is Global && after.texture_ids.contains_key(image.texture)) by {
                    if board@.objects.contains_key(g) {
                        let object = board@.objects[g];
                        if object matches BoardObject::Image(image) {
                            assert(!(board@.objects[g] matches BoardObject::Image(image)
                                && !board@.textures.contains_key(image.texture)
                                && !old(self)@.texture_ids.contains_key(
                                ObjectIdentifier::Global(image.texture),
                            )));
                        }
                    } else {
                        assert(old(self)@.objects.contains_key(ObjectIdentifier::Global(g)));
                    }
                }
            }
        }
        Ok(())
    }
}

} // verus!
