//! The textures that a client holds, by content and by name.
//!
//! Every texture is placed once into the atlases and is known from then on
//! under the number that it was placed with. The same bytes are not placed
//! twice: they are found again by content. A texture's name changes when the
//! server confirms it; its number and its place stay.

use crate::board::common::ObjectIdentifier;
use crate::board::id_map::IdMap;
use crate::image_atlas::{BoundingBox, ImageAtlas, ImageAtlasView, Placement};
use crate::pixels::{
    decode_image, image_view, texture_from, texture_of, turn_image, RgbaImage, RgbaImageView,
};
use std::collections::HashMap;
use vstd::pervasive::unreached;
use vstd::prelude::*;

verus! {

/// No side of a texture is longer than this: larger images are made
/// smaller first.
pub const MAX_TEXTURE_SIDE: u32 = 256;

/// What is to be written into an atlas for a texture that was placed: the
/// pixels as they are stored, which are turned by a quarter if the placement
/// says so, and where they go.
#[derive(Clone, Debug, PartialEq, Eq)]
pub struct Upload {
    pub bounds: BoundingBox,
    pub new_atlas: bool,
    pub pixels: Vec<u8>,
}

/// The pixels of an image as they are stored under a placement.
pub open spec fn stored_pixels(image: RgbaImageView, placement: Placement) -> Seq<u8> {
    if placement.bounds.rotated {
        image.turned().pixels
    } else {
        image.pixels
    }
}

/// The bytes of a texture and the number that it was placed with.
struct CachedTexture {
    data: Vec<u8>,
    id: u64,
}

/// What a client knows of its textures: where each number was placed, which
/// number each content has, which number each name stands for, which name
/// each number was last given, and the next number to place with.
pub struct TexturesView {
    pub atlas: ImageAtlasView,
    pub cache: Map<Seq<u8>, u64>,
    pub id_to_atlas: Map<ObjectIdentifier, u64>,
    pub atlas_to_id: Map<u64, ObjectIdentifier>,
    pub current_id: u64,
}

impl TexturesView {
    /// The name of the texture with the given content: the name that the
    /// number of that content was last given.
    pub open spec fn texture_id(self, data: Seq<u8>) -> Option<ObjectIdentifier> {
        if self.cache.contains_key(data) && self.atlas_to_id.contains_key(self.cache[data]) {
            Some(self.atlas_to_id[self.cache[data]])
        } else {
            None
        }
    }

    /// Every number that a placement is recorded for was handed out: it is
    /// below the next number.
    pub open spec fn numbered(self) -> bool {
        forall|number: u64| #[trigger]
            self.atlas.images.contains_key(number) ==> number < self.current_id
    }

    /// Every placement of this state is a placement of `after`, unchanged.
    pub open spec fn keeps_placements(self, after: TexturesView) -> bool {
        forall|number: u64| #[trigger]
            self.atlas.images.contains_key(number) ==> after.atlas.images.contains_key(number)
                && after.atlas.images[number] == self.atlas.images[number]
    }

    /// Whether a texture of the given dimensions can be placed: a number is
    /// left for it and the atlases have or make room.
    pub open spec fn can_insert(self, width: u32, height: u32) -> bool {
        self.current_id < u64::MAX && self.atlas.can_place(width, height)
    }

    /// The state after a texture was offered for placing without a name. A
    /// number is used up if one is left. If the texture was placed, it is
    /// known by content under that number.
    pub open spec fn placed(self, data: Seq<u8>, width: u32, height: u32) -> TexturesView {
        if self.current_id == u64::MAX {
            self
        } else if self.atlas.can_place(width, height) {
            TexturesView {
                atlas: self.atlas.add_image(self.current_id, width, height),
                cache: self.cache.insert(data, self.current_id),
                current_id: (self.current_id + 1) as u64,
                ..self
            }
        } else {
            TexturesView { current_id: (self.current_id + 1) as u64, ..self }
        }
    }

    /// The state after a texture was offered for placing. A number is used
    /// up if one is left. If the texture was placed, it is known by content
    /// and by name under that number.
    pub open spec fn inserted(self, obj_id: ObjectIdentifier, data: Seq<u8>, width: u32, height: u32) -> TexturesView {
        if self.current_id == u64::MAX {
            self
        } else if self.atlas.can_place(width, height) {
            TexturesView {
                atlas: self.atlas.add_image(self.current_id, width, height),
                cache: self.cache.insert(data, self.current_id),
                id_to_atlas: self.id_to_atlas.insert(obj_id, self.current_id),
                atlas_to_id: self.atlas_to_id.insert(self.current_id, obj_id),
                current_id: (self.current_id + 1) as u64,
            }
        } else {
            TexturesView { current_id: (self.current_id + 1) as u64, ..self }
        }
    }

    /// Whether `after` and `made` are what becomes of this state, and what is
    /// answered, when a texture is to be made of the bytes `data`, which were
    /// read as `decoded`.
    ///
    /// If a texture was made of the same bytes before, its number is the
    /// answer and nothing changes. Else, if the bytes were read as an image
    /// that has all its pixels, the image is made small enough for a texture
    /// and offered for placing: a number is used up, and if the image is
    /// placed, the answer is that number and the pixels as they are stored
    /// under the placement. Else nothing changes and there is no answer.
    pub open spec fn created(
        self,
        data: Seq<u8>,
        decoded: Option<RgbaImageView>,
        after: TexturesView,
        made: Option<(u64, Option<Upload>)>,
    ) -> bool {
        if self.cache.contains_key(data) {
            after == self && made == Some((self.cache[data], None::<Upload>))
        } else {
            match texture_of(decoded, MAX_TEXTURE_SIDE) {
                Some(image) => {
                    &&& after == self.placed(data, image.width, image.height)
                    &&& match made {
                        Some((number, upload)) => {
                            &&& self.can_insert(image.width, image.height)
                            &&& number == self.current_id
                            &&& upload matches Some(upload)
                            &&& self.atlas.placement(image.width, image.height) == Some(
                                Placement { bounds: upload.bounds, new_atlas: upload.new_atlas },
                            )
                            &&& upload.pixels@ == stored_pixels(
                                image,
                                Placement { bounds: upload.bounds, new_atlas: upload.new_atlas },
                            )
                        },
                        None => !self.can_insert(image.width, image.height),
                    }
                },
                None => after == self && made is None,
            }
        }
    }

    /// Whether `after` and `placed` are what becomes of this state, and what
    /// is answered, when a texture is to be made under the name `obj_id` of
    /// the bytes `data`, which were read as `decoded`.
    ///
    /// If the bytes were read as an image that has all its pixels, the image
    /// is made small enough for a texture and offered for placing under the
    /// name: a number is used up, and if the image is placed, the answer is
    /// the pixels as they are stored under the placement. Else nothing
    /// changes and there is no answer.
    pub open spec fn named(
        self,
        obj_id: ObjectIdentifier,
        data: Seq<u8>,
        decoded: Option<RgbaImageView>,
        after: TexturesView,
        placed: Option<Upload>,
    ) -> bool {
        match texture_of(decoded, MAX_TEXTURE_SIDE) {
            Some(image) => {
                &&& after == self.inserted(obj_id, data, image.width, image.height)
                &&& match placed {
                    Some(upload) => {
                        &&& self.can_insert(image.width, image.height)
                        &&& self.atlas.placement(image.width, image.height) == Some(
                            Placement { bounds: upload.bounds, new_atlas: upload.new_atlas },
                        )
                        &&& upload.pixels@ == stored_pixels(
                            image,
                            Placement { bounds: upload.bounds, new_atlas: upload.new_atlas },
                        )
                    },
                    None => !self.can_insert(image.width, image.height),
                }
            },
            None => after == self && placed is None,
        }
    }

    /// The state after the texture named `old_id` was given the name
    /// `new_id`. Nothing changes if no texture is named `old_id`.
    pub open spec fn renamed(self, old_id: ObjectIdentifier, new_id: ObjectIdentifier) -> TexturesView {
        if self.id_to_atlas.contains_key(old_id) {
            let number = self.id_to_atlas[old_id];
            TexturesView {
                id_to_atlas: self.id_to_atlas.remove(old_id).insert(new_id, number),
                atlas_to_id: self.atlas_to_id.insert(number, new_id),
                ..self
            }
        } else {
            self
        }
    }
}

/// The sizes of an image after it was halved, again and again, until
/// neither side is longer than `max_size`.
pub open spec fn resized(width: u32, height: u32, max_size: u32) -> (u32, u32)
    decreases width + height,
{
    if width > max_size || height > max_size {
        resized(width / 2, height / 2, max_size)
    } else {
        (width, height)
    }
}

/// The sizes of an image after it was halved, again and again, until
/// neither side is longer than `max_size`.
pub fn resized_dimensions(width: u32, height: u32, max_size: u32) -> (size: (u32, u32))
    ensures
        size == resized(width, height, max_size),
        size.0 <= max_size,
        size.1 <= max_size,
{
    let mut w = width;
    let mut h = height;
    while w > max_size || h > max_size
        invariant
            resized(w, h, max_size) == resized(width, height, max_size),
        decreases w + h,
    {
        w = w / 2;
        h = h / 2;
    }
    (w, h)
}

/// The textures that a client holds.
pub struct Textures {
    atlas: ImageAtlas,
    cache: Vec<CachedTexture>,
    id_to_atlas: IdMap<u64>,
    atlas_to_id: HashMap<u64, ObjectIdentifier>,
    current_id: u64,
    by_content: Ghost<Map<Seq<u8>, u64>>,
}

/// No two entries have the same bytes.
spec fn distinct_contents(cache: Seq<CachedTexture>) -> bool {
    forall|i: int, j: int|
        0 <= i < j < cache.len() ==> (#[trigger] cache[i]).data@ != (#[trigger] cache[j]).data@
}

/// Every entry is in the map, with its number.
spec fn cached(cache: Seq<CachedTexture>, by_content: Map<Seq<u8>, u64>) -> bool {
    forall|i: int|
        0 <= i < cache.len() ==> by_content.contains_key((#[trigger] cache[i]).data@)
            && by_content[cache[i].data@] == cache[i].id
}

/// Everything in the map is an entry.
spec fn recorded(cache: Seq<CachedTexture>, by_content: Map<Seq<u8>, u64>) -> bool {
    forall|data: Seq<u8>| #[trigger]
        by_content.contains_key(data) ==> exists|i: int|
            0 <= i < cache.len() && (#[trigger] cache[i]).data@ == data
}

/// Every name stands for a number that was placed.
spec fn placed_names(id_to_atlas: Map<ObjectIdentifier, u64>, images: Map<u64, BoundingBox>) -> bool {
    forall|id: ObjectIdentifier| #[trigger]
        id_to_atlas.contains_key(id) ==> images.contains_key(id_to_atlas[id])
}

impl View for Textures {
    type V = TexturesView;

    closed spec fn view(&self) -> TexturesView {
        TexturesView {
            atlas: self.atlas@,
            cache: self.by_content@,
            id_to_atlas: self.id_to_atlas@,
            atlas_to_id: self.atlas_to_id@,
            current_id: self.current_id,
        }
    }
}

impl Textures {
    pub closed spec fn wf(&self) -> bool {
        &&& self.atlas.wf()
        &&& distinct_contents(self.cache@)
        &&& cached(self.cache@, self.by_content@)
        &&& recorded(self.cache@, self.by_content@)
        &&& placed_names(self.id_to_atlas@, self.atlas@.images)
        &&& self@.numbered()
    }

    /// In a well-formed registry every number in use was handed out, so that
    /// the next number is new and a placement, once recorded, stays.
    pub proof fn lemma_numbered(&self)
        requires
            self.wf(),
        ensures
            self@.numbered(),
    {
    }

    /// The allocator that the textures are placed with.
    pub closed spec fn atlas(&self) -> ImageAtlas {
        self.atlas
    }

    /// No texture yet, and no atlas.
    pub fn new() -> (textures: Textures)
        ensures
            textures.wf(),
            textures@.cache == Map::<Seq<u8>, u64>::empty(),
            textures@.id_to_atlas == Map::<ObjectIdentifier, u64>::empty(),
            textures@.atlas_to_id == Map::<u64, ObjectIdentifier>::empty(),
            textures@.atlas.atlases == Seq::<crate::image_atlas::AtlasView>::empty(),
            textures@.atlas.images == Map::<u64, BoundingBox>::empty(),
            textures@.current_id == 0,
    {
        let textures = Textures {
            atlas: ImageAtlas::new(),
            cache: Vec::new(),
            id_to_atlas: IdMap::new(),
            atlas_to_id: HashMap::new(),
            current_id: 0,
            by_content: Ghost(Map::empty()),
        };
        textures
    }

    /// The position of the entry for `data` in the cache, if there is one.
    fn find(&self, data: &Vec<u8>) -> (found: Option<usize>)
        requires
            self.wf(),
        ensures
            match found {
                Some(i) => i < self.cache@.len() && self.cache@[i as int].data@ == data@
                    && self@.cache.contains_key(data@) && self@.cache[data@]
                    == self.cache@[i as int].id,
                None => !self@.cache.contains_key(data@) && forall|j: int|
                    0 <= j < self.cache@.len() ==> (#[trigger] self.cache@[j]).data@ != data@,
            },
    {
        let mut i: usize = 0;
        while i < self.cache.len()
            invariant
                i <= self.cache@.len(),
                self.wf(),
                forall|j: int| 0 <= j < i ==> (#[trigger] self.cache@[j]).data@ != data@,
            decreases self.cache.len() - i,
        {
            if &self.cache[i].data == data {
                return Some(i);
            }
            i = i + 1;
        }
        None
    }

    /// Whether a texture with this content was placed.
    pub fn texture_exists(&self, data: &Vec<u8>) -> (exists: bool)
        requires
            self.wf(),
        ensures
            exists == self@.cache.contains_key(data@),
    {
        self.find(data).is_some()
    }

    /// The name of the texture with this content, if one was placed and its
    /// number has a name.
    pub fn get_texture_id(&self, data: &Vec<u8>) -> (id: Option<ObjectIdentifier>)
        requires
            self.wf(),
        ensures
            id == self@.texture_id(data@),
    {
        match self.find(data) {
            Some(i) => match self.atlas_to_id.get(&self.cache[i].id) {
                Some(id) => Some(*id),
                None => None,
            },
            None => None,
        }
    }

    /// The number that the texture with this content was placed with, if one
    /// was placed.
    pub fn texture_number(&self, data: &Vec<u8>) -> (number: Option<u64>)
        requires
            self.wf(),
        ensures
            number == (if self@.cache.contains_key(data@) {
                Some(self@.cache[data@])
            } else {
                None
            }),
    {
        match self.find(data) {
            Some(i) => Some(self.cache[i].id),
            None => None,
        }
    }

    /// Where the texture with this number was placed, if one was.
    pub fn bounds_of(&self, number: u64) -> (bounds: Option<BoundingBox>)
        ensures
            bounds == (if self@.atlas.images.contains_key(number) {
                Some(self@.atlas.images[number])
            } else {
                None
            }),
    {
        match self.atlas.get_image_bounds(&number) {
            Some(bounds) => Some(*bounds),
            None => None,
        }
    }

    /// Offers a texture for placing: its bytes and the dimensions of the
    /// image that the bytes hold.
    ///
    /// The texture is placed with the next number, which is used up whether
    /// it finds a place or not. If it does, the bytes are recorded under
    /// that number, and the number and the placement are returned. Without a
    /// number left nothing happens.
    pub fn place_texture(&mut self, data: Vec<u8>, width: u32, height: u32) -> (placed: Option<
        (u64, Placement),
    >)
        requires
            old(self).wf(),
        ensures
            final(self).wf(),
            final(self)@ == old(self)@.placed(data@, width, height),
            placed == (if old(self)@.current_id == u64::MAX {
                None
            } else {
                match old(self)@.atlas.placement(width, height) {
                    Some(placement) => Some((old(self)@.current_id, placement)),
                    None => None,
                }
            }),
            placed matches Some((number, placement)) ==> final(self)@.atlas.images.contains_key(number)
                && final(self)@.atlas.images[number] == placement.bounds,
            old(self)@.keeps_placements(final(self)@),
    {
        if self.current_id == u64::MAX {
            return None;
        }
        let id = self.current_id;
        let found = self.find(&data);
        self.current_id = self.current_id + 1;
        let placed = self.atlas.add_image(id, width, height);
        assert(placed is Some <==> old(self)@.atlas.can_place(width, height));
        assert(!old(self).atlas@.images.contains_key(id));
        assert(old(self)@.keeps_placements(self@));
        assert(self@.numbered()) by {
            assert forall|number: u64| #[trigger]
                self@.atlas.images.contains_key(number) implies number < self@.current_id by {
                if number != id {
                    assert(old(self)@.atlas.images.contains_key(number));
                }
            }
        }
        let ghost names = self.id_to_atlas@;
        let ghost images = self.atlas@.images;
        assert forall|name: ObjectIdentifier| #[trigger]
            names.contains_key(name) implies images.contains_key(names[name]) by {
            assert(old(self).id_to_atlas@.contains_key(name));
        }
        assert(placed_names(names, images));
        match placed {
            Some(placement) => {
                assert(self.atlas@.images.contains_key(id));
                let ghost before = self.cache@;
                let ghost content = data@;
                match found {
                    Some(i) => {
                        self.cache.set(i, CachedTexture { data, id });
                    },
                    None => {
                        self.cache.push(CachedTexture { data, id });
                    },
                }
                proof {
                    self.by_content = Ghost(self.by_content@.insert(content, id));
                    let after = self.cache@;
                    let by_content = self.by_content@;
                    assert forall|data: Seq<u8>| #[trigger]
                        by_content.contains_key(data) implies exists|i: int|
                        0 <= i < after.len() && (#[trigger] after[i]).data@ == data by {
                        if data == content {
                            let at = match found {
                                Some(i) => i as int,
                                None => before.len() as int,
                            };
                            assert(after[at].data@ == data);
                        } else {
                            let i = choose|i: int|
                                0 <= i < before.len() && (#[trigger] before[i]).data@ == data;
                            assert(after[i].data@ == data);
                        }
                    }
                    assert forall|i: int, j: int| 0 <= i < j < after.len() implies (
                    #[trigger] after[i]).data@ != (#[trigger] after[j]).data@ by {
                        if i < before.len() && j < before.len() {
                            assert(before[i].data@ != before[j].data@);
                        }
                    }
                    assert forall|i: int| 0 <= i < after.len() implies by_content.contains_key(
                        (#[trigger] after[i]).data@,
                    ) && by_content[after[i].data@] == after[i].id by {
                        if i < before.len() {
                            assert(old(self).by_content@.contains_key(before[i].data@));
                        }
                    }
                    assert(distinct_contents(after));
                    assert(cached(after, by_content));
                    assert(recorded(after, by_content));
                }
                Some((id, placement))
            },
            None => {
                assert(self.atlas@ == old(self).atlas@);
                None
            },
        }
    }

    /// Offers a texture for placing under a name; see `place_texture`. If
    /// the texture is placed, the name is recorded under its number, too.
    fn insert_sized(&mut self, obj_id: ObjectIdentifier, data: Vec<u8>, width: u32, height: u32) -> (placed:
        Option<Placement>)
        requires
            old(self).wf(),
        ensures
            final(self).wf(),
            old(self)@.keeps_placements(final(self)@),
            final(self)@ == old(self)@.inserted(obj_id, data@, width, height),
            placed == (if old(self)@.current_id == u64::MAX {
                None
            } else {
                old(self)@.atlas.placement(width, height)
            }),
    {
        match self.place_texture(data, width, height) {
            Some((id, placement)) => {
                self.atlas_to_id.insert(id, obj_id);
                self.id_to_atlas.insert(obj_id, id);
                let ghost names = self.id_to_atlas@;
                let ghost images = self.atlas@.images;
                assert forall|name: ObjectIdentifier| #[trigger]
                    names.contains_key(name) implies images.contains_key(names[name]) by {
                    if name != obj_id {
                        assert(old(self).id_to_atlas@.contains_key(name));
                    }
                }
                assert(placed_names(names, images));
                Some(placement)
            },
            None => None,
        }
    }

    /// The pixels to write into the atlas for an image that was placed.
    fn upload_for(image: RgbaImage, placement: Placement) -> (upload: Upload)
        requires
            image@.wf(),
        ensures
            upload.bounds == placement.bounds,
            upload.new_atlas == placement.new_atlas,
            upload.pixels@ == stored_pixels(image@, placement),
    {
        let pixels = if placement.bounds.rotated {
            turn_image(&image).pixels
        } else {
            image.pixels
        };
        Upload { bounds: placement.bounds, new_atlas: placement.new_atlas, pixels }
    }

    /// Places the image that the bytes `data` were read as, with the next
    /// number, and returns the number and what is to be written into the
    /// atlas. The number is used up whether the image finds a place or not.
    /// An image that lacks pixels is not placed, and uses up no number.
    pub fn place_image(&mut self, data: Vec<u8>, image: RgbaImage) -> (placed: Option<(u64, Upload)>)
        requires
            old(self).wf(),
        ensures
            final(self).wf(),
            old(self)@.keeps_placements(final(self)@),
            final(self)@ == (if image@.wf() {
                old(self)@.placed(data@, image.width, image.height)
            } else {
                old(self)@
            }),
            match placed {
                Some((number, upload)) => {
                    &&& image@.wf()
                    &&& old(self)@.can_insert(image.width, image.height)
                    &&& number == old(self)@.current_id
                    &&& old(self)@.atlas.placement(image.width, image.height) == Some(
                        Placement { bounds: upload.bounds, new_atlas: upload.new_atlas },
                    )
                    &&& upload.pixels@ == stored_pixels(
                        image@,
                        Placement { bounds: upload.bounds, new_atlas: upload.new_atlas },
                    )
                },
                None => !image@.wf() || !old(self)@.can_insert(image.width, image.height),
            },
    {
        if !image.is_whole() {
            return None;
        }
        match self.place_texture(data, image.width, image.height) {
            Some((number, placement)) => Some((number, Self::upload_for(image, placement))),
            None => None,
        }
    }

    /// Places the image that the bytes `data` were read as under a name; see
    /// `place_image`. If the image is placed, the name is recorded under its
    /// number, too.
    pub fn insert_image(&mut self, obj_id: ObjectIdentifier, data: Vec<u8>, image: RgbaImage) -> (placed:
        Option<Upload>)
        requires
            old(self).wf(),
        ensures
            final(self).wf(),
            old(self)@.keeps_placements(final(self)@),
            final(self)@ == (if image@.wf() {
                old(self)@.inserted(obj_id, data@, image.width, image.height)
            } else {
                old(self)@
            }),
            match placed {
                Some(upload) => {
                    &&& image@.wf()
                    &&& old(self)@.can_insert(image.width, image.height)
                    &&& old(self)@.atlas.placement(image.width, image.height) == Some(
                        Placement { bounds: upload.bounds, new_atlas: upload.new_atlas },
                    )
                    &&& upload.pixels@ == stored_pixels(
                        image@,
                        Placement { bounds: upload.bounds, new_atlas: upload.new_atlas },
                    )
                },
                None => !image@.wf() || !old(self)@.can_insert(image.width, image.height),
            },
    {
        if !image.is_whole() {
            return None;
        }
        match self.insert_sized(obj_id, data, image.width, image.height) {
            Some(placement) => Some(Self::upload_for(image, placement)),
            None => None,
        }
    }

    /// Makes a texture of the bytes of a file, given what the bytes were read
    /// as, unless a texture was made of the same bytes before: the number of
    /// the texture, and what is to be written into the atlas if the texture
    /// is new; see `created`.
    pub fn create_texture_with(&mut self, data: Vec<u8>, decoded: Option<RgbaImage>) -> (made: Option<
        (u64, Option<Upload>),
    >)
        requires
            old(self).wf(),
        ensures
            final(self).wf(),
            old(self)@.keeps_placements(final(self)@),
            old(self)@.created(data@, image_view(decoded), final(self)@, made),
    {
        match self.texture_number(&data) {
            Some(number) => Some((number, None)),
            None => match texture_from(decoded, MAX_TEXTURE_SIDE) {
                Some(image) => match self.place_image(data, image) {
                    Some((number, upload)) => Some((number, Some(upload))),
                    None => None,
                },
                None => None,
            },
        }
    }

    /// Makes a texture of the bytes of a file, unless one was made of the
    /// same bytes before: the number of the texture, and what is to be
    /// written into the atlas if the texture is new.
    ///
    /// Bytes of which a texture was made before are answered with its
    /// number, and nothing changes. Other bytes are read as an image, and
    /// whatever they are read as, the texture is made of that as
    /// `create_texture_with` says.
    pub fn create_texture(&mut self, data: Vec<u8>) -> (made: Option<(u64, Option<Upload>)>)
        requires
            old(self).wf(),
        ensures
            final(self).wf(),
            old(self)@.keeps_placements(final(self)@),
            old(self)@.cache.contains_key(data@) ==> final(self)@ == old(self)@ && made == Some(
                (old(self)@.cache[data@], None::<Upload>),
            ),
            exists|decoded: Option<RgbaImageView>| #[trigger]
                old(self)@.created(data@, decoded, final(self)@, made),
    {
        if let Some(number) = self.texture_number(&data) {
            assert(old(self)@.created(data@, None, self@, Some((number, None::<Upload>))));
            return Some((number, None));
        }
        let decoded = decode_image(data.as_slice());
        self.create_texture_with(data, decoded)
    }

    /// Makes a texture of the bytes of a file under a name, given what the
    /// bytes were read as; see `named`.
    pub fn insert_texture_with(&mut self, obj_id: ObjectIdentifier, data: Vec<u8>, decoded: Option<
        RgbaImage,
    >) -> (placed: Option<Upload>)
        requires
            old(self).wf(),
        ensures
            final(self).wf(),
            old(self)@.keeps_placements(final(self)@),
            old(self)@.named(obj_id, data@, image_view(decoded), final(self)@, placed),
    {
        match texture_from(decoded, MAX_TEXTURE_SIDE) {
            Some(image) => self.insert_image(obj_id, data, image),
            None => None,
        }
    }

    /// Makes a texture of the bytes of a file under a name: the bytes are
    /// read as an image, and whatever they are read as, the texture is made
    /// of that as `insert_texture_with` says.
    pub fn insert_texture(&mut self, obj_id: ObjectIdentifier, data: Vec<u8>) -> (placed: Option<Upload>)
        requires
            old(self).wf(),
        ensures
            final(self).wf(),
            old(self)@.keeps_placements(final(self)@),
            exists|decoded: Option<RgbaImageView>| #[trigger]
                old(self)@.named(obj_id, data@, decoded, final(self)@, placed),
    {
        let decoded = decode_image(data.as_slice());
        self.insert_texture_with(obj_id, data, decoded)
    }

    /// Whether a texture goes by this name.
    pub fn texture_known(&self, obj_id: ObjectIdentifier) -> (known: bool)
        ensures
            known == self@.id_to_atlas.contains_key(obj_id),
    {
        self.id_to_atlas.contains_key(&obj_id)
    }

    /// Where the texture of this name was placed.
    pub fn get_bounds(&self, obj_id: ObjectIdentifier) -> (bounds: BoundingBox)
        requires
            self.wf(),
            self@.id_to_atlas.contains_key(obj_id),
        ensures
            self@.atlas.images.contains_key(self@.id_to_atlas[obj_id]),
            bounds == self@.atlas.images[self@.id_to_atlas[obj_id]],
    {
        match self.id_to_atlas.get(&obj_id) {
            Some(atlas_id) => match self.atlas.get_image_bounds(atlas_id) {
                Some(bounds) => *bounds,
                None => unreached(),
            },
            None => unreached(),
        }
    }

    /// Gives the texture named `old_id` the name `new_id`. Nothing happens
    /// if no texture is named `old_id`.
    pub fn update_id(&mut self, old_id: ObjectIdentifier, new_id: ObjectIdentifier)
        requires
            old(self).wf(),
        ensures
            final(self).wf(),
            old(self)@.keeps_placements(final(self)@),
            final(self)@ == old(self)@.renamed(old_id, new_id),
    {
        proof {
            self.lemma_numbered();
        }
        match self.id_to_atlas.remove(&old_id) {
            Some(atlas_id) => {
                self.id_to_atlas.insert(new_id, atlas_id);
                self.atlas_to_id.insert(atlas_id, new_id);
                assert(self@.atlas == old(self)@.atlas && self@.current_id == old(self)@.current_id);
                assert(self@.numbered());
                let ghost names = self.id_to_atlas@;
                let ghost images = self.atlas@.images;
                assert forall|id: ObjectIdentifier| #[trigger]
                    names.contains_key(id) implies images.contains_key(names[id]) by {
                    if id != new_id {
                        assert(old(self).id_to_atlas@.contains_key(id));
                    } else {
                        assert(old(self).id_to_atlas@.contains_key(old_id));
                    }
                }
            },
            None => {
                assert(self.id_to_atlas@ =~= old(self).id_to_atlas@);
                assert(self@.atlas == old(self)@.atlas && self@.current_id == old(self)@.current_id);
                assert(self@.numbered());
            },
        }
    }
}

} // verus!
