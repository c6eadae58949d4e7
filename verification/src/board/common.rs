//! The values that travel between a client and the server, and the state of
//! a board.
//!
//! World-space coordinates are carried, never computed with: an `x` or `y`
//! here is the bit pattern of an IEEE 754 double, as `f64::to_bits` gives it.

use std::collections::HashMap;
use vstd::prelude::*;
use vstd::std_specs::iter::IteratorSpec;

verus! {

/// The name of an object or a texture. A local name is private to the client
/// that made it up; a global name was assigned by the server. A local and a
/// global name with the same number are different names.
#[derive(Clone, Copy, Debug, PartialEq, Eq, Hash, Structural)]
pub enum ObjectIdentifier {
    Local(u64),
    Global(u64),
}

/// A texture as it is referred to in an action or an event: with its bytes
/// when the receiver may not have it yet, by name alone otherwise.
#[derive(Clone, Debug, PartialEq, Eq)]
pub enum Texture<Id> {
    New { id: Id, data: Vec<u8> },
    Existing { id: Id },
}

/// A `Texture` as a mathematical value.
pub enum TextureView<Id> {
    New { id: Id, data: Seq<u8> },
    Existing { id: Id },
}

impl<Id> TextureView<Id> {
    pub open spec fn id(self) -> Id {
        match self {
            TextureView::New { id, data } => id,
            TextureView::Existing { id } => id,
        }
    }
}

impl<Id> View for Texture<Id> {
    type V = TextureView<Id>;

    open spec fn view(&self) -> TextureView<Id> {
        match *self {
            Texture::New { id, data } => TextureView::New { id, data: data@ },
            Texture::Existing { id } => TextureView::Existing { id },
        }
    }
}

impl<Id: Clone + Copy> Texture<Id> {
    /// The name that the texture goes by.
    pub fn get_id(&self) -> (id: Id)
        ensures
            id == self@.id(),
    {
        match self {
            Texture::New { id, data: _ } => *id,
            Texture::Existing { id } => *id,
        }
    }
}

/// A copy of `bytes`.
pub fn copy_bytes(bytes: &Vec<u8>) -> (copy: Vec<u8>)
    ensures
        copy@ == bytes@,
{
    let mut copy: Vec<u8> = Vec::with_capacity(bytes.len());
    let mut i: usize = 0;
    while i < bytes.len()
        invariant
            i <= bytes.len(),
            copy@ == bytes@.subrange(0, i as int),
        decreases bytes.len() - i,
    {
        copy.push(bytes[i]);
        assert(copy@ =~= bytes@.subrange(0, i + 1));
        i = i + 1;
    }
    assert(bytes@.subrange(0, bytes.len() as int) =~= bytes@);
    copy
}

/// A copy of a texture reference under a global name.
pub fn copy_texture(texture: &Texture<u64>) -> (copy: Texture<u64>)
    ensures
        copy@ == texture@,
{
    match texture {
        Texture::New { id, data } => Texture::New { id: *id, data: copy_bytes(data) },
        Texture::Existing { id } => Texture::Existing { id: *id },
    }
}

/// Each number of `s` is smaller than the next.
pub open spec fn increasing(s: Seq<u64>) -> bool {
    forall|i: int, j: int| 0 <= i < j < s.len() ==> s[i] < s[j]
}

/// The numbers of `keys` from the smallest to the largest.
pub open spec fn sorted_keys(keys: Set<u64>) -> Seq<u64> {
    choose|s: Seq<u64>| increasing(s) && s.to_set() == keys
}

/// There is one way only to put numbers in increasing order.
pub proof fn lemma_increasing_unique(a: Seq<u64>, b: Seq<u64>)
    requires
        increasing(a),
        increasing(b),
        a.to_set() == b.to_set(),
    ensures
        a == b,
    decreases a.len(),
{
    if a.len() == 0 {
        if b.len() > 0 {
            assert(b.to_set().contains(b[0]));
            assert(a.to_set().contains(b[0]));
        }
        assert(a =~= b);
    } else {
        assert(a.to_set().contains(a[0]));
        assert(b.to_set().contains(a[0]));
        let at = choose|at: int| 0 <= at < b.len() && b[at] == a[0];
        assert(b.to_set().contains(b[0]));
        assert(a.to_set().contains(b[0]));
        let back = choose|back: int| 0 <= back < a.len() && a[back] == b[0];
        assert(a[0] == b[0]) by {
            if at > 0 {
                assert(b[0] < b[at]);
            }
            if back > 0 {
                assert(a[0] < a[back]);
            }
        }
        let a1 = a.drop_first();
        let b1 = b.drop_first();
        assert forall|k: u64| a1.to_set().contains(k) <==> b1.to_set().contains(k) by {
            if a1.contains(k) {
                let i = choose|i: int| 0 <= i < a1.len() && a1[i] == k;
                assert(a[i + 1] == k);
                assert(a[0] < a[i + 1]);
                assert(a.to_set().contains(k));
                assert(b.to_set().contains(k));
                let j = choose|j: int| 0 <= j < b.len() && b[j] == k;
                assert(j > 0);
                assert(b1[j - 1] == k);
            }
            if b1.contains(k) {
                let i = choose|i: int| 0 <= i < b1.len() && b1[i] == k;
                assert(b[i + 1] == k);
                assert(b[0] < b[i + 1]);
                assert(b.to_set().contains(k));
                assert(a.to_set().contains(k));
                let j = choose|j: int| 0 <= j < a.len() && a[j] == k;
                assert(j > 0);
                assert(a1[j - 1] == k);
            }
        }
        assert(a1.to_set() =~= b1.to_set());
        assert forall|i: int, j: int| 0 <= i < j < a1.len() implies a1[i] < a1[j] by {
            assert(a[i + 1] < a[j + 1]);
        }
        assert forall|i: int, j: int| 0 <= i < j < b1.len() implies b1[i] < b1[j] by {
            assert(b[i + 1] < b[j + 1]);
        }
        lemma_increasing_unique(a1, b1);
        assert(a =~= seq![a[0]] + a1);
        assert(b =~= seq![b[0]] + b1);
    }
}

/// Puts `key` into `keys`, which are in increasing order, at its place.
/// A key that is there already is not put in again.
fn insert_sorted(keys: &mut Vec<u64>, key: u64)
    requires
        increasing(old(keys)@),
    ensures
        increasing(final(keys)@),
        final(keys)@.to_set() == old(keys)@.to_set().insert(key),
{
    let mut at: usize = 0;
    while at < keys.len() && keys[at] < key
        invariant
            at <= keys@.len(),
            keys@ == old(keys)@,
            increasing(keys@),
            forall|i: int| 0 <= i < at ==> keys@[i] < key,
        decreases keys.len() - at,
    {
        at = at + 1;
    }
    let ghost before = keys@;
    if at < keys.len() && keys[at] == key {
        assert(before.to_set().contains(before[at as int]));
        assert(before.to_set() =~= before.to_set().insert(key));
        return;
    }
    keys.insert(at, key);
    proof {
        let after = keys@;
        assert forall|i: int, j: int| 0 <= i < j < after.len() implies after[i] < after[j] by {
            let i0 = if i < at { i } else { i - 1 };
            let j0 = if j < at { j } else { j - 1 };
            if i != at && j != at {
                assert(before[i0] < before[j0]);
            } else if i == at {
                assert(after[j] == before[j - 1]);
                if j - 1 > at {
                    assert(before[at as int] < before[j - 1]);
                }
            } else {
                assert(after[i] == before[i]);
            }
        }
        assert forall|k: u64| after.to_set().contains(k) <==> before.to_set().insert(key).contains(
            k,
        ) by {
            if after.contains(k) {
                let i = choose|i: int| 0 <= i < after.len() && after[i] == k;
                if i < at {
                    assert(before[i] == k);
                } else if i > at {
                    assert(before[i - 1] == k);
                }
            }
            if before.contains(k) {
                let i = choose|i: int| 0 <= i < before.len() && before[i] == k;
                if i < at {
                    assert(after[i] == k);
                } else {
                    assert(after[i + 1] == k);
                }
            }
            if k == key {
                assert(after[at as int] == k);
            }
        }
        assert(after.to_set() =~= before.to_set().insert(key));
    }
}

/// The keys of `map`, from the smallest to the largest.
pub fn keys_of<V>(map: &HashMap<u64, V>) -> (keys: Vec<u64>)
    ensures
        keys@ == sorted_keys(map@.dom()),
        increasing(keys@),
        keys@.no_duplicates(),
        keys@.to_set() == map@.dom(),
{
    let mut keys: Vec<u64> = Vec::new();
    let ghost walk: Seq<u64> = map.keys().remaining().unref();
    assert(keys@.to_set() =~= walk.take(0).to_set());
    for key in it: map.keys()
        invariant
            it.seq().unref() == walk,
            walk.to_set() == map@.dom(),
            increasing(keys@),
            keys@.to_set() == walk.take(it.index()).to_set(),
    {
        let ghost seen = walk.take(it.index());
        insert_sorted(&mut keys, *key);
        proof {
            let more = walk.take(it.index() + 1);
            assert(more =~= seen.push(*key));
            assert forall|k: u64| more.to_set().contains(k) <==> seen.to_set().insert(*key).contains(
                k,
            ) by {
                if more.contains(k) {
                    let i = choose|i: int| 0 <= i < more.len() && more[i] == k;
                    if i < seen.len() {
                        assert(seen[i] == k);
                    }
                }
                if seen.contains(k) {
                    let i = choose|i: int| 0 <= i < seen.len() && seen[i] == k;
                    assert(more[i] == k);
                }
                if k == *key {
                    assert(more[seen.len() as int] == k);
                }
            }
            assert(more.to_set() =~= seen.to_set().insert(*key));
        }
    }
    proof {
        assert(walk.take(walk.len() as int) =~= walk);
        let chosen = sorted_keys(map@.dom());
        assert(increasing(chosen) && chosen.to_set() == map@.dom());
        lemma_increasing_unique(keys@, chosen);
        assert forall|i: int, j: int| 0 <= i < keys@.len() && 0 <= j < keys@.len() && i != j implies keys@[i]
            != keys@[j] by {
            if i < j {
                assert(keys@[i] < keys@[j]);
            } else {
                assert(keys@[j] < keys@[i]);
            }
        }
    }
    keys
}

/// What a client asks the server to do.
#[derive(Clone, Debug, PartialEq, Eq)]
pub enum BoardAction {
    /// Put an image at `(x, y)`. `local_id` is the client's name for the
    /// image.
    NewImage { x: u64, y: u64, local_id: u64, texture: Texture<ObjectIdentifier> },
}

/// A `BoardAction` as a mathematical value.
pub enum BoardActionView {
    NewImage { x: u64, y: u64, local_id: u64, texture: TextureView<ObjectIdentifier> },
}

impl View for BoardAction {
    type V = BoardActionView;

    open spec fn view(&self) -> BoardActionView {
        match *self {
            BoardAction::NewImage { x, y, local_id, texture } => BoardActionView::NewImage {
                x,
                y,
                local_id,
                texture: texture@,
            },
        }
    }
}

/// What the server tells a client.
#[derive(Clone, Debug, PartialEq, Eq)]
pub enum BoardEvent {
    /// Somebody else put an image on the board.
    NewImage { id: u64, x: u64, y: u64, texture: Texture<u64> },
    /// The receiver's own image and its texture now go by global names.
    ConfirmImage { local_id: u64, global_id: u64, texture_id: u64 },
}

/// A `BoardEvent` as a mathematical value.
pub enum BoardEventView {
    NewImage { id: u64, x: u64, y: u64, texture: TextureView<u64> },
    ConfirmImage { local_id: u64, global_id: u64, texture_id: u64 },
}

impl View for BoardEvent {
    type V = BoardEventView;

    open spec fn view(&self) -> BoardEventView {
        match *self {
            BoardEvent::NewImage { id, x, y, texture } => BoardEventView::NewImage {
                id,
                x,
                y,
                texture: texture@,
            },
            BoardEvent::ConfirmImage { local_id, global_id, texture_id } => BoardEventView::ConfirmImage {
                local_id,
                global_id,
                texture_id,
            },
        }
    }
}

/// An image on a board: its own name, its place and the name of its texture.
#[derive(Clone, Copy, Debug, PartialEq, Eq)]
pub struct Image<Id> {
    pub id: Id,
    pub x: u64,
    pub y: u64,
    pub texture: Id,
}

/// An object on a board. Lines are kept where they occur in stored boards;
/// nothing creates them yet.
#[derive(Clone, Copy, Debug, PartialEq, Eq)]
pub enum BoardObject<Id> {
    Image(Image<Id>),
    Line,
}

/// The state of a board: its objects and the bytes of its textures, each by
/// name.
#[derive(Clone, Debug)]
pub struct Board<Id> {
    pub objects: HashMap<Id, BoardObject<Id>>,
    pub textures: HashMap<Id, Vec<u8>>,
}

/// A server-side board as a mathematical value.
pub struct BoardView {
    pub objects: Map<u64, BoardObject<u64>>,
    pub textures: Map<u64, Seq<u8>>,
}

impl View for Board<u64> {
    type V = BoardView;

    open spec fn view(&self) -> BoardView {
        BoardView {
            objects: self.objects@,
            textures: Map::new(
                |id: u64| self.textures@.contains_key(id),
                |id: u64| self.textures@[id]@,
            ),
        }
    }
}

impl BoardView {
    pub open spec fn empty() -> BoardView {
        BoardView { objects: Map::empty(), textures: Map::empty() }
    }

    /// Whether `id` names an object or a texture of the board.
    pub open spec fn uses(self, id: u64) -> bool {
        self.objects.contains_key(id) || self.textures.contains_key(id)
    }

    /// Whether the texture named `id` has exactly the bytes `data`.
    pub open spec fn holds_bytes(self, id: u64, data: Seq<u8>) -> bool {
        self.textures.contains_key(id) && self.textures[id] == data
    }

    /// Whether some texture of the board has exactly the bytes `data`.
    pub open spec fn knows_bytes(self, data: Seq<u8>) -> bool {
        exists|id: u64| self.holds_bytes(id, data)
    }

    /// The invariants of a board that grew from an empty one: an image is
    /// stored under its own name, its texture is on the board, no name is
    /// used for both an object and a texture, and no two textures have the
    /// same bytes.
    pub open spec fn consistent(self) -> bool {
        &&& forall|id: u64| #[trigger]
            self.objects.contains_key(id) ==> (self.objects[id] matches BoardObject::Image(image)
                ==> image.id == id && self.textures.contains_key(image.texture))
        &&& forall|id: u64|
            !(#[trigger] self.objects.contains_key(id) && #[trigger] self.textures.contains_key(id))
        &&& forall|a: u64, b: u64|
            #![trigger self.textures[a], self.textures[b]]
            self.textures.contains_key(a) && self.textures.contains_key(b) && self.textures[a]
                == self.textures[b] ==> a == b
    }
}

} // verus!
