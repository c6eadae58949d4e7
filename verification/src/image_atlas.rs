//! Shelf packing of image rectangles into square texture atlases.
//!
//! Every atlas is `ATLAS_SIZE` pixels on a side and is cut into horizontal
//! rows of one fixed height, its row size. Images are turned so that they are
//! at least as tall as wide and are then put side by side into the first row
//! that still has room for them.

use std::collections::HashMap;
use vstd::prelude::*;

verus! {

/// Side length, in pixels, of every texture atlas.
pub const ATLAS_SIZE: u32 = 2048;

/// Smallest row height an atlas may be created with.
pub const MIN_ROW_SIZE: u32 = 32;

/// Images no taller than this are admitted into rows of any height.
pub const SMALL_IMAGE: u32 = 16;

/// Where an image was put: the atlas, the top-left corner inside it and the
/// stored (normalised) dimensions. `rotated` tells that the stored image is
/// the given one turned by a quarter, so that `width` holds the height and
/// `height` the width of the image as it was given.
#[derive(Clone, Copy, Debug, PartialEq, Eq, Structural)]
pub struct BoundingBox {
    pub atlas_id: u32,
    pub x: u32,
    pub y: u32,
    pub width: u32,
    pub height: u32,
    pub rotated: bool,
}

/// What `ImageAtlas::add_image` hands back: the place of the image and whether
/// an atlas had to be created for it.
#[derive(Clone, Copy, Debug, PartialEq, Eq, Structural)]
pub struct Placement {
    pub bounds: BoundingBox,
    pub new_atlas: bool,
}

pub open spec fn is_power_of_two(n: nat) -> bool
    decreases n,
{
    n == 1 || (n > 1 && n % 2 == 0 && is_power_of_two(n / 2))
}

/// The heights a row may have: powers of two from `MIN_ROW_SIZE` up to the
/// whole atlas.
pub open spec fn is_row_size(r: u32) -> bool {
    MIN_ROW_SIZE <= r <= ATLAS_SIZE && is_power_of_two(r as nat)
}

/// Doubles `r` until it reaches `side`.
pub open spec fn row_size_from(r: nat, side: nat) -> nat
    decreases
        (if r < side {
            side - r
        } else {
            0
        }),
{
    if r == 0 {
        0
    } else if r >= side {
        r
    } else {
        row_size_from(2 * r, side)
    }
}

/// The row size of an atlas created for an image whose longer side is `side`.
pub open spec fn row_size_for(side: u32) -> nat {
    row_size_from(MIN_ROW_SIZE as nat, side as nat)
}

pub open spec fn normalised_width(width: u32, height: u32) -> u32 {
    if width > height {
        height
    } else {
        width
    }
}

pub open spec fn normalised_height(width: u32, height: u32) -> u32 {
    if width > height {
        width
    } else {
        height
    }
}

/// The part of the atlas plane that a placement covers is
/// `[x, x + width) x [y, y + height)`; two placements are disjoint when these
/// do not meet.
pub open spec fn disjoint(a: BoundingBox, b: BoundingBox) -> bool {
    ||| a.x + a.width <= b.x
    ||| b.x + b.width <= a.x
    ||| a.y + a.height <= b.y
    ||| b.y + b.height <= a.y
}

/// Index of the first row at or after `from` that has room for `w` more
/// pixels; `usage.len()` when there is none.
pub open spec fn first_fit(usage: Seq<u32>, w: u32, from: int) -> int
    decreases usage.len() - from,
{
    if from < 0 || from >= usage.len() {
        usage.len() as int
    } else if usage[from] + w <= ATLAS_SIZE {
        from
    } else {
        first_fit(usage, w, from + 1)
    }
}

/// The state of one atlas that placement depends on.
pub struct AtlasView {
    pub id: u32,
    pub row_size: u32,
    pub usage: Seq<u32>,
}

impl AtlasView {
    /// A fresh atlas: `ATLAS_SIZE / row_size` rows, all empty.
    pub open spec fn fresh(id: u32, row_size: u32) -> AtlasView {
        AtlasView {
            id,
            row_size,
            usage: Seq::new((ATLAS_SIZE / row_size) as nat, |i: int| 0u32),
        }
    }

    /// The atlas has a row size that a row may have, as many rows as fit
    /// an atlas, and no row filled beyond the side of the atlas.
    pub open spec fn wf(self) -> bool {
        &&& is_row_size(self.row_size)
        &&& self.usage.len() == ATLAS_SIZE / self.row_size
        &&& forall|r: int| 0 <= r < self.usage.len() ==> #[trigger] self.usage[r] <= ATLAS_SIZE
    }

    /// Admission by height alone: the image is not taller than a row, and it
    /// is either small or fills more than half of the row's height.
    pub open spec fn admits(self, h: u32) -> bool {
        h <= self.row_size && !(h > SMALL_IMAGE && h <= self.row_size / 2)
    }

    /// The row that an image of the given dimensions goes to, if any.
    pub open spec fn row_for(self, width: u32, height: u32) -> Option<int> {
        let w = normalised_width(width, height);
        let h = normalised_height(width, height);
        let row = first_fit(self.usage, w, 0);
        if self.admits(h) && row < self.usage.len() {
            Some(row)
        } else {
            None
        }
    }

    pub open spec fn accepts(self, width: u32, height: u32) -> bool {
        self.row_for(width, height) is Some
    }

    /// The placement that an accepted image receives.
    pub open spec fn place(self, width: u32, height: u32) -> BoundingBox
        recommends
            self.accepts(width, height),
    {
        let row = self.row_for(width, height).unwrap();
        BoundingBox {
            atlas_id: self.id,
            x: self.usage[row],
            y: (row * self.row_size) as u32,
            width: normalised_width(width, height),
            height: normalised_height(width, height),
            rotated: width > height,
        }
    }

    /// The atlas after it has taken an image (unchanged if it rejects it).
    pub open spec fn after_place(self, width: u32, height: u32) -> AtlasView {
        match self.row_for(width, height) {
            Some(row) => AtlasView {
                usage: self.usage.update(
                    row,
                    (self.usage[row] + normalised_width(width, height)) as u32,
                ),
                ..self
            },
            None => self,
        }
    }
}

/// Index of the first atlas at or after `from` that accepts the image;
/// `atlases.len()` when none does.
pub open spec fn first_accepting(atlases: Seq<AtlasView>, width: u32, height: u32, from: int) -> int
    decreases atlases.len() - from,
{
    if from < 0 || from >= atlases.len() {
        atlases.len() as int
    } else if atlases[from].accepts(width, height) {
        from
    } else {
        first_accepting(atlases, width, height, from + 1)
    }
}

/// One atlas: its row height and how far each row is filled.
pub struct SingleAtlas {
    id: u32,
    row_size: u32,
    row_usage: Vec<u32>,
    placed: Ghost<Seq<BoundingBox>>,
}

impl View for SingleAtlas {
    type V = AtlasView;

    closed spec fn view(&self) -> AtlasView {
        AtlasView { id: self.id, row_size: self.row_size, usage: self.row_usage@ }
    }
}

/// A placement lies in one row of an atlas with the given row height and
/// ends at or before that row's fill mark.
pub open spec fn within_row(b: BoundingBox, atlas: AtlasView) -> bool {
    &&& b.atlas_id == atlas.id
    &&& b.width <= b.height <= atlas.row_size
    &&& b.y % atlas.row_size == 0
    &&& b.y / atlas.row_size < atlas.usage.len()
    &&& b.x + b.width <= atlas.usage[b.y as int / atlas.row_size as int]
}

pub open spec fn pairwise_disjoint(boxes: Seq<BoundingBox>) -> bool {
    forall|i: int, j: int|
        0 <= i < boxes.len() && 0 <= j < boxes.len() && i != j ==> disjoint(
            #[trigger] boxes[i],
            #[trigger] boxes[j],
        )
}

impl SingleAtlas {
    /// Every placement handed out so far, oldest first.
    pub closed spec fn placements(&self) -> Seq<BoundingBox> {
        self.placed@
    }

    pub closed spec fn wf(&self) -> bool {
        &&& is_row_size(self.row_size)
        &&& self.row_usage@.len() == ATLAS_SIZE / self.row_size
        &&& forall|r: int| 0 <= r < self.row_usage@.len() ==> #[trigger] self.row_usage@[r] <= ATLAS_SIZE
        &&& forall|i: int| 0 <= i < self.placed@.len() ==> within_row(#[trigger] self.placed@[i], self@)
        &&& pairwise_disjoint(self.placed@)
    }

    /// What a well-formed atlas is: its rows are as `AtlasView::wf` says;
    /// every placement that it handed out lies in one of its rows, with its
    /// top on the top of the row and its right edge at or before the row's
    /// fill mark; and no two of them overlap.
    pub proof fn lemma_wf(&self)
        requires
            self.wf(),
        ensures
            self@.wf(),
            forall|i: int|
                0 <= i < self.placements().len() ==> within_row(#[trigger] self.placements()[i], self@),
            pairwise_disjoint(self.placements()),
    {
    }

    /// An empty atlas with rows of height `row_size`.
    pub fn new(id: u32, row_size: u32) -> (atlas: SingleAtlas)
        requires
            is_row_size(row_size),
        ensures
            atlas.wf(),
            atlas@ == AtlasView::fresh(id, row_size),
            atlas.placements() == Seq::<BoundingBox>::empty(),
    {
        let rows: u32 = ATLAS_SIZE / row_size;
        let mut row_usage: Vec<u32> = Vec::new();
        let mut i: u32 = 0;
        while i < rows
            invariant
                i <= rows,
                row_usage@.len() == i,
                forall|r: int| 0 <= r < i ==> row_usage@[r] == 0,
            decreases rows - i,
        {
            row_usage.push(0);
            i = i + 1;
        }
        let atlas = SingleAtlas { id, row_size, row_usage, placed: Ghost(Seq::empty()) };
        assert(atlas@.usage =~= AtlasView::fresh(id, row_size).usage);
        atlas
    }

    /// Tries to put an image of the given dimensions into this atlas.
    ///
    /// The image is turned so that it is at least as tall as wide. It is
    /// rejected when it is taller than a row, or taller than `SMALL_IMAGE`
    /// yet no more than half a row high, or when no row has room left for its
    /// width. Otherwise it goes to the first row with room, at that row's
    /// fill mark, and the mark moves on by the image's width.
    pub fn add_image(&mut self, width: u32, height: u32) -> (result: Option<BoundingBox>)
        requires
            old(self).wf(),
        ensures
            final(self).wf(),
            final(self)@ == old(self)@.after_place(width, height),
            result is Some <==> old(self)@.accepts(width, height),
            result matches Some(b) ==> {
                &&& b == old(self)@.place(width, height)
                &&& final(self).placements() == old(self).placements().push(b)
                &&& b.x + b.width <= ATLAS_SIZE
                &&& b.y + b.height <= ATLAS_SIZE
                &&& b.y + old(self)@.row_size <= ATLAS_SIZE
                &&& b.y == old(self)@.row_for(width, height)->0 * old(self)@.row_size
                &&& b.y % old(self)@.row_size == 0
            },
            result is None ==> *final(self) == *old(self),
    {
        let rotated = width > height;
        let w: u32 = if rotated { height } else { width };
        let h: u32 = if rotated { width } else { height };
        if h > self.row_size {
            return None;
        }
        if h > SMALL_IMAGE && h <= self.row_size / 2 {
            return None;
        }
        let rows = self.row_usage.len();
        let mut row: usize = 0;
        while row < rows
            invariant
                row <= rows,
                rows == self.row_usage@.len(),
                *self == *old(self),
                self.wf(),
                w == normalised_width(width, height),
                h == normalised_height(width, height),
                rotated == (width > height),
                self@.admits(h),
                first_fit(self.row_usage@, w, 0) == first_fit(self.row_usage@, w, row as int),
            decreases rows - row,
        {
            let usage: u32 = self.row_usage[row];
            if usage + w <= ATLAS_SIZE {
                let y: u32 = self.place_in_row(row, w);
                let b = BoundingBox { atlas_id: self.id, x: usage, y, width: w, height: h, rotated };
                proof {
                    assert(first_fit(old(self).row_usage@, w, row as int) == row);
                    assert(old(self)@.row_for(width, height) == Some(row as int));
                    assert(self@.usage =~= old(self)@.after_place(width, height).usage);
                    lemma_new_box_fits(old(self).placed@, old(self)@, self@, b, row as int);
                    self.placed = Ghost(self.placed@.push(b));
                }
                return Some(b);
            }
            row = row + 1;
        }
        None
    }

    /// Any two placements that this atlas ever handed out do not overlap.
    pub proof fn lemma_placements_disjoint(&self, i: int, j: int)
        requires
            self.wf(),
            0 <= i < self.placements().len(),
            0 <= j < self.placements().len(),
            i != j,
        ensures
            disjoint(self.placements()[i], self.placements()[j]),
    {
    }

    /// Every placement that this atlas ever handed out lies inside it.
    pub proof fn lemma_placement_inside(&self, i: int)
        requires
            self.wf(),
            0 <= i < self.placements().len(),
        ensures
            self.placements()[i].x + self.placements()[i].width <= ATLAS_SIZE,
            self.placements()[i].y + self.placements()[i].height <= ATLAS_SIZE,
            self.placements()[i].y + self@.row_size <= ATLAS_SIZE,
            self.placements()[i].width <= self.placements()[i].height,
    {
        let b = self.placed@[i];
        let r = self.row_size as int;
        assert(within_row(b, self@));
        lemma_row_of(b.y as int, r);
        lemma_row_top(b.y as int / r, r);
    }

    /// Moves the fill mark of `row` on by `w` and returns the row's top edge.
    fn place_in_row(&mut self, row: usize, w: u32) -> (y: u32)
        requires
            old(self).wf(),
            row < old(self).row_usage@.len(),
            old(self).row_usage@[row as int] + w <= ATLAS_SIZE,
        ensures
            y == row * old(self).row_size,
            y % old(self).row_size == 0,
            y as int / old(self).row_size as int == row,
            y + old(self).row_size <= ATLAS_SIZE,
            final(self).id == old(self).id,
            final(self).row_size == old(self).row_size,
            final(self).placed == old(self).placed,
            final(self).row_usage@ == old(self).row_usage@.update(
                row as int,
                (old(self).row_usage@[row as int] + w) as u32,
            ),
    {
        let r: u32 = self.row_size;
        proof {
            lemma_row_top(row as int, r as int);
        }
        let usage: u32 = self.row_usage[row];
        self.row_usage.set(row, usage + w);
        (row as u32) * r
    }
}

/// The row height for an atlas that is created for an image whose longer
/// side is `side`.
pub fn choose_row_size(side: u32) -> (r: u32)
    requires
        side <= ATLAS_SIZE,
    ensures
        r == row_size_for(side),
        is_row_size(r),
        r >= side,
        r == MIN_ROW_SIZE || r / 2 < side,
{
    let mut r: u32 = MIN_ROW_SIZE;
    assert(is_power_of_two(32)) by {
        reveal_with_fuel(is_power_of_two, 6);
    }
    while r < side
        invariant
            MIN_ROW_SIZE <= r <= ATLAS_SIZE,
            side <= ATLAS_SIZE,
            is_power_of_two(r as nat),
            r == MIN_ROW_SIZE || r / 2 < side,
            row_size_for(side) == row_size_from(r as nat, side as nat),
        decreases ATLAS_SIZE - r,
    {
        proof {
            lemma_doubling_fits(r as nat);
        }
        r = 2 * r;
    }
    r
}

/// Powers of two are a factor of at least two apart.
pub proof fn lemma_power_of_two_gap(p: nat, q: nat)
    requires
        is_power_of_two(p),
        is_power_of_two(q),
        p < q,
    ensures
        2 * p <= q,
    decreases q,
{
    if p > 1 {
        lemma_power_of_two_gap(p / 2, q / 2);
    }
}

/// A power of two below the atlas size can be doubled without passing it.
proof fn lemma_doubling_fits(r: nat)
    requires
        is_power_of_two(r),
        r < ATLAS_SIZE,
    ensures
        2 * r <= ATLAS_SIZE,
        is_power_of_two(2 * r),
{
    assert(is_power_of_two(2048)) by {
        reveal_with_fuel(is_power_of_two, 12);
    }
    lemma_power_of_two_gap(r, 2048);
    assert((2 * r) / 2 == r);
}

/// The row size chosen for an image is the smallest admissible one: a power
/// of two, at least `MIN_ROW_SIZE`, at least as large as the image's longer
/// side, and no other such power of two is smaller.
pub proof fn lemma_row_size_is_smallest(side: u32, other: nat)
    requires
        side <= ATLAS_SIZE,
        is_power_of_two(other),
        other >= MIN_ROW_SIZE,
        other >= side,
    ensures
        is_power_of_two(row_size_for(side)),
        row_size_for(side) >= MIN_ROW_SIZE,
        row_size_for(side) >= side,
        row_size_for(side) <= other,
{
    assert(is_power_of_two(32)) by {
        reveal_with_fuel(is_power_of_two, 6);
    }
    lemma_row_size_from(MIN_ROW_SIZE as nat, side as nat, other);
}

proof fn lemma_row_size_from(r: nat, side: nat, other: nat)
    requires
        is_power_of_two(r),
        is_power_of_two(other),
        r <= other,
        other >= side,
    ensures
        is_power_of_two(row_size_from(r, side)),
        row_size_from(r, side) >= r,
        row_size_from(r, side) >= side,
        row_size_from(r, side) <= other,
    decreases
        (if r < side {
            side - r
        } else {
            0
        }),
{
    if r < side {
        lemma_power_of_two_gap(r, other);
        assert((2 * r) / 2 == r);
        lemma_row_size_from(2 * r, side, other);
    }
}

/// An atlas created for an image takes that image, into its first row.
proof fn lemma_fresh_accepts(id: u32, width: u32, height: u32, r: u32)
    requires
        normalised_height(width, height) <= ATLAS_SIZE,
        is_row_size(r),
        r >= normalised_height(width, height),
        r == MIN_ROW_SIZE || r / 2 < normalised_height(width, height),
    ensures
        AtlasView::fresh(id, r).row_for(width, height) == Some(0int),
{
    let fresh = AtlasView::fresh(id, r);
    assert(ATLAS_SIZE / r >= 1) by (nonlinear_arith)
        requires
            0 < r <= ATLAS_SIZE,
    ;
    assert(fresh.usage[0] == 0);
    assert(first_fit(fresh.usage, normalised_width(width, height), 0) == 0);
}

/// What an allocator knows: its atlases in order of creation and the
/// placement recorded for each image.
pub struct ImageAtlasView {
    pub atlases: Seq<AtlasView>,
    pub images: Map<u64, BoundingBox>,
}

impl ImageAtlasView {
    /// Whether any atlas can still be found or made for the image: an
    /// existing atlas accepts it, or it fits an atlas at all and the atlas
    /// numbers are not used up.
    pub open spec fn can_place(self, width: u32, height: u32) -> bool {
        ||| first_accepting(self.atlases, width, height, 0) < self.atlases.len()
        ||| (normalised_height(width, height) <= ATLAS_SIZE && self.atlases.len() < u32::MAX)
    }

    /// The atlas that a new image goes to: the first existing one that
    /// accepts it, else a fresh one sized for it.
    pub open spec fn target(self, width: u32, height: u32) -> AtlasView {
        let i = first_accepting(self.atlases, width, height, 0);
        if i < self.atlases.len() {
            self.atlases[i]
        } else {
            AtlasView::fresh(
                self.atlases.len() as u32,
                row_size_for(normalised_height(width, height)) as u32,
            )
        }
    }

    pub open spec fn placement(self, width: u32, height: u32) -> Option<Placement> {
        if self.can_place(width, height) {
            Some(
                Placement {
                    bounds: self.target(width, height).place(width, height),
                    new_atlas: first_accepting(self.atlases, width, height, 0)
                        >= self.atlases.len(),
                },
            )
        } else {
            None
        }
    }

    pub open spec fn add_image(self, id: u64, width: u32, height: u32) -> ImageAtlasView {
        if self.can_place(width, height) {
            let i = first_accepting(self.atlases, width, height, 0);
            let target = self.target(width, height);
            let taken = target.after_place(width, height);
            ImageAtlasView {
                atlases: if i < self.atlases.len() {
                    self.atlases.update(i, taken)
                } else {
                    self.atlases.push(taken)
                },
                images: self.images.insert(id, target.place(width, height)),
            }
        } else {
            self
        }
    }
}

/// The allocator: a growing list of atlases and, for each image that was
/// placed, where it went.
pub struct ImageAtlas {
    images: HashMap<u64, BoundingBox>,
    atlases: Vec<SingleAtlas>,
    slots: Ghost<Map<u64, int>>,
}

impl View for ImageAtlas {
    type V = ImageAtlasView;

    closed spec fn view(&self) -> ImageAtlasView {
        ImageAtlasView {
            atlases: Seq::new(self.atlases@.len(), |i: int| self.atlases@[i]@),
            images: self.images@,
        }
    }
}

impl ImageAtlas {
    /// Every placement handed out so far in atlas number `atlas`, oldest
    /// first.
    pub closed spec fn placements(&self, atlas: int) -> Seq<BoundingBox> {
        self.atlases@[atlas].placements()
    }

    pub closed spec fn wf(&self) -> bool {
        &&& self.atlases@.len() <= u32::MAX
        &&& forall|i: int|
            0 <= i < self.atlases@.len() ==> (#[trigger] self.atlases@[i]).wf() && self.atlases@[i]@.id
                == i
        &&& forall|id: u64| #[trigger]
            self.images@.contains_key(id) ==> {
                let b = self.images@[id];
                &&& b.atlas_id < self.atlases@.len()
                &&& self.slots@.contains_key(id)
                &&& 0 <= self.slots@[id] < self.atlases@[b.atlas_id as int].placements().len()
                &&& self.atlases@[b.atlas_id as int].placements()[self.slots@[id]] == b
            }
        &&& forall|a: u64, b: u64|
            #![trigger self.images@[a], self.images@[b]]
            self.images@.contains_key(a) && self.images@.contains_key(b) && a != b
                && self.images@[a].atlas_id == self.images@[b].atlas_id ==> self.slots@[a]
                != self.slots@[b]
    }

    /// What a well-formed allocator is, atlas by atlas: the atlas has its
    /// place in the list for a number; its rows are as `AtlasView::wf` says;
    /// every placement that it handed out lies in one of its rows, with its
    /// top on the top of the row; and no two of them overlap.
    pub proof fn lemma_wf(&self, atlas: int)
        requires
            self.wf(),
            0 <= atlas < self@.atlases.len(),
        ensures
            self@.atlases.len() <= u32::MAX,
            self@.atlases[atlas].id == atlas,
            self@.atlases[atlas].wf(),
            forall|i: int|
                0 <= i < self.placements(atlas).len() ==> within_row(
                    #[trigger] self.placements(atlas)[i],
                    self@.atlases[atlas],
                ),
            pairwise_disjoint(self.placements(atlas)),
    {
        assert(self.atlases@[atlas].wf());
        self.atlases@[atlas].lemma_wf();
    }

    /// The placement recorded for an image is one that its atlas handed
    /// out.
    pub proof fn lemma_recorded(&self, id: u64)
        requires
            self.wf(),
            self@.images.contains_key(id),
        ensures
            self@.images[id].atlas_id < self@.atlases.len(),
            self.placements(self@.images[id].atlas_id as int).contains(self@.images[id]),
    {
        let b = self.images@[id];
        assert(self.atlases@[b.atlas_id as int].placements()[self.slots@[id]] == b);
    }

    /// An allocator without atlases: the first image creates the first one.
    pub fn new() -> (atlas: ImageAtlas)
        ensures
            atlas.wf(),
            atlas@.atlases == Seq::<AtlasView>::empty(),
            atlas@.images == Map::<u64, BoundingBox>::empty(),
    {
        let atlas = ImageAtlas { images: HashMap::new(), atlases: Vec::new(), slots: Ghost(Map::empty()) };
        assert(atlas@.atlases =~= Seq::<AtlasView>::empty());
        atlas
    }

    /// Places an image and records the placement under `id`.
    ///
    /// The existing atlases are tried in order of creation. When none takes
    /// the image, an atlas is created whose row size is the smallest one that
    /// holds the image's longer side, and the image goes to its first row.
    /// Nothing is placed, and nothing changes, only when no existing atlas
    /// takes the image and the image is larger than an atlas or the atlas
    /// numbers are used up.
    pub fn add_image(&mut self, id: u64, width: u32, height: u32) -> (result: Option<Placement>)
        requires
            old(self).wf(),
        ensures
            final(self).wf(),
            final(self)@ == old(self)@.add_image(id, width, height),
            result == old(self)@.placement(width, height),
            result matches Some(p) ==> {
                let b = p.bounds;
                &&& b.atlas_id < final(self)@.atlases.len()
                &&& b.width == normalised_width(width, height)
                &&& b.height == normalised_height(width, height)
                &&& b.rotated == (width > height)
                &&& b.x + b.width <= ATLAS_SIZE
                &&& b.y + b.height <= ATLAS_SIZE
                &&& b.y + final(self)@.atlases[b.atlas_id as int].row_size <= ATLAS_SIZE
                &&& b.y % final(self)@.atlases[b.atlas_id as int].row_size == 0
                &&& final(self).placements(b.atlas_id as int) == (if p.new_atlas {
                    Seq::<BoundingBox>::empty()
                } else {
                    old(self).placements(b.atlas_id as int)
                }).push(b)
                &&& forall|i: int|
                    0 <= i < old(self)@.atlases.len() && i != b.atlas_id ==> final(self).placements(i)
                        == old(self).placements(i)
            },
    {
        let n = self.atlases.len();
        let mut i: usize = 0;
        while i < n
            invariant
                i <= n,
                n == self.atlases@.len(),
                self.atlases@ == old(self).atlases@,
                self.images@ == old(self).images@,
                self.slots@ == old(self).slots@,
                old(self).wf(),
                first_accepting(old(self)@.atlases, width, height, 0) == first_accepting(
                    old(self)@.atlases,
                    width,
                    height,
                    i as int,
                ),
            decreases n - i,
        {
            assert(self.atlases@[i as int].wf());
            assert(old(self)@.atlases[i as int] == self.atlases@[i as int]@);
            let placed = self.atlases[i].add_image(width, height);
            if let Some(bounds) = placed {
                self.images.insert(id, bounds);
                proof {
                    let slot = old(self).atlases@[i as int].placements().len() as int;
                    self.slots = Ghost(self.slots@.insert(id, slot));
                    assert(self@.atlases =~= old(self)@.add_image(id, width, height).atlases);
                    assert(self@.images =~= old(self)@.add_image(id, width, height).images);
                }
                return Some(Placement { bounds, new_atlas: false });
            }
            assert(self.atlases@ =~= old(self).atlases@);
            i = i + 1;
        }
        let side: u32 = if width > height { width } else { height };
        if side > ATLAS_SIZE || n >= u32::MAX as usize {
            return None;
        }
        let row_size = choose_row_size(side);
        let mut atlas = SingleAtlas::new(n as u32, row_size);
        proof {
            lemma_fresh_accepts(n as u32, width, height, row_size);
        }
        match atlas.add_image(width, height) {
            Some(bounds) => {
                self.atlases.push(atlas);
                self.images.insert(id, bounds);
                proof {
                    self.slots = Ghost(self.slots@.insert(id, 0));
                    assert(self@.atlases =~= old(self)@.add_image(id, width, height).atlases);
                    assert(self@.images =~= old(self)@.add_image(id, width, height).images);
                }
                Some(Placement { bounds, new_atlas: true })
            },
            None => None,
        }
    }

    /// The placement recorded for image `id`, if it has one.
    pub fn get_image_bounds(&self, id: &u64) -> (result: Option<&BoundingBox>)
        ensures
            match result {
                Some(b) => self@.images.contains_key(*id) && *b == self@.images[*id],
                None => !self@.images.contains_key(*id),
            },
    {
        self.images.get(id)
    }

    /// Two images that were placed under different names into the same atlas
    /// do not overlap.
    pub proof fn lemma_images_disjoint(&self, a: u64, b: u64)
        requires
            self.wf(),
            self@.images.contains_key(a),
            self@.images.contains_key(b),
            a != b,
            self@.images[a].atlas_id == self@.images[b].atlas_id,
        ensures
            disjoint(self@.images[a], self@.images[b]),
    {
        let atlas = self.atlases@[self.images@[a].atlas_id as int];
        assert(atlas.wf());
        assert(self.images@[a] == atlas.placements()[self.slots@[a]]);
        assert(self.images@[b] == atlas.placements()[self.slots@[b]]);
    }

    /// Any two placements that were ever handed out in one atlas do not
    /// overlap, and each lies inside the atlas.
    pub proof fn lemma_placements_disjoint(&self, atlas: int, i: int, j: int)
        requires
            self.wf(),
            0 <= atlas < self@.atlases.len(),
            0 <= i < self.placements(atlas).len(),
            0 <= j < self.placements(atlas).len(),
            i != j,
        ensures
            disjoint(self.placements(atlas)[i], self.placements(atlas)[j]),
    {
        self.atlases@[atlas].lemma_placements_disjoint(i, j);
    }
}

/// Row `row` of an atlas with rows of height `r` starts at `row * r`, a
/// multiple of `r`, and ends inside the atlas.
proof fn lemma_row_top(row: int, r: int)
    requires
        0 < r <= ATLAS_SIZE,
        0 <= row < ATLAS_SIZE as int / r,
    ensures
        0 <= row * r,
        row * r + r <= ATLAS_SIZE,
        (row * r) % r == 0,
        (row * r) / r == row,
{
    assert(0 <= row * r) by (nonlinear_arith)
        requires
            0 <= row,
            0 < r,
    ;
    assert((row + 1) * r <= (ATLAS_SIZE as int / r) * r) by (nonlinear_arith)
        requires
            row + 1 <= ATLAS_SIZE as int / r,
            0 < r,
    ;
    assert((ATLAS_SIZE as int / r) * r <= ATLAS_SIZE) by (nonlinear_arith)
        requires
            0 < r,
    ;
    assert((row + 1) * r == row * r + r) by (nonlinear_arith);
    assert((row * r) % r == 0 && (row * r) / r == row) by (nonlinear_arith)
        requires
            0 < r,
    ;
}

/// Rows do not overlap: a lower-numbered row ends where the next one starts
/// or before.
proof fn lemma_rows_apart(low: int, high: int, r: int)
    requires
        0 <= low < high,
        0 < r,
    ensures
        low * r + r <= high * r,
{
    assert(low * r + r <= high * r) by (nonlinear_arith)
        requires
            low + 1 <= high,
            0 < r,
    ;
}

/// A multiple of `r` is `r` times its quotient.
proof fn lemma_row_of(y: int, r: int)
    requires
        0 < r,
        0 <= y,
        y % r == 0,
    ensures
        y == (y / r) * r,
{
    assert(y == (y / r) * r + y % r) by (nonlinear_arith)
        requires
            0 < r,
    ;
}

/// Putting a box at the fill mark of a row keeps all earlier boxes inside
/// their rows and apart from the new one.
proof fn lemma_new_box_fits(
    placed: Seq<BoundingBox>,
    before: AtlasView,
    after: AtlasView,
    b: BoundingBox,
    row: int,
)
    requires
        0 < before.row_size <= ATLAS_SIZE,
        before.usage.len() == ATLAS_SIZE / before.row_size,
        forall|i: int| 0 <= i < placed.len() ==> within_row(#[trigger] placed[i], before),
        pairwise_disjoint(placed),
        0 <= row < before.usage.len(),
        before.usage[row] + b.width <= ATLAS_SIZE,
        after == (AtlasView {
            usage: before.usage.update(row, (before.usage[row] + b.width) as u32),
            ..before
        }),
        b.atlas_id == before.id,
        b.x == before.usage[row],
        b.y == row * before.row_size,
        b.width <= b.height <= before.row_size,
    ensures
        forall|i: int| 0 <= i < placed.push(b).len() ==> within_row(#[trigger] placed.push(b)[i], after),
        pairwise_disjoint(placed.push(b)),
{
    let r = before.row_size as int;
    let all = placed.push(b);
    lemma_row_top(row, r);
    assert forall|i: int| 0 <= i < all.len() implies within_row(#[trigger] all[i], after) by {
        if i < placed.len() {
            assert(within_row(placed[i], before));
        }
    }
    assert forall|i: int| 0 <= i < placed.len() implies disjoint(#[trigger] placed[i], b) by {
        let a = placed[i];
        assert(within_row(a, before));
        let a_row = a.y as int / r;
        lemma_row_of(a.y as int, r);
        if a_row < row {
            lemma_rows_apart(a_row, row, r);
        } else if a_row > row {
            lemma_rows_apart(row, a_row, r);
        }
    }
    assert forall|i: int, j: int| 0 <= i < all.len() && 0 <= j < all.len() && i != j implies disjoint(
        #[trigger] all[i],
        #[trigger] all[j],
    ) by {
        if i < placed.len() && j < placed.len() {
            assert(disjoint(placed[i], placed[j]));
        } else if i < placed.len() {
            assert(disjoint(placed[i], b));
        } else {
            assert(disjoint(placed[j], b));
        }
    }
}

} // verus!
