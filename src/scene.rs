//! The scene: placed images in draw order, one optional selection, and the
//! list of transformed buffers that a frame draws.
//!
//! Scene coordinates are whole units. An image's position is the top-left
//! corner of its unrotated display rectangle.
use crate::raster::{
    buffer_len, checked_buffer_len, resampled, resize_image, rotate, rotate_error, rotated,
    rotated_height, rotated_width, PixelError, Rotation, UNIT,
};
use vstd::prelude::*;

verus! {

/// Margin between a selected image's display rectangle and its outline.
pub const OUTLINE_MARGIN: i64 = 2;

/// Why a change to the scene was refused.
#[derive(Debug, Clone, Copy, PartialEq, Eq, Structural)]
pub enum SceneError {
    /// A width or height of zero, or pixel bytes that do not match the size.
    InvalidDimensions,
    /// Every identifier has been handed out.
    IdsExhausted,
}

/// One placed image.
pub struct Image {
    pub id: u32,
    pub original_width: u32,
    pub original_height: u32,
    pub width: u32,
    pub height: u32,
    pub rotation: Rotation,
    pub x: i32,
    pub y: i32,
    pub data: Vec<u8>,
}

impl Image {
    /// Sizes are positive and the pixel bytes match the original size.
    pub open spec fn wf(&self) -> bool {
        &&& self.original_width > 0
        &&& self.original_height > 0
        &&& self.data@.len() == buffer_len(self.original_width as int, self.original_height as int)
        &&& self.width > 0
        &&& self.height > 0
        &&& self.rotation.wf()
    }

    /// The point lies in the unrotated display rectangle
    /// `[x, x + width) x [y, y + height)`.
    pub open spec fn contains(&self, px: int, py: int) -> bool {
        &&& self.x <= px < self.x + self.width
        &&& self.y <= py < self.y + self.height
    }
}

/// The record with its position changed.
pub open spec fn with_position(img: Image, x: int, y: int) -> Image {
    Image { x: x as i32, y: y as i32, ..img }
}

/// The record with its display size changed.
pub open spec fn with_size(img: Image, w: u32, h: u32) -> Image {
    Image { width: w, height: h, ..img }
}

/// The record with its rotation changed.
pub open spec fn with_rotation(img: Image, rot: Rotation) -> Image {
    Image { rotation: rot, ..img }
}

/// `v` brought into the range of `i32`.
pub open spec fn saturate(v: int) -> int {
    if v < i32::MIN {
        i32::MIN as int
    } else if v > i32::MAX {
        i32::MAX as int
    } else {
        v
    }
}

/// Some record carries `id`.
pub open spec fn holds_id(imgs: Seq<Image>, id: u32) -> bool {
    exists|k: int| 0 <= k < imgs.len() && imgs[k].id == id
}

/// Record `k` contains the point and no later record does.
pub open spec fn is_topmost_hit(imgs: Seq<Image>, px: int, py: int, k: int) -> bool {
    &&& 0 <= k < imgs.len()
    &&& imgs[k].contains(px, py)
    &&& forall|j: int| k < j < imgs.len() ==> !(#[trigger] imgs[j].contains(px, py))
}

/// Every record is well formed, identifiers rise strictly in draw order and
/// stay below the next one to be handed out, and a selection names a record.
pub open spec fn scene_wf(imgs: Seq<Image>, selected: Option<u32>, next_id: int) -> bool {
    &&& forall|k: int| 0 <= k < imgs.len() ==> (#[trigger] imgs[k]).wf()
    &&& forall|i: int, j: int| 0 <= i < j < imgs.len() ==> imgs[i].id < imgs[j].id
    &&& forall|k: int| 0 <= k < imgs.len() ==> (#[trigger] imgs[k]).id < next_id
    &&& selected matches Some(id) ==> holds_id(imgs, id)
}

/// The rectangle stroked around a selected image.
#[derive(Debug, Clone, Copy, PartialEq, Eq, Structural)]
pub struct Outline {
    pub x: i64,
    pub y: i64,
    pub width: i64,
    pub height: i64,
}

/// What a frame draws for one image: its pixels resampled to the display
/// size and rotated, in a `width` by `height` box. The box is centred on the
/// display rectangle; its top-left corner is `(left_twice / 2, top_twice / 2)`,
/// kept doubled so that it stays whole.
pub struct DrawItem {
    pub pixels: Vec<u8>,
    pub width: u32,
    pub height: u32,
    pub left_twice: i64,
    pub top_twice: i64,
    pub outline: Option<Outline>,
}

/// The outline of a record's unrotated display rectangle, grown by the margin.
pub open spec fn outline_of(img: Image) -> Outline {
    Outline {
        x: (img.x - OUTLINE_MARGIN) as i64,
        y: (img.y - OUTLINE_MARGIN) as i64,
        width: (img.width + 2 * OUTLINE_MARGIN) as i64,
        height: (img.height + 2 * OUTLINE_MARGIN) as i64,
    }
}

/// The record's pixels fit in memory at its display size and once rotated.
pub open spec fn drawable(img: Image) -> bool {
    &&& buffer_len(img.width as int, img.height as int) <= usize::MAX
    &&& rotate_error(
        buffer_len(img.width as int, img.height as int),
        img.width as int,
        img.height as int,
        img.rotation,
    ) is None
}

/// `item` is what a frame draws for `img` under the selection `selected`.
pub open spec fn draws(item: DrawItem, img: Image, selected: Option<u32>) -> bool {
    let w = img.width as int;
    let h = img.height as int;
    let pix = resampled(img.data@, img.original_width as int, img.original_height as int, w, h);
    &&& item.width == rotated_width(w, h, img.rotation)
    &&& item.height == rotated_height(w, h, img.rotation)
    &&& item.pixels@ == rotated(pix, w, h, img.rotation)
    &&& item.left_twice == 2 * img.x - (item.width - w)
    &&& item.top_twice == 2 * img.y - (item.height - h)
    &&& item.outline == (if selected == Some(img.id) {
        Some(outline_of(img))
    } else {
        None
    })
}

/// The records with the one carrying `id` moved by `(dx, dy)`, each
/// coordinate held within `i32`.
pub open spec fn moved_by(imgs: Seq<Image>, id: u32, dx: int, dy: int) -> Seq<Image> {
    imgs.map_values(
        |img: Image|
            if img.id == id {
                with_position(img, saturate(img.x + dx), saturate(img.y + dy))
            } else {
                img
            },
    )
}

/// The records with the one carrying `id` placed at `(x, y)`.
pub open spec fn moved_to(imgs: Seq<Image>, id: u32, x: i32, y: i32) -> Seq<Image> {
    imgs.map_values(
        |img: Image|
            if img.id == id {
                with_position(img, x as int, y as int)
            } else {
                img
            },
    )
}

/// The records with the one carrying `id` shown at `w` by `h`.
pub open spec fn resized(imgs: Seq<Image>, id: u32, w: u32, h: u32) -> Seq<Image> {
    imgs.map_values(
        |img: Image|
            if img.id == id {
                with_size(img, w, h)
            } else {
                img
            },
    )
}

/// The records with the one carrying `id` turned to `rot`.
pub open spec fn turned(imgs: Seq<Image>, id: u32, rot: Rotation) -> Seq<Image> {
    imgs.map_values(
        |img: Image|
            if img.id == id {
                with_rotation(img, rot)
            } else {
                img
            },
    )
}

/// A record as added: display size equal to the original size, placed at the
/// origin, not rotated.
pub open spec fn is_fresh_record(img: Image, id: u32, w: u32, h: u32, data: Seq<u8>) -> bool {
    &&& img.id == id
    &&& img.original_width == w
    &&& img.original_height == h
    &&& img.width == w
    &&& img.height == h
    &&& img.rotation == (Rotation { degrees_bits: 0, cos: UNIT, sin: 0 })
    &&& img.x == 0
    &&& img.y == 0
    &&& img.data@ == data
}

/// Why adding `len` bytes as a `w` by `h` image would be refused, if it would.
pub open spec fn add_error(w: u32, h: u32, len: int, next_id: int) -> Option<SceneError> {
    if w == 0 || h == 0 || len != buffer_len(w as int, h as int) {
        Some(SceneError::InvalidDimensions)
    } else if next_id > u32::MAX {
        Some(SceneError::IdsExhausted)
    } else {
        None
    }
}

/// Records changed in place, with their identifiers kept and each still well
/// formed, keep the scene well formed.
proof fn lemma_wf_same_ids(before: Seq<Image>, after: Seq<Image>, selected: Option<u32>, next_id: int)
    requires
        scene_wf(before, selected, next_id),
        after.len() == before.len(),
        forall|k: int| 0 <= k < after.len() ==> (#[trigger] after[k]).id == before[k].id,
        forall|k: int| 0 <= k < after.len() ==> (#[trigger] after[k]).wf(),
    ensures
        scene_wf(after, selected, next_id),
{
    assert forall|i: int, j: int| 0 <= i < j < after.len() implies after[i].id < after[j].id by {
        assert(after[i].id == before[i].id);
        assert(after[j].id == before[j].id);
    }
    if let Some(id) = selected {
        let k = choose|k: int| 0 <= k < before.len() && before[k].id == id;
        assert(after[k].id == id);
    }
}

fn saturate_exec(v: i64) -> (r: i32)
    ensures
        r == saturate(v as int),
{
    if v < i32::MIN as i64 {
        i32::MIN
    } else if v > i32::MAX as i64 {
        i32::MAX
    } else {
        v as i32
    }
}

/// The placed images, back to front, and the current selection.
pub struct ImageManager {
    images: Vec<Image>,
    selected_image: Option<u32>,
    next_id: u64,
}

impl ImageManager {
    /// The records in draw order: later ones draw on top.
    pub closed spec fn images(&self) -> Seq<Image> {
        self.images@
    }

    /// The identifier of the selected record, if any.
    pub closed spec fn selected(&self) -> Option<u32> {
        self.selected_image
    }

    /// The identifier that the next added record receives.
    pub closed spec fn next_id(&self) -> int {
        self.next_id as int
    }

    pub open spec fn wf(&self) -> bool {
        scene_wf(self.images(), self.selected(), self.next_id())
    }

    /// The record carrying `id`, if any.
    pub open spec fn find(&self, id: u32) -> Option<Image> {
        if holds_id(self.images(), id) {
            Some(self.images()[choose|k: int| 0 <= k < self.images().len() && self.images()[k].id == id])
        } else {
            None
        }
    }

    /// Identifiers are unique, so the record found is the one at `k`.
    pub proof fn lemma_find(&self, id: u32, k: int)
        requires
            self.wf(),
            0 <= k < self.images().len(),
            self.images()[k].id == id,
        ensures
            self.find(id) == Some(self.images()[k]),
    {
        let c = choose|c: int| 0 <= c < self.images().len() && self.images()[c].id == id;
        if c < k {
            assert(self.images()[c].id < self.images()[k].id);
        } else if c > k {
            assert(self.images()[k].id < self.images()[c].id);
        }
    }

    /// An empty scene.
    pub fn new() -> (r: ImageManager)
        ensures
            r.wf(),
            r.images() == Seq::<Image>::empty(),
            r.selected() is None,
            r.next_id() == 0,
    {
        ImageManager { images: Vec::new(), selected_image: None, next_id: 0 }
    }

    /// Position of the record carrying `id`.
    fn find_index(&self, id: u32) -> (r: Option<usize>)
        ensures
            match r {
                Some(k) => k < self.images().len() && self.images()[k as int].id == id,
                None => !holds_id(self.images(), id),
            },
    {
        let mut i: usize = 0;
        while i < self.images.len()
            invariant
                i <= self.images@.len(),
                forall|k: int| 0 <= k < i ==> self.images@[k].id != id,
            decreases self.images@.len() - i,
        {
            if self.images[i].id == id {
                return Some(i);
            }
            i = i + 1;
        }
        None
    }

    /// Appends a record of `data`, `width` by `height` pixels, at the origin
    /// with its original size and no rotation, and returns its identifier.
    /// Identifiers come from a counter and are never handed out twice.
    pub fn add_image(&mut self, width: u32, height: u32, data: Vec<u8>) -> (r: Result<u32, SceneError>)
        requires
            old(self).wf(),
        ensures
            final(self).wf(),
            match r {
                Ok(id) => {
                    &&& add_error(width, height, data@.len() as int, old(self).next_id()) is None
                    &&& id == old(self).next_id()
                    &&& !holds_id(old(self).images(), id)
                    &&& final(self).next_id() == old(self).next_id() + 1
                    &&& final(self).selected() == old(self).selected()
                    &&& final(self).images().len() == old(self).images().len() + 1
                    &&& final(self).images().drop_last() == old(self).images()
                    &&& is_fresh_record(final(self).images().last(), id, width, height, data@)
                },
                Err(e) => {
                    &&& add_error(width, height, data@.len() as int, old(self).next_id()) == Some(e)
                    &&& *final(self) == *old(self)
                },
            },
    {
        let len = data.len();
        let n = match checked_buffer_len(width, height) {
            Some(n) => n,
            None => {
                return Err(SceneError::InvalidDimensions);
            },
        };
        if width == 0 || height == 0 || len != n {
            return Err(SceneError::InvalidDimensions);
        }
        if self.next_id > u32::MAX as u64 {
            return Err(SceneError::IdsExhausted);
        }
        let id = self.next_id as u32;
        let ghost before = self.images@;
        self.images.push(
            Image {
                id,
                original_width: width,
                original_height: height,
                width,
                height,
                rotation: Rotation::identity(),
                x: 0,
                y: 0,
                data,
            },
        );
        self.next_id = self.next_id + 1;
        assert(self.images@.drop_last() =~= before);
        Ok(id)
    }

    /// Moves the record carrying `id` by `(dx, dy)`; an unknown `id` changes
    /// nothing.
    pub fn move_image_relative(&mut self, id: u32, dx: i32, dy: i32)
        requires
            old(self).wf(),
        ensures
            final(self).wf(),
            final(self).images() == moved_by(old(self).images(), id, dx as int, dy as int),
            final(self).selected() == old(self).selected(),
            final(self).next_id() == old(self).next_id(),
    {
        let ghost before = self.images@;
        match self.find_index(id) {
            Some(k) => {
                let nx = saturate_exec(self.images[k].x as i64 + dx as i64);
                let ny = saturate_exec(self.images[k].y as i64 + dy as i64);
                self.images[k].x = nx;
                self.images[k].y = ny;
                assert(self.images@ =~= moved_by(before, id, dx as int, dy as int));
                proof {
                    lemma_wf_same_ids(before, self.images@, self.selected_image, self.next_id as int);
                }
            },
            None => {
                assert(self.images@ =~= moved_by(before, id, dx as int, dy as int));
            },
        }
    }

    /// Places the record carrying `id` at `(x, y)`; an unknown `id` changes
    /// nothing.
    pub fn move_image_absolute(&mut self, id: u32, x: i32, y: i32)
        requires
            old(self).wf(),
        ensures
            final(self).wf(),
            final(self).images() == moved_to(old(self).images(), id, x, y),
            final(self).selected() == old(self).selected(),
            final(self).next_id() == old(self).next_id(),
    {
        let ghost before = self.images@;
        match self.find_index(id) {
            Some(k) => {
                self.images[k].x = x;
                self.images[k].y = y;
                assert(self.images@ =~= moved_to(before, id, x, y));
                proof {
                    lemma_wf_same_ids(before, self.images@, self.selected_image, self.next_id as int);
                }
            },
            None => {
                assert(self.images@ =~= moved_to(before, id, x, y));
            },
        }
    }

    /// Selects the topmost record (the last in draw order) whose unrotated
    /// display rectangle contains `(px, py)` and returns its identifier; where
    /// none does, the selection is cleared.
    pub fn select_image(&mut self, px: i64, py: i64) -> (r: Option<u32>)
        requires
            old(self).wf(),
        ensures
            final(self).wf(),
            final(self).images() == old(self).images(),
            final(self).next_id() == old(self).next_id(),
            final(self).selected() == r,
            match r {
                Some(id) => exists|k: int|
                    is_topmost_hit(old(self).images(), px as int, py as int, k)
                        && old(self).images()[k].id == id,
                None => forall|k: int|
                    0 <= k < old(self).images().len() ==> !(#[trigger] old(self).images()[k].contains(
                        px as int,
                        py as int,
                    )),
            },
    {
        let mut i: usize = self.images.len();
        while i > 0
            invariant
                *self == *old(self),
                scene_wf(self.images@, self.selected_image, self.next_id as int),
                i <= self.images@.len(),
                forall|j: int|
                    i <= j < self.images@.len() ==> !(#[trigger] self.images@[j].contains(
                        px as int,
                        py as int,
                    )),
            decreases i,
        {
            i = i - 1;
            let x0 = self.images[i].x as i64;
            let y0 = self.images[i].y as i64;
            if x0 <= px && px < x0 + self.images[i].width as i64 && y0 <= py && py < y0
                + self.images[i].height as i64 {
                let id = self.images[i].id;
                assert(is_topmost_hit(self.images@, px as int, py as int, i as int));
                self.selected_image = Some(id);
                assert(is_topmost_hit(old(self).images(), px as int, py as int, i as int));
                assert(old(self).images()[i as int].id == id);
                return Some(id);
            }
        }
        self.selected_image = None;
        None
    }

    /// Removes the selected record, if any, and clears the selection.
    pub fn delete_selected_image(&mut self)
        requires
            old(self).wf(),
        ensures
            final(self).wf(),
            final(self).selected() is None,
            final(self).next_id() == old(self).next_id(),
            match old(self).selected() {
                Some(id) => {
                    &&& exists|k: int|
                        0 <= k < old(self).images().len() && old(self).images()[k].id == id
                            && final(self).images() == old(self).images().remove(k)
                    &&& !holds_id(final(self).images(), id)
                },
                None => final(self).images() == old(self).images(),
            },
    {
        if let Some(id) = self.selected_image {
            let ghost before = self.images@;
            match self.find_index(id) {
                Some(k) => {
                    self.images.remove(k);
                    assert(self.images@ == before.remove(k as int));
                    assert forall|j: int| 0 <= j < self.images@.len() implies (#[trigger] self.images@[j]).id
                        != id by {
                        if j < k {
                            assert(before[j].id < before[k as int].id);
                        } else {
                            assert(before[k as int].id < before[j + 1].id);
                        }
                    }
                    assert forall|a: int, b: int| 0 <= a < b < self.images@.len() implies self.images@[a].id
                        < self.images@[b].id by {
                        if a < k {
                            if b < k {
                            } else {
                                assert(before[a].id < before[b + 1].id);
                            }
                        } else {
                            assert(before[a + 1].id < before[b + 1].id);
                        }
                    }
                },
                None => {},
            }
            self.selected_image = None;
        }
    }

    /// `[width, height, original_width, original_height]` of the record
    /// carrying `id`, or nothing where no record does.
    pub fn get_image_size(&self, id: u32) -> (r: Vec<u32>)
        requires
            self.wf(),
        ensures
            match self.find(id) {
                Some(img) => r@ == seq![
                    img.width,
                    img.height,
                    img.original_width,
                    img.original_height,
                ],
                None => r@.len() == 0,
            },
    {
        match self.find_index(id) {
            Some(k) => {
                proof {
                    self.lemma_find(id, k as int);
                }
                let img = &self.images[k];
                vec![img.width, img.height, img.original_width, img.original_height]
            },
            None => Vec::new(),
        }
    }

    /// `[x, y]` of the record carrying `id`, or nothing where no record does.
    pub fn get_image_pos(&self, id: u32) -> (r: Vec<i32>)
        requires
            self.wf(),
        ensures
            match self.find(id) {
                Some(img) => r@ == seq![img.x, img.y],
                None => r@.len() == 0,
            },
    {
        match self.find_index(id) {
            Some(k) => {
                proof {
                    self.lemma_find(id, k as int);
                }
                let img = &self.images[k];
                vec![img.x, img.y]
            },
            None => Vec::new(),
        }
    }

    /// The rotation of the record carrying `id`, or the zero rotation where no
    /// record does.
    pub fn get_image_rotation(&self, id: u32) -> (r: Rotation)
        requires
            self.wf(),
        ensures
            match self.find(id) {
                Some(img) => r == img.rotation,
                None => r == (Rotation { degrees_bits: 0, cos: UNIT, sin: 0 }),
            },
    {
        match self.find_index(id) {
            Some(k) => {
                proof {
                    self.lemma_find(id, k as int);
                }
                self.images[k].rotation
            },
            None => Rotation::identity(),
        }
    }

    /// Shows the record carrying `id` at `new_width` by `new_height`; its
    /// position stays. A zero size is refused and changes nothing; an unknown
    /// `id` changes nothing.
    pub fn update_image_size(&mut self, id: u32, new_width: u32, new_height: u32) -> (r: Result<
        (),
        SceneError,
    >)
        requires
            old(self).wf(),
        ensures
            final(self).wf(),
            final(self).selected() == old(self).selected(),
            final(self).next_id() == old(self).next_id(),
            r is Err <==> new_width == 0 || new_height == 0,
            r is Err ==> r == Err::<(), SceneError>(SceneError::InvalidDimensions) && final(self).images()
                == old(self).images(),
            r is Ok ==> final(self).images() == resized(old(self).images(), id, new_width, new_height),
    {
        if new_width == 0 || new_height == 0 {
            return Err(SceneError::InvalidDimensions);
        }
        let ghost before = self.images@;
        match self.find_index(id) {
            Some(k) => {
                self.images[k].width = new_width;
                self.images[k].height = new_height;
                assert(self.images@ =~= resized(before, id, new_width, new_height));
                proof {
                    lemma_wf_same_ids(before, self.images@, self.selected_image, self.next_id as int);
                }
            },
            None => {
                assert(self.images@ =~= resized(before, id, new_width, new_height));
            },
        }
        Ok(())
    }

    /// Turns the record carrying `id` to `rotation`; an unknown `id` changes
    /// nothing.
    pub fn update_image_rotation(&mut self, id: u32, rotation: Rotation)
        requires
            old(self).wf(),
            rotation.wf(),
        ensures
            final(self).wf(),
            final(self).images() == turned(old(self).images(), id, rotation),
            final(self).selected() == old(self).selected(),
            final(self).next_id() == old(self).next_id(),
    {
        let ghost before = self.images@;
        match self.find_index(id) {
            Some(k) => {
                self.images[k].rotation = rotation;
                assert(self.images@ =~= turned(before, id, rotation));
                proof {
                    lemma_wf_same_ids(before, self.images@, self.selected_image, self.next_id as int);
                }
            },
            None => {
                assert(self.images@ =~= turned(before, id, rotation));
            },
        }
    }

    /// The frame, back to front: for each record its pixels resampled to the
    /// display size, then rotated, in a box centred on the display rectangle,
    /// with an outline where the record is selected. Fails where some record's
    /// buffers would not fit in memory.
    pub fn render(&self) -> (r: Result<Vec<DrawItem>, PixelError>)
        requires
            self.wf(),
        ensures
            r is Ok <==> forall|k: int| 0 <= k < self.images().len() ==> drawable(#[trigger] self.images()[k]),
            match r {
                Ok(items) => {
                    &&& items@.len() == self.images().len()
                    &&& forall|k: int|
                        0 <= k < items@.len() ==> draws(#[trigger] items@[k], self.images()[k], self.selected())
                },
                Err(e) => e == PixelError::TooLarge,
            },
    {
        let mut items: Vec<DrawItem> = Vec::new();
        let mut k: usize = 0;
        while k < self.images.len()
            invariant
                self.wf(),
                k <= self.images@.len(),
                items@.len() == k,
                forall|j: int| 0 <= j < k ==> draws(#[trigger] items@[j], self.images@[j], self.selected_image),
                forall|j: int| 0 <= j < k ==> drawable(#[trigger] self.images@[j]),
            decreases self.images@.len() - k,
        {
            let img = &self.images[k];
            assert(img.wf());
            let pix = match resize_image(
                img.data.as_slice(),
                img.original_width,
                img.original_height,
                img.width,
                img.height,
            ) {
                Ok(p) => p,
                Err(e) => {
                    assert(!drawable(*img));
                    return Err(e);
                },
            };
            let (pixels, nw, nh) = match rotate(pix.as_slice(), img.width, img.height, img.rotation) {
                Ok(t) => t,
                Err(e) => {
                    assert(!drawable(*img));
                    return Err(e);
                },
            };
            let left_twice = 2 * (img.x as i64) - (nw as i64 - img.width as i64);
            let top_twice = 2 * (img.y as i64) - (nh as i64 - img.height as i64);
            let outline = match self.selected_image {
                Some(sel) => {
                    if sel == img.id {
                        Some(
                            Outline {
                                x: img.x as i64 - OUTLINE_MARGIN,
                                y: img.y as i64 - OUTLINE_MARGIN,
                                width: img.width as i64 + 2 * OUTLINE_MARGIN,
                                height: img.height as i64 + 2 * OUTLINE_MARGIN,
                            },
                        )
                    } else {
                        None
                    }
                },
                None => None,
            };
            let item = DrawItem { pixels, width: nw, height: nh, left_twice, top_twice, outline };
            assert(draws(item, *img, self.selected_image));
            items.push(item);
            k = k + 1;
        }
        Ok(items)
    }
}

/// Live records carry pairwise distinct identifiers.
pub proof fn lemma_live_ids_distinct(m: &ImageManager)
    requires
        m.wf(),
    ensures
        forall|i: int, j: int|
            0 <= i < m.images().len() && 0 <= j < m.images().len() && i != j ==> m.images()[i].id
                != m.images()[j].id,
{
    assert forall|i: int, j: int|
        0 <= i < m.images().len() && 0 <= j < m.images().len() && i != j implies m.images()[i].id
        != m.images()[j].id by {
        if i < j {
            assert(m.images()[i].id < m.images()[j].id);
        } else {
            assert(m.images()[j].id < m.images()[i].id);
        }
    }
}

proof fn lemma_same_ids_same_lookup(a: Seq<Image>, b: Seq<Image>, target: u32)
    requires
        a.len() == b.len(),
        forall|k: int| 0 <= k < a.len() ==> (#[trigger] a[k]).id == b[k].id,
    ensures
        holds_id(a, target) == holds_id(b, target),
{
    if holds_id(a, target) {
        let k = choose|k: int| 0 <= k < a.len() && a[k].id == target;
        assert(b[k].id == target);
    }
    if holds_id(b, target) {
        let k = choose|k: int| 0 <= k < b.len() && b[k].id == target;
        assert(a[k].id == target);
    }
}

/// Moving, resizing or turning a record changes no record's identifier: an
/// identifier resolves afterwards exactly where it resolved before.
pub proof fn lemma_edits_keep_ids(
    imgs: Seq<Image>,
    id: u32,
    target: u32,
    dx: int,
    dy: int,
    x: i32,
    y: i32,
    w: u32,
    h: u32,
    rot: Rotation,
)
    ensures
        holds_id(moved_by(imgs, id, dx, dy), target) == holds_id(imgs, target),
        holds_id(moved_to(imgs, id, x, y), target) == holds_id(imgs, target),
        holds_id(resized(imgs, id, w, h), target) == holds_id(imgs, target),
        holds_id(turned(imgs, id, rot), target) == holds_id(imgs, target),
{
    lemma_same_ids_same_lookup(moved_by(imgs, id, dx, dy), imgs, target);
    lemma_same_ids_same_lookup(moved_to(imgs, id, x, y), imgs, target);
    lemma_same_ids_same_lookup(resized(imgs, id, w, h), imgs, target);
    lemma_same_ids_same_lookup(turned(imgs, id, rot), imgs, target);
}

} // verus!
