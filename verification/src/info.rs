//! What is known of a scanned image, and of a group of duplicates.
use vstd::prelude::*;
use vstd::string::*;

use crate::binary64::Binary64;
use crate::text::to_decimal;

verus! {

/// What is known of a scanned image.
pub struct ImageInfo {
    pub path: String,
    pub width: u32,
    pub height: u32,
    pub file_size: u64,
    pub phash: u64,
    /// The difference hash, a signal that is independent of `phash`.
    pub dhash: u64,
    pub md5: String,
}

/// The value of an [`ImageInfo`], its strings taken as characters.
#[verifier::ext_equal]
pub struct ImageModel {
    pub path: Seq<char>,
    pub width: u32,
    pub height: u32,
    pub file_size: u64,
    pub phash: u64,
    pub dhash: u64,
    pub md5: Seq<char>,
}

impl View for ImageInfo {
    type V = ImageModel;

    open spec fn view(&self) -> ImageModel {
        ImageModel {
            path: self.path@,
            width: self.width,
            height: self.height,
            file_size: self.file_size,
            phash: self.phash,
            dhash: self.dhash,
            md5: self.md5@,
        }
    }
}

impl ImageModel {
    /// The resolution: how many pixels the image has.
    pub open spec fn pixels(self) -> int {
        self.width * self.height
    }
}

/// What a list of images stands for.
pub open spec fn models(images: Seq<ImageInfo>) -> Seq<ImageModel> {
    images.map_values(|i: ImageInfo| i@)
}

impl Clone for ImageInfo {
    fn clone(&self) -> (r: ImageInfo)
        ensures
            r == *self,
    {
        ImageInfo {
            path: self.path.clone(),
            width: self.width,
            height: self.height,
            file_size: self.file_size,
            phash: self.phash,
            dhash: self.dhash,
            md5: self.md5.clone(),
        }
    }
}

impl ImageInfo {
    /// The number of pixels.
    pub fn pixel_count(&self) -> (r: u64)
        ensures
            r == self@.pixels(),
            r == self.width * self.height,
    {
        assert(self.width * self.height <= 0xFFFF_FFFF * 0xFFFF_FFFF) by (nonlinear_arith)
            requires
                self.width <= 0xFFFF_FFFF,
                self.height <= 0xFFFF_FFFF,
        ;
        self.width as u64 * self.height as u64
    }

    /// The resolution as it is shown, such as `640x480`.
    pub fn resolution_label(&self) -> (r: String)
        ensures
            r@ == crate::text::decimal(self.width as nat) + "x"@ + crate::text::decimal(
                self.height as nat,
            ),
    {
        let height = to_decimal(self.height as u64);
        to_decimal(self.width as u64).concat("x").concat(height.as_str())
    }

    /// Whether both files have a digest and it is the same one.
    pub fn same_digest(&self, other: &ImageInfo) -> (r: bool)
        ensures
            r == same_digest(self@, other@),
            r == (self.md5@.len() > 0 && self.md5@ == other.md5@),
    {
        !self.md5.as_str().is_empty() && self.md5 == other.md5
    }
}

/// Whether both files have a digest and it is the same one.
pub open spec fn same_digest(a: ImageModel, b: ImageModel) -> bool {
    a.md5.len() > 0 && a.md5 == b.md5
}

/// A group of images that show the same thing. The keeper is the one with the highest
/// resolution.
#[derive(Clone)]
pub struct DuplicateGroup {
    pub keeper: ImageInfo,
    pub duplicates: Vec<ImageInfo>,
    /// For each duplicate its path and its similarity to the keeper.
    pub scores: Vec<(String, Binary64)>,
    /// `high` or `low`. A group of low confidence is for review.
    pub confidence: String,
}

/// The value of a [`DuplicateGroup`].
#[verifier::ext_equal]
pub struct GroupModel {
    pub keeper: ImageModel,
    pub duplicates: Seq<ImageModel>,
    pub scores: Seq<(Seq<char>, Binary64)>,
    pub confidence: Seq<char>,
}

impl View for DuplicateGroup {
    type V = GroupModel;

    open spec fn view(&self) -> GroupModel {
        GroupModel {
            keeper: self.keeper@,
            duplicates: models(self.duplicates@),
            scores: self.scores@.map_values(|s: (String, Binary64)| (s.0@, s.1)),
            confidence: self.confidence@,
        }
    }
}

/// The confidence of a group that does not say which it has.
pub fn default_confidence() -> (r: String)
    ensures
        r@ == "high"@,
{
    "high".to_owned()
}

/// The value of an image is what its fields hold; its pixels are counted by multiplying its
/// dimensions, and it has the same digest as another just where both have one and the two
/// are equal.
pub proof fn an_image_is_its_fields(image: ImageInfo, other: ImageInfo)
    ensures
        image@.path == image.path@,
        image@.width == image.width,
        image@.height == image.height,
        image@.file_size == image.file_size,
        image@.phash == image.phash,
        image@.dhash == image.dhash,
        image@.md5 == image.md5@,
        image@.pixels() == image.width * image.height,
        same_digest(image@, other@) <==> image.md5@.len() > 0 && image.md5@ == other.md5@,
{
}

/// The value of a group is what its fields hold, item by item.
pub proof fn a_group_is_its_fields(group: DuplicateGroup)
    ensures
        group@.keeper == group.keeper@,
        group@.duplicates.len() == group.duplicates@.len(),
        forall|i: int|
            0 <= i < group.duplicates@.len() ==> #[trigger] group@.duplicates[i]
                == group.duplicates@[i]@,
        group@.scores.len() == group.scores@.len(),
        forall|i: int|
            0 <= i < group.scores@.len() ==> (#[trigger] group@.scores[i]).0
                == group.scores@[i].0@ && group@.scores[i].1 == group.scores@[i].1,
        group@.confidence == group.confidence@,
{
}

/// A list of images stands for the list of their values, one for each.
pub proof fn a_list_is_its_images(images: Seq<ImageInfo>)
    ensures
        models(images).len() == images.len(),
        forall|i: int| 0 <= i < images.len() ==> #[trigger] models(images)[i] == images[i]@,
{
}

} // verus!
