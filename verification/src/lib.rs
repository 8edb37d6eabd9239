//! Finding duplicate images.
//!
//! An image is scanned (`scan`) into an `ImageInfo` (`info`): its size, the digest of its
//! bytes (`digest`) and two perceptual hashes (`perceptual`). Images whose digests agree or
//! whose hashes are close (`bits`) are candidates; `pairs` judges each candidate pair by its
//! structural similarity, a number that `binary64` holds by its bits. The pairs that are left
//! connect images (`connect`, `disjoint`) into groups (`groups`), each with the image to keep.
//! `dedup` is the whole search; `guarantees` states what holds of its result, and `reordering`
//! that the order of the images does not matter to it.
//!
//! `allow` decides which files may be shown (`preview`) or deleted, `paths` what counts as an
//! image by its name, `progress` what is reported on the way, and `text` writes numbers.
pub mod allow;
pub mod binary64;
pub mod bits;
pub mod connect;
pub mod dedup;
pub mod digest;
pub mod disjoint;
pub mod groups;
pub mod guarantees;
pub mod info;
pub mod pairs;
pub mod paths;
pub mod perceptual;
pub mod preview;
pub mod progress;
pub mod reordering;
pub mod scan;
pub mod text;
