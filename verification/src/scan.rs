//! What a scan decides of each file that it meets.
use vstd::prelude::*;
use vstd::string::*;

use crate::allow::{path_model, permission, PathModel, ResolvedPath};
use crate::info::{models, ImageInfo, ImageModel};
use crate::paths::{
    extends, extension_of, has_image_extension, is_ascii_extension, names_an_image,
    names_an_image_ascii, portable, some_reading_gives,
};

verus! {

/// An image with more pixels than this is not decoded.
pub const MAX_DECODE_PIXELS: u64 = 50_000_000;

/// What to do once the header of a file was read.
#[derive(Clone, Copy, Debug, PartialEq, Eq, Structural)]
pub enum AfterPeek {
    /// The header cannot be read: the file is passed over.
    Abandon,
    /// The image is too large to be decoded: the file is skipped.
    SkipTooLarge,
    /// The image is to be decoded.
    Decode,
}

/// What to do once an image was decoded.
#[derive(Clone, Copy, Debug, PartialEq, Eq, Structural)]
pub enum AfterDecode {
    /// The image cannot be decoded: the file is passed over.
    Abandon,
    /// The image is smaller than asked for: the file is skipped.
    SkipTooSmall,
    /// The hashes are to be computed.
    Hash,
}

/// Whether a directory entry is looked at: a file with the extension of an image.
pub fn is_scan_candidate(is_file: bool, path: &str) -> (r: bool)
    ensures
        exists|ext: Option<Seq<char>>| #[trigger]
            extends(path@, ext) && r == (is_file && names_an_image(ext)),
        !is_file ==> !r,
        r ==> exists|e: Seq<char>| #[trigger]
            some_reading_gives(path@, e) && names_an_image(Some(e)),
        portable(path@) ==> r == (is_file && names_an_image(extension_of(path@))),
        portable(path@) && is_ascii_extension(extension_of(path@)) ==> r == (is_file
            && names_an_image_ascii(extension_of(path@))),
{
    let image = has_image_extension(path);
    is_file && image
}

/// What to do with an image, given the dimensions in its header.
pub open spec fn peek_verdict(dims: Option<(u32, u32)>) -> AfterPeek {
    match dims {
        None => AfterPeek::Abandon,
        Some((width, height)) => if width * height > MAX_DECODE_PIXELS {
            AfterPeek::SkipTooLarge
        } else {
            AfterPeek::Decode
        },
    }
}

/// Decides what to do with an image, given the dimensions in its header.
pub fn after_peek(dims: Option<(u32, u32)>) -> (r: AfterPeek)
    ensures
        r == peek_verdict(dims),
        dims is None ==> r == AfterPeek::Abandon,
        dims matches Some((w, h)) ==> r == if w * h <= 50_000_000 {
            AfterPeek::Decode
        } else {
            AfterPeek::SkipTooLarge
        },
{
    match dims {
        None => AfterPeek::Abandon,
        Some((width, height)) => {
            assert(width * height <= 0xFFFF_FFFF * 0xFFFF_FFFF) by (nonlinear_arith)
                requires
                    width <= 0xFFFF_FFFF,
                    height <= 0xFFFF_FFFF,
            ;
            if width as u64 * height as u64 > MAX_DECODE_PIXELS {
                AfterPeek::SkipTooLarge
            } else {
                AfterPeek::Decode
            }
        },
    }
}

/// What to do with an image, given the dimensions that it turned out to have.
pub open spec fn decode_verdict(
    dims: Option<(u32, u32)>,
    min_width: u32,
    min_height: u32,
) -> AfterDecode {
    match dims {
        None => AfterDecode::Abandon,
        Some((width, height)) => if width < min_width || height < min_height {
            AfterDecode::SkipTooSmall
        } else {
            AfterDecode::Hash
        },
    }
}

/// Decides what to do with an image, given the dimensions that it turned out to have.
pub fn after_decode(dims: Option<(u32, u32)>, min_width: u32, min_height: u32) -> (r: AfterDecode)
    ensures
        r == decode_verdict(dims, min_width, min_height),
        dims is None ==> r == AfterDecode::Abandon,
        dims matches Some((w, h)) ==> r == if w >= min_width && h >= min_height {
            AfterDecode::Hash
        } else {
            AfterDecode::SkipTooSmall
        },
{
    match dims {
        None => AfterDecode::Abandon,
        Some((width, height)) => if width < min_width || height < min_height {
            AfterDecode::SkipTooSmall
        } else {
            AfterDecode::Hash
        },
    }
}

/// What is known of an image at the end: nothing where its file could not be read to the
/// end.
pub open spec fn hash_verdict(
    path: Seq<char>,
    width: u32,
    height: u32,
    phash: u64,
    dhash: u64,
    digest: Option<(Seq<char>, u64)>,
) -> Option<ImageModel> {
    match digest {
        None => None,
        Some((md5, file_size)) => Some(
            ImageModel { path, width, height, file_size, phash, dhash, md5 },
        ),
    }
}

/// What an optional image stands for.
pub open spec fn image_model(image: Option<ImageInfo>) -> Option<ImageModel> {
    match image {
        None => None,
        Some(i) => Some(i@),
    }
}

/// Puts together what is known of an image. `digest` is the digest of its file and the
/// size of it.
pub fn after_hash(
    path: String,
    width: u32,
    height: u32,
    phash: u64,
    dhash: u64,
    digest: Option<(String, u64)>,
) -> (r: Option<ImageInfo>)
    ensures
        image_model(r) == hash_verdict(
            path@,
            width,
            height,
            phash,
            dhash,
            digest_model(digest),
        ),
        r is Some <==> digest is Some,
        r matches Some(image) ==> image.path == path && image.width == width && image.height
            == height && image.phash == phash && image.dhash == dhash && digest == Some(
            (image.md5, image.file_size),
        ),
{
    match digest {
        None => None,
        Some((md5, file_size)) => Some(
            ImageInfo { path, width, height, file_size, phash, dhash, md5 },
        ),
    }
}

/// A file that a scan visited, and what came of each step. What comes after a step that
/// ended the visit is nothing, or zero.
pub struct Visit {
    /// The path as it was met.
    pub path: String,
    /// The path that it resolves to.
    pub canon: Option<ResolvedPath>,
    /// The dimensions in the header.
    pub peek: Option<(u32, u32)>,
    /// The dimensions of the decoded image.
    pub decoded: Option<(u32, u32)>,
    pub phash: u64,
    pub dhash: u64,
    /// The digest of the file and the size of it.
    pub digest: Option<(String, u64)>,
}

/// The value of a [`Visit`].
#[verifier::ext_equal]
pub struct VisitModel {
    pub path: Seq<char>,
    pub canon: Option<PathModel>,
    pub peek: Option<(u32, u32)>,
    pub decoded: Option<(u32, u32)>,
    pub phash: u64,
    pub dhash: u64,
    pub digest: Option<(Seq<char>, u64)>,
}

/// What a digest that may be missing stands for.
pub open spec fn digest_model(digest: Option<(String, u64)>) -> Option<(Seq<char>, u64)> {
    match digest {
        None => None,
        Some((md5, size)) => Some((md5@, size)),
    }
}

impl View for Visit {
    type V = VisitModel;

    open spec fn view(&self) -> VisitModel {
        VisitModel {
            path: self.path@,
            canon: path_model(self.canon),
            peek: self.peek,
            decoded: self.decoded,
            phash: self.phash,
            dhash: self.dhash,
            digest: digest_model(self.digest),
        }
    }
}

/// How a visit counts towards the progress of a scan.
#[derive(Clone, Copy, Debug, PartialEq, Eq, Structural)]
pub enum Tally {
    /// Not at all: the file could not be read.
    Uncounted,
    /// As a file that was dealt with.
    Counted,
    /// As a file that was skipped for its size.
    CountedTooLarge,
}

/// What comes of a visit.
pub struct Conclusion {
    /// The image, if it is kept.
    pub kept: Option<ImageInfo>,
    /// How the visit counts.
    pub tally: Tally,
    /// The path to record as allowed.
    pub recorded: Option<ResolvedPath>,
}

/// The value of a [`Conclusion`].
#[verifier::ext_equal]
pub struct ConclusionModel {
    pub kept: Option<ImageModel>,
    pub tally: Tally,
    pub recorded: Option<PathModel>,
}

impl View for Conclusion {
    type V = ConclusionModel;

    open spec fn view(&self) -> ConclusionModel {
        ConclusionModel {
            kept: image_model(self.kept),
            tally: self.tally,
            recorded: path_model(self.recorded),
        }
    }
}

/// What comes of a visit. The path is recorded whatever became of the file.
pub open spec fn conclusion(visit: VisitModel, min_width: u32, min_height: u32) -> ConclusionModel {
    let (kept, tally) = match peek_verdict(visit.peek) {
        AfterPeek::Abandon => (None, Tally::Uncounted),
        AfterPeek::SkipTooLarge => (None, Tally::CountedTooLarge),
        AfterPeek::Decode => match decode_verdict(visit.decoded, min_width, min_height) {
            AfterDecode::Abandon => (None, Tally::Uncounted),
            AfterDecode::SkipTooSmall => (None, Tally::Counted),
            AfterDecode::Hash => {
                let (width, height) = visit.decoded->0;
                match hash_verdict(
                    visit.path,
                    width,
                    height,
                    visit.phash,
                    visit.dhash,
                    visit.digest,
                ) {
                    None => (None, Tally::Uncounted),
                    Some(image) => (Some(image), Tally::Counted),
                }
            },
        },
    };
    ConclusionModel { kept, tally, recorded: visit.canon }
}

/// Concludes a visit.
pub fn conclude(visit: Visit, min_width: u32, min_height: u32) -> (r: Conclusion)
    ensures
        r@ == conclusion(visit@, min_width, min_height),
        r.recorded == visit.canon,
        r.kept matches Some(image) ==> image.path == visit.path && visit.decoded == Some(
            (image.width, image.height),
        ) && image.phash == visit.phash && image.dhash == visit.dhash && visit.digest == Some(
            (image.md5, image.file_size),
        ),
{
    let recorded = visit.canon;
    let (kept, tally): (Option<ImageInfo>, Tally) = match after_peek(visit.peek) {
        AfterPeek::Abandon => (None, Tally::Uncounted),
        AfterPeek::SkipTooLarge => (None, Tally::CountedTooLarge),
        AfterPeek::Decode => match (
            after_decode(visit.decoded, min_width, min_height),
            visit.decoded,
        ) {
            (AfterDecode::SkipTooSmall, _) => (None, Tally::Counted),
            (AfterDecode::Hash, Some((width, height))) => {
                match after_hash(
                    visit.path,
                    width,
                    height,
                    visit.phash,
                    visit.dhash,
                    visit.digest,
                ) {
                    None => (None, Tally::Uncounted),
                    Some(image) => (Some(image), Tally::Counted),
                }
            },
            _ => (None, Tally::Uncounted),
        },
    };
    Conclusion { kept, tally, recorded }
}

/// An image is kept just when every step passed: its header could be read and promises no
/// more pixels than are decoded, it could be decoded and is as large as asked for, and its
/// file could be read to the end. What is then known of it is what the steps found.
pub proof fn an_image_is_kept_when_every_step_passed(
    visit: VisitModel,
    min_width: u32,
    min_height: u32,
)
    ensures
        conclusion(visit, min_width, min_height).kept is Some <==> {
            &&& visit.peek matches Some((w, h))
            &&& w * h <= 50_000_000
            &&& visit.decoded matches Some((w, h))
            &&& w >= min_width
            &&& h >= min_height
            &&& visit.digest is Some
        },
        conclusion(visit, min_width, min_height).kept matches Some(image) ==> {
            &&& image.path == visit.path
            &&& Some((image.width, image.height)) == visit.decoded
            &&& image.phash == visit.phash
            &&& image.dhash == visit.dhash
            &&& Some((image.md5, image.file_size)) == visit.digest
        },
{
}

/// A visit counts unless the file could not be read; what is kept always counts. The path is
/// recorded either way.
pub proof fn only_unreadable_files_go_uncounted(
    visit: VisitModel,
    min_width: u32,
    min_height: u32,
)
    ensures
        conclusion(visit, min_width, min_height).kept is Some ==> conclusion(
            visit,
            min_width,
            min_height,
        ).tally == Tally::Counted,
        visit.peek is Some && visit.decoded is Some && visit.digest is Some ==> conclusion(
            visit,
            min_width,
            min_height,
        ).tally != Tally::Uncounted,
        conclusion(visit, min_width, min_height).tally == Tally::CountedTooLarge <==> (visit.peek
            matches Some((w, h)) && w * h > 50_000_000),
        conclusion(visit, min_width, min_height).tally == Tally::Uncounted <==> {
            ||| visit.peek is None
            ||| (visit.peek matches Some((w, h)) && w * h <= 50_000_000) && (visit.decoded is None
                || (visit.decoded matches Some((w, h)) && w >= min_width && h >= min_height
                && visit.digest is None))
        },
        conclusion(visit, min_width, min_height).recorded == visit.canon,
{
}

/// The paths that are allowed once the first `k` visits were concluded and what they record
/// was recorded.
pub open spec fn allowed_after(
    paths: Set<Seq<u8>>,
    visits: Seq<VisitModel>,
    min_width: u32,
    min_height: u32,
    k: int,
) -> Set<Seq<u8>>
    decreases k,
{
    if k <= 0 {
        paths
    } else {
        let before = allowed_after(paths, visits, min_width, min_height, k - 1);
        match conclusion(visits[k - 1], min_width, min_height).recorded {
            None => before,
            Some(path) => before.insert(path.encoded),
        }
    }
}

proof fn lemma_allowed_after(
    paths: Set<Seq<u8>>,
    visits: Seq<VisitModel>,
    min_width: u32,
    min_height: u32,
    k: int,
    path: Seq<u8>,
)
    requires
        0 <= k <= visits.len(),
    ensures
        allowed_after(paths, visits, min_width, min_height, k).contains(path) <==> paths.contains(
            path,
        ) || exists|v: int|
            0 <= v < k && ((#[trigger] visits[v]).canon matches Some(p) && p.encoded == path),
    decreases k,
{
    if k > 0 {
        lemma_allowed_after(paths, visits, min_width, min_height, k - 1, path);
        assert(visits[k - 1].canon matches Some(p) && p.encoded == path ==> exists|v: int|
            0 <= v < k && ((#[trigger] visits[v]).canon matches Some(p) && p.encoded == path));
    }
}

/// A scan allows every file that it visited and that resolves, whatever became of it, and
/// none other.
pub proof fn a_scan_allows_just_what_it_visited(
    paths: Set<Seq<u8>>,
    visits: Seq<VisitModel>,
    min_width: u32,
    min_height: u32,
    raw: Seq<char>,
    path: PathModel,
)
    ensures
        permission(
            raw,
            Some(path),
            Some(allowed_after(paths, visits, min_width, min_height, visits.len() as int)),
        ) is Ok <==> paths.contains(path.encoded) || exists|v: int|
            0 <= v < visits.len() && ((#[trigger] visits[v]).canon matches Some(p) && p.encoded
                == path.encoded),
{
    lemma_allowed_after(
        paths,
        visits,
        min_width,
        min_height,
        visits.len() as int,
        path.encoded,
    );
}

/// The results that are there, among the first `k`, in their order.
pub open spec fn present_below(results: Seq<Option<ImageInfo>>, k: int) -> Seq<ImageInfo>
    decreases k,
{
    if k <= 0 {
        Seq::empty()
    } else {
        match results[k - 1] {
            None => present_below(results, k - 1),
            Some(info) => present_below(results, k - 1).push(info),
        }
    }
}

/// Collects the images that were kept, in the order in which the files were met.
pub fn collect_kept(results: Vec<Option<ImageInfo>>) -> (r: Vec<ImageInfo>)
    ensures
        r@ == present_below(results@, results@.len() as int),
        r@ == results@.filter(|o: Option<ImageInfo>| o is Some).map_values(
            |o: Option<ImageInfo>| o->0,
        ),
        forall|k: int|
            0 <= k < results@.len() ==> (#[trigger] results@[k] matches Some(info) ==> r@.contains(
                info,
            )),
{
    let mut kept: Vec<ImageInfo> = Vec::new();
    let mut k: usize = 0;
    while k < results.len()
        invariant
            k <= results@.len(),
            kept@ == present_below(results@, k as int),
        decreases results@.len() - k,
    {
        if let Some(info) = &results[k] {
            kept.push(info.clone());
        }
        k += 1;
    }
    proof {
        every_result_is_collected(results@);
    }
    kept
}

proof fn lemma_present(results: Seq<Option<ImageInfo>>, k: int)
    requires
        0 <= k <= results.len(),
    ensures
        present_below(results, k) == results.take(k).filter(
            |o: Option<ImageInfo>| o is Some,
        ).map_values(|o: Option<ImageInfo>| o->0),
    decreases k,
{
    reveal(Seq::filter);
    let there = |o: Option<ImageInfo>| o is Some;
    let inside = |o: Option<ImageInfo>| o->0;
    if k == 0 {
        assert(results.take(0).filter(there).map_values(inside) =~= Seq::<ImageInfo>::empty());
    } else {
        lemma_present(results, k - 1);
        assert(results.take(k).drop_last() =~= results.take(k - 1));
        let before = results.take(k - 1).filter(there);
        if results[k - 1] is Some {
            assert(results.take(k).filter(there) == before.push(results[k - 1]));
            assert(before.push(results[k - 1]).map_values(inside) =~= before.map_values(
                inside,
            ).push(results[k - 1]->0));
        }
    }
}

/// Every result that is there is collected, none other, and all in their order: the list is
/// that of the results with those that are missing filtered out.
pub proof fn every_result_is_collected(results: Seq<Option<ImageInfo>>)
    ensures
        present_below(results, results.len() as int) == results.filter(
            |o: Option<ImageInfo>| o is Some,
        ).map_values(|o: Option<ImageInfo>| o->0),
        forall|k: int|
            0 <= k < results.len() ==> (#[trigger] results[k] matches Some(info) ==> present_below(
                results,
                results.len() as int,
            ).contains(info)),
{
    let there = |o: Option<ImageInfo>| o is Some;
    let inside = |o: Option<ImageInfo>| o->0;
    lemma_present(results, results.len() as int);
    assert(results.take(results.len() as int) =~= results);
    let list = results.filter(there);
    results.filter_lemma(there);
    assert forall|k: int| 0 <= k < results.len() implies (#[trigger] results[k] matches Some(info)
        ==> present_below(results, results.len() as int).contains(info)) by {
        if results[k] is Some {
            assert(there(results[k]));
            assert(list.contains(results[k]));
            let at = choose|at: int| 0 <= at < list.len() && list[at] == results[k];
            assert(list.map_values(inside)[at] == results[k]->0);
        }
    }
}

/// What a scan knows once the first `k` visits are concluded: the images that are kept, in
/// the order of the visits.
pub open spec fn kept_below(
    visits: Seq<VisitModel>,
    min_width: u32,
    min_height: u32,
    k: int,
) -> Seq<ImageModel>
    decreases k,
{
    if k <= 0 {
        Seq::empty()
    } else {
        let before = kept_below(visits, min_width, min_height, k - 1);
        match conclusion(visits[k - 1], min_width, min_height).kept {
            None => before,
            Some(image) => before.push(image),
        }
    }
}

/// Whether `results` holds what the conclusions of the visits keep, one for each.
pub open spec fn are_results_of(
    results: Seq<Option<ImageInfo>>,
    visits: Seq<VisitModel>,
    min_width: u32,
    min_height: u32,
) -> bool {
    &&& results.len() == visits.len()
    &&& forall|k: int|
        0 <= k < results.len() ==> image_model(#[trigger] results[k]) == conclusion(
            visits[k],
            min_width,
            min_height,
        ).kept
}

proof fn lemma_kept_below(
    results: Seq<Option<ImageInfo>>,
    visits: Seq<VisitModel>,
    min_width: u32,
    min_height: u32,
    k: int,
)
    requires
        are_results_of(results, visits, min_width, min_height),
        0 <= k <= results.len(),
    ensures
        models(present_below(results, k)) == kept_below(visits, min_width, min_height, k),
    decreases k,
{
    if k > 0 {
        lemma_kept_below(results, visits, min_width, min_height, k - 1);
        assert(image_model(results[k - 1]) == conclusion(
            visits[k - 1],
            min_width,
            min_height,
        ).kept);
    }
    assert(models(present_below(results, k)) =~= kept_below(visits, min_width, min_height, k));
}

/// What a scan finds is determined by the files: what is collected of the results is what
/// the visits keep, in their order.
pub proof fn a_scan_finds_what_the_visits_keep(
    results: Seq<Option<ImageInfo>>,
    visits: Seq<VisitModel>,
    min_width: u32,
    min_height: u32,
)
    requires
        are_results_of(results, visits, min_width, min_height),
    ensures
        models(present_below(results, results.len() as int)) == kept_below(
            visits,
            min_width,
            min_height,
            visits.len() as int,
        ),
{
    lemma_kept_below(results, visits, min_width, min_height, results.len() as int);
}

proof fn lemma_kept_visits(visits: Seq<VisitModel>, min_width: u32, min_height: u32, k: int)
    requires
        0 <= k <= visits.len(),
    ensures
        kept_below(visits, min_width, min_height, k) == visits.take(k).filter(
            |v: VisitModel|
                {
                    &&& v.peek matches Some((w, h))
                    &&& w * h <= 50_000_000
                    &&& v.decoded matches Some((w, h))
                    &&& w >= min_width
                    &&& h >= min_height
                    &&& v.digest is Some
                },
        ).map_values(
            |v: VisitModel|
                ImageModel {
                    path: v.path,
                    width: (v.decoded->0).0,
                    height: (v.decoded->0).1,
                    file_size: (v.digest->0).1,
                    phash: v.phash,
                    dhash: v.dhash,
                    md5: (v.digest->0).0,
                },
        ),
    decreases k,
{
    reveal(Seq::filter);
    let passes = |v: VisitModel|
        {
            &&& v.peek matches Some((w, h))
            &&& w * h <= 50_000_000
            &&& v.decoded matches Some((w, h))
            &&& w >= min_width
            &&& h >= min_height
            &&& v.digest is Some
        };
    let image = |v: VisitModel|
        ImageModel {
            path: v.path,
            width: (v.decoded->0).0,
            height: (v.decoded->0).1,
            file_size: (v.digest->0).1,
            phash: v.phash,
            dhash: v.dhash,
            md5: (v.digest->0).0,
        };
    if k == 0 {
        assert(visits.take(0).filter(passes).map_values(image) =~= Seq::<ImageModel>::empty());
    } else {
        lemma_kept_visits(visits, min_width, min_height, k - 1);
        an_image_is_kept_when_every_step_passed(visits[k - 1], min_width, min_height);
        assert(visits.take(k).drop_last() =~= visits.take(k - 1));
        let before = visits.take(k - 1).filter(passes);
        if passes(visits[k - 1]) {
            assert(visits.take(k).filter(passes) == before.push(visits[k - 1]));
            assert(before.push(visits[k - 1]).map_values(image) =~= before.map_values(image).push(
                image(visits[k - 1]),
            ));
            assert(conclusion(visits[k - 1], min_width, min_height).kept == Some(
                image(visits[k - 1]),
            ));
        }
    }
}

/// A scan lists every usable image, and none other, in the order of the visits: those whose
/// header promises at most fifty million pixels, that decode to at least the size asked for,
/// and whose file could be read to the end. Each is listed with what the visit found of it.
pub proof fn a_scan_lists_every_usable_image(
    visits: Seq<VisitModel>,
    min_width: u32,
    min_height: u32,
)
    ensures
        kept_below(visits, min_width, min_height, visits.len() as int) == visits.filter(
            |v: VisitModel|
                {
                    &&& v.peek matches Some((w, h))
                    &&& w * h <= 50_000_000
                    &&& v.decoded matches Some((w, h))
                    &&& w >= min_width
                    &&& h >= min_height
                    &&& v.digest is Some
                },
        ).map_values(
            |v: VisitModel|
                ImageModel {
                    path: v.path,
                    width: (v.decoded->0).0,
                    height: (v.decoded->0).1,
                    file_size: (v.digest->0).1,
                    phash: v.phash,
                    dhash: v.dhash,
                    md5: (v.digest->0).0,
                },
        ),
{
    lemma_kept_visits(visits, min_width, min_height, visits.len() as int);
    assert(visits.take(visits.len() as int) =~= visits);
}

/// Two scans that met the same files, and ask for the same size, find the same images, in
/// the same order.
pub proof fn two_scans_of_the_same_files_agree(
    one: Seq<Option<ImageInfo>>,
    other: Seq<Option<ImageInfo>>,
    visits: Seq<VisitModel>,
    min_width: u32,
    min_height: u32,
)
    requires
        are_results_of(one, visits, min_width, min_height),
        are_results_of(other, visits, min_width, min_height),
    ensures
        models(present_below(one, one.len() as int)) == models(
            present_below(other, other.len() as int),
        ),
{
    a_scan_finds_what_the_visits_keep(one, visits, min_width, min_height);
    a_scan_finds_what_the_visits_keep(other, visits, min_width, min_height);
}

/// The complaint about a folder that is none.
pub fn not_a_directory(folder: &str) -> (r: String)
    ensures
        r@ == "Not a valid directory: "@ + folder@,
{
    "Not a valid directory: ".to_owned().concat(folder)
}

/// The value of a visit, and of what comes of it, is what the fields hold.
pub proof fn a_visit_is_its_fields(visit: Visit, end: Conclusion)
    ensures
        visit@.path == visit.path@,
        visit@.canon is Some <==> visit.canon is Some,
        visit.canon matches Some(path) ==> visit@.canon == Some(path@),
        visit@.peek == visit.peek,
        visit@.decoded == visit.decoded,
        visit@.phash == visit.phash,
        visit@.dhash == visit.dhash,
        visit@.digest is Some <==> visit.digest is Some,
        visit.digest matches Some((md5, size)) ==> visit@.digest == Some((md5@, size)),
        end@.kept is Some <==> end.kept is Some,
        end.kept matches Some(image) ==> end@.kept == Some(image@),
        end@.tally == end.tally,
        end@.recorded is Some <==> end.recorded is Some,
        end.recorded matches Some(path) ==> end@.recorded == Some(path@),
{
}

} // verus!
