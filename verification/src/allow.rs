//! The files that may be opened or deleted: those that a scan has visited.
use vstd::hash_set::StringHashSet;
use vstd::prelude::*;
use vstd::string::*;

use crate::digest::{hex_encode, hex_text, hex_text_is_injective};

verus! {

/// A path with all links, `.` and `..` resolved.
pub struct ResolvedPath {
    encoded: Vec<u8>,
    text: String,
}

/// The value of a [`ResolvedPath`].
#[verifier::ext_equal]
pub struct PathModel {
    /// The bytes of the path, in the encoding of the platform. They identify it.
    pub encoded: Seq<u8>,
    /// The path as it is shown.
    pub text: Seq<char>,
}

impl View for ResolvedPath {
    type V = PathModel;

    closed spec fn view(&self) -> PathModel {
        PathModel { encoded: self.encoded@, text: self.text@ }
    }
}

impl ResolvedPath {
    #[verifier::type_invariant]
    spec fn short(self) -> bool {
        2 * self.encoded@.len() <= isize::MAX
    }

    /// The path with the given bytes, which is shown as `text`.
    pub fn new(encoded: Vec<u8>, text: String) -> (r: ResolvedPath)
        requires
            2 * encoded@.len() <= isize::MAX,
        ensures
            r@ == (PathModel { encoded: encoded@, text: text@ }),
    {
        ResolvedPath { encoded, text }
    }

    /// The bytes of the path.
    pub fn encoded(&self) -> (r: &Vec<u8>)
        ensures
            r@ == self@.encoded,
    {
        &self.encoded
    }

    /// The path as it is shown.
    pub fn text(&self) -> (r: &String)
        ensures
            r@ == self@.text,
    {
        &self.text
    }
}

/// What an optional path stands for.
pub open spec fn path_model(path: Option<ResolvedPath>) -> Option<PathModel> {
    match path {
        None => None,
        Some(p) => Some(p@),
    }
}

/// The resolved paths that may be opened or deleted. They are kept by the hexadecimal
/// notation of their bytes.
pub struct AllowList {
    keys: StringHashSet,
}

impl View for AllowList {
    type V = Set<Seq<u8>>;

    closed spec fn view(&self) -> Set<Seq<u8>> {
        Set::new(|path: Seq<u8>| self.keys@.contains(hex_text(path)))
    }
}

/// What a list that could be locked, or not, stands for.
pub open spec fn list_model(list: Option<&AllowList>) -> Option<Set<Seq<u8>>> {
    match list {
        None => None,
        Some(l) => Some(l@),
    }
}

impl AllowList {
    /// No path is allowed.
    pub fn new() -> (r: AllowList)
        ensures
            r@ == Set::<Seq<u8>>::empty(),
    {
        let r = AllowList { keys: StringHashSet::new() };
        assert(r@ =~= Set::<Seq<u8>>::empty());
        r
    }

    /// Allows a path that was scanned. One that does not resolve is passed over.
    pub fn record_allowed(&mut self, canon: Option<&ResolvedPath>)
        ensures
            final(self)@ == (match canon {
                None => old(self)@,
                Some(path) => old(self)@.insert(path@.encoded),
            }),
    {
        if let Some(path) = canon {
            proof {
                use_type_invariant(path);
            }
            self.keys.insert(hex_encode(&path.encoded));
            proof {
                assert forall|p: Seq<u8>| #[trigger] self@.contains(p) <==> old(self)@.insert(
                    path@.encoded,
                ).contains(p) by {
                    if hex_text(p) == hex_text(path@.encoded) {
                        hex_text_is_injective(p, path@.encoded);
                    }
                }
                assert(self@ =~= old(self)@.insert(path@.encoded));
            }
        }
    }

    /// Whether a path is allowed.
    pub fn allows(&self, path: &ResolvedPath) -> (r: bool)
        ensures
            r == self@.contains(path@.encoded),
    {
        proof {
            use_type_invariant(path);
        }
        let key = hex_encode(&path.encoded);
        self.keys.contains(key.as_str())
    }

    /// Drops a path from the list.
    pub fn forget(&mut self, path: &ResolvedPath)
        ensures
            final(self)@ == old(self)@.remove(path@.encoded),
    {
        proof {
            use_type_invariant(path);
        }
        let key = hex_encode(&path.encoded);
        self.keys.remove(key.as_str());
        proof {
            assert forall|p: Seq<u8>| #[trigger] self@.contains(p) <==> old(self)@.remove(
                path@.encoded,
            ).contains(p) by {
                if hex_text(p) == hex_text(path@.encoded) {
                    hex_text_is_injective(p, path@.encoded);
                }
            }
            assert(self@ =~= old(self)@.remove(path@.encoded));
        }
    }

    /// Drops all paths from the list.
    pub fn clear(&mut self)
        ensures
            final(self)@ == Set::<Seq<u8>>::empty(),
    {
        self.keys.clear();
        assert(self@ =~= Set::<Seq<u8>>::empty());
    }
}

/// The answer to a request for the file at `raw`: the path that it resolves to, if that
/// may be opened or deleted, or the reason why not. `canon` is nothing where `raw` does not
/// resolve, `list` where the list cannot be read.
pub open spec fn permission(
    raw: Seq<char>,
    canon: Option<PathModel>,
    list: Option<Set<Seq<u8>>>,
) -> Result<PathModel, Seq<char>> {
    match canon {
        None => Err("path does not resolve: "@ + raw),
        Some(path) => match list {
            None => Err("allow-list lock poisoned"@),
            Some(paths) => if paths.contains(path.encoded) {
                Ok(path)
            } else {
                Err("path not in scan allow-list: "@ + raw)
            },
        },
    }
}

/// What the answer to a request stands for.
pub open spec fn answer(r: Result<ResolvedPath, String>) -> Result<PathModel, Seq<char>> {
    match r {
        Ok(path) => Ok(path@),
        Err(reason) => Err(reason@),
    }
}

/// Answers a request for the file at `raw`.
pub fn check_allowed(raw: &str, canon: Option<ResolvedPath>, list: Option<&AllowList>) -> (r:
    Result<ResolvedPath, String>)
    ensures
        answer(r) == permission(raw@, path_model(canon), list_model(list)),
        r is Ok <==> (canon matches Some(path) && (list matches Some(paths) && paths@.contains(
            path@.encoded,
        ))),
        r matches Ok(path) ==> canon == Some(path),
        canon is None ==> (r matches Err(reason) && reason@ == "path does not resolve: "@ + raw@),
        canon is Some && list is None ==> (r matches Err(reason) && reason@
            == "allow-list lock poisoned"@),
        canon matches Some(path) ==> (list matches Some(paths) ==> !paths@.contains(path@.encoded)
            ==> (r matches Err(reason) && reason@ == "path not in scan allow-list: "@ + raw@)),
{
    match canon {
        None => Err("path does not resolve: ".to_owned().concat(raw)),
        Some(path) => match list {
            None => Err("allow-list lock poisoned".to_owned()),
            Some(paths) => if paths.allows(&path) {
                Ok(path)
            } else {
                Err("path not in scan allow-list: ".to_owned().concat(raw))
            },
        },
    }
}

/// Files that are being moved to the trash one after the other, and what went wrong.
pub struct DeleteBatch {
    errors: Vec<String>,
}

/// What a list of messages stands for.
pub open spec fn texts(messages: Seq<String>) -> Seq<Seq<char>> {
    messages.map_values(|m: String| m@)
}

impl View for DeleteBatch {
    type V = Seq<Seq<char>>;

    /// The messages so far.
    closed spec fn view(&self) -> Seq<Seq<char>> {
        texts(self.errors@)
    }
}

impl DeleteBatch {
    /// Nothing was deleted yet.
    pub fn new() -> (r: DeleteBatch)
        ensures
            r@ == Seq::<Seq<char>>::empty(),
    {
        let r = DeleteBatch { errors: Vec::new() };
        assert(r@ =~= Seq::<Seq<char>>::empty());
        r
    }

    /// Takes the request to delete the file at `raw`. Returns the path to move to the
    /// trash; nothing where the request is rejected, which is noted.
    pub fn request(
        &mut self,
        raw: &str,
        canon: Option<ResolvedPath>,
        list: Option<&AllowList>,
    ) -> (r: Option<ResolvedPath>)
        ensures
            match permission(raw@, path_model(canon), list_model(list)) {
                Ok(path) => path_model(r) == Some(path) && final(self)@ == old(self)@,
                Err(reason) => r is None && final(self)@ == old(self)@.push(
                    raw@ + ": rejected ("@ + reason + ")"@,
                ),
            },
    {
        match check_allowed(raw, canon, list) {
            Err(reason) => {
                let message = raw.to_owned().concat(": rejected (").concat(reason.as_str()).concat(
                    ")",
                );
                self.errors.push(message);
                assert(self@ =~= old(self)@.push(message@));
                None
            },
            Ok(path) => Some(path),
        }
    }

    /// Takes the outcome of moving `path`, which was requested as `raw`, to the trash. A
    /// failure is noted; a file that is gone is no longer allowed.
    pub fn settle(
        &mut self,
        raw: &str,
        path: &ResolvedPath,
        failure: Option<&str>,
        list: &mut AllowList,
    )
        ensures
            match failure {
                None => final(self)@ == old(self)@ && final(list)@ == old(list)@.remove(
                    path@.encoded,
                ),
                Some(e) => final(self)@ == old(self)@.push(raw@ + ": "@ + e@) && final(list)@
                    == old(list)@,
            },
    {
        match failure {
            Some(e) => {
                let message = raw.to_owned().concat(": ").concat(e);
                self.errors.push(message);
                assert(self@ =~= old(self)@.push(message@));
            },
            None => {
                list.forget(path);
            },
        }
    }

    /// The messages, none of them where every file was moved to the trash.
    pub fn finish(self) -> (r: Vec<String>)
        ensures
            texts(r@) == self@,
            r@.len() == self@.len(),
            forall|i: int| 0 <= i < r@.len() ==> (#[trigger] r@[i])@ == self@[i],
    {
        self.errors
    }
}

/// Each request has its answer: the path itself where it resolves and is on the list, and
/// otherwise the reason.
pub proof fn each_request_has_its_answer(
    raw: Seq<char>,
    path: PathModel,
    list: Option<Set<Seq<u8>>>,
    paths: Set<Seq<u8>>,
)
    ensures
        permission(raw, None, list) == Err::<PathModel, Seq<char>>(
            "path does not resolve: "@ + raw,
        ),
        permission(raw, Some(path), None) == Err::<PathModel, Seq<char>>(
            "allow-list lock poisoned"@,
        ),
        permission(raw, Some(path), Some(paths)) == if paths.contains(path.encoded) {
            Ok::<PathModel, Seq<char>>(path)
        } else {
            Err("path not in scan allow-list: "@ + raw)
        },
{
}

/// Whatever is asked for, only a path on the list is ever handed out.
pub proof fn only_listed_paths_are_handed_out(
    raw: Seq<char>,
    canon: Option<PathModel>,
    list: Option<Set<Seq<u8>>>,
)
    ensures
        permission(raw, canon, list) matches Ok(path) ==> canon == Some(path) && list is Some
            && list->0.contains(path.encoded),
{
}

/// A path that was scanned may be opened and deleted, however it is spelled.
pub proof fn a_scanned_path_is_allowed(raw: Seq<char>, path: PathModel, paths: Set<Seq<u8>>)
    ensures
        permission(raw, Some(path), Some(paths.insert(path.encoded))) == Ok::<PathModel, Seq<char>>(
            path,
        ),
{
}

/// A path that was not scanned is rejected, whatever else was.
pub proof fn another_path_stays_rejected(
    raw: Seq<char>,
    path: PathModel,
    other: PathModel,
    paths: Set<Seq<u8>>,
)
    requires
        !paths.contains(other.encoded),
        path.encoded != other.encoded,
    ensures
        permission(raw, Some(other), Some(paths.insert(path.encoded))) == Err::<
            PathModel,
            Seq<char>,
        >("path not in scan allow-list: "@ + raw),
{
}

/// A file that was moved to the trash cannot be asked for again.
pub proof fn a_deleted_path_is_rejected(raw: Seq<char>, path: PathModel, paths: Set<Seq<u8>>)
    ensures
        permission(raw, Some(path), Some(paths.remove(path.encoded))) == Err::<PathModel, Seq<char>>(
            "path not in scan allow-list: "@ + raw,
        ),
{
}

/// One request of a batch, and what came of it.
pub struct Deletion {
    /// The path as it was asked for.
    pub raw: Seq<char>,
    /// The path that it resolved to at the time.
    pub canon: Option<PathModel>,
    /// Why the file could not be moved to the trash, if it was tried and failed.
    pub failure: Option<Seq<char>>,
}

/// Whether a request, made while `paths` were allowed, moved its file to the trash.
pub open spec fn moved(paths: Set<Seq<u8>>, step: Deletion) -> bool {
    permission(step.raw, step.canon, Some(paths)) is Ok && step.failure is None
}

/// The paths that are allowed once the requests of a batch were dealt with.
pub open spec fn list_after(paths: Set<Seq<u8>>, steps: Seq<Deletion>) -> Set<Seq<u8>>
    decreases steps.len(),
{
    if steps.len() == 0 {
        paths
    } else {
        let before = list_after(paths, steps.drop_last());
        let step = steps.last();
        if moved(before, step) {
            before.remove(step.canon->0.encoded)
        } else {
            before
        }
    }
}

/// The messages of a batch.
pub open spec fn messages_after(paths: Set<Seq<u8>>, steps: Seq<Deletion>) -> Seq<Seq<char>>
    decreases steps.len(),
{
    if steps.len() == 0 {
        Seq::empty()
    } else {
        let before = list_after(paths, steps.drop_last());
        let messages = messages_after(paths, steps.drop_last());
        let step = steps.last();
        match permission(step.raw, step.canon, Some(before)) {
            Err(reason) => messages.push(step.raw + ": rejected ("@ + reason + ")"@),
            Ok(_) => match step.failure {
                None => messages,
                Some(e) => messages.push(step.raw + ": "@ + e),
            },
        }
    }
}

/// A request and the outcome of it are one step of a batch: the messages and the list
/// change as [`DeleteBatch::request`] and [`DeleteBatch::settle`] change them.
pub proof fn one_more_step(paths: Set<Seq<u8>>, steps: Seq<Deletion>, step: Deletion)
    ensures
        ({
            let before = list_after(paths, steps);
            let after = list_after(paths, steps.push(step));
            let messages = messages_after(paths, steps);
            let more = messages_after(paths, steps.push(step));
            match permission(step.raw, step.canon, Some(before)) {
                Err(reason) => after == before && more == messages.push(
                    step.raw + ": rejected ("@ + reason + ")"@,
                ),
                Ok(path) => match step.failure {
                    None => after == before.remove(path.encoded) && more == messages,
                    Some(e) => after == before && more == messages.push(step.raw + ": "@ + e),
                },
            }
        }),
{
    assert(steps.push(step).drop_last() =~= steps);
}

/// A batch moves only files that were allowed when it began, and no path is allowed
/// afterwards that was not.
pub proof fn a_batch_allows_nothing_new(paths: Set<Seq<u8>>, steps: Seq<Deletion>, k: int)
    requires
        0 <= k < steps.len(),
    ensures
        list_after(paths, steps).subset_of(paths),
        moved(list_after(paths, steps.take(k)), steps[k]) ==> paths.contains(
            steps[k].canon->0.encoded,
        ),
{
    lemma_list_shrinks(paths, steps);
    lemma_list_shrinks(paths, steps.take(k));
}

proof fn lemma_list_shrinks(paths: Set<Seq<u8>>, steps: Seq<Deletion>)
    ensures
        list_after(paths, steps).subset_of(paths),
    decreases steps.len(),
{
    if steps.len() > 0 {
        lemma_list_shrinks(paths, steps.drop_last());
    }
}

proof fn lemma_list_shrinks_from(paths: Set<Seq<u8>>, steps: Seq<Deletion>, k: int)
    requires
        0 <= k <= steps.len(),
    ensures
        list_after(paths, steps).subset_of(list_after(paths, steps.take(k))),
    decreases steps.len(),
{
    if k == steps.len() {
        assert(steps.take(k) =~= steps);
    } else {
        lemma_list_shrinks_from(paths, steps.drop_last(), k);
        assert(steps.drop_last().take(k) =~= steps.take(k));
    }
}

/// A batch moves no file twice: once it is in the trash, it is not allowed any more.
pub proof fn a_batch_moves_no_file_twice(paths: Set<Seq<u8>>, steps: Seq<Deletion>, k: int, l: int)
    requires
        0 <= k < l < steps.len(),
        moved(list_after(paths, steps.take(k)), steps[k]),
        moved(list_after(paths, steps.take(l)), steps[l]),
    ensures
        steps[k].canon->0.encoded != steps[l].canon->0.encoded,
{
    let first = steps.take(k + 1);
    assert(first.drop_last() =~= steps.take(k));
    assert(first.last() == steps[k]);
    assert(!list_after(paths, first).contains(steps[k].canon->0.encoded));
    lemma_list_shrinks_from(paths, steps.take(l), k + 1);
    assert(steps.take(l).take(k + 1) =~= first);
}

proof fn lemma_prefix_of_drop_last(steps: Seq<Deletion>, k: int)
    requires
        0 <= k < steps.len(),
    ensures
        k < steps.len() - 1 ==> steps.drop_last()[k] == steps[k] && steps.drop_last().take(k)
            == steps.take(k),
        steps.take(steps.len() - 1) == steps.drop_last(),
{
    assert(steps.take(steps.len() - 1) =~= steps.drop_last());
    if k < steps.len() - 1 {
        assert(steps.drop_last().take(k) =~= steps.take(k));
    }
}

/// Whether request `k` of a batch moved its file to the trash.
pub open spec fn moved_at(paths: Set<Seq<u8>>, steps: Seq<Deletion>, k: int) -> bool {
    moved(list_after(paths, steps.take(k)), steps[k])
}

proof fn lemma_no_messages(paths: Set<Seq<u8>>, steps: Seq<Deletion>, k: int)
    requires
        messages_after(paths, steps).len() == 0,
        0 <= k < steps.len(),
    ensures
        moved_at(paths, steps, k),
    decreases steps.len(),
{
    lemma_prefix_of_drop_last(steps, k);
    if k < steps.len() - 1 {
        lemma_no_messages(paths, steps.drop_last(), k);
    }
}

proof fn lemma_all_moved(paths: Set<Seq<u8>>, steps: Seq<Deletion>)
    requires
        forall|k: int| 0 <= k < steps.len() ==> #[trigger] moved_at(paths, steps, k),
    ensures
        messages_after(paths, steps).len() == 0,
    decreases steps.len(),
{
    if steps.len() > 0 {
        let before = steps.drop_last();
        assert forall|k: int| 0 <= k < before.len() implies #[trigger] moved_at(
            paths,
            before,
            k,
        ) by {
            lemma_prefix_of_drop_last(steps, k);
            assert(moved_at(paths, steps, k));
        }
        lemma_all_moved(paths, before);
        lemma_prefix_of_drop_last(steps, steps.len() - 1);
        assert(moved_at(paths, steps, steps.len() - 1));
    }
}

/// A batch without messages is one that moved every file that it was asked to.
pub proof fn no_messages_means_all_moved(paths: Set<Seq<u8>>, steps: Seq<Deletion>)
    ensures
        messages_after(paths, steps).len() == 0 <==> forall|k: int|
            0 <= k < steps.len() ==> #[trigger] moved_at(paths, steps, k),
{
    if messages_after(paths, steps).len() == 0 {
        assert forall|k: int| 0 <= k < steps.len() implies #[trigger] moved_at(
            paths,
            steps,
            k,
        ) by {
            lemma_no_messages(paths, steps, k);
        }
    }
    if forall|k: int| 0 <= k < steps.len() ==> #[trigger] moved_at(paths, steps, k) {
        lemma_all_moved(paths, steps);
    }
}

/// What is missing stands for something missing, and what is there for its value.
pub proof fn options_stand_for_their_values(
    path: ResolvedPath,
    list: &AllowList,
    reason: String,
    messages: Seq<String>,
)
    ensures
        path_model(None) is None,
        path_model(Some(path)) == Some(path@),
        list_model(None) is None,
        list_model(Some(list)) == Some(list@),
        answer(Ok(path)) == Ok::<PathModel, Seq<char>>(path@),
        answer(Err(reason)) == Err::<PathModel, Seq<char>>(reason@),
        texts(messages).len() == messages.len(),
        forall|i: int| 0 <= i < messages.len() ==> #[trigger] texts(messages)[i] == messages[i]@,
{
}

} // verus!
