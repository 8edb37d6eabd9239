//! Which files are images, told by their names.
use vstd::prelude::*;
use vstd::string::*;
use vstd::utf8::is_ascii_chars;

use crate::text::text_eq;

verus! {

/// The place of the last `c` in `s`, or -1.
pub open spec fn last_place(s: Seq<char>, c: char) -> int
    decreases s.len(),
{
    if s.len() == 0 {
        -1
    } else if s.last() == c {
        s.len() - 1
    } else {
        last_place(s.drop_last(), c)
    }
}

/// Which characters separate the components of a path.
pub enum Separators {
    Slash,
    Backslash,
    Both,
}

/// The place of the last separator in `s`, or -1.
pub open spec fn last_separator(s: Seq<char>, separators: Separators) -> int {
    let slash = last_place(s, '/');
    let backslash = last_place(s, '\\');
    match separators {
        Separators::Slash => slash,
        Separators::Backslash => backslash,
        Separators::Both => if slash > backslash {
            slash
        } else {
            backslash
        },
    }
}

/// The last component of a path, unless it is `..`. Separators at the end and components
/// `.` do not count.
pub open spec fn file_name(path: Seq<char>, separators: Separators) -> Option<Seq<char>>
    decreases path.len(),
{
    let at = last_separator(path, separators);
    let name = path.skip(at + 1);
    if name.len() == 0 || name == seq!['.'] {
        if 0 <= at < path.len() {
            file_name(path.take(at), separators)
        } else {
            None
        }
    } else if name == seq!['.', '.'] {
        None
    } else {
        Some(name)
    }
}

/// What follows the last dot of the file name, unless that is its only dot and stands at
/// its start.
pub open spec fn extension_by(path: Seq<char>, separators: Separators) -> Option<Seq<char>> {
    match file_name(path, separators) {
        None => None,
        Some(name) => {
            let dot = last_place(name, '.');
            if dot <= 0 {
                None
            } else {
                Some(name.skip(dot + 1))
            }
        },
    }
}

/// The extension of a path whose components are separated by `/`.
pub open spec fn extension_of(path: Seq<char>) -> Option<Seq<char>> {
    extension_by(path, Separators::Slash)
}

/// Whether a path has the same components on every platform: it has no backslash, no
/// server name in front, and no colon before its first `/`, where there may be a drive.
pub open spec fn portable(path: Seq<char>) -> bool {
    &&& !path.contains('\\')
    &&& !(path.len() >= 2 && path[0] == '/' && path[1] == '/')
    &&& forall|i: int|
        0 <= i < path.len() && #[trigger] path[i] == ':' ==> path.take(i).contains('/')
}

/// Whether `ext` follows the last dot of the last component of a path, for one of the ways
/// in which a platform may take the path apart.
pub open spec fn some_reading_gives(path: Seq<char>, ext: Seq<char>) -> bool {
    ||| extension_by(path, Separators::Slash) == Some(ext)
    ||| extension_by(path, Separators::Backslash) == Some(ext)
    ||| extension_by(path, Separators::Both) == Some(ext)
}

/// Whether [`std::path::Path::extension`] may give `ext` for `path`. It is a relation and
/// no function: what separates the components of a path depends on the platform.
pub uninterp spec fn extension_may_be(path: Seq<char>, ext: Option<Seq<char>>) -> bool;

/// What is known of the extension of a path.
pub open spec fn extends(path: Seq<char>, ext: Option<Seq<char>>) -> bool {
    &&& extension_may_be(path, ext)
    &&& portable(path) ==> ext == extension_of(path)
    &&& ext matches Some(e) ==> !e.contains('.') && some_reading_gives(path, e)
}

/// The characters of a string, if there is one.
pub open spec fn chars_of(s: Option<String>) -> Option<Seq<char>> {
    match s {
        None => None,
        Some(t) => Some(t@),
    }
}

/// Calls [`std::path::Path::extension`]: the portion of the file name after its last dot;
/// nothing where there is no file name, no dot in it, or only one at its start. It is stated
/// exactly for paths that every platform takes apart in the same way. Of any other path,
/// what is given is the extension in one of the readings; that one is given is left unsaid,
/// since what stands in front may be a drive, a server or a device and no component.
#[verifier::external_body]
pub(crate) fn path_extension(path: &str) -> (r: Option<String>)
    ensures
        extension_may_be(path@, chars_of(r)),
        portable(path@) ==> chars_of(r) == extension_of(path@),
        r matches Some(e) ==> !e@.contains('.') && some_reading_gives(path@, e@),
{
    Some(std::path::Path::new(path).extension()?.to_str()?.to_owned())
}

/// The lower-case form of a string, as [`str::to_lowercase`] gives it.
pub uninterp spec fn unicode_lowercase(s: Seq<char>) -> Seq<char>;

/// A string with the letters `A` to `Z` replaced by `a` to `z`.
pub open spec fn ascii_lowercase(s: Seq<char>) -> Seq<char> {
    s.map_values(
        |c: char|
            if 'A' <= c && c <= 'Z' {
                (c as int + 32) as char
            } else {
                c
            },
    )
}

/// [`str::to_lowercase`] of the standard library: the lower-case equivalent of a string,
/// which replaces `A` to `Z` by `a` to `z` where the string is ASCII.
pub assume_specification[ str::to_lowercase ](s: &str) -> (r: String)
    ensures
        r@ == unicode_lowercase(s@),
        is_ascii_chars(s@) ==> r@ == ascii_lowercase(s@),
;

/// Whether `ext`, in lower case, is the extension of a supported image format.
pub open spec fn listed(ext: Seq<char>) -> bool {
    ||| ext == "jpg"@
    ||| ext == "jpeg"@
    ||| ext == "png"@
    ||| ext == "gif"@
    ||| ext == "bmp"@
    ||| ext == "tiff"@
    ||| ext == "tif"@
    ||| ext == "webp"@
}

/// Whether an extension, in whatever case, is that of a supported image format.
pub open spec fn names_an_image(ext: Option<Seq<char>>) -> bool {
    match ext {
        None => false,
        Some(e) => listed(unicode_lowercase(e)),
    }
}

/// Whether an extension is known to be ASCII; one that is not there is.
pub open spec fn is_ascii_extension(ext: Option<Seq<char>>) -> bool {
    ext matches Some(e) ==> is_ascii_chars(e)
}

/// [`names_an_image`], for an extension that is ASCII.
pub open spec fn names_an_image_ascii(ext: Option<Seq<char>>) -> bool {
    ext matches Some(e) && listed(ascii_lowercase(e))
}

/// Whether `ext`, in lower case, is one of the supported extensions.
fn is_listed(ext: &str) -> (r: bool)
    ensures
        r == listed(ext@),
{
    text_eq(ext, "jpg") || text_eq(ext, "jpeg") || text_eq(ext, "png") || text_eq(ext, "gif")
        || text_eq(ext, "bmp") || text_eq(ext, "tiff") || text_eq(ext, "tif") || text_eq(
        ext,
        "webp",
    )
}

/// Whether a file with this extension is taken for an image.
pub fn is_image_extension(ext: &str) -> (r: bool)
    ensures
        r == names_an_image(Some(ext@)),
        is_ascii_chars(ext@) ==> r == listed(ascii_lowercase(ext@)),
{
    let lower = ext.to_lowercase();
    is_listed(lower.as_str())
}

/// Whether the file at `path` is taken for an image, by its extension.
pub fn has_image_extension(path: &str) -> (r: bool)
    ensures
        exists|ext: Option<Seq<char>>| #[trigger] extends(path@, ext) && r == names_an_image(ext),
        portable(path@) ==> r == names_an_image(extension_of(path@)),
        r ==> exists|e: Seq<char>| #[trigger]
            some_reading_gives(path@, e) && names_an_image(Some(e)),
        portable(path@) && is_ascii_extension(extension_of(path@)) ==> r == names_an_image_ascii(
            extension_of(path@),
        ),
{
    let ext = path_extension(path);
    assert(extends(path@, chars_of(ext)));
    match ext {
        None => false,
        Some(e) => {
            assert(some_reading_gives(path@, e@));
            is_image_extension(e.as_str())
        },
    }
}

/// The media type of an image format, by its extension in lower case.
pub open spec fn mime_of(ext: Seq<char>) -> Option<Seq<char>> {
    if ext == "jpg"@ || ext == "jpeg"@ {
        Some("image/jpeg"@)
    } else if ext == "png"@ {
        Some("image/png"@)
    } else if ext == "gif"@ {
        Some("image/gif"@)
    } else if ext == "bmp"@ {
        Some("image/bmp"@)
    } else if ext == "webp"@ {
        Some("image/webp"@)
    } else if ext == "tiff"@ || ext == "tif"@ {
        Some("image/tiff"@)
    } else {
        None
    }
}

/// The media type of an image format, by its extension in lower case.
pub fn mime_type(ext: &str) -> (r: Option<&'static str>)
    ensures
        r is Some <==> mime_of(ext@) is Some,
        r matches Some(m) ==> mime_of(ext@) == Some(m@),
{
    if text_eq(ext, "jpg") || text_eq(ext, "jpeg") {
        Some("image/jpeg")
    } else if text_eq(ext, "png") {
        Some("image/png")
    } else if text_eq(ext, "gif") {
        Some("image/gif")
    } else if text_eq(ext, "bmp") {
        Some("image/bmp")
    } else if text_eq(ext, "webp") {
        Some("image/webp")
    } else if text_eq(ext, "tiff") || text_eq(ext, "tif") {
        Some("image/tiff")
    } else {
        None
    }
}

/// The formats that are scanned for are just those that have a media type.
pub proof fn listed_formats_have_media_types(ext: Seq<char>)
    ensures
        listed(ext) <==> mime_of(ext) is Some,
{
}

/// Just eight extensions are those of images, and each has its media type.
pub proof fn the_formats_and_their_media_types(ext: Seq<char>)
    ensures
        listed(ext) <==> ext == "jpg"@ || ext == "jpeg"@ || ext == "png"@ || ext == "gif"@ || ext
            == "bmp"@ || ext == "tiff"@ || ext == "tif"@ || ext == "webp"@,
        names_an_image(Some(ext)) <==> listed(unicode_lowercase(ext)),
        !names_an_image(None),
        ext == "jpg"@ || ext == "jpeg"@ ==> mime_of(ext) == Some("image/jpeg"@),
        ext == "png"@ ==> mime_of(ext) == Some("image/png"@),
        ext == "gif"@ ==> mime_of(ext) == Some("image/gif"@),
        ext == "bmp"@ ==> mime_of(ext) == Some("image/bmp"@),
        ext == "webp"@ ==> mime_of(ext) == Some("image/webp"@),
        ext == "tiff"@ || ext == "tif"@ ==> mime_of(ext) == Some("image/tiff"@),
        mime_of(ext) is Some ==> listed(ext),
{
    reveal_strlit("jpg");
    reveal_strlit("jpeg");
    reveal_strlit("png");
    reveal_strlit("gif");
    reveal_strlit("bmp");
    reveal_strlit("webp");
    reveal_strlit("tiff");
    reveal_strlit("tif");
    assert("jpg"@[0] == 'j' && "jpeg"@[0] == 'j' && "png"@[0] == 'p' && "gif"@[0] == 'g'
        && "bmp"@[0] == 'b' && "webp"@[0] == 'w' && "tiff"@[0] == 't' && "tif"@[0] == 't');
}

proof fn lemma_last_place(s: Seq<char>, c: char)
    ensures
        -1 <= last_place(s, c) < s.len(),
        last_place(s, c) >= 0 ==> s[last_place(s, c)] == c,
        forall|i: int| last_place(s, c) < i < s.len() ==> #[trigger] s[i] != c,
    decreases s.len(),
{
    if s.len() > 0 && s.last() != c {
        lemma_last_place(s.drop_last(), c);
        assert forall|i: int| last_place(s, c) < i < s.len() implies #[trigger] s[i] != c by {
            if i < s.len() - 1 {
                assert(s.drop_last()[i] == s[i]);
            }
        }
    }
}

/// The extension of a file in a folder is what follows the last dot of its name: for a name
/// `stem.ext`, where the stem is not empty and the extension has no dot, it is `ext`.
pub proof fn the_extension_follows_the_last_dot(
    folder: Seq<char>,
    stem: Seq<char>,
    ext: Seq<char>,
)
    requires
        stem.len() > 0,
        !stem.contains('/'),
        !ext.contains('/'),
        !ext.contains('.'),
        stem + seq!['.'] + ext != seq!['.', '.'],
    ensures
        extension_of(folder + seq!['/'] + stem + seq!['.'] + ext) == Some(ext),
{
    let name = stem + seq!['.'] + ext;
    let path = folder + seq!['/'] + stem + seq!['.'] + ext;
    assert(path =~= folder + seq!['/'] + name);
    lemma_last_place(path, '/');
    let slash = last_place(path, '/');
    let at = folder.len() as int;
    assert(path[at] == '/');
    assert forall|i: int| at < i < path.len() implies path[i] != '/' by {
        assert(path[i] == name[i - at - 1]);
        if i - at - 1 < stem.len() {
            assert(stem.contains(stem[i - at - 1]));
        } else if i - at - 1 > stem.len() {
            assert(ext.contains(ext[i - at - 2 - stem.len()]));
        }
    }
    assert(slash == at);
    assert(path.skip(slash + 1) =~= name);
    assert(name.len() >= 2);
    lemma_last_place(name, '.');
    let dot = last_place(name, '.');
    assert(name[stem.len() as int] == '.');
    assert forall|i: int| stem.len() < i < name.len() implies name[i] != '.' by {
        assert(name[i] == ext[i - stem.len() - 1]);
        assert(ext.contains(ext[i - stem.len() - 1]));
    }
    assert(dot == stem.len());
    assert(name.skip(dot + 1) =~= ext);
    assert(file_name(path, Separators::Slash) == Some(name));
}

/// A path without backslashes and colons that does not begin with two slashes has the same
/// components everywhere.
pub proof fn plain_paths_are_portable(path: Seq<char>)
    requires
        !path.contains('\\'),
        !path.contains(':'),
        path.len() < 2 || path[0] != '/' || path[1] != '/',
    ensures
        portable(path),
{
    assert forall|i: int| 0 <= i < path.len() && #[trigger] path[i] == ':' implies path.take(
        i,
    ).contains('/') by {
        assert(path.contains(path[i]));
    }
}

} // verus!
