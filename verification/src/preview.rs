//! Images as data URLs, for the preview.
use base64::Engine;
use vstd::prelude::*;
use vstd::string::*;
use vstd::utf8::is_ascii_chars;

use crate::allow::{
    check_allowed, list_model, path_model, permission, AllowList, PathModel, ResolvedPath,
};
use crate::paths::{
    ascii_lowercase, chars_of, extends, extension_of, is_ascii_extension, is_image_extension,
    listed, listed_formats_have_media_types, mime_of, mime_type, names_an_image,
    names_an_image_ascii, path_extension, portable, some_reading_gives,
    the_formats_and_their_media_types, unicode_lowercase,
};

verus! {

/// The character of six bits in the standard base64 alphabet.
pub open spec fn base64_char(v: int) -> char {
    if v < 26 {
        (v + 65) as char
    } else if v < 52 {
        (v + 71) as char
    } else if v < 62 {
        (v - 4) as char
    } else if v == 62 {
        '+'
    } else {
        '/'
    }
}

/// Bytes in base64 notation, padded: each three bytes become four characters.
pub open spec fn base64_text(data: Seq<u8>) -> Seq<char>
    decreases data.len(),
{
    let b0 = data[0] as int;
    let b1 = data[1] as int;
    let b2 = data[2] as int;
    if data.len() == 0 {
        Seq::empty()
    } else if data.len() == 1 {
        seq![base64_char(b0 / 4), base64_char(b0 % 4 * 16), '=', '=']
    } else if data.len() == 2 {
        seq![
            base64_char(b0 / 4),
            base64_char(b0 % 4 * 16 + b1 / 16),
            base64_char(b1 % 16 * 4),
            '=',
        ]
    } else {
        seq![
            base64_char(b0 / 4),
            base64_char(b0 % 4 * 16 + b1 / 16),
            base64_char(b1 % 16 * 4 + b2 / 64),
            base64_char(b2 % 64),
        ] + base64_text(data.skip(3))
    }
}

proof fn lemma_base64_char(c: int, d: int)
    requires
        0 <= c < 64,
        0 <= d < 64,
    ensures
        base64_char(c) != '=',
        base64_char(c) == base64_char(d) ==> c == d,
{
    assert(base64_char(c) as int == if c < 26 {
        c + 65
    } else if c < 52 {
        c + 71
    } else if c < 62 {
        c - 4
    } else if c == 62 {
        43
    } else {
        47
    });
    assert(base64_char(d) as int == if d < 26 {
        d + 65
    } else if d < 52 {
        d + 71
    } else if d < 62 {
        d - 4
    } else if d == 62 {
        43
    } else {
        47
    });
}

/// The four characters with which the notation of bytes begins: six bits each, or `None`
/// where there is padding.
spec fn first_sextets(data: Seq<u8>) -> (int, int, Option<int>, Option<int>) {
    let b0 = data[0] as int;
    let b1 = data[1] as int;
    let b2 = data[2] as int;
    if data.len() == 1 {
        (b0 / 4, b0 % 4 * 16, None, None)
    } else if data.len() == 2 {
        (b0 / 4, b0 % 4 * 16 + b1 / 16, Some(b1 % 16 * 4), None)
    } else {
        (b0 / 4, b0 % 4 * 16 + b1 / 16, Some(b1 % 16 * 4 + b2 / 64), Some(b2 % 64))
    }
}

spec fn sextet_char(v: Option<int>) -> char {
    match v {
        None => '=',
        Some(s) => base64_char(s),
    }
}

proof fn lemma_first_sextets(data: Seq<u8>)
    requires
        data.len() > 0,
    ensures
        ({
            let s = first_sextets(data);
            let text = base64_text(data);
            &&& text.len() >= 4
            &&& text[0] == base64_char(s.0)
            &&& text[1] == base64_char(s.1)
            &&& text[2] == sextet_char(s.2)
            &&& text[3] == sextet_char(s.3)
            &&& 0 <= s.0 < 64
            &&& 0 <= s.1 < 64
            &&& s.2 matches Some(v) ==> 0 <= v < 64
            &&& s.3 matches Some(v) ==> 0 <= v < 64
            &&& text.skip(4) == (if data.len() <= 3 {
                Seq::<char>::empty()
            } else {
                base64_text(data.skip(3))
            })
        }),
{
    if data.len() >= 3 {
        let tail = base64_text(data.skip(3));
        assert(base64_text(data).skip(4) =~= tail);
        if data.len() == 3 {
            assert(tail =~= Seq::<char>::empty());
        }
    } else {
        assert(base64_text(data).skip(4) =~= Seq::<char>::empty());
    }
}

proof fn lemma_same_sextet(v: Option<int>, w: Option<int>)
    requires
        v matches Some(x) ==> 0 <= x < 64,
        w matches Some(x) ==> 0 <= x < 64,
        sextet_char(v) == sextet_char(w),
    ensures
        v == w,
{
    if v is Some {
        lemma_base64_char(v->0, if w is Some { w->0 } else { 0 });
    } else if w is Some {
        lemma_base64_char(w->0, 0);
    }
}

/// Bytes are told apart by their base64 notation.
pub proof fn base64_text_is_injective(a: Seq<u8>, b: Seq<u8>)
    requires
        base64_text(a) == base64_text(b),
    ensures
        a == b,
    decreases a.len(),
{
    if a.len() > 0 {
        lemma_first_sextets(a);
    }
    if b.len() > 0 {
        lemma_first_sextets(b);
    }
    if a.len() == 0 || b.len() == 0 {
        assert(a =~= b);
    } else {
        let s = first_sextets(a);
        let t = first_sextets(b);
        lemma_base64_char(s.0, t.0);
        lemma_base64_char(s.1, t.1);
        lemma_same_sextet(s.2, t.2);
        lemma_same_sextet(s.3, t.3);
        assert(a[0] == b[0]);
        if a.len() >= 2 {
            assert(b.len() >= 2);
            assert(a[1] == b[1]);
        }
        if a.len() >= 3 {
            assert(b.len() >= 3);
            assert(a[2] == b[2]);
            assert(base64_text(a.skip(3)) =~= base64_text(a).skip(4));
            assert(base64_text(b.skip(3)) =~= base64_text(b).skip(4));
            base64_text_is_injective(a.skip(3), b.skip(3));
            assert(a =~= a.take(3) + a.skip(3));
            assert(b =~= b.take(3) + b.skip(3));
            assert(a.take(3) =~= b.take(3));
        } else {
            assert(a =~= b);
        }
    }
}

/// Calls `encode` of [`base64::engine::general_purpose::STANDARD`]: the base64 notation in
/// the standard alphabet, padded.
#[verifier::external_body]
fn base64_encode(data: &Vec<u8>) -> (r: String)
    requires
        (data@.len() + 2) / 3 * 4 <= isize::MAX,
    ensures
        r@ == base64_text(data@),
{
    base64::engine::general_purpose::STANDARD.encode(data)
}

/// The data URL of an image file whose extension is `lower`, in lower case, and whose
/// content is `bytes`.
pub open spec fn data_url_of(lower: Seq<char>, bytes: Seq<u8>) -> Result<Seq<char>, Seq<char>> {
    match mime_of(lower) {
        None => Err("unsupported extension: "@ + lower),
        Some(mime) => Ok("data:"@ + mime + ";base64,"@ + base64_text(bytes)),
    }
}

/// The data URL of an image file with the extension `ext` and the content `bytes`. A file
/// without extension is taken for a PNG image.
pub open spec fn data_url_text(ext: Option<Seq<char>>, bytes: Seq<u8>) -> Result<
    Seq<char>,
    Seq<char>,
> {
    match ext {
        None => data_url_of("png"@, bytes),
        Some(e) => data_url_of(unicode_lowercase(e), bytes),
    }
}

/// The characters of a string, if there is one.
pub open spec fn str_chars(s: Option<&str>) -> Option<Seq<char>> {
    match s {
        None => None,
        Some(t) => Some(t@),
    }
}

/// What a result stands for.
pub open spec fn text_result(r: Result<String, String>) -> Result<Seq<char>, Seq<char>> {
    match r {
        Ok(s) => Ok(s@),
        Err(e) => Err(e@),
    }
}

/// Makes the data URL of an image file with the extension `ext` and the content `bytes`.
pub fn data_url(ext: Option<&str>, bytes: &Vec<u8>) -> (r: Result<String, String>)
    requires
        (bytes@.len() + 2) / 3 * 4 <= isize::MAX,
    ensures
        text_result(r) == data_url_text(str_chars(ext), bytes@),
        r matches Ok(url) ==> url@.len() > base64_text(bytes@).len() && url@.skip(
            url@.len() - base64_text(bytes@).len(),
        ) == base64_text(bytes@) && url@[url@.len() - base64_text(bytes@).len() - 1] == ',',
        ext matches Some(e) ==> is_ascii_chars(e@) ==> text_result(r) == data_url_of(
            ascii_lowercase(e@),
            bytes@,
        ),
{
    proof {
        the_url_ends_with_the_whole_content(str_chars(ext), bytes@);
    }
    let lower = match ext {
        None => {
            proof {
                reveal_strlit("png");
                assert(ascii_lowercase("png"@) =~= "png"@);
            }
            "png".to_lowercase()
        },
        Some(e) => e.to_lowercase(),
    };
    match mime_type(lower.as_str()) {
        None => Err("unsupported extension: ".to_owned().concat(lower.as_str())),
        Some(mime) => {
            let b64 = base64_encode(bytes);
            Ok("data:".to_owned().concat(mime).concat(";base64,").concat(b64.as_str()))
        },
    }
}

/// A file that may be previewed: it was asked for with permission, and its extension is
/// that of an image.
pub struct AdmittedImage {
    path: ResolvedPath,
    ext: String,
}

/// The value of an [`AdmittedImage`].
#[verifier::ext_equal]
pub struct AdmittedModel {
    pub path: PathModel,
    /// The extension as it was found.
    pub ext: Seq<char>,
}

impl View for AdmittedImage {
    type V = AdmittedModel;

    closed spec fn view(&self) -> AdmittedModel {
        AdmittedModel { path: self.path@, ext: self.ext@ }
    }
}

impl AdmittedImage {
    #[verifier::type_invariant]
    spec fn is_image(self) -> bool {
        names_an_image(Some(self.ext@))
    }

    /// The path of the file.
    pub fn path(&self) -> (r: &ResolvedPath)
        ensures
            r@ == self@.path,
    {
        &self.path
    }

    /// The extension of the file.
    pub fn extension(&self) -> (r: &str)
        ensures
            r@ == self@.ext,
            names_an_image(Some(r@)),
    {
        proof {
            use_type_invariant(self);
        }
        self.ext.as_str()
    }
}

/// Makes the data URL of an admitted image with the content `bytes`. There always is one.
pub fn encode_preview(image: &AdmittedImage, bytes: &Vec<u8>) -> (r: Result<String, String>)
    requires
        (bytes@.len() + 2) / 3 * 4 <= isize::MAX,
    ensures
        text_result(r) == data_url_text(Some(image@.ext), bytes@),
        r matches Ok(url) ==> url@.len() > base64_text(bytes@).len() && url@.skip(
            url@.len() - base64_text(bytes@).len(),
        ) == base64_text(bytes@) && url@[url@.len() - base64_text(bytes@).len() - 1] == ',',
        r is Ok,
        is_ascii_chars(image@.ext) ==> text_result(r) == data_url_of(
            ascii_lowercase(image@.ext),
            bytes@,
        ),
{
    let ext = image.extension();
    proof {
        images_have_data_urls(Some(ext@), bytes@);
    }
    data_url(Some(ext), bytes)
}

/// The answer to a request to preview the file at `raw`, which is `path` and may be
/// opened, given its extension.
pub open spec fn admission(raw: Seq<char>, path: PathModel, ext: Option<Seq<char>>) -> Result<
    AdmittedModel,
    Seq<char>,
> {
    match ext {
        Some(e) if names_an_image(ext) => Ok(AdmittedModel { path, ext: e }),
        _ => Err("not an allowed image extension: "@ + raw),
    }
}

/// Whether `r` is the answer to such a request, for the extension that the path has.
pub open spec fn is_admission(
    raw: Seq<char>,
    path: PathModel,
    r: Result<AdmittedModel, Seq<char>>,
) -> bool {
    exists|ext: Option<Seq<char>>| #[trigger]
        extends(path.text, ext) && r == admission(raw, path, ext)
}

/// What the answer to a request for a preview stands for.
pub open spec fn admission_model(r: Result<AdmittedImage, String>) -> Result<
    AdmittedModel,
    Seq<char>,
> {
    match r {
        Ok(image) => Ok(image@),
        Err(reason) => Err(reason@),
    }
}

/// Decides whether the file at `raw` may be previewed: it must be on the list, and have
/// the extension of an image.
pub fn admit_preview(raw: &str, canon: Option<ResolvedPath>, list: Option<&AllowList>) -> (r:
    Result<AdmittedImage, String>)
    ensures
        match permission(raw@, path_model(canon), list_model(list)) {
            Err(reason) => admission_model(r) == Err::<AdmittedModel, Seq<char>>(reason),
            Ok(path) => {
                &&& is_admission(raw@, path, admission_model(r))
                &&& portable(path.text) ==> admission_model(r) == admission(
                    raw@,
                    path,
                    extension_of(path.text),
                )
                &&& portable(path.text) && is_ascii_extension(extension_of(path.text)) ==> (r is Ok
                    <==> names_an_image_ascii(extension_of(path.text)))
            },
        },
        r matches Ok(image) ==> names_an_image(Some(image@.ext)),
        r matches Ok(image) ==> some_reading_gives(image@.path.text, image@.ext),
        r matches Ok(image) ==> is_ascii_chars(image@.ext) ==> listed(ascii_lowercase(image@.ext)),
{
    match check_allowed(raw, canon, list) {
        Err(reason) => Err(reason),
        Ok(path) => {
            let ghost model = path@;
            let found = path_extension(path.text().as_str());
            let ghost ext = chars_of(found);
            assert(extends(model.text, ext));
            let r = match found {
                Some(e) => if is_image_extension(e.as_str()) {
                    Ok(AdmittedImage { path, ext: e })
                } else {
                    Err("not an allowed image extension: ".to_owned().concat(raw))
                },
                None => Err("not an allowed image extension: ".to_owned().concat(raw)),
            };
            assert(admission_model(r) == admission(raw@, model, ext));
            assert(is_admission(raw@, model, admission_model(r)));
            r
        },
    }
}

/// The step at which a preview failed.
#[derive(Clone, Copy, Debug, PartialEq, Eq, Structural)]
pub enum PreviewStep {
    Open,
    Sniff,
    Decode,
    Read,
}

/// What is said of a preview that failed.
pub open spec fn failure_text(step: PreviewStep, raw: Seq<char>, cause: Seq<char>) -> Seq<char> {
    let what = match step {
        PreviewStep::Open => "cannot open "@,
        PreviewStep::Sniff => "cannot sniff format "@,
        PreviewStep::Decode => "not a valid image "@,
        PreviewStep::Read => "Cannot read "@,
    };
    what + raw + ": "@ + cause
}

/// Says of the preview of `raw` at which step it failed, and why.
pub fn preview_failure(step: PreviewStep, raw: &str, cause: &str) -> (r: String)
    ensures
        r@ == failure_text(step, raw@, cause@),
        step == PreviewStep::Open ==> r@ == "cannot open "@ + raw@ + ": "@ + cause@,
        step == PreviewStep::Sniff ==> r@ == "cannot sniff format "@ + raw@ + ": "@ + cause@,
        step == PreviewStep::Decode ==> r@ == "not a valid image "@ + raw@ + ": "@ + cause@,
        step == PreviewStep::Read ==> r@ == "Cannot read "@ + raw@ + ": "@ + cause@,
{
    let what = match step {
        PreviewStep::Open => "cannot open ",
        PreviewStep::Sniff => "cannot sniff format ",
        PreviewStep::Decode => "not a valid image ",
        PreviewStep::Read => "Cannot read ",
    };
    what.to_owned().concat(raw).concat(": ").concat(cause)
}

/// A file that passes for an image by its extension has a data URL, whatever it holds.
pub proof fn images_have_data_urls(ext: Option<Seq<char>>, bytes: Seq<u8>)
    requires
        names_an_image(ext),
    ensures
        data_url_text(ext, bytes) is Ok,
{
    listed_formats_have_media_types(unicode_lowercase(ext->0));
}

/// A file that is admitted to the preview has a data URL, whatever it holds and however its
/// path is written.
pub proof fn admitted_files_have_data_urls(
    raw: Seq<char>,
    path: PathModel,
    image: AdmittedModel,
    bytes: Seq<u8>,
)
    requires
        is_admission(raw, path, Ok(image)),
    ensures
        image.path == path,
        extends(path.text, Some(image.ext)),
        data_url_text(Some(image.ext), bytes) is Ok,
{
    images_have_data_urls(Some(image.ext), bytes);
}

/// The data URL carries the whole content: behind its last comma stands the base64 notation
/// of all the bytes.
pub proof fn the_url_ends_with_the_whole_content(ext: Option<Seq<char>>, bytes: Seq<u8>)
    ensures
        data_url_text(ext, bytes) matches Ok(url) ==> {
            let content = base64_text(bytes);
            &&& url.len() > content.len()
            &&& url.skip(url.len() - content.len()) == content
            &&& url[url.len() - content.len() - 1] == ','
        },
{
    reveal_strlit(";base64,");
    if let Ok(url) = data_url_text(ext, bytes) {
        let content = base64_text(bytes);
        let lower = match ext {
            None => "png"@,
            Some(e) => unicode_lowercase(e),
        };
        let head = "data:"@ + mime_of(lower)->0 + ";base64,"@;
        assert(url == head + content);
        assert((head + content).skip(head.len() as int) =~= content);
        assert(url[head.len() - 1] == head.last());
        assert(head.last() == ";base64,"@[7]);
    }
}

/// The data URL of an image names the media type of its format and carries its content.
pub proof fn the_url_names_the_media_type(ext: Seq<char>, bytes: Seq<u8>)
    ensures
        ({
            let lower = unicode_lowercase(ext);
            let url = data_url_text(Some(ext), bytes);
            let of = |mime: Seq<char>| "data:"@ + mime + ";base64,"@ + base64_text(bytes);
            &&& lower == "jpg"@ || lower == "jpeg"@ ==> url == Ok::<Seq<char>, Seq<char>>(
                of("image/jpeg"@),
            )
            &&& lower == "png"@ ==> url == Ok::<Seq<char>, Seq<char>>(of("image/png"@))
            &&& lower == "gif"@ ==> url == Ok::<Seq<char>, Seq<char>>(of("image/gif"@))
            &&& lower == "bmp"@ ==> url == Ok::<Seq<char>, Seq<char>>(of("image/bmp"@))
            &&& lower == "webp"@ ==> url == Ok::<Seq<char>, Seq<char>>(of("image/webp"@))
            &&& lower == "tiff"@ || lower == "tif"@ ==> url == Ok::<Seq<char>, Seq<char>>(
                of("image/tiff"@),
            )
            &&& !listed(lower) ==> url == Err::<Seq<char>, Seq<char>>(
                "unsupported extension: "@ + lower,
            )
        }),
        data_url_text(None, bytes) == Ok::<Seq<char>, Seq<char>>(
            "data:"@ + "image/png"@ + ";base64,"@ + base64_text(bytes),
        ),
{
    the_formats_and_their_media_types(unicode_lowercase(ext));
    the_formats_and_their_media_types("png"@);
}

/// Contents are told apart by their data URLs: two that have the same one are equal.
pub proof fn a_data_url_determines_the_content(
    ext: Option<Seq<char>>,
    one: Seq<u8>,
    other: Seq<u8>,
)
    requires
        data_url_text(ext, one) is Ok,
        data_url_text(ext, one) == data_url_text(ext, other),
    ensures
        one == other,
{
    let lower = match ext {
        None => "png"@,
        Some(e) => unicode_lowercase(e),
    };
    let head = "data:"@ + mime_of(lower)->0 + ";base64,"@;
    let url = data_url_text(ext, one)->Ok_0;
    assert(url == head + base64_text(one));
    assert(url == head + base64_text(other));
    assert((head + base64_text(one)).skip(head.len() as int) =~= base64_text(one));
    assert((head + base64_text(other)).skip(head.len() as int) =~= base64_text(other));
    base64_text_is_injective(one, other);
}

/// Three bytes become four characters, and what is left over at the end becomes four too.
pub proof fn three_bytes_become_four_characters(data: Seq<u8>)
    ensures
        base64_text(data).len() == (data.len() + 2) / 3 * 4,
    decreases data.len(),
{
    if data.len() > 2 {
        three_bytes_become_four_characters(data.skip(3));
    }
}

/// Three bytes in a row, at a multiple of three, are written as four characters of the
/// alphabet, six bits each from the highest down.
pub proof fn six_bits_become_one_character(data: Seq<u8>, g: int)
    requires
        0 <= g,
        3 * g + 2 < data.len(),
    ensures
        4 * g + 3 < base64_text(data).len(),
        ({
            let alphabet = "ABCDEFGHIJKLMNOPQRSTUVWXYZabcdefghijklmnopqrstuvwxyz0123456789+/"@;
            let b0 = data[3 * g] as int;
            let b1 = data[3 * g + 1] as int;
            let b2 = data[3 * g + 2] as int;
            let text = base64_text(data);
            &&& text[4 * g] == alphabet[b0 / 4]
            &&& text[4 * g + 1] == alphabet[b0 % 4 * 16 + b1 / 16]
            &&& text[4 * g + 2] == alphabet[b1 % 16 * 4 + b2 / 64]
            &&& text[4 * g + 3] == alphabet[b2 % 64]
        }),
    decreases g,
{
    if g > 0 {
        let rest = data.skip(3);
        six_bits_become_one_character(rest, g - 1);
        assert(rest[3 * (g - 1)] == data[3 * g]);
        assert(rest[3 * (g - 1) + 1] == data[3 * g + 1]);
        assert(rest[3 * (g - 1) + 2] == data[3 * g + 2]);
        let text = base64_text(data);
        let tail = base64_text(rest);
        assert(text.len() == 4 + tail.len());
        assert(text[4 * g] == tail[4 * (g - 1)]);
        assert(text[4 * g + 1] == tail[4 * (g - 1) + 1]);
        assert(text[4 * g + 2] == tail[4 * (g - 1) + 2]);
        assert(text[4 * g + 3] == tail[4 * (g - 1) + 3]);
    } else {
        let b0 = data[0] as int;
        let b1 = data[1] as int;
        let b2 = data[2] as int;
        lemma_alphabet(b0 / 4);
        lemma_alphabet(b0 % 4 * 16 + b1 / 16);
        lemma_alphabet(b1 % 16 * 4 + b2 / 64);
        lemma_alphabet(b2 % 64);
    }
}

proof fn lemma_alphabet(v: int)
    requires
        0 <= v < 64,
    ensures
        base64_char(v) == "ABCDEFGHIJKLMNOPQRSTUVWXYZabcdefghijklmnopqrstuvwxyz0123456789+/"@[v],
{
    reveal_strlit("ABCDEFGHIJKLMNOPQRSTUVWXYZabcdefghijklmnopqrstuvwxyz0123456789+/");
}

/// What is admitted to the preview: a path that may be opened, with its extension, just where
/// that extension, in lower case, is one of the formats.
pub proof fn only_images_are_admitted(raw: Seq<char>, path: PathModel, ext: Option<Seq<char>>)
    ensures
        ext matches Some(e) ==> listed(unicode_lowercase(e)) ==> admission(raw, path, ext) == Ok::<
            AdmittedModel,
            Seq<char>,
        >(AdmittedModel { path, ext: e }),
        (ext is None || (ext matches Some(e) && !listed(unicode_lowercase(e)))) ==> admission(
            raw,
            path,
            ext,
        ) == Err::<AdmittedModel, Seq<char>>("not an allowed image extension: "@ + raw),
{
}

/// Answers stand for their values.
pub proof fn answers_stand_for_their_values(s: String, image: AdmittedImage)
    ensures
        text_result(Ok(s)) == Ok::<Seq<char>, Seq<char>>(s@),
        text_result(Err(s)) == Err::<Seq<char>, Seq<char>>(s@),
        admission_model(Ok(image)) == Ok::<AdmittedModel, Seq<char>>(image@),
        admission_model(Err(s)) == Err::<AdmittedModel, Seq<char>>(s@),
        chars_of(None) is None,
        chars_of(Some(s)) == Some(s@),
{
}

} // verus!
