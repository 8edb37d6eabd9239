//! File digests: MD5, computed as the file is read, in hexadecimal notation.
use md5::Digest;
use vstd::prelude::*;
use vstd::slice::*;

verus! {

/// How many bytes of a file are read at a time.
pub const HASH_BUF_BYTES: usize = 64 * 1024;

/// The character of a hexadecimal digit, in lower case.
pub open spec fn hex_digit(d: int) -> char {
    if d < 10 {
        (d + 48) as char
    } else {
        (d + 87) as char
    }
}

/// Bytes in hexadecimal notation: two digits for each, the higher one first.
pub open spec fn hex_text(data: Seq<u8>) -> Seq<char> {
    Seq::new(
        2 * data.len(),
        |i: int|
            if i % 2 == 0 {
                hex_digit(data[i / 2] as int / 16)
            } else {
                hex_digit(data[i / 2] as int % 16)
            },
    )
}

/// Calls [`hex::encode`], which writes each byte as two lower-case hexadecimal digits, the
/// higher one first.
#[verifier::external_body]
pub(crate) fn hex_encode(data: &Vec<u8>) -> (r: String)
    requires
        2 * data@.len() <= isize::MAX,
    ensures
        r@ == hex_text(data@),
{
    hex::encode(data)
}

proof fn lemma_hex_digit_is_injective(c: int, d: int)
    requires
        0 <= c < 16,
        0 <= d < 16,
        hex_digit(c) == hex_digit(d),
    ensures
        c == d,
{
    assert(hex_digit(c) as int == if c < 10 { c + 48 } else { c + 87 });
    assert(hex_digit(d) as int == if d < 10 { d + 48 } else { d + 87 });
}

/// Bytes are told apart by their hexadecimal notation.
pub proof fn hex_text_is_injective(a: Seq<u8>, b: Seq<u8>)
    requires
        hex_text(a) == hex_text(b),
    ensures
        a == b,
{
    assert(hex_text(a).len() == 2 * a.len());
    assert(hex_text(b).len() == 2 * b.len());
    assert forall|i: int| 0 <= i < a.len() implies a[i] == b[i] by {
        assert((2 * i) / 2 == i && (2 * i + 1) / 2 == i);
        assert(hex_text(a)[2 * i] == hex_digit(a[i] as int / 16));
        assert(hex_text(b)[2 * i] == hex_digit(b[i] as int / 16));
        assert(hex_text(a)[2 * i + 1] == hex_digit(a[i] as int % 16));
        assert(hex_text(b)[2 * i + 1] == hex_digit(b[i] as int % 16));
        lemma_hex_digit_is_injective(a[i] as int / 16, b[i] as int / 16);
        lemma_hex_digit_is_injective(a[i] as int % 16, b[i] as int % 16);
    }
    assert(a =~= b);
}

/// The hasher of the `md5` crate.
#[verifier::external_type_specification]
#[verifier::external_body]
pub struct ExMd5(md5::Md5);

/// The bytes that a hasher has taken in.
pub uninterp spec fn md5_input(hasher: md5::Md5) -> Seq<u8>;

/// The MD5 digest of `data`, as the `md5` crate computes it.
pub uninterp spec fn md5_digest(data: Seq<u8>) -> Seq<u8>;

/// Calls [`md5::Md5::new`]: a hasher that has taken in nothing.
#[verifier::external_body]
fn md5_new() -> (r: md5::Md5)
    ensures
        md5_input(r).len() == 0,
{
    md5::Md5::new()
}

/// Calls [`md5::Md5::update`]: the hasher takes in `data` after what it had taken in.
#[verifier::external_body]
fn md5_update(hasher: &mut md5::Md5, data: &[u8])
    ensures
        md5_input(*final(hasher)) == md5_input(*old(hasher)) + data@,
{
    hasher.update(data)
}

/// Calls [`md5::Md5::finalize`]: the digest, of 16 bytes, of what the hasher had taken in.
#[verifier::external_body]
fn md5_finalize(hasher: md5::Md5) -> (r: Vec<u8>)
    ensures
        r@ == md5_digest(md5_input(hasher)),
        r@.len() == 16,
{
    hasher.finalize().to_vec()
}

/// The digest of a file that is being read.
pub struct Md5Stream {
    hasher: md5::Md5,
}

impl View for Md5Stream {
    type V = Seq<u8>;

    /// What was read of the file so far.
    closed spec fn view(&self) -> Seq<u8> {
        md5_input(self.hasher)
    }
}

impl Md5Stream {
    /// Nothing was read yet.
    pub fn new() -> (r: Md5Stream)
        ensures
            r@ == Seq::<u8>::empty(),
    {
        let r = Md5Stream { hasher: md5_new() };
        assert(r@ =~= Seq::<u8>::empty());
        r
    }

    /// Takes the next `n` bytes, which were read to the start of `buf`. Returns whether to
    /// read on: a read of no bytes is the end of the file.
    pub fn absorb(&mut self, buf: &[u8], n: usize) -> (r: bool)
        requires
            n <= buf@.len(),
        ensures
            r == (n != 0),
            final(self)@ == old(self)@ + buf@.take(n as int),
    {
        if n == 0 {
            assert(self@ =~= old(self)@ + buf@.take(0));
            return false;
        }
        md5_update(&mut self.hasher, slice_subrange(buf, 0, n));
        assert(self@ =~= old(self)@ + buf@.take(n as int));
        true
    }

    /// The digest of what was read, in hexadecimal notation.
    pub fn finish(self) -> (r: String)
        ensures
            r@ == hex_text(md5_digest(self@)),
            r@.len() == 32,
    {
        let digest = md5_finalize(self.hasher);
        hex_encode(&digest)
    }
}

/// What was read once the `chunks` were absorbed one after the other.
pub open spec fn after_chunks(chunks: Seq<Seq<u8>>) -> Seq<u8>
    decreases chunks.len(),
{
    if chunks.len() == 0 {
        Seq::empty()
    } else {
        after_chunks(chunks.drop_last()) + chunks.last()
    }
}

/// It does not matter for the digest where one read ends and the next begins.
pub proof fn the_digest_ignores_chunk_boundaries(a: Seq<Seq<u8>>, b: Seq<Seq<u8>>)
    requires
        a.flatten() == b.flatten(),
    ensures
        hex_text(md5_digest(after_chunks(a))) == hex_text(md5_digest(after_chunks(b))),
{
    lemma_after_chunks(a);
    lemma_after_chunks(b);
}

proof fn lemma_after_chunks(chunks: Seq<Seq<u8>>)
    ensures
        after_chunks(chunks) == chunks.flatten(),
    decreases chunks.len(),
{
    if chunks.len() > 0 {
        lemma_after_chunks(chunks.drop_last());
        assert(chunks =~= chunks.drop_last().push(chunks.last()));
        chunks.lemma_flatten_and_flatten_alt_are_equivalent();
        chunks.drop_last().lemma_flatten_and_flatten_alt_are_equivalent();
    }
}

/// Each byte becomes two of the sixteen digits, the first for its higher half.
pub proof fn a_byte_becomes_two_digits(data: Seq<u8>, i: int)
    requires
        0 <= i < data.len(),
    ensures
        hex_text(data).len() == 2 * data.len(),
        hex_text(data)[2 * i] == "0123456789abcdef"@[data[i] as int / 16],
        hex_text(data)[2 * i + 1] == "0123456789abcdef"@[data[i] as int % 16],
{
    reveal_strlit("0123456789abcdef");
    assert((2 * i) / 2 == i && (2 * i + 1) / 2 == i);
    let high = data[i] as int / 16;
    let low = data[i] as int % 16;
    assert(hex_digit(high) as int == if high < 10 { high + 48 } else { high + 87 });
    assert(hex_digit(low) as int == if low < 10 { low + 48 } else { low + 87 });
}

} // verus!
