use image_dedup::digest::{Md5Stream, HASH_BUF_BYTES};

fn digest(chunks: &[&[u8]]) -> String {
    let mut stream = Md5Stream::new();
    for chunk in chunks {
        assert!(stream.absorb(chunk, chunk.len()) || chunk.is_empty());
    }
    assert!(!stream.absorb(&[1, 2, 3], 0));
    stream.finish()
}

#[test]
fn known_digests() {
    assert_eq!(digest(&[]), "d41d8cd98f00b204e9800998ecf8427e");
    assert_eq!(digest(&[b"abc"]), "900150983cd24fb0d6963f7d28e17f72");
    assert_eq!(
        digest(&[b"message digest"]),
        "f96b697d7cb7938d525a2f31aaf161d0"
    );
}

#[test]
fn chunk_boundaries_do_not_matter() {
    assert_eq!(digest(&[b"a", b"", b"bc"]), digest(&[b"abc"]));
    assert_eq!(digest(&[b"message ", b"dig", b"est"]), digest(&[b"message digest"]));
}

#[test]
fn only_the_bytes_that_were_read_count() {
    let mut stream = Md5Stream::new();
    assert!(stream.absorb(b"abcdef", 3));
    assert_eq!(stream.finish(), "900150983cd24fb0d6963f7d28e17f72");
    assert_eq!(HASH_BUF_BYTES, 65536);
}
