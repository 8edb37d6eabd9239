# Image Dedup

A duplicate image finder. Perceptual hashes find candidate pairs, the structural similarity
index (SSIM) verifies them, and connected pairs form groups. Each group names the image to keep:
the one with the most pixels, and of those the largest file.

- `src/` is the library, verified with Verus. Each function states what it returns;
  `src/guarantees.rs` and the public proof functions of the other modules state what holds of
  the library as a whole: that groups do not overlap, that equal files end up in one group, that
  a group is marked for review when one of its pairs is doubtful, that only scanned files can be
  previewed or deleted.
- `tests/` runs the library.
- `app/` holds the file system, the threads, the floating-point work, the desktop backend and
  the Python extension module.

What is taken on trust, rather than proved, are the calls into `base64`, `hex`, `image`, `md-5`
and the standard library. Each stands in a small function whose comment says what it claims.
