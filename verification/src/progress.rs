//! Reports on how far a scan or a search for duplicates has come.
use vstd::prelude::*;
use vstd::string::*;

use crate::text::{decimal, to_decimal};

verus! {

/// How far a scan has come.
#[derive(Clone)]
pub struct ScanProgress {
    pub scanned: usize,
    pub total: usize,
    pub current_file: String,
}

/// How far a search for duplicates has come.
#[derive(Clone)]
pub struct DedupProgress {
    pub phase: String,
    pub done: usize,
    pub total: usize,
    pub message: String,
}

/// Whether it is time for a report: every five steps, and at the end.
pub open spec fn report_due(done: int, total: int) -> bool {
    done % 5 == 0 || done == total
}

/// Whether it is time for a report.
fn is_report_due(done: usize, total: usize) -> (r: bool)
    ensures
        r == report_due(done as int, total as int),
{
    done % 5 == 0 || done == total
}

/// The report at the start of a scan of `total` images.
pub fn scan_started(total: usize) -> (r: ScanProgress)
    ensures
        r.scanned == 0,
        r.total == total,
        r.current_file@ == "Found "@ + decimal(total as nat) + " images..."@,
{
    let number = to_decimal(total as u64);
    let current_file = "Found ".to_owned().concat(number.as_str()).concat(" images...");
    ScanProgress { scanned: 0, total, current_file }
}

/// The report once `done` images of `total` are dealt with, the last of them the file
/// `file_name`, if it is time for one. A file that was skipped for its size is marked.
pub fn scan_advanced(done: usize, total: usize, file_name: &str, too_large: bool) -> (r: Option<
    ScanProgress,
>)
    ensures
        r is Some <==> report_due(done as int, total as int),
        r is Some <==> done % 5 == 0 || done == total,
        r matches Some(p) ==> p.scanned == done && p.total == total && p.current_file@ == (
        if too_large {
            "skipped (too large): "@ + file_name@
        } else {
            file_name@
        }),
{
    if !is_report_due(done, total) {
        return None;
    }
    let current_file = if too_large {
        "skipped (too large): ".to_owned().concat(file_name)
    } else {
        file_name.to_owned()
    };
    Some(ScanProgress { scanned: done, total, current_file })
}

/// The report at the start of the comparison of the perceptual hashes of `n` images.
pub fn comparison_started(n: usize) -> (r: DedupProgress)
    ensures
        r.phase@ == "phash"@,
        r.done == 0,
        r.total == n,
        r.message@ == "Comparing pHash values..."@,
{
    DedupProgress {
        phase: "phash".to_owned(),
        done: 0,
        total: n,
        message: "Comparing pHash values...".to_owned(),
    }
}

/// The report at the start of the verification of `pair_total` pairs.
pub fn verification_started(pair_total: usize) -> (r: DedupProgress)
    ensures
        r.phase@ == "ssim"@,
        r.done == 0,
        r.total == pair_total,
        r.message@ == "Verifying "@ + decimal(pair_total as nat)
            + " candidate pairs with SSIM..."@,
{
    let number = to_decimal(pair_total as u64);
    let message = "Verifying ".to_owned().concat(number.as_str()).concat(
        " candidate pairs with SSIM...",
    );
    DedupProgress { phase: "ssim".to_owned(), done: 0, total: pair_total, message }
}

/// The report once `done` pairs of `pair_total` are verified, if it is time for one.
pub fn verification_advanced(done: usize, pair_total: usize) -> (r: Option<DedupProgress>)
    ensures
        r is Some <==> report_due(done as int, pair_total as int),
        r is Some <==> done % 5 == 0 || done == pair_total,
        r matches Some(p) ==> p.phase@ == "ssim"@ && p.done == done && p.total == pair_total
            && p.message@ == "SSIM verification: "@ + decimal(done as nat) + "/"@ + decimal(
            pair_total as nat,
        ) + " pairs..."@,
{
    if !is_report_due(done, pair_total) {
        return None;
    }
    let number = to_decimal(done as u64);
    let of = to_decimal(pair_total as u64);
    let message = "SSIM verification: ".to_owned().concat(number.as_str()).concat("/").concat(
        of.as_str(),
    ).concat(" pairs...");
    Some(DedupProgress { phase: "ssim".to_owned(), done, total: pair_total, message })
}

} // verus!
