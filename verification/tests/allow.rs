use image_dedup::allow::{check_allowed, AllowList, DeleteBatch, ResolvedPath};

fn resolved(path: &str) -> ResolvedPath {
    ResolvedPath::new(path.as_bytes().to_vec(), path.to_string())
}

fn reason(raw: &str, canon: Option<ResolvedPath>, list: Option<&AllowList>) -> String {
    match check_allowed(raw, canon, list) {
        Ok(_) => panic!("must be rejected"),
        Err(e) => e,
    }
}

#[test]
fn allowlist_rejects_unscanned_path() {
    let mut list = AllowList::new();
    list.clear();
    let res = check_allowed("unscanned.png", Some(resolved("/tmp/unscanned.png")), Some(&list));
    assert!(res.is_err(), "unscanned path must be rejected");
}

#[test]
fn allowlist_accepts_scanned_path() {
    let mut list = AllowList::new();
    list.clear();
    let tmp = resolved("/tmp/scanned.png");
    list.record_allowed(Some(&tmp));
    match check_allowed("scanned.png", Some(resolved("/tmp/scanned.png")), Some(&list)) {
        Ok(path) => {
            assert_eq!(path.encoded(), b"/tmp/scanned.png");
            assert_eq!(path.text(), "/tmp/scanned.png");
        }
        Err(e) => panic!("scanned path must be accepted: {e}"),
    }
}

#[test]
fn allowlist_rejects_traversal_attempt() {
    let mut list = AllowList::new();
    let allowed = resolved("/tmp/allowed.png");
    list.record_allowed(Some(&allowed));
    // The raw path goes up and down again, and resolves to a sibling of the allowed file.
    let attack = "/tmp/../tmp/other.png";
    let res = check_allowed(attack, Some(resolved("/tmp/other.png")), Some(&list));
    assert!(res.is_err(), "traversal to sibling must be rejected");
    // A detour to the allowed file itself is no matter.
    let detour = check_allowed(
        "/tmp/../tmp/allowed.png",
        Some(resolved("/tmp/allowed.png")),
        Some(&list),
    );
    assert!(detour.is_ok());
}

#[test]
fn each_rejection_has_its_reason() {
    let list = AllowList::new();
    assert_eq!(reason("/nope", None, Some(&list)), "path does not resolve: /nope");
    assert_eq!(reason("/nope", None, None), "path does not resolve: /nope");
    assert_eq!(reason("/a", Some(resolved("/a")), None), "allow-list lock poisoned");
    assert_eq!(
        reason("./a", Some(resolved("/a")), Some(&list)),
        "path not in scan allow-list: ./a"
    );
}

#[test]
fn a_path_that_does_not_resolve_is_not_recorded() {
    let mut list = AllowList::new();
    list.record_allowed(None);
    assert!(!list.allows(&resolved("/a")));
    list.record_allowed(Some(&resolved("/a")));
    list.record_allowed(Some(&resolved("/a")));
    assert!(list.allows(&resolved("/a")));
    list.forget(&resolved("/a"));
    assert!(!list.allows(&resolved("/a")));
}

#[test]
fn paths_are_told_apart_by_their_bytes() {
    let mut list = AllowList::new();
    let odd = ResolvedPath::new(vec![0x2f, 0xff], "/\u{fffd}".to_string());
    let other = ResolvedPath::new(vec![0x2f, 0xfe], "/\u{fffd}".to_string());
    list.record_allowed(Some(&odd));
    assert!(list.allows(&odd));
    assert!(!list.allows(&other));
}

#[test]
fn a_deleted_path_cannot_be_deleted_again() {
    let mut list = AllowList::new();
    list.record_allowed(Some(&resolved("/a.png")));
    let mut batch = DeleteBatch::new();
    let path = batch.request("/a.png", Some(resolved("/a.png")), Some(&list)).unwrap();
    batch.settle("/a.png", &path, None, &mut list);
    assert!(batch.request("/a.png", Some(resolved("/a.png")), Some(&list)).is_none());
    assert_eq!(
        batch.finish(),
        vec!["/a.png: rejected (path not in scan allow-list: /a.png)".to_string()]
    );
}

#[test]
fn a_failed_deletion_is_noted_and_can_be_repeated() {
    let mut list = AllowList::new();
    list.record_allowed(Some(&resolved("/a.png")));
    let mut batch = DeleteBatch::new();
    let path = batch.request("a.png", Some(resolved("/a.png")), Some(&list)).unwrap();
    batch.settle("a.png", &path, Some("trash is full"), &mut list);
    assert!(list.allows(&path));
    assert_eq!(batch.finish(), vec!["a.png: trash is full".to_string()]);
}

#[test]
fn a_batch_that_went_well_has_no_messages() {
    let mut list = AllowList::new();
    let mut batch = DeleteBatch::new();
    for name in ["/a.png", "/b.png"] {
        list.record_allowed(Some(&resolved(name)));
        let path = batch.request(name, Some(resolved(name)), Some(&list)).unwrap();
        batch.settle(name, &path, None, &mut list);
    }
    assert!(batch.request("/c.png", None, Some(&list)).is_none());
    assert_eq!(
        batch.finish(),
        vec!["/c.png: rejected (path does not resolve: /c.png)".to_string()]
    );
    assert_eq!(DeleteBatch::new().finish(), Vec::<String>::new());
}
