use askey::catalog::{clean_pasted_path, drop_kind, listing_order, DropKind};

#[test]
fn pasted_paths_lose_quotes_and_whitespace() {
    assert_eq!(clean_pasted_path("  \"C:\\a b.gif\"  "), "C:\\a b.gif");
    assert_eq!(clean_pasted_path("'/tmp/x.askey'\n"), "/tmp/x.askey");
    assert_eq!(clean_pasted_path(" ' \"x\" ' "), "\"x\"");
    assert_eq!(clean_pasted_path("\u{3000}a\u{a0}"), "a");
    assert_eq!(clean_pasted_path("\"\"\"a\"\""), "a");
    assert_eq!(clean_pasted_path("   "), "");
}

#[test]
fn dropped_files_by_extension() {
    for e in ["gif", "PNG", "jpg", "JpEg", "webp"] {
        assert_eq!(drop_kind(e), DropKind::Image);
    }
    assert_eq!(drop_kind("askey"), DropKind::Animation);
    assert_eq!(drop_kind("ASKEY"), DropKind::Animation);
    assert_eq!(drop_kind("txt"), DropKind::Other);
    assert_eq!(drop_kind(""), DropKind::Other);
    assert_eq!(drop_kind("gifs"), DropKind::Other);
}

#[test]
fn animations_are_listed_by_name_ignoring_case() {
    let names: Vec<String> = ["b.askey", "A.askey", "a.askey", "C.askey"].iter().map(|s| s.to_string()).collect();
    assert_eq!(listing_order(&names), vec![1, 2, 0, 3]);
    assert_eq!(listing_order(&Vec::new()), Vec::<usize>::new());
    let prefix: Vec<String> = ["ab", "a", "B", "_"].iter().map(|s| s.to_string()).collect();
    assert_eq!(listing_order(&prefix), vec![3, 1, 0, 2]);
}
