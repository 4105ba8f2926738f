use patch_server::patches::{files_match, parse_version, PatchError, PatchProvider, VersionListing};
use patch_server::path::path_components;
use patch_server::request::relative_request_path;

fn listing(name: &str, files: &[&str]) -> VersionListing {
    let dir = format!("root/{}", name);
    VersionListing {
        name: name.to_string(),
        files: files.iter().map(|f| format!("{}/{}", dir, f)).collect(),
        dir,
    }
}

fn provider(entries: Vec<VersionListing>) -> PatchProvider {
    let mut p = PatchProvider::new("root".to_string(), true).unwrap();
    p.load_patches(entries).unwrap();
    p
}

fn lookup(p: &PatchProvider, path: &str) -> Option<String> {
    p.get_latest_version(&path.to_string())
}

#[test]
fn newer_version_wins() {
    let p = provider(vec![listing("1", &["a/b.txt"]), listing("2", &["a/b.txt"])]);
    assert_eq!(lookup(&p, "a/b.txt"), Some("root/2/a/b.txt".to_string()));
}

#[test]
fn newest_wins_whatever_the_listing_order() {
    let p = provider(vec![
        listing("10", &["x.bin"]),
        listing("2", &["x.bin"]),
        listing("7", &["x.bin"]),
    ]);
    assert_eq!(lookup(&p, "x.bin"), Some("root/10/x.bin".to_string()));
}

#[test]
fn path_in_one_version_resolves_there() {
    let p = provider(vec![listing("1", &["only.txt"]), listing("2", &["other.txt"])]);
    assert_eq!(lookup(&p, "only.txt"), Some("root/1/only.txt".to_string()));
}

#[test]
fn absent_path_is_not_found() {
    let p = provider(vec![listing("1", &["a.txt"]), listing("2", &["b/c.txt"])]);
    assert_eq!(lookup(&p, "c.txt"), None);
    assert_eq!(lookup(&p, "b"), None);
    assert_eq!(lookup(&p, "A.txt"), None);
    assert_eq!(lookup(&p, "b/c"), None);
}

#[test]
fn request_matches_by_components() {
    let p = provider(vec![listing("1", &["b/c.txt"]), listing("2", &["b/c.txt"])]);
    let want = Some("root/2/b/c.txt".to_string());
    assert_eq!(lookup(&p, "b//c.txt"), want);
    assert_eq!(lookup(&p, "b/./c.txt"), want);
    assert_eq!(lookup(&p, "b/c.txt/"), want);
    assert_eq!(lookup(&p, "./b/c.txt"), None);
    assert_eq!(lookup(&p, "b/../b/c.txt"), None);
}

#[test]
fn first_matching_file_of_a_version_is_returned() {
    let p = provider(vec![VersionListing {
        name: "4".to_string(),
        dir: "root/4".to_string(),
        files: vec!["root/4//x".to_string(), "root/4/x".to_string()],
    }]);
    assert_eq!(lookup(&p, "x"), Some("root/4//x".to_string()));
}

#[test]
fn empty_index_finds_nothing() {
    let p = provider(Vec::new());
    assert_eq!(p.get_patch_count(), 0);
    assert_eq!(lookup(&p, "a.txt"), None);
}

#[test]
fn equal_versions_take_the_later_directory() {
    let p = provider(vec![listing("1", &["f"]), listing("01", &["f"])]);
    assert_eq!(lookup(&p, "f"), Some("root/01/f".to_string()));
}

#[test]
fn count_is_number_of_version_directories() {
    let p = provider(vec![listing("1", &[]), listing("3", &["a", "b"])]);
    assert_eq!(p.get_patch_count(), 2);
}

#[test]
fn new_rejects_non_directory() {
    assert!(matches!(
        PatchProvider::new("file.txt".to_string(), false),
        Err(PatchError::NotADirectory)
    ));
    let p = PatchProvider::new("root".to_string(), true).unwrap();
    assert_eq!(p.location(), "root");
    assert_eq!(p.get_patch_count(), 0);
}

#[test]
fn malformed_version_name_keeps_previous_snapshot() {
    let mut p = provider(vec![listing("1", &["a.txt"])]);
    let r = p.load_patches(vec![listing("2", &["a.txt"]), listing("beta", &["b.txt"])]);
    assert_eq!(r, Err(PatchError::MalformedVersionName));
    assert_eq!(p.get_patch_count(), 1);
    assert_eq!(lookup(&p, "a.txt"), Some("root/1/a.txt".to_string()));
    assert_eq!(lookup(&p, "b.txt"), None);
}

#[test]
fn added_version_resolves_and_removal_undoes_it() {
    let mut p = provider(vec![listing("1", &["a.txt"])]);
    assert_eq!(lookup(&p, "new.txt"), None);
    p.load_patches(vec![listing("1", &["a.txt"]), listing("2", &["new.txt"])]).unwrap();
    assert_eq!(lookup(&p, "new.txt"), Some("root/2/new.txt".to_string()));
    p.load_patches(vec![listing("1", &["a.txt"])]).unwrap();
    assert_eq!(lookup(&p, "new.txt"), None);
}

#[test]
fn parse_version_accepts_decimal_numbers() {
    assert_eq!(parse_version(&"0".to_string()), Some(0));
    assert_eq!(parse_version(&"42".to_string()), Some(42));
    assert_eq!(parse_version(&"007".to_string()), Some(7));
    assert_eq!(parse_version(&"+5".to_string()), Some(5));
    assert_eq!(parse_version(&usize::MAX.to_string()), Some(usize::MAX));
}

#[test]
fn parse_version_rejects_other_names() {
    for name in ["", "+", "-1", "1a", "a1", " 1", "1.0", "١"] {
        assert_eq!(parse_version(&name.to_string()), None, "{}", name);
    }
    let too_big = format!("{}0", usize::MAX);
    assert_eq!(parse_version(&too_big), None);
}

#[test]
fn files_match_compares_relative_path_exactly() {
    let f = "root/3/a/b.txt".to_string();
    let d = "root/3".to_string();
    assert!(files_match(&f, &d, &"a/b.txt".to_string()));
    assert!(!files_match(&f, &d, &"b.txt".to_string()));
    assert!(!files_match(&f, &d, &"a/B.txt".to_string()));
    assert!(!files_match(&f, &d, &"/a/b.txt".to_string()));
    assert!(!files_match(&f, &"root/4".to_string(), &"a/b.txt".to_string()));
    assert!(files_match(&f, &d, &"a//b.txt".to_string()));
    assert!(files_match(&f, &d, &"a/./b.txt/".to_string()));
    assert!(files_match(&"./p/3/a".to_string(), &"./p/3".to_string(), &"a".to_string()));
    assert!(!files_match(&f, &d, &"./a/b.txt".to_string()));
}

#[test]
fn request_path_drops_leading_separators() {
    assert_eq!(relative_request_path(&"/a/b.txt".to_string()), "a/b.txt");
    assert_eq!(relative_request_path(&"///a/b.txt".to_string()), "a/b.txt");
    assert_eq!(relative_request_path(&"a/b/".to_string()), "a/b/");
    assert_eq!(relative_request_path(&"/".to_string()), "");
}

#[test]
fn scenario_two_versions_then_encode() {
    let p = provider(vec![listing("1", &["a/b.txt"]), listing("2", &["a/b.txt"])]);
    let path = relative_request_path(&"/a/b.txt".to_string());
    assert_eq!(p.get_latest_version(&path), Some("root/2/a/b.txt".to_string()));
    let out = patch_server::encoding::encode(&b"new".to_vec()).unwrap();
    assert_eq!(&out[0..5], &[0x03, 0, 0, 0, 0]);
    assert_eq!(&out[5 + 10..5 + 18], &[0x03, 0, 0, 0, 0, 0, 0, 0]);
}

#[test]
fn path_components_follow_std_rules() {
    let parts = |s: &str| path_components(s.as_bytes());
    assert_eq!(parts("/a//./b/"), vec![b"".to_vec(), b"a".to_vec(), b"b".to_vec()]);
    assert_eq!(parts("./a/."), vec![b".".to_vec(), b"a".to_vec()]);
    assert_eq!(parts("a/../b"), vec![b"a".to_vec(), b"..".to_vec(), b"b".to_vec()]);
    assert_eq!(parts(""), Vec::<Vec<u8>>::new());
}
