use monopack::path::RepoPath;

#[test]
fn test() {
    let mut full_path = RepoPath::parse("/project/rust/mega".as_bytes());
    for _ in 0..3 {
        let cloned_path = full_path.copy();
        let name = cloned_path.file_name().unwrap();
        full_path.pop();
        println!(
            "name: {}, path: {:?}",
            String::from_utf8(name).unwrap(),
            String::from_utf8(full_path.to_bytes()).unwrap()
        );
    }
}

#[test]
fn file_name_and_pop_walk_up_to_the_root() {
    let mut p = RepoPath::parse(b"/project/rust/mega");
    assert_eq!(p.file_name().unwrap(), b"mega".to_vec());
    assert!(p.pop());
    assert_eq!(p.to_bytes(), b"/project/rust".to_vec());
    assert_eq!(p.file_name().unwrap(), b"rust".to_vec());
    assert!(p.pop());
    assert_eq!(p.file_name().unwrap(), b"project".to_vec());
    assert!(p.pop());
    assert!(p.is_root());
    assert_eq!(p.to_bytes(), b"/".to_vec());
    assert!(p.file_name().is_none());
    assert!(!p.pop());
}

#[test]
fn parse_normalizes() {
    let p = RepoPath::parse(b"//a/./b//c/");
    assert_eq!(p.depth(), 3);
    assert_eq!(p.to_bytes(), b"/a/b/c".to_vec());
    assert!(RepoPath::parse(b"/").is_root());
    assert!(RepoPath::parse(b"").is_root());
    assert!(p.same(&RepoPath::parse(b"a/b/c")));
}

#[test]
fn prefixes() {
    let p = RepoPath::parse(b"/x/y/z");
    assert!(p.starts_with(&RepoPath::parse(b"/x/y")));
    assert!(p.starts_with(&RepoPath::root()));
    assert!(p.starts_with(&p.copy()));
    assert!(!p.starts_with(&RepoPath::parse(b"/x/yy")));
    assert!(!RepoPath::parse(b"/x").starts_with(&p));
    assert!(p.parent().unwrap().same(&RepoPath::parse(b"/x/y")));
    assert!(RepoPath::root().parent().is_none());
    assert!(RepoPath::parse(b"/x").join(b"y").same(&RepoPath::parse(b"/x/y")));
}
