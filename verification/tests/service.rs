use monopack::api::{ContentType, CreateFileInfo};
use monopack::commit::Commit;
use monopack::errors::MonoError;
use monopack::hash::ObjectId;
use monopack::monorepo::{MonoRepo, Refs};
use monopack::object::{object_id, Entry, ObjectType};
use monopack::path::RepoPath;
use monopack::resolver::search_tree_by_path;
use monopack::service::MonorepoService;
use monopack::store::ObjectStore;
use monopack::tree::{Tree, TreeItem, TreeItemMode};
use monopack::wire::{append_pkt_line, ref_advertisement};

const CAPS: &str = "shallow deepen-since deepen-not deepen-relative multi_ack_detailed no-done include-tag side-band-64k ofs-delta agent=mega/0.1.0";

fn hex(id: &ObjectId) -> String {
    String::from_utf8(id.to_plain_str()).unwrap()
}

fn initialized() -> MonorepoService {
    let mut service = MonorepoService { storage: ObjectStore::new() };
    service.init_monorepo();
    service
}

#[test]
fn init_gives_the_store_its_root_once() {
    let mut service = initialized();
    let root = service.storage.get_ref(&RepoPath::root()).unwrap();
    let empty = Tree::from_tree_items(Vec::new());
    assert!(root.ref_tree_hash.same(&empty.id));
    assert!(service.storage.has_commit(&root.ref_commit_hash));
    assert_eq!(service.storage.get_obj_count(), Some(2));
    service.init_monorepo();
    let again = service.storage.get_ref(&RepoPath::root()).unwrap();
    assert!(again.ref_commit_hash.same(&root.ref_commit_hash));
    assert_eq!(service.storage.get_obj_count(), Some(2));
}

#[test]
fn the_announcement_is_framed_in_pkt_lines() {
    let id = ObjectId::from_hex(b"c9ba5f3b45016391455e70cbbf2db55efeb013f6").unwrap();
    let refs = vec![Refs { ref_name: b"refs/heads/main".to_vec(), ref_hash: id, default_branch: true }];
    let expected = format!(
        "001e# service=git-upload-pack\n000000b2{} HEAD\0{}\n003d{} refs/heads/main\n0000",
        hex(&id),
        CAPS,
        hex(&id)
    );
    assert_eq!(ref_advertisement(&refs), expected.into_bytes());
}

#[test]
fn the_announcement_of_no_ref_names_the_zero_head() {
    let expected = format!(
        "001e# service=git-upload-pack\n000000b2{} HEAD\0{}\n0000",
        "0".repeat(40),
        CAPS
    );
    assert_eq!(ref_advertisement(&Vec::new()), expected.into_bytes());
}

#[test]
fn the_head_of_the_announcement_is_the_last_default_ref() {
    let a = ObjectId::digest(b"a");
    let b = ObjectId::digest(b"b");
    let c = ObjectId::digest(b"c");
    let refs = vec![
        Refs { ref_name: b"refs/heads/a".to_vec(), ref_hash: a, default_branch: true },
        Refs { ref_name: b"refs/heads/b".to_vec(), ref_hash: b, default_branch: true },
        Refs { ref_name: b"refs/heads/c".to_vec(), ref_hash: c, default_branch: false },
    ];
    let out = String::from_utf8_lossy(&ref_advertisement(&refs)).into_owned();
    assert!(out.contains(&format!("00b2{} HEAD", hex(&b))));
    assert!(out.contains(&format!("003a{} refs/heads/c\n", hex(&c))));
    assert!(out.ends_with("0000"));
}

#[test]
fn pkt_lines_carry_their_length() {
    let mut v = b"x".to_vec();
    append_pkt_line(&mut v, b"hello\n");
    assert_eq!(v, b"x000ahello\n".to_vec());
    let mut v = Vec::new();
    append_pkt_line(&mut v, b"");
    assert_eq!(v, b"0004".to_vec());
    let mut v = Vec::new();
    append_pkt_line(&mut v, &vec![b'a'; 65516]);
    assert_eq!(&v[..4], b"fff0");
    assert_eq!(v.len(), 65520);
    let mut v = Vec::new();
    append_pkt_line(&mut v, &vec![b'a'; 65517]);
    assert!(v.is_empty());
}

#[test]
fn head_hash_announces_what_it_returns() {
    let mut store = ObjectStore::new();
    let h = MonoRepo { path: RepoPath::root(), from_hash: None, to_hash: None };
    let (preamble, refs) = h.head_hash(&mut store);
    assert_eq!(refs.len(), 1);
    assert_eq!(preamble, ref_advertisement(&refs));
    let text = String::from_utf8_lossy(&preamble).into_owned();
    assert!(text.starts_with("001e# service=git-upload-pack\n0000"));
    assert!(text.contains(&format!("{} HEAD", hex(&refs[0].ref_hash))));
    assert!(h.check_default_branch());
    assert!(h.check_commit_exist(&store, &refs[0].ref_hash));
    assert!(!h.check_commit_exist(&store, &ObjectId::zero()));
}

#[test]
fn a_file_is_added_to_the_root() {
    let mut service = initialized();
    let root0 = service.storage.get_ref(&RepoPath::root()).unwrap();
    let info = CreateFileInfo {
        is_directory: false,
        name: b"readme.md".to_vec(),
        path: b"/".to_vec(),
        content: Some(b"hello".to_vec()),
    };
    assert_eq!(service.create_monorepo_file(info), Ok(()));
    let root1 = service.storage.get_ref(&RepoPath::root()).unwrap();
    assert!(!root1.ref_commit_hash.same(&root0.ref_commit_hash));
    let blob_id = object_id(ObjectType::Blob, b"hello");
    let tree = service.storage.get_tree(&root1.ref_tree_hash).unwrap();
    assert_eq!(tree.tree_items.len(), 1);
    assert_eq!(tree.tree_items[0].name, b"readme.md".to_vec());
    assert_eq!(tree.tree_items[0].mode, TreeItemMode::Blob);
    assert!(tree.tree_items[0].id.same(&blob_id));
    assert_eq!(service.get_blob_as_string(&blob_id).plain_text, b"hello".to_vec());
    assert!(service.get_blob_as_string(&ObjectId::zero()).plain_text.is_empty());
    let commit = service.storage.get_commit(&root1.ref_commit_hash).unwrap();
    assert_eq!(commit.message, b"\ncreate file readme.md commit".to_vec());
    assert!(commit.parent_ids[0].same(&root0.ref_commit_hash));
    assert!(commit.tree_id.same(&root1.ref_tree_hash));
}

#[test]
fn a_directory_is_added_below_a_directory() {
    let mut service = initialized();
    let mk = |name: &[u8], path: &[u8]| CreateFileInfo {
        is_directory: true,
        name: name.to_vec(),
        path: path.to_vec(),
        content: None,
    };
    assert_eq!(service.create_monorepo_file(mk(b"project", b"/")), Ok(()));
    assert_eq!(service.create_monorepo_file(mk(b"rust", b"/project")), Ok(()));
    assert_eq!(service.create_monorepo_file(mk(b"docs", b"/")), Ok(()));
    assert_eq!(
        service.create_monorepo_file(mk(b"x", b"/nothing")),
        Err(MonoError::PathNotFound)
    );
    assert_eq!(
        service.create_monorepo_file(mk(b"x", b"/project/.gitkeep")),
        Err(MonoError::PathNotDirectory)
    );
    let found = search_tree_by_path(&service.storage, &RepoPath::parse(b"/project/rust")).unwrap();
    assert_eq!(found.target.tree_items.len(), 1);
    assert_eq!(found.target.tree_items[0].name, b".gitkeep".to_vec());
    let keep = service.get_blob_as_string(&found.target.tree_items[0].id);
    assert_eq!(keep.plain_text, b"This file was used to maintain the git tree".to_vec());
    let info = service.get_tree_info(&RepoPath::parse(b"/project"));
    assert_eq!(info.total_count, 2);
    assert_eq!(info.items[0].name, b".gitkeep".to_vec());
    assert_eq!(info.items[0].path, b"/project/.gitkeep".to_vec());
    assert_eq!(info.items[0].content_type, ContentType::File);
    assert_eq!(info.items[1].name, b"rust".to_vec());
    assert_eq!(info.items[1].path, b"/project/rust".to_vec());
    assert_eq!(info.items[1].content_type, ContentType::Directory);
    let root = service.get_tree_info(&RepoPath::root());
    assert_eq!(root.total_count, 2);
    assert_eq!(root.items[1].path, b"/docs".to_vec());
    assert_eq!(service.get_tree_info(&RepoPath::parse(b"/nothing")).total_count, 0);
}

#[test]
fn the_latest_commit_of_a_path_is_the_one_that_brought_its_tree() {
    let mut service = initialized();
    let mk = |name: &[u8], path: &[u8]| CreateFileInfo {
        is_directory: true,
        name: name.to_vec(),
        path: path.to_vec(),
        content: None,
    };
    assert_eq!(service.create_monorepo_file(mk(b"a", b"/")), Ok(()));
    let first = service.storage.get_ref(&RepoPath::root()).unwrap();
    assert_eq!(service.create_monorepo_file(mk(b"b", b"/a")), Ok(()));
    let second = service.storage.get_ref(&RepoPath::root()).unwrap();
    // the root tree was rewritten by the second commit
    let latest = service.get_latest_commit(&RepoPath::root()).unwrap();
    assert!(latest.oid.same(&second.ref_commit_hash));
    assert_eq!(latest.message, b"\ncreate file b commit".to_vec());
    assert_eq!(latest.author, b"mega <admin@mega.org> 0 +0000".to_vec());
    assert!(!latest.oid.same(&first.ref_commit_hash));
    // the tree at /a was stored without a note of its commit
    assert_eq!(
        service.get_latest_commit(&RepoPath::parse(b"/a")).err(),
        Some(MonoError::StorageError)
    );
    assert_eq!(
        service.get_latest_commit(&RepoPath::parse(b"/zzz")).err(),
        Some(MonoError::PathNotFound)
    );
    let info = service.get_tree_commit_info(&RepoPath::root());
    assert_eq!(info.total_count, 1);
    assert_eq!(info.items[0].name, b"a".to_vec());
    assert_eq!(info.items[0].content_type, ContentType::Directory);
    assert!(info.items[0].commit.is_none());
    assert_eq!(service.get_tree_commit_info(&RepoPath::parse(b"/zzz")).total_count, 0);
}

#[test]
fn update_parent_tree_stamps_and_reports_the_new_root_commit() {
    let leaf = Tree::from_tree_items(Vec::new());
    let mid = Tree::from_tree_items(vec![TreeItem::new(TreeItemMode::Tree, leaf.id, b"leaf".to_vec())]);
    let root = Tree::from_tree_items(vec![TreeItem::new(TreeItemMode::Tree, mid.id, b"mid".to_vec())]);
    let mut store = ObjectStore::new();
    store.save_trees(&vec![leaf.copy(), mid.copy(), root.copy()], None);
    let c0 = Commit::from_tree_id(root.id, Vec::new(), b"root");
    store.save_commit(&c0);
    store.save_ref(&RepoPath::root(), c0.id, root.id);
    store.save_ref(&RepoPath::parse(b"/mid"), c0.id, mid.id);
    store.save_ref(&RepoPath::parse(b"/mid/leaf"), c0.id, leaf.id);
    let mut service = MonorepoService { storage: store };
    let pushed_tree = Tree::from_tree_items(vec![TreeItem::new(
        TreeItemMode::Blob,
        object_id(ObjectType::Blob, b"x"),
        b"x".to_vec(),
    )]);
    let pushed = Commit::from_tree_id(pushed_tree.id, Vec::new(), b"pushed");
    let path = RepoPath::parse(b"/mid/leaf");
    let id = service
        .update_parent_tree(&path, &vec![root.copy(), mid.copy()], &pushed)
        .unwrap();
    let now = service.storage.get_ref(&RepoPath::root()).unwrap();
    assert!(now.ref_commit_hash.same(&id));
    // the expected trees, built by hand
    let mid2 = Tree::from_tree_items(vec![TreeItem::new(TreeItemMode::Tree, pushed_tree.id, b"leaf".to_vec())]);
    let root2 = Tree::from_tree_items(vec![TreeItem::new(TreeItemMode::Tree, mid2.id, b"mid".to_vec())]);
    assert!(now.ref_tree_hash.same(&root2.id));
    assert!(service.storage.get_tree(&mid2.id).is_some());
    assert!(service.storage.get_tree_commit(&mid2.id).unwrap().same(&id));
    // the ref above the path is gone, the ref of the path itself stays
    assert!(service.storage.get_ref(&RepoPath::parse(b"/mid")).is_none());
    assert!(service.storage.get_ref(&path).is_some());
    // a chain of the wrong length, and a chain that lacks the name
    assert_eq!(
        service.update_parent_tree(&path, &vec![root.copy()], &pushed).err(),
        Some(MonoError::PathNotFound)
    );
    assert_eq!(
        service
            .update_parent_tree(&RepoPath::parse(b"/mid/other"), &vec![root.copy(), mid.copy()], &pushed)
            .err(),
        Some(MonoError::PathNotFound)
    );
    let with_file = Tree::from_tree_items(vec![TreeItem::new(
        TreeItemMode::Blob,
        object_id(ObjectType::Blob, b"x"),
        b"f".to_vec(),
    )]);
    assert_eq!(
        service.update_parent_tree(&RepoPath::parse(b"/f"), &vec![with_file], &pushed).err(),
        Some(MonoError::PathNotDirectory)
    );
    let _ = Entry::new(ObjectType::Blob, Vec::new());
}

#[test]
fn adding_a_name_that_exists_replaces_the_entry() {
    let mut service = initialized();
    let mk = |content: &[u8]| CreateFileInfo {
        is_directory: false,
        name: b"readme.md".to_vec(),
        path: b"/".to_vec(),
        content: Some(content.to_vec()),
    };
    assert_eq!(service.create_monorepo_file(mk(b"first")), Ok(()));
    let other = CreateFileInfo {
        is_directory: false,
        name: b"other".to_vec(),
        path: b"/".to_vec(),
        content: None,
    };
    assert_eq!(service.create_monorepo_file(other), Ok(()));
    assert_eq!(service.create_monorepo_file(mk(b"second")), Ok(()));
    let root = service.storage.get_ref(&RepoPath::root()).unwrap();
    let tree = service.storage.get_tree(&root.ref_tree_hash).unwrap();
    assert_eq!(tree.tree_items.len(), 2);
    assert_eq!(tree.tree_items[0].name, b"readme.md".to_vec());
    assert!(tree.tree_items[0].id.same(&object_id(ObjectType::Blob, b"second")));
    assert_eq!(tree.tree_items[1].name, b"other".to_vec());
    // a directory in the place of a file of its name
    let dir = CreateFileInfo {
        is_directory: true,
        name: b"other".to_vec(),
        path: b"/".to_vec(),
        content: None,
    };
    assert_eq!(service.create_monorepo_file(dir), Ok(()));
    let info = service.get_tree_info(&RepoPath::root());
    assert_eq!(info.total_count, 2);
    assert_eq!(info.items[1].name, b"other".to_vec());
    assert_eq!(info.items[1].content_type, ContentType::Directory);
}
