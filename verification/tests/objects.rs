use monopack::commit::Commit;
use monopack::hash::ObjectId;
use monopack::object::{object_id, Entry, ObjectType};
use monopack::tree::{Tree, TreeItem, TreeItemMode};

fn hex(id: &ObjectId) -> String {
    String::from_utf8(id.to_plain_str()).unwrap()
}

#[test]
fn sha1_of_known_values() {
    assert_eq!(hex(&ObjectId::digest(b"hello world")), "2aae6c35c94fcfb415dbe95f408b9ce91ee846ed");
    assert_eq!(hex(&ObjectId::digest(b"")), "da39a3ee5e6b4b0d3255bfef95601890afd80709");
}

#[test]
fn object_ids_match_git() {
    // the well-known identifiers of the empty blob and the empty tree
    assert_eq!(hex(&object_id(ObjectType::Blob, b"")), "e69de29bb2d1d6434b8b29ae775ad8c2e48c5391");
    assert_eq!(hex(&object_id(ObjectType::Tree, b"")), "4b825dc642cb6eb9a060e54bf8d69288fbee4904");
    assert_eq!(
        hex(&object_id(ObjectType::Blob, b"hello world\n")),
        "3b18e512dba79e4c8300dd08aeb37f8e728b8dad"
    );
    assert_eq!(hex(&Tree::from_tree_items(Vec::new()).id), "4b825dc642cb6eb9a060e54bf8d69288fbee4904");
}

#[test]
fn hex_round_trip() {
    let id = ObjectId::digest(b"abc");
    let text = id.to_plain_str();
    assert_eq!(text.len(), 40);
    let back = ObjectId::from_hex(&text).unwrap();
    assert!(back.same(&id));
    assert_eq!(id.short(), text[..6].to_vec());
    assert!(ObjectId::from_hex(b"xyz").is_none());
    assert!(ObjectId::from_hex(b"2AAE6C35C94FCFB415DBE95F408B9CE91EE846ED").is_none());
    assert!(ObjectId::from_hex(b"2aae6c35c94fcfb415dbe95f408b9ce91ee846eg").is_none());
    assert_eq!(hex(&ObjectId::zero()), "0".repeat(40));
}

#[test]
fn tree_bytes_round_trip() {
    let blob = object_id(ObjectType::Blob, b"hello world\n");
    let sub = Tree::from_tree_items(Vec::new());
    let items = vec![
        TreeItem::new(TreeItemMode::Blob, blob, b"hello.txt".to_vec()),
        TreeItem::new(TreeItemMode::Tree, sub.id, b"docs".to_vec()),
        TreeItem::new(TreeItemMode::BlobExecutable, blob, b"run me".to_vec()),
        TreeItem::new(TreeItemMode::Link, blob, b"link".to_vec()),
        TreeItem::new(TreeItemMode::Commit, blob, b"module".to_vec()),
    ];
    let tree = Tree::from_tree_items(items);
    let data = tree.to_data();
    let mut expected = Vec::new();
    expected.extend_from_slice(b"100644 hello.txt\0");
    expected.extend_from_slice(&blob.bytes);
    expected.extend_from_slice(b"40000 docs\0");
    expected.extend_from_slice(&sub.id.bytes);
    expected.extend_from_slice(b"100755 run me\0");
    expected.extend_from_slice(&blob.bytes);
    expected.extend_from_slice(b"120000 link\0");
    expected.extend_from_slice(&blob.bytes);
    expected.extend_from_slice(b"160000 module\0");
    expected.extend_from_slice(&blob.bytes);
    assert_eq!(data, expected);
    assert!(tree.id.same(&object_id(ObjectType::Tree, &data)));
    let back = Tree::from_bytes(&data, tree.id).unwrap();
    assert_eq!(back.tree_items.len(), 5);
    assert_eq!(back.tree_items[1].name, b"docs".to_vec());
    assert_eq!(back.tree_items[1].mode, TreeItemMode::Tree);
    assert!(back.tree_items[1].id.same(&sub.id));
    assert_eq!(back.to_data(), data);
    assert_eq!(back.position(b"link"), Some(3));
    assert_eq!(back.position(b"nothing"), None);
}

#[test]
fn a_single_file_tree_matches_git() {
    // `git mktree` on "100644 blob 3b18e5...\thello.txt"
    let blob = object_id(ObjectType::Blob, b"hello world\n");
    let tree = Tree::from_tree_items(vec![TreeItem::new(TreeItemMode::Blob, blob, b"hello.txt".to_vec())]);
    assert_eq!(hex(&tree.id), "68aba62e560c0ebc3396e8ae9335232cd93a3f60");
}

#[test]
fn malformed_trees_are_refused() {
    let id = ObjectId::zero();
    assert!(Tree::from_bytes(b"100644 a", id).is_none());
    assert!(Tree::from_bytes(b"100644 a\0short", id).is_none());
    assert!(Tree::from_bytes(b"777 a\0aaaaaaaaaaaaaaaaaaaa", id).is_none());
    assert!(Tree::from_bytes(b"100644a\0aaaaaaaaaaaaaaaaaaaa", id).is_none());
    assert!(Tree::from_bytes(b"100644 a\0aaaaaaaaaaaaaaaaaaaaX", id).is_none());
    assert!(Tree::from_bytes(b"", id).unwrap().tree_items.is_empty());
    assert!(Tree::from_bytes(b"100644 a\0aaaaaaaaaaaaaaaaaaaa", id).is_some());
}

#[test]
fn commit_bytes_round_trip() {
    let tree = Tree::from_tree_items(Vec::new());
    let parent = ObjectId::digest(b"parent");
    let c = Commit::new(
        b"A U Thor <author@example.com> 1700000000 +0100".to_vec(),
        b"C O Mitter <committer@example.com> 1700000001 +0000".to_vec(),
        tree.id,
        vec![parent, tree.id],
        b"\nsubject\n\nbody\n".to_vec(),
    );
    let data = c.to_data();
    let expected = format!(
        "tree {}\nparent {}\nparent {}\nauthor A U Thor <author@example.com> 1700000000 +0100\ncommitter C O Mitter <committer@example.com> 1700000001 +0000\n\nsubject\n\nbody\n",
        hex(&tree.id),
        hex(&parent),
        hex(&tree.id)
    );
    assert_eq!(String::from_utf8(data.clone()).unwrap(), expected);
    assert!(c.id.same(&object_id(ObjectType::Commit, &data)));
    let back = Commit::from_bytes(&data, c.id).unwrap();
    assert!(back.tree_id.same(&tree.id));
    assert_eq!(back.parent_ids.len(), 2);
    assert!(back.parent_ids[0].same(&parent));
    assert_eq!(back.author, c.author);
    assert_eq!(back.committer, c.committer);
    assert_eq!(back.message, c.message);
    assert_eq!(back.to_data(), data);
}

#[test]
fn a_known_commit_matches_git() {
    let tree = ObjectId::from_hex(b"4b825dc642cb6eb9a060e54bf8d69288fbee4904").unwrap();
    let c = Commit::new(
        b"a <a@a> 0 +0000".to_vec(),
        b"a <a@a> 0 +0000".to_vec(),
        tree,
        Vec::new(),
        b"\nm\n".to_vec(),
    );
    let data = c.to_data();
    assert_eq!(
        String::from_utf8(data).unwrap(),
        "tree 4b825dc642cb6eb9a060e54bf8d69288fbee4904\nauthor a <a@a> 0 +0000\ncommitter a <a@a> 0 +0000\n\nm\n"
    );
}

#[test]
fn malformed_commits_are_refused() {
    let id = ObjectId::zero();
    assert!(Commit::from_bytes(b"", id).is_none());
    assert!(Commit::from_bytes(b"tree 123\n", id).is_none());
    let good = b"tree 4b825dc642cb6eb9a060e54bf8d69288fbee4904\nauthor a\ncommitter b\n";
    assert!(Commit::from_bytes(good, id).is_some());
    let no_committer = b"tree 4b825dc642cb6eb9a060e54bf8d69288fbee4904\nauthor a\n";
    assert!(Commit::from_bytes(no_committer, id).is_none());
    let bad_parent = b"tree 4b825dc642cb6eb9a060e54bf8d69288fbee4904\nparent zz\nauthor a\ncommitter b\n";
    assert!(Commit::from_bytes(bad_parent, id).is_none());
}

#[test]
fn the_system_commit_is_fixed() {
    let tree = Tree::from_tree_items(Vec::new());
    let a = Commit::from_tree_id(tree.id, Vec::new(), b"This commit was generated by mega for maintain refs");
    let b = Commit::from_tree_id(tree.id, Vec::new(), b"This commit was generated by mega for maintain refs");
    assert!(a.id.same(&b.id));
    assert_eq!(a.author, b"mega <admin@mega.org> 0 +0000".to_vec());
    assert_eq!(a.message, b"\nThis commit was generated by mega for maintain refs".to_vec());
    assert!(a.parent_ids.is_empty());
}

#[test]
fn entries_take_the_identifier_of_their_content() {
    let e = Entry::new(ObjectType::Blob, b"hello world\n".to_vec());
    assert_eq!(hex(&e.hash), "3b18e512dba79e4c8300dd08aeb37f8e728b8dad");
    let f = e.copy();
    assert_eq!(f.data, e.data);
    assert_eq!(f.obj_type, ObjectType::Blob);
}
