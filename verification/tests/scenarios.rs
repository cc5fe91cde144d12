use monopack::commit::Commit;
use monopack::errors::MonoError;
use monopack::hash::ObjectId;
use monopack::monorepo::MonoRepo;
use monopack::mr::{classify, ConvType, MergeOperation, MergeRequest, MergeStatus, PushAction};
use monopack::object::{Entry, ObjectType};
use monopack::path::RepoPath;
use monopack::resolver::search_tree_by_path;
use monopack::service::MonorepoService;
use monopack::store::ObjectStore;
use monopack::tree::{Tree, TreeItem, TreeItemMode};

const MAINTAIN: &[u8] = b"This commit was generated by mega for maintain refs";

fn blob_entry(content: &[u8]) -> Entry {
    Entry::new(ObjectType::Blob, content.to_vec())
}

fn tree_entry(tree: &Tree) -> Entry {
    Entry { obj_type: ObjectType::Tree, hash: tree.id, data: tree.to_data() }
}

fn commit_entry(c: &Commit) -> Entry {
    Entry { obj_type: ObjectType::Commit, hash: c.id, data: c.to_data() }
}

fn dir(name: &[u8], tree: &Tree) -> TreeItem {
    TreeItem::new(TreeItemMode::Tree, tree.id, name.to_vec())
}

fn file(name: &[u8], content: &[u8]) -> TreeItem {
    TreeItem::new(TreeItemMode::Blob, blob_entry(content).hash, name.to_vec())
}

fn handler(path: &[u8], from: Option<ObjectId>, to: Option<ObjectId>) -> MonoRepo {
    MonoRepo { path: RepoPath::parse(path), from_hash: from, to_hash: to }
}

/// A store whose root tree is `root`, with every tree of `trees` stored.
fn store_with(root: &Tree, trees: &[&Tree]) -> ObjectStore {
    let mut store = ObjectStore::new();
    store.save_tree(root, None);
    for t in trees {
        store.save_tree(t, None);
    }
    let c = Commit::from_tree_id(root.id, Vec::new(), b"root");
    store.save_commit(&c);
    store.save_ref(&RepoPath::root(), c.id, root.id);
    store
}

#[test]
fn head_hash_on_an_empty_store() {
    let mut store = ObjectStore::new();
    let h = handler(b"/", None, None);
    let first = h.head_refs(&mut store);
    assert_eq!(first.len(), 1);
    assert_eq!(first[0].ref_name, b"refs/heads/main".to_vec());
    assert!(first[0].default_branch);
    let commit = store.get_commit(&first[0].ref_hash).unwrap();
    let empty = Tree::from_tree_items(Vec::new());
    assert!(commit.tree_id.same(&empty.id));
    assert!(commit.parent_ids.is_empty());
    assert_eq!(commit.message, [b"\n".as_slice(), MAINTAIN].concat());
    assert!(store.get_tree(&empty.id).unwrap().tree_items.is_empty());
    let second = h.head_refs(&mut store);
    assert_eq!(second.len(), 1);
    assert!(second[0].ref_hash.same(&first[0].ref_hash));
    assert_eq!(second[0].ref_name, first[0].ref_name);
    assert_eq!(second[0].default_branch, first[0].default_branch);
    assert_eq!(store.get_obj_count(), Some(2));
}

#[test]
fn head_hash_on_an_empty_store_below_the_root() {
    let mut store = ObjectStore::new();
    let refs = handler(b"/docs", None, None).head_refs(&mut store);
    assert!(refs.is_empty());
    assert_eq!(store.get_obj_count(), Some(0));
    assert!(store.get_ref(&RepoPath::root()).is_none());
}

#[test]
fn head_hash_of_a_subtree() {
    let docs = Tree::from_tree_items(vec![file(b"readme", b"hi")]);
    let root = Tree::from_tree_items(vec![dir(b"docs", &docs), file(b"top", b"t")]);
    let mut store = store_with(&root, &[&docs]);
    let h = handler(b"/docs", None, None);
    let refs = h.head_refs(&mut store);
    assert_eq!(refs.len(), 1);
    let commit = store.get_commit(&refs[0].ref_hash).unwrap();
    assert!(commit.tree_id.same(&docs.id));
    let stored = store.get_ref(&RepoPath::parse(b"/docs")).unwrap();
    assert!(stored.ref_commit_hash.same(&refs[0].ref_hash));
    assert!(stored.ref_tree_hash.same(&docs.id));
    assert!(stored.default_branch);
    // the second call finds the ref and makes nothing
    let count = store.get_obj_count();
    let again = h.head_refs(&mut store);
    assert!(again[0].ref_hash.same(&refs[0].ref_hash));
    assert_eq!(store.get_obj_count(), count);
    // what cannot be reached has no ref
    assert!(handler(b"/nothing", None, None).head_refs(&mut store).is_empty());
    assert!(handler(b"/top", None, None).head_refs(&mut store).is_empty());
    assert!(store.get_ref(&RepoPath::parse(b"/nothing")).is_none());
}

fn ids() -> (ObjectId, ObjectId, ObjectId, ObjectId) {
    (
        ObjectId::digest(b"H0"),
        ObjectId::digest(b"H1"),
        ObjectId::digest(b"H2"),
        ObjectId::digest(b"H9"),
    )
}

fn store_with_open_mr() -> (ObjectStore, i64) {
    let (h0, h1, _, _) = ids();
    let mut store = ObjectStore::new();
    let id = store.next_mr_id();
    store.save_mr(MergeRequest::new(id, RepoPath::parse(b"/a"), h0, h1));
    (store, id)
}

#[test]
fn a_fresh_push_opens_a_merge_request() {
    let (h0, h1, _, _) = ids();
    let mut store = ObjectStore::new();
    let entries = vec![blob_entry(b"x"), blob_entry(b"y")];
    let h = handler(b"/a", Some(h0), Some(h1));
    assert!(h.unpack(&mut store, &entries).is_ok());
    let mr = store.get_open_mr(&RepoPath::parse(b"/a")).unwrap();
    assert_eq!(mr.id, 1);
    assert!(mr.from_hash.same(&h0));
    assert!(mr.to_hash.same(&h1));
    assert_eq!(mr.status, MergeStatus::Open);
    assert_eq!(store.get_obj_count(), Some(2));
    assert!(store.get_mr_conversations(mr.id).is_empty());
    assert_eq!(store.get_raw_blob(&entries[0].hash), Some(b"x".to_vec()));
}

#[test]
fn a_repeated_push_does_nothing() {
    let (h0, h1, _, _) = ids();
    let (mut store, id) = store_with_open_mr();
    let h = handler(b"/a", Some(h0), Some(h1));
    assert!(h.unpack(&mut store, &vec![blob_entry(b"x")]).is_ok());
    assert_eq!(store.get_obj_count(), Some(0));
    assert!(store.get_mr_conversations(id).is_empty());
    assert_eq!(store.get_mr_by_id(id).unwrap().status, MergeStatus::Open);
}

#[test]
fn a_push_with_a_new_tip_force_updates() {
    let (h0, h1, h2, _) = ids();
    let (mut store, id) = store_with_open_mr();
    let h = handler(b"/a", Some(h0), Some(h2));
    assert!(h.unpack(&mut store, &vec![blob_entry(b"x")]).is_ok());
    let mr = store.get_mr_by_id(id).unwrap();
    assert!(mr.to_hash.same(&h2));
    assert!(mr.from_hash.same(&h0));
    assert_eq!(mr.status, MergeStatus::Open);
    let conv = store.get_mr_conversations(id);
    assert_eq!(conv.len(), 1);
    assert_eq!(conv[0].kind, ConvType::ForceUpdated);
    let expected = format!(
        "Mega updated the mr automatic from {} to {}",
        &String::from_utf8(h1.to_plain_str()).unwrap()[..6],
        &String::from_utf8(h2.to_plain_str()).unwrap()[..6]
    );
    assert_eq!(conv[0].body, Some(expected.into_bytes()));
    assert_eq!(store.get_obj_count(), Some(1));
}

#[test]
fn a_push_from_another_commit_closes_the_merge_request() {
    let (_, _, h2, h9) = ids();
    let (mut store, id) = store_with_open_mr();
    let h = handler(b"/a", Some(h9), Some(h2));
    assert!(h.unpack(&mut store, &vec![blob_entry(b"x")]).is_ok());
    let mr = store.get_mr_by_id(id).unwrap();
    assert_eq!(mr.status, MergeStatus::Closed);
    let conv = store.get_mr_conversations(id);
    assert_eq!(conv.len(), 1);
    assert_eq!(conv[0].kind, ConvType::Closed);
    assert_eq!(conv[0].body, Some(b"closed due to conflict".to_vec()));
    assert_eq!(store.get_obj_count(), Some(0));
    assert!(store.get_open_mr(&RepoPath::parse(b"/a")).is_none());
}

#[test]
fn a_push_with_two_commits_closes_the_merge_request() {
    let (h0, _, h2, _) = ids();
    let (mut store, id) = store_with_open_mr();
    let tree = Tree::from_tree_items(Vec::new());
    let c1 = Commit::from_tree_id(tree.id, Vec::new(), b"one");
    let c2 = Commit::from_tree_id(tree.id, vec![c1.id], b"two");
    let entries = vec![commit_entry(&c1), tree_entry(&tree), commit_entry(&c2)];
    let h = handler(b"/a", Some(h0), Some(h2));
    assert!(h.unpack(&mut store, &entries).is_ok());
    let mr = store.get_mr_by_id(id).unwrap();
    assert_eq!(mr.status, MergeStatus::Closed);
    assert!(mr.to_hash.same(&h2));
    let conv = store.get_mr_conversations(id);
    assert_eq!(conv.len(), 2);
    assert_eq!(conv[0].kind, ConvType::ForceUpdated);
    assert_eq!(conv[1].kind, ConvType::Closed);
    assert_eq!(conv[1].body, Some(b"closed due to multi commit detected".to_vec()));
    // the entries are in the store all the same
    assert_eq!(store.get_obj_count(), Some(3));
    assert!(store.has_commit(&c1.id));
    assert!(store.has_commit(&c2.id));
    // a later push on the path opens a new merge request
    let h = handler(b"/a", Some(h0), Some(h2));
    assert!(h.unpack(&mut store, &Vec::new()).is_ok());
    let fresh = store.get_open_mr(&RepoPath::parse(b"/a")).unwrap();
    assert_eq!(fresh.id, 2);
}

#[test]
fn a_fresh_push_with_two_commits_is_closed_too() {
    let (h0, h1, _, _) = ids();
    let mut store = ObjectStore::new();
    let tree = Tree::from_tree_items(Vec::new());
    let c1 = Commit::from_tree_id(tree.id, Vec::new(), b"one");
    let c2 = Commit::from_tree_id(tree.id, vec![c1.id], b"two");
    let h = handler(b"/a", Some(h0), Some(h1));
    assert!(h.unpack(&mut store, &vec![commit_entry(&c1), commit_entry(&c2)]).is_ok());
    let mr = store.get_mr_by_id(1).unwrap();
    assert_eq!(mr.status, MergeStatus::Closed);
    let conv = store.get_mr_conversations(1);
    assert_eq!(conv.len(), 1);
    assert_eq!(conv[0].body, Some(b"closed due to multi commit detected".to_vec()));
}

#[test]
fn the_classification_table() {
    assert_eq!(classify(false, false, false), PushAction::Fresh);
    assert_eq!(classify(false, false, true), PushAction::Fresh);
    assert_eq!(classify(false, true, false), PushAction::Fresh);
    assert_eq!(classify(false, true, true), PushAction::Fresh);
    assert_eq!(classify(true, true, true), PushAction::NoOp);
    assert_eq!(classify(true, true, false), PushAction::ForceUpdate);
    assert_eq!(classify(true, false, true), PushAction::Conflict);
    assert_eq!(classify(true, false, false), PushAction::Conflict);
}

/// A store with the root tree `x/{y/{z/{f}, g}, w}` and `other/{h}`.
fn nested() -> (ObjectStore, Tree, Tree, Tree, Tree, Tree) {
    let z = Tree::from_tree_items(vec![file(b"f", b"f")]);
    let y = Tree::from_tree_items(vec![dir(b"z", &z), file(b"g", b"g")]);
    let x = Tree::from_tree_items(vec![file(b"w", b"w"), dir(b"y", &y)]);
    let other = Tree::from_tree_items(vec![file(b"h", b"h")]);
    let root = Tree::from_tree_items(vec![dir(b"other", &other), dir(b"x", &x)]);
    let store = store_with(&root, &[&x, &y, &z, &other]);
    (store, root, x, y, z, other)
}

#[test]
fn merging_rewrites_the_trees_above_and_removes_stale_refs() {
    let (mut store, _root, _x, y, _z, other) = nested();
    // clients clone /x/y, /x/y/z, /x and /other: each path gets a ref
    let h_y = handler(b"/x/y", None, None).head_refs(&mut store);
    handler(b"/x/y/z", None, None).head_refs(&mut store);
    handler(b"/x", None, None).head_refs(&mut store);
    let h_other = handler(b"/other", None, None).head_refs(&mut store);
    let r0 = store.get_ref(&RepoPath::root()).unwrap();
    // a push on /x/y
    let new_y = Tree::from_tree_items(vec![file(b"g", b"changed"), file(b"new", b"n")]);
    let pushed = Commit::new(
        b"A <a@a> 1 +0000".to_vec(),
        b"C <c@c> 2 +0000".to_vec(),
        new_y.id,
        vec![h_y[0].ref_hash],
        b"\nchange y\n".to_vec(),
    );
    let entries = vec![commit_entry(&pushed), tree_entry(&new_y), blob_entry(b"changed"), blob_entry(b"n")];
    let push = handler(b"/x/y", Some(h_y[0].ref_hash), Some(pushed.id));
    assert!(push.unpack(&mut store, &entries).is_ok());
    let mr = store.get_open_mr(&RepoPath::parse(b"/x/y")).unwrap();
    // the merge
    let mut service = MonorepoService { storage: store };
    let op = MergeOperation { mr_id: mr.id, comment: Some(b"looks good".to_vec()) };
    assert_eq!(service.merge_mr(op), Ok(()));
    let store = service.storage;
    let r1 = store.get_ref(&RepoPath::root()).unwrap();
    assert!(!r1.ref_commit_hash.same(&r0.ref_commit_hash));
    // the new root commit
    let root_commit = store.get_commit(&r1.ref_commit_hash).unwrap();
    assert!(root_commit.tree_id.same(&r1.ref_tree_hash));
    assert_eq!(root_commit.parent_ids.len(), 1);
    assert!(root_commit.parent_ids[0].same(&r0.ref_commit_hash));
    assert_eq!(root_commit.author, pushed.author);
    assert_eq!(root_commit.committer, pushed.committer);
    assert_eq!(root_commit.message, pushed.message);
    // the tree at /x/y is the pushed tree, and /other is what it was
    let found = search_tree_by_path(&store, &RepoPath::parse(b"/x/y")).unwrap();
    assert!(found.target.id.same(&new_y.id));
    assert_eq!(found.ancestors.len(), 2);
    assert!(found.ancestors[0].id.same(&r1.ref_tree_hash));
    let found = search_tree_by_path(&store, &RepoPath::parse(b"/other")).unwrap();
    assert!(found.target.id.same(&other.id));
    // the old /x/y is gone from the new root, and its file w is still in /x
    let x_now = search_tree_by_path(&store, &RepoPath::parse(b"/x")).unwrap().target;
    assert_eq!(x_now.tree_items.len(), 2);
    assert_eq!(x_now.tree_items[0].name, b"w".to_vec());
    assert!(x_now.tree_items[1].id.same(&new_y.id));
    assert!(!x_now.tree_items[1].id.same(&y.id));
    // the rewritten trees are noted as brought by the new root commit
    assert!(store.get_tree_commit(&x_now.id).unwrap().same(&r1.ref_commit_hash));
    assert!(store.get_tree_commit(&r1.ref_tree_hash).unwrap().same(&r1.ref_commit_hash));
    // stale refs are gone, the others stay
    assert!(store.get_ref(&RepoPath::parse(b"/x/y")).is_none());
    assert!(store.get_ref(&RepoPath::parse(b"/x/y/z")).is_none());
    assert!(store.get_ref(&RepoPath::parse(b"/x")).is_none());
    let kept = store.get_ref(&RepoPath::parse(b"/other")).unwrap();
    assert!(kept.ref_commit_hash.same(&h_other[0].ref_hash));
    // the merge request is merged, with the comment
    let merged = store.get_mr_by_id(mr.id).unwrap();
    assert_eq!(merged.status, MergeStatus::Merged);
    let conv = store.get_mr_conversations(mr.id);
    assert_eq!(conv.len(), 1);
    assert_eq!(conv[0].kind, ConvType::Merged);
    assert_eq!(conv[0].body, Some(b"looks good".to_vec()));
    assert!(store.get_open_mr(&RepoPath::parse(b"/x/y")).is_none());
}

#[test]
fn merges_on_two_paths_in_either_order_give_one_root_tree() {
    let mut roots = Vec::new();
    for order in [[0usize, 1], [1, 0]] {
        let (mut store, ..) = nested();
        let paths: [&[u8]; 2] = [b"/x/y", b"/other"];
        let mut mrs = Vec::new();
        let mut trees = Vec::new();
        for (i, p) in paths.iter().enumerate() {
            let head = handler(p, None, None).head_refs(&mut store);
            let t = Tree::from_tree_items(vec![file(b"pushed", &[i as u8])]);
            let c = Commit::from_tree_id(t.id, vec![head[0].ref_hash], b"push");
            let push = handler(p, Some(head[0].ref_hash), Some(c.id));
            assert!(push.unpack(&mut store, &vec![commit_entry(&c), tree_entry(&t)]).is_ok());
            mrs.push(store.get_open_mr(&RepoPath::parse(p)).unwrap().id);
            trees.push(t);
        }
        let mut service = MonorepoService { storage: store };
        for i in order {
            assert_eq!(service.merge_mr(MergeOperation { mr_id: mrs[i], comment: None }), Ok(()));
        }
        let store = service.storage;
        for (i, p) in paths.iter().enumerate() {
            let found = search_tree_by_path(&store, &RepoPath::parse(p)).unwrap();
            assert!(found.target.id.same(&trees[i].id));
            assert!(store.get_ref(&RepoPath::parse(p)).is_none());
        }
        roots.push(store.get_ref(&RepoPath::root()).unwrap().ref_tree_hash);
    }
    assert!(roots[0].same(&roots[1]));
}

#[test]
fn merge_failures_leave_the_store_as_it_was() {
    let (mut store, ..) = nested();
    let head = handler(b"/x/y", None, None).head_refs(&mut store);
    let t = Tree::from_tree_items(Vec::new());
    let c = Commit::from_tree_id(t.id, vec![head[0].ref_hash], b"push");
    // no such merge request
    let mut service = MonorepoService { storage: store };
    assert_eq!(
        service.merge_mr(MergeOperation { mr_id: 7, comment: None }),
        Err(MonoError::MRNotFound)
    );
    // the commit that was pushed is not in the store
    let mut store = service.storage;
    let push = handler(b"/x/y", Some(head[0].ref_hash), Some(c.id));
    assert!(push.unpack(&mut store, &Vec::new()).is_ok());
    let id = store.get_open_mr(&RepoPath::parse(b"/x/y")).unwrap().id;
    let mut service = MonorepoService { storage: store };
    assert_eq!(
        service.merge_mr(MergeOperation { mr_id: id, comment: None }),
        Err(MonoError::StorageError)
    );
    assert_eq!(service.storage.get_mr_by_id(id).unwrap().status, MergeStatus::Open);
    // opened against another commit than the ref of the path points at
    let mut store = service.storage;
    store.save_commit(&c);
    store.save_ref(&RepoPath::parse(b"/x/y"), c.id, t.id);
    let mut service = MonorepoService { storage: store };
    let root_before = service.storage.get_ref(&RepoPath::root()).unwrap();
    assert_eq!(
        service.merge_mr(MergeOperation { mr_id: id, comment: None }),
        Err(MonoError::RefHashConflict)
    );
    let root_after = service.storage.get_ref(&RepoPath::root()).unwrap();
    assert!(root_after.ref_commit_hash.same(&root_before.ref_commit_hash));
    assert!(service.storage.get_mr_conversations(id).is_empty());
    // a merge request that is closed
    let mut store = service.storage;
    let mut mr = store.get_mr_by_id(id).unwrap();
    assert_eq!(mr.close(), Ok(()));
    assert_eq!(mr.close(), Err(MonoError::MRNotOpen));
    store.update_mr(mr);
    let mut service = MonorepoService { storage: store };
    assert_eq!(
        service.merge_mr(MergeOperation { mr_id: id, comment: None }),
        Err(MonoError::MRNotOpen)
    );
}

#[test]
fn a_path_without_a_ref_cannot_be_merged() {
    let (mut store, ..) = nested();
    let t = Tree::from_tree_items(Vec::new());
    let c = Commit::from_tree_id(t.id, Vec::new(), b"push");
    let push = handler(b"/x/y", Some(ObjectId::zero()), Some(c.id));
    assert!(push.unpack(&mut store, &vec![commit_entry(&c)]).is_ok());
    let mut service = MonorepoService { storage: store };
    assert_eq!(
        service.merge_mr(MergeOperation { mr_id: 1, comment: None }),
        Err(MonoError::RefHashConflict)
    );
}

#[test]
fn the_resolver_reports_what_is_missing() {
    let (store, root, x, y, ..) = nested();
    let found = search_tree_by_path(&store, &RepoPath::root()).unwrap();
    assert!(found.ancestors.is_empty());
    assert!(found.target.id.same(&root.id));
    let found = search_tree_by_path(&store, &RepoPath::parse(b"/x/y")).unwrap();
    assert_eq!(found.ancestors.len(), 2);
    assert!(found.ancestors[0].id.same(&root.id));
    assert!(found.ancestors[1].id.same(&x.id));
    assert!(found.target.id.same(&y.id));
    assert_eq!(
        search_tree_by_path(&store, &RepoPath::parse(b"/x/nothing")).err(),
        Some(MonoError::PathNotFound)
    );
    assert_eq!(
        search_tree_by_path(&store, &RepoPath::parse(b"/x/w")).err(),
        Some(MonoError::PathNotDirectory)
    );
    assert_eq!(
        search_tree_by_path(&store, &RepoPath::parse(b"/X")).err(),
        Some(MonoError::PathNotFound)
    );
    assert_eq!(
        search_tree_by_path(&ObjectStore::new(), &RepoPath::root()).err(),
        Some(MonoError::PathNotFound)
    );
}

#[test]
fn a_merge_on_the_root_replaces_the_root_tree() {
    let (mut store, ..) = nested();
    let head = handler(b"/", None, None).head_refs(&mut store);
    handler(b"/x", None, None).head_refs(&mut store);
    let t = Tree::from_tree_items(vec![file(b"only", b"o")]);
    let c = Commit::from_tree_id(t.id, vec![head[0].ref_hash], b"push");
    let push = handler(b"/", Some(head[0].ref_hash), Some(c.id));
    assert!(push.unpack(&mut store, &vec![commit_entry(&c), tree_entry(&t)]).is_ok());
    let mut service = MonorepoService { storage: store };
    assert_eq!(service.merge_mr(MergeOperation { mr_id: 1, comment: None }), Ok(()));
    let root = service.storage.get_ref(&RepoPath::root()).unwrap();
    assert!(root.ref_tree_hash.same(&t.id));
    let rc = service.storage.get_commit(&root.ref_commit_hash).unwrap();
    assert!(rc.parent_ids[0].same(&head[0].ref_hash));
    assert!(rc.tree_id.same(&t.id));
    assert!(service.storage.get_ref(&RepoPath::parse(b"/x")).is_none());
    let conv = service.storage.get_mr_conversations(1);
    assert_eq!(conv.len(), 1);
    assert_eq!(conv[0].body, None);
    // merged once, it cannot be merged again
    assert_eq!(
        service.merge_mr(MergeOperation { mr_id: 1, comment: None }),
        Err(MonoError::MRNotOpen)
    );
}

#[test]
fn a_merge_is_refused_where_the_store_holds_other_bytes_under_a_new_identifier() {
    for forged in [true, false] {
        let (mut store, _root, x, ..) = nested();
        let head = handler(b"/other", None, None).head_refs(&mut store);
        let t = Tree::from_tree_items(vec![file(b"pushed", b"p")]);
        let c = Commit::from_tree_id(t.id, vec![head[0].ref_hash], b"push");
        let push = handler(b"/other", Some(head[0].ref_hash), Some(c.id));
        assert!(push.unpack(&mut store, &vec![commit_entry(&c), tree_entry(&t)]).is_ok());
        // the root tree that the merge will write
        let new_root = Tree::from_tree_items(vec![dir(b"other", &t), dir(b"x", &x)]);
        let data = if forged { b"junk".to_vec() } else { new_root.to_data() };
        store.save_entry(&Entry { obj_type: ObjectType::Tree, hash: new_root.id, data });
        let before = store.get_ref(&RepoPath::root()).unwrap();
        let count = store.get_obj_count();
        let mut service = MonorepoService { storage: store };
        let result = service.merge_mr(MergeOperation { mr_id: 1, comment: None });
        let after = service.storage.get_ref(&RepoPath::root()).unwrap();
        if forged {
            assert_eq!(result, Err(MonoError::StorageError));
            assert!(after.ref_commit_hash.same(&before.ref_commit_hash));
            assert_eq!(service.storage.get_obj_count(), count);
            assert_eq!(service.storage.get_mr_by_id(1).unwrap().status, MergeStatus::Open);
            assert!(service.storage.get_ref(&RepoPath::parse(b"/other")).is_some());
            assert!(service.storage.get_mr_conversations(1).is_empty());
        } else {
            assert_eq!(result, Ok(()));
            assert!(after.ref_tree_hash.same(&new_root.id));
            let found = search_tree_by_path(&service.storage, &RepoPath::parse(b"/other")).unwrap();
            assert!(found.target.id.same(&t.id));
        }
    }
}
