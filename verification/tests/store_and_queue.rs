use monopack::commit::Commit;
use monopack::errors::MonoError;
use monopack::hash::ObjectId;
use monopack::monorepo::{FullPack, MonoRepo, RefCommand, BATCH_SIZE};
use monopack::mr::{ConvType, MergeRequest, MergeStatus};
use monopack::object::{Entry, ObjectType};
use monopack::path::RepoPath;
use monopack::queue::{get_mq, init_mq, initial_sequence, EventType, MessageQueue, QueueCell};
use monopack::store::{ObjectStore, RefRecord};
use monopack::switch::{check_clean, get_commit_base, single_match, SwitchArgs, SwitchError, SwitchPlan};
use monopack::tree::{Tree, TreeItem, TreeItemMode};

fn kinds_and_ids(entries: &[Entry]) -> Vec<(ObjectType, [u8; 20])> {
    let mut v: Vec<(u8, ObjectType, [u8; 20])> = entries
        .iter()
        .map(|e| {
            let k = match e.obj_type {
                ObjectType::Commit => 0,
                ObjectType::Tree => 1,
                ObjectType::Blob => 2,
                ObjectType::Tag => 3,
            };
            (k, e.obj_type, e.hash.bytes)
        })
        .collect();
    v.sort_by(|a, b| (a.0, a.2).cmp(&(b.0, b.2)));
    v.into_iter().map(|(_, k, id)| (k, id)).collect()
}

fn sample_entries(n: usize) -> Vec<Entry> {
    let mut v = Vec::new();
    for i in 0..n {
        let content = format!("content {}", i).into_bytes();
        let kind = match i % 4 {
            0 => ObjectType::Blob,
            1 => ObjectType::Tag,
            2 => ObjectType::Blob,
            _ => ObjectType::Tag,
        };
        v.push(Entry::new(kind, content));
    }
    let tree = Tree::from_tree_items(Vec::new());
    let c = Commit::from_tree_id(tree.id, Vec::new(), b"c");
    v.push(Entry { obj_type: ObjectType::Tree, hash: tree.id, data: tree.to_data() });
    v.push(Entry { obj_type: ObjectType::Commit, hash: c.id, data: c.to_data() });
    // the same blob twice: the second is dropped
    v.push(Entry::new(ObjectType::Blob, b"content 0".to_vec()));
    v
}

fn handler() -> MonoRepo {
    MonoRepo { path: RepoPath::parse(b"/a"), from_hash: None, to_hash: None }
}

#[test]
fn batch_boundaries_cannot_be_observed() {
    let entries = sample_entries(2500);
    let mut packs = Vec::new();
    assert_eq!(BATCH_SIZE, 1000);
    for size in [0usize, 1, 7, BATCH_SIZE, 2503, 5000] {
        let mut store = ObjectStore::new();
        let commits = handler().save_entry_in_batches(&mut store, &entries, size);
        assert_eq!(commits, 1);
        let pack = handler().full_pack(&store).unwrap();
        assert_eq!(pack.object_count, 2502);
        assert_eq!(pack.entries.len(), 2502);
        packs.push(pack.entries);
    }
    let mut store = ObjectStore::new();
    assert_eq!(handler().save_entry(&mut store, &entries), 1);
    packs.push(handler().full_pack(&store).unwrap().entries);
    for p in &packs[1..] {
        assert_eq!(p.len(), packs[0].len());
        for (a, b) in p.iter().zip(packs[0].iter()) {
            assert_eq!(a.obj_type, b.obj_type);
            assert!(a.hash.same(&b.hash));
            assert_eq!(a.data, b.data);
        }
    }
}

#[test]
fn a_full_pack_lists_commits_then_trees_then_blobs_then_tags() {
    let mut store = ObjectStore::new();
    handler().save_entry(&mut store, &sample_entries(6));
    let pack = handler().full_pack(&store).unwrap();
    let kinds: Vec<ObjectType> = pack.entries.iter().map(|e| e.obj_type).collect();
    assert_eq!(
        kinds,
        vec![
            ObjectType::Commit,
            ObjectType::Tree,
            ObjectType::Blob,
            ObjectType::Blob,
            ObjectType::Blob,
            ObjectType::Tag,
            ObjectType::Tag,
            ObjectType::Tag
        ]
    );
    assert_eq!(pack.entries[2].data, b"content 0".to_vec());
    assert_eq!(pack.entries[3].data, b"content 2".to_vec());
    assert_eq!(pack.object_count, 8);
    let empty = handler().full_pack(&ObjectStore::new()).unwrap();
    assert_eq!(empty.object_count, 0);
    assert!(empty.entries.is_empty());
}

#[test]
fn a_full_pack_survives_a_round_trip() {
    let mut store = ObjectStore::new();
    handler().save_entry(&mut store, &sample_entries(40));
    let first = handler().full_pack(&store).unwrap();
    let mut fresh = ObjectStore::new();
    assert!(handler().save_entry(&mut fresh, &first.entries) == 1);
    let second = handler().full_pack(&fresh).unwrap();
    assert_eq!(first.object_count, second.object_count);
    assert_eq!(kinds_and_ids(&first.entries), kinds_and_ids(&second.entries));
}

#[test]
fn refs_are_saved_updated_and_removed() {
    let mut store = ObjectStore::new();
    let a = ObjectId::digest(b"a");
    let b = ObjectId::digest(b"b");
    for p in [&b"/"[..], b"/x", b"/x/y", b"/x/y/z", b"/xy", b"/w"] {
        store.save_ref(&RepoPath::parse(p), a, b);
    }
    let r = store.get_ref(&RepoPath::parse(b"/x/y")).unwrap();
    assert_eq!(r.ref_name, b"refs/heads/main".to_vec());
    assert!(r.default_branch);
    assert!(r.ref_commit_hash.same(&a));
    assert!(r.ref_tree_hash.same(&b));
    // saving again replaces
    store.save_ref(&RepoPath::parse(b"/w"), b, a);
    assert!(store.get_ref(&RepoPath::parse(b"/w")).unwrap().ref_commit_hash.same(&b));
    // update of a ref that is there, and of one that is not
    let moved = RefRecord {
        path: RepoPath::parse(b"/xy"),
        ref_name: b"refs/heads/other".to_vec(),
        ref_commit_hash: b,
        ref_tree_hash: b,
        default_branch: false,
    };
    store.update_ref(moved);
    let got = store.get_ref(&RepoPath::parse(b"/xy")).unwrap();
    assert_eq!(got.ref_name, b"refs/heads/other".to_vec());
    assert!(!got.default_branch);
    let absent = RefRecord {
        path: RepoPath::parse(b"/absent"),
        ref_name: Vec::new(),
        ref_commit_hash: b,
        ref_tree_hash: b,
        default_branch: false,
    };
    store.update_ref(absent);
    assert!(store.get_ref(&RepoPath::parse(b"/absent")).is_none());
    // removal by prefix keeps the root and what only looks alike
    store.remove_refs_with_prefix(&RepoPath::parse(b"/x/y"));
    assert!(store.get_ref(&RepoPath::parse(b"/x/y")).is_none());
    assert!(store.get_ref(&RepoPath::parse(b"/x/y/z")).is_none());
    assert!(store.get_ref(&RepoPath::parse(b"/x")).is_some());
    assert!(store.get_ref(&RepoPath::parse(b"/xy")).is_some());
    store.remove_refs_above(&RepoPath::parse(b"/x/y"));
    assert!(store.get_ref(&RepoPath::parse(b"/x")).is_none());
    assert!(store.get_ref(&RepoPath::root()).is_some());
    store.remove_ref(&RepoPath::parse(b"/w"));
    assert!(store.get_ref(&RepoPath::parse(b"/w")).is_none());
    store.remove_refs_with_prefix(&RepoPath::root());
    assert!(store.get_ref(&RepoPath::parse(b"/xy")).is_none());
    assert!(store.get_ref(&RepoPath::root()).is_some());
}

#[test]
fn objects_are_kept_under_their_first_content() {
    let mut store = ObjectStore::new();
    let id = ObjectId::digest(b"id");
    let first = Entry { obj_type: ObjectType::Blob, hash: id, data: b"first".to_vec() };
    let second = Entry { obj_type: ObjectType::Blob, hash: id, data: b"second".to_vec() };
    store.save_entry(&first);
    store.save_entry(&second);
    assert_eq!(store.get_raw_blob(&id), Some(b"first".to_vec()));
    assert_eq!(store.get_blob_meta(&id).unwrap().size, 5);
    assert!(store.get_blob_meta(&ObjectId::zero()).is_none());
    assert_eq!(store.get_obj_count(), Some(1));
    // the same identifier in another table is another object
    let tag = Entry { obj_type: ObjectType::Tag, hash: id, data: b"tag".to_vec() };
    store.batch_save_entries(&[tag]);
    assert_eq!(store.get_obj_count(), Some(2));
    assert_eq!(store.get_tags_by_repo().len(), 1);
    assert!(store.get_commits_by_repo().is_empty());
    assert!(store.get_trees_by_repo().is_empty());
    assert_eq!(store.get_blobs_by_repo().len(), 1);
    // bytes that are no tree or no commit are not read as one
    let junk = Entry { obj_type: ObjectType::Tree, hash: id, data: b"junk".to_vec() };
    let junk_commit = Entry { obj_type: ObjectType::Commit, hash: id, data: b"junk".to_vec() };
    store.save_entry(&junk);
    store.save_entry(&junk_commit);
    assert!(store.get_tree(&id).is_none());
    assert!(store.get_commit(&id).is_none());
    assert!(!store.has_commit(&id));
    assert!(store.get_tree_commit(&id).is_none());
}

#[test]
fn merge_requests_move_through_their_states() {
    let mut store = ObjectStore::new();
    let a = ObjectId::digest(b"a");
    let b = ObjectId::digest(b"b");
    let c = ObjectId::digest(b"c");
    assert_eq!(store.next_mr_id(), 1);
    let mut mr = MergeRequest::new(1, RepoPath::parse(b"/p"), a, b);
    store.save_mr(mr.copy());
    assert_eq!(store.next_mr_id(), 2);
    assert!(store.get_open_mr(&RepoPath::parse(b"/p")).is_some());
    assert!(store.get_open_mr(&RepoPath::parse(b"/q")).is_none());
    assert!(store.get_open_mr_by_id(1).is_some());
    assert!(store.get_open_mr_by_id(2).is_none());
    assert_eq!(mr.force_update(c), Ok(()));
    assert!(mr.to_hash.same(&c));
    assert_eq!(mr.status, MergeStatus::Open);
    assert_eq!(mr.merge(&b), Err(MonoError::RefHashConflict));
    assert_eq!(mr.status, MergeStatus::Open);
    assert_eq!(mr.merge(&a), Ok(()));
    assert_eq!(mr.status, MergeStatus::Merged);
    assert_eq!(mr.merge(&a), Err(MonoError::MRNotOpen));
    assert_eq!(mr.close(), Err(MonoError::MRNotOpen));
    assert_eq!(mr.force_update(a), Err(MonoError::MRNotOpen));
    assert!(mr.to_hash.same(&c));
    store.update_mr(mr);
    assert!(store.get_open_mr(&RepoPath::parse(b"/p")).is_none());
    assert!(store.get_open_mr_by_id(1).is_none());
    assert_eq!(store.get_mr_by_id(1).unwrap().status, MergeStatus::Merged);
    store.add_mr_conversation(1, 5, ConvType::Comment, Some(b"one".to_vec()));
    store.add_mr_conversation(2, 5, ConvType::Comment, None);
    store.add_mr_conversation(1, 6, ConvType::Merged, None);
    let conv = store.get_mr_conversations(1);
    assert_eq!(conv.len(), 2);
    assert_eq!(conv[0].body, Some(b"one".to_vec()));
    assert_eq!(conv[0].author_id, 5);
    assert_eq!(conv[1].kind, ConvType::Merged);
    // an update of a merge request that is not there changes nothing
    store.update_mr(MergeRequest::new(9, RepoPath::parse(b"/z"), a, b));
    assert!(store.get_mr_by_id(9).is_none());
}

#[test]
fn ref_updates_by_clients_are_accepted_and_ignored() {
    let h = handler();
    let cmd = RefCommand {
        ref_name: b"refs/heads/main".to_vec(),
        old_id: ObjectId::zero(),
        new_id: ObjectId::digest(b"n"),
    };
    assert_eq!(h.update_refs(&cmd), Ok(()));
}

#[test]
fn get_mr_makes_a_new_merge_request_where_none_is_open() {
    let mut store = ObjectStore::new();
    let a = ObjectId::digest(b"a");
    let b = ObjectId::digest(b"b");
    let h = MonoRepo { path: RepoPath::parse(b"/a"), from_hash: Some(a), to_hash: Some(b) };
    let (mr, found) = h.get_mr(&store);
    assert!(!found);
    assert_eq!(mr.id, 1);
    assert!(mr.from_hash.same(&a) && mr.to_hash.same(&b));
    assert_eq!(mr.status, MergeStatus::Open);
    store.save_mr(mr);
    let (mr, found) = h.get_mr(&store);
    assert!(found);
    assert_eq!(mr.id, 1);
    let text = h.comment_for_force_update(&a, &b);
    assert_eq!(text.len(), "Mega updated the mr automatic from ".len() + 6 + 4 + 6);
}

#[test]
fn messages_are_numbered_in_the_order_of_sending() {
    assert_eq!(initial_sequence(None), 1);
    assert_eq!(initial_sequence(Some(41)), 42);
    assert_eq!(initial_sequence(Some(-1)), 0);
    let mut mq = MessageQueue::new(12, 5);
    assert_eq!(mq.worker_count(), 12);
    assert_eq!(mq.next_sequence(), 5);
    assert_eq!(mq.send(EventType::Notification(b"a".to_vec())), 5);
    assert_eq!(mq.send(EventType::Indexing(b"b".to_vec())), 6);
    assert_eq!(mq.next_sequence(), 7);
    let first = mq.receive().unwrap();
    assert_eq!(first.id, 5);
    assert!(first.create_time > 0);
    assert!(matches!(first.evt, EventType::Notification(ref p) if p == b"a"));
    let second = mq.receive().unwrap();
    assert_eq!(second.id, 6);
    assert!(second.create_time >= first.create_time);
    assert!(mq.receive().is_none());
    let mut last = MessageQueue::new(1, i64::MAX);
    assert_eq!(last.send(EventType::Indexing(Vec::new())), i64::MAX);
    assert_eq!(last.next_sequence(), i64::MIN);
}

#[test]
fn the_queue_is_set_up_once() {
    let mut cell = QueueCell::new();
    assert!(!cell.is_initialized());
    assert!(get_mq(&cell).is_none());
    assert_eq!(cell.send(EventType::Indexing(Vec::new())), None);
    init_mq(&mut cell, Some(9));
    assert!(cell.is_initialized());
    assert_eq!(get_mq(&cell).unwrap().next_sequence(), 10);
    assert_eq!(get_mq(&cell).unwrap().worker_count(), 12);
    assert_eq!(cell.send(EventType::Indexing(Vec::new())), Some(10));
    assert_eq!(get_mq(&cell).unwrap().next_sequence(), 11);
    assert_eq!(get_mq(&cell).unwrap().receive().unwrap().id, 10);
    let mut fresh = QueueCell::new();
    init_mq(&mut fresh, None);
    assert_eq!(fresh.send(EventType::Notification(Vec::new())), Some(1));
}

#[test]
fn switch_arguments_decide_the_plan() {
    let args = SwitchArgs {
        branch: Some("main".to_string()),
        create: Some("new".to_string()),
        create_base: Some("base".to_string()),
        detach: true,
    };
    assert!(matches!(args.plan(), SwitchPlan::Create { name, base } if name == "new" && base == Some("base".to_string())));
    let args = SwitchArgs { branch: Some("abc".to_string()), create: None, create_base: None, detach: true };
    assert!(matches!(args.plan(), SwitchPlan::Detach { commit_base } if commit_base == "abc"));
    let args = SwitchArgs { branch: Some("main".to_string()), create: None, create_base: None, detach: false };
    assert!(matches!(args.plan(), SwitchPlan::Branch { name } if name == "main"));
    assert_eq!(check_clean(0, 0, 0), Ok(()));
    assert_eq!(check_clean(1, 0, 0), Err(SwitchError::UncommittedChanges));
    assert_eq!(check_clean(0, 2, 3), Err(SwitchError::UncommittedChanges));
    assert_eq!(check_clean(0, 0, 3), Err(SwitchError::UnstagedChanges));
    let a = ObjectId::digest(b"a");
    assert_eq!(single_match(&Vec::new()).err(), Some(SwitchError::InvalidReference));
    assert_eq!(single_match(&vec![a, a]).err(), Some(SwitchError::AmbiguousArgument));
    assert!(single_match(&vec![a]).unwrap().same(&a));
    assert!(get_commit_base(a, false).unwrap().same(&a));
    assert_eq!(get_commit_base(a, true).err(), Some(SwitchError::NotACommit));
}

#[test]
fn trees_and_commits_are_stored_in_lists() {
    let mut store = ObjectStore::new();
    let empty = Tree::from_tree_items(Vec::new());
    let one = Tree::from_tree_items(vec![TreeItem::new(TreeItemMode::Tree, empty.id, b"e".to_vec())]);
    store.save_trees(&vec![empty.copy(), one.copy(), empty.copy()], None);
    assert_eq!(store.get_trees_by_repo().len(), 2);
    let missing = ObjectId::digest(b"missing");
    let found = store.get_trees(&vec![one.id, missing, empty.id, one.id]);
    assert_eq!(found.len(), 3);
    assert!(found[0].id.same(&one.id));
    assert!(found[1].id.same(&empty.id));
    assert!(found[2].id.same(&one.id));
    assert_eq!(found[0].tree_items.len(), 1);
    let c1 = Commit::from_tree_id(empty.id, Vec::new(), b"one");
    let c2 = Commit::from_tree_id(one.id, vec![c1.id], b"two");
    store.save_commits(&vec![c1.copy(), c2.copy(), c1.copy()]);
    assert_eq!(store.get_commits_by_repo().len(), 2);
    assert!(store.get_commit(&c2.id).unwrap().parent_ids[0].same(&c1.id));
    assert!(store.can_take(&vec![one.copy(), empty.copy()]));
    let named = Tree::from_tree_items(vec![TreeItem::new(TreeItemMode::Blob, empty.id, b"a\0b".to_vec())]);
    assert!(!named.is_well_formed());
    assert!(!store.can_take(&vec![named]));
    let forged = Tree { id: one.id, tree_items: Vec::new() };
    assert!(!store.can_take(&vec![forged]));
    let fresh = Tree::from_tree_items(vec![TreeItem::new(TreeItemMode::Blob, empty.id, b"f".to_vec())]);
    let twin = Tree { id: fresh.id, tree_items: Vec::new() };
    assert!(store.can_take(&vec![fresh.copy(), fresh.copy()]));
    assert!(!store.can_take(&vec![fresh, twin]));
    let pack = handler().full_pack(&store).unwrap();
    assert_eq!(pack.validate(), Ok(()));
    let short = FullPack { object_count: 5, entries: pack.entries };
    assert_eq!(short.validate(), Err(MonoError::PackMismatch));
}

#[test]
fn the_root_keeps_its_ref() {
    let mut store = ObjectStore::new();
    let a = ObjectId::digest(b"a");
    store.save_ref(&RepoPath::root(), a, a);
    store.save_ref(&RepoPath::parse(b"/x"), a, a);
    store.remove_ref(&RepoPath::root());
    store.remove_refs_above(&RepoPath::root());
    store.remove_refs_with_prefix(&RepoPath::root());
    assert!(store.get_ref(&RepoPath::root()).is_some());
    assert!(store.get_ref(&RepoPath::parse(b"/x")).is_none());
}
