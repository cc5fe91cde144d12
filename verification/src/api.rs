//! What the service answers about trees, blobs and commits, and how a
//! file is added through it.

use vstd::prelude::*;
use vstd::string::*;
use crate::byteseq;
use crate::commit::{commit_id_of, system_signature, Commit, CommitView};
use crate::engine::trees_items;
use crate::errors::MonoError;
use crate::hash::ObjectId;
use crate::monorepo::{after_head_hash, MonoRepo};
use crate::object::{object_id_of, Entry, ObjectType};
use crate::path::{path_bytes, path_of, RepoPath};
use crate::resolver::{resolve, search_tree_by_path, tree_ids};
use crate::service::{chain_items, update_error, updated, MonorepoService};
use crate::store::{find_row, insert_row, tree_row, RowView, StoreView};
use crate::tree::{
    items_view, lemma_put_item, put_item, put_item_into, tree_id_of, unique_names, Tree, TreeItem, TreeItemMode,
    TreeItemView, TreeView,
};

verus! {

/// The content of a blob.
#[derive(Debug)]
pub struct BlobObjects {
    pub plain_text: Vec<u8>,
}

/// Whether an entry of a tree is a directory or a file.
#[derive(Clone, Copy, Debug, PartialEq, Eq, Structural)]
pub enum ContentType {
    File,
    Directory,
}

/// What an entry of a tree is shown as: a tree as a directory, anything
/// else as a file.
pub open spec fn content_type_of(mode: TreeItemMode) -> ContentType {
    if mode == TreeItemMode::Tree {
        ContentType::Directory
    } else {
        ContentType::File
    }
}

/// One entry of a tree, with its written path.
#[derive(Debug)]
pub struct TreeBriefItem {
    pub name: Vec<u8>,
    pub path: Vec<u8>,
    pub content_type: ContentType,
}

/// The mathematical value of a shown entry.
pub struct TreeBriefItemView {
    pub name: Seq<u8>,
    pub path: Seq<u8>,
    pub content_type: ContentType,
}

impl View for TreeBriefItem {
    type V = TreeBriefItemView;

    open spec fn view(&self) -> TreeBriefItemView {
        TreeBriefItemView { name: self.name@, path: self.path@, content_type: self.content_type }
    }
}

/// The entries of a tree as they are shown.
#[derive(Debug)]
pub struct TreeBriefInfo {
    pub items: Vec<TreeBriefItem>,
    pub total_count: usize,
}

/// The entries of the tree at `path` as they are shown.
pub open spec fn brief_items(path: Seq<Seq<u8>>, items: Seq<TreeItemView>) -> Seq<
    TreeBriefItemView,
> {
    Seq::new(
        items.len(),
        |i: int|
            TreeBriefItemView {
                name: items[i].name,
                path: path_bytes(path.push(items[i].name)),
                content_type: content_type_of(items[i].mode),
            },
    )
}

/// The values of a list of shown entries.
pub open spec fn brief_view(items: Seq<TreeBriefItem>) -> Seq<TreeBriefItemView> {
    Seq::new(items.len(), |i: int| items[i]@)
}

/// The entries of the tree that `path` names; none where it names no
/// tree.
pub open spec fn tree_info(s: StoreView, path: Seq<Seq<u8>>) -> Seq<TreeBriefItemView> {
    match resolve(s, path) {
        Err(_) => Seq::empty(),
        Ok(chain) => brief_items(path, s.tree(chain.last())->0),
    }
}

/// What is shown of a commit.
#[derive(Debug)]
pub struct LatestCommitInfo {
    pub oid: ObjectId,
    pub message: Vec<u8>,
    pub author: Vec<u8>,
    pub committer: Vec<u8>,
}

/// The commit that brought the tree stored under `id`: the store must
/// have noted one, and must hold it.
pub open spec fn bringing_commit(s: StoreView, id: Seq<u8>) -> Option<CommitView> {
    match find_row(s.trees, id) {
        None => None,
        Some(row) => match row.commit_id {
            None => None,
            Some(c) => s.commit(c),
        },
    }
}

/// The commit that brought the tree at `path`, or why there is none: the
/// path names no tree, or the store knows no commit for the tree.
pub open spec fn latest_commit(s: StoreView, path: Seq<Seq<u8>>) -> Result<CommitView, MonoError> {
    match resolve(s, path) {
        Err(e) => Err(e),
        Ok(chain) => match bringing_commit(s, chain.last()) {
            None => Err(MonoError::StorageError),
            Some(c) => Ok(c),
        },
    }
}

/// One entry of a tree with the commit that brought it, where the store
/// knows one.
#[derive(Debug)]
pub struct TreeCommitItem {
    pub name: Vec<u8>,
    pub content_type: ContentType,
    pub commit: Option<LatestCommitInfo>,
}

/// The entries of a tree, each with the commit that brought it.
#[derive(Debug)]
pub struct TreeCommitInfo {
    pub items: Vec<TreeCommitItem>,
    pub total_count: usize,
}

/// What is asked for when a file or a directory is added.
#[derive(Debug)]
pub struct CreateFileInfo {
    pub is_directory: bool,
    pub name: Vec<u8>,
    pub path: Vec<u8>,
    pub content: Option<Vec<u8>>,
}

/// The content of the file that keeps a new directory.
pub open spec fn keep_content() -> Seq<u8> {
    byteseq::ascii("This file was used to maintain the git tree"@)
}

/// The name of the file that keeps a new directory.
pub open spec fn keep_name() -> Seq<u8> {
    byteseq::ascii(".gitkeep"@)
}

/// The content of the blob that is stored for a new entry: the given
/// content for a file (nothing where none is given), the keeping file's
/// content for a directory.
pub open spec fn new_blob(is_directory: bool, content: Option<Seq<u8>>) -> Seq<u8> {
    if is_directory {
        keep_content()
    } else {
        match content {
            None => Seq::empty(),
            Some(c) => c,
        }
    }
}

/// The entries of the tree of a new directory: the keeping file alone.
pub open spec fn keep_items() -> Seq<TreeItemView> {
    seq![
        TreeItemView {
            mode: TreeItemMode::Blob,
            id: object_id_of(ObjectType::Blob, keep_content()),
            name: keep_name(),
        },
    ]
}

/// The entry that is added to the tree: a blob for a file, the tree with
/// the keeping file for a directory.
pub open spec fn new_item(is_directory: bool, name: Seq<u8>, content: Option<Seq<u8>>) -> TreeItemView {
    if is_directory {
        TreeItemView { mode: TreeItemMode::Tree, id: tree_id_of(keep_items()), name }
    } else {
        TreeItemView {
            mode: TreeItemMode::Blob,
            id: object_id_of(ObjectType::Blob, new_blob(false, content)),
            name,
        }
    }
}

/// The text of the commit that adds the entry `name`.
pub open spec fn create_text(name: Seq<u8>) -> Seq<u8> {
    byteseq::ascii("create file "@) + name + byteseq::ascii(" commit"@)
}

/// The commit that adds an entry: it records the tree with the entry
/// added and has the root commit as its parent.
pub open spec fn create_commit(tree_id: Seq<u8>, root: Seq<u8>, name: Seq<u8>) -> CommitView {
    let body = CommitView {
        id: Seq::empty(),
        tree_id,
        parents: seq![root],
        author: system_signature(),
        committer: system_signature(),
        message: seq![10u8] + create_text(name),
    };
    CommitView { id: commit_id_of(body), ..body }
}

/// Why an entry cannot be added at `path`: the path names no tree, or the
/// trees above it cannot be updated for the tree with the entry.
pub open spec fn create_error(
    s: StoreView,
    path: Seq<Seq<u8>>,
    is_directory: bool,
    name: Seq<u8>,
    content: Option<Seq<u8>>,
) -> Option<MonoError> {
    match resolve(s, path) {
        Err(e) => Some(e),
        Ok(chain) => update_error(
            s,
            chain_items(s, chain.drop_last()),
            path,
            tree_id_of(created_items(s, path, is_directory, name, content)),
        ),
    }
}

/// The store after an entry has been put into the tree at `path`, in the
/// place of the entry of its name where the tree has one: the trees above
/// it are updated for the tree with the entry; that tree, the blob of the
/// entry, and for a directory its tree are stored.
pub open spec fn file_created(
    s: StoreView,
    path: Seq<Seq<u8>>,
    is_directory: bool,
    name: Seq<u8>,
    content: Option<Seq<u8>>,
) -> StoreView {
    let chain = resolve(s, path)->Ok_0;
    let items = put_item(s.tree(chain.last())->0, new_item(is_directory, name, content));
    let c = create_commit(tree_id_of(items), s.ref_at(Seq::empty())->0.ref_commit_hash, name);
    let up = updated(s, chain_items(s, chain.drop_last()), path, c);
    let with_tree = insert_row(up.trees, tree_row(TreeView { id: tree_id_of(items), items }, None));
    let blob = new_blob(is_directory, content);
    StoreView {
        trees: if is_directory {
            insert_row(
                with_tree,
                tree_row(TreeView { id: tree_id_of(keep_items()), items: keep_items() }, None),
            )
        } else {
            with_tree
        },
        blobs: insert_row(
            up.blobs,
            RowView { id: object_id_of(ObjectType::Blob, blob), data: blob, commit_id: None },
        ),
        ..up
    }
}

fn content_type(mode: TreeItemMode) -> (t: ContentType)
    ensures
        t == content_type_of(mode),
{
    match mode {
        TreeItemMode::Tree => ContentType::Directory,
        _ => ContentType::File,
    }
}

fn commit_info(c: Commit) -> (info: LatestCommitInfo)
    ensures
        info.oid@ == c@.id,
        info.message@ == c@.message,
        info.author@ == c@.author,
        info.committer@ == c@.committer,
{
    LatestCommitInfo { oid: c.id, message: c.message, author: c.author, committer: c.committer }
}

impl MonorepoService {
    /// Gives a store without a root ref its root: the empty tree, a
    /// commit for it, and the root's ref. A store with a root ref is left
    /// as it is.
    pub fn init_monorepo(&mut self)
        ensures
            final(self).storage@ == after_head_hash(old(self).storage@, Seq::empty()),
            old(self).storage.wf() ==> final(self).storage.wf(),
    {
        let handler = MonoRepo { path: RepoPath::root(), from_hash: None, to_hash: None };
        let _ = handler.head_refs(&mut self.storage);
    }

    /// The content of the blob stored under `object_id`; nothing where
    /// there is no such blob.
    pub fn get_blob_as_string(&self, object_id: &ObjectId) -> (r: BlobObjects)
        ensures
            r.plain_text@ == (match find_row(self.storage@.blobs, object_id@) {
                None => Seq::<u8>::empty(),
                Some(row) => row.data,
            }),
    {
        match self.storage.get_raw_blob(object_id) {
            None => BlobObjects { plain_text: Vec::new() },
            Some(plain_text) => BlobObjects { plain_text },
        }
    }

    /// The entries of the tree at `path`, each with its written path;
    /// none where `path` names no tree.
    pub fn get_tree_info(&self, path: &RepoPath) -> (r: TreeBriefInfo)
        ensures
            brief_view(r.items@) == tree_info(self.storage@, path@),
            r.total_count == r.items@.len(),
    {
        let mut items: Vec<TreeBriefItem> = Vec::new();
        match search_tree_by_path(&self.storage, path) {
            Err(_) => {
                assert(brief_view(items@) =~= tree_info(self.storage@, path@));
            },
            Ok(found) => {
                let tree = found.target;
                let ghost want = brief_items(path@, tree@.items);
                assert(tree_ids(found.ancestors@).push(tree@.id).last() == tree@.id);
                let mut i: usize = 0;
                while i < tree.tree_items.len()
                    invariant
                        i <= tree.tree_items@.len(),
                        want == brief_items(path@, tree@.items),
                        items@.len() == i,
                        forall|j: int| 0 <= j < i ==> items@[j]@ == want[j],
                    decreases tree.tree_items@.len() - i,
                {
                    let item = &tree.tree_items[i];
                    assert(tree@.items[i as int] == item@);
                    items.push(
                        TreeBriefItem {
                            name: byteseq::copy(item.name.as_slice()),
                            path: path.join(item.name.as_slice()).to_bytes(),
                            content_type: content_type(item.mode),
                        },
                    );
                    i += 1;
                }
                assert(brief_view(items@) =~= want);
            },
        }
        let total_count = items.len();
        TreeBriefInfo { items, total_count }
    }

    /// The commit that brought the tree stored under `id`, where the
    /// store has noted one and holds it.
    pub fn get_bringing_commit(&self, id: &ObjectId) -> (r: Option<Commit>)
        ensures
            match r {
                None => bringing_commit(self.storage@, id@) is None,
                Some(c) => bringing_commit(self.storage@, id@) == Some(c@),
            },
    {
        match self.storage.get_tree_commit(id) {
            None => None,
            Some(commit_id) => self.storage.get_commit(&commit_id),
        }
    }

    /// The commit that brought the tree at `path`.
    pub fn get_latest_commit(&self, path: &RepoPath) -> (r: Result<LatestCommitInfo, MonoError>)
        ensures
            match r {
                Err(e) => latest_commit(self.storage@, path@) == Err::<CommitView, MonoError>(e),
                Ok(info) => latest_commit(self.storage@, path@) is Ok && ({
                    let c = latest_commit(self.storage@, path@)->Ok_0;
                    info.oid@ == c.id && info.message@ == c.message && info.author@ == c.author
                        && info.committer@ == c.committer
                }),
            },
    {
        let found = match search_tree_by_path(&self.storage, path) {
            Err(e) => {
                return Err(e);
            },
            Ok(f) => f,
        };
        assert(tree_ids(found.ancestors@).push(found.target@.id).last() == found.target@.id);
        match self.get_bringing_commit(&found.target.id) {
            None => Err(MonoError::StorageError),
            Some(c) => Ok(commit_info(c)),
        }
    }

    /// The entries of the tree at `path`, each with the commit that
    /// brought the tree it names, where the store knows one; none where
    /// `path` names no tree.
    pub fn get_tree_commit_info(&self, path: &RepoPath) -> (r: TreeCommitInfo)
        ensures
            r.total_count == r.items@.len(),
            match resolve(self.storage@, path@) {
                Err(_) => r.items@.len() == 0,
                Ok(chain) => {
                    let items = self.storage@.tree(chain.last())->0;
                    r.items@.len() == items.len() && forall|i: int|
                        0 <= i < items.len() ==> shows(
                            self.storage@,
                            items[i],
                            #[trigger] r.items@[i],
                        )
                },
            },
    {
        let mut items: Vec<TreeCommitItem> = Vec::new();
        match search_tree_by_path(&self.storage, path) {
            Err(_) => {},
            Ok(found) => {
                let tree = found.target;
                assert(tree_ids(found.ancestors@).push(tree@.id).last() == tree@.id);
                let mut i: usize = 0;
                while i < tree.tree_items.len()
                    invariant
                        i <= tree.tree_items@.len(),
                        items@.len() == i,
                        forall|j: int|
                            0 <= j < i ==> shows(
                                self.storage@,
                                tree@.items[j],
                                #[trigger] items@[j],
                            ),
                    decreases tree.tree_items@.len() - i,
                {
                    let item = &tree.tree_items[i];
                    assert(tree@.items[i as int] == item@);
                    let commit = match self.get_bringing_commit(&item.id) {
                        None => None,
                        Some(c) => Some(commit_info(c)),
                    };
                    items.push(
                        TreeCommitItem {
                            name: byteseq::copy(item.name.as_slice()),
                            content_type: content_type(item.mode),
                            commit,
                        },
                    );
                    i += 1;
                }
            },
        }
        let total_count = items.len();
        TreeCommitInfo { items, total_count }
    }

    /// Adds a file or a directory to the tree at the written path of
    /// `file_info`, and updates the trees above it. Where the tree holds
    /// an entry of that name already, the new entry takes its place, so
    /// that no name comes to stand twice. On failure the store is
    /// unchanged.
    pub fn create_monorepo_file(&mut self, file_info: CreateFileInfo) -> (r: Result<(), MonoError>)
        ensures
            match r {
                Err(e) => create_error(
                    old(self).storage@,
                    path_of(file_info.path@),
                    file_info.is_directory,
                    file_info.name@,
                    crate::mr::body_view(file_info.content),
                ) == Some(e) && final(self).storage@ == old(self).storage@,
                Ok(_) => create_error(
                    old(self).storage@,
                    path_of(file_info.path@),
                    file_info.is_directory,
                    file_info.name@,
                    crate::mr::body_view(file_info.content),
                ) is None
                    && final(self).storage@ == file_created(
                    old(self).storage@,
                    path_of(file_info.path@),
                    file_info.is_directory,
                    file_info.name@,
                    crate::mr::body_view(file_info.content),
                ),
            },
            old(self).storage.wf() ==> final(self).storage.wf(),
    {
        let ghost s = self.storage@;
        let path = RepoPath::parse(file_info.path.as_slice());
        let found = match search_tree_by_path(&self.storage, &path) {
            Err(e) => {
                return Err(e);
            },
            Ok(f) => f,
        };
        let ghost chain = tree_ids(found.ancestors@).push(found.target@.id);
        proof {
            assert(chain.last() == found.target@.id);
            assert(chain.drop_last() =~= tree_ids(found.ancestors@));
            assert(trees_items(found.ancestors@) =~= chain_items(s, chain.drop_last())) by {
                assert forall|i: int| 0 <= i < found.ancestors@.len() implies trees_items(
                    found.ancestors@,
                )[i] == chain_items(s, chain.drop_last())[i] by {
                    assert(s.tree(found.ancestors@[i]@.id) == Some(found.ancestors@[i]@.items));
                }
            }
            reveal_strlit("This file was used to maintain the git tree");
            reveal_strlit(".gitkeep");
            reveal_strlit("create file ");
            reveal_strlit(" commit");
        }
        let blob_data = if file_info.is_directory {
            let keep = "This file was used to maintain the git tree";
            assert(is_ascii(keep));
            byteseq::text(keep)
        } else {
            match file_info.content {
                None => Vec::new(),
                Some(c) => c,
            }
        };
        let blob = Entry::new(ObjectType::Blob, blob_data);
        let mut child_tree: Option<Tree> = None;
        let item = if file_info.is_directory {
            let keep_file = ".gitkeep";
            assert(is_ascii(keep_file));
            let mut keep_list: Vec<TreeItem> = Vec::new();
            keep_list.push(TreeItem::new(TreeItemMode::Blob, blob.hash, byteseq::text(keep_file)));
            assert(items_view(keep_list@) =~= keep_items());
            let child = Tree::from_tree_items(keep_list);
            let item = TreeItem::new(
                TreeItemMode::Tree,
                child.id,
                byteseq::copy(file_info.name.as_slice()),
            );
            child_tree = Some(child);
            item
        } else {
            TreeItem::new(TreeItemMode::Blob, blob.hash, byteseq::copy(file_info.name.as_slice()))
        };
        let mut t_items = found.target.copy().tree_items;
        put_item_into(&mut t_items, item);
        let new_tree = Tree::from_tree_items(t_items);
        let root = RepoPath::root();
        let refs = match self.storage.get_ref(&root) {
            None => {
                return Err(MonoError::PathNotFound);
            },
            Some(r) => r,
        };
        let head = "create file ";
        let tail = " commit";
        assert(is_ascii(head));
        assert(is_ascii(tail));
        let mut text = byteseq::text(head);
        byteseq::append(&mut text, file_info.name.as_slice());
        byteseq::append(&mut text, byteseq::text(tail).as_slice());
        let mut parents: Vec<ObjectId> = Vec::new();
        parents.push(refs.ref_commit_hash);
        let commit = Commit::from_tree_id(new_tree.id, parents, text.as_slice());
        proof {
            let want = create_commit(new_tree@.id, refs@.ref_commit_hash, file_info.name@);
            assert(commit@.parents =~= seq![refs@.ref_commit_hash]);
            assert(crate::commit::commit_bytes(commit@) == crate::commit::commit_bytes(want));
            assert(commit@ == want);
        }
        match self.update_parent_tree(&path, &found.ancestors, &commit) {
            Err(e) => {
                return Err(e);
            },
            Ok(_) => {},
        }
        self.storage.save_tree(&new_tree, None);
        match child_tree {
            None => {},
            Some(child) => {
                self.storage.save_tree(&child, None);
            },
        }
        self.storage.save_entry(&blob);
        Ok(())
    }
}

/// Whether `shown` is what is shown of the entry `item`: its name, its
/// kind, and the commit that brought the tree it names, where the store
/// knows one.
pub open spec fn shows(s: StoreView, item: TreeItemView, shown: TreeCommitItem) -> bool {
    &&& shown.name@ == item.name
    &&& shown.content_type == content_type_of(item.mode)
    &&& match bringing_commit(s, item.id) {
        None => shown.commit is None,
        Some(c) => shown.commit is Some && shown.commit->0.oid@ == c.id && shown.commit->0.message@
            == c.message && shown.commit->0.author@ == c.author && shown.commit->0.committer@
            == c.committer,
    }
}

/// The entries of the tree that is stored when an entry is added at
/// `path`.
pub open spec fn created_items(
    s: StoreView,
    path: Seq<Seq<u8>>,
    is_directory: bool,
    name: Seq<u8>,
    content: Option<Seq<u8>>,
) -> Seq<TreeItemView> {
    put_item(s.tree(resolve(s, path)->Ok_0.last())->0, new_item(is_directory, name, content))
}

/// Adding an entry keeps the names of a tree unique: where no name stood
/// twice in the tree at the path, none stands twice in the tree that is
/// stored, and the new name stands for the new entry.
pub proof fn lemma_create_keeps_names_unique(
    s: StoreView,
    path: Seq<Seq<u8>>,
    is_directory: bool,
    name: Seq<u8>,
    content: Option<Seq<u8>>,
)
    requires
        create_error(s, path, is_directory, name, content) is None,
        unique_names(s.tree(resolve(s, path)->Ok_0.last())->0),
    ensures
        unique_names(created_items(s, path, is_directory, name, content)),
        crate::tree::position_of(created_items(s, path, is_directory, name, content), name)
            < created_items(s, path, is_directory, name, content).len(),
{
    lemma_put_item(
        s.tree(resolve(s, path)->Ok_0.last())->0,
        new_item(is_directory, name, content),
    );
}

} // verus!
