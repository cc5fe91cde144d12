//! The object store: refs, commits, trees, blobs, tags, merge requests and
//! their conversations, each kept in the order in which it came.

use vstd::prelude::*;
use vstd::string::*;
use crate::byteseq;
use crate::commit::{parse_commit, Commit, CommitView};
use crate::hash::ObjectId;
use crate::mr::{ConvType, Conversation, ConversationView, MergeRequest, MergeStatus, MrView};
use crate::object::{entries_view, Entry, EntryView, ObjectType};
use crate::path::{is_prefix, RepoPath};
use crate::seqs::{
    find_where, first_where, lemma_filter_from, lemma_first_where, lemma_first_where_is,
};
use crate::tree::{items_bytes, items_wf, parse_items, Tree, TreeItemView, TreeView};

verus! {

/// One stored object: its identifier and its content. A tree may carry
/// the commit that brought it.
#[derive(Debug)]
pub struct ObjectRow {
    pub id: ObjectId,
    pub data: Vec<u8>,
    pub commit_id: Option<ObjectId>,
}

/// The mathematical value of a stored object.
pub struct RowView {
    pub id: Seq<u8>,
    pub data: Seq<u8>,
    pub commit_id: Option<Seq<u8>>,
}

/// The value of an optional identifier.
pub open spec fn opt_id_view(id: Option<ObjectId>) -> Option<Seq<u8>> {
    match id {
        None => None,
        Some(i) => Some(i@),
    }
}

impl View for ObjectRow {
    type V = RowView;

    open spec fn view(&self) -> RowView {
        RowView { id: self.id@, data: self.data@, commit_id: opt_id_view(self.commit_id) }
    }
}

/// The values of a list of stored objects.
pub open spec fn rows_view(rows: Seq<ObjectRow>) -> Seq<RowView> {
    Seq::new(rows.len(), |i: int| rows[i]@)
}

/// What is recorded about a blob beside its content.
#[derive(Debug)]
pub struct BlobMeta {
    pub id: ObjectId,
    pub size: usize,
}

/// A ref: the commit and the tree that a path stands at.
#[derive(Debug)]
pub struct RefRecord {
    pub path: RepoPath,
    pub ref_name: Vec<u8>,
    pub ref_commit_hash: ObjectId,
    pub ref_tree_hash: ObjectId,
    pub default_branch: bool,
}

/// The mathematical value of a ref.
pub struct RefView {
    pub path: Seq<Seq<u8>>,
    pub ref_name: Seq<u8>,
    pub ref_commit_hash: Seq<u8>,
    pub ref_tree_hash: Seq<u8>,
    pub default_branch: bool,
}

impl View for RefRecord {
    type V = RefView;

    open spec fn view(&self) -> RefView {
        RefView {
            path: self.path@,
            ref_name: self.ref_name@,
            ref_commit_hash: self.ref_commit_hash@,
            ref_tree_hash: self.ref_tree_hash@,
            default_branch: self.default_branch,
        }
    }
}

impl RefRecord {
    /// A copy of the ref.
    pub fn copy(&self) -> (r: RefRecord)
        ensures
            r@ == self@,
    {
        RefRecord {
            path: self.path.copy(),
            ref_name: byteseq::copy(self.ref_name.as_slice()),
            ref_commit_hash: self.ref_commit_hash,
            ref_tree_hash: self.ref_tree_hash,
            default_branch: self.default_branch,
        }
    }
}

/// The values of a list of refs.
pub open spec fn refs_view(refs: Seq<RefRecord>) -> Seq<RefView> {
    Seq::new(refs.len(), |i: int| refs[i]@)
}

/// The values of a list of merge requests.
pub open spec fn mrs_view(mrs: Seq<MergeRequest>) -> Seq<MrView> {
    Seq::new(mrs.len(), |i: int| mrs[i]@)
}

/// The values of a list of conversation entries.
pub open spec fn conversations_view(cs: Seq<Conversation>) -> Seq<ConversationView> {
    Seq::new(cs.len(), |i: int| cs[i]@)
}

/// The mathematical value of a store: its tables, each in the order of
/// insertion.
pub struct StoreView {
    pub refs: Seq<RefView>,
    pub commits: Seq<RowView>,
    pub trees: Seq<RowView>,
    pub blobs: Seq<RowView>,
    pub tags: Seq<RowView>,
    pub mrs: Seq<MrView>,
    pub conversations: Seq<ConversationView>,
}

/// The property of a stored object to have the identifier `id`.
pub open spec fn has_id(id: Seq<u8>) -> spec_fn(RowView) -> bool {
    |r: RowView| r.id == id
}

/// The property of a ref to stand for `path`.
pub open spec fn at_path(path: Seq<Seq<u8>>) -> spec_fn(RefView) -> bool {
    |r: RefView| r.path == path
}

/// The object stored under `id`, if any.
pub open spec fn find_row(rows: Seq<RowView>, id: Seq<u8>) -> Option<RowView> {
    find_where(rows, has_id(id))
}

/// No two objects of the table have one identifier.
pub open spec fn distinct_ids(rows: Seq<RowView>) -> bool {
    forall|i: int, j: int| 0 <= i < j < rows.len() ==> rows[i].id != rows[j].id
}

/// The table with `row` added at its end, unless it holds an object with
/// that identifier already.
pub open spec fn insert_row(rows: Seq<RowView>, row: RowView) -> Seq<RowView> {
    if first_where(rows, has_id(row.id)) < rows.len() {
        rows
    } else {
        rows.push(row)
    }
}

/// The stored object that an entry becomes.
pub open spec fn row_of(e: EntryView) -> RowView {
    RowView { id: e.id, data: e.data, commit_id: None }
}

/// The entry that a stored object of the given kind is sent as.
pub open spec fn entry_of(kind: ObjectType, r: RowView) -> EntryView {
    EntryView { kind, id: r.id, data: r.data }
}

/// The store after one entry has been filed in the table of its kind; an
/// entry whose identifier that table holds already changes nothing.
pub open spec fn ingest_one(s: StoreView, e: EntryView) -> StoreView {
    match e.kind {
        ObjectType::Commit => StoreView { commits: insert_row(s.commits, row_of(e)), ..s },
        ObjectType::Tree => StoreView { trees: insert_row(s.trees, row_of(e)), ..s },
        ObjectType::Blob => StoreView { blobs: insert_row(s.blobs, row_of(e)), ..s },
        ObjectType::Tag => StoreView { tags: insert_row(s.tags, row_of(e)), ..s },
    }
}

/// The store after a list of entries has been filed, one after the
/// other.
pub open spec fn ingest(s: StoreView, es: Seq<EntryView>) -> StoreView
    decreases es.len(),
{
    if es.len() == 0 {
        s
    } else {
        ingest_one(ingest(s, es.drop_last()), es.last())
    }
}

/// The store that holds nothing.
pub open spec fn empty_store() -> StoreView {
    StoreView {
        refs: Seq::empty(),
        commits: Seq::empty(),
        trees: Seq::empty(),
        blobs: Seq::empty(),
        tags: Seq::empty(),
        mrs: Seq::empty(),
        conversations: Seq::empty(),
    }
}

/// No two refs of the list stand for one path.
pub open spec fn distinct_paths(refs: Seq<RefView>) -> bool {
    forall|i: int, j: int| 0 <= i < j < refs.len() ==> refs[i].path != refs[j].path
}

/// A store is well formed where no table of objects holds an identifier
/// twice and no path has two refs.
pub open spec fn store_wf(s: StoreView) -> bool {
    &&& distinct_paths(s.refs)
    &&& distinct_ids(s.commits)
    &&& distinct_ids(s.trees)
    &&& distinct_ids(s.blobs)
    &&& distinct_ids(s.tags)
}

impl StoreView {
    /// The entries of the tree stored under `id`; `None` where the store
    /// holds no tree under `id`, or bytes there that are no tree.
    pub open spec fn tree(self, id: Seq<u8>) -> Option<Seq<TreeItemView>> {
        match find_row(self.trees, id) {
            None => None,
            Some(row) => parse_items(row.data),
        }
    }

    /// The commit stored under `id`; `None` where the store holds no
    /// commit under `id`, or bytes there that are no commit.
    pub open spec fn commit(self, id: Seq<u8>) -> Option<CommitView> {
        match find_row(self.commits, id) {
            None => None,
            Some(row) => parse_commit(row.data, row.id),
        }
    }

    /// The ref of `path`, if there is one.
    pub open spec fn ref_at(self, path: Seq<Seq<u8>>) -> Option<RefView> {
        find_where(self.refs, at_path(path))
    }
}

/// Adding a row keeps a table free of repeated identifiers.
pub proof fn lemma_insert_row_distinct(rows: Seq<RowView>, row: RowView)
    requires
        distinct_ids(rows),
    ensures
        distinct_ids(insert_row(rows, row)),
{
    lemma_first_where(rows, has_id(row.id));
}

/// Putting a ref in the place of the ref of its path, or adding it where
/// its path had none, leaves no path with two refs.
pub proof fn lemma_put_ref_distinct(refs: Seq<RefView>, r: RefView)
    requires
        distinct_paths(refs),
    ensures
        distinct_paths(put_ref(refs, r)),
        distinct_paths(replace_ref(refs, r)),
{
    lemma_first_where(refs, at_path(r.path));
    let i = first_where(refs, at_path(r.path));
    if i < refs.len() {
        let after = refs.update(i, r);
        assert forall|a: int, b: int| 0 <= a < b < after.len() implies after[a].path
            != after[b].path by {
            assert(refs[a].path != refs[b].path);
        }
    } else {
        let after = refs.push(r);
        assert forall|a: int, b: int| 0 <= a < b < after.len() implies after[a].path
            != after[b].path by {
            if b < refs.len() {
                assert(refs[a].path != refs[b].path);
            } else {
                assert(!at_path(r.path)(refs[a]));
            }
        }
    }
}

/// Taking refs out leaves no path with two refs.
pub proof fn lemma_filter_distinct(refs: Seq<RefView>, keep: spec_fn(RefView) -> bool)
    requires
        distinct_paths(refs),
    ensures
        distinct_paths(refs.filter(keep)),
    decreases refs.len(),
{
    reveal(Seq::filter);
    if refs.len() > 0 {
        let t = refs.drop_last();
        let x = refs.last();
        assert forall|a: int, b: int| 0 <= a < b < t.len() implies t[a].path != t[b].path by {
            assert(refs[a].path != refs[b].path);
        }
        lemma_filter_distinct(t, keep);
        lemma_filter_from(t, keep);
        let tf = t.filter(keep);
        let after = refs.filter(keep);
        assert forall|a: int, b: int| 0 <= a < b < after.len() implies after[a].path
            != after[b].path by {
            if b < tf.len() {
                assert(after[a] == tf[a] && after[b] == tf[b]);
            } else {
                assert(after[b] == x);
                assert(after[a] == tf[a]);
                assert(t.contains(tf[a]));
                let j = choose|j: int| 0 <= j < t.len() && t[j] == tf[a];
                assert(refs[j].path != refs[refs.len() - 1].path);
            }
        }
    }
}

/// Filing an entry keeps a store well formed.
pub proof fn lemma_ingest_one_wf(s: StoreView, e: EntryView)
    requires
        store_wf(s),
    ensures
        store_wf(ingest_one(s, e)),
{
    lemma_insert_row_distinct(s.commits, row_of(e));
    lemma_insert_row_distinct(s.trees, row_of(e));
    lemma_insert_row_distinct(s.blobs, row_of(e));
    lemma_insert_row_distinct(s.tags, row_of(e));
}

/// Filing entries keeps a store well formed.
pub proof fn lemma_ingest_wf(s: StoreView, es: Seq<EntryView>)
    requires
        store_wf(s),
    ensures
        store_wf(ingest(s, es)),
    decreases es.len(),
{
    if es.len() > 0 {
        lemma_ingest_wf(s, es.drop_last());
        lemma_ingest_one_wf(ingest(s, es.drop_last()), es.last());
    }
}

/// Filing entries touches neither refs nor merge requests nor
/// conversations.
pub proof fn lemma_ingest_frame(s: StoreView, es: Seq<EntryView>)
    ensures
        ingest(s, es).refs == s.refs,
        ingest(s, es).mrs == s.mrs,
        ingest(s, es).conversations == s.conversations,
    decreases es.len(),
{
    if es.len() > 0 {
        lemma_ingest_frame(s, es.drop_last());
    }
}

/// Filing one list of entries and then another is filing the two lists
/// as one: where a list is cut into batches makes no difference.
pub proof fn lemma_ingest_concat(s: StoreView, a: Seq<EntryView>, b: Seq<EntryView>)
    ensures
        ingest(ingest(s, a), b) == ingest(s, a + b),
    decreases b.len(),
{
    if b.len() == 0 {
        assert(a + b =~= a);
    } else {
        lemma_ingest_concat(s, a, b.drop_last());
        assert((a + b).drop_last() =~= a + b.drop_last());
        assert((a + b).last() == b.last());
    }
}

/// Looks up the first row with the given identifier.
fn row_position(rows: &Vec<ObjectRow>, id: &ObjectId) -> (r: Option<usize>)
    ensures
        match r {
            None => first_where(rows_view(rows@), has_id(id@)) == rows@.len(),
            Some(i) => i < rows@.len() && first_where(rows_view(rows@), has_id(id@)) == i,
        },
{
    let mut i: usize = 0;
    while i < rows.len()
        invariant
            i <= rows@.len(),
            forall|j: int| 0 <= j < i ==> !has_id(id@)(rows_view(rows@)[j]),
        decreases rows@.len() - i,
    {
        if rows[i].id.same(id) {
            proof {
                lemma_first_where_is(rows_view(rows@), has_id(id@), i as int);
            }
            return Some(i);
        }
        i += 1;
    }
    proof {
        lemma_first_where_is(rows_view(rows@), has_id(id@), i as int);
    }
    None
}

/// Adds a row unless the table holds its identifier.
fn insert_into(rows: &mut Vec<ObjectRow>, row: ObjectRow)
    ensures
        rows_view(final(rows)@) == insert_row(rows_view(old(rows)@), row@),
{
    match row_position(rows, &row.id) {
        Some(_) => {},
        None => {
            let ghost before = rows_view(rows@);
            let ghost rv = row@;
            rows.push(row);
            assert(rows_view(rows@) =~= before.push(rv));
        },
    }
}

/// The rows of a table as entries of the given kind.
pub open spec fn rows_entries(kind: ObjectType, rows: Seq<RowView>) -> Seq<EntryView> {
    Seq::new(rows.len(), |i: int| entry_of(kind, rows[i]))
}

fn entries_from(kind: ObjectType, rows: &Vec<ObjectRow>) -> (v: Vec<Entry>)
    ensures
        entries_view(v@) == rows_entries(kind, rows_view(rows@)),
{
    let mut v: Vec<Entry> = Vec::new();
    let mut i: usize = 0;
    while i < rows.len()
        invariant
            i <= rows@.len(),
            v@.len() == i,
            forall|j: int| 0 <= j < i ==> v@[j]@ == entry_of(kind, rows@[j]@),
        decreases rows@.len() - i,
    {
        v.push(
            Entry { obj_type: kind, hash: rows[i].id, data: byteseq::copy(rows[i].data.as_slice()) },
        );
        i += 1;
    }
    assert(entries_view(v@) =~= rows_entries(kind, rows_view(rows@)));
    v
}

/// The name under which a path's ref is announced.
pub open spec fn default_branch_name() -> Seq<u8> {
    byteseq::ascii("refs/heads/main"@)
}

/// The name under which a path's ref is announced.
pub fn default_branch_name_data() -> (v: Vec<u8>)
    ensures
        v@ == default_branch_name(),
{
    proof {
        reveal_strlit("refs/heads/main");
    }
    let s = "refs/heads/main";
    assert(is_ascii(s));
    byteseq::text(s)
}

/// The refs with `r` in the place of the ref of its path, or at the end
/// where its path had none.
pub open spec fn put_ref(refs: Seq<RefView>, r: RefView) -> Seq<RefView> {
    let i = first_where(refs, at_path(r.path));
    if i < refs.len() {
        refs.update(i, r)
    } else {
        refs.push(r)
    }
}

/// The refs with `r` in the place of the ref of its path; unchanged where
/// its path has none.
pub open spec fn replace_ref(refs: Seq<RefView>, r: RefView) -> Seq<RefView> {
    let i = first_where(refs, at_path(r.path));
    if i < refs.len() {
        refs.update(i, r)
    } else {
        refs
    }
}

/// The property of a ref to be the root's, or to stand for another path
/// than `path`.
pub open spec fn not_at(path: Seq<Seq<u8>>) -> spec_fn(RefView) -> bool {
    |r: RefView| r.path.len() == 0 || r.path != path
}

/// The property of a ref to be the root's, or to stand for a path that
/// `prefix` does not lead to.
pub open spec fn outside(prefix: Seq<Seq<u8>>) -> spec_fn(RefView) -> bool {
    |r: RefView| r.path.len() == 0 || !is_prefix(prefix, r.path)
}

/// The property of a merge request to be open and for `path`.
pub open spec fn open_at(path: Seq<Seq<u8>>) -> spec_fn(MrView) -> bool {
    |m: MrView| m.path == path && m.status == MergeStatus::Open
}

/// The property of a merge request to have the number `id`.
pub open spec fn numbered(id: i64) -> spec_fn(MrView) -> bool {
    |m: MrView| m.id == id
}

/// The merge requests with `mr` in the place of the one with its number;
/// unchanged where none has it.
pub open spec fn replace_mr(mrs: Seq<MrView>, mr: MrView) -> Seq<MrView> {
    let i = first_where(mrs, numbered(mr.id));
    if i < mrs.len() {
        mrs.update(i, mr)
    } else {
        mrs
    }
}

/// The number that the next merge request gets: one more than there are
/// merge requests.
pub open spec fn next_number(mrs: Seq<MrView>) -> i64 {
    if mrs.len() < i64::MAX {
        (mrs.len() + 1) as i64
    } else {
        i64::MAX
    }
}

/// Merge requests are numbered in the order in which they were opened,
/// from one on, and no path has two open merge requests.
pub open spec fn mrs_wf(mrs: Seq<MrView>) -> bool {
    &&& mrs.len() < i64::MAX
    &&& forall|i: int| 0 <= i < mrs.len() ==> (#[trigger] mrs[i]).id == i + 1
    &&& forall|i: int, j: int|
        0 <= i < j < mrs.len() && (#[trigger] mrs[i]).status == MergeStatus::Open && (
        #[trigger] mrs[j]).status == MergeStatus::Open ==> mrs[i].path != mrs[j].path
}

/// The property of a conversation entry to belong to the merge request
/// `id`.
pub open spec fn about(id: i64) -> spec_fn(ConversationView) -> bool {
    |c: ConversationView| c.mr_id == id
}

/// The property of a ref to be the root's, or to stand for a path that
/// is no proper beginning of `path`.
pub open spec fn not_above(path: Seq<Seq<u8>>) -> spec_fn(RefView) -> bool {
    |r: RefView| r.path.len() == 0 || !(r.path.len() < path.len() && is_prefix(r.path, path))
}

/// The row that a tree is stored as, with the commit that brought it.
pub open spec fn tree_row(t: TreeView, stamp: Option<Seq<u8>>) -> RowView {
    RowView { id: t.id, data: items_bytes(t.items), commit_id: stamp }
}

/// The table of trees after each tree of the list has been stored, one
/// after the other.
pub open spec fn save_all(rows: Seq<RowView>, trees: Seq<TreeView>, stamp: Option<Seq<u8>>) -> Seq<
    RowView,
>
    decreases trees.len(),
{
    if trees.len() == 0 {
        rows
    } else {
        insert_row(save_all(rows, trees.drop_last(), stamp), tree_row(trees.last(), stamp))
    }
}

/// Whether the table can hold the tree under its identifier: its entries
/// can be written and read back, and the table holds no other bytes
/// under its identifier.
pub open spec fn accepts(rows: Seq<RowView>, t: TreeView) -> bool {
    &&& items_wf(t.items)
    &&& match find_row(rows, t.id) {
        Some(row) => row.data == items_bytes(t.items),
        None => true,
    }
}

/// Whether two trees can stand in one table: where they have one
/// identifier, they have the same bytes.
pub open spec fn agree(a: TreeView, b: TreeView) -> bool {
    a.id == b.id ==> items_bytes(a.items) == items_bytes(b.items)
}

/// Whether the table can hold each tree of the list under its
/// identifier.
pub open spec fn installable(rows: Seq<RowView>, trees: Seq<TreeView>) -> bool {
    &&& forall|i: int| 0 <= i < trees.len() ==> accepts(rows, #[trigger] trees[i])
    &&& forall|i: int, j: int|
        0 <= i < j < trees.len() ==> agree(#[trigger] trees[i], #[trigger] trees[j])
}

/// The values of a list of trees.
pub open spec fn trees_view(trees: Seq<Tree>) -> Seq<TreeView> {
    Seq::new(trees.len(), |i: int| trees[i]@)
}

/// Storing trees keeps a table free of repeated identifiers.
pub proof fn lemma_save_all_distinct(rows: Seq<RowView>, trees: Seq<TreeView>, stamp: Option<Seq<u8>>)
    requires
        distinct_ids(rows),
    ensures
        distinct_ids(save_all(rows, trees, stamp)),
    decreases trees.len(),
{
    if trees.len() > 0 {
        lemma_save_all_distinct(rows, trees.drop_last(), stamp);
        lemma_insert_row_distinct(
            save_all(rows, trees.drop_last(), stamp),
            tree_row(trees.last(), stamp),
        );
    }
}

/// The values of a list of commits.
pub open spec fn commits_view(commits: Seq<Commit>) -> Seq<CommitView> {
    Seq::new(commits.len(), |i: int| commits[i]@)
}

/// The table of commits after each commit of the list has been stored,
/// one after the other.
pub open spec fn save_all_commits(rows: Seq<RowView>, commits: Seq<CommitView>) -> Seq<RowView>
    decreases commits.len(),
{
    if commits.len() == 0 {
        rows
    } else {
        insert_row(
            save_all_commits(rows, commits.drop_last()),
            RowView {
                id: commits.last().id,
                data: crate::commit::commit_bytes(commits.last()),
                commit_id: None,
            },
        )
    }
}

/// The trees that the store holds under the identifiers, in the order of
/// the identifiers.
pub open spec fn trees_found(s: StoreView, ids: Seq<Seq<u8>>) -> Seq<TreeView>
    decreases ids.len(),
{
    if ids.len() == 0 {
        Seq::empty()
    } else {
        let front = trees_found(s, ids.drop_last());
        match s.tree(ids.last()) {
            None => front,
            Some(items) => front.push(TreeView { id: ids.last(), items }),
        }
    }
}

/// The object store.
#[derive(Debug)]
pub struct ObjectStore {
    refs: Vec<RefRecord>,
    commits: Vec<ObjectRow>,
    trees: Vec<ObjectRow>,
    blobs: Vec<ObjectRow>,
    tags: Vec<ObjectRow>,
    mrs: Vec<MergeRequest>,
    conversations: Vec<Conversation>,
}

impl View for ObjectStore {
    type V = StoreView;

    closed spec fn view(&self) -> StoreView {
        StoreView {
            refs: refs_view(self.refs@),
            commits: rows_view(self.commits@),
            trees: rows_view(self.trees@),
            blobs: rows_view(self.blobs@),
            tags: rows_view(self.tags@),
            mrs: mrs_view(self.mrs@),
            conversations: conversations_view(self.conversations@),
        }
    }
}

impl ObjectStore {
    /// Whether no table of objects holds an identifier twice.
    pub open spec fn wf(&self) -> bool {
        store_wf(self@)
    }

    /// A store that holds nothing.
    pub fn new() -> (s: ObjectStore)
        ensures
            s@ == empty_store(),
            s.wf(),
    {
        let s = ObjectStore {
            refs: Vec::new(),
            commits: Vec::new(),
            trees: Vec::new(),
            blobs: Vec::new(),
            tags: Vec::new(),
            mrs: Vec::new(),
            conversations: Vec::new(),
        };
        assert(s@.refs =~= Seq::<RefView>::empty());
        assert(s@.commits =~= Seq::<RowView>::empty());
        assert(s@.trees =~= Seq::<RowView>::empty());
        assert(s@.blobs =~= Seq::<RowView>::empty());
        assert(s@.tags =~= Seq::<RowView>::empty());
        assert(s@.mrs =~= Seq::<MrView>::empty());
        assert(s@.conversations =~= Seq::<ConversationView>::empty());
        s
    }

    fn ref_position(&self, path: &RepoPath) -> (r: Option<usize>)
        ensures
            match r {
                None => first_where(self@.refs, at_path(path@)) == self@.refs.len(),
                Some(i) => i < self.refs@.len() && first_where(self@.refs, at_path(path@)) == i,
            },
    {
        let mut i: usize = 0;
        while i < self.refs.len()
            invariant
                i <= self.refs@.len(),
                forall|j: int| 0 <= j < i ==> !at_path(path@)(self@.refs[j]),
            decreases self.refs@.len() - i,
        {
            if self.refs[i].path.same(path) {
                proof {
                    lemma_first_where_is(self@.refs, at_path(path@), i as int);
                }
                return Some(i);
            }
            i += 1;
        }
        proof {
            lemma_first_where_is(self@.refs, at_path(path@), i as int);
        }
        None
    }

    /// The ref of `path`, if there is one.
    pub fn get_ref(&self, path: &RepoPath) -> (r: Option<RefRecord>)
        ensures
            match r {
                None => self@.ref_at(path@) is None,
                Some(found) => self@.ref_at(path@) == Some(found@),
            },
    {
        match self.ref_position(path) {
            None => None,
            Some(i) => Some(self.refs[i].copy()),
        }
    }

    /// Makes `path` stand at the given commit and tree, under the default
    /// branch's name.
    pub fn save_ref(&mut self, path: &RepoPath, commit_id: ObjectId, tree_id: ObjectId)
        ensures
            final(self)@ == (StoreView {
                refs: put_ref(
                    old(self)@.refs,
                    RefView {
                        path: path@,
                        ref_name: default_branch_name(),
                        ref_commit_hash: commit_id@,
                        ref_tree_hash: tree_id@,
                        default_branch: true,
                    },
                ),
                ..old(self)@
            }),
            old(self).wf() ==> final(self).wf(),
    {
        let r = RefRecord {
            path: path.copy(),
            ref_name: default_branch_name_data(),
            ref_commit_hash: commit_id,
            ref_tree_hash: tree_id,
            default_branch: true,
        };
        let ghost before = self@.refs;
        let ghost rv = r@;
        proof {
            if old(self).wf() {
                lemma_put_ref_distinct(before, rv);
            }
        }
        match self.ref_position(path) {
            Some(i) => {
                self.refs[i] = r;
                assert(self@.refs =~= before.update(i as int, rv));
            },
            None => {
                self.refs.push(r);
                assert(self@.refs =~= before.push(rv));
            },
        }
    }

    /// Puts `r` in the place of the ref of its path. Where its path has no
    /// ref, nothing changes.
    pub fn update_ref(&mut self, r: RefRecord)
        ensures
            final(self)@ == (StoreView { refs: replace_ref(old(self)@.refs, r@), ..old(self)@ }),
            old(self).wf() ==> final(self).wf(),
    {
        let ghost before = self@.refs;
        let ghost rv = r@;
        proof {
            if old(self).wf() {
                lemma_put_ref_distinct(before, rv);
            }
        }
        match self.ref_position(&r.path) {
            Some(i) => {
                self.refs[i] = r;
                assert(self@.refs =~= before.update(i as int, rv));
            },
            None => {},
        }
    }

    /// Removes the ref of `path`. The root's ref always stays.
    pub fn remove_ref(&mut self, path: &RepoPath)
        ensures
            final(self)@ == (StoreView {
                refs: old(self)@.refs.filter(not_at(path@)),
                ..old(self)@
            }),
            old(self).wf() ==> final(self).wf(),
    {
        let mut kept: Vec<RefRecord> = Vec::new();
        let mut i: usize = 0;
        let ghost all = self@.refs;
        proof {
            reveal(Seq::filter);
            assert(all.take(0) =~= Seq::<RefView>::empty());
            assert(refs_view(kept@) =~= all.take(0).filter(not_at(path@)));
        }
        while i < self.refs.len()
            invariant
                i <= self.refs@.len(),
                all == refs_view(self.refs@),
                refs_view(kept@) == all.take(i as int).filter(not_at(path@)),
            decreases self.refs@.len() - i,
        {
            let ghost before = refs_view(kept@);
            proof {
                reveal(Seq::filter);
                assert(all.take(i + 1).drop_last() =~= all.take(i as int));
            }
            if self.refs[i].path.is_root() || !self.refs[i].path.same(path) {
                kept.push(self.refs[i].copy());
                assert(refs_view(kept@) =~= before.push(all[i as int]));
            }
            i += 1;
        }
        assert(all.take(i as int) =~= all);
        proof {
            if old(self).wf() {
                lemma_filter_distinct(all, not_at(path@));
            }
        }
        self.refs = kept;
    }

    /// Removes the refs of the paths that `prefix` leads to, `prefix`
    /// itself among them. The root's ref always stays.
    pub fn remove_refs_with_prefix(&mut self, prefix: &RepoPath)
        ensures
            final(self)@ == (StoreView {
                refs: old(self)@.refs.filter(outside(prefix@)),
                ..old(self)@
            }),
            old(self).wf() ==> final(self).wf(),
    {
        let mut kept: Vec<RefRecord> = Vec::new();
        let mut i: usize = 0;
        let ghost all = self@.refs;
        proof {
            reveal(Seq::filter);
            assert(all.take(0) =~= Seq::<RefView>::empty());
            assert(refs_view(kept@) =~= all.take(0).filter(outside(prefix@)));
        }
        while i < self.refs.len()
            invariant
                i <= self.refs@.len(),
                all == refs_view(self.refs@),
                refs_view(kept@) == all.take(i as int).filter(outside(prefix@)),
            decreases self.refs@.len() - i,
        {
            let ghost before = refs_view(kept@);
            proof {
                reveal(Seq::filter);
                assert(all.take(i + 1).drop_last() =~= all.take(i as int));
            }
            if self.refs[i].path.is_root() || !self.refs[i].path.starts_with(prefix) {
                kept.push(self.refs[i].copy());
                assert(refs_view(kept@) =~= before.push(all[i as int]));
            }
            i += 1;
        }
        assert(all.take(i as int) =~= all);
        proof {
            if old(self).wf() {
                lemma_filter_distinct(all, outside(prefix@));
            }
        }
        self.refs = kept;
    }

    /// Removes the refs of the paths that are a proper beginning of
    /// `path`. The root's ref always stays.
    pub fn remove_refs_above(&mut self, path: &RepoPath)
        ensures
            final(self)@ == (StoreView {
                refs: old(self)@.refs.filter(not_above(path@)),
                ..old(self)@
            }),
            old(self).wf() ==> final(self).wf(),
    {
        let mut kept: Vec<RefRecord> = Vec::new();
        let mut i: usize = 0;
        let ghost all = self@.refs;
        proof {
            reveal(Seq::filter);
            assert(all.take(0) =~= Seq::<RefView>::empty());
            assert(refs_view(kept@) =~= all.take(0).filter(not_above(path@)));
        }
        while i < self.refs.len()
            invariant
                i <= self.refs@.len(),
                all == refs_view(self.refs@),
                refs_view(kept@) == all.take(i as int).filter(not_above(path@)),
            decreases self.refs@.len() - i,
        {
            let ghost before = refs_view(kept@);
            proof {
                reveal(Seq::filter);
                assert(all.take(i + 1).drop_last() =~= all.take(i as int));
            }
            let r = &self.refs[i];
            if r.path.is_root() || !(r.path.depth() < path.depth() && path.starts_with(&r.path)) {
                kept.push(r.copy());
                assert(refs_view(kept@) =~= before.push(all[i as int]));
            }
            i += 1;
        }
        assert(all.take(i as int) =~= all);
        proof {
            if old(self).wf() {
                lemma_filter_distinct(all, not_above(path@));
            }
        }
        self.refs = kept;
    }

    /// Whether the store can hold each tree of the list under its
    /// identifier.
    pub fn can_take(&self, trees: &Vec<Tree>) -> (r: bool)
        ensures
            r == installable(self@.trees, trees_view(trees@)),
    {
        let ghost all = trees_view(trees@);
        let mut i: usize = 0;
        while i < trees.len()
            invariant
                i <= trees@.len(),
                all == trees_view(trees@),
                forall|m: int| 0 <= m < i ==> accepts(self@.trees, #[trigger] all[m]),
                forall|a: int, b: int| 0 <= a < b < i ==> agree(#[trigger] all[a], #[trigger] all[b]),
            decreases trees@.len() - i,
        {
            let t = &trees[i];
            assert(all[i as int] == t@);
            if !t.is_well_formed() {
                assert(!accepts(self@.trees, all[i as int]));
                return false;
            }
            let data = t.to_data();
            match row_position(&self.trees, &t.id) {
                None => {},
                Some(k) => {
                    proof {
                        lemma_first_where(self@.trees, has_id(t.id@));
                    }
                    if !byteseq::equal(self.trees[k].data.as_slice(), data.as_slice()) {
                        assert(!accepts(self@.trees, all[i as int]));
                        return false;
                    }
                },
            }
            let mut j: usize = 0;
            while j < i
                invariant
                    j <= i < trees@.len(),
                    all == trees_view(trees@),
                    data@ == items_bytes(all[i as int].items),
                    t@ == all[i as int],
                    forall|m: int| 0 <= m < j ==> agree(#[trigger] all[m], all[i as int]),
                decreases i - j,
            {
                assert(all[j as int] == trees@[j as int]@);
                if trees[j].id.same(&t.id) {
                    let other = trees[j].to_data();
                    if !byteseq::equal(other.as_slice(), data.as_slice()) {
                        assert(!agree(all[j as int], all[i as int]));
                        return false;
                    }
                }
                j += 1;
            }
            i += 1;
        }
        true
    }

    /// Stores each tree of the list, one after the other, with the commit
    /// that brought them.
    pub fn save_trees(&mut self, trees: &Vec<Tree>, stamp: Option<ObjectId>)
        ensures
            final(self)@ == (StoreView {
                trees: save_all(old(self)@.trees, trees_view(trees@), opt_id_view(stamp)),
                ..old(self)@
            }),
            old(self).wf() ==> final(self).wf(),
    {
        let ghost all = trees_view(trees@);
        let ghost st = opt_id_view(stamp);
        let mut i: usize = 0;
        assert(all.take(0) =~= Seq::<TreeView>::empty());
        while i < trees.len()
            invariant
                i <= trees@.len(),
                all == trees_view(trees@),
                st == opt_id_view(stamp),
                self@ == (StoreView {
                    trees: save_all(old(self)@.trees, all.take(i as int), st),
                    ..old(self)@
                }),
                old(self).wf() ==> self.wf(),
            decreases trees@.len() - i,
        {
            proof {
                assert(all.take(i + 1).drop_last() =~= all.take(i as int));
                assert(all.take(i + 1).last() == trees@[i as int]@);
            }
            self.save_tree(&trees[i], stamp);
            i += 1;
        }
        assert(all.take(i as int) =~= all);
    }

    /// The commit stored under `id`.
    pub fn get_commit(&self, id: &ObjectId) -> (r: Option<Commit>)
        ensures
            match r {
                None => self@.commit(id@) is None,
                Some(c) => self@.commit(id@) == Some(c@),
            },
    {
        match row_position(&self.commits, id) {
            None => None,
            Some(i) => Commit::from_bytes(self.commits[i].data.as_slice(), self.commits[i].id),
        }
    }

    /// Whether a commit is stored under `id`.
    pub fn has_commit(&self, id: &ObjectId) -> (r: bool)
        ensures
            r == (self@.commit(id@) is Some),
    {
        self.get_commit(id).is_some()
    }

    /// Stores a commit under its identifier, unless a commit is stored
    /// there already.
    pub fn save_commit(&mut self, c: &Commit)
        ensures
            final(self)@ == (StoreView {
                commits: insert_row(
                    old(self)@.commits,
                    RowView { id: c@.id, data: crate::commit::commit_bytes(c@), commit_id: None },
                ),
                ..old(self)@
            }),
            old(self).wf() ==> final(self).wf(),
    {
        let row = ObjectRow { id: c.id, data: c.to_data(), commit_id: None };
        proof {
            if old(self).wf() {
                lemma_insert_row_distinct(old(self)@.commits, row@);
            }
        }
        insert_into(&mut self.commits, row);
    }

    /// Stores each commit of the list, one after the other.
    pub fn save_commits(&mut self, commits: &Vec<Commit>)
        ensures
            final(self)@ == (StoreView {
                commits: save_all_commits(old(self)@.commits, commits_view(commits@)),
                ..old(self)@
            }),
            old(self).wf() ==> final(self).wf(),
    {
        let ghost all = commits_view(commits@);
        let mut i: usize = 0;
        assert(all.take(0) =~= Seq::<CommitView>::empty());
        while i < commits.len()
            invariant
                i <= commits@.len(),
                all == commits_view(commits@),
                self@ == (StoreView {
                    commits: save_all_commits(old(self)@.commits, all.take(i as int)),
                    ..old(self)@
                }),
                old(self).wf() ==> self.wf(),
            decreases commits@.len() - i,
        {
            proof {
                assert(all.take(i + 1).drop_last() =~= all.take(i as int));
                assert(all.take(i + 1).last() == commits@[i as int]@);
            }
            self.save_commit(&commits[i]);
            i += 1;
        }
        assert(all.take(i as int) =~= all);
    }

    /// The trees stored under the identifiers, in the order of the
    /// identifiers; an identifier under which no tree is stored gives
    /// none.
    pub fn get_trees(&self, ids: &Vec<ObjectId>) -> (v: Vec<Tree>)
        ensures
            trees_view(v@) == trees_found(self@, crate::commit::ids_view(ids@)),
    {
        let ghost all = crate::commit::ids_view(ids@);
        let mut v: Vec<Tree> = Vec::new();
        let mut i: usize = 0;
        assert(all.take(0) =~= Seq::<Seq<u8>>::empty());
        assert(trees_view(v@) =~= Seq::<TreeView>::empty());
        while i < ids.len()
            invariant
                i <= ids@.len(),
                all == crate::commit::ids_view(ids@),
                trees_view(v@) == trees_found(self@, all.take(i as int)),
            decreases ids@.len() - i,
        {
            let ghost before = trees_view(v@);
            proof {
                assert(all.take(i + 1).drop_last() =~= all.take(i as int));
                assert(all.take(i + 1).last() == ids@[i as int]@);
            }
            match self.get_tree(&ids[i]) {
                None => {},
                Some(t) => {
                    let ghost tv = t@;
                    v.push(t);
                    assert(trees_view(v@) =~= before.push(tv));
                },
            }
            i += 1;
        }
        assert(all.take(i as int) =~= all);
        v
    }

    /// The tree stored under `id`.
    pub fn get_tree(&self, id: &ObjectId) -> (r: Option<Tree>)
        ensures
            match r {
                None => self@.tree(id@) is None,
                Some(t) => self@.tree(id@) == Some(t@.items) && t@.id == id@,
            },
    {
        match row_position(&self.trees, id) {
            None => None,
            Some(i) => {
                proof {
                    lemma_first_where(self@.trees, has_id(id@));
                }
                Tree::from_bytes(self.trees[i].data.as_slice(), self.trees[i].id)
            },
        }
    }

    /// The commit that brought the tree stored under `id`, where the store
    /// has noted one.
    pub fn get_tree_commit(&self, id: &ObjectId) -> (r: Option<ObjectId>)
        ensures
            opt_id_view(r) == (match find_row(self@.trees, id@) {
                None => None,
                Some(row) => row.commit_id,
            }),
    {
        match row_position(&self.trees, id) {
            None => None,
            Some(i) => self.trees[i].commit_id,
        }
    }

    /// Stores a tree under its identifier, with the commit that brought
    /// it, unless a tree is stored there already.
    pub fn save_tree(&mut self, t: &Tree, commit_id: Option<ObjectId>)
        ensures
            final(self)@ == (StoreView {
                trees: insert_row(
                    old(self)@.trees,
                    RowView {
                        id: t@.id,
                        data: crate::tree::items_bytes(t@.items),
                        commit_id: opt_id_view(commit_id),
                    },
                ),
                ..old(self)@
            }),
            old(self).wf() ==> final(self).wf(),
    {
        let row = ObjectRow { id: t.id, data: t.to_data(), commit_id };
        proof {
            if old(self).wf() {
                lemma_insert_row_distinct(old(self)@.trees, row@);
            }
        }
        insert_into(&mut self.trees, row);
    }

    /// The content of the blob stored under `id`.
    pub fn get_raw_blob(&self, id: &ObjectId) -> (r: Option<Vec<u8>>)
        ensures
            match r {
                None => find_row(self@.blobs, id@) is None,
                Some(data) => find_row(self@.blobs, id@) is Some && find_row(
                    self@.blobs,
                    id@,
                )->0.data == data@,
            },
    {
        match row_position(&self.blobs, id) {
            None => None,
            Some(i) => Some(byteseq::copy(self.blobs[i].data.as_slice())),
        }
    }

    /// What the store records about the blob stored under `id`: its
    /// identifier and the length of its content.
    pub fn get_blob_meta(&self, id: &ObjectId) -> (r: Option<BlobMeta>)
        ensures
            match r {
                None => find_row(self@.blobs, id@) is None,
                Some(m) => find_row(self@.blobs, id@) is Some && m.id@ == id@ && m.size
                    == find_row(self@.blobs, id@)->0.data.len(),
            },
    {
        match row_position(&self.blobs, id) {
            None => None,
            Some(i) => {
                proof {
                    lemma_first_where(self@.blobs, has_id(id@));
                }
                Some(BlobMeta { id: self.blobs[i].id, size: self.blobs[i].data.len() })
            },
        }
    }

    /// Files one entry in the table of its kind. An entry whose identifier
    /// that table holds already changes nothing.
    pub fn save_entry(&mut self, e: &Entry)
        ensures
            final(self)@ == ingest_one(old(self)@, e@),
            old(self).wf() ==> final(self).wf(),
    {
        let row = ObjectRow { id: e.hash, data: byteseq::copy(e.data.as_slice()), commit_id: None };
        proof {
            if old(self).wf() {
                lemma_ingest_one_wf(old(self)@, e@);
            }
        }
        match e.obj_type {
            ObjectType::Commit => insert_into(&mut self.commits, row),
            ObjectType::Tree => insert_into(&mut self.trees, row),
            ObjectType::Blob => insert_into(&mut self.blobs, row),
            ObjectType::Tag => insert_into(&mut self.tags, row),
        }
    }

    /// Files the entries, one after the other.
    pub fn batch_save_entries(&mut self, entries: &[Entry])
        ensures
            final(self)@ == ingest(old(self)@, entries_view(entries@)),
            old(self).wf() ==> final(self).wf(),
    {
        let ghost all = entries_view(entries@);
        let mut i: usize = 0;
        assert(all.take(0) =~= Seq::<EntryView>::empty());
        while i < entries.len()
            invariant
                i <= entries@.len(),
                all == entries_view(entries@),
                self@ == ingest(old(self)@, all.take(i as int)),
                old(self).wf() ==> self.wf(),
            decreases entries@.len() - i,
        {
            proof {
                assert(all.take(i + 1).drop_last() =~= all.take(i as int));
                assert(all.take(i + 1).last() == entries@[i as int]@);
            }
            self.save_entry(&entries[i]);
            i += 1;
        }
        assert(all.take(i as int) =~= all);
    }

    /// The commits of the store as entries, in the order in which they
    /// came.
    pub fn get_commits_by_repo(&self) -> (v: Vec<Entry>)
        ensures
            entries_view(v@) == rows_entries(ObjectType::Commit, self@.commits),
    {
        entries_from(ObjectType::Commit, &self.commits)
    }

    /// The trees of the store as entries, in the order in which they came.
    pub fn get_trees_by_repo(&self) -> (v: Vec<Entry>)
        ensures
            entries_view(v@) == rows_entries(ObjectType::Tree, self@.trees),
    {
        entries_from(ObjectType::Tree, &self.trees)
    }

    /// The blobs of the store as entries, in the order in which they came.
    pub fn get_blobs_by_repo(&self) -> (v: Vec<Entry>)
        ensures
            entries_view(v@) == rows_entries(ObjectType::Blob, self@.blobs),
    {
        entries_from(ObjectType::Blob, &self.blobs)
    }

    /// The tags of the store as entries, in the order in which they came.
    pub fn get_tags_by_repo(&self) -> (v: Vec<Entry>)
        ensures
            entries_view(v@) == rows_entries(ObjectType::Tag, self@.tags),
    {
        entries_from(ObjectType::Tag, &self.tags)
    }

    /// The number that the next merge request gets.
    pub fn next_mr_id(&self) -> (id: i64)
        ensures
            id == next_number(self@.mrs),
    {
        let n: u64 = self.mrs.len() as u64;
        if n < 0x7fff_ffff_ffff_ffffu64 {
            (n + 1) as i64
        } else {
            0x7fff_ffff_ffff_ffffi64
        }
    }

    /// The open merge request of `path`, if there is one.
    pub fn get_open_mr(&self, path: &RepoPath) -> (r: Option<MergeRequest>)
        ensures
            match r {
                None => find_where(self@.mrs, open_at(path@)) is None,
                Some(mr) => find_where(self@.mrs, open_at(path@)) == Some(mr@),
            },
    {
        let mut i: usize = 0;
        while i < self.mrs.len()
            invariant
                i <= self.mrs@.len(),
                forall|j: int| 0 <= j < i ==> !open_at(path@)(self@.mrs[j]),
            decreases self.mrs@.len() - i,
        {
            if self.mrs[i].is_open() && self.mrs[i].path.same(path) {
                proof {
                    lemma_first_where_is(self@.mrs, open_at(path@), i as int);
                }
                return Some(self.mrs[i].copy());
            }
            i += 1;
        }
        proof {
            lemma_first_where_is(self@.mrs, open_at(path@), i as int);
        }
        None
    }

    fn mr_position(&self, id: i64) -> (r: Option<usize>)
        ensures
            match r {
                None => first_where(self@.mrs, numbered(id)) == self@.mrs.len(),
                Some(i) => i < self.mrs@.len() && first_where(self@.mrs, numbered(id)) == i,
            },
    {
        let mut i: usize = 0;
        while i < self.mrs.len()
            invariant
                i <= self.mrs@.len(),
                forall|j: int| 0 <= j < i ==> !numbered(id)(self@.mrs[j]),
            decreases self.mrs@.len() - i,
        {
            if self.mrs[i].id == id {
                proof {
                    lemma_first_where_is(self@.mrs, numbered(id), i as int);
                }
                return Some(i);
            }
            i += 1;
        }
        proof {
            lemma_first_where_is(self@.mrs, numbered(id), i as int);
        }
        None
    }

    /// The merge request with the number `id`, whatever its state.
    pub fn get_mr_by_id(&self, id: i64) -> (r: Option<MergeRequest>)
        ensures
            match r {
                None => find_where(self@.mrs, numbered(id)) is None,
                Some(mr) => find_where(self@.mrs, numbered(id)) == Some(mr@),
            },
    {
        match self.mr_position(id) {
            None => None,
            Some(i) => Some(self.mrs[i].copy()),
        }
    }

    /// The merge request with the number `id`, if it is open.
    pub fn get_open_mr_by_id(&self, id: i64) -> (r: Option<MergeRequest>)
        ensures
            match r {
                None => match find_where(self@.mrs, numbered(id)) {
                    None => true,
                    Some(mr) => mr.status != MergeStatus::Open,
                },
                Some(mr) => find_where(self@.mrs, numbered(id)) == Some(mr@) && mr@.status
                    == MergeStatus::Open,
            },
    {
        match self.get_mr_by_id(id) {
            None => None,
            Some(mr) => if mr.is_open() {
                Some(mr)
            } else {
                None
            },
        }
    }

    /// Adds a merge request.
    pub fn save_mr(&mut self, mr: MergeRequest)
        ensures
            final(self)@ == (StoreView { mrs: old(self)@.mrs.push(mr@), ..old(self)@ }),
            old(self).wf() ==> final(self).wf(),
    {
        let ghost before = self@.mrs;
        let ghost mv = mr@;
        self.mrs.push(mr);
        assert(self@.mrs =~= before.push(mv));
    }

    /// Puts `mr` in the place of the merge request with its number. Where
    /// none has it, nothing changes.
    pub fn update_mr(&mut self, mr: MergeRequest)
        ensures
            final(self)@ == (StoreView { mrs: replace_mr(old(self)@.mrs, mr@), ..old(self)@ }),
            old(self).wf() ==> final(self).wf(),
    {
        let ghost before = self@.mrs;
        let ghost mv = mr@;
        match self.mr_position(mr.id) {
            Some(i) => {
                self.mrs[i] = mr;
                assert(self@.mrs =~= before.update(i as int, mv));
            },
            None => {},
        }
    }

    /// Adds an entry to the conversation of the merge request `mr_id`.
    pub fn add_mr_conversation(
        &mut self,
        mr_id: i64,
        author_id: i64,
        kind: ConvType,
        body: Option<Vec<u8>>,
    )
        ensures
            final(self)@ == (StoreView {
                conversations: old(self)@.conversations.push(
                    ConversationView { mr_id, author_id, kind, body: crate::mr::body_view(body) },
                ),
                ..old(self)@
            }),
            old(self).wf() ==> final(self).wf(),
    {
        let ghost before = self@.conversations;
        let c = Conversation { mr_id, author_id, kind, body };
        let ghost cv = c@;
        self.conversations.push(c);
        assert(self@.conversations =~= before.push(cv));
    }

    /// The conversation of the merge request `mr_id`, oldest entry first.
    pub fn get_mr_conversations(&self, mr_id: i64) -> (v: Vec<Conversation>)
        ensures
            conversations_view(v@) == self@.conversations.filter(about(mr_id)),
    {
        let mut v: Vec<Conversation> = Vec::new();
        let mut i: usize = 0;
        let ghost all = self@.conversations;
        proof {
            reveal(Seq::filter);
            assert(all.take(0) =~= Seq::<ConversationView>::empty());
            assert(conversations_view(v@) =~= all.take(0).filter(about(mr_id)));
        }
        while i < self.conversations.len()
            invariant
                i <= self.conversations@.len(),
                all == conversations_view(self.conversations@),
                conversations_view(v@) == all.take(i as int).filter(about(mr_id)),
            decreases self.conversations@.len() - i,
        {
            let ghost before = conversations_view(v@);
            proof {
                reveal(Seq::filter);
                assert(all.take(i + 1).drop_last() =~= all.take(i as int));
            }
            if self.conversations[i].mr_id == mr_id {
                v.push(self.conversations[i].copy());
                assert(conversations_view(v@) =~= before.push(all[i as int]));
            }
            i += 1;
        }
        assert(all.take(i as int) =~= all);
        v
    }

    /// The number of objects in the store; `None` where it does not fit
    /// the machine's word.
    pub fn get_obj_count(&self) -> (r: Option<usize>)
        ensures
            match r {
                None => object_count(self@) > usize::MAX,
                Some(n) => n == object_count(self@),
            },
    {
        let a = self.commits.len().checked_add(self.trees.len())?;
        let b = a.checked_add(self.blobs.len())?;
        b.checked_add(self.tags.len())
    }
}

/// The number of objects in a store.
pub open spec fn object_count(s: StoreView) -> nat {
    s.commits.len() + s.trees.len() + s.blobs.len() + s.tags.len()
}

} // verus!
