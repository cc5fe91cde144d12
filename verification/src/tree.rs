//! Trees: ordered lists of named entries, and their canonical bytes.

use vstd::prelude::*;
use crate::byteseq;
use crate::hash::ObjectId;
use crate::object::{object_id, object_id_of, ObjectType};
use crate::scan::{find_from, first_index, lemma_first_index_at, lemma_first_index_range};

verus! {

/// What a tree entry points at.
#[derive(Clone, Copy, Debug, PartialEq, Eq, Structural)]
pub enum TreeItemMode {
    Blob,
    BlobExecutable,
    Tree,
    Commit,
    Link,
}

/// The octal digits that stand for a mode in a tree's bytes.
pub open spec fn mode_bytes(mode: TreeItemMode) -> Seq<u8> {
    match mode {
        TreeItemMode::Blob => seq![49u8, 48u8, 48u8, 54u8, 52u8, 52u8],
        TreeItemMode::BlobExecutable => seq![49u8, 48u8, 48u8, 55u8, 53u8, 53u8],
        TreeItemMode::Tree => seq![52u8, 48u8, 48u8, 48u8, 48u8],
        TreeItemMode::Commit => seq![49u8, 54u8, 48u8, 48u8, 48u8, 48u8],
        TreeItemMode::Link => seq![49u8, 50u8, 48u8, 48u8, 48u8, 48u8],
    }
}

/// The mode that a run of digits stands for, if any.
pub open spec fn mode_of(d: Seq<u8>) -> Option<TreeItemMode> {
    if d == mode_bytes(TreeItemMode::Blob) {
        Some(TreeItemMode::Blob)
    } else if d == mode_bytes(TreeItemMode::BlobExecutable) {
        Some(TreeItemMode::BlobExecutable)
    } else if d == mode_bytes(TreeItemMode::Tree) {
        Some(TreeItemMode::Tree)
    } else if d == mode_bytes(TreeItemMode::Commit) {
        Some(TreeItemMode::Commit)
    } else if d == mode_bytes(TreeItemMode::Link) {
        Some(TreeItemMode::Link)
    } else {
        None
    }
}

/// One entry of a tree.
#[derive(Debug)]
pub struct TreeItem {
    pub mode: TreeItemMode,
    pub id: ObjectId,
    pub name: Vec<u8>,
}

/// The mathematical value of a tree entry.
pub struct TreeItemView {
    pub mode: TreeItemMode,
    pub id: Seq<u8>,
    pub name: Seq<u8>,
}

impl View for TreeItem {
    type V = TreeItemView;

    open spec fn view(&self) -> TreeItemView {
        TreeItemView { mode: self.mode, id: self.id@, name: self.name@ }
    }
}

/// An entry that can be written and read back: twenty bytes of identifier
/// and a name without a zero byte.
pub open spec fn item_wf(it: TreeItemView) -> bool {
    &&& it.id.len() == 20
    &&& forall|j: int| 0 <= j < it.name.len() ==> it.name[j] != 0u8
}

/// Every entry of the list can be written and read back.
pub open spec fn items_wf(items: Seq<TreeItemView>) -> bool {
    forall|i: int| 0 <= i < items.len() ==> item_wf(#[trigger] items[i])
}

/// The bytes of one entry: mode, a space, the name, a zero byte, the
/// identifier.
pub open spec fn item_bytes(it: TreeItemView) -> Seq<u8> {
    mode_bytes(it.mode) + seq![32u8] + it.name + seq![0u8] + it.id
}

/// The bytes of a tree: those of its entries, in order.
pub open spec fn items_bytes(items: Seq<TreeItemView>) -> Seq<u8>
    decreases items.len(),
{
    if items.len() == 0 {
        Seq::empty()
    } else {
        item_bytes(items[0]) + items_bytes(items.skip(1))
    }
}

/// The values of a list of entries.
pub open spec fn items_view(items: Seq<TreeItem>) -> Seq<TreeItemView> {
    Seq::new(items.len(), |i: int| items[i]@)
}

/// Reading one entry from the front of `d`: the entry and the number of
/// bytes it took.
pub open spec fn parse_item(d: Seq<u8>) -> Option<(TreeItemView, int)> {
    let sp = first_index(d, 32u8);
    if sp >= d.len() {
        None
    } else {
        match mode_of(d.take(sp)) {
            None => None,
            Some(mode) => {
                let rest = d.skip(sp + 1);
                let nul = first_index(rest, 0u8);
                if nul + 20 >= rest.len() {
                    None
                } else {
                    Some(
                        (
                            TreeItemView {
                                mode,
                                id: rest.subrange(nul + 1, nul + 21),
                                name: rest.take(nul),
                            },
                            sp + nul + 22,
                        ),
                    )
                }
            },
        }
    }
}

/// Reading a whole tree: the entries that `d` consists of, if it consists
/// of entries.
pub open spec fn parse_items(d: Seq<u8>) -> Option<Seq<TreeItemView>>
    decreases d.len(),
{
    if d.len() == 0 {
        Some(Seq::empty())
    } else {
        match parse_item(d) {
            None => None,
            Some((it, n)) => if 0 < n <= d.len() {
                match parse_items(d.skip(n)) {
                    None => None,
                    Some(rest) => Some(seq![it] + rest),
                }
            } else {
                None
            },
        }
    }
}

/// Serialising a list extended by one entry appends that entry's bytes.
pub proof fn lemma_items_bytes_push(items: Seq<TreeItemView>, it: TreeItemView)
    ensures
        items_bytes(items.push(it)) == items_bytes(items) + item_bytes(it),
    decreases items.len(),
{
    if items.len() == 0 {
        let one = items.push(it);
        assert(one.skip(1) =~= Seq::<TreeItemView>::empty());
        assert(one[0] == it);
        assert(items_bytes(one.skip(1)) =~= Seq::<u8>::empty());
        assert(items_bytes(one) == item_bytes(it) + items_bytes(one.skip(1)));
        assert(items_bytes(items) =~= Seq::<u8>::empty());
        assert(items_bytes(one) =~= items_bytes(items) + item_bytes(it));
    } else {
        lemma_items_bytes_push(items.skip(1), it);
        let all = items.push(it);
        assert(all.skip(1) =~= items.skip(1).push(it));
        assert(all[0] == items[0]);
        assert(items_bytes(all) == item_bytes(items[0]) + items_bytes(all.skip(1)));
        assert(items_bytes(items) == item_bytes(items[0]) + items_bytes(items.skip(1)));
        assert(items_bytes(all) =~= items_bytes(items) + item_bytes(it));
    }
}

/// An entry that is read from the front of a byte string is well formed,
/// and the bytes it took are its own.
pub proof fn lemma_parse_item_sound(d: Seq<u8>)
    requires
        parse_item(d) is Some,
    ensures
        item_wf(parse_item(d).unwrap().0),
        0 < parse_item(d).unwrap().1 <= d.len(),
        d.take(parse_item(d).unwrap().1) == item_bytes(parse_item(d).unwrap().0),
{
    let sp = first_index(d, 32u8);
    lemma_first_index_range(d, 32u8);
    let mode = mode_of(d.take(sp))->0;
    let rest = d.skip(sp + 1);
    let nul = first_index(rest, 0u8);
    lemma_first_index_range(rest, 0u8);
    let it = parse_item(d).unwrap().0;
    let n = parse_item(d).unwrap().1;
    assert(d.take(sp) == mode_bytes(mode));
    assert(d.take(n) =~= item_bytes(it));
}

/// Whatever reads as a tree is made of well-formed entries, whose bytes
/// are exactly what was read.
pub proof fn lemma_parse_items_sound(d: Seq<u8>)
    requires
        parse_items(d) is Some,
    ensures
        items_wf(parse_items(d)->0),
        items_bytes(parse_items(d)->0) == d,
    decreases d.len(),
{
    if d.len() == 0 {
        assert(items_bytes(parse_items(d)->0) =~= d);
    } else {
        lemma_parse_item_sound(d);
        let it = parse_item(d).unwrap().0;
        let n = parse_item(d).unwrap().1;
        lemma_parse_items_sound(d.skip(n));
        let rest = parse_items(d.skip(n))->0;
        let all = seq![it] + rest;
        assert(all.skip(1) =~= rest);
        assert(all[0] == it);
        assert(d =~= d.take(n) + d.skip(n));
    }
}

/// The bytes of no mode hold a space.
pub proof fn lemma_mode_bytes(mode: TreeItemMode)
    ensures
        5 <= mode_bytes(mode).len() <= 6,
        forall|j: int| 0 <= j < mode_bytes(mode).len() ==> mode_bytes(mode)[j] != 32u8,
        mode_of(mode_bytes(mode)) == Some(mode),
{
    let blob = mode_bytes(TreeItemMode::Blob);
    let exec = mode_bytes(TreeItemMode::BlobExecutable);
    let tree = mode_bytes(TreeItemMode::Tree);
    let commit = mode_bytes(TreeItemMode::Commit);
    let link = mode_bytes(TreeItemMode::Link);
    assert(blob[3] == 54u8 && exec[3] == 55u8);
    assert(blob[1] == 48u8 && commit[1] == 54u8 && link[1] == 50u8 && exec[1] == 48u8);
    assert(tree.len() == 5 && blob.len() == 6 && exec.len() == 6 && commit.len() == 6
        && link.len() == 6);
}

/// A well-formed entry, written in front of anything, is read back as
/// itself.
pub proof fn lemma_parse_item_round(it: TreeItemView, tail: Seq<u8>)
    requires
        item_wf(it),
    ensures
        parse_item(item_bytes(it) + tail) == Some((it, item_bytes(it).len() as int)),
{
    let d = item_bytes(it) + tail;
    let m = mode_bytes(it.mode);
    lemma_mode_bytes(it.mode);
    let sp = m.len() as int;
    assert(d[sp] == 32u8);
    assert forall|j: int| 0 <= j < sp implies d[j] != 32u8 by {
        assert(d[j] == m[j]);
    }
    lemma_first_index_at(d, 32u8, sp);
    assert(d.take(sp) =~= m);
    let rest = d.skip(sp + 1);
    let nul = it.name.len() as int;
    assert(rest =~= it.name + seq![0u8] + it.id + tail);
    assert(rest[nul] == 0u8);
    assert forall|j: int| 0 <= j < nul implies rest[j] != 0u8 by {
        assert(rest[j] == it.name[j]);
    }
    lemma_first_index_at(rest, 0u8, nul);
    assert(rest.take(nul) =~= it.name);
    assert(rest.subrange(nul + 1, nul + 21) =~= it.id);
}

/// A list of well-formed entries, once written, is read back as itself.
pub proof fn lemma_parse_items_round(items: Seq<TreeItemView>)
    requires
        items_wf(items),
    ensures
        parse_items(items_bytes(items)) == Some(items),
    decreases items.len(),
{
    if items.len() == 0 {
        assert(items =~= Seq::<TreeItemView>::empty());
    } else {
        let it = items[0];
        let tail = items_bytes(items.skip(1));
        assert(item_wf(it));
        lemma_parse_item_round(it, tail);
        lemma_mode_bytes(it.mode);
        let d = items_bytes(items);
        let n = item_bytes(it).len() as int;
        assert(d.skip(n) =~= tail);
        assert forall|i: int| 0 <= i < items.skip(1).len() implies item_wf(
            #[trigger] items.skip(1)[i],
        ) by {
            assert(items.skip(1)[i] == items[i + 1]);
        }
        lemma_parse_items_round(items.skip(1));
        assert(seq![it] + items.skip(1) =~= items);
    }
}

} // verus!

verus! {

/// The digits of a mode.
pub fn mode_data(mode: TreeItemMode) -> (v: Vec<u8>)
    ensures
        v@ == mode_bytes(mode),
{
    let v = match mode {
        TreeItemMode::Blob => vec![49u8, 48u8, 48u8, 54u8, 52u8, 52u8],
        TreeItemMode::BlobExecutable => vec![49u8, 48u8, 48u8, 55u8, 53u8, 53u8],
        TreeItemMode::Tree => vec![52u8, 48u8, 48u8, 48u8, 48u8],
        TreeItemMode::Commit => vec![49u8, 54u8, 48u8, 48u8, 48u8, 48u8],
        TreeItemMode::Link => vec![49u8, 50u8, 48u8, 48u8, 48u8, 48u8],
    };
    assert(v@ =~= mode_bytes(mode));
    v
}

/// The mode that a run of digits stands for, if any.
pub fn mode_from(d: &[u8]) -> (r: Option<TreeItemMode>)
    ensures
        r == mode_of(d@),
{
    if byteseq::equal(d, mode_data(TreeItemMode::Blob).as_slice()) {
        Some(TreeItemMode::Blob)
    } else if byteseq::equal(d, mode_data(TreeItemMode::BlobExecutable).as_slice()) {
        Some(TreeItemMode::BlobExecutable)
    } else if byteseq::equal(d, mode_data(TreeItemMode::Tree).as_slice()) {
        Some(TreeItemMode::Tree)
    } else if byteseq::equal(d, mode_data(TreeItemMode::Commit).as_slice()) {
        Some(TreeItemMode::Commit)
    } else if byteseq::equal(d, mode_data(TreeItemMode::Link).as_slice()) {
        Some(TreeItemMode::Link)
    } else {
        None
    }
}

impl TreeItem {
    /// An entry of the given mode, identifier and name.
    pub fn new(mode: TreeItemMode, id: ObjectId, name: Vec<u8>) -> (it: TreeItem)
        ensures
            it@ == (TreeItemView { mode, id: id@, name: name@ }),
    {
        TreeItem { mode, id, name }
    }

    /// A copy of the entry.
    pub fn copy(&self) -> (it: TreeItem)
        ensures
            it@ == self@,
    {
        TreeItem {
            mode: self.mode,
            id: self.id,
            name: byteseq::copy(self.name.as_slice()),
        }
    }

    /// Appends the entry's bytes to `dst`.
    pub fn write_to(&self, dst: &mut Vec<u8>)
        ensures
            final(dst)@ == old(dst)@ + item_bytes(self@),
    {
        byteseq::append(dst, mode_data(self.mode).as_slice());
        dst.push(32u8);
        byteseq::append(dst, self.name.as_slice());
        dst.push(0u8);
        byteseq::append(dst, self.id.to_data().as_slice());
        assert(dst@ =~= old(dst)@ + item_bytes(self@));
    }
}

/// Reads one entry of a tree from `d` at `pos`: the entry and the number
/// of bytes it took.
pub fn read_item(d: &[u8], pos: usize) -> (r: Option<(TreeItem, usize)>)
    requires
        pos <= d@.len(),
    ensures
        match r {
            None => parse_item(d@.skip(pos as int)) is None,
            Some((it, n)) => parse_item(d@.skip(pos as int)) == Some((it@, n as int)) && pos + n
                <= d@.len(),
        },
{
    let ghost here = d@.skip(pos as int);
    let len = d.len();
    let sp = find_from(d, pos, 32u8);
    if sp >= len - pos {
        return None;
    }
    let digits = byteseq::slice(d, pos, pos + sp);
    assert(digits@ =~= here.take(sp as int));
    let mode = match mode_from(digits.as_slice()) {
        None => {
            return None;
        },
        Some(mode) => mode,
    };
    let start = pos + sp + 1;
    let ghost rest = here.skip(sp + 1);
    assert(rest =~= d@.skip(start as int));
    let nul = find_from(d, start, 0u8);
    if len - start - nul <= 20 {
        return None;
    }
    let name = byteseq::slice(d, start, start + nul);
    assert(name@ =~= rest.take(nul as int));
    let id = ObjectId::from_slice(d, start + nul + 1);
    assert(id@ =~= rest.subrange(nul + 1, nul + 21));
    Some((TreeItem { mode, id, name }, sp + nul + 22))
}

/// A tree: its identifier and its entries.
#[derive(Debug)]
pub struct Tree {
    pub id: ObjectId,
    pub tree_items: Vec<TreeItem>,
}

/// The mathematical value of a tree.
pub struct TreeView {
    pub id: Seq<u8>,
    pub items: Seq<TreeItemView>,
}

impl View for Tree {
    type V = TreeView;

    open spec fn view(&self) -> TreeView {
        TreeView { id: self.id@, items: items_view(self.tree_items@) }
    }
}

/// The identifier that a tree of these entries has.
pub open spec fn tree_id_of(items: Seq<TreeItemView>) -> Seq<u8> {
    object_id_of(ObjectType::Tree, items_bytes(items))
}

/// The place of the first entry named `name`, or the length of the list
/// where none has that name.
pub open spec fn position_of(items: Seq<TreeItemView>, name: Seq<u8>) -> int
    decreases items.len(),
{
    if items.len() == 0 {
        0
    } else if items[0].name == name {
        0
    } else {
        1 + position_of(items.skip(1), name)
    }
}

/// `position_of` gives a place within the list or its length; the entry
/// there has the name, and none before it has.
pub proof fn lemma_position_of(items: Seq<TreeItemView>, name: Seq<u8>)
    ensures
        0 <= position_of(items, name) <= items.len(),
        position_of(items, name) < items.len() ==> items[position_of(items, name)].name == name,
        forall|j: int| 0 <= j < position_of(items, name) ==> items[j].name != name,
    decreases items.len(),
{
    if items.len() != 0 && items[0].name != name {
        lemma_position_of(items.skip(1), name);
        assert forall|j: int| 0 <= j < position_of(items, name) implies items[j].name != name by {
            if j > 0 {
                assert(items.skip(1)[j - 1] == items[j]);
            }
        }
    }
}

/// The first place that holds the name and has none with it before is
/// what `position_of` gives.
pub proof fn lemma_position_is(items: Seq<TreeItemView>, name: Seq<u8>, i: int)
    requires
        0 <= i <= items.len(),
        i < items.len() ==> items[i].name == name,
        forall|j: int| 0 <= j < i ==> items[j].name != name,
    ensures
        position_of(items, name) == i,
{
    lemma_position_of(items, name);
    let p = position_of(items, name);
    if p < i {
        assert(items[p].name != name);
    }
    if i < p {
        assert(items[i].name != name);
    }
}

impl Tree {
    /// The canonical bytes of the tree.
    pub fn to_data(&self) -> (v: Vec<u8>)
        ensures
            v@ == items_bytes(self@.items),
    {
        items_data(&self.tree_items)
    }

    /// The tree of the given entries, under the identifier that they give.
    pub fn from_tree_items(tree_items: Vec<TreeItem>) -> (t: Tree)
        ensures
            t.tree_items == tree_items,
            t@.id == tree_id_of(items_view(tree_items@)),
    {
        let data = items_data(&tree_items);
        let id = object_id(ObjectType::Tree, data.as_slice());
        Tree { id, tree_items }
    }

    /// Reads a tree from its canonical bytes. The result is `None` exactly
    /// where `data` is the bytes of no list of well-formed entries.
    pub fn from_bytes(data: &[u8], id: ObjectId) -> (r: Option<Tree>)
        ensures
            r is Some <==> parse_items(data@) is Some,
            r matches Some(t) ==> t@.id == id@ && Some(t@.items) == parse_items(data@) && items_wf(
                t@.items,
            ) && items_bytes(t@.items) == data@,
            r is None ==> forall|items: Seq<TreeItemView>|
                items_wf(items) ==> items_bytes(items) != data@,
    {
        let mut acc: Vec<TreeItem> = Vec::new();
        let mut pos: usize = 0;
        proof {
            assert(data@.skip(0) =~= data@);
            match parse_items(data@) {
                None => {},
                Some(rest) => {
                    assert(items_view(acc@) + rest =~= rest);
                },
            }
        }
        while pos < data.len()
            invariant
                pos <= data@.len(),
                parse_items(data@) == (match parse_items(data@.skip(pos as int)) {
                    None => None,
                    Some(rest) => Some(items_view(acc@) + rest),
                }),
            decreases data@.len() - pos,
        {
            let ghost before = items_view(acc@);
            match read_item(data, pos) {
                None => {
                    proof {
                        assert(parse_items(data@) is None);
                        lemma_unreadable(data@);
                    }
                    return None;
                },
                Some((it, n)) => {
                    proof {
                        lemma_parse_item_sound(data@.skip(pos as int));
                        assert(data@.skip(pos as int).skip(n as int) =~= data@.skip(pos + n));
                    }
                    acc.push(it);
                    proof {
                        assert(items_view(acc@) =~= before.push(it@));
                        match parse_items(data@.skip(pos + n)) {
                            None => {},
                            Some(rest) => {
                                assert(before + (seq![it@] + rest) =~= items_view(acc@) + rest);
                            },
                        }
                    }
                    pos = pos + n;
                },
            }
        }
        proof {
            assert(data@.skip(pos as int).len() == 0);
            assert(items_view(acc@) + Seq::<TreeItemView>::empty() =~= items_view(acc@));
            lemma_parse_items_sound(data@);
        }
        Some(Tree { id, tree_items: acc })
    }

    /// The place of the first entry named `name`.
    pub fn position(&self, name: &[u8]) -> (r: Option<usize>)
        ensures
            match r {
                None => position_of(self@.items, name@) == self@.items.len(),
                Some(i) => i < self@.items.len() && position_of(self@.items, name@) == i,
            },
    {
        let mut i: usize = 0;
        while i < self.tree_items.len()
            invariant
                i <= self.tree_items@.len(),
                forall|j: int| 0 <= j < i ==> self@.items[j].name != name@,
            decreases self.tree_items@.len() - i,
        {
            if byteseq::equal(self.tree_items[i].name.as_slice(), name) {
                proof {
                    lemma_position_is(self@.items, name@, i as int);
                }
                return Some(i);
            }
            i += 1;
        }
        proof {
            lemma_position_is(self@.items, name@, i as int);
        }
        None
    }

    /// Whether every entry of the tree can be written and read back: no
    /// name holds a zero byte.
    pub fn is_well_formed(&self) -> (r: bool)
        ensures
            r == items_wf(self@.items),
    {
        let mut i: usize = 0;
        while i < self.tree_items.len()
            invariant
                i <= self.tree_items@.len(),
                forall|k: int| 0 <= k < i ==> item_wf(#[trigger] self@.items[k]),
            decreases self.tree_items@.len() - i,
        {
            let name = &self.tree_items[i].name;
            assert(self@.items[i as int] == self.tree_items@[i as int]@);
            let mut j: usize = 0;
            while j < name.len()
                invariant
                    j <= name@.len(),
                    i < self.tree_items@.len(),
                    name@ == self@.items[i as int].name,
                    forall|m: int| 0 <= m < j ==> name@[m] != 0u8,
                decreases name@.len() - j,
            {
                if name[j] == 0u8 {
                    assert(!item_wf(self@.items[i as int]));
                    return false;
                }
                j += 1;
            }
            assert(item_wf(self@.items[i as int]));
            i += 1;
        }
        true
    }

    /// A copy of the tree.
    pub fn copy(&self) -> (t: Tree)
        ensures
            t@ == self@,
    {
        let mut items: Vec<TreeItem> = Vec::new();
        let mut i: usize = 0;
        assert(items_view(items@) =~= items_view(self.tree_items@).take(0));
        while i < self.tree_items.len()
            invariant
                i <= self.tree_items@.len(),
                items_view(items@) == items_view(self.tree_items@).take(i as int),
            decreases self.tree_items@.len() - i,
        {
            let ghost before = items_view(items@);
            items.push(self.tree_items[i].copy());
            assert(items_view(items@) =~= before.push(self.tree_items@[i as int]@));
            assert(items_view(items@) =~= items_view(self.tree_items@).take(i + 1));
            i += 1;
        }
        assert(items_view(self.tree_items@).take(i as int) =~= items_view(self.tree_items@));
        Tree { id: self.id, tree_items: items }
    }
}

/// Bytes that do not read as a tree are the bytes of no list of
/// well-formed entries.
pub proof fn lemma_unreadable(d: Seq<u8>)
    requires
        parse_items(d) is None,
    ensures
        forall|items: Seq<TreeItemView>| items_wf(items) ==> items_bytes(items) != d,
{
    assert forall|items: Seq<TreeItemView>| items_wf(items) implies items_bytes(items) != d by {
        lemma_parse_items_round(items);
    }
}

/// The canonical bytes of a list of entries.
pub fn items_data(items: &Vec<TreeItem>) -> (v: Vec<u8>)
    ensures
        v@ == items_bytes(items_view(items@)),
{
    let mut v: Vec<u8> = Vec::new();
    let mut i: usize = 0;
    assert(items_view(items@).take(0) =~= Seq::<TreeItemView>::empty());
    while i < items.len()
        invariant
            i <= items@.len(),
            v@ == items_bytes(items_view(items@).take(i as int)),
        decreases items@.len() - i,
    {
        proof {
            lemma_items_bytes_push(items_view(items@).take(i as int), items@[i as int]@);
            assert(items_view(items@).take(i as int).push(items@[i as int]@) =~= items_view(
                items@,
            ).take(i + 1));
        }
        items[i].write_to(&mut v);
        i += 1;
    }
    assert(items_view(items@).take(i as int) =~= items_view(items@));
    v
}

/// No two entries of the list have one name.
pub open spec fn unique_names(items: Seq<TreeItemView>) -> bool {
    forall|i: int, j: int| 0 <= i < j < items.len() ==> items[i].name != items[j].name
}

/// The entries with `item` in the place of the first entry of its name,
/// or at the end where no entry has its name.
pub open spec fn put_item(items: Seq<TreeItemView>, item: TreeItemView) -> Seq<TreeItemView> {
    let i = position_of(items, item.name);
    if i < items.len() {
        items.update(i, item)
    } else {
        items.push(item)
    }
}

/// After an entry has been put into a list, its name stands for it, and a
/// list without repeated names is still without repeated names.
pub proof fn lemma_put_item(items: Seq<TreeItemView>, item: TreeItemView)
    ensures
        position_of(put_item(items, item), item.name) < put_item(items, item).len(),
        put_item(items, item)[position_of(put_item(items, item), item.name)] == item,
        unique_names(items) ==> unique_names(put_item(items, item)),
{
    lemma_position_of(items, item.name);
    let i = position_of(items, item.name);
    let after = put_item(items, item);
    assert forall|j: int| 0 <= j < i implies after[j].name != item.name by {
        assert(after[j] == items[j]);
    }
    lemma_position_is(after, item.name, i);
    if unique_names(items) {
        assert forall|a: int, b: int| 0 <= a < b < after.len() implies after[a].name
            != after[b].name by {
            if i < items.len() {
                assert(items[a].name != items[b].name);
            } else if b < items.len() {
                assert(items[a].name != items[b].name);
            }
        }
    }
}

/// Puts `item` in the place of the first entry of its name, or at the end
/// where no entry has its name.
pub fn put_item_into(items: &mut Vec<TreeItem>, item: TreeItem)
    ensures
        items_view(final(items)@) == put_item(items_view(old(items)@), item@),
{
    let ghost before = items_view(items@);
    let ghost iv = item@;
    let mut i: usize = 0;
    while i < items.len()
        invariant
            i <= items@.len(),
            items@ == old(items)@,
            before == items_view(items@),
            forall|j: int| 0 <= j < i ==> before[j].name != iv.name,
            iv == item@,
        decreases items@.len() - i,
    {
        if byteseq::equal(items[i].name.as_slice(), item.name.as_slice()) {
            proof {
                lemma_position_is(before, iv.name, i as int);
            }
            items[i] = item;
            assert(items_view(items@) =~= before.update(i as int, iv));
            return;
        }
        i += 1;
    }
    proof {
        lemma_position_is(before, iv.name, i as int);
    }
    items.push(item);
    assert(items_view(items@) =~= before.push(iv));
}

} // verus!
