//! Commits and their canonical bytes.

use vstd::prelude::*;
use vstd::string::*;
use crate::byteseq;
use crate::hash::{hex_of, lemma_unhex_round, lemma_unhex_sound, unhex, ObjectId};
use crate::object::{object_id, object_id_of, ObjectType};
use crate::scan::{
    find_from, first_index, has_prefix_at, lemma_first_index_at, lemma_first_index_range,
    starts_with,
};

verus! {

/// A commit: its identifier, the tree it records, its parents, and the
/// lines of its author and committer. `message` is all that follows the
/// committer's line, which for a plain commit is an empty line and the
/// text.
#[derive(Debug)]
pub struct Commit {
    pub id: ObjectId,
    pub tree_id: ObjectId,
    pub parent_ids: Vec<ObjectId>,
    pub author: Vec<u8>,
    pub committer: Vec<u8>,
    pub message: Vec<u8>,
}

/// The mathematical value of a commit.
pub struct CommitView {
    pub id: Seq<u8>,
    pub tree_id: Seq<u8>,
    pub parents: Seq<Seq<u8>>,
    pub author: Seq<u8>,
    pub committer: Seq<u8>,
    pub message: Seq<u8>,
}

/// The values of a list of identifiers.
pub open spec fn ids_view(ids: Seq<ObjectId>) -> Seq<Seq<u8>> {
    Seq::new(ids.len(), |i: int| ids[i]@)
}

impl View for Commit {
    type V = CommitView;

    open spec fn view(&self) -> CommitView {
        CommitView {
            id: self.id@,
            tree_id: self.tree_id@,
            parents: ids_view(self.parent_ids@),
            author: self.author@,
            committer: self.committer@,
            message: self.message@,
        }
    }
}

/// The bytes of `tree` and a space.
pub open spec fn kw_tree() -> Seq<u8> {
    seq![116u8, 114u8, 101u8, 101u8, 32u8]
}

/// The bytes of `parent` and a space.
pub open spec fn kw_parent() -> Seq<u8> {
    seq![112u8, 97u8, 114u8, 101u8, 110u8, 116u8, 32u8]
}

/// The bytes of `author` and a space.
pub open spec fn kw_author() -> Seq<u8> {
    seq![97u8, 117u8, 116u8, 104u8, 111u8, 114u8, 32u8]
}

/// The bytes of `committer` and a space.
pub open spec fn kw_committer() -> Seq<u8> {
    seq![99u8, 111u8, 109u8, 109u8, 105u8, 116u8, 116u8, 101u8, 114u8, 32u8]
}

/// The line that names one parent.
pub open spec fn parent_line(p: Seq<u8>) -> Seq<u8> {
    kw_parent() + hex_of(p) + seq![10u8]
}

/// The lines that name the parents, in order.
pub open spec fn parents_bytes(ps: Seq<Seq<u8>>) -> Seq<u8>
    decreases ps.len(),
{
    if ps.len() == 0 {
        Seq::empty()
    } else {
        parent_line(ps[0]) + parents_bytes(ps.skip(1))
    }
}

/// The author's line, the committer's line and the message.
pub open spec fn people_bytes(author: Seq<u8>, committer: Seq<u8>, message: Seq<u8>) -> Seq<u8> {
    (kw_author() + author + seq![10u8]) + (kw_committer() + committer + seq![10u8] + message)
}

/// The canonical bytes of a commit: the tree's line, the parents' lines,
/// the author's and the committer's line, and the message.
pub open spec fn commit_bytes(c: CommitView) -> Seq<u8> {
    (kw_tree() + hex_of(c.tree_id) + seq![10u8]) + (parents_bytes(c.parents) + people_bytes(
        c.author,
        c.committer,
        c.message,
    ))
}

/// The identifier that a commit of these fields has.
pub open spec fn commit_id_of(c: CommitView) -> Seq<u8> {
    object_id_of(ObjectType::Commit, commit_bytes(c))
}

/// A line holds no line feed.
pub open spec fn is_line(s: Seq<u8>) -> bool {
    forall|j: int| 0 <= j < s.len() ==> s[j] != 10u8
}

/// A commit that can be written and read back: identifiers of twenty
/// bytes, and an author and a committer of one line each.
pub open spec fn commit_wf(c: CommitView) -> bool {
    &&& c.tree_id.len() == 20
    &&& forall|i: int| 0 <= i < c.parents.len() ==> (#[trigger] c.parents[i]).len() == 20
    &&& is_line(c.author)
    &&& is_line(c.committer)
}

/// Reading the parents' lines from the front of `d`: the parents and the
/// number of bytes their lines took.
pub open spec fn parse_parents(d: Seq<u8>) -> (Seq<Seq<u8>>, int)
    decreases d.len(),
{
    if starts_with(d, kw_parent()) && d.len() >= 48 && unhex(d.subrange(7, 47)) is Some && d[47]
        == 10u8 {
        let (ps, n) = parse_parents(d.skip(48));
        (seq![unhex(d.subrange(7, 47))->0] + ps, 48 + n)
    } else {
        (Seq::empty(), 0)
    }
}

/// Reading the author's line, the committer's line and the message.
pub open spec fn parse_people(d: Seq<u8>) -> Option<(Seq<u8>, Seq<u8>, Seq<u8>)> {
    if !starts_with(d, kw_author()) {
        None
    } else {
        let d4 = d.skip(7);
        let nl = first_index(d4, 10u8);
        if nl >= d4.len() {
            None
        } else {
            let d5 = d4.skip(nl + 1);
            if !starts_with(d5, kw_committer()) {
                None
            } else {
                let d6 = d5.skip(10);
                let nl2 = first_index(d6, 10u8);
                if nl2 >= d6.len() {
                    None
                } else {
                    Some((d4.take(nl), d6.take(nl2), d6.skip(nl2 + 1)))
                }
            }
        }
    }
}

/// Reading a commit from its bytes.
pub open spec fn parse_commit(d: Seq<u8>, id: Seq<u8>) -> Option<CommitView> {
    if !(starts_with(d, kw_tree()) && d.len() >= 46 && unhex(d.subrange(5, 45)) is Some && d[45]
        == 10u8) {
        None
    } else {
        let d2 = d.skip(46);
        let (ps, n) = parse_parents(d2);
        match parse_people(d2.skip(n)) {
            None => None,
            Some((author, committer, message)) => Some(
                CommitView {
                    id,
                    tree_id: unhex(d.subrange(5, 45))->0,
                    parents: ps,
                    author,
                    committer,
                    message,
                },
            ),
        }
    }
}

/// The parents that are read are identifiers of twenty bytes, and the
/// bytes that were taken are their lines.
pub proof fn lemma_parse_parents_sound(d: Seq<u8>)
    ensures
        0 <= parse_parents(d).1 <= d.len(),
        d.take(parse_parents(d).1) == parents_bytes(parse_parents(d).0),
        forall|i: int|
            0 <= i < parse_parents(d).0.len() ==> (#[trigger] parse_parents(d).0[i]).len() == 20,
    decreases d.len(),
{
    if starts_with(d, kw_parent()) && d.len() >= 48 && unhex(d.subrange(7, 47)) is Some && d[47]
        == 10u8 {
        let p = unhex(d.subrange(7, 47))->0;
        lemma_unhex_sound(d.subrange(7, 47));
        lemma_parse_parents_sound(d.skip(48));
        let (ps, n) = parse_parents(d.skip(48));
        let all = seq![p] + ps;
        assert(all.skip(1) =~= ps);
        assert(all[0] == p);
        assert(d.take(7) == kw_parent());
        assert(d.take(48) =~= parent_line(p));
        assert(d.take(48 + n) =~= d.take(48) + d.skip(48).take(n));
        assert forall|i: int| 0 <= i < all.len() implies (#[trigger] all[i]).len() == 20 by {
            if i > 0 {
                assert(all[i] == ps[i - 1]);
            }
        }
    } else {
        assert(d.take(0) =~= Seq::<u8>::empty());
    }
}

/// The lines that are read hold no line feed, and the bytes that were
/// read are those of the two lines and the message.
pub proof fn lemma_parse_people_sound(d: Seq<u8>)
    requires
        parse_people(d) is Some,
    ensures
        is_line(parse_people(d).unwrap().0),
        is_line(parse_people(d).unwrap().1),
        people_bytes(parse_people(d).unwrap().0, parse_people(d).unwrap().1, parse_people(d).unwrap().2) == d,
{
    let d4 = d.skip(7);
    let nl = first_index(d4, 10u8);
    lemma_first_index_range(d4, 10u8);
    let d5 = d4.skip(nl + 1);
    let d6 = d5.skip(10);
    let nl2 = first_index(d6, 10u8);
    lemma_first_index_range(d6, 10u8);
    let author = d4.take(nl);
    let committer = d6.take(nl2);
    let message = d6.skip(nl2 + 1);
    assert(d.take(7) == kw_author());
    assert(d5.take(10) == kw_committer());
    let first = kw_author() + author + seq![10u8];
    let second = kw_committer() + committer + seq![10u8] + message;
    assert(d.take(7 + nl + 1) =~= first);
    assert(d5 =~= second) by {
        assert(d5 =~= d5.take(10) + d6);
        assert(d6 =~= committer + seq![10u8] + message);
    }
    assert(d =~= d.take(7 + nl + 1) + d5);
}

/// Whatever reads as a commit is well formed, and its bytes are exactly
/// what was read.
pub proof fn lemma_parse_commit_sound(d: Seq<u8>, id: Seq<u8>)
    requires
        parse_commit(d, id) is Some,
    ensures
        commit_wf(parse_commit(d, id)->0),
        commit_bytes(parse_commit(d, id)->0) == d,
        parse_commit(d, id)->0.id == id,
{
    let c = parse_commit(d, id)->0;
    let digits = d.subrange(5, 45);
    lemma_unhex_sound(digits);
    let d2 = d.skip(46);
    lemma_parse_parents_sound(d2);
    let n = parse_parents(d2).1;
    let d3 = d2.skip(n);
    lemma_parse_people_sound(d3);
    let people = people_bytes(c.author, c.committer, c.message);
    assert(people == d3);
    assert(parents_bytes(c.parents) == d2.take(n));
    assert(hex_of(c.tree_id) == digits);
    let head = kw_tree() + digits + seq![10u8];
    assert(d.take(46) =~= head) by {
        assert(d.take(5) == kw_tree());
        assert(digits.len() == 40);
        assert forall|j: int| 0 <= j < 46 implies d.take(46)[j] == head[j] by {
            if j < 5 {
                assert(d.take(5)[j] == d[j]);
            } else if j < 45 {
                assert(digits[j - 5] == d[j]);
            }
        }
    }
    assert(d2 =~= d2.take(n) + d3);
    assert(d =~= d.take(46) + d2);
}

/// Parents' lines, written in front of anything that does not begin
/// with the word `parent`, are read back as the parents.
pub proof fn lemma_parse_parents_round(ps: Seq<Seq<u8>>, tail: Seq<u8>)
    requires
        forall|i: int| 0 <= i < ps.len() ==> (#[trigger] ps[i]).len() == 20,
        !starts_with(tail, kw_parent()),
    ensures
        parse_parents(parents_bytes(ps) + tail) == (ps, parents_bytes(ps).len() as int),
    decreases ps.len(),
{
    let d = parents_bytes(ps) + tail;
    if ps.len() == 0 {
        assert(d =~= tail);
        assert(ps =~= Seq::<Seq<u8>>::empty());
    } else {
        let p = ps[0];
        let rest = parents_bytes(ps.skip(1)) + tail;
        assert(p.len() == 20);
        assert(hex_of(p).len() == 40);
        assert(d =~= parent_line(p) + rest);
        assert(d.take(7) =~= kw_parent());
        assert(d.subrange(7, 47) =~= hex_of(p));
        lemma_unhex_round(p);
        assert(d[47] == 10u8);
        assert(d.skip(48) =~= rest);
        assert forall|i: int| 0 <= i < ps.skip(1).len() implies (#[trigger] ps.skip(1)[i]).len()
            == 20 by {
            assert(ps.skip(1)[i] == ps[i + 1]);
        }
        lemma_parse_parents_round(ps.skip(1), tail);
        assert(seq![p] + ps.skip(1) =~= ps);
    }
}

/// Two lines and a message, once written, are read back as themselves.
pub proof fn lemma_parse_people_round(author: Seq<u8>, committer: Seq<u8>, message: Seq<u8>)
    requires
        is_line(author),
        is_line(committer),
    ensures
        parse_people(people_bytes(author, committer, message)) == Some(
            (author, committer, message),
        ),
{
    let d = people_bytes(author, committer, message);
    let second = kw_committer() + committer + seq![10u8] + message;
    assert(d.take(7) =~= kw_author());
    let d4 = d.skip(7);
    assert(d4 =~= author + seq![10u8] + second);
    let nl = author.len() as int;
    assert(d4[nl] == 10u8);
    assert forall|j: int| 0 <= j < nl implies d4[j] != 10u8 by {
        assert(d4[j] == author[j]);
    }
    lemma_first_index_at(d4, 10u8, nl);
    assert(d4.take(nl) =~= author);
    let d5 = d4.skip(nl + 1);
    assert(d5 =~= second);
    assert(d5.take(10) =~= kw_committer());
    let d6 = d5.skip(10);
    assert(d6 =~= committer + seq![10u8] + message);
    let nl2 = committer.len() as int;
    assert(d6[nl2] == 10u8);
    assert forall|j: int| 0 <= j < nl2 implies d6[j] != 10u8 by {
        assert(d6[j] == committer[j]);
    }
    lemma_first_index_at(d6, 10u8, nl2);
    assert(d6.take(nl2) =~= committer);
    assert(d6.skip(nl2 + 1) =~= message);
}

/// A well-formed commit, once written, is read back as itself.
pub proof fn lemma_parse_commit_round(c: CommitView)
    requires
        commit_wf(c),
    ensures
        parse_commit(commit_bytes(c), c.id) == Some(c),
{
    let d = commit_bytes(c);
    let head = kw_tree() + hex_of(c.tree_id) + seq![10u8];
    let people = people_bytes(c.author, c.committer, c.message);
    let rest = parents_bytes(c.parents) + people;
    assert(hex_of(c.tree_id).len() == 40);
    assert(head.len() == 46);
    assert(d.take(5) =~= kw_tree());
    assert(d.subrange(5, 45) =~= hex_of(c.tree_id));
    lemma_unhex_round(c.tree_id);
    assert(d[45] == 10u8);
    assert(d.skip(46) =~= rest);
    assert(!starts_with(people, kw_parent())) by {
        assert(people[0] == 97u8);
        assert(kw_parent()[0] == 112u8);
        if starts_with(people, kw_parent()) {
            assert(people.take(7)[0] == kw_parent()[0]);
        }
    }
    lemma_parse_parents_round(c.parents, people);
    let n = parents_bytes(c.parents).len() as int;
    assert(rest.skip(n) =~= people);
    lemma_parse_people_round(c.author, c.committer, c.message);
}

/// Bytes that do not read as a commit are the bytes of no well-formed
/// commit.
pub proof fn lemma_unreadable_commit(d: Seq<u8>, id: Seq<u8>)
    requires
        parse_commit(d, id) is None,
    ensures
        forall|c: CommitView| commit_wf(c) ==> commit_bytes(c) != d,
{
    assert forall|c: CommitView| commit_wf(c) implies commit_bytes(c) != d by {
        lemma_parse_commit_round(c);
        if commit_bytes(c) == d {
            assert(parse_commit(d, c.id) is Some);
        }
    }
}

/// The author and committer of the commits that the system makes by
/// itself.
pub open spec fn system_signature() -> Seq<u8> {
    byteseq::ascii("mega <admin@mega.org> 0 +0000"@)
}

/// The author and committer of the commits that the system makes by
/// itself.
pub fn system_signature_data() -> (v: Vec<u8>)
    ensures
        v@ == system_signature(),
        is_line(v@),
{
    proof {
        reveal_strlit("mega <admin@mega.org> 0 +0000");
    }
    let s = "mega <admin@mega.org> 0 +0000";
    assert(is_ascii(s));
    byteseq::text(s)
}

/// Copies a list of identifiers.
pub fn copy_ids(ids: &Vec<ObjectId>) -> (v: Vec<ObjectId>)
    ensures
        ids_view(v@) == ids_view(ids@),
{
    let mut v: Vec<ObjectId> = Vec::new();
    let mut i: usize = 0;
    while i < ids.len()
        invariant
            i <= ids@.len(),
            v@.len() == i,
            forall|j: int| 0 <= j < i ==> v@[j]@ == ids@[j]@,
        decreases ids@.len() - i,
    {
        v.push(ids[i]);
        i += 1;
    }
    assert(ids_view(v@) =~= ids_view(ids@));
    v
}

/// Reads the author's line, the committer's line and the message from
/// `d` at `pos`.
fn read_people(d: &[u8], pos: usize) -> (r: Option<(Vec<u8>, Vec<u8>, Vec<u8>)>)
    requires
        pos <= d@.len(),
    ensures
        match r {
            None => parse_people(d@.skip(pos as int)) is None,
            Some((a, c, m)) => parse_people(d@.skip(pos as int)) == Some((a@, c@, m@)),
        },
{
    let len = d.len();
    let ghost d3 = d@.skip(pos as int);
    let kw_a: Vec<u8> = vec![97u8, 117u8, 116u8, 104u8, 111u8, 114u8, 32u8];
    assert(kw_a@ =~= kw_author());
    if !has_prefix_at(d, pos, kw_a.as_slice()) {
        return None;
    }
    let at_author = pos + 7;
    let ghost d4 = d3.skip(7);
    assert(d4 =~= d@.skip(at_author as int));
    let nl = find_from(d, at_author, 10u8);
    if nl >= len - at_author {
        return None;
    }
    let author = byteseq::slice(d, at_author, at_author + nl);
    assert(author@ =~= d4.take(nl as int));
    let at_committer = at_author + nl + 1;
    let ghost d5 = d4.skip(nl + 1);
    assert(d5 =~= d@.skip(at_committer as int));
    let kw_c: Vec<u8> = vec![99u8, 111u8, 109u8, 109u8, 105u8, 116u8, 116u8, 101u8, 114u8, 32u8];
    assert(kw_c@ =~= kw_committer());
    if !has_prefix_at(d, at_committer, kw_c.as_slice()) {
        return None;
    }
    let at_name = at_committer + 10;
    let ghost d6 = d5.skip(10);
    assert(d6 =~= d@.skip(at_name as int));
    let nl2 = find_from(d, at_name, 10u8);
    if nl2 >= len - at_name {
        return None;
    }
    let committer = byteseq::slice(d, at_name, at_name + nl2);
    assert(committer@ =~= d6.take(nl2 as int));
    let message = byteseq::slice(d, at_name + nl2 + 1, len);
    assert(message@ =~= d6.skip(nl2 + 1));
    Some((author, committer, message))
}

/// Reads one parent's line from `d` at `pos`.
fn read_parent(d: &[u8], pos: usize) -> (r: Option<ObjectId>)
    requires
        pos <= d@.len(),
    ensures
        ({
            let here = d@.skip(pos as int);
            let found = starts_with(here, kw_parent()) && here.len() >= 48 && unhex(
                here.subrange(7, 47),
            ) is Some && here[47] == 10u8;
            match r {
                None => !found,
                Some(id) => found && Some(id@) == unhex(here.subrange(7, 47)),
            }
        }),
{
    let len = d.len();
    let kw: Vec<u8> = vec![112u8, 97u8, 114u8, 101u8, 110u8, 116u8, 32u8];
    assert(kw@ =~= kw_parent());
    if !has_prefix_at(d, pos, kw.as_slice()) {
        return None;
    }
    if len - pos < 48 {
        return None;
    }
    let digits = byteseq::slice(d, pos + 7, pos + 47);
    assert(digits@ =~= d@.skip(pos as int).subrange(7, 47));
    match ObjectId::from_hex(digits.as_slice()) {
        None => None,
        Some(id) => {
            if d[pos + 47] == 10u8 {
                Some(id)
            } else {
                None
            }
        },
    }
}

impl Commit {
    /// The canonical bytes of the commit.
    pub fn to_data(&self) -> (v: Vec<u8>)
        ensures
            v@ == commit_bytes(self@),
    {
        let mut v: Vec<u8> = vec![116u8, 114u8, 101u8, 101u8, 32u8];
        assert(v@ =~= kw_tree());
        byteseq::append(&mut v, self.tree_id.to_plain_str().as_slice());
        v.push(10u8);
        let ghost head = v@;
        let kw: Vec<u8> = vec![112u8, 97u8, 114u8, 101u8, 110u8, 116u8, 32u8];
        assert(kw@ =~= kw_parent());
        let mut lines: Vec<u8> = Vec::new();
        let mut i: usize = 0;
        let ghost ps = ids_view(self.parent_ids@);
        assert(ps.take(0) =~= Seq::<Seq<u8>>::empty());
        while i < self.parent_ids.len()
            invariant
                i <= self.parent_ids@.len(),
                ps == ids_view(self.parent_ids@),
                kw@ == kw_parent(),
                lines@ == parents_bytes(ps.take(i as int)),
            decreases self.parent_ids@.len() - i,
        {
            proof {
                lemma_parents_bytes_push(ps.take(i as int), ps[i as int]);
                assert(ps.take(i as int).push(ps[i as int]) =~= ps.take(i + 1));
            }
            let ghost before = lines@;
            byteseq::append(&mut lines, kw.as_slice());
            byteseq::append(&mut lines, self.parent_ids[i].to_plain_str().as_slice());
            lines.push(10u8);
            assert(lines@ =~= before + parent_line(ps[i as int]));
            i += 1;
        }
        assert(ps.take(i as int) =~= ps);
        let mut first: Vec<u8> = vec![97u8, 117u8, 116u8, 104u8, 111u8, 114u8, 32u8];
        assert(first@ =~= kw_author());
        byteseq::append(&mut first, self.author.as_slice());
        first.push(10u8);
        let mut second: Vec<u8> = vec![
            99u8,
            111u8,
            109u8,
            109u8,
            105u8,
            116u8,
            116u8,
            101u8,
            114u8,
            32u8,
        ];
        assert(second@ =~= kw_committer());
        byteseq::append(&mut second, self.committer.as_slice());
        second.push(10u8);
        byteseq::append(&mut second, self.message.as_slice());
        byteseq::append(&mut first, second.as_slice());
        assert(first@ == people_bytes(self.author@, self.committer@, self.message@));
        byteseq::append(&mut lines, first.as_slice());
        byteseq::append(&mut v, lines.as_slice());
        v
    }

    /// The commit of the given fields, under the identifier that they
    /// give.
    pub fn new(
        author: Vec<u8>,
        committer: Vec<u8>,
        tree_id: ObjectId,
        parent_ids: Vec<ObjectId>,
        message: Vec<u8>,
    ) -> (c: Commit)
        ensures
            c@.tree_id == tree_id@,
            c@.parents == ids_view(parent_ids@),
            c@.author == author@,
            c@.committer == committer@,
            c@.message == message@,
            c@.id == commit_id_of(c@),
    {
        let mut c = Commit { id: ObjectId::zero(), tree_id, parent_ids, author, committer, message };
        let data = c.to_data();
        let ghost before = c@;
        c.id = object_id(ObjectType::Commit, data.as_slice());
        assert(commit_bytes(c@) == commit_bytes(before));
        c
    }

    /// A commit that the system makes by itself for `tree_id`: the fixed
    /// signature as author and committer, and an empty line and `text` as
    /// its message.
    pub fn from_tree_id(tree_id: ObjectId, parent_ids: Vec<ObjectId>, text: &[u8]) -> (c: Commit)
        ensures
            c@.tree_id == tree_id@,
            c@.parents == ids_view(parent_ids@),
            c@.author == system_signature(),
            c@.committer == system_signature(),
            c@.message == seq![10u8] + text@,
            c@.id == commit_id_of(c@),
            commit_wf(c@) <==> forall|i: int|
                0 <= i < parent_ids@.len() ==> (#[trigger] parent_ids@[i])@.len() == 20,
    {
        let mut message: Vec<u8> = vec![10u8];
        byteseq::append(&mut message, text);
        let c = Commit::new(
            system_signature_data(),
            system_signature_data(),
            tree_id,
            parent_ids,
            message,
        );
        assert(c@.message =~= seq![10u8] + text@);
        assert(commit_wf(c@)) by {
            assert forall|i: int| 0 <= i < c@.parents.len() implies (#[trigger] c@.parents[i]).len()
                == 20 by {
                assert(c@.parents[i] == parent_ids@[i]@);
            }
        }
        c
    }

    /// Reads a commit from its canonical bytes. The result is `None`
    /// exactly where `data` is the bytes of no well-formed commit.
    pub fn from_bytes(data: &[u8], id: ObjectId) -> (r: Option<Commit>)
        ensures
            r is Some <==> parse_commit(data@, id@) is Some,
            r matches Some(c) ==> Some(c@) == parse_commit(data@, id@) && c@.id == id@ && commit_wf(
                c@,
            ) && commit_bytes(c@) == data@,
            r is None ==> forall|c: CommitView| commit_wf(c) ==> commit_bytes(c) != data@,
    {
        let len = data.len();
        let kw: Vec<u8> = vec![116u8, 114u8, 101u8, 101u8, 32u8];
        assert(kw@ =~= kw_tree());
        assert(data@.skip(0) =~= data@);
        if !has_prefix_at(data, 0, kw.as_slice()) || len < 46 {
            proof {
                lemma_unreadable_commit(data@, id@);
            }
            return None;
        }
        let digits = byteseq::slice(data, 5, 45);
        let tree_id = match ObjectId::from_hex(digits.as_slice()) {
            None => {
                proof {
                    lemma_unreadable_commit(data@, id@);
                }
                return None;
            },
            Some(t) => t,
        };
        if data[45] != 10u8 {
            proof {
                lemma_unreadable_commit(data@, id@);
            }
            return None;
        }
        let ghost d2 = data@.skip(46);
        let mut parents: Vec<ObjectId> = Vec::new();
        let mut pos: usize = 46;
        let mut more = true;
        assert(ids_view(parents@) + parse_parents(d2).0 =~= parse_parents(d2).0);
        while more
            invariant
                46 <= pos <= data@.len(),
                len == data@.len(),
                d2 == data@.skip(46),
                parse_parents(d2).0 == ids_view(parents@) + parse_parents(
                    data@.skip(pos as int),
                ).0,
                parse_parents(d2).1 == (pos - 46) + parse_parents(data@.skip(pos as int)).1,
                !more ==> parse_parents(data@.skip(pos as int)) == (Seq::<Seq<u8>>::empty(), 0int),
            decreases data@.len() - pos + (if more { 1int } else { 0int }),
        {
            let ghost here = data@.skip(pos as int);
            let ghost before = ids_view(parents@);
            match read_parent(data, pos) {
                None => {
                    more = false;
                },
                Some(p) => {
                    parents.push(p);
                    proof {
                        assert(here.skip(48) =~= data@.skip(pos + 48));
                        let rest = parse_parents(here.skip(48)).0;
                        assert(ids_view(parents@) =~= before.push(p@));
                        assert(before + (seq![p@] + rest) =~= ids_view(parents@) + rest);
                    }
                    pos = pos + 48;
                },
            }
        }
        proof {
            assert(ids_view(parents@) + Seq::<Seq<u8>>::empty() =~= ids_view(parents@));
            assert(d2.skip(pos - 46) =~= data@.skip(pos as int));
        }
        match read_people(data, pos) {
            None => {
                proof {
                    lemma_unreadable_commit(data@, id@);
                }
                None
            },
            Some((author, committer, message)) => {
                let c = Commit { id, tree_id, parent_ids: parents, author, committer, message };
                proof {
                    lemma_parse_commit_sound(data@, id@);
                }
                Some(c)
            },
        }
    }

    /// A copy of the commit.
    pub fn copy(&self) -> (c: Commit)
        ensures
            c@ == self@,
    {
        Commit {
            id: self.id,
            tree_id: self.tree_id,
            parent_ids: copy_ids(&self.parent_ids),
            author: byteseq::copy(self.author.as_slice()),
            committer: byteseq::copy(self.committer.as_slice()),
            message: byteseq::copy(self.message.as_slice()),
        }
    }
}

/// Writing a list of parents extended by one appends that parent's line.
pub proof fn lemma_parents_bytes_push(ps: Seq<Seq<u8>>, p: Seq<u8>)
    ensures
        parents_bytes(ps.push(p)) == parents_bytes(ps) + parent_line(p),
    decreases ps.len(),
{
    let all = ps.push(p);
    if ps.len() == 0 {
        assert(all.skip(1) =~= Seq::<Seq<u8>>::empty());
        assert(all[0] == p);
        assert(parents_bytes(all.skip(1)) =~= Seq::<u8>::empty());
        assert(parents_bytes(all) == parent_line(p) + parents_bytes(all.skip(1)));
        assert(parents_bytes(ps) =~= Seq::<u8>::empty());
        assert(parents_bytes(all) =~= parents_bytes(ps) + parent_line(p));
    } else {
        lemma_parents_bytes_push(ps.skip(1), p);
        assert(all.skip(1) =~= ps.skip(1).push(p));
        assert(all[0] == ps[0]);
        assert(parents_bytes(all) == parent_line(ps[0]) + parents_bytes(all.skip(1)));
        assert(parents_bytes(ps) == parent_line(ps[0]) + parents_bytes(ps.skip(1)));
        assert(parents_bytes(all) =~= parents_bytes(ps) + parent_line(p));
    }
}

} // verus!
