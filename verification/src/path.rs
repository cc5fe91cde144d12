//! Absolute paths into the repository, held as their components.

use vstd::prelude::*;
use crate::byteseq;

verus! {

/// A normalized absolute path: the names from the root down. The root
/// itself has no component.
#[derive(Debug)]
pub struct RepoPath {
    pub components: Vec<Vec<u8>>,
}

/// The names of a list of components.
pub open spec fn names_view(components: Seq<Vec<u8>>) -> Seq<Seq<u8>> {
    Seq::new(components.len(), |i: int| components[i]@)
}

impl View for RepoPath {
    type V = Seq<Seq<u8>>;

    open spec fn view(&self) -> Seq<Seq<u8>> {
        names_view(self.components@)
    }
}

/// Whether `a` leads to `b`: `b` starts with the components of `a`.
pub open spec fn is_prefix(a: Seq<Seq<u8>>, b: Seq<Seq<u8>>) -> bool {
    a.len() <= b.len() && b.take(a.len() as int) == a
}

/// The components seen so far, with a name that ended: an empty name and
/// the name `.` add nothing.
pub open spec fn flush(done: Seq<Seq<u8>>, cur: Seq<u8>) -> Seq<Seq<u8>> {
    if cur.len() == 0 || cur == seq![46u8] {
        done
    } else {
        done.push(cur)
    }
}

/// Reading a path byte by byte: the components that have ended, and the
/// name that is being read.
pub open spec fn scan_path(s: Seq<u8>) -> (Seq<Seq<u8>>, Seq<u8>)
    decreases s.len(),
{
    if s.len() == 0 {
        (Seq::empty(), Seq::empty())
    } else {
        let (done, cur) = scan_path(s.drop_last());
        if s.last() == 47u8 {
            (flush(done, cur), Seq::empty())
        } else {
            (done, cur.push(s.last()))
        }
    }
}

/// The components of a written path: the names between its slashes,
/// without the empty ones and without `.`.
pub open spec fn path_of(s: Seq<u8>) -> Seq<Seq<u8>> {
    flush(scan_path(s).0, scan_path(s).1)
}

/// A path as it is written: `/` for the root, else a slash before each
/// component.
pub open spec fn path_bytes(p: Seq<Seq<u8>>) -> Seq<u8>
    decreases p.len(),
{
    if p.len() == 0 {
        seq![47u8]
    } else if p.len() == 1 {
        seq![47u8] + p[0]
    } else {
        path_bytes(p.drop_last()) + seq![47u8] + p.last()
    }
}

impl RepoPath {
    /// The root path.
    pub fn root() -> (p: RepoPath)
        ensures
            p@ == Seq::<Seq<u8>>::empty(),
    {
        let p = RepoPath { components: Vec::new() };
        assert(p@ =~= Seq::<Seq<u8>>::empty());
        p
    }

    /// Reads a written path.
    pub fn parse(s: &[u8]) -> (p: RepoPath)
        ensures
            p@ == path_of(s@),
    {
        let mut done: Vec<Vec<u8>> = Vec::new();
        let mut cur: Vec<u8> = Vec::new();
        let mut i: usize = 0;
        assert(names_view(done@) =~= Seq::<Seq<u8>>::empty());
        assert(s@.take(0) =~= Seq::<u8>::empty());
        while i < s.len()
            invariant
                i <= s@.len(),
                (names_view(done@), cur@) == scan_path(s@.take(i as int)),
            decreases s@.len() - i,
        {
            let ghost before = names_view(done@);
            assert(s@.take(i + 1).drop_last() =~= s@.take(i as int));
            if s[i] == 47u8 {
                if cur.len() != 0 && !(cur.len() == 1 && cur[0] == 46u8) {
                    assert(cur@ != seq![46u8]) by {
                        if cur@.len() == 1 {
                            assert(seq![46u8][0] == 46u8);
                        }
                    }
                    done.push(cur);
                    assert(names_view(done@) =~= before.push(cur@));
                } else {
                    if cur.len() != 0 {
                        assert(cur@ =~= seq![46u8]);
                    }
                }
                cur = Vec::new();
            } else {
                cur.push(s[i]);
            }
            i += 1;
        }
        assert(s@.take(i as int) =~= s@);
        let ghost before = names_view(done@);
        if cur.len() != 0 && !(cur.len() == 1 && cur[0] == 46u8) {
            assert(cur@ != seq![46u8]) by {
                if cur@.len() == 1 {
                    assert(seq![46u8][0] == 46u8);
                }
            }
            done.push(cur);
            assert(names_view(done@) =~= before.push(cur@));
        } else {
            if cur.len() != 0 {
                assert(cur@ =~= seq![46u8]);
            }
        }
        RepoPath { components: done }
    }

    /// Whether this is the root path.
    pub fn is_root(&self) -> (r: bool)
        ensures
            r == (self@.len() == 0),
    {
        self.components.len() == 0
    }

    /// The number of components.
    pub fn depth(&self) -> (n: usize)
        ensures
            n == self@.len(),
    {
        self.components.len()
    }

    /// The last component, if the path is not the root.
    pub fn file_name(&self) -> (r: Option<Vec<u8>>)
        ensures
            match r {
                None => self@.len() == 0,
                Some(name) => self@.len() > 0 && name@ == self@.last(),
            },
    {
        let n = self.components.len();
        if n == 0 {
            None
        } else {
            Some(byteseq::copy(self.components[n - 1].as_slice()))
        }
    }

    /// Drops the last component. Returns `false`, and changes nothing,
    /// where the path is the root.
    pub fn pop(&mut self) -> (r: bool)
        ensures
            r == (old(self)@.len() > 0),
            r ==> final(self)@ == old(self)@.drop_last(),
            !r ==> final(self)@ == old(self)@,
    {
        match self.components.pop() {
            None => false,
            Some(_) => {
                assert(self@ =~= old(self)@.drop_last());
                true
            },
        }
    }

    /// A copy of the path.
    pub fn copy(&self) -> (p: RepoPath)
        ensures
            p@ == self@,
    {
        self.prefix(self.components.len())
    }

    /// The path of the first `n` components.
    pub fn prefix(&self, n: usize) -> (p: RepoPath)
        requires
            n <= self@.len(),
        ensures
            p@ == self@.take(n as int),
    {
        let mut components: Vec<Vec<u8>> = Vec::new();
        let mut i: usize = 0;
        assert(names_view(components@) =~= self@.take(0));
        while i < n
            invariant
                i <= n <= self.components@.len(),
                names_view(components@) == self@.take(i as int),
            decreases n - i,
        {
            let ghost before = names_view(components@);
            components.push(byteseq::copy(self.components[i].as_slice()));
            assert(names_view(components@) =~= before.push(self@[i as int]));
            assert(names_view(components@) =~= self@.take(i + 1));
            i += 1;
        }
        RepoPath { components }
    }

    /// The path without its last component; `None` for the root.
    pub fn parent(&self) -> (r: Option<RepoPath>)
        ensures
            match r {
                None => self@.len() == 0,
                Some(p) => self@.len() > 0 && p@ == self@.drop_last(),
            },
    {
        let n = self.components.len();
        if n == 0 {
            None
        } else {
            let p = self.prefix(n - 1);
            assert(self@.take(n - 1) =~= self@.drop_last());
            Some(p)
        }
    }

    /// The path with one more component.
    pub fn join(&self, name: &[u8]) -> (p: RepoPath)
        ensures
            p@ == self@.push(name@),
    {
        let mut p = self.copy();
        let ghost before = p@;
        p.components.push(byteseq::copy(name));
        assert(p@ =~= before.push(name@));
        p
    }

    /// Whether two paths have the same components.
    pub fn same(&self, other: &RepoPath) -> (r: bool)
        ensures
            r == (self@ == other@),
    {
        if self.components.len() != other.components.len() {
            return false;
        }
        let r = other.starts_with(self);
        proof {
            assert(other@.take(other@.len() as int) =~= other@);
        }
        r
    }

    /// Whether `prefix` leads to this path.
    pub fn starts_with(&self, prefix: &RepoPath) -> (r: bool)
        ensures
            r == is_prefix(prefix@, self@),
    {
        if prefix.components.len() > self.components.len() {
            return false;
        }
        let mut i: usize = 0;
        while i < prefix.components.len()
            invariant
                i <= prefix.components@.len() <= self.components@.len(),
                forall|j: int| 0 <= j < i ==> self@[j] == prefix@[j],
            decreases prefix.components@.len() - i,
        {
            if !byteseq::equal(self.components[i].as_slice(), prefix.components[i].as_slice()) {
                assert(self@.take(prefix@.len() as int)[i as int] != prefix@[i as int]);
                return false;
            }
            i += 1;
        }
        assert(self@.take(prefix@.len() as int) =~= prefix@);
        true
    }

    /// The path as it is written.
    pub fn to_bytes(&self) -> (v: Vec<u8>)
        ensures
            v@ == path_bytes(self@),
    {
        let mut v: Vec<u8> = Vec::new();
        v.push(47u8);
        let n = self.components.len();
        if n == 0 {
            assert(v@ =~= path_bytes(self@));
            return v;
        }
        byteseq::append(&mut v, self.components[0].as_slice());
        assert(v@ =~= path_bytes(self@.take(1)));
        let mut i: usize = 1;
        while i < n
            invariant
                1 <= i <= n,
                n == self.components@.len(),
                v@ == path_bytes(self@.take(i as int)),
            decreases n - i,
        {
            v.push(47u8);
            byteseq::append(&mut v, self.components[i].as_slice());
            proof {
                let next = self@.take(i + 1);
                assert(next.drop_last() =~= self@.take(i as int));
                assert(next.last() == self@[i as int]);
                assert(v@ =~= path_bytes(next));
            }
            i += 1;
        }
        assert(self@.take(n as int) =~= self@);
        v
    }
}

/// A name that can be a component: not empty, not `.`, and without a
/// slash.
pub open spec fn is_name(c: Seq<u8>) -> bool {
    &&& c.len() > 0
    &&& c != seq![46u8]
    &&& forall|j: int| 0 <= j < c.len() ==> c[j] != 47u8
}

/// Every component is a name.
pub open spec fn is_normal(p: Seq<Seq<u8>>) -> bool {
    forall|i: int| 0 <= i < p.len() ==> is_name(#[trigger] p[i])
}

/// Reading on through bytes without a slash adds them to the name that is
/// being read.
pub proof fn lemma_scan_name(s: Seq<u8>, name: Seq<u8>)
    requires
        forall|j: int| 0 <= j < name.len() ==> name[j] != 47u8,
    ensures
        scan_path(s + name) == (scan_path(s).0, scan_path(s).1 + name),
    decreases name.len(),
{
    if name.len() == 0 {
        assert(s + name =~= s);
        assert(scan_path(s).1 + name =~= scan_path(s).1);
    } else {
        let front = name.drop_last();
        lemma_scan_name(s, front);
        assert((s + name).drop_last() =~= s + front);
        assert((s + name).last() == name.last());
        assert((scan_path(s).1 + front).push(name.last()) =~= scan_path(s).1 + name);
    }
}

/// A slash alone holds no component and begins no name.
pub proof fn lemma_scan_slash()
    ensures
        scan_path(seq![47u8]) == (Seq::<Seq<u8>>::empty(), Seq::<u8>::empty()),
{
    let slash = seq![47u8];
    let e = slash.drop_last();
    assert(e.len() == 0);
    assert(scan_path(e) == (Seq::<Seq<u8>>::empty(), Seq::<u8>::empty()));
    assert(slash.last() == 47u8);
}

/// After a written path has been read to its end, its last component is
/// the name that is being read and the others have ended.
pub proof fn lemma_scan_written(p: Seq<Seq<u8>>)
    requires
        p.len() > 0,
        is_normal(p),
    ensures
        scan_path(path_bytes(p)) == (p.drop_last(), p.last()),
    decreases p.len(),
{
    let slash = seq![47u8];
    lemma_scan_slash();
    assert(is_name(p.last()));
    if p.len() == 1 {
        lemma_scan_name(slash, p[0]);
        assert(Seq::<u8>::empty() + p[0] =~= p[0]);
        assert(p.drop_last() =~= Seq::<Seq<u8>>::empty());
    } else {
        let front = p.drop_last();
        assert forall|i: int| 0 <= i < front.len() implies is_name(#[trigger] front[i]) by {
            assert(front[i] == p[i]);
        }
        lemma_scan_written(front);
        let a = path_bytes(front);
        assert((a + slash).drop_last() =~= a);
        assert(is_name(front.last()));
        assert(front.drop_last().push(front.last()) =~= front);
        assert(scan_path(a + slash) == (front, Seq::<u8>::empty()));
        lemma_scan_name(a + slash, p.last());
        assert(Seq::<u8>::empty() + p.last() =~= p.last());
    }
}

/// A path of names, once written, is read back as itself.
pub proof fn lemma_path_round_trip(p: Seq<Seq<u8>>)
    requires
        is_normal(p),
    ensures
        path_of(path_bytes(p)) == p,
{
    if p.len() == 0 {
        lemma_scan_slash();
        assert(p =~= Seq::<Seq<u8>>::empty());
    } else {
        lemma_scan_written(p);
        assert(is_name(p.last()));
        assert(p.drop_last().push(p.last()) =~= p);
    }
}

} // verus!
