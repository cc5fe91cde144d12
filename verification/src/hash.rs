//! Object identifiers: twenty bytes, written as forty lowercase hex digits.

use vstd::prelude::*;
use sha1::Digest;

verus! {

/// The SHA-1 digest of a byte string, as the `sha1` crate computes it.
pub uninterp spec fn sha1_digest(data: Seq<u8>) -> Seq<u8>;

/// Calls `sha1::Sha1::digest` on `data`. The digest has twenty bytes and
/// depends on the bytes of `data` alone.
#[verifier::external_body]
fn sha1_bytes(data: &[u8]) -> (digest: [u8; 20])
    ensures
        digest@ == sha1_digest(data@),
{
    sha1::Sha1::digest(data).into()
}

/// A 20-byte object identifier.
#[derive(Clone, Copy, Debug, PartialEq, Eq, Hash)]
pub struct ObjectId {
    pub bytes: [u8; 20],
}

impl View for ObjectId {
    type V = Seq<u8>;

    open spec fn view(&self) -> Seq<u8> {
        self.bytes@
    }
}

/// The lowercase hex digit of a value below sixteen.
pub open spec fn hex_digit(n: int) -> u8 {
    if n < 10 {
        (48 + n) as u8
    } else {
        (87 + n) as u8
    }
}

/// Whether `c` is one of `0`-`9`, `a`-`f`.
pub open spec fn is_hex_digit(c: u8) -> bool {
    (48 <= c <= 57) || (97 <= c <= 102)
}

/// The value of a lowercase hex digit.
pub open spec fn hex_value(c: u8) -> int {
    if c <= 57 {
        c - 48
    } else {
        c - 87
    }
}

/// The lowercase hex rendering of a byte string, two digits per byte.
pub open spec fn hex_of(bytes: Seq<u8>) -> Seq<u8> {
    Seq::new(
        2 * bytes.len(),
        |i: int|
            if i % 2 == 0 {
                hex_digit(bytes[i / 2] as int / 16)
            } else {
                hex_digit(bytes[i / 2] as int % 16)
            },
    )
}

/// The bytes that forty lowercase hex digits stand for; `None` for any
/// other input.
pub open spec fn unhex(s: Seq<u8>) -> Option<Seq<u8>> {
    if s.len() == 40 && (forall|j: int| 0 <= j < 40 ==> is_hex_digit(s[j])) {
        Some(Seq::new(20, |i: int| (hex_value(s[2 * i]) * 16 + hex_value(s[2 * i + 1])) as u8))
    } else {
        None
    }
}

/// The identifier of all zero bytes.
pub open spec fn zero_id() -> Seq<u8> {
    Seq::new(20, |i: int| 0u8)
}

fn digit_of(n: u8) -> (c: u8)
    requires
        n < 16,
    ensures
        c == hex_digit(n as int),
        is_hex_digit(c),
        hex_value(c) == n,
{
    if n < 10 {
        48 + n
    } else {
        87 + n
    }
}

fn value_of(c: u8) -> (r: Option<u8>)
    ensures
        r is Some <==> is_hex_digit(c),
        r matches Some(n) ==> n < 16 && n == hex_value(c) && hex_digit(n as int) == c,
{
    if 48 <= c && c <= 57 {
        Some(c - 48)
    } else if 97 <= c && c <= 102 {
        Some(c - 87)
    } else {
        None
    }
}

impl ObjectId {
    /// The identifier of all zero bytes.
    pub fn zero() -> (id: ObjectId)
        ensures
            id@ == zero_id(),
    {
        let id = ObjectId { bytes: [0u8; 20] };
        assert(id@ =~= zero_id());
        id
    }

    /// The SHA-1 digest of `data`.
    pub fn digest(data: &[u8]) -> (id: ObjectId)
        ensures
            id@ == sha1_digest(data@),
    {
        ObjectId { bytes: sha1_bytes(data) }
    }

    /// The identifier that stands in `d` from `from` on.
    pub fn from_slice(d: &[u8], from: usize) -> (id: ObjectId)
        requires
            from + 20 <= d@.len(),
        ensures
            id@ == d@.subrange(from as int, from + 20),
    {
        let mut bytes: [u8; 20] = [0u8; 20];
        let mut i: usize = 0;
        let len = d.len();
        while i < 20
            invariant
                i <= 20,
                len == d@.len(),
                from + 20 <= d@.len(),
                forall|j: int| 0 <= j < i ==> bytes@[j] == d@[from + j],
            decreases 20 - i,
        {
            bytes[i] = d[from + i];
            i += 1;
        }
        let id = ObjectId { bytes };
        assert(id@ =~= d@.subrange(from as int, from + 20));
        id
    }

    /// The twenty bytes of the identifier.
    pub fn to_data(&self) -> (v: Vec<u8>)
        ensures
            v@ == self@,
    {
        let mut v: Vec<u8> = Vec::new();
        let mut i: usize = 0;
        while i < 20
            invariant
                i <= 20,
                v@ == self@.take(i as int),
            decreases 20 - i,
        {
            v.push(self.bytes[i]);
            assert(v@ =~= self@.take(i + 1));
            i += 1;
        }
        assert(self@.take(20) =~= self@);
        v
    }

    /// Whether two identifiers hold the same bytes.
    pub fn same(&self, other: &ObjectId) -> (r: bool)
        ensures
            r == (self@ == other@),
    {
        let mut i: usize = 0;
        while i < 20
            invariant
                i <= 20,
                forall|j: int| 0 <= j < i ==> self.bytes[j] == other.bytes[j],
            decreases 20 - i,
        {
            if self.bytes[i] != other.bytes[i] {
                return false;
            }
            i += 1;
        }
        assert(self@ =~= other@);
        true
    }

    /// The identifier as forty lowercase hex digits.
    pub fn to_plain_str(&self) -> (s: Vec<u8>)
        ensures
            s@ == hex_of(self@),
    {
        let mut s: Vec<u8> = Vec::new();
        let mut i: usize = 0;
        while i < 20
            invariant
                i <= 20,
                s@ == hex_of(self@.take(i as int)),
            decreases 20 - i,
        {
            let b: u8 = self.bytes[i];
            s.push(digit_of(b / 16));
            s.push(digit_of(b % 16));
            assert(s@ =~= hex_of(self@.take(i + 1)));
            i += 1;
        }
        assert(self@.take(20) =~= self@);
        s
    }

    /// The first six hex digits of the identifier.
    pub fn short(&self) -> (s: Vec<u8>)
        ensures
            s@ == hex_of(self@).take(6),
    {
        let mut s: Vec<u8> = Vec::new();
        let mut i: usize = 0;
        while i < 3
            invariant
                i <= 3,
                s@ == hex_of(self@.take(i as int)),
            decreases 3 - i,
        {
            let b: u8 = self.bytes[i];
            s.push(digit_of(b / 16));
            s.push(digit_of(b % 16));
            assert(s@ =~= hex_of(self@.take(i + 1)));
            i += 1;
        }
        assert(s@ =~= hex_of(self@).take(6));
        s
    }

    /// Reads an identifier from forty lowercase hex digits. Any other input
    /// is the rendering of no identifier and gives `None`.
    pub fn from_hex(s: &[u8]) -> (r: Option<ObjectId>)
        ensures
            r is Some <==> unhex(s@) is Some,
            r matches Some(id) ==> Some(id@) == unhex(s@) && hex_of(id@) == s@,
            r is None ==> forall|id: ObjectId| hex_of(id@) != s@,
    {
        if s.len() != 40 {
            assert forall|id: ObjectId| hex_of(id@) != s@ by {
                assert(hex_of(id@).len() == 40);
            }
            return None;
        }
        let mut bytes: [u8; 20] = [0u8; 20];
        let mut i: usize = 0;
        while i < 20
            invariant
                i <= 20,
                s@.len() == 40,
                forall|j: int| 0 <= j < 2 * i ==> is_hex_digit(s@[j]),
                forall|k: int|
                    0 <= k < i ==> bytes@[k] == (hex_value(s@[2 * k]) * 16 + hex_value(
                        s@[2 * k + 1],
                    )) as u8,
            decreases 20 - i,
        {
            let hi = value_of(s[2 * i]);
            let lo = value_of(s[2 * i + 1]);
            match (hi, lo) {
                (Some(h), Some(l)) => {
                    bytes[i] = h * 16 + l;
                },
                _ => {
                    assert forall|id: ObjectId| hex_of(id@) != s@ by {
                        let d = hex_of(id@);
                        assert(is_hex_digit(d[2 * i as int]));
                        assert(is_hex_digit(d[2 * i + 1]));
                    }
                    assert(!is_hex_digit(s@[2 * i as int]) || !is_hex_digit(s@[2 * i + 1]));
                    return None;
                },
            }
            i += 1;
        }
        let id = ObjectId { bytes };
        proof {
            assert(id@ =~= unhex(s@)->0);
            lemma_unhex_sound(s@);
        }
        Some(id)
    }
}

/// What `unhex` reads has the digits it was read from as its rendering.
pub proof fn lemma_unhex_sound(s: Seq<u8>)
    requires
        unhex(s) is Some,
    ensures
        unhex(s)->0.len() == 20,
        hex_of(unhex(s)->0) == s,
{
    let id = unhex(s)->0;
    assert forall|j: int| 0 <= j < 40 implies hex_of(id)[j] == s[j] by {
        let k = j / 2;
        let h = hex_value(s[2 * k]);
        let l = hex_value(s[2 * k + 1]);
        assert(is_hex_digit(s[2 * k]) && is_hex_digit(s[2 * k + 1]));
        assert(0 <= h < 16 && 0 <= l < 16);
        assert(id[k] == (h * 16 + l) as u8);
        assert((h * 16 + l) / 16 == h);
        assert((h * 16 + l) % 16 == l);
        assert(hex_digit(h) == s[2 * k]);
        assert(hex_digit(l) == s[2 * k + 1]);
        if j % 2 == 0 {
            assert(j == 2 * k);
        } else {
            assert(j == 2 * k + 1);
        }
    }
    assert(hex_of(id) =~= s);
}

/// The rendering of twenty bytes reads back as those bytes.
pub proof fn lemma_unhex_round(id: Seq<u8>)
    requires
        id.len() == 20,
    ensures
        unhex(hex_of(id)) == Some(id),
{
    let s = hex_of(id);
    assert forall|j: int| 0 <= j < 40 implies is_hex_digit(s[j]) by {
        let b = id[j / 2] as int;
        assert(0 <= b / 16 < 16 && 0 <= b % 16 < 16);
    }
    lemma_unhex_sound(s);
    lemma_hex_injective(unhex(s)->0, id);
}

/// Rendering in hex loses nothing: two identifiers with one rendering are
/// the same identifier.
pub proof fn lemma_hex_injective(a: Seq<u8>, b: Seq<u8>)
    requires
        hex_of(a) == hex_of(b),
    ensures
        a == b,
{
    assert(hex_of(a).len() == 2 * a.len());
    assert(hex_of(b).len() == 2 * b.len());
    assert forall|i: int| 0 <= i < a.len() implies a[i] == b[i] by {
        let x = a[i] as int;
        let y = b[i] as int;
        assert((2 * i) / 2 == i && (2 * i) % 2 == 0);
        assert((2 * i + 1) / 2 == i && (2 * i + 1) % 2 == 1);
        assert(hex_of(a)[2 * i] == hex_digit(x / 16));
        assert(hex_of(b)[2 * i] == hex_digit(y / 16));
        assert(hex_of(a)[2 * i + 1] == hex_digit(x % 16));
        assert(hex_of(b)[2 * i + 1] == hex_digit(y % 16));
        assert(x / 16 == y / 16);
        assert(x % 16 == y % 16);
    }
    assert(a =~= b);
}

} // verus!
