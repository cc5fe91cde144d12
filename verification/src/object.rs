//! Object kinds, the identifier of an object's content, and the entries
//! that a pack is made of.

use vstd::prelude::*;
use crate::byteseq;
use crate::hash::{sha1_digest, ObjectId};

verus! {

/// The four kinds of object.
#[derive(Clone, Copy, Debug, PartialEq, Eq, Structural)]
pub enum ObjectType {
    Commit,
    Tree,
    Blob,
    Tag,
}

/// The name of a kind as it stands in front of an object's content.
pub open spec fn kind_name(kind: ObjectType) -> Seq<u8> {
    match kind {
        ObjectType::Commit => seq![99u8, 111u8, 109u8, 109u8, 105u8, 116u8],
        ObjectType::Tree => seq![116u8, 114u8, 101u8, 101u8],
        ObjectType::Blob => seq![98u8, 108u8, 111u8, 98u8],
        ObjectType::Tag => seq![116u8, 97u8, 103u8],
    }
}

/// What is hashed for an object: its kind, a space, the length of its
/// content in decimal, a zero byte, and the content.
pub open spec fn object_bytes(kind: ObjectType, data: Seq<u8>) -> Seq<u8> {
    kind_name(kind) + seq![32u8] + byteseq::decimal(data.len()) + seq![0u8] + data
}

/// The identifier of an object of the given kind and content.
pub open spec fn object_id_of(kind: ObjectType, data: Seq<u8>) -> Seq<u8> {
    sha1_digest(object_bytes(kind, data))
}

/// The identifier of an object of the given kind and content.
pub fn object_id(kind: ObjectType, data: &[u8]) -> (id: ObjectId)
    ensures
        id@ == object_id_of(kind, data@),
{
    let mut buf: Vec<u8> = match kind {
        ObjectType::Commit => vec![99u8, 111u8, 109u8, 109u8, 105u8, 116u8],
        ObjectType::Tree => vec![116u8, 114u8, 101u8, 101u8],
        ObjectType::Blob => vec![98u8, 108u8, 111u8, 98u8],
        ObjectType::Tag => vec![116u8, 97u8, 103u8],
    };
    assert(buf@ =~= kind_name(kind));
    buf.push(32u8);
    byteseq::append_decimal(&mut buf, data.len());
    buf.push(0u8);
    byteseq::append(&mut buf, data);
    assert(buf@ =~= object_bytes(kind, data@));
    ObjectId::digest(buf.as_slice())
}

/// One object as it travels in a pack: its kind, its identifier and its
/// content.
#[derive(Debug)]
pub struct Entry {
    pub obj_type: ObjectType,
    pub hash: ObjectId,
    pub data: Vec<u8>,
}

/// The mathematical value of an entry.
pub struct EntryView {
    pub kind: ObjectType,
    pub id: Seq<u8>,
    pub data: Seq<u8>,
}

impl View for Entry {
    type V = EntryView;

    open spec fn view(&self) -> EntryView {
        EntryView { kind: self.obj_type, id: self.hash@, data: self.data@ }
    }
}

impl Entry {
    /// An entry of the given kind and content, under the identifier that
    /// the content gives.
    pub fn new(obj_type: ObjectType, data: Vec<u8>) -> (e: Entry)
        ensures
            e@ == (EntryView { kind: obj_type, id: object_id_of(obj_type, data@), data: data@ }),
    {
        let hash = object_id(obj_type, data.as_slice());
        Entry { obj_type, hash, data }
    }

    /// A copy of the entry.
    pub fn copy(&self) -> (e: Entry)
        ensures
            e@ == self@,
    {
        Entry {
            obj_type: self.obj_type,
            hash: self.hash,
            data: byteseq::copy(self.data.as_slice()),
        }
    }
}

/// The values of a list of entries.
pub open spec fn entries_view(entries: Seq<Entry>) -> Seq<EntryView> {
    Seq::new(entries.len(), |i: int| entries[i]@)
}

} // verus!
