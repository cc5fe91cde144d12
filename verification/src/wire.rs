//! The announcement of refs that opens a fetch, framed in pkt-lines.

use vstd::prelude::*;
use vstd::string::*;
use crate::byteseq;
use crate::hash::{hex_digit, hex_of, zero_id, ObjectId};
use crate::monorepo::{refs_list_view, Refs, RefsView};

verus! {

/// The longest pkt-line, its four digits of length included.
pub const MAX_PKT_LEN: usize = 65520;

/// A length as four lowercase hex digits.
pub open spec fn hex4(n: int) -> Seq<u8> {
    seq![
        hex_digit(n / 4096 % 16),
        hex_digit(n / 256 % 16),
        hex_digit(n / 16 % 16),
        hex_digit(n % 16),
    ]
}

/// A pkt-line: the length of the line, its own four digits included, and
/// the payload. A payload too long for one line gives no line.
pub open spec fn pkt_line(payload: Seq<u8>) -> Seq<u8> {
    if payload.len() + 4 <= MAX_PKT_LEN {
        hex4(payload.len() as int + 4) + payload
    } else {
        Seq::empty()
    }
}

/// The flush packet.
pub open spec fn flush_pkt() -> Seq<u8> {
    seq![48u8, 48u8, 48u8, 48u8]
}

/// The line that names the service.
pub open spec fn service_line() -> Seq<u8> {
    byteseq::ascii("# service=git-upload-pack\n"@)
}

/// The capabilities that are announced.
pub open spec fn capabilities() -> Seq<u8> {
    byteseq::ascii(
        "shallow deepen-since deepen-not deepen-relative multi_ack_detailed no-done include-tag side-band-64k ofs-delta agent=mega/0.1.0"@,
    )
}

/// The line that announces the head: its identifier, the word `HEAD`, a
/// zero byte, the capabilities and a line feed.
pub open spec fn head_line(head: Seq<u8>) -> Seq<u8> {
    hex_of(head) + byteseq::ascii(" HEAD"@) + seq![0u8] + capabilities() + seq![10u8]
}

/// The line that announces one ref: its identifier, a space, its name and
/// a line feed.
pub open spec fn ref_line(r: RefsView) -> Seq<u8> {
    hex_of(r.ref_hash) + seq![32u8] + r.ref_name + seq![10u8]
}

/// The pkt-lines of the refs, in order.
pub open spec fn ref_lines(refs: Seq<RefsView>) -> Seq<u8>
    decreases refs.len(),
{
    if refs.len() == 0 {
        Seq::empty()
    } else {
        ref_lines(refs.drop_last()) + pkt_line(ref_line(refs.last()))
    }
}

/// The identifier that is announced as the head: that of the last ref of
/// a default branch, or twenty zero bytes where there is none.
pub open spec fn head_of(refs: Seq<RefsView>) -> Seq<u8>
    decreases refs.len(),
{
    if refs.len() == 0 {
        zero_id()
    } else if refs.last().default_branch {
        refs.last().ref_hash
    } else {
        head_of(refs.drop_last())
    }
}

/// The announcement of the refs: the service's line, a flush, the head's
/// line, one line for each ref, and a flush.
pub open spec fn advertisement(refs: Seq<RefsView>) -> Seq<u8> {
    pkt_line(service_line()) + flush_pkt() + pkt_line(head_line(head_of(refs))) + ref_lines(refs)
        + flush_pkt()
}

fn digit(n: usize) -> (c: u8)
    requires
        n < 16,
    ensures
        c == hex_digit(n as int),
{
    if n < 10 {
        (48 + n) as u8
    } else {
        (87 + n) as u8
    }
}

/// Appends the pkt-line of `payload` to `dst`.
pub fn append_pkt_line(dst: &mut Vec<u8>, payload: &[u8])
    ensures
        final(dst)@ == old(dst)@ + pkt_line(payload@),
{
    let len = payload.len();
    if len <= MAX_PKT_LEN - 4 {
        let n = len + 4;
        let mut line: Vec<u8> = Vec::new();
        line.push(digit(n / 4096 % 16));
        line.push(digit(n / 256 % 16));
        line.push(digit(n / 16 % 16));
        line.push(digit(n % 16));
        assert(line@ =~= hex4(n as int));
        byteseq::append(&mut line, payload);
        byteseq::append(dst, line.as_slice());
    } else {
        assert(dst@ =~= old(dst)@ + pkt_line(payload@));
    }
}

/// The identifier that is announced as the head.
pub fn head_id(refs: &Vec<Refs>) -> (id: ObjectId)
    ensures
        id@ == head_of(refs_list_view(refs@)),
{
    let ghost all = refs_list_view(refs@);
    let mut id = ObjectId::zero();
    let mut i: usize = 0;
    assert(all.take(0) =~= Seq::<RefsView>::empty());
    while i < refs.len()
        invariant
            i <= refs@.len(),
            all == refs_list_view(refs@),
            id@ == head_of(all.take(i as int)),
        decreases refs@.len() - i,
    {
        proof {
            assert(all.take(i + 1).drop_last() =~= all.take(i as int));
            assert(all.take(i + 1).last() == refs@[i as int]@);
        }
        if refs[i].default_branch {
            id = refs[i].ref_hash;
        }
        i += 1;
    }
    assert(all.take(i as int) =~= all);
    id
}

/// The announcement of the refs.
pub fn ref_advertisement(refs: &Vec<Refs>) -> (v: Vec<u8>)
    ensures
        v@ == advertisement(refs_list_view(refs@)),
{
    proof {
        reveal_strlit("# service=git-upload-pack\n");
        reveal_strlit(" HEAD");
        reveal_strlit(
            "shallow deepen-since deepen-not deepen-relative multi_ack_detailed no-done include-tag side-band-64k ofs-delta agent=mega/0.1.0",
        );
    }
    let service = "# service=git-upload-pack\n";
    let head_word = " HEAD";
    let caps = "shallow deepen-since deepen-not deepen-relative multi_ack_detailed no-done include-tag side-band-64k ofs-delta agent=mega/0.1.0";
    assert(is_ascii(service));
    assert(is_ascii(head_word));
    assert(is_ascii(caps));
    let ghost all = refs_list_view(refs@);
    let mut v: Vec<u8> = Vec::new();
    append_pkt_line(&mut v, byteseq::text(service).as_slice());
    let flush: Vec<u8> = vec![48u8, 48u8, 48u8, 48u8];
    assert(flush@ =~= flush_pkt());
    byteseq::append(&mut v, flush.as_slice());
    let mut head = head_id(refs).to_plain_str();
    byteseq::append(&mut head, byteseq::text(head_word).as_slice());
    head.push(0u8);
    byteseq::append(&mut head, byteseq::text(caps).as_slice());
    head.push(10u8);
    assert(head@ =~= head_line(head_of(all)));
    append_pkt_line(&mut v, head.as_slice());
    let ghost front = v@;
    let mut lines: Vec<u8> = Vec::new();
    let mut i: usize = 0;
    assert(all.take(0) =~= Seq::<RefsView>::empty());
    while i < refs.len()
        invariant
            i <= refs@.len(),
            all == refs_list_view(refs@),
            lines@ == ref_lines(all.take(i as int)),
        decreases refs@.len() - i,
    {
        proof {
            assert(all.take(i + 1).drop_last() =~= all.take(i as int));
            assert(all.take(i + 1).last() == refs@[i as int]@);
        }
        let mut line = refs[i].ref_hash.to_plain_str();
        line.push(32u8);
        byteseq::append(&mut line, refs[i].ref_name.as_slice());
        line.push(10u8);
        assert(line@ =~= ref_line(refs@[i as int]@));
        append_pkt_line(&mut lines, line.as_slice());
        i += 1;
    }
    assert(all.take(i as int) =~= all);
    byteseq::append(&mut v, lines.as_slice());
    byteseq::append(&mut v, flush.as_slice());
    v
}

} // verus!
