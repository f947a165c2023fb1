//! The frames of the write-ahead log: for each record its length, its checksum, its bytes.
//!
//! A crash in the middle of an append leaves a torn frame at the end. Reading stops there and
//! keeps everything before it.

use vstd::bytes::{u32_from_le_bytes, u32_to_le_bytes};
use vstd::prelude::*;
use vstd::slice::slice_subrange;

use crate::digest;
use crate::model::append_bytes;

verus! {

/// The frame of a record.
pub open spec fn frame(payload: Seq<u8>) -> Seq<u8> {
    vstd::bytes::spec_u32_to_le_bytes(payload.len() as u32) + vstd::bytes::spec_u32_to_le_bytes(
        digest::crc32_of(payload),
    ) + payload
}

/// The frames of records, one after the other.
pub open spec fn frames(payloads: Seq<Seq<u8>>) -> Seq<u8>
    decreases payloads.len(),
{
    if payloads.len() == 0 {
        Seq::empty()
    } else {
        frames(payloads.drop_last()) + frame(payloads.last())
    }
}

/// The length that a header claims.
pub open spec fn claimed_len(bytes: Seq<u8>) -> int {
    vstd::bytes::spec_u32_from_le_bytes(bytes.subrange(0, 4)) as int
}

/// The checksum that a header claims.
pub open spec fn claimed_crc(bytes: Seq<u8>) -> u32 {
    vstd::bytes::spec_u32_from_le_bytes(bytes.subrange(4, 8))
}

/// Whether the bytes start with a whole frame whose checksum is right.
pub open spec fn starts_intact(bytes: Seq<u8>) -> bool {
    &&& bytes.len() >= 8
    &&& 8 + claimed_len(bytes) <= bytes.len()
    &&& digest::crc32_of(bytes.subrange(8, 8 + claimed_len(bytes))) == claimed_crc(bytes)
}

/// The records in front of the first torn or corrupt frame.
pub open spec fn intact(bytes: Seq<u8>) -> Seq<Seq<u8>>
    decreases bytes.len(),
{
    if starts_intact(bytes) {
        seq![bytes.subrange(8, 8 + claimed_len(bytes))] + intact(
            bytes.skip(8 + claimed_len(bytes)),
        )
    } else {
        Seq::empty()
    }
}

/// The views of a list of records.
pub open spec fn payload_views(v: Seq<Vec<u8>>) -> Seq<Seq<u8>> {
    v.map_values(|p: Vec<u8>| p@)
}

/// Frames a batch of records for appending. A record's length has to fit its header.
pub fn frame_batch(payloads: &Vec<Vec<u8>>) -> (r: Vec<u8>)
    requires
        forall|i: int| 0 <= i < payloads@.len() ==> (#[trigger] payloads@[i])@.len() <= u32::MAX,
    ensures
        r@ == frames(payload_views(payloads@)),
{
    let mut out: Vec<u8> = Vec::new();
    let n: usize = payloads.len();
    let ghost ps = payload_views(payloads@);
    for i in 0..n
        invariant
            n == payloads@.len(),
            ps == payload_views(payloads@),
            forall|j: int| 0 <= j < n ==> (#[trigger] payloads@[j])@.len() <= u32::MAX,
            out@ == frames(ps.take(i as int)),
    {
        let p = &payloads[i];
        let ghost before = out@;
        append_bytes(&mut out, &u32_to_le_bytes(p.len() as u32));
        append_bytes(&mut out, &u32_to_le_bytes(digest::crc32(p)));
        append_bytes(&mut out, p);
        assert(out@ =~= before + frame(p@));
        assert(ps.take(i + 1).drop_last() =~= ps.take(i as int));
        assert(ps.take(i + 1).last() == p@);
    }
    assert(ps.take(n as int) =~= ps);
    out
}

fn copy_bytes(s: &[u8]) -> (r: Vec<u8>)
    ensures
        r@ == s@,
{
    let mut out: Vec<u8> = Vec::new();
    append_bytes(&mut out, s);
    assert(out@ =~= s@);
    out
}

/// Reads the records in front of the first torn or corrupt frame.
pub fn replay(bytes: &[u8]) -> (r: Vec<Vec<u8>>)
    ensures
        payload_views(r@) == intact(bytes@),
{
    let n: usize = bytes.len();
    let mut out: Vec<Vec<u8>> = Vec::new();
    let mut i: usize = 0;
    assert(bytes@.skip(0) =~= bytes@);
    assert(payload_views(out@) + intact(bytes@) =~= intact(bytes@));
    loop
        invariant
            i <= n == bytes@.len(),
            payload_views(out@) + intact(bytes@.skip(i as int)) == intact(bytes@),
        decreases n - i,
    {
        let ghost rest = bytes@.skip(i as int);
        if n - i < 8 {
            assert(payload_views(out@) + intact(rest) =~= payload_views(out@));
            return out;
        }
        let len_field = slice_subrange(bytes, i, i + 4);
        assert(len_field@ =~= rest.subrange(0, 4));
        let len: usize = u32_from_le_bytes(len_field) as usize;
        let crc_field = slice_subrange(bytes, i + 4, i + 8);
        assert(crc_field@ =~= rest.subrange(4, 8));
        let crc: u32 = u32_from_le_bytes(crc_field);
        let start: usize = i + 8;
        if len > n - start {
            assert(payload_views(out@) + intact(rest) =~= payload_views(out@));
            return out;
        }
        let payload = copy_bytes(slice_subrange(bytes, start, start + len));
        assert(payload@ =~= rest.subrange(8, 8 + len));
        if digest::crc32(&payload) != crc {
            assert(payload_views(out@) + intact(rest) =~= payload_views(out@));
            return out;
        }
        let ghost before = out@;
        out.push(payload);
        i = start + len;
        assert(rest.skip(8 + len) =~= bytes@.skip(i as int));
        assert(payload_views(out@) =~= payload_views(before).push(payload@));
        assert(payload_views(before) + (seq![payload@] + intact(rest.skip(8 + len)))
            =~= payload_views(out@) + intact(rest.skip(8 + len)));
    }
}

// ---------------------------------------------------------------------------
// Laws
// ---------------------------------------------------------------------------

/// What was framed is read back, whatever follows.
pub proof fn frame_is_read_back(payload: Seq<u8>, rest: Seq<u8>)
    requires
        payload.len() <= u32::MAX,
    ensures
        intact(frame(payload) + rest) == seq![payload] + intact(rest),
{
    vstd::bytes::lemma_auto_spec_u32_to_from_le_bytes();
    let bytes = frame(payload) + rest;
    let len = vstd::bytes::spec_u32_to_le_bytes(payload.len() as u32);
    let crc = vstd::bytes::spec_u32_to_le_bytes(digest::crc32_of(payload));
    assert(len.len() == 4 && crc.len() == 4);
    assert(bytes.subrange(0, 4) =~= len);
    assert(bytes.subrange(4, 8) =~= crc);
    assert(claimed_len(bytes) == payload.len());
    assert(bytes.subrange(8, 8 + payload.len() as int) =~= payload);
    assert(bytes.skip(8 + payload.len() as int) =~= rest);
}

/// All the records of a log are read back, in order, and then what can be read of its tail.
pub proof fn log_is_read_back(payloads: Seq<Seq<u8>>, tail: Seq<u8>)
    requires
        forall|i: int| 0 <= i < payloads.len() ==> (#[trigger] payloads[i]).len() <= u32::MAX,
    ensures
        intact(frames(payloads) + tail) == payloads + intact(tail),
    decreases payloads.len(),
{
    if payloads.len() == 0 {
        assert(frames(payloads) + tail =~= tail);
        assert(payloads + intact(tail) =~= intact(tail));
    } else {
        let init = payloads.drop_last();
        let last = payloads.last();
        assert forall|i: int| 0 <= i < init.len() implies (#[trigger] init[i]).len() <= u32::MAX by {
            assert(init[i] == payloads[i]);
        }
        assert(payloads[payloads.len() - 1].len() <= u32::MAX);
        assert(frames(payloads) + tail =~= frames(init) + (frame(last) + tail));
        log_is_read_back(init, frame(last) + tail);
        frame_is_read_back(last, tail);
        assert(init + (seq![last] + intact(tail)) =~= payloads + intact(tail));
    }
}

/// A frame that was cut short, wherever it was cut, yields nothing.
pub proof fn torn_frame_yields_nothing(payload: Seq<u8>, cut: int)
    requires
        payload.len() <= u32::MAX,
        0 <= cut < frame(payload).len(),
    ensures
        intact(frame(payload).take(cut)) == Seq::<Seq<u8>>::empty(),
{
    vstd::bytes::lemma_auto_spec_u32_to_from_le_bytes();
    let bytes = frame(payload).take(cut);
    let len = vstd::bytes::spec_u32_to_le_bytes(payload.len() as u32);
    if cut >= 8 {
        assert(bytes.subrange(0, 4) =~= len);
        assert(claimed_len(bytes) == payload.len());
    }
}

/// A crash in the middle of an append loses the torn record and nothing else.
pub proof fn torn_append_loses_only_itself(payloads: Seq<Seq<u8>>, torn: Seq<u8>, cut: int)
    requires
        forall|i: int| 0 <= i < payloads.len() ==> (#[trigger] payloads[i]).len() <= u32::MAX,
        torn.len() <= u32::MAX,
        0 <= cut < frame(torn).len(),
    ensures
        intact(frames(payloads) + frame(torn).take(cut)) == payloads,
{
    log_is_read_back(payloads, frame(torn).take(cut));
    torn_frame_yields_nothing(torn, cut);
    assert(payloads + Seq::<Seq<u8>>::empty() =~= payloads);
}

/// A frame is the length of its record and its checksum, four bytes each with the little end
/// first, and then the record.
pub proof fn frames_are_laid_out(payload: Seq<u8>)
    requires
        payload.len() <= u32::MAX,
    ensures
        frame(payload).len() == payload.len() + 8,
        frame(payload).subrange(0, 4) == vstd::bytes::spec_u32_to_le_bytes(payload.len() as u32),
        frame(payload).subrange(4, 8) == vstd::bytes::spec_u32_to_le_bytes(
            digest::crc32_of(payload),
        ),
        frame(payload).skip(8) == payload,
{
    vstd::bytes::lemma_auto_spec_u32_to_from_le_bytes();
    let f = frame(payload);
    assert(f.subrange(0, 4) =~= vstd::bytes::spec_u32_to_le_bytes(payload.len() as u32));
    assert(f.subrange(4, 8) =~= vstd::bytes::spec_u32_to_le_bytes(digest::crc32_of(payload)));
    assert(f.skip(8) =~= payload);
}

/// Viewing a list keeps all its items, in their order.
pub proof fn payload_views_keep_all(v: Seq<Vec<u8>>, i: int)
    requires
        0 <= i < v.len(),
    ensures
        payload_views(v).len() == v.len(),
        payload_views(v)[i] == v[i]@,
{
}

} // verus!
