//! Hello extensions: self-describing records of a 16-bit type tag, a
//! 16-bit payload length and the payload, and the length-prefixed block
//! that carries a list of them back to back.
//!
//! A record is kept as its tag and raw payload whatever the tag is, so an
//! extension this library knows nothing about passes through unchanged.

use crate::error::Error;
use crate::wire::{
    bytes_eq, get_bytes, get_u16, lemma_u16_bytes_of_be, lemma_u16_round_trip, put_bytes, put_u16,
    u16_at, u16_be_bytes,
};
use vstd::prelude::*;
use vstd::slice::slice_subrange;

verus! {

/// Bytes taken by the type tag and the length field of one record.
pub const EXTENSION_HEADER_LENGTH: usize = 4;

/// The largest payload, and the largest block, a 16-bit length can declare.
pub const MAX_U16_LENGTH: usize = 0xffff;

/// One extension record.
#[derive(Clone, Debug)]
pub struct Extension {
    pub extension_type: u16,
    pub payload: Vec<u8>,
}

/// What an extension record is: its tag and its payload bytes.
pub struct ExtensionView {
    pub extension_type: u16,
    pub payload: Seq<u8>,
}

impl View for Extension {
    type V = ExtensionView;

    open spec fn view(&self) -> ExtensionView {
        ExtensionView { extension_type: self.extension_type, payload: self.payload@ }
    }
}

/// The records that a list of extensions stands for, in list order.
pub open spec fn extension_views(exts: Seq<Extension>) -> Seq<ExtensionView> {
    exts.map_values(|e: Extension| e@)
}

/// Whether the payload's length fits the record's 16-bit length field.
pub open spec fn record_fits(e: ExtensionView) -> bool {
    e.payload.len() <= 0xffff
}

/// The wire form of one record: tag, payload length, payload.
pub open spec fn record_bytes(e: ExtensionView) -> Seq<u8> {
    u16_be_bytes(e.extension_type) + u16_be_bytes(e.payload.len() as u16) + e.payload
}

/// The record at the front of `s` and the number of bytes it takes, or
/// `None` where `s` ends before the record does.
pub open spec fn parse_record(s: Seq<u8>) -> Option<(ExtensionView, nat)> {
    if s.len() < 4 {
        None
    } else if s.len() < 4 + u16_at(s, 2) {
        None
    } else {
        let n = u16_at(s, 2) as int;
        Some(
            (
                ExtensionView { extension_type: u16_at(s, 0), payload: s.subrange(4, 4 + n) },
                (4 + n) as nat,
            ),
        )
    }
}

/// The wire form of a list of records laid back to back.
pub open spec fn records_bytes(exts: Seq<ExtensionView>) -> Seq<u8>
    decreases exts.len(),
{
    if exts.len() == 0 {
        Seq::empty()
    } else {
        record_bytes(exts[0]) + records_bytes(exts.skip(1))
    }
}

/// Whether every record of the list fits its own length field.
pub open spec fn records_fit(exts: Seq<ExtensionView>) -> bool {
    forall|i: int| 0 <= i < exts.len() ==> record_fits(#[trigger] exts[i])
}

/// The records that tile `block` exactly, or `None` where some record runs
/// past the end of the block or bytes are left that hold no whole record.
pub open spec fn parse_records(block: Seq<u8>) -> Option<Seq<ExtensionView>>
    decreases block.len(),
{
    if block.len() == 0 {
        Some(Seq::empty())
    } else {
        match parse_record(block) {
            None => None,
            Some((e, n)) => match parse_records(block.skip(n as int)) {
                None => None,
                Some(rest) => Some(seq![e] + rest),
            },
        }
    }
}

/// Whether the list can be carried in one block: every record fits its
/// length field and the records together fit the block's.
pub open spec fn block_fits(exts: Seq<ExtensionView>) -> bool {
    records_fit(exts) && records_bytes(exts).len() <= 0xffff
}

/// The wire form of the whole block: the records' total length, then the
/// records.
pub open spec fn block_bytes(exts: Seq<ExtensionView>) -> Seq<u8> {
    u16_be_bytes(records_bytes(exts).len() as u16) + records_bytes(exts)
}

/// What encoding a list of extensions gives.
pub open spec fn encode_block(exts: Seq<ExtensionView>) -> Result<Seq<u8>, Error> {
    if block_fits(exts) {
        Ok(block_bytes(exts))
    } else {
        Err(Error::MalformedLength)
    }
}

/// What decoding the block at the front of `s` gives: the records and the
/// number of bytes taken, `Truncated` where `s` ends before the declared
/// block does, `MalformedLength` where the records do not tile the block.
pub open spec fn parse_block(s: Seq<u8>) -> Result<(Seq<ExtensionView>, nat), Error> {
    if s.len() < 2 {
        Err(Error::Truncated)
    } else if s.len() < 2 + u16_at(s, 0) {
        Err(Error::Truncated)
    } else {
        let n = u16_at(s, 0) as int;
        match parse_records(s.subrange(2, 2 + n)) {
            None => Err(Error::MalformedLength),
            Some(exts) => Ok((exts, (2 + n) as nat)),
        }
    }
}

impl Extension {
    /// Encodes the record. Fails with `MalformedLength` exactly when the
    /// payload is too long for its length field.
    pub fn marshal(&self) -> (r: Result<Vec<u8>, Error>)
        ensures
            match r {
                Ok(bytes) => record_fits(self@) && bytes@ == record_bytes(self@),
                Err(e) => !record_fits(self@) && e == Error::MalformedLength,
            },
    {
        if self.payload.len() > MAX_U16_LENGTH {
            return Err(Error::MalformedLength);
        }
        let mut out: Vec<u8> = Vec::new();
        put_u16(&mut out, self.extension_type);
        put_u16(&mut out, self.payload.len() as u16);
        put_bytes(&mut out, self.payload.as_slice());
        assert(out@ =~= record_bytes(self@));
        Ok(out)
    }

    /// Decodes the record at the front of `data` and says how many bytes it
    /// took: the four of the header and those of the payload it returns.
    /// Fails with `Truncated` exactly when `data` ends before the record
    /// does.
    pub fn unmarshal(data: &[u8]) -> (r: Result<(Extension, usize), Error>)
        ensures
            match r {
                Ok((ext, used)) => parse_record(data@) == Some((ext@, used as nat)) && used == 4
                    + ext.payload@.len(),
                Err(e) => parse_record(data@) is None && e == Error::Truncated,
            },
    {
        let extension_type = match get_u16(data, 0) {
            Some(v) => v,
            None => { return Err(Error::Truncated); },
        };
        let payload_len = match get_u16(data, 2) {
            Some(v) => v,
            None => { return Err(Error::Truncated); },
        };
        let payload = match get_bytes(data, EXTENSION_HEADER_LENGTH, payload_len as usize) {
            Some(v) => v,
            None => { return Err(Error::Truncated); },
        };
        let used: usize = EXTENSION_HEADER_LENGTH + payload_len as usize;
        Ok((Extension { extension_type, payload }, used))
    }

}

impl PartialEq for Extension {
    /// Whether two records have the same tag and the same payload.
    fn eq(&self, other: &Extension) -> (r: bool) {
        self.extension_type == other.extension_type && bytes_eq(
            self.payload.as_slice(),
            other.payload.as_slice(),
        )
    }
}

impl vstd::std_specs::cmp::PartialEqSpecImpl for Extension {
    open spec fn obeys_eq_spec() -> bool {
        true
    }

    open spec fn eq_spec(&self, other: &Extension) -> bool {
        self@ == other@
    }
}

impl Eq for Extension {

}

/// Encodes a list of extensions as one length-prefixed block, the records
/// in list order. Fails with `MalformedLength` exactly when a payload does
/// not fit its record's length field or the records together do not fit
/// the block's.
pub fn marshal_extensions(exts: &Vec<Extension>) -> (r: Result<Vec<u8>, Error>)
    ensures
        match r {
            Ok(bytes) => encode_block(extension_views(exts@)) == Ok::<Seq<u8>, Error>(bytes@),
            Err(e) => encode_block(extension_views(exts@)) == Err::<Seq<u8>, Error>(e),
        },
{
    let ghost all = extension_views(exts@);
    let mut scratch: Vec<u8> = Vec::new();
    let mut i: usize = 0;
    while i < exts.len()
        invariant
            i <= exts@.len(),
            all == extension_views(exts@),
            records_fit(all.take(i as int)),
            scratch@ == records_bytes(all.take(i as int)),
        decreases exts@.len() - i,
    {
        match exts[i].marshal() {
            Err(e) => {
                assert(!record_fits(all[i as int]));
                return Err(e);
            },
            Ok(record) => {
                proof {
                    lemma_records_bytes_push(all.take(i as int), all[i as int]);
                    assert(all.take(i as int).push(all[i as int]) =~= all.take(i + 1));
                }
                put_bytes(&mut scratch, record.as_slice());
            },
        }
        i += 1;
    }
    assert(all.take(i as int) =~= all);
    if scratch.len() > MAX_U16_LENGTH {
        return Err(Error::MalformedLength);
    }
    let mut out: Vec<u8> = Vec::new();
    put_u16(&mut out, scratch.len() as u16);
    put_bytes(&mut out, scratch.as_slice());
    assert(out@ =~= block_bytes(all));
    Ok(out)
}

/// Walks `block` record by record. Gives the records in the order met
/// when they tile the block exactly, and `None` otherwise.
pub fn unmarshal_records(block: &[u8]) -> (r: Option<Vec<Extension>>)
    ensures
        match r {
            Some(exts) => parse_records(block@) == Some(extension_views(exts@)),
            None => parse_records(block@) is None,
        },
{
    let mut exts: Vec<Extension> = Vec::new();
    let mut offset: usize = 0;
    proof {
        assert(block@.skip(0) =~= block@);
        assert forall|tail: Seq<ExtensionView>|
            #[trigger] (extension_views(exts@) + tail) == tail by {
            assert(extension_views(exts@) + tail =~= tail);
        }
    }
    while offset < block.len()
        invariant
            offset <= block@.len(),
            parse_records(block@) == match parse_records(block@.skip(offset as int)) {
                None => None,
                Some(rest) => Some(extension_views(exts@) + rest),
            },
        decreases block@.len() - offset,
    {
        let rest = slice_subrange(block, offset, block.len());
        assert(rest@ =~= block@.skip(offset as int));
        match Extension::unmarshal(rest) {
            Err(_) => {
                return None;
            },
            Ok((ext, used)) => {
                proof {
                    let done = extension_views(exts@);
                    assert(rest@.skip(used as int) =~= block@.skip(offset + used));
                    assert(extension_views(exts@.push(ext)) =~= done.push(ext@));
                    assert forall|tail: Seq<ExtensionView>|
                        done + (seq![ext@] + tail) == #[trigger] (done.push(ext@) + tail) by {
                        assert(done + (seq![ext@] + tail) =~= done.push(ext@) + tail);
                    }
                }
                exts.push(ext);
                offset += used;
            },
        }
    }
    assert(block@.skip(offset as int) =~= Seq::<u8>::empty());
    assert(extension_views(exts@) + Seq::<ExtensionView>::empty() =~= extension_views(exts@));
    Some(exts)
}

/// Decodes the length-prefixed block at the front of `data` and says how
/// many bytes it took. Fails with `Truncated` when `data` ends before the
/// declared block does, and with `MalformedLength` when the records do not
/// tile the block exactly.
pub fn unmarshal_extensions(data: &[u8]) -> (r: Result<(Vec<Extension>, usize), Error>)
    ensures
        match r {
            Ok((exts, used)) => parse_block(data@) == Ok::<(Seq<ExtensionView>, nat), Error>(
                (extension_views(exts@), used as nat),
            ),
            Err(e) => parse_block(data@) == Err::<(Seq<ExtensionView>, nat), Error>(e),
        },
{
    let block_len = match get_u16(data, 0) {
        Some(v) => v,
        None => { return Err(Error::Truncated); },
    };
    let end: usize = 2 + block_len as usize;
    if data.len() < end {
        return Err(Error::Truncated);
    }
    let block = slice_subrange(data, 2, end);
    match unmarshal_records(block) {
        None => Err(Error::MalformedLength),
        Some(exts) => Ok((exts, end)),
    }
}

/// Laying one more record behind a list appends its bytes.
pub proof fn lemma_records_bytes_push(exts: Seq<ExtensionView>, e: ExtensionView)
    ensures
        records_bytes(exts.push(e)) == records_bytes(exts) + record_bytes(e),
    decreases exts.len(),
{
    if exts.len() == 0 {
        assert(exts.push(e).skip(1) =~= exts);
        assert(exts.push(e)[0] == e);
        assert(records_bytes(exts.push(e)) =~= records_bytes(exts) + record_bytes(e));
    } else {
        lemma_records_bytes_push(exts.skip(1), e);
        assert(exts.push(e).skip(1) =~= exts.skip(1).push(e));
        assert(exts.push(e)[0] == exts[0]);
        assert(record_bytes(exts[0]) + (records_bytes(exts.skip(1)) + record_bytes(e)) =~= (
        record_bytes(exts[0]) + records_bytes(exts.skip(1))) + record_bytes(e));
    }
}

/// A record that fits its length field is read back from the front of
/// any input that starts with its wire form, whatever follows it and
/// whatever its type tag is.
pub proof fn lemma_record_round_trip(e: ExtensionView, rest: Seq<u8>)
    requires
        record_fits(e),
    ensures
        record_bytes(e).len() == 4 + e.payload.len(),
        parse_record(record_bytes(e) + rest) == Some((e, record_bytes(e).len())),
{
    let s = record_bytes(e) + rest;
    let n = e.payload.len() as u16;
    lemma_u16_round_trip(e.extension_type);
    lemma_u16_round_trip(n);
    assert(s[0] == u16_be_bytes(e.extension_type)[0]);
    assert(s[1] == u16_be_bytes(e.extension_type)[1]);
    assert(s[2] == u16_be_bytes(n)[0]);
    assert(s[3] == u16_be_bytes(n)[1]);
    assert(s.subrange(4, 4 + n) =~= e.payload);
}

/// Records followed by anything parse as the records followed by what the
/// remainder parses as; they fail together with the remainder.
pub proof fn lemma_parse_records_append(exts: Seq<ExtensionView>, tail: Seq<u8>)
    requires
        records_fit(exts),
    ensures
        parse_records(records_bytes(exts) + tail) == match parse_records(tail) {
            None => None,
            Some(more) => Some(exts + more),
        },
    decreases exts.len(),
{
    if exts.len() == 0 {
        assert(records_bytes(exts) + tail =~= tail);
        assert forall|more: Seq<ExtensionView>| #[trigger] (exts + more) == more by {
            assert(exts + more =~= more);
        }
    } else {
        let first = exts[0];
        let others = exts.skip(1);
        let s = records_bytes(exts) + tail;
        let after = records_bytes(others) + tail;
        lemma_record_round_trip(first, after);
        assert(s =~= record_bytes(first) + after);
        assert(s.skip(record_bytes(first).len() as int) =~= after);
        lemma_parse_records_append(others, tail);
        assert forall|more: Seq<ExtensionView>|
            seq![first] + (others + more) == #[trigger] (exts + more) by {
            assert(seq![first] + (others + more) =~= exts + more);
        }
    }
}

/// Decoding the records of a list gives the list back, in its order.
pub proof fn lemma_records_round_trip(exts: Seq<ExtensionView>)
    requires
        records_fit(exts),
    ensures
        parse_records(records_bytes(exts)) == Some(exts),
{
    lemma_parse_records_append(exts, Seq::empty());
    assert(records_bytes(exts) + Seq::<u8>::empty() =~= records_bytes(exts));
    assert(exts + Seq::<ExtensionView>::empty() =~= exts);
}

/// One byte left over behind the last record is not passed over: the
/// records do not tile such a block.
pub proof fn lemma_records_extra_byte(exts: Seq<ExtensionView>, extra: u8)
    requires
        records_fit(exts),
    ensures
        parse_records(records_bytes(exts).push(extra)) is None,
{
    lemma_parse_records_append(exts, seq![extra]);
    assert(records_bytes(exts).push(extra) =~= records_bytes(exts) + seq![extra]);
}

/// A block that lacks the last byte of its last record is refused.
pub proof fn lemma_records_cut_short(exts: Seq<ExtensionView>)
    requires
        records_fit(exts),
        exts.len() > 0,
    ensures
        records_bytes(exts).len() > 0,
        parse_records(records_bytes(exts).drop_last()) is None,
{
    let front = exts.drop_last();
    let last = exts.last();
    let cut = record_bytes(last).drop_last();
    assert(front.push(last) =~= exts);
    lemma_records_bytes_push(front, last);
    lemma_record_round_trip(last, Seq::empty());
    assert(records_bytes(exts).drop_last() =~= records_bytes(front) + cut);
    lemma_parse_records_append(front, cut);
    let n = last.payload.len() as u16;
    lemma_u16_round_trip(n);
    if last.payload.len() > 0 {
        assert(cut[2] == u16_be_bytes(n)[0]);
        assert(cut[3] == u16_be_bytes(n)[1]);
    }
    assert(parse_record(cut) is None);
}

/// What is read as a record is what the record is written as: the bytes
/// taken from the front of the input are the wire form of the record read.
pub proof fn lemma_parse_record_exact(s: Seq<u8>)
    ensures
        parse_record(s) matches Some((e, used)) ==> record_fits(e) && used == 4 + e.payload.len()
            && used <= s.len() && record_bytes(e) == s.subrange(0, used as int),
{
    if parse_record(s) is Some {
        let (e, used) = parse_record(s).unwrap();
        lemma_u16_bytes_of_be(s[0], s[1]);
        lemma_u16_bytes_of_be(s[2], s[3]);
        assert(record_bytes(e) =~= s.subrange(0, used as int));
    }
}

/// Only an exact tiling is accepted: the records read from a block, laid
/// back to back, are the block, byte for byte and with none left over.
pub proof fn lemma_parse_records_exact(block: Seq<u8>)
    ensures
        parse_records(block) matches Some(exts) ==> records_fit(exts) && records_bytes(exts)
            == block,
    decreases block.len(),
{
    if block.len() == 0 {
        assert(records_bytes(Seq::<ExtensionView>::empty()) =~= block);
    } else if parse_records(block) is Some {
        let (e, used) = parse_record(block).unwrap();
        let after = block.skip(used as int);
        let rest = parse_records(after).unwrap();
        let exts = seq![e] + rest;
        assert(parse_records(block) == Some(exts));
        lemma_parse_record_exact(block);
        lemma_parse_records_exact(after);
        lemma_records_prepend(e, rest);
        assert(block.subrange(0, used as int) + after =~= block);
    }
}

/// Laying a record in front of a list puts its bytes in front, and the
/// longer list fits when the record and the list do.
pub proof fn lemma_records_prepend(e: ExtensionView, rest: Seq<ExtensionView>)
    ensures
        records_bytes(seq![e] + rest) == record_bytes(e) + records_bytes(rest),
        record_fits(e) && records_fit(rest) ==> records_fit(seq![e] + rest),
{
    let exts = seq![e] + rest;
    assert(exts[0] == e);
    assert(exts.skip(1) =~= rest);
    if record_fits(e) && records_fit(rest) {
        assert forall|i: int| 0 <= i < exts.len() implies record_fits(#[trigger] exts[i]) by {
            if i > 0 {
                assert(exts[i] == rest[i - 1]);
            }
        }
    }
}

/// The number of bytes that the records of a list take: four for each
/// header and the payloads.
pub open spec fn records_length(exts: Seq<ExtensionView>) -> nat
    decreases exts.len(),
{
    if exts.len() == 0 {
        0
    } else {
        4 + exts[0].payload.len() + records_length(exts.skip(1))
    }
}

/// The records of a list take four bytes each and their payloads.
pub proof fn lemma_records_bytes_len(exts: Seq<ExtensionView>)
    ensures
        records_bytes(exts).len() == records_length(exts),
    decreases exts.len(),
{
    if exts.len() > 0 {
        lemma_records_bytes_len(exts.skip(1));
    }
}

/// A list that fits one block is read back from the front of any input
/// that starts with the block's wire form, in the order it was written.
pub proof fn lemma_block_round_trip(exts: Seq<ExtensionView>, rest: Seq<u8>)
    requires
        block_fits(exts),
    ensures
        block_bytes(exts).len() == 2 + records_bytes(exts).len(),
        parse_block(block_bytes(exts) + rest) == Ok::<(Seq<ExtensionView>, nat), Error>(
            (exts, block_bytes(exts).len()),
        ),
{
    let records = records_bytes(exts);
    let n = records.len() as u16;
    let s = block_bytes(exts) + rest;
    lemma_u16_round_trip(n);
    assert(s[0] == u16_be_bytes(n)[0]);
    assert(s[1] == u16_be_bytes(n)[1]);
    assert(s.subrange(2, 2 + n) =~= records);
    lemma_records_round_trip(exts);
}

/// A block that declares one byte more than its records take, and holds
/// one more byte, is refused as malformed.
pub proof fn lemma_block_extra_byte(exts: Seq<ExtensionView>, extra: u8, rest: Seq<u8>)
    requires
        records_fit(exts),
        records_bytes(exts).len() < 0xffff,
    ensures
        parse_block(
            u16_be_bytes((records_bytes(exts).len() + 1) as u16) + records_bytes(exts).push(extra)
                + rest,
        ) == Err::<(Seq<ExtensionView>, nat), Error>(Error::MalformedLength),
{
    let content = records_bytes(exts).push(extra);
    let n = content.len() as u16;
    let s = u16_be_bytes(n) + content + rest;
    lemma_u16_round_trip(n);
    assert(s[0] == u16_be_bytes(n)[0]);
    assert(s[1] == u16_be_bytes(n)[1]);
    assert(s.subrange(2, 2 + n) =~= content);
    lemma_records_extra_byte(exts, extra);
}

/// A block that declares one byte less than its records take, and lacks
/// the last byte of the last record, is refused as malformed.
pub proof fn lemma_block_cut_short(exts: Seq<ExtensionView>, rest: Seq<u8>)
    requires
        block_fits(exts),
        exts.len() > 0,
    ensures
        records_bytes(exts).len() > 0,
        parse_block(
            u16_be_bytes((records_bytes(exts).len() - 1) as u16) + records_bytes(exts).drop_last()
                + rest,
        ) == Err::<(Seq<ExtensionView>, nat), Error>(Error::MalformedLength),
{
    lemma_records_cut_short(exts);
    let content = records_bytes(exts).drop_last();
    let n = content.len() as u16;
    let s = u16_be_bytes(n) + content + rest;
    lemma_u16_round_trip(n);
    assert(s[0] == u16_be_bytes(n)[0]);
    assert(s[1] == u16_be_bytes(n)[1]);
    assert(s.subrange(2, 2 + n) =~= content);
}

/// An input that ends one byte before the declared block does is refused
/// as truncated.
pub proof fn lemma_block_truncated(exts: Seq<ExtensionView>)
    requires
        block_fits(exts),
    ensures
        parse_block(block_bytes(exts).drop_last()) == Err::<(Seq<ExtensionView>, nat), Error>(
            Error::Truncated,
        ),
{
    let n = records_bytes(exts).len() as u16;
    let s = block_bytes(exts).drop_last();
    lemma_u16_round_trip(n);
    if s.len() >= 2 {
        assert(s[0] == u16_be_bytes(n)[0]);
        assert(s[1] == u16_be_bytes(n)[1]);
    }
}

} // verus!
