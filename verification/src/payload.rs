//! Android OTA `payload.bin` (update_engine's update_metadata.proto).
//!
//! Header: "CrAU", a big-endian u64 major version (2), a big-endian u64
//! manifest size and a big-endian u32 metadata-signature size: 24 bytes;
//! blobs follow the manifest. The manifest is a protobuf
//! DeltaArchiveManifest, of which the subset needed for full-payload
//! extraction is decoded here. Diff operations need the old image and are
//! reported, not guessed.
//!
//! A read position is kept as the protobuf reader's; once it runs past the
//! end of the data it stays one past the end, where every further read
//! fails, so a length that would overflow reads as malformed data.
use vstd::prelude::*;
use crate::text::{lossy_decode, lossy_string, dec_text, dec_chars, push_text, push_chars, string_of,
    texts, joined, join_texts};
use crate::bytes::{be_value, read_be, read_be32};

verus! {

pub const OP_SOURCE_COPY: u64 = 0;
pub const OP_SOURCE_BSDIFF: u64 = 1;
pub const OP_SOURCE_MOVE: u64 = 2;
pub const OP_BSDIFF: u64 = 3;
pub const OP_SOURCE_HASH: u64 = 4;
pub const OP_ZERO: u64 = 5;
pub const OP_REPLACE: u64 = 6;
pub const OP_REPLACE_BZ: u64 = 7;
pub const OP_REPLACE_XZ: u64 = 8;
pub const OP_PUFFDIFF: u64 = 9;
pub const OP_SOURCE_BROTLI: u64 = 10;
pub const OP_BROTLI_BSDIFF: u64 = 11;

/// Block size when the manifest names none.
pub const BLOCK: u64 = 4096;

// ---- protobuf wire format ----

/// A base-128 varint read from `pos`: seven bits per byte, least
/// significant group first, high bit set on all but the last byte; at most
/// ten bytes. Returns the value (`None` when the data ends first or the
/// tenth byte still continues) and the position after the bytes read.
pub open spec fn varint_from(d: Seq<u8>, pos: int, shift: u64, acc: u64) -> (Option<u64>, int)
    decreases d.len() - pos,
{
    if pos < 0 || pos >= d.len() {
        (None, pos)
    } else {
        let b = d[pos];
        let acc2 = acc | (((b & 0x7f) as u64) << shift);
        if b & 0x80 == 0 {
            (Some(acc2), pos + 1)
        } else if shift + 7 > 63 {
            (None, pos + 1)
        } else {
            varint_from(d, pos + 1, (shift + 7) as u64, acc2)
        }
    }
}

pub open spec fn varint_at(d: Seq<u8>, pos: int) -> (Option<u64>, int) {
    varint_from(d, pos, 0, 0)
}

/// A field key: (field number, wire type).
pub open spec fn field_at(d: Seq<u8>, pos: int) -> (Option<(u64, u64)>, int) {
    let (k, p) = varint_at(d, pos);
    match k {
        Some(k) => (Some((k >> 3, k & 7)), p),
        None => (None, p),
    }
}

/// `n` bytes on from `pos`, or one past the end if that runs out.
pub open spec fn advance(d: Seq<u8>, pos: int, n: int) -> int {
    if pos + n > d.len() { d.len() as int + 1 } else { pos + n }
}

/// Skips a value of wire type `wire`: varint, 8 bytes, length-delimited or
/// 4 bytes; other wire types are malformed. Returns whether the value lay
/// within the data.
pub open spec fn skip_at(d: Seq<u8>, pos: int, wire: u64) -> (bool, int) {
    if wire == 0 {
        let (v, p) = varint_at(d, pos);
        (v is Some && p <= d.len(), p)
    } else if wire == 1 {
        let p = advance(d, pos, 8);
        (p <= d.len(), p)
    } else if wire == 2 {
        let (v, p) = varint_at(d, pos);
        match v {
            None => (false, p),
            Some(len) => {
                let q = advance(d, p, (len as usize) as int);
                (q <= d.len(), q)
            },
        }
    } else if wire == 5 {
        let p = advance(d, pos, 4);
        (p <= d.len(), p)
    } else {
        (false, pos)
    }
}

/// The length-delimited value of a field of wire type `wire` (2): its
/// bytes when they lie within the data. Another wire type is skipped and
/// gives none.
pub open spec fn bytes_at(d: Seq<u8>, pos: int, wire: u64) -> (Option<Seq<u8>>, int) {
    if wire != 2 {
        (None, skip_at(d, pos, wire).1)
    } else {
        let (v, p) = varint_at(d, pos);
        match v {
            None => (None, p),
            Some(len) => {
                let n = (len as usize) as int;
                if p + n > d.len() { (None, p) } else { (Some(d.subrange(p, p + n)), p + n) }
            },
        }
    }
}

pub proof fn lemma_varint_from(d: Seq<u8>, pos: int, shift: u64, acc: u64)
    requires
        shift <= 63,
    ensures
        pos >= 0 ==> varint_from(d, pos, shift, acc).1 >= pos,
        varint_from(d, pos, shift, acc).0 is Some ==> pos < varint_from(d, pos, shift, acc).1 <= d.len(),
        varint_from(d, pos, shift, acc).1 <= (if pos > d.len() { pos } else { d.len() as int }),
    decreases d.len() - pos,
{
    if !(pos < 0 || pos >= d.len()) {
        let b = d[pos];
        let acc2 = acc | (((b & 0x7f) as u64) << shift);
        if b & 0x80 != 0 && shift + 7 <= 63 {
            lemma_varint_from(d, pos + 1, (shift + 7) as u64, acc2);
        }
    }
}

/// Reads move forward, stay within one past the end, and a read that
/// yields a value consumed at least one byte.
pub proof fn lemma_reads_advance(d: Seq<u8>, pos: int, wire: u64)
    requires
        0 <= pos <= d.len() + 1,
    ensures
        pos <= varint_at(d, pos).1 <= d.len() + 1,
        varint_at(d, pos).0 is Some ==> pos < varint_at(d, pos).1 <= d.len(),
        pos <= field_at(d, pos).1 <= d.len() + 1,
        field_at(d, pos).0 is Some ==> pos < field_at(d, pos).1 <= d.len(),
        pos <= skip_at(d, pos, wire).1 <= d.len() + 1,
        pos <= bytes_at(d, pos, wire).1 <= d.len() + 1,
{
    lemma_varint_from(d, pos, 0, 0);
    let p = varint_at(d, pos).1;
    lemma_varint_from(d, p, 0, 0);
}

/// A protobuf reader over a byte slice.
pub struct Proto<'a> {
    pub data: &'a [u8],
    pub pos: usize,
}

impl<'a> Proto<'a> {
    /// The reader's position stays within one past the end.
    pub open spec fn wf(&self) -> bool {
        &&& self.pos <= self.data@.len() + 1
        &&& self.data@.len() <= isize::MAX
    }

    pub fn new(data: &'a [u8]) -> (p: Self)
        requires
            data@.len() <= isize::MAX,
        ensures
            p.data == data,
            p.pos == 0,
            p.wf(),
    {
        Proto { data, pos: 0 }
    }

    /// Reads a varint.
    pub fn varint(&mut self) -> (r: Option<u64>)
        requires
            old(self).wf(),
        ensures
            final(self).wf(),
            final(self).data == old(self).data,
            (r, final(self).pos as int) == varint_at(old(self).data@, old(self).pos as int),
    {
        proof { lemma_reads_advance(self.data@, self.pos as int, 0); }
        let ghost d = self.data@;
        let ghost data0 = self.data;
        let ghost start = self.pos as int;
        if self.pos >= self.data.len() {
            return None;
        }
        let mut value: u64 = 0;
        let mut shift: u64 = 0;
        loop
            invariant
                self.data == data0,
                data0 == old(self).data,
                start == old(self).pos as int,
                d == old(self).data@,
                self.data@ == d,
                self.data@.len() <= isize::MAX,
                start <= self.pos <= d.len(),
                shift <= 63,
                varint_at(d, start) == varint_from(d, self.pos as int, shift, value),
                0 <= start,
            decreases d.len() - self.pos,
        {
            if self.pos >= self.data.len() {
                return None;
            }
            let b = self.data[self.pos];
            self.pos = self.pos + 1;
            value = value | (((b & 0x7f) as u64) << shift);
            if b & 0x80 == 0 {
                return Some(value);
            }
            if shift + 7 > 63 {
                return None;
            }
            shift = shift + 7;
        }
    }

    /// Next (field number, wire type); `None` at the end or on malformed
    /// data.
    pub fn field(&mut self) -> (r: Option<(u64, u64)>)
        requires
            old(self).wf(),
        ensures
            final(self).wf(),
            final(self).data == old(self).data,
            (r, final(self).pos as int) == field_at(old(self).data@, old(self).pos as int),
    {
        let key = self.varint()?;
        Some((key >> 3, key & 7))
    }

    fn forward(&mut self, n: usize)
        requires
            old(self).wf(),
            old(self).pos <= old(self).data@.len(),
        ensures
            final(self).wf(),
            final(self).data == old(self).data,
            final(self).pos as int == advance(old(self).data@, old(self).pos as int, n as int),
    {
        if n > self.data.len() - self.pos {
            self.pos = self.data.len() + 1;
        } else {
            self.pos = self.pos + n;
        }
    }

    /// Skips a value of the given wire type.
    pub fn skip(&mut self, wire: u64) -> (r: Option<()>)
        requires
            old(self).wf(),
        ensures
            final(self).wf(),
            final(self).data == old(self).data,
            (r is Some, final(self).pos as int) == skip_at(old(self).data@, old(self).pos as int, wire),
    {
        let ghost d = self.data@;
        let ghost start = self.pos as int;
        if wire == 0 {
            let v = self.varint();
            if v.is_none() {
                return None;
            }
            proof { lemma_reads_advance(d, start, 0); }
        } else if wire == 1 {
            if self.pos > self.data.len() {
                return None;
            }
            self.forward(8);
        } else if wire == 2 {
            let len = match self.varint() {
                Some(len) => len,
                None => return None,
            };
            proof { lemma_reads_advance(d, start, 2); }
            self.forward(len as usize);
        } else if wire == 5 {
            if self.pos > self.data.len() {
                return None;
            }
            self.forward(4);
        } else {
            return None;
        }
        if self.pos > self.data.len() {
            return None;
        }
        Some(())
    }

    /// The length-delimited payload of the current field, the position
    /// left past it.
    pub fn bytes(&mut self, wire: u64) -> (r: Option<&'a [u8]>)
        requires
            old(self).wf(),
        ensures
            final(self).wf(),
            final(self).data == old(self).data,
            (match r {
                Some(b) => Some(b@),
                None => None,
            }, final(self).pos as int) == bytes_at(old(self).data@, old(self).pos as int, wire),
    {
        if wire != 2 {
            let _ = self.skip(wire);
            return None;
        }
        let ghost d = self.data@;
        let ghost start = self.pos as int;
        let len = self.varint()?;
        proof { lemma_reads_advance(d, start, 2); }
        let n = len as usize;
        if n > self.data.len() - self.pos {
            return None;
        }
        let out = slice_range(self.data, self.pos, self.pos + n);
        self.pos = self.pos + n;
        Some(out)
    }
}

// ---- manifest messages ----

/// A run of destination blocks.
#[derive(Debug, Clone, Copy, PartialEq, Eq, Structural)]
pub struct Extent {
    pub start: u64,
    pub num: u64,
}

/// Extents of an Extent list message read from `pos`, `start` being the
/// start block seen since the last completed extent: field 1 sets the
/// start, field 2 the count and completes one (a value that does not read
/// counts as 0); others are skipped.
pub open spec fn extents_from(d: Seq<u8>, pos: int, start: u64, acc: Seq<Extent>) -> Seq<Extent>
    decreases d.len() + 2 - pos,
{
    if pos < 0 || pos > d.len() + 1 {
        acc
    } else {
        let (k, p1) = field_at(d, pos);
        proof { lemma_reads_advance(d, pos, 0); }
        match k {
            None => acc,
            Some((f, w)) => {
                proof { lemma_reads_advance(d, p1, w); }
                if f == 1 && w == 0 {
                    let (v, p2) = varint_at(d, p1);
                    extents_from(d, p2, v.unwrap_or(0), acc)
                } else if f == 2 && w == 0 {
                    let (v, p2) = varint_at(d, p1);
                    extents_from(d, p2, 0, acc.push(Extent { start, num: v.unwrap_or(0) }))
                } else {
                    extents_from(d, skip_at(d, p1, w).1, start, acc)
                }
            },
        }
    }
}

pub open spec fn extents_of(d: Seq<u8>) -> Seq<Extent> {
    extents_from(d, 0, 0, seq![])
}

/// Appends the extents of an extent list message.
pub fn parse_extents(data: &[u8], out: &mut Vec<Extent>)
    requires
        data@.len() <= isize::MAX,
    ensures
        final(out)@ == old(out)@ + extents_of(data@),
{
    let ghost d = data@;
    let ghost base = out@;
    let mut p = Proto::new(data);
    let mut start: u64 = 0;
    let ghost mut found: Seq<Extent> = seq![];
    proof {
        assert(extents_from(d, 0, 0, seq![]) == extents_from(d, 0, 0, found));
    }
    loop
        invariant_except_break
            extents_of(d) == extents_from(d, p.pos as int, start, found),
        invariant
            p.wf(),
            p.data@ == d,
            out@ == base + found,
        ensures
            extents_of(d) == found,
        decreases d.len() + 2 - p.pos,
    {
        let ghost pos0 = p.pos as int;
        proof { lemma_reads_advance(d, pos0, 0); }
        let (f, w) = match p.field() {
            Some(k) => k,
            None => break,
        };
        proof { lemma_reads_advance(d, p.pos as int, w); }
        if f == 1 && w == 0 {
            start = p.varint().unwrap_or(0);
        } else if f == 2 && w == 0 {
            let num = p.varint().unwrap_or(0);
            out.push(Extent { start, num });
            proof { found = found.push(Extent { start, num }); }
            assert(out@ =~= base + found);
            start = 0;
        } else {
            let _ = p.skip(w);
        }
    }
}

/// An install operation: its type, where its blob lies after the
/// manifest, and the extents it writes.
#[derive(Debug, Clone)]
pub struct Operation {
    pub op_type: u64,
    pub data_offset: u64,
    pub data_length: u64,
    pub dst: Vec<Extent>,
}

pub struct OperationModel {
    pub op_type: u64,
    pub data_offset: u64,
    pub data_length: u64,
    pub dst: Seq<Extent>,
}

impl View for Operation {
    type V = OperationModel;

    open spec fn view(&self) -> OperationModel {
        OperationModel {
            op_type: self.op_type,
            data_offset: self.data_offset,
            data_length: self.data_length,
            dst: self.dst@,
        }
    }
}

/// An InstallOperation message read from `pos`: fields 1, 2, 3 set type,
/// data offset and data length (0 when the value does not read); each
/// field 6 appends its extents.
pub open spec fn operation_from(d: Seq<u8>, pos: int, op: OperationModel) -> OperationModel
    decreases d.len() + 2 - pos,
{
    if pos < 0 || pos > d.len() + 1 {
        op
    } else {
        let (k, p1) = field_at(d, pos);
        proof { lemma_reads_advance(d, pos, 0); }
        match k {
            None => op,
            Some((f, w)) => {
                proof { lemma_reads_advance(d, p1, w); }
                if f == 1 && w == 0 {
                    let (v, p2) = varint_at(d, p1);
                    operation_from(d, p2, OperationModel { op_type: v.unwrap_or(0), ..op })
                } else if f == 2 && w == 0 {
                    let (v, p2) = varint_at(d, p1);
                    operation_from(d, p2, OperationModel { data_offset: v.unwrap_or(0), ..op })
                } else if f == 3 && w == 0 {
                    let (v, p2) = varint_at(d, p1);
                    operation_from(d, p2, OperationModel { data_length: v.unwrap_or(0), ..op })
                } else if f == 6 && w == 2 {
                    let (b, p2) = bytes_at(d, p1, w);
                    match b {
                        Some(b) => operation_from(d, p2, OperationModel { dst: op.dst + extents_of(b), ..op }),
                        None => operation_from(d, p2, op),
                    }
                } else {
                    operation_from(d, skip_at(d, p1, w).1, op)
                }
            },
        }
    }
}

pub open spec fn operation_of(d: Seq<u8>) -> OperationModel {
    operation_from(d, 0, OperationModel { op_type: 0, data_offset: 0, data_length: 0, dst: seq![] })
}

/// A dst_extents field (number 6, length-delimited) holding `b`, for a
/// payload shorter than 128 bytes (a one-byte length).
pub open spec fn dst_field(b: Seq<u8>) -> Seq<u8> {
    seq![0x32u8, b.len() as u8] + b
}

/// One dst_extents field for each payload, in order.
pub open spec fn dst_fields(bs: Seq<Seq<u8>>) -> Seq<u8>
    decreases bs.len(),
{
    if bs.len() == 0 { seq![] } else { dst_field(bs[0]) + dst_fields(bs.drop_first()) }
}

/// The extents of each payload, one list after another.
pub open spec fn all_extents(bs: Seq<Seq<u8>>) -> Seq<Extent>
    decreases bs.len(),
{
    if bs.len() == 0 { seq![] } else { extents_of(bs[0]) + all_extents(bs.drop_first()) }
}

pub open spec fn short_payloads(bs: Seq<Seq<u8>>) -> bool {
    forall|i: int| 0 <= i < bs.len() ==> (#[trigger] bs[i]).len() < 128
}

/// A one-byte varint reads as its byte.
proof fn lemma_small_varint(d: Seq<u8>, pos: int)
    requires
        0 <= pos < d.len(),
        d[pos] < 128,
    ensures
        varint_at(d, pos) == (Some(d[pos] as u64), pos + 1),
{
    let b = d[pos];
    assert(b & 0x80 == 0 && (0u64 | (((b & 0x7f) as u64) << 0u64)) == b as u64) by (bit_vector)
        requires b < 128;
}

proof fn lemma_walk_dst_fields(d: Seq<u8>, pos: int, bs: Seq<Seq<u8>>, op: OperationModel)
    requires
        0 <= pos <= d.len(),
        d.skip(pos) == dst_fields(bs),
        short_payloads(bs),
    ensures
        operation_from(d, pos, op) == (OperationModel { dst: op.dst + all_extents(bs), ..op }),
    decreases bs.len(),
{
    if bs.len() == 0 {
        assert(d.skip(pos).len() == 0);
        assert(op.dst + Seq::<Extent>::empty() =~= op.dst);
    } else {
        let b = bs[0];
        let n = b.len() as int;
        let rest = bs.drop_first();
        assert(d.skip(pos) =~= seq![0x32u8, b.len() as u8] + b + dst_fields(rest));
        assert(d[pos] == d.skip(pos)[0]);
        assert(d[pos + 1] == d.skip(pos)[1]);
        assert(d[pos] == 0x32u8);
        assert(d[pos + 1] == n as u8);
        lemma_small_varint(d, pos);
        lemma_small_varint(d, pos + 1);
        assert((0x32u64 >> 3u64) == 6u64 && (0x32u64 & 7u64) == 2u64) by (bit_vector);
        assert(field_at(d, pos) == (Some((6u64, 2u64)), pos + 1));
        assert(d.subrange(pos + 2, pos + 2 + n) =~= b) by {
            assert forall|k: int| 0 <= k < n implies d.subrange(pos + 2, pos + 2 + n)[k] == b[k] by {
                assert(d[pos + 2 + k] == d.skip(pos)[2 + k]);
            }
        }
        assert(bytes_at(d, pos + 1, 2) == (Some(b), pos + 2 + n));
        let op2 = OperationModel { dst: op.dst + extents_of(b), ..op };
        let tail = dst_fields(rest);
        assert(d.skip(pos).len() == 2 + n + tail.len());
        assert forall|k: int| 0 <= k < tail.len() implies d.skip(pos + 2 + n)[k] == tail[k] by {
            assert(d.skip(pos + 2 + n)[k] == d[pos + 2 + n + k]);
            assert(d[pos + 2 + n + k] == d.skip(pos)[2 + n + k]);
            assert((seq![0x32u8, b.len() as u8] + b + tail)[2 + n + k] == tail[k]);
        }
        assert(d.skip(pos + 2 + n) =~= dst_fields(rest));
        assert forall|i: int| 0 <= i < rest.len() implies (#[trigger] rest[i]).len() < 128 by {
            assert(rest[i] == bs[i + 1]);
        }
        lemma_walk_dst_fields(d, pos + 2 + n, rest, op2);
        assert(operation_from(d, pos, op) == operation_from(d, pos + 2 + n, op2));
        assert(op.dst + extents_of(b) + all_extents(rest) =~= op.dst + all_extents(bs));
    }
}

/// Every dst_extents field of an InstallOperation adds its extents, in
/// order: a message holding a type and dst_extents fields with payloads
/// `b1 .. bk` reads as that type with the extents of `b1`, then those of
/// `b2`, and so on to `bk`; none is dropped or replaced by a later one.
pub proof fn lemma_operation_collects_every_dst_field(t: u8, bs: Seq<Seq<u8>>)
    requires
        t < 128,
        short_payloads(bs),
    ensures
        operation_of(seq![0x08u8, t] + dst_fields(bs))
            == (OperationModel { op_type: t as u64, data_offset: 0, data_length: 0, dst: all_extents(bs) }),
        operation_of(dst_fields(bs)).dst == all_extents(bs),
{
    let init = OperationModel { op_type: 0, data_offset: 0, data_length: 0, dst: seq![] };
    let d = seq![0x08u8, t] + dst_fields(bs);
    assert(d[0] == 0x08u8 && d[1] == t);
    lemma_small_varint(d, 0);
    lemma_small_varint(d, 1);
    assert((0x08u64 >> 3u64) == 1u64 && (0x08u64 & 7u64) == 0u64) by (bit_vector);
    assert(field_at(d, 0) == (Some((1u64, 0u64)), 1int));
    assert(d.skip(2) =~= dst_fields(bs));
    let op1 = OperationModel { op_type: t as u64, ..init };
    lemma_walk_dst_fields(d, 2, bs, op1);
    assert(operation_of(d) == operation_from(d, 2, op1));
    assert(Seq::<Extent>::empty() + all_extents(bs) =~= all_extents(bs));
    let e = dst_fields(bs);
    assert(e.skip(0) =~= e);
    lemma_walk_dst_fields(e, 0, bs, init);
}

/// Reads an InstallOperation message.
pub fn parse_operation(data: &[u8]) -> (op: Operation)
    requires
        data@.len() <= isize::MAX,
    ensures
        op@ == operation_of(data@),
{
    let ghost d = data@;
    let mut op = Operation { op_type: 0, data_offset: 0, data_length: 0, dst: Vec::new() };
    let mut p = Proto::new(data);
    assert(op@ == (OperationModel { op_type: 0, data_offset: 0, data_length: 0, dst: seq![] }));
    loop
        invariant_except_break
            operation_of(d) == operation_from(d, p.pos as int, op@),
        invariant
            p.wf(),
            p.data@ == d,
        ensures
            operation_of(d) == op@,
        decreases d.len() + 2 - p.pos,
    {
        proof { lemma_reads_advance(d, p.pos as int, 0); }
        let (f, w) = match p.field() {
            Some(k) => k,
            None => break,
        };
        proof { lemma_reads_advance(d, p.pos as int, w); }
        if f == 1 && w == 0 {
            op.op_type = p.varint().unwrap_or(0);
        } else if f == 2 && w == 0 {
            op.data_offset = p.varint().unwrap_or(0);
        } else if f == 3 && w == 0 {
            op.data_length = p.varint().unwrap_or(0);
        } else if f == 6 && w == 2 {
            match p.bytes(w) {
                Some(b) => parse_extents(b, &mut op.dst),
                None => {},
            }
        } else {
            let _ = p.skip(w);
        }
    }
    op
}

/// An ImageInfo message read from `pos`: field 1 is the size (`None` when
/// its value does not read).
pub open spec fn image_size_from(d: Seq<u8>, pos: int, size: Option<u64>) -> Option<u64>
    decreases d.len() + 2 - pos,
{
    if pos < 0 || pos > d.len() + 1 {
        size
    } else {
        let (k, p1) = field_at(d, pos);
        proof { lemma_reads_advance(d, pos, 0); }
        match k {
            None => size,
            Some((f, w)) => {
                proof { lemma_reads_advance(d, p1, w); }
                if f == 1 && w == 0 {
                    let (v, p2) = varint_at(d, p1);
                    image_size_from(d, p2, v)
                } else {
                    image_size_from(d, skip_at(d, p1, w).1, size)
                }
            },
        }
    }
}

fn parse_image_size(data: &[u8], size: Option<u64>) -> (r: Option<u64>)
    requires
        data@.len() <= isize::MAX,
    ensures
        r == image_size_from(data@, 0, size),
{
    let ghost d = data@;
    let mut size = size;
    let ghost size0 = size;
    let mut p = Proto::new(data);
    loop
        invariant_except_break
            image_size_from(d, 0, size0) == image_size_from(d, p.pos as int, size),
        invariant
            p.wf(),
            p.data@ == d,
        ensures
            image_size_from(d, 0, size0) == size,
        decreases d.len() + 2 - p.pos,
    {
        proof { lemma_reads_advance(d, p.pos as int, 0); }
        let (f, w) = match p.field() {
            Some(k) => k,
            None => break,
        };
        proof { lemma_reads_advance(d, p.pos as int, w); }
        if f == 1 && w == 0 {
            size = p.varint();
        } else {
            let _ = p.skip(w);
        }
    }
    size
}

/// A partition to install: its name, its size when the manifest gives
/// one, and its operations.
#[derive(Debug, Clone)]
pub struct Partition {
    pub name: String,
    pub size: Option<u64>,
    pub ops: Vec<Operation>,
}

pub struct PartitionModel {
    pub name: Seq<char>,
    pub size: Option<u64>,
    pub ops: Seq<OperationModel>,
}

pub open spec fn ops_view(v: Seq<Operation>) -> Seq<OperationModel> {
    v.map_values(|o: Operation| o@)
}

impl View for Partition {
    type V = PartitionModel;

    open spec fn view(&self) -> PartitionModel {
        PartitionModel { name: self.name@, size: self.size, ops: ops_view(self.ops@) }
    }
}

/// A PartitionUpdate message read from `pos`: field 1 the name (decoded
/// as `String::from_utf8_lossy` does), field 6 the new partition's
/// ImageInfo, each field 8 one more operation.
pub open spec fn partition_from(d: Seq<u8>, pos: int, part: PartitionModel) -> PartitionModel
    decreases d.len() + 2 - pos,
{
    if pos < 0 || pos > d.len() + 1 {
        part
    } else {
        let (k, p1) = field_at(d, pos);
        proof { lemma_reads_advance(d, pos, 0); }
        match k {
            None => part,
            Some((f, w)) => {
                proof { lemma_reads_advance(d, p1, w); }
                if f == 1 && w == 2 {
                    let (b, p2) = bytes_at(d, p1, w);
                    match b {
                        Some(b) => partition_from(d, p2, PartitionModel { name: lossy_decode(b), ..part }),
                        None => partition_from(d, p2, part),
                    }
                } else if f == 6 && w == 2 {
                    let (b, p2) = bytes_at(d, p1, w);
                    match b {
                        Some(b) => partition_from(d, p2, PartitionModel { size: image_size_from(b, 0, part.size), ..part }),
                        None => partition_from(d, p2, part),
                    }
                } else if f == 8 && w == 2 {
                    let (b, p2) = bytes_at(d, p1, w);
                    match b {
                        Some(b) => partition_from(d, p2, PartitionModel { ops: part.ops.push(operation_of(b)), ..part }),
                        None => partition_from(d, p2, part),
                    }
                } else {
                    partition_from(d, skip_at(d, p1, w).1, part)
                }
            },
        }
    }
}

pub open spec fn partition_of(d: Seq<u8>) -> PartitionModel {
    partition_from(d, 0, PartitionModel { name: seq![], size: None, ops: seq![] })
}

/// Reads a PartitionUpdate message.
pub fn parse_partition(data: &[u8]) -> (part: Partition)
    requires
        data@.len() <= isize::MAX,
    ensures
        part@ == partition_of(data@),
{
    let ghost d = data@;
    let mut part = Partition { name: String::new(), size: None, ops: Vec::new() };
    let mut p = Proto::new(data);
    assert(ops_view(part.ops@) =~= Seq::<OperationModel>::empty());
    assert(part.name@ =~= Seq::<char>::empty());
    assert(part@ == (PartitionModel { name: seq![], size: None, ops: seq![] }));
    loop
        invariant_except_break
            partition_of(d) == partition_from(d, p.pos as int, part@),
        invariant
            p.wf(),
            p.data@ == d,
        ensures
            partition_of(d) == part@,
        decreases d.len() + 2 - p.pos,
    {
        proof { lemma_reads_advance(d, p.pos as int, 0); }
        let (f, w) = match p.field() {
            Some(k) => k,
            None => break,
        };
        proof { lemma_reads_advance(d, p.pos as int, w); }
        if f == 1 && w == 2 {
            match p.bytes(w) {
                Some(b) => { part.name = lossy_string(b); },
                None => {},
            }
        } else if f == 6 && w == 2 {
            match p.bytes(w) {
                Some(b) => { part.size = parse_image_size(b, part.size); },
                None => {},
            }
        } else if f == 8 && w == 2 {
            match p.bytes(w) {
                Some(b) => {
                    let op = parse_operation(b);
                    let ghost before = ops_view(part.ops@);
                    part.ops.push(op);
                    assert(ops_view(part.ops@) =~= before.push(op@));
                },
                None => {},
            }
        } else {
            let _ = p.skip(w);
        }
    }
    part
}

/// A DeltaArchiveManifest read from `pos`: each field 3 one more
/// partition; field 7 the block size, taken when at least 512.
pub open spec fn manifest_from(d: Seq<u8>, pos: int, block_size: u64, parts: Seq<PartitionModel>) -> (u64, Seq<PartitionModel>)
    decreases d.len() + 2 - pos,
{
    if pos < 0 || pos > d.len() + 1 {
        (block_size, parts)
    } else {
        let (k, p1) = field_at(d, pos);
        proof { lemma_reads_advance(d, pos, 0); }
        match k {
            None => (block_size, parts),
            Some((f, w)) => {
                proof { lemma_reads_advance(d, p1, w); }
                if f == 3 && w == 2 {
                    let (b, p2) = bytes_at(d, p1, w);
                    match b {
                        Some(b) => manifest_from(d, p2, block_size, parts.push(partition_of(b))),
                        None => manifest_from(d, p2, block_size, parts),
                    }
                } else if f == 7 && w == 0 {
                    let (v, p2) = varint_at(d, p1);
                    match v {
                        Some(bs) => manifest_from(d, p2, if bs >= 512 { bs } else { block_size }, parts),
                        None => manifest_from(d, p2, block_size, parts),
                    }
                } else {
                    manifest_from(d, skip_at(d, p1, w).1, block_size, parts)
                }
            },
        }
    }
}

pub open spec fn manifest_of(d: Seq<u8>) -> (u64, Seq<PartitionModel>) {
    manifest_from(d, 0, BLOCK, seq![])
}

pub open spec fn parts_view(v: Seq<Partition>) -> Seq<PartitionModel> {
    v.map_values(|p: Partition| p@)
}

/// Reads a DeltaArchiveManifest: the block size and the partitions.
pub fn parse_manifest(data: &[u8]) -> (r: (u64, Vec<Partition>))
    requires
        data@.len() <= isize::MAX,
    ensures
        (r.0, parts_view(r.1@)) == manifest_of(data@),
{
    let ghost d = data@;
    let mut block_size: u64 = BLOCK;
    let mut parts: Vec<Partition> = Vec::new();
    let mut p = Proto::new(data);
    assert(parts_view(parts@) =~= Seq::<PartitionModel>::empty());
    loop
        invariant_except_break
            manifest_of(d) == manifest_from(d, p.pos as int, block_size, parts_view(parts@)),
        invariant
            p.wf(),
            p.data@ == d,
        ensures
            manifest_of(d) == (block_size, parts_view(parts@)),
        decreases d.len() + 2 - p.pos,
    {
        proof { lemma_reads_advance(d, p.pos as int, 0); }
        let (f, w) = match p.field() {
            Some(k) => k,
            None => break,
        };
        proof { lemma_reads_advance(d, p.pos as int, w); }
        if f == 3 && w == 2 {
            match p.bytes(w) {
                Some(b) => {
                    let part = parse_partition(b);
                    let ghost before = parts_view(parts@);
                    parts.push(part);
                    assert(parts_view(parts@) =~= before.push(part@));
                },
                None => {},
            }
        } else if f == 7 && w == 0 {
            match p.varint() {
                Some(bs) => {
                    if bs >= 512 {
                        block_size = bs;
                    }
                },
                None => {},
            }
        } else {
            let _ = p.skip(w);
        }
    }
    (block_size, parts)
}

// ---- the payload file ----

/// Why a payload was refused.
#[derive(Debug, Clone, PartialEq, Eq)]
pub enum PayloadError {
    /// Too short, or no "CrAU" magic.
    NotPayload,
    UnsupportedVersion(u64),
    ManifestPastEnd,
    NoPartitions,
    /// The image size of the named partition does not fit in 64 bits.
    SizeOverflow(String),
    /// Partitions that need the old image: "name (k diff op(s))", joined
    /// by ", ".
    DeltaOnly(String),
    NothingExtracted,
}

pub enum PayloadErrorModel {
    NotPayload,
    UnsupportedVersion(u64),
    ManifestPastEnd,
    NoPartitions,
    SizeOverflow(Seq<char>),
    DeltaOnly(Seq<char>),
    NothingExtracted,
}

impl View for PayloadError {
    type V = PayloadErrorModel;

    open spec fn view(&self) -> PayloadErrorModel {
        match self {
            PayloadError::NotPayload => PayloadErrorModel::NotPayload,
            PayloadError::UnsupportedVersion(v) => PayloadErrorModel::UnsupportedVersion(*v),
            PayloadError::ManifestPastEnd => PayloadErrorModel::ManifestPastEnd,
            PayloadError::NoPartitions => PayloadErrorModel::NoPartitions,
            PayloadError::SizeOverflow(n) => PayloadErrorModel::SizeOverflow(n@),
            PayloadError::DeltaOnly(m) => PayloadErrorModel::DeltaOnly(m@),
            PayloadError::NothingExtracted => PayloadErrorModel::NothingExtracted,
        }
    }
}

pub open spec fn payload_magic() -> Seq<u8> {
    seq![0x43u8, 0x72u8, 0x41u8, 0x55u8]
}

/// The header of a payload: manifest size and where the blobs start, both
/// read as `usize` as the platform holds them.
pub open spec fn layout_of(d: Seq<u8>) -> Result<(nat, nat), PayloadErrorModel> {
    if d.len() < 24 || d.take(4) != payload_magic() {
        Err(PayloadErrorModel::NotPayload)
    } else if be_value(d.subrange(4, 12)) != 2 {
        Err(PayloadErrorModel::UnsupportedVersion(be_value(d.subrange(4, 12)) as u64))
    } else {
        let ms = ((be_value(d.subrange(12, 20)) as u64) as usize) as nat;
        let ss = ((be_value(d.subrange(20, 24)) as u32) as usize) as nat;
        if 24 + ms + ss > d.len() {
            Err(PayloadErrorModel::ManifestPastEnd)
        } else {
            Ok((ms, 24 + ms + ss))
        }
    }
}

/// A payload's manifest: block size, partitions, and the offset of the
/// blob area in the file.
pub struct PayloadManifest {
    pub block_size: u64,
    pub partitions: Vec<Partition>,
    pub blob_start: u64,
}

/// What a payload file holds, or why it was refused.
pub open spec fn payload_of(d: Seq<u8>) -> Result<(u64, Seq<PartitionModel>, nat), PayloadErrorModel> {
    match layout_of(d) {
        Err(e) => Err(e),
        Ok((ms, blobs)) => {
            let (bs, parts) = manifest_of(d.subrange(24, 24 + ms as int));
            if parts.len() == 0 { Err(PayloadErrorModel::NoPartitions) } else { Ok((bs, parts, blobs)) }
        },
    }
}

/// Reads the header and manifest of a payload file.
pub fn read_payload(data: &[u8]) -> (r: Result<PayloadManifest, PayloadError>)
    requires
        data@.len() <= isize::MAX,
    ensures
        match (r, payload_of(data@)) {
            (Ok(m), Ok((bs, parts, blobs))) => m.block_size == bs && parts_view(m.partitions@) == parts
                && m.blob_start == blobs,
            (Err(e), Err(em)) => e@ == em,
            _ => false,
        },
{
    if data.len() < 24 || !(data[0] == 0x43 && data[1] == 0x72 && data[2] == 0x41 && data[3] == 0x55) {
        proof {
            if data@.len() >= 24 {
                if data@.take(4) == payload_magic() {
                    assert(data@.take(4)[0] == data@[0] && data@.take(4)[1] == data@[1]);
                    assert(data@.take(4)[2] == data@[2] && data@.take(4)[3] == data@[3]);
                }
            }
        }
        return Err(PayloadError::NotPayload);
    }
    assert(data@.take(4) =~= payload_magic());
    let major = read_be(data, 4, 8);
    if major != 2 {
        return Err(PayloadError::UnsupportedVersion(major));
    }
    let ms = read_be(data, 12, 8) as usize;
    let ss = read_be32(data, 20) as usize;
    if ms > data.len() - 24 || ss > data.len() - 24 - ms {
        return Err(PayloadError::ManifestPastEnd);
    }
    let manifest = slice_range(data, 24, 24 + ms);
    let (block_size, partitions) = parse_manifest(manifest);
    if partitions.len() == 0 {
        return Err(PayloadError::NoPartitions);
    }
    Ok(PayloadManifest { block_size, partitions, blob_start: (24 + ms + ss) as u64 })
}

// ---- extraction plan ----

/// The name of a diff operation type, which needs the old image.
pub open spec fn diff_name(t: u64) -> Option<Seq<char>> {
    if t == OP_SOURCE_COPY { Some("SOURCE_COPY"@) }
    else if t == OP_SOURCE_BSDIFF { Some("SOURCE_BSDIFF"@) }
    else if t == OP_SOURCE_MOVE { Some("SOURCE_MOVE"@) }
    else if t == OP_BSDIFF { Some("BSDIFF"@) }
    else if t == OP_SOURCE_HASH { Some("SOURCE_HASH"@) }
    else if t == OP_PUFFDIFF { Some("PUFFDIFF"@) }
    else if t == OP_SOURCE_BROTLI { Some("SOURCE_BROTLI"@) }
    else if t == OP_BROTLI_BSDIFF { Some("BROTLI_BSDIFF"@) }
    else { None }
}

/// Names a diff operation type.
pub fn diff_op_name(t: u64) -> (r: Option<&'static str>)
    ensures
        match (r, diff_name(t)) {
            (Some(a), Some(b)) => a@ == b,
            (None, None) => true,
            _ => false,
        },
{
    if t == OP_SOURCE_COPY { Some("SOURCE_COPY") }
    else if t == OP_SOURCE_BSDIFF { Some("SOURCE_BSDIFF") }
    else if t == OP_SOURCE_MOVE { Some("SOURCE_MOVE") }
    else if t == OP_BSDIFF { Some("BSDIFF") }
    else if t == OP_SOURCE_HASH { Some("SOURCE_HASH") }
    else if t == OP_PUFFDIFF { Some("PUFFDIFF") }
    else if t == OP_SOURCE_BROTLI { Some("SOURCE_BROTLI") }
    else if t == OP_BROTLI_BSDIFF { Some("BROTLI_BSDIFF") }
    else { None }
}

/// Blocks an operation writes.
pub open spec fn blocks_of(dst: Seq<Extent>) -> nat
    decreases dst.len(),
{
    if dst.len() == 0 { 0 } else { blocks_of(dst.drop_last()) + dst.last().num as nat }
}

/// The most blocks any of the operations writes.
pub open spec fn max_blocks(ops: Seq<OperationModel>) -> nat
    decreases ops.len(),
{
    if ops.len() == 0 {
        0
    } else {
        let m = max_blocks(ops.drop_last());
        let b = blocks_of(ops.last().dst);
        if b > m { b } else { m }
    }
}

/// Size of a partition's image: the size the manifest gives, else the
/// largest operation's block count times the block size; `None` when that
/// does not fit in 64 bits.
pub open spec fn image_size_of(part: PartitionModel, block_size: u64) -> Option<u64> {
    match part.size {
        Some(s) => Some(s),
        None => if max_blocks(part.ops) * block_size <= u64::MAX {
            Some((max_blocks(part.ops) * block_size) as u64)
        } else {
            None
        },
    }
}

/// Sums the block counts of an operation's extents, if the sum fits.
pub fn dst_blocks(op: &Operation) -> (r: Option<u64>)
    ensures
        r matches Some(n) ==> n == blocks_of(op.dst@),
        r is None ==> blocks_of(op.dst@) > u64::MAX,
{
    let mut n: u64 = 0;
    let mut i: usize = 0;
    while i < op.dst.len()
        invariant
            i <= op.dst@.len(),
            n == blocks_of(op.dst@.take(i as int)),
        decreases op.dst@.len() - i,
    {
        assert(op.dst@.take(i + 1).drop_last() =~= op.dst@.take(i as int));
        let k = op.dst[i].num;
        if k > u64::MAX - n {
            proof { lemma_blocks_grow(op.dst@, i + 1); }
            return None;
        }
        n = n + k;
        i = i + 1;
    }
    assert(op.dst@.take(op.dst@.len() as int) =~= op.dst@);
    Some(n)
}

proof fn lemma_blocks_grow(dst: Seq<Extent>, k: int)
    requires
        0 <= k <= dst.len(),
    ensures
        blocks_of(dst.take(k)) <= blocks_of(dst),
    decreases dst.len() - k,
{
    if k < dst.len() {
        assert(dst.take(k + 1).drop_last() =~= dst.take(k));
        lemma_blocks_grow(dst, k + 1);
    } else {
        assert(dst.take(k) =~= dst);
    }
}

proof fn lemma_max_blocks_ge(ops: Seq<OperationModel>, k: int)
    requires
        0 <= k < ops.len(),
    ensures
        blocks_of(ops[k].dst) <= max_blocks(ops),
    decreases ops.len(),
{
    if k < ops.len() - 1 {
        assert(ops.drop_last()[k] == ops[k]);
        lemma_max_blocks_ge(ops.drop_last(), k);
    }
}

/// How a blob is stored.
#[derive(Debug, Clone, Copy, PartialEq, Eq, Structural)]
pub enum BlobCodec {
    Plain,
    Bzip2,
    Xz,
}

/// One operation to carry out on the partition image.
#[derive(Debug, Clone)]
pub enum ExtractStep {
    /// Zero these extents.
    Zero(Vec<Extent>),
    /// Decode the blob at `offset` in the payload file, `length` bytes
    /// long, into these extents in order.
    Blob { codec: BlobCodec, offset: u128, length: u64, dst: Vec<Extent> },
}

pub enum StepModel {
    Zero(Seq<Extent>),
    Blob { codec: BlobCodec, offset: int, length: u64, dst: Seq<Extent> },
}

impl View for ExtractStep {
    type V = StepModel;

    open spec fn view(&self) -> StepModel {
        match self {
            ExtractStep::Zero(d) => StepModel::Zero(d@),
            ExtractStep::Blob { codec, offset, length, dst } => StepModel::Blob {
                codec: *codec,
                offset: *offset as int,
                length: *length,
                dst: dst@,
            },
        }
    }
}

/// What a full payload does for an operation: zero it, or decode a
/// replacement blob; a diff operation has no step.
pub open spec fn step_of(op: OperationModel, blob_start: nat) -> Option<StepModel> {
    if op.op_type == OP_ZERO {
        Some(StepModel::Zero(op.dst))
    } else if op.op_type == OP_REPLACE || op.op_type == OP_REPLACE_BZ || op.op_type == OP_REPLACE_XZ {
        Some(StepModel::Blob {
            codec: if op.op_type == OP_REPLACE { BlobCodec::Plain } else if op.op_type == OP_REPLACE_BZ {
                BlobCodec::Bzip2
            } else {
                BlobCodec::Xz
            },
            offset: blob_start + op.data_offset,
            length: op.data_length,
            dst: op.dst,
        })
    } else {
        None
    }
}

/// How a diff operation is reported: "op i (NAME)" or "op i (type t)".
pub open spec fn diff_message(i: nat, t: u64) -> Seq<char> {
    "op "@ + dec_text(i) + " ("@ + (match diff_name(t) {
        Some(n) => n,
        None => "type "@ + dec_text(t as nat),
    }) + ")"@
}

/// The steps of the operations, each with its index.
pub open spec fn steps_of(ops: Seq<OperationModel>, blob_start: nat) -> Seq<(usize, StepModel)>
    decreases ops.len(),
{
    if ops.len() == 0 {
        seq![]
    } else {
        let init = steps_of(ops.drop_last(), blob_start);
        match step_of(ops.last(), blob_start) {
            Some(s) => init.push(((ops.len() - 1) as usize, s)),
            None => init,
        }
    }
}

/// The reports of the diff operations.
pub open spec fn diffs_of(ops: Seq<OperationModel>) -> Seq<Seq<char>>
    decreases ops.len(),
{
    if ops.len() == 0 {
        seq![]
    } else {
        let init = diffs_of(ops.drop_last());
        if step_of(ops.last(), 0) is None {
            init.push(diff_message((ops.len() - 1) as nat, ops.last().op_type))
        } else {
            init
        }
    }
}

/// What extracting one partition takes.
pub struct PartitionPlan {
    pub name: String,
    pub image_size: u64,
    pub steps: Vec<(usize, ExtractStep)>,
    /// Diff operations found; a partition with any is not extracted.
    pub diff_ops: Vec<String>,
}

pub open spec fn steps_view(v: Seq<(usize, ExtractStep)>) -> Seq<(usize, StepModel)> {
    v.map_values(|p: (usize, ExtractStep)| (p.0, p.1@))
}

fn diff_text(i: usize, t: u64) -> (r: String)
    ensures
        r@ == diff_message(i as nat, t),
{
    let mut buf: Vec<char> = Vec::new();
    push_text(&mut buf, "op ");
    let a = dec_chars(i as u64);
    push_chars(&mut buf, a.as_slice());
    push_text(&mut buf, " (");
    match diff_op_name(t) {
        Some(n) => push_text(&mut buf, n),
        None => {
            push_text(&mut buf, "type ");
            let b = dec_chars(t);
            push_chars(&mut buf, b.as_slice());
        },
    }
    push_text(&mut buf, ")");
    string_of(buf.as_slice())
}

/// Plans the extraction of one partition of a full payload.
pub fn plan_partition(part: &Partition, block_size: u64, blob_start: u64) -> (r: Result<PartitionPlan, PayloadError>)
    ensures
        match (r, image_size_of(part@, block_size)) {
            (Ok(plan), Some(size)) => plan.name@ == part.name@ && plan.image_size == size
                && steps_view(plan.steps@) == steps_of(part@.ops, blob_start as nat)
                && texts(plan.diff_ops@) == diffs_of(part@.ops),
            (Err(e), None) => e@ == PayloadErrorModel::SizeOverflow(part.name@),
            _ => false,
        },
{
    let ghost ops = part@.ops;
    let image_size = match part.size {
        Some(s) => s,
        None => {
            let mut m: u64 = 0;
            let mut i: usize = 0;
            let mut too_big = false;
            while i < part.ops.len()
                invariant
                    i <= part.ops@.len(),
                    ops == part@.ops,
                    !too_big ==> m == max_blocks(ops.take(i as int)),
                    too_big ==> max_blocks(ops) > u64::MAX,
                decreases part.ops@.len() - i,
            {
                assert(ops.take(i + 1).drop_last() =~= ops.take(i as int));
                assert(ops.take(i + 1).last() == part.ops@[i as int]@);
                match dst_blocks(&part.ops[i]) {
                    Some(b) => {
                        if !too_big && b > m {
                            m = b;
                        }
                    },
                    None => {
                        proof { lemma_max_blocks_ge(ops, i as int); }
                        too_big = true;
                    },
                }
                i = i + 1;
            }
            assert(ops.take(part.ops@.len() as int) =~= ops);
            if too_big || (block_size > 0 && m > u64::MAX / block_size) {
                proof {
                    if !too_big {
                        assert(m * block_size > u64::MAX) by (nonlinear_arith)
                            requires m > u64::MAX / block_size, block_size > 0;
                    } else {
                        assert(max_blocks(ops) * block_size > u64::MAX || block_size == 0) by (nonlinear_arith)
                            requires max_blocks(ops) > u64::MAX;
                    }
                }
                if too_big && block_size == 0 {
                    0
                } else {
                    return Err(PayloadError::SizeOverflow(part.name.clone()));
                }
            } else {
                proof {
                    if block_size > 0 {
                        assert(m * block_size <= u64::MAX) by (nonlinear_arith)
                            requires m <= u64::MAX / block_size, block_size > 0;
                    }
                }
                m * block_size
            }
        },
    };
    let mut steps: Vec<(usize, ExtractStep)> = Vec::new();
    let mut diff_ops: Vec<String> = Vec::new();
    let mut i: usize = 0;
    while i < part.ops.len()
        invariant
            i <= part.ops@.len(),
            ops == part@.ops,
            steps_view(steps@) == steps_of(ops.take(i as int), blob_start as nat),
            texts(diff_ops@) == diffs_of(ops.take(i as int)),
        decreases part.ops@.len() - i,
    {
        assert(ops.take(i + 1).drop_last() =~= ops.take(i as int));
        assert(ops.take(i + 1).last() == part.ops@[i as int]@);
        let op = &part.ops[i];
        let t = op.op_type;
        let ghost sv = steps_view(steps@);
        let ghost dv = texts(diff_ops@);
        if t == OP_ZERO {
            steps.push((i, ExtractStep::Zero(op.dst.clone())));
            assert(steps_view(steps@) =~= sv.push((i, StepModel::Zero(op.dst@))));
        } else if t == OP_REPLACE || t == OP_REPLACE_BZ || t == OP_REPLACE_XZ {
            let codec = if t == OP_REPLACE { BlobCodec::Plain } else if t == OP_REPLACE_BZ {
                BlobCodec::Bzip2
            } else {
                BlobCodec::Xz
            };
            let step = ExtractStep::Blob {
                codec,
                offset: blob_start as u128 + op.data_offset as u128,
                length: op.data_length,
                dst: op.dst.clone(),
            };
            steps.push((i, step));
            assert(steps_view(steps@) =~= sv.push((i, step@)));
        } else {
            diff_ops.push(diff_text(i, t));
            assert(texts(diff_ops@) =~= dv.push(diff_message(i as nat, t)));
        }
        i = i + 1;
    }
    assert(ops.take(part.ops@.len() as int) =~= ops);
    Ok(PartitionPlan { name: part.name.clone(), image_size, steps, diff_ops })
}

fn skipped_text(name: &String, n: usize) -> (r: String)
    ensures
        r@ == name@ + " ("@ + dec_text(n as nat) + " diff op(s))"@,
{
    let mut buf: Vec<char> = Vec::new();
    let cs = crate::text::chars_of(name.as_str());
    push_chars(&mut buf, cs.as_slice());
    push_text(&mut buf, " (");
    let a = dec_chars(n as u64);
    push_chars(&mut buf, a.as_slice());
    push_text(&mut buf, " diff op(s))");
    string_of(buf.as_slice())
}

/// How a partition that needs the old image is reported.
pub open spec fn skipped_report(s: Seq<(String, usize)>) -> Seq<Seq<char>> {
    s.map_values(|p: (String, usize)| p.0@ + " ("@ + dec_text(p.1 as nat) + " diff op(s))"@)
}

/// What becomes of one partition after its operations were carried out.
#[derive(Debug, Clone, Copy, PartialEq, Eq, Structural)]
pub enum PartitionOutcome {
    /// It has operations that need the old image: reported, not kept.
    NeedsOldImage,
    /// An operation failed: the image is incomplete and not kept.
    Failed,
    /// Every operation succeeded: the image is extracted.
    Extracted,
}

/// Decides a partition's outcome from how many of its operations need the
/// old image and how many failed.
pub fn partition_outcome(diff_ops: usize, failed_ops: usize) -> (r: PartitionOutcome)
    ensures
        r == (if diff_ops > 0 {
            PartitionOutcome::NeedsOldImage
        } else if failed_ops > 0 {
            PartitionOutcome::Failed
        } else {
            PartitionOutcome::Extracted
        }),
{
    if diff_ops > 0 {
        PartitionOutcome::NeedsOldImage
    } else if failed_ops > 0 {
        PartitionOutcome::Failed
    } else {
        PartitionOutcome::Extracted
    }
}

/// The outcome of an extraction: refused when any partition needed the old
/// image, or when none was extracted; otherwise the extracted names.
pub fn extraction_outcome(extracted: Vec<String>, skipped: &[(String, usize)]) -> (r: Result<Vec<String>, PayloadError>)
    ensures
        skipped@.len() > 0 ==> (r matches Err(e) && e@ == PayloadErrorModel::DeltaOnly(
            joined(skipped_report(skipped@), ", "@))),
        skipped@.len() == 0 && extracted@.len() == 0 ==> (r matches Err(e) && e@ == PayloadErrorModel::NothingExtracted),
        skipped@.len() == 0 && extracted@.len() > 0 ==> r == Ok::<Vec<String>, PayloadError>(extracted),
{
    if skipped.len() > 0 {
        let mut reports: Vec<String> = Vec::new();
        let mut i: usize = 0;
        while i < skipped.len()
            invariant
                i <= skipped@.len(),
                texts(reports@) == skipped_report(skipped@).take(i as int),
            decreases skipped@.len() - i,
        {
            let t = skipped_text(&skipped[i].0, skipped[i].1);
            let ghost before = texts(reports@);
            assert(skipped_report(skipped@)[i as int] == t@);
            reports.push(t);
            assert(texts(reports@) =~= before.push(t@));
            assert(skipped_report(skipped@).take(i + 1) =~= skipped_report(skipped@).take(i as int).push(t@));
            i = i + 1;
        }
        assert(skipped_report(skipped@).take(skipped@.len() as int) =~= skipped_report(skipped@));
        return Err(PayloadError::DeltaOnly(join_texts(reports.as_slice(), ", ")));
    }
    if extracted.len() == 0 {
        return Err(PayloadError::NothingExtracted);
    }
    Ok(extracted)
}

fn slice_range<'a>(d: &'a [u8], a: usize, b: usize) -> (r: &'a [u8])
    requires
        a <= b <= d@.len(),
    ensures
        r@ == d@.subrange(a as int, b as int),
{
    &d[a..b]
}

} // verus!
