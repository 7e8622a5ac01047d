//! Android `dt_table` images (dtbo.img). All integers are big-endian.
//!
//! A 32-byte header (magic 0xd7b7ab1e, total size, header size, entry
//! size, entry count, entries offset, page size, version) is followed by
//! 32-byte entries (blob size, blob offset, id, rev, four custom words);
//! the blobs follow the page-aligned table.
use vstd::prelude::*;
use crate::text::{dec_chars, dec2_text, hex8_text, hex8_chars, push_text, push_chars, string_of,
    chars_of, extension_of, has_extension, sort_spec, sort_texts, texts, keep_some, lemma_keep_some_step};
use crate::bytes::{be_value, be_bytes4, read_be32, lemma_be_value_bound, lemma_pow256_small, lemma_be_bytes4};
pub use crate::bytes::put_be32;

verus! {

pub const DT_TABLE_MAGIC: u32 = 0xd7b7ab1e;
pub const HEADER_SIZE: usize = 32;
pub const ENTRY_SIZE: usize = 32;

/// Reads a big-endian u32 from the first four bytes.
pub fn be32(b: &[u8]) -> (v: u32)
    requires
        b@.len() >= 4,
    ensures
        v == be_value(b@.subrange(0, 4)),
{
    read_be32(b, 0)
}

/// A blob of the table: its size, its offset in the image, its id.
#[derive(Debug, Clone, Copy, PartialEq, Eq, Structural)]
pub struct DtEntry {
    pub dt_size: u32,
    pub dt_offset: u32,
    pub id: u32,
}

/// Why a dtbo image was refused.
#[derive(Debug, Clone, Copy, PartialEq, Eq, Structural)]
pub enum DtboError {
    /// Shorter than a header; the length.
    TooSmall(usize),
    BadMagic,
    /// The entry table does not fit: entry count, entries offset, length.
    TableOutOfRange { count: usize, offset: usize, len: usize },
    /// A blob does not fit: entry index, blob offset, blob size.
    BlobOutOfRange { index: usize, offset: u32, size: u32 },
    /// A packed image would not fit in memory.
    TooLarge,
}

/// The big-endian u32 at `at`.
pub open spec fn u32_at(d: Seq<u8>, at: int) -> u32 {
    be_value(d.subrange(at, at + 4)) as u32
}

/// Entries `i..count` of the table at `off`, after `acc`: each blob must
/// end within the image.
pub open spec fn entries_from(d: Seq<u8>, off: int, count: int, i: int, acc: Seq<DtEntry>) -> Result<Seq<DtEntry>, DtboError>
    decreases count - i,
{
    if i < 0 || i >= count {
        Ok(acc)
    } else {
        let e = off + i * 32;
        let size = u32_at(d, e);
        let offset = u32_at(d, e + 4);
        if offset as int + size as int > d.len() {
            Err(DtboError::BlobOutOfRange { index: i as usize, offset, size })
        } else {
            entries_from(d, off, count, i + 1, acc.push(DtEntry { dt_size: size, dt_offset: offset, id: u32_at(d, e + 8) }))
        }
    }
}

/// A dtbo image read: its page size and entries.
pub open spec fn table_of(d: Seq<u8>) -> Result<(u32, Seq<DtEntry>), DtboError> {
    if d.len() < 32 {
        Err(DtboError::TooSmall(d.len() as usize))
    } else if u32_at(d, 0) != DT_TABLE_MAGIC {
        Err(DtboError::BadMagic)
    } else {
        let count = (u32_at(d, 16) as usize) as int;
        let off = (u32_at(d, 20) as usize) as int;
        if count == 0 || off + count * 32 > d.len() {
            Err(DtboError::TableOutOfRange { count: count as usize, offset: off as usize, len: d.len() as usize })
        } else {
            match entries_from(d, off, count, 0, seq![]) {
                Ok(es) => Ok((u32_at(d, 24), es)),
                Err(e) => Err(e),
            }
        }
    }
}

proof fn lemma_u32_at(d: Seq<u8>, at: int)
    requires
        0 <= at,
        at + 4 <= d.len(),
    ensures
        be_value(d.subrange(at, at + 4)) == u32_at(d, at),
{
    lemma_be_value_bound(d.subrange(at, at + 4));
    lemma_pow256_small();
}

/// Reads the header and entry table of a dtbo image.
pub fn parse_table(data: &[u8]) -> (r: Result<(u32, Vec<DtEntry>), DtboError>)
    ensures
        match (r, table_of(data@)) {
            (Ok((p, es)), Ok((q, ms))) => p == q && es@ == ms,
            (Err(e), Err(f)) => e == f,
            _ => false,
        },
{
    let ghost d = data@;
    if data.len() < HEADER_SIZE {
        return Err(DtboError::TooSmall(data.len()));
    }
    proof { lemma_u32_at(d, 0); lemma_u32_at(d, 16); lemma_u32_at(d, 20); lemma_u32_at(d, 24); }
    if read_be32(data, 0) != DT_TABLE_MAGIC {
        return Err(DtboError::BadMagic);
    }
    let count = read_be32(data, 16) as usize;
    let off = read_be32(data, 20) as usize;
    let page_size = read_be32(data, 24);
    if count == 0 || off > data.len() || count > (data.len() - off) / ENTRY_SIZE {
        proof {
            if count > 0 && off <= data.len() {
                assert(count * 32 > data.len() - off) by (nonlinear_arith)
                    requires count > (data.len() - off) / 32;
            }
        }
        return Err(DtboError::TableOutOfRange { count, offset: off, len: data.len() });
    }
    proof {
        assert(count * 32 <= data.len() - off) by (nonlinear_arith)
            requires count <= (data.len() - off) / 32;
    }
    let mut entries: Vec<DtEntry> = Vec::new();
    let mut i: usize = 0;
    while i < count
        invariant
            i <= count,
            d == data@,
            d.len() <= usize::MAX,
            off + count * 32 <= d.len(),
            table_of(d) == (match entries_from(d, off as int, count as int, i as int, entries@) {
                Ok(es) => Ok::<(u32, Seq<DtEntry>), DtboError>((page_size, es)),
                Err(e) => Err(e),
            }),
        decreases count - i,
    {
        proof {
            assert(off + i * 32 + 32 <= off + count * 32) by (nonlinear_arith)
                requires i < count;
        }
        let e = off + i * ENTRY_SIZE;
        proof { lemma_u32_at(d, e as int); lemma_u32_at(d, e + 4); lemma_u32_at(d, e + 8); }
        let dt_size = read_be32(data, e);
        let dt_offset = read_be32(data, e + 4);
        if dt_offset as u64 + dt_size as u64 > data.len() as u64 {
            return Err(DtboError::BlobOutOfRange { index: i, offset: dt_offset, size: dt_size });
        }
        let id = read_be32(data, e + 8);
        entries.push(DtEntry { dt_size, dt_offset, id });
        i = i + 1;
    }
    Ok((page_size, entries))
}

/// The file an unpacked entry is written to: "NN_id_0xIIIIIIII.dtb",
/// with the entry's index (two digits at least) and id (eight hex digits).
pub open spec fn dtb_name_of(i: nat, id: u32) -> Seq<char> {
    dec2_text(i) + "_id_0x"@ + hex8_text(id) + ".dtb"@
}

/// Names the file of an unpacked entry.
pub fn dtb_file_name(i: usize, id: u32) -> (r: String)
    ensures
        r@ == dtb_name_of(i as nat, id),
{
    let mut buf: Vec<char> = Vec::new();
    if i < 10 {
        buf.push('0');
    }
    let d = dec_chars(i as u64);
    push_chars(&mut buf, d.as_slice());
    push_text(&mut buf, "_id_0x");
    let h = hex8_chars(id);
    push_chars(&mut buf, h.as_slice());
    push_text(&mut buf, ".dtb");
    proof {
        if i < 10 { assert(buf@ =~= dtb_name_of(i as nat, id)); }
    }
    string_of(buf.as_slice())
}

/// The `.dtb` files among a directory's names, sorted: what a pack takes,
/// in that order.
pub open spec fn dtb_inputs_of(names: Seq<Seq<char>>) -> Seq<Seq<char>> {
    sort_spec(keep_some(names, |n: Seq<char>| if extension_of(n) == Some("dtb"@) { Some(n) } else { None }))
}

/// Picks and orders the blobs of a pack from a directory's file names;
/// `None` when there is no `.dtb` file.
pub fn dtb_inputs(names: &[String]) -> (r: Option<Vec<String>>)
    ensures
        match r {
            Some(v) => texts(v@) == dtb_inputs_of(texts(names@)) && v@.len() > 0,
            None => dtb_inputs_of(texts(names@)).len() == 0,
        },
{
    let ghost all = texts(names@);
    let ghost keep = |n: Seq<char>| if extension_of(n) == Some("dtb"@) { Some(n) } else { None };
    let mut picked: Vec<String> = Vec::new();
    let mut i: usize = 0;
    assert(all.take(0) =~= Seq::<Seq<char>>::empty());
    assert(texts(picked@) =~= Seq::<Seq<char>>::empty());
    while i < names.len()
        invariant
            i <= names@.len(),
            all == texts(names@),
            keep == (|n: Seq<char>| if extension_of(n) == Some("dtb"@) { Some(n) } else { None }),
            texts(picked@) == keep_some(all.take(i as int), keep),
        decreases names@.len() - i,
    {
        let cs = chars_of(names[i].as_str());
        proof { lemma_keep_some_step(all, keep, i as int); }
        assert(all[i as int] == cs@);
        let ghost before = texts(picked@);
        if has_extension(cs.as_slice(), "dtb") {
            picked.push(names[i].clone());
            assert(texts(picked@) =~= before.push(cs@));
        }
        i = i + 1;
    }
    assert(all.take(names@.len() as int) =~= all);
    let sorted = sort_texts(picked);
    proof { crate::text::lemma_sort_spec(keep_some(all, keep)); }
    if sorted.len() == 0 {
        return None;
    }
    Some(sorted)
}

// ---- packing ----

/// The page size a pack uses: the one asked for (4096 by default), at
/// least 32.
pub open spec fn page_of(page_size: Option<u32>) -> u32 {
    let p = match page_size {
        Some(p) => p,
        None => 4096,
    };
    if p < 32 { 32 } else { p }
}

/// Where the blobs start: the header and `n` entries, rounded up to a
/// whole number of pages.
pub open spec fn blob_base(n: nat, page: u32) -> nat {
    (((32 + 32 * n) + page - 1) / (page as int)) as nat * (page as nat)
}

/// Total length of the first `k` blobs.
pub open spec fn lens_before(blobs: Seq<Seq<u8>>, k: int) -> nat
    decreases k,
{
    if k <= 0 { 0 } else { lens_before(blobs, k - 1) + blobs[k - 1].len() }
}

pub open spec fn zeros(n: nat) -> Seq<u8> {
    Seq::new(n, |i: int| 0u8)
}

/// The entry of a blob of `len` bytes at `off`: size and offset (as u32),
/// then six zero words (id, rev, custom).
pub open spec fn entry_bytes(len: nat, off: nat) -> Seq<u8> {
    be_bytes4(len as u32) + be_bytes4(off as u32) + zeros(24)
}

/// The entries of the first `k` blobs.
pub open spec fn entries_bytes(blobs: Seq<Seq<u8>>, base: nat, k: int) -> Seq<u8>
    decreases k,
{
    if k <= 0 {
        seq![]
    } else {
        entries_bytes(blobs, base, k - 1) + entry_bytes(blobs[k - 1].len(), base + lens_before(blobs, k - 1))
    }
}

pub open spec fn header_bytes(n: nat, total: nat, page: u32) -> Seq<u8> {
    be_bytes4(DT_TABLE_MAGIC) + be_bytes4(total as u32) + be_bytes4(32) + be_bytes4(32) + be_bytes4(n as u32)
        + be_bytes4(32) + be_bytes4(page) + be_bytes4(0)
}

/// The first `k` blobs, one after the other.
pub open spec fn blobs_concat(blobs: Seq<Seq<u8>>, k: int) -> Seq<u8>
    decreases k,
{
    if k <= 0 { seq![] } else { blobs_concat(blobs, k - 1) + blobs[k - 1] }
}

/// A packed dtbo image: header, entries, zero padding to the blob base,
/// then the blobs in order.
pub open spec fn packed(blobs: Seq<Seq<u8>>, page: u32) -> Seq<u8> {
    let n = blobs.len();
    let base = blob_base(n, page);
    let total = base + lens_before(blobs, n as int);
    header_bytes(n, total, page) + entries_bytes(blobs, base, n as int)
        + zeros((base - 32 - 32 * n) as nat) + blobs_concat(blobs, n as int)
}

pub open spec fn blobs_view(v: Seq<Vec<u8>>) -> Seq<Seq<u8>> {
    v.map_values(|b: Vec<u8>| b@)
}

proof fn lemma_lens_concat(blobs: Seq<Seq<u8>>, k: int)
    requires
        0 <= k <= blobs.len(),
    ensures
        blobs_concat(blobs, k).len() == lens_before(blobs, k),
        entries_bytes(blobs, 0, k).len() == 32 * k,
    decreases k,
{
    if k > 0 {
        lemma_lens_concat(blobs, k - 1);
    }
}

proof fn lemma_entries_len(blobs: Seq<Seq<u8>>, base: nat, k: int)
    requires
        0 <= k,
    ensures
        entries_bytes(blobs, base, k).len() == 32 * k,
    decreases k,
{
    if k > 0 {
        lemma_entries_len(blobs, base, k - 1);
    }
}

proof fn lemma_base_covers_table(n: nat, page: u32)
    requires
        page >= 32,
    ensures
        blob_base(n, page) >= 32 + 32 * n,
        blob_base(n, page) < 32 + 32 * n + page,
        blob_base(n, page) % (page as nat) == 0,
{
    let t = 32 + 32 * n;
    let p = page as int;
    let q = (t + p - 1) / p;
    assert(q * p >= t && q * p < t + p) by (nonlinear_arith)
        requires p > 0, q == (t + p - 1) / p, t >= 0;
    assert((q * p) % p == 0) by (nonlinear_arith)
        requires p > 0, q >= 0;
}

fn blobs_len(blobs: &[Vec<u8>]) -> (r: Option<u64>)
    ensures
        r matches Some(n) ==> n == lens_before(blobs_view(blobs@), blobs@.len() as int) && n <= isize::MAX,
        r is None ==> lens_before(blobs_view(blobs@), blobs@.len() as int) > isize::MAX,
{
    let ghost bv = blobs_view(blobs@);
    let mut sum: u64 = 0;
    let mut k: usize = 0;
    while k < blobs.len()
        invariant
            k <= blobs@.len(),
            bv == blobs_view(blobs@),
            sum == lens_before(bv, k as int),
            sum <= isize::MAX,
        decreases blobs@.len() - k,
    {
        assert(bv[k as int] == blobs@[k as int]@);
        let l = blobs[k].len() as u64;
        if l > isize::MAX as u64 - sum {
            proof { lemma_lens_mono(bv, k as int + 1, blobs@.len() as int); }
            return None;
        }
        sum = sum + l;
        k = k + 1;
    }
    Some(sum)
}

fn push_entries(out: &mut Vec<u8>, blobs: &[Vec<u8>], base: u64)
    requires
        base + lens_before(blobs_view(blobs@), blobs@.len() as int) <= isize::MAX,
    ensures
        final(out)@ == old(out)@ + entries_bytes(blobs_view(blobs@), base as nat, blobs@.len() as int),
{
    let ghost bv = blobs_view(blobs@);
    let ghost start = out@;
    let n = blobs.len();
    let mut cursor: u64 = base;
    let mut k: usize = 0;
    while k < n
        invariant
            k <= n == blobs@.len(),
            bv == blobs_view(blobs@),
            base + lens_before(bv, n as int) <= isize::MAX,
            cursor == base + lens_before(bv, k as int),
            out@ == start + entries_bytes(bv, base as nat, k as int),
        decreases n - k,
    {
        assert(bv[k as int] == blobs@[k as int]@);
        proof { lemma_lens_mono(bv, k as int + 1, n as int); }
        let ghost before = out@;
        put_be32(out, blobs[k].len() as u32);
        put_be32(out, cursor as u32);
        let mut z: usize = 0;
        while z < 6
            invariant
                z <= 6,
                out@ == before + be_bytes4(blobs@[k as int]@.len() as u32) + be_bytes4(cursor as u32)
                    + zeros(4 * z as nat),
            decreases 6 - z,
        {
            put_be32(out, 0);
            assert(zeros(4 * z as nat) + be_bytes4(0) =~= zeros(4 * (z + 1) as nat));
            z = z + 1;
        }
        cursor = cursor + blobs[k].len() as u64;
        assert(out@ =~= start + entries_bytes(bv, base as nat, k + 1));
        k = k + 1;
    }
}

fn push_blobs(out: &mut Vec<u8>, blobs: &[Vec<u8>])
    requires
        old(out)@.len() + lens_before(blobs_view(blobs@), blobs@.len() as int) <= isize::MAX,
    ensures
        final(out)@ == old(out)@ + blobs_concat(blobs_view(blobs@), blobs@.len() as int),
{
    let ghost bv = blobs_view(blobs@);
    let ghost start = out@;
    let n = blobs.len();
    let mut k: usize = 0;
    while k < n
        invariant
            k <= n == blobs@.len(),
            bv == blobs_view(blobs@),
            start.len() + lens_before(bv, n as int) <= isize::MAX,
            out@ == start + blobs_concat(bv, k as int),
        decreases n - k,
    {
        assert(bv[k as int] == blobs@[k as int]@);
        proof {
            lemma_lens_concat(bv, k as int);
            lemma_lens_mono(bv, k as int + 1, n as int);
        }
        let ghost before = out@;
        let mut j: usize = 0;
        while j < blobs[k].len()
            invariant
                k < blobs@.len(),
                j <= blobs@[k as int]@.len(),
                out@ == before + blobs@[k as int]@.take(j as int),
            decreases blobs@[k as int]@.len() - j,
        {
            out.push(blobs[k][j]);
            assert(blobs@[k as int]@.take(j + 1) =~= blobs@[k as int]@.take(j as int).push(blobs@[k as int]@[j as int]));
            j = j + 1;
        }
        assert(blobs@[k as int]@.take(blobs@[k as int]@.len() as int) =~= blobs@[k as int]@);
        assert(out@ =~= start + blobs_concat(bv, k + 1));
        k = k + 1;
    }
}

/// Packs blobs into a dtbo image, in the order given, with the page size
/// asked for (4096 by default, at least 32). Refused when the image would
/// not fit in memory.
#[verifier::rlimit(40)]
pub fn pack_table(blobs: &[Vec<u8>], page_size: Option<u32>) -> (r: Result<Vec<u8>, DtboError>)
    ensures
        match r {
            Ok(out) => out@ == packed(blobs_view(blobs@), page_of(page_size)),
            Err(e) => e == DtboError::TooLarge
                && packed(blobs_view(blobs@), page_of(page_size)).len() > isize::MAX,
        },
{
    let ghost bv = blobs_view(blobs@);
    let page: u32 = match page_size {
        Some(p) => if p < 32 { 32 } else { p },
        None => 4096,
    };
    let n = blobs.len();
    proof {
        lemma_base_covers_table(n as nat, page);
        lemma_entries_len(bv, blob_base(n as nat, page), n as int);
        lemma_lens_concat(bv, n as int);
    }
    let sum = match blobs_len(blobs) {
        Some(s) => s,
        None => {
            assert(packed(bv, page).len() == blob_base(n as nat, page) + lens_before(bv, n as int));
            return Err(DtboError::TooLarge);
        },
    };
    let t: u128 = 32 + 32 * (n as u128);
    let base: u128 = ((t + page as u128 - 1) / page as u128) * page as u128;
    assert(base == blob_base(n as nat, page));
    let total: u128 = base + sum as u128;
    if total > isize::MAX as u128 {
        assert(packed(bv, page).len() == total);
        return Err(DtboError::TooLarge);
    }
    let mut out: Vec<u8> = Vec::new();
    put_be32(&mut out, DT_TABLE_MAGIC);
    put_be32(&mut out, total as u32);
    put_be32(&mut out, HEADER_SIZE as u32);
    put_be32(&mut out, ENTRY_SIZE as u32);
    put_be32(&mut out, n as u32);
    put_be32(&mut out, HEADER_SIZE as u32);
    put_be32(&mut out, page);
    put_be32(&mut out, 0);
    assert(out@ =~= header_bytes(n as nat, total as nat, page));
    push_entries(&mut out, blobs, base as u64);
    let pad_to = base as usize;
    let ghost table = out@;
    while out.len() < pad_to
        invariant
            out@.len() <= pad_to,
            pad_to == base,
            table.len() <= pad_to,
            out@ == table + zeros((out@.len() - table.len()) as nat),
        decreases pad_to - out@.len(),
    {
        out.push(0);
        assert(out@ =~= table + zeros((out@.len() - table.len()) as nat));
    }
    push_blobs(&mut out, blobs);
    assert(out@ =~= packed(bv, page));
    Ok(out)
}

// ---- packing then parsing ----

/// The entries a packed image holds: each blob's size and offset, id 0.
pub open spec fn packed_entries(blobs: Seq<Seq<u8>>, page: u32) -> Seq<DtEntry> {
    Seq::new(blobs.len(), |k: int| DtEntry {
        dt_size: blobs[k].len() as u32,
        dt_offset: (blob_base(blobs.len(), page) + lens_before(blobs, k)) as u32,
        id: 0,
    })
}

proof fn lemma_entry_at(blobs: Seq<Seq<u8>>, base: nat, k: int, m: int)
    requires
        0 <= k < m,
    ensures
        entries_bytes(blobs, base, m).subrange(32 * k, 32 * k + 32)
            == entry_bytes(blobs[k].len(), base + lens_before(blobs, k)),
    decreases m,
{
    lemma_entries_len(blobs, base, m - 1);
    let e = entries_bytes(blobs, base, m);
    if k < m - 1 {
        lemma_entry_at(blobs, base, k, m - 1);
        assert(e.subrange(32 * k, 32 * k + 32) =~= entries_bytes(blobs, base, m - 1).subrange(32 * k, 32 * k + 32));
    } else {
        assert(e.subrange(32 * k, 32 * k + 32) =~= entry_bytes(blobs[k].len(), base + lens_before(blobs, k)));
    }
}

proof fn lemma_blob_at(blobs: Seq<Seq<u8>>, k: int, m: int)
    requires
        0 <= k < m <= blobs.len(),
    ensures
        blobs_concat(blobs, m).subrange(lens_before(blobs, k) as int, lens_before(blobs, k + 1) as int) == blobs[k],
    decreases m,
{
    lemma_lens_concat(blobs, m - 1);
    lemma_lens_concat(blobs, k);
    let c = blobs_concat(blobs, m);
    if k < m - 1 {
        lemma_lens_mono(blobs, k + 1, m - 1);
        lemma_blob_at(blobs, k, m - 1);
        assert(c.subrange(lens_before(blobs, k) as int, lens_before(blobs, k + 1) as int)
            =~= blobs_concat(blobs, m - 1).subrange(lens_before(blobs, k) as int, lens_before(blobs, k + 1) as int));
    } else {
        assert(c.subrange(lens_before(blobs, k) as int, lens_before(blobs, k + 1) as int) =~= blobs[k]);
    }
}

proof fn lemma_words_of_entry(len: nat, off: nat)
    ensures
        entry_bytes(len, off).subrange(0, 4) == be_bytes4(len as u32),
        entry_bytes(len, off).subrange(4, 8) == be_bytes4(off as u32),
        entry_bytes(len, off).subrange(8, 12) == be_bytes4(0),
        entry_bytes(len, off).len() == 32,
{
    lemma_be_bytes4(len as u32);
    lemma_be_bytes4(off as u32);
    let e = entry_bytes(len, off);
    assert(e.subrange(0, 4) =~= be_bytes4(len as u32));
    assert(e.subrange(4, 8) =~= be_bytes4(off as u32));
    assert(e.subrange(8, 12) =~= be_bytes4(0));
}

proof fn lemma_packed_parts(blobs: Seq<Seq<u8>>, page: u32)
    requires
        page >= 32,
    ensures
        ({
            let n = blobs.len();
            let base = blob_base(n, page);
            let d = packed(blobs, page);
            let e = entries_bytes(blobs, base, n as int);
            let c = blobs_concat(blobs, n as int);
            &&& d.len() == base + lens_before(blobs, n as int)
            &&& d.subrange(0, 4) == be_bytes4(DT_TABLE_MAGIC)
            &&& d.subrange(16, 20) == be_bytes4(n as u32)
            &&& d.subrange(20, 24) == be_bytes4(32)
            &&& d.subrange(24, 28) == be_bytes4(page)
            &&& forall|a: int, b: int| 32 <= a <= b <= 32 + 32 * n ==> #[trigger] d.subrange(a, b) == e.subrange(a - 32, b - 32)
            &&& forall|a: int, b: int| base <= a <= b <= d.len() ==> #[trigger] d.subrange(a, b) == c.subrange(a - base, b - base)
        }),
{
    let n = blobs.len();
    let base = blob_base(n, page);
    let total = base + lens_before(blobs, n as int);
    let d = packed(blobs, page);
    let h = header_bytes(n, total, page);
    let e = entries_bytes(blobs, base, n as int);
    let z = zeros((base - 32 - 32 * n) as nat);
    let c = blobs_concat(blobs, n as int);
    lemma_base_covers_table(n, page);
    lemma_entries_len(blobs, base, n as int);
    lemma_lens_concat(blobs, n as int);
    lemma_be_bytes4(DT_TABLE_MAGIC);
    lemma_be_bytes4(total as u32);
    lemma_be_bytes4(32);
    lemma_be_bytes4(n as u32);
    lemma_be_bytes4(page);
    lemma_be_bytes4(0);
    assert(h.len() == 32);
    assert(d.subrange(0, 4) =~= be_bytes4(DT_TABLE_MAGIC));
    assert(d.subrange(16, 20) =~= be_bytes4(n as u32));
    assert(d.subrange(20, 24) =~= be_bytes4(32));
    assert(d.subrange(24, 28) =~= be_bytes4(page));
    assert forall|a: int, b: int| 32 <= a <= b <= 32 + 32 * n implies #[trigger] d.subrange(a, b) == e.subrange(a - 32, b - 32) by {
        assert(d.subrange(a, b) =~= e.subrange(a - 32, b - 32));
    }
    assert forall|a: int, b: int| base <= a <= b <= d.len() implies #[trigger] d.subrange(a, b) == c.subrange(a - base, b - base) by {
        assert(d.subrange(a, b) =~= c.subrange(a - base, b - base));
    }
}

#[verifier::rlimit(40)]
proof fn lemma_packed_entry(blobs: Seq<Seq<u8>>, page: u32, k: int)
    requires
        page >= 32,
        0 <= k < blobs.len(),
        packed(blobs, page).len() <= u32::MAX,
    ensures
        ({
            let d = packed(blobs, page);
            let x = packed_entries(blobs, page)[k];
            &&& u32_at(d, 32 + k * 32) == x.dt_size
            &&& u32_at(d, 32 + k * 32 + 4) == x.dt_offset
            &&& u32_at(d, 32 + k * 32 + 8) == 0
            &&& x.dt_offset + x.dt_size <= d.len()
            &&& d.subrange(x.dt_offset as int, x.dt_offset + x.dt_size) == blobs[k]
        }),
{
    let n = blobs.len();
    let base = blob_base(n, page);
    let d = packed(blobs, page);
    let e = entries_bytes(blobs, base, n as int);
    let c = blobs_concat(blobs, n as int);
    lemma_packed_parts(blobs, page);
    lemma_base_covers_table(n, page);
    lemma_entry_at(blobs, base, k, n as int);
    lemma_words_of_entry(blobs[k].len(), base + lens_before(blobs, k));
    lemma_lens_mono(blobs, k + 1, n as int);
    lemma_blob_at(blobs, k, n as int);
    lemma_lens_concat(blobs, n as int);
    let at = 32 + k * 32;
    assert(32 * k + 32 <= 32 * n) by (nonlinear_arith) requires k < n;
    let w = e.subrange(32 * k, 32 * k + 32);
    assert(d.subrange(at, at + 4) == e.subrange(32 * k, 32 * k + 4));
    assert(e.subrange(32 * k, 32 * k + 4) =~= w.subrange(0, 4));
    assert(d.subrange(at + 4, at + 8) == e.subrange(32 * k + 4, 32 * k + 8));
    assert(e.subrange(32 * k + 4, 32 * k + 8) =~= w.subrange(4, 8));
    assert(d.subrange(at + 8, at + 12) == e.subrange(32 * k + 8, 32 * k + 12));
    assert(e.subrange(32 * k + 8, 32 * k + 12) =~= w.subrange(8, 12));
    lemma_be_bytes4(blobs[k].len() as u32);
    lemma_be_bytes4((base + lens_before(blobs, k)) as u32);
    lemma_be_bytes4(0);
    let lo = base + lens_before(blobs, k);
    let hi = base + lens_before(blobs, k + 1);
    assert(d.subrange(lo as int, hi as int) == c.subrange(lens_before(blobs, k) as int, lens_before(blobs, k + 1) as int));
}

/// What `pack_table` writes, `parse_table` reads back: for blobs whose
/// packed image fits the format's 32-bit fields, the page size, one entry
/// per blob with its size and offset, and at each offset the blob itself.
pub proof fn lemma_pack_roundtrip(blobs: Seq<Seq<u8>>, page: u32)
    requires
        blobs.len() > 0,
        page >= 32,
        packed(blobs, page).len() <= u32::MAX,
    ensures
        table_of(packed(blobs, page)) == Ok::<(u32, Seq<DtEntry>), DtboError>((page, packed_entries(blobs, page))),
        forall|k: int| 0 <= k < blobs.len() ==> packed(blobs, page).subrange(
            (#[trigger] packed_entries(blobs, page)[k]).dt_offset as int,
            packed_entries(blobs, page)[k].dt_offset + packed_entries(blobs, page)[k].dt_size,
        ) == blobs[k],
{
    let n = blobs.len();
    let d = packed(blobs, page);
    lemma_packed_parts(blobs, page);
    lemma_base_covers_table(n, page);
    lemma_be_bytes4(DT_TABLE_MAGIC);
    lemma_be_bytes4(n as u32);
    lemma_be_bytes4(32);
    lemma_be_bytes4(page);
    assert(u32_at(d, 0) == DT_TABLE_MAGIC);
    assert(u32_at(d, 16) == n);
    assert(u32_at(d, 20) == 32);
    assert(u32_at(d, 24) == page);
    assert forall|k: int| 0 <= k < n implies {
        &&& u32_at(d, 32 + k * 32) == (#[trigger] packed_entries(blobs, page)[k]).dt_size
        &&& u32_at(d, 32 + k * 32 + 4) == packed_entries(blobs, page)[k].dt_offset
        &&& u32_at(d, 32 + k * 32 + 8) == 0
        &&& packed_entries(blobs, page)[k].dt_offset + packed_entries(blobs, page)[k].dt_size <= d.len()
    } by {
        lemma_packed_entry(blobs, page, k);
    }
    assert forall|k: int| 0 <= k < n implies d.subrange(
        (#[trigger] packed_entries(blobs, page)[k]).dt_offset as int,
        packed_entries(blobs, page)[k].dt_offset + packed_entries(blobs, page)[k].dt_size,
    ) == blobs[k] by {
        lemma_packed_entry(blobs, page, k);
    }
    lemma_entries_walk(d, blobs, page, 0);
    assert(packed_entries(blobs, page).take(0) =~= Seq::<DtEntry>::empty());
}

proof fn lemma_entries_walk(d: Seq<u8>, blobs: Seq<Seq<u8>>, page: u32, i: int)
    requires
        0 <= i <= blobs.len(),
        forall|k: int| 0 <= k < blobs.len() ==> {
            &&& u32_at(d, 32 + k * 32) == (#[trigger] packed_entries(blobs, page)[k]).dt_size
            &&& u32_at(d, 32 + k * 32 + 4) == packed_entries(blobs, page)[k].dt_offset
            &&& u32_at(d, 32 + k * 32 + 8) == 0
            &&& packed_entries(blobs, page)[k].dt_offset + packed_entries(blobs, page)[k].dt_size <= d.len()
        },
    ensures
        entries_from(d, 32, blobs.len() as int, i, packed_entries(blobs, page).take(i))
            == Ok::<Seq<DtEntry>, DtboError>(packed_entries(blobs, page)),
    decreases blobs.len() - i,
{
    let es = packed_entries(blobs, page);
    if i < blobs.len() {
        let x = es[i];
        assert(es.take(i).push(DtEntry { dt_size: x.dt_size, dt_offset: x.dt_offset, id: 0 }) =~= es.take(i + 1));
        lemma_entries_walk(d, blobs, page, i + 1);
    } else {
        assert(es.take(i) =~= es);
    }
}

proof fn lemma_lens_mono(blobs: Seq<Seq<u8>>, j: int, k: int)
    requires
        0 <= j <= k,
    ensures
        lens_before(blobs, j) <= lens_before(blobs, k),
    decreases k - j,
{
    if j < k {
        lemma_lens_mono(blobs, j, k - 1);
    }
}

} // verus!
