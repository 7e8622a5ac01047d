//! AVB 2.0 vbmeta header patching: disabling hashtree and verification.
use vstd::prelude::*;
use crate::bytes::{be_value, be_bytes4, read_be, lemma_be_value_bound, lemma_pow256_small, lemma_be_bytes4};

verus! {

pub const AVB_VBMETA_IMAGE_FLAGS_HASHTREE_DISABLED: u32 = 0x0000_0001;
pub const AVB_VBMETA_IMAGE_FLAGS_VERIFICATION_DISABLED: u32 = 0x0000_0002;
/// Both verity enforcement bits, as Magisk's PATCHVBMETAFLAG sets them.
pub const AVB_VBMETA_FLAGS_DISABLE_ALL: u32 = 0x0000_0003;

/// Why a vbmeta image could not be patched.
#[derive(Debug, Clone, Copy, PartialEq, Eq)]
pub enum VbmetaError {
    /// The header slice holds fewer than 124 bytes (its length is given).
    HeaderTooSmall(usize),
    /// The header does not start with `AVB0`.
    MissingMagic,
    /// An `AVBf` footer points at no `AVB0` header.
    FooterOffsetOutOfRange,
    /// Neither an `AVB0` header at 0 nor an `AVBf` footer at the end.
    NotVbmeta,
    /// The 256-byte header runs past the end of the image.
    HeaderPastEnd,
}

pub open spec fn avb0() -> Seq<u8> {
    seq![0x41u8, 0x56u8, 0x42u8, 0x30u8]
}

pub open spec fn avbf() -> Seq<u8> {
    seq![0x41u8, 0x56u8, 0x42u8, 0x66u8]
}

/// `d` holds the four bytes `m` at `at`.
pub open spec fn holds_at(d: Seq<u8>, at: int, m: Seq<u8>) -> bool {
    0 <= at && at + m.len() <= d.len() && d.subrange(at, at + m.len()) == m
}

fn holds4(d: &[u8], at: usize, m0: u8, m1: u8, m2: u8, m3: u8) -> (r: bool)
    requires
        at + 4 <= d@.len(),
    ensures
        r == (d@.subrange(at as int, at + 4) == seq![m0, m1, m2, m3]),
{
    let r = d[at] == m0 && d[at + 1] == m1 && d[at + 2] == m2 && d[at + 3] == m3;
    proof {
        if r {
            assert(d@.subrange(at as int, at + 4) =~= seq![m0, m1, m2, m3]);
        } else {
            if d@.subrange(at as int, at + 4) == seq![m0, m1, m2, m3] {
                assert(d@.subrange(at as int, at + 4)[0] == d@[at as int]);
                assert(d@.subrange(at as int, at + 4)[1] == d@[at + 1]);
                assert(d@.subrange(at as int, at + 4)[2] == d@[at + 2]);
                assert(d@.subrange(at as int, at + 4)[3] == d@[at + 3]);
            }
        }
    }
    r
}

/// Result of patching a header slice `h` with `flags`: the four flag bytes
/// at offset 120 become `flags` in big-endian order.
pub open spec fn flags_patched(h: Seq<u8>, flags: u32) -> Seq<u8> {
    h.subrange(0, 120) + be_bytes4(flags) + h.subrange(124, h.len() as int)
}

pub open spec fn patch_flags_result(h: Seq<u8>) -> Result<(), VbmetaError> {
    if h.len() < 124 {
        Err(VbmetaError::HeaderTooSmall(h.len() as usize))
    } else if !holds_at(h, 0, avb0()) {
        Err(VbmetaError::MissingMagic)
    } else {
        Ok(())
    }
}

/// Sets the flags word (offset 120, big-endian) of an AVB 2.0 header. The
/// authentication block is invalidated by design; unlocked bootloaders
/// accept that, which is the point of the patch.
pub fn patch_vbmeta_flags(header: &mut [u8], flags: u32) -> (r: Result<(), VbmetaError>)
    ensures
        r == patch_flags_result(old(header)@),
        r is Ok ==> final(header)@ == flags_patched(old(header)@, flags),
        r is Err ==> final(header)@ == old(header)@,
{
    if header.len() < 124 {
        return Err(VbmetaError::HeaderTooSmall(header.len()));
    }
    if !holds4(header, 0, 0x41, 0x56, 0x42, 0x30) {
        return Err(VbmetaError::MissingMagic);
    }
    header[120] = (flags / 0x100_0000) as u8;
    header[121] = ((flags / 0x1_0000) % 256) as u8;
    header[122] = ((flags / 0x100) % 256) as u8;
    header[123] = (flags % 256) as u8;
    assert(header@ =~= flags_patched(old(header)@, flags));
    Ok(())
}

/// The footer's `vbmeta_offset` field: big-endian u64 at footer offset 20,
/// taken as a machine-size offset.
pub open spec fn footer_offset(d: Seq<u8>) -> usize {
    be_value(d.subrange(d.len() - 64 + 20, d.len() - 64 + 28)) as u64 as usize
}

/// Where the vbmeta header sits: at 0, or where an `AVBf` footer at the
/// end of the image points.
pub open spec fn vbmeta_offset(d: Seq<u8>) -> Result<usize, VbmetaError> {
    if holds_at(d, 0, avb0()) {
        Ok(0)
    } else if d.len() >= 64 && holds_at(d, d.len() - 64, avbf()) {
        let off = footer_offset(d);
        if holds_at(d, off as int, avb0()) {
            Ok(off)
        } else {
            Err(VbmetaError::FooterOffsetOutOfRange)
        }
    } else {
        Err(VbmetaError::NotVbmeta)
    }
}

/// Finds the vbmeta header: at offset 0, or via the AVB footer at EOF.
pub fn locate_vbmeta_offset(data: &[u8]) -> (r: Result<usize, VbmetaError>)
    ensures
        r == vbmeta_offset(data@),
{
    let len = data.len();
    if len >= 4 && holds4(data, 0, 0x41, 0x56, 0x42, 0x30) {
        return Ok(0);
    }
    if len >= 64 && holds4(data, len - 64, 0x41, 0x56, 0x42, 0x66) {
        let raw = read_be(data, len - 64 + 20, 8);
        proof {
            lemma_be_value_bound(data@.subrange(len - 64 + 20, len - 64 + 28));
            lemma_pow256_small();
        }
        let offset = raw as usize;
        if offset <= len && len - offset >= 4 && holds4(data, offset, 0x41, 0x56, 0x42, 0x30) {
            return Ok(offset);
        }
        return Err(VbmetaError::FooterOffsetOutOfRange);
    }
    Err(VbmetaError::NotVbmeta)
}

/// Outcome of patching a whole image.
pub open spec fn patch_image_result(d: Seq<u8>) -> Result<(), VbmetaError> {
    match vbmeta_offset(d) {
        Err(e) => Err(e),
        Ok(off) => if off + 256 > d.len() { Err(VbmetaError::HeaderPastEnd) } else { Ok(()) },
    }
}

/// The image with both verity bits set in the flags word of its header:
/// the 256 header bytes at the located offset are patched, the rest kept.
pub open spec fn image_patched(d: Seq<u8>) -> Seq<u8> {
    let off = vbmeta_offset(d)->Ok_0 as int;
    d.subrange(0, off) + flags_patched(d.subrange(off, off + 256), AVB_VBMETA_FLAGS_DISABLE_ALL)
        + d.subrange(off + 256, d.len() as int)
}

/// Disables hashtree and verification in a whole vbmeta image (header at 0
/// or located through the AVBf footer), in place.
pub fn patch_vbmeta_image(data: &mut Vec<u8>) -> (r: Result<(), VbmetaError>)
    ensures
        r == patch_image_result(old(data)@),
        r is Ok ==> final(data)@ == image_patched(old(data)@),
        r is Err ==> final(data)@ == old(data)@,
{
    let offset = locate_vbmeta_offset(data.as_slice())?;
    if offset > data.len() || data.len() - offset < 256 {
        return Err(VbmetaError::HeaderPastEnd);
    }
    let ghost d0 = data@;
    let flags = AVB_VBMETA_FLAGS_DISABLE_ALL;
    let at = offset + 120;
    data.set(at, (flags / 0x100_0000) as u8);
    data.set(at + 1, ((flags / 0x1_0000) % 256) as u8);
    data.set(at + 2, ((flags / 0x100) % 256) as u8);
    data.set(at + 3, (flags % 256) as u8);
    assert(data@ =~= d0.subrange(0, offset as int)
        + flags_patched(d0.subrange(offset as int, offset + 256), flags)
        + d0.subrange(offset + 256, d0.len() as int));
    Ok(())
}

/// A patched header reads back the flags that were written, keeps its
/// length and its magic, and patching it again with other flags is the
/// same as patching the unpatched header with those.
pub proof fn lemma_flags_read_back(h: Seq<u8>, flags: u32, again: u32)
    requires
        patch_flags_result(h) is Ok,
    ensures
        flags_patched(h, flags).len() == h.len(),
        be_value(flags_patched(h, flags).subrange(120, 124)) == flags,
        patch_flags_result(flags_patched(h, flags)) is Ok,
        flags_patched(flags_patched(h, flags), again) == flags_patched(h, again),
{
    let p = flags_patched(h, flags);
    lemma_be_bytes4(flags);
    lemma_be_bytes4(again);
    assert(p.subrange(120, 124) =~= be_bytes4(flags));
    assert(p.subrange(0, 4) =~= h.subrange(0, 4));
    assert(flags_patched(p, again) =~= flags_patched(h, again));
}

/// Patching a whole image keeps where its header is found, leaves the
/// flags word reading both verity bits, and a second patch changes
/// nothing.
pub proof fn lemma_image_patch_stable(d: Seq<u8>)
    requires
        patch_image_result(d) is Ok,
    ensures
        vbmeta_offset(image_patched(d)) == vbmeta_offset(d),
        ({
            let off = vbmeta_offset(d)->Ok_0 as int;
            be_value(image_patched(d).subrange(off + 120, off + 124)) == AVB_VBMETA_FLAGS_DISABLE_ALL
        }),
        patch_image_result(image_patched(d)) is Ok,
        image_patched(image_patched(d)) == image_patched(d),
{
    let off = vbmeta_offset(d)->Ok_0 as int;
    let p = image_patched(d);
    let flags = AVB_VBMETA_FLAGS_DISABLE_ALL;
    lemma_be_bytes4(flags);
    assert(p.len() == d.len());
    assert(forall|i: int| 0 <= i < d.len() && !(off + 120 <= i < off + 124) ==> p[i] == d[i]);
    assert(p.subrange(off + 120, off + 124) =~= be_bytes4(flags));
    assert(p.subrange(off, off + 4) =~= d.subrange(off, off + 4));
    if off == 0 {
        assert(p.subrange(0, 4) =~= d.subrange(0, 4));
    } else {
        assert(!holds_at(d, 0, avb0()));
        assert(p.subrange(0, 4) =~= d.subrange(0, 4)) by {
            if d.len() >= 4 {
                assert forall|i: int| 0 <= i < 4 implies p.subrange(0, 4)[i] == d.subrange(0, 4)[i] by {
                    assert(p[i] == d[i]);
                }
            }
        }
        assert(off + 256 <= d.len());
        let e = d.len() - 64;
        assert(p.subrange(e, e + 4) =~= d.subrange(e, e + 4));
        assert(p.subrange(e + 20, e + 28) =~= d.subrange(e + 20, e + 28));
        assert(footer_offset(p) == footer_offset(d));
    }
    assert(image_patched(p) =~= p);
}

} // verus!
