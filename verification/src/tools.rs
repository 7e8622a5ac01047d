//! The host tools the kitchen drives, and identifying a file by its header
//! signature rather than its extension: firmware breaks extension
//! conventions constantly.
use vstd::prelude::*;
use crate::bytes::{be_value, le_value, read_be32, read_le32};
use crate::text::same_text;

verus! {

/// A tool and whether it is installed.
#[derive(Debug, Clone)]
pub struct ToolInfo {
    pub name: String,
    pub purpose: String,
    pub installed: bool,
    pub hint: String,
}

/// The tools, what they are for, and where to get them.
pub open spec fn tool_table() -> Seq<(Seq<char>, Seq<char>, Seq<char>)> {
    seq![
        ("magiskboot"@, "boot unpack/repack, Magisk patching, Samsung disarm"@, "AUR: magiskboot / magiskboot-bin"@),
        ("unzip"@, "firmware archive extraction"@, "pacman: unzip"@),
        ("7z"@, "ext4 extraction, 7z archives"@, "pacman: 7zip"@),
        ("tar"@, "tar/tar.md5 archives"@, "pacman: tar"@),
        ("lz4"@, "Samsung .lz4 images"@, "pacman: lz4"@),
        ("brotli"@, "dat.br and payload brotli blobs"@, "pacman: brotli"@),
        ("simg2img"@, "sparse to raw images"@, "pacman: android-tools"@),
        ("img2simg"@, "raw to sparse images"@, "pacman: android-tools"@),
        ("lpmake"@, "super.img building"@, "pacman: android-tools"@),
        ("lpdump"@, "super layout readout (group name, slots)"@, "pacman: android-tools"@),
        ("e2fsdroid"@, "SELinux contexts + fs_config on ext4 build"@, "pacman: android-tools"@),
        ("mke2fs"@, "ext4 image creation"@, "pacman: e2fsprogs"@),
        ("e2fsck"@, "ext4 build verification"@, "pacman: e2fsprogs"@),
        ("debugfs"@, "ext4 inspection and repair"@, "pacman: e2fsprogs"@),
        ("mkfs.f2fs"@, "F2FS image creation"@, "pacman: f2fs-tools"@),
        ("sload.f2fs"@, "F2FS population with contexts/fs_config"@, "pacman: f2fs-tools"@),
        ("mkfs.erofs"@, "EROFS image creation"@, "pacman: erofs-utils"@),
        ("fsck.erofs"@, "EROFS extraction and verification"@, "pacman: erofs-utils"@),
        ("baksmali"@, "deodexing"@, "AUR: android-apktool or smali"@),
        ("apktool"@, "APK decompile/recompile"@, "AUR: android-apktool (needs java)"@),
        ("sefcontext_decompile"@, "file_contexts.bin decompilation"@,
            "not packaged on Arch - decompile manually or supply file_contexts.txt"@),
        ("xz"@, "payload.bin xz blobs"@, "pacman: xz"@),
        ("bzip2"@, "payload.bin bzip2 blobs"@, "pacman: bzip2"@),
        ("zstd"@, "payload.bin zstd blobs"@, "pacman: zstd"@),
        ("gzip"@, "kernel embedded-config (IKCONFIG) decompression"@, "pacman: gzip"@),
    ]
}

pub open spec fn table_view(v: Seq<(&str, &str, &str)>) -> Seq<(Seq<char>, Seq<char>, Seq<char>)> {
    v.map_values(|t: (&str, &str, &str)| (t.0@, t.1@, t.2@))
}

/// The tools the kitchen checks for: (name, purpose, install hint).
pub fn tools() -> (r: Vec<(&'static str, &'static str, &'static str)>)
    ensures
        table_view(r@) == tool_table(),
{
    let mut v: Vec<(&'static str, &'static str, &'static str)> = Vec::new();
    v.push(("magiskboot", "boot unpack/repack, Magisk patching, Samsung disarm", "AUR: magiskboot / magiskboot-bin"));
    v.push(("unzip", "firmware archive extraction", "pacman: unzip"));
    v.push(("7z", "ext4 extraction, 7z archives", "pacman: 7zip"));
    v.push(("tar", "tar/tar.md5 archives", "pacman: tar"));
    v.push(("lz4", "Samsung .lz4 images", "pacman: lz4"));
    v.push(("brotli", "dat.br and payload brotli blobs", "pacman: brotli"));
    v.push(("simg2img", "sparse to raw images", "pacman: android-tools"));
    v.push(("img2simg", "raw to sparse images", "pacman: android-tools"));
    v.push(("lpmake", "super.img building", "pacman: android-tools"));
    v.push(("lpdump", "super layout readout (group name, slots)", "pacman: android-tools"));
    v.push(("e2fsdroid", "SELinux contexts + fs_config on ext4 build", "pacman: android-tools"));
    v.push(("mke2fs", "ext4 image creation", "pacman: e2fsprogs"));
    v.push(("e2fsck", "ext4 build verification", "pacman: e2fsprogs"));
    v.push(("debugfs", "ext4 inspection and repair", "pacman: e2fsprogs"));
    v.push(("mkfs.f2fs", "F2FS image creation", "pacman: f2fs-tools"));
    v.push(("sload.f2fs", "F2FS population with contexts/fs_config", "pacman: f2fs-tools"));
    v.push(("mkfs.erofs", "EROFS image creation", "pacman: erofs-utils"));
    v.push(("fsck.erofs", "EROFS extraction and verification", "pacman: erofs-utils"));
    v.push(("baksmali", "deodexing", "AUR: android-apktool or smali"));
    v.push(("apktool", "APK decompile/recompile", "AUR: android-apktool (needs java)"));
    v.push(("sefcontext_decompile", "file_contexts.bin decompilation",
        "not packaged on Arch - decompile manually or supply file_contexts.txt"));
    v.push(("xz", "payload.bin xz blobs", "pacman: xz"));
    v.push(("bzip2", "payload.bin bzip2 blobs", "pacman: bzip2"));
    v.push(("zstd", "payload.bin zstd blobs", "pacman: zstd"));
    v.push(("gzip", "kernel embedded-config (IKCONFIG) decompression", "pacman: gzip"));
    assert(table_view(v@) =~= tool_table());
    v
}

/// The report on the tools, given for each whether it is on PATH.
pub fn tools_report(installed: &[bool]) -> (r: Vec<ToolInfo>)
    requires
        installed@.len() == tool_table().len(),
    ensures
        r@.len() == tool_table().len(),
        forall|i: int| 0 <= i < r@.len() ==> {
            &&& (#[trigger] r@[i]).name@ == tool_table()[i].0
            &&& r@[i].purpose@ == tool_table()[i].1
            &&& r@[i].hint@ == tool_table()[i].2
            &&& r@[i].installed == installed@[i]
        },
{
    let t = tools();
    let mut out: Vec<ToolInfo> = Vec::new();
    let mut i: usize = 0;
    while i < t.len()
        invariant
            i <= t@.len(),
            table_view(t@) == tool_table(),
            installed@.len() == t@.len(),
            out@.len() == i,
            forall|k: int| 0 <= k < i ==> {
                &&& (#[trigger] out@[k]).name@ == tool_table()[k].0
                &&& out@[k].purpose@ == tool_table()[k].1
                &&& out@[k].hint@ == tool_table()[k].2
                &&& out@[k].installed == installed@[k]
            },
        decreases t@.len() - i,
    {
        let (name, purpose, hint) = t[i];
        assert(table_view(t@)[i as int] == (name@, purpose@, hint@));
        out.push(ToolInfo {
            name: name.to_owned(),
            purpose: purpose.to_owned(),
            installed: installed[i],
            hint: hint.to_owned(),
        });
        i = i + 1;
    }
    out
}

/// What a file was identified as.
#[derive(Debug, Clone)]
pub struct ProbeResult {
    /// Machine-readable kind, used to route actions.
    pub kind: String,
    /// Description with a suggested next step.
    pub detail: String,
}

/// Big-endian u32 of the first four bytes.
pub fn u32_be(b: &[u8]) -> (v: u32)
    requires
        b@.len() >= 4,
    ensures
        v == be_value(b@.subrange(0, 4)),
{
    read_be32(b, 0)
}

/// Little-endian u32 of the first four bytes.
pub fn u32_le(b: &[u8]) -> (v: u32)
    requires
        b@.len() >= 4,
    ensures
        v == le_value(b@.subrange(0, 4)),
{
    read_le32(b, 0)
}

/// `m` lies in `h` at `at`.
pub open spec fn sig_at(h: Seq<u8>, at: int, m: Seq<u8>) -> bool {
    at + m.len() <= h.len() && h.subrange(at, at + m.len()) == m
}

/// The little-endian u32 at `at`, when the header reaches that far.
pub open spec fn le32_at(h: Seq<u8>, at: int, v: nat) -> bool {
    at + 4 <= h.len() && le_value(h.subrange(at, at + 4)) == v
}

/// The kind of a file from the first bytes of it (at most 4096), by
/// signature, first match in this order.
pub open spec fn kind_of(h: Seq<u8>) -> Seq<char> {
    match early_kind(h) {
        Some(k) => k,
        None => late_kind(h),
    }
}

/// The signatures tested before the tar probe.
pub open spec fn early_kind(h: Seq<u8>) -> Option<Seq<char>> {
    let n = h.len();
    if sig_at(h, 0, seq![0x41u8, 0x4e, 0x44, 0x52, 0x4f, 0x49, 0x44, 0x21]) { Some("boot"@) }
    else if sig_at(h, 0, seq![0x56u8, 0x4e, 0x44, 0x52, 0x42, 0x4f, 0x4f, 0x54]) { Some("vendor_boot"@) }
    else if n >= 4 && (sig_at(h, 0, seq![0x41u8, 0x56, 0x42, 0x30])
        || (n >= 64 && sig_at(h, n - 64, seq![0x41u8, 0x56, 0x42, 0x66]))) { Some("vbmeta"@) }
    else if sig_at(h, 0, seq![0x43u8, 0x72, 0x41, 0x55]) { Some("payload"@) }
    else if le32_at(h, 0, 0xed26ff3a) { Some("sparse"@) }
    else if le32_at(h, 1080, 0xef53) { Some("ext"@) }
    else if sig_at(h, 1024, seq![0x45u8, 0x52, 0x4f, 0x46, 0x53, 0x00]) { Some("erofs"@) }
    else if le32_at(h, 1024, 0xf2f52010) { Some("f2fs"@) }
    else if n >= 4 && be_value(h.subrange(0, 4)) == 0xd7b7ab1e { Some("dtbo"@) }
    else { None }
}

/// The tar probe and the signatures after it.
pub open spec fn late_kind(h: Seq<u8>) -> Seq<char> {
    if sig_at(h, 257, seq![0x75u8, 0x73, 0x74, 0x61, 0x72]) { "tar"@ }
    else if sig_at(h, 0, seq![0x50u8, 0x4b, 0x03, 0x04]) { "zip"@ }
    else if sig_at(h, 0, seq![0x1fu8, 0x8b]) { "gzip"@ }
    else if sig_at(h, 0, seq![0xfdu8, 0x37, 0x7a, 0x58, 0x5a, 0x00]) { "xz"@ }
    else if sig_at(h, 0, seq![0x28u8, 0xb5, 0x2f, 0xfd]) { "zstd"@ }
    else if sig_at(h, 0, seq![0x42u8, 0x5a, 0x68]) { "bzip2"@ }
    else if sig_at(h, 0, seq![0x04u8, 0x22, 0x4d, 0x18]) { "lz4"@ }
    else if sig_at(h, 0, seq![0x02u8, 0x21, 0x4c, 0x18]) { "lz4-legacy"@ }
    else { "unknown"@ }
}

/// The header can be probed: the tar probe reads five bytes at 257, so a
/// header of 258 to 261 bytes that no earlier signature identifies cannot.
pub open spec fn probe_defined(h: Seq<u8>) -> bool {
    early_kind(h) is Some || !(258 <= h.len() < 262)
}

fn sig(h: &[u8], at: usize, m: &[u8]) -> (r: bool)
    ensures
        r == sig_at(h@, at as int, m@),
{
    if at > h.len() || m.len() > h.len() - at {
        return false;
    }
    let mut i: usize = 0;
    while i < m.len()
        invariant
            i <= m@.len(),
            at + m.len() <= h.len(),
            forall|k: int| 0 <= k < i ==> h@[at + k] == m@[k],
        decreases m@.len() - i,
    {
        if h[at + i] != m[i] {
            assert(h@.subrange(at as int, at + m@.len())[i as int] != m@[i as int]);
            return false;
        }
        i = i + 1;
    }
    assert(h@.subrange(at as int, at + m@.len()) =~= m@);
    true
}

fn le32_is(h: &[u8], at: usize, v: u32) -> (r: bool)
    ensures
        r == le32_at(h@, at as int, v as nat),
{
    if at > h.len() || h.len() - at < 4 {
        return false;
    }
    read_le32(h, at) == v
}

/// The kind of a file by the signatures tested before the tar probe.
pub fn probe_early(h: &[u8]) -> (r: Option<&'static str>)
    ensures
        match (r, early_kind(h@)) {
            (Some(a), Some(b)) => a@ == b,
            (None, None) => true,
            _ => false,
        },
{
    let n = h.len();
    let boot: [u8; 8] = [0x41, 0x4e, 0x44, 0x52, 0x4f, 0x49, 0x44, 0x21];
    let vboot: [u8; 8] = [0x56, 0x4e, 0x44, 0x52, 0x42, 0x4f, 0x4f, 0x54];
    let avb0: [u8; 4] = [0x41, 0x56, 0x42, 0x30];
    let avbf: [u8; 4] = [0x41, 0x56, 0x42, 0x66];
    let crau: [u8; 4] = [0x43, 0x72, 0x41, 0x55];
    let erofs: [u8; 6] = [0x45, 0x52, 0x4f, 0x46, 0x53, 0x00];
    if sig(h, 0, boot.as_slice()) {
        Some("boot")
    } else if sig(h, 0, vboot.as_slice()) {
        Some("vendor_boot")
    } else if n >= 4 && (sig(h, 0, avb0.as_slice()) || (n >= 64 && sig(h, n - 64, avbf.as_slice()))) {
        Some("vbmeta")
    } else if sig(h, 0, crau.as_slice()) {
        Some("payload")
    } else if le32_is(h, 0, 0xed26ff3a) {
        Some("sparse")
    } else if le32_is(h, 1080, 0xef53) {
        Some("ext")
    } else if sig(h, 1024, erofs.as_slice()) {
        Some("erofs")
    } else if le32_is(h, 1024, 0xf2f52010) {
        Some("f2fs")
    } else if n >= 4 && read_be32(h, 0) == 0xd7b7ab1e {
        Some("dtbo")
    } else {
        None
    }
}

fn probe_late(h: &[u8]) -> (r: &'static str)
    requires
        !(258 <= h@.len() < 262),
    ensures
        r@ == late_kind(h@),
{
    let ustar: [u8; 5] = [0x75, 0x73, 0x74, 0x61, 0x72];
    let zip: [u8; 4] = [0x50, 0x4b, 0x03, 0x04];
    let gz: [u8; 2] = [0x1f, 0x8b];
    let xz: [u8; 6] = [0xfd, 0x37, 0x7a, 0x58, 0x5a, 0x00];
    let zst: [u8; 4] = [0x28, 0xb5, 0x2f, 0xfd];
    let bz: [u8; 3] = [0x42, 0x5a, 0x68];
    let lz4: [u8; 4] = [0x04, 0x22, 0x4d, 0x18];
    let lz4l: [u8; 4] = [0x02, 0x21, 0x4c, 0x18];
    if sig(h, 257, ustar.as_slice()) {
        "tar"
    } else if sig(h, 0, zip.as_slice()) {
        "zip"
    } else if sig(h, 0, gz.as_slice()) {
        "gzip"
    } else if sig(h, 0, xz.as_slice()) {
        "xz"
    } else if sig(h, 0, zst.as_slice()) {
        "zstd"
    } else if sig(h, 0, bz.as_slice()) {
        "bzip2"
    } else if sig(h, 0, lz4.as_slice()) {
        "lz4"
    } else if sig(h, 0, lz4l.as_slice()) {
        "lz4-legacy"
    } else {
        "unknown"
    }
}

/// Identifies a file by the first bytes of it.
pub fn probe_kind(h: &[u8]) -> (r: &'static str)
    requires
        probe_defined(h@),
    ensures
        r@ == kind_of(h@),
{
    match probe_early(h) {
        Some(k) => k,
        None => probe_late(h),
    }
}

/// What a kind of file is and what to do with it.
pub open spec fn detail_of(kind: Seq<char>) -> Seq<char> {
    if kind == "boot"@ { "Android boot image - unpack/repack or patch with Magisk in the Magisk tab"@ }
    else if kind == "vendor_boot"@ { "vendor_boot image - same boot tools apply"@ }
    else if kind == "vbmeta"@ { "vbmeta - disable verity flags in the Magisk tab"@ }
    else if kind == "payload"@ { "OTA payload.bin - extract partitions in the Partitions tab"@ }
    else if kind == "sparse"@ { "Android sparse image - convert to raw first"@ }
    else if kind == "ext"@ { "ext4 filesystem image - extract with 7z or build from a directory"@ }
    else if kind == "erofs"@ { "EROFS image - extract with fsck.erofs or build from a directory"@ }
    else if kind == "f2fs"@ { "F2FS image - build supported; extraction needs a mount"@ }
    else if kind == "dtbo"@ { "device tree overlay table - unpack/pack into individual dtb blobs"@ }
    else if kind == "tar"@ { "tar archive (Odin or firmware) - unpack in the Unpacker"@ }
    else if kind == "zip"@ { "zip archive (firmware or OTA) - unpack in the Unpacker; may contain payload.bin"@ }
    else if kind == "gzip"@ || kind == "xz"@ || kind == "zstd"@ || kind == "bzip2"@ || kind == "lz4"@
        || kind == "lz4-legacy"@ { "compressed stream - decompress before use"@ }
    else { "unrecognized signature"@ }
}

/// Describes a kind of file.
pub fn probe_detail(kind: &str) -> (r: &'static str)
    ensures
        r@ == detail_of(kind@),
{
    let k = crate::text::chars_of(kind);
    let k = k.as_slice();
    use_text(k, kind)
}

fn use_text(k: &[char], kind: &str) -> (r: &'static str)
    requires
        k@ == kind@,
    ensures
        r@ == detail_of(kind@),
{
    if same_text(k, "boot") { "Android boot image - unpack/repack or patch with Magisk in the Magisk tab" }
    else if same_text(k, "vendor_boot") { "vendor_boot image - same boot tools apply" }
    else if same_text(k, "vbmeta") { "vbmeta - disable verity flags in the Magisk tab" }
    else if same_text(k, "payload") { "OTA payload.bin - extract partitions in the Partitions tab" }
    else if same_text(k, "sparse") { "Android sparse image - convert to raw first" }
    else if same_text(k, "ext") { "ext4 filesystem image - extract with 7z or build from a directory" }
    else if same_text(k, "erofs") { "EROFS image - extract with fsck.erofs or build from a directory" }
    else if same_text(k, "f2fs") { "F2FS image - build supported; extraction needs a mount" }
    else if same_text(k, "dtbo") { "device tree overlay table - unpack/pack into individual dtb blobs" }
    else if same_text(k, "tar") { "tar archive (Odin or firmware) - unpack in the Unpacker" }
    else if same_text(k, "zip") { "zip archive (firmware or OTA) - unpack in the Unpacker; may contain payload.bin" }
    else if same_text(k, "gzip") || same_text(k, "xz") || same_text(k, "zstd") || same_text(k, "bzip2")
        || same_text(k, "lz4") || same_text(k, "lz4-legacy") { "compressed stream - decompress before use" }
    else { "unrecognized signature" }
}

/// Identifies a file from its first bytes (at most 4096 of them).
pub fn probe_header(h: &[u8]) -> (r: ProbeResult)
    requires
        probe_defined(h@),
    ensures
        r.kind@ == kind_of(h@),
        r.detail@ == detail_of(kind_of(h@)),
{
    let kind = probe_kind(h);
    let detail = probe_detail(kind);
    ProbeResult { kind: kind.to_owned(), detail: detail.to_owned() }
}

/// A file name of the uber-apk-signer jar (any version).
pub open spec fn signer_jar_name(name: Seq<char>) -> bool {
    crate::text::starts_with(name, "uber-apk-signer"@) && crate::text::ends_with(name, ".jar"@)
}

/// Whether a file is an uber-apk-signer jar, by its name.
pub fn is_signer_jar(name: &str) -> (r: bool)
    ensures
        r == signer_jar_name(name@),
{
    let n = crate::text::chars_of(name);
    let p = crate::text::chars_of("uber-apk-signer");
    let s = crate::text::chars_of(".jar");
    crate::text::has_prefix(n.as_slice(), p.as_slice()) && crate::text::has_suffix(n.as_slice(), s.as_slice())
}

} // verus!
