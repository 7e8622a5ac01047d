//! Building images: sizing, the shell commands that create ext4 and F2FS
//! images, the lpmake arguments of a super image laid out as the stock one
//! declares, and the MD5 that Odin checks at the end of a .tar.md5.
use vstd::prelude::*;
use crate::text::{chars_of, string_of, lines, lines_of, trim, trimmed, chars_seq, starts_with, has_prefix,
    strip_all_suffix, without_suffixes, parse_unsigned, parse_u64, push_text, push_chars, dec_text, dec_chars,
    words, split_words, texts, ends_with, has_suffix, hex_char_value, same_text};

verus! {

// ---- quoting ----

/// `s` with each single quote written as `'\''`.
pub open spec fn quote_body(s: Seq<char>) -> Seq<char>
    decreases s.len(),
{
    if s.len() == 0 {
        seq![]
    } else {
        quote_body(s.drop_last()) + if s.last() == '\'' { seq!['\'', '\\', '\'', '\''] } else { seq![s.last()] }
    }
}

/// Quotes a word for `sh`: inside single quotes, each single quote closed,
/// escaped and reopened.
pub fn shell_quote(s: &str) -> (r: String)
    ensures
        r@ == seq!['\''] + quote_body(s@) + seq!['\''],
{
    let cs = chars_of(s);
    let mut out: Vec<char> = Vec::new();
    out.push('\'');
    let mut i: usize = 0;
    while i < cs.len()
        invariant
            i <= cs@.len(),
            out@ == seq!['\''] + quote_body(cs@.take(i as int)),
        decreases cs@.len() - i,
    {
        assert(cs@.take(i + 1).drop_last() =~= cs@.take(i as int));
        assert(cs@.take(i + 1).last() == cs@[i as int]);
        if cs[i] == '\'' {
            out.push('\'');
            out.push('\\');
            out.push('\'');
            out.push('\'');
        } else {
            out.push(cs[i]);
        }
        assert(out@ =~= seq!['\''] + quote_body(cs@.take(i + 1)));
        i = i + 1;
    }
    out.push('\'');
    assert(cs@.take(cs@.len() as int) =~= cs@);
    string_of(out.as_slice())
}

// ---- sizing ----

/// Mebibytes a directory's files take, rounded up.
pub fn size_mb(total_bytes: u64) -> (r: u64)
    ensures
        r as int == (total_bytes as int + 1048575) / 1048576,
{
    let q = total_bytes / 1048576;
    if total_bytes % 1048576 == 0 { q } else { q + 1 }
}

/// Image size in MiB for a tree of `mb` MiB: a quarter more, at least `min`.
pub fn image_mb(mb: u64, min: u64) -> (r: u128)
    ensures
        r == if mb as int * 125 / 100 > min { mb as int * 125 / 100 } else { min as int },
{
    let s = (mb as u128) * 125 / 100;
    if s > min as u128 { s } else { min as u128 }
}

/// Inode count for a tree of `entries` entries: 15% more, at least 1024.
pub fn inode_count(entries: u64) -> (r: u128)
    ensures
        r == if entries as int * 115 / 100 > 1024 { entries as int * 115 / 100 } else { 1024 },
{
    let s = (entries as u128) * 115 / 100;
    if s > 1024 { s } else { 1024 }
}

fn dec128(n: u128) -> (r: Vec<char>)
    ensures
        r@ == dec_text(n as nat),
    decreases n,
{
    let d = (n % 10) as u64;
    let c = crate::text::dec_chars(d);
    proof { reveal_with_fuel(dec_text, 2); }
    if n < 10 {
        c
    } else {
        let mut v = dec128(n / 10);
        push_chars(&mut v, c.as_slice());
        v
    }
}

/// The mount point of a tree named `part`: a slash and the name without
/// its trailing "_new"s.
pub fn mount_point_of(part: &str) -> (r: String)
    ensures
        r@ == seq!['/'] + strip_all_suffix(part@, "_new"@),
{
    let cs = chars_of(part);
    let suf = chars_of("_new");
    let base = without_suffixes(cs.as_slice(), suf.as_slice());
    let mut out: Vec<char> = Vec::new();
    out.push('/');
    push_chars(&mut out, base.as_slice());
    string_of(out.as_slice())
}

/// The `sh -c` command that creates and populates an ext4 image.
pub open spec fn ext4_command_of(size_mb: nat, out: Seq<char>, inodes: nat, dir: Seq<char>) -> Seq<char> {
    let q = seq!['\''] + quote_body(out) + seq!['\''];
    let d = seq!['\''] + quote_body(dir) + seq!['\''];
    "truncate -s "@ + dec_text(size_mb) + "M "@ + q + " && mkfs.ext4 -F -b 4096 -I 256 -N "@ + dec_text(inodes)
        + " -O ^has_journal,^resize_inode,^metadata_csum -d "@ + d + " "@ + q
}

/// Builds the ext4 creation command.
pub fn ext4_command(size_mb: u128, out: &str, inodes: u128, dir: &str) -> (r: String)
    ensures
        r@ == ext4_command_of(size_mb as nat, out@, inodes as nat, dir@),
{
    let q = shell_quote(out);
    let d = shell_quote(dir);
    let qc = chars_of(q.as_str());
    let dc = chars_of(d.as_str());
    let mut buf: Vec<char> = Vec::new();
    push_text(&mut buf, "truncate -s ");
    let s = dec128(size_mb);
    push_chars(&mut buf, s.as_slice());
    push_text(&mut buf, "M ");
    push_chars(&mut buf, qc.as_slice());
    push_text(&mut buf, " && mkfs.ext4 -F -b 4096 -I 256 -N ");
    let n = dec128(inodes);
    push_chars(&mut buf, n.as_slice());
    push_text(&mut buf, " -O ^has_journal,^resize_inode,^metadata_csum -d ");
    push_chars(&mut buf, dc.as_slice());
    push_text(&mut buf, " ");
    push_chars(&mut buf, qc.as_slice());
    string_of(buf.as_slice())
}

/// The `sh -c` command that creates an empty F2FS image.
pub open spec fn f2fs_command_of(size_mb: nat, out: Seq<char>) -> Seq<char> {
    let q = seq!['\''] + quote_body(out) + seq!['\''];
    "truncate -s "@ + dec_text(size_mb) + "M "@ + q + " && mkfs.f2fs -f "@ + q
}

/// Builds the F2FS creation command.
pub fn f2fs_command(size_mb: u128, out: &str) -> (r: String)
    ensures
        r@ == f2fs_command_of(size_mb as nat, out@),
{
    let q = shell_quote(out);
    let qc = chars_of(q.as_str());
    let mut buf: Vec<char> = Vec::new();
    push_text(&mut buf, "truncate -s ");
    let s = dec128(size_mb);
    push_chars(&mut buf, s.as_slice());
    push_text(&mut buf, "M ");
    push_chars(&mut buf, qc.as_slice());
    push_text(&mut buf, " && mkfs.f2fs -f ");
    push_chars(&mut buf, qc.as_slice());
    string_of(buf.as_slice())
}

/// The EROFS compressor to ask for: lz4 or lz4hc, else none.
pub fn erofs_compressor(algo: Option<&str>) -> (r: Option<String>)
    ensures
        match algo {
            Some(a) => if a@ == "lz4"@ || a@ == "lz4hc"@ { r matches Some(s) && s@ == a@ } else { r is None },
            None => r is None,
        },
{
    match algo {
        Some(a) => {
            let c = chars_of(a);
            if same_text(c.as_slice(), "lz4") || same_text(c.as_slice(), "lz4hc") {
                Some(a.to_owned())
            } else {
                None
            }
        },
        None => None,
    }
}

/// The image formats a build knows.
#[derive(Debug, Clone, Copy, PartialEq, Eq, Structural)]
pub enum ImageFormat {
    Ext4,
    F2fs,
    Erofs,
}

/// Why a build was refused.
#[derive(Debug, Clone, PartialEq, Eq)]
pub enum BuildError {
    /// A format this tool does not build; the format.
    UnsupportedFormat(String),
}

/// Reads the requested image format.
pub fn image_format(format: &str) -> (r: Result<ImageFormat, BuildError>)
    ensures
        format@ == "ext4"@ ==> r == Ok::<ImageFormat, BuildError>(ImageFormat::Ext4),
        format@ == "f2fs"@ ==> r == Ok::<ImageFormat, BuildError>(ImageFormat::F2fs),
        format@ == "erofs"@ ==> r == Ok::<ImageFormat, BuildError>(ImageFormat::Erofs),
        !(format@ == "ext4"@ || format@ == "f2fs"@ || format@ == "erofs"@)
            ==> (r matches Err(BuildError::UnsupportedFormat(f)) && f@ == format@),
{
    let c = chars_of(format);
    proof {
        reveal_strlit("ext4");
        reveal_strlit("f2fs");
        reveal_strlit("erofs");
        assert("ext4"@[0] != "f2fs"@[0]);
    }
    if same_text(c.as_slice(), "ext4") {
        Ok(ImageFormat::Ext4)
    } else if same_text(c.as_slice(), "f2fs") {
        Ok(ImageFormat::F2fs)
    } else if same_text(c.as_slice(), "erofs") {
        Ok(ImageFormat::Erofs)
    } else {
        Err(BuildError::UnsupportedFormat(format.to_owned()))
    }
}

// ---- super.img layout ----

/// The text before the first ':' or ' '.
pub open spec fn first_piece(s: Seq<char>) -> Seq<char>
    decreases s.len(),
{
    if s.len() == 0 || s[0] == ':' || s[0] == ' ' { seq![] } else { seq![s[0]] + first_piece(s.drop_first()) }
}

/// The group name and metadata slot count `lpdump` reports: the first
/// nonempty "Group NAME..." name, and the last "Metadata slot count:" value
/// that reads as a u32.
pub open spec fn lpdump_of(ls: Seq<Seq<char>>) -> (Option<Seq<char>>, Option<u32>)
    decreases ls.len(),
{
    if ls.len() == 0 {
        (None, None)
    } else {
        let (g, s) = lpdump_of(ls.drop_last());
        let l = trim(ls.last());
        let g2 = if starts_with(l, "Group "@) && g is None && first_piece(l.skip(6)).len() > 0 {
            Some(first_piece(l.skip(6)))
        } else {
            g
        };
        let key = "Metadata slot count:"@;
        let s2 = if starts_with(l, key) {
            match crate::text::parse_unsigned(trim(l.skip(key.len() as int)), u32::MAX as nat) {
                Some(n) => Some(n as u32),
                None => s,
            }
        } else {
            s
        };
        (g2, s2)
    }
}

fn first_piece_len(s: &[char]) -> (r: usize)
    ensures
        r <= s@.len(),
        s@.take(r as int) == first_piece(s@),
{
    let mut k: usize = 0;
    assert(s@.skip(0) =~= s@);
    assert(s@.take(0) + first_piece(s@) =~= first_piece(s@));
    while k < s.len() && s[k] != ':' && s[k] != ' '
        invariant
            k <= s@.len(),
            first_piece(s@) == s@.take(k as int) + first_piece(s@.skip(k as int)),
        decreases s@.len() - k,
    {
        assert(s@.skip(k as int).drop_first() =~= s@.skip(k + 1));
        assert(s@.skip(k as int)[0] == s@[k as int]);
        assert(s@.take(k + 1) =~= s@.take(k as int) + seq![s@[k as int]]);
        k = k + 1;
    }
    proof {
        if k < s@.len() { assert(s@.skip(k as int)[0] == s@[k as int]); }
    }
    assert(s@.take(k as int) + Seq::<char>::empty() =~= s@.take(k as int));
    k
}

fn parse_u32_chars(s: &[char]) -> (r: Option<u32>)
    ensures
        match r {
            Some(n) => parse_unsigned(s@, u32::MAX as nat) == Some(n as nat),
            None => parse_unsigned(s@, u32::MAX as nat) is None,
        },
{
    match parse_u64(s) {
        Some(v) => if v <= u32::MAX as u64 { Some(v as u32) } else { None },
        None => {
            proof {
                crate::text::lemma_parse_unsigned_bound(s@, u32::MAX as nat, u64::MAX as nat);
            }
            None
        },
    }
}

/// Reads the super layout from `lpdump` output.
pub fn parse_lpdump(output: &str) -> (r: (Option<String>, Option<u32>))
    ensures
        (match r.0 {
            Some(g) => Some(g@),
            None => None,
        }, r.1) == lpdump_of(lines(output@)),
{
    let cs = chars_of(output);
    let ls = lines_of(cs.as_slice());
    let ghost all = lines(output@);
    let group_key = chars_of("Group ");
    proof { reveal_strlit("Group "); }
    let slot_key = chars_of("Metadata slot count:");
    let mut group: Option<String> = None;
    let mut slots: Option<u32> = None;
    let mut i: usize = 0;
    assert(all.take(0) =~= Seq::<Seq<char>>::empty());
    while i < ls.len()
        invariant
            i <= ls@.len(),
            chars_seq(ls@) == all,
            group_key@ == "Group "@,
            slot_key@ == "Metadata slot count:"@,
            (match group {
                Some(g) => Some(g@),
                None => None,
            }, slots) == lpdump_of(all.take(i as int)),
        decreases ls@.len() - i,
    {
        assert(all.take(i + 1).drop_last() =~= all.take(i as int));
        assert(all.take(i + 1).last() == ls@[i as int]@);
        let l = trimmed(ls[i].as_slice());
        let n = l.len();
        proof { reveal_strlit("Group "); }
        if has_prefix(l.as_slice(), group_key.as_slice()) {
            let rest = &l.as_slice()[group_key.len()..n];
            assert(rest@ =~= l@.skip(6));
            let k = first_piece_len(rest);
            if k > 0 && group.is_none() {
                group = Some(string_of(&rest[0..k]));
                assert(rest@.subrange(0, k as int) =~= rest@.take(k as int));
            }
        }
        if has_prefix(l.as_slice(), slot_key.as_slice()) {
            let rest = &l.as_slice()[slot_key.len()..n];
            assert(rest@ =~= l@.skip(slot_key@.len() as int));
            let t = trimmed(rest);
            match parse_u32_chars(t.as_slice()) {
                Some(v) => { slots = Some(v); },
                None => {},
            }
        }
        i = i + 1;
    }
    assert(all.take(ls@.len() as int) =~= all);
    (group, slots)
}

/// The partitions a super image is built from: the `NAME_new.img` files
/// other than super's, by name.
pub open spec fn new_image_part(file: Seq<char>) -> Option<Seq<char>> {
    if ends_with(file, "_new.img"@) && file.take(file.len() - 8) != "super"@ {
        Some(file.take(file.len() - 8))
    } else {
        None
    }
}

/// The partition a workspace file supplies to a super build, if any.
pub fn super_part_of(file: &str) -> (r: Option<String>)
    ensures
        match (r, new_image_part(file@)) {
            (Some(a), Some(b)) => a@ == b,
            (None, None) => true,
            _ => false,
        },
{
    let cs = chars_of(file);
    let suf = chars_of("_new.img");
    proof { reveal_strlit("_new.img"); }
    if !has_suffix(cs.as_slice(), suf.as_slice()) {
        return None;
    }
    let n = cs.len() - 8;
    let base = &cs.as_slice()[0..n];
    assert(base@ =~= cs@.take(n as int));
    if same_text(base, "super") {
        return None;
    }
    Some(string_of(base))
}

/// The lpmake arguments for partitions (name, image path, size) in one
/// group of `total` bytes.
pub open spec fn lpmake_args_of(
    parts: Seq<(Seq<char>, Seq<char>, u64)>,
    group: Seq<char>,
    slots: u32,
    total: nat,
    output: Seq<char>,
) -> Seq<Seq<char>> {
    seq!["--metadata-size"@, "65536"@, "--metadata-slots"@, dec_text(slots as nat), "--device-size"@, "auto"@,
        "--group"@, group + seq![':'] + dec_text(total)]
        + part_args(parts, group, parts.len() as int)
        + seq!["--output"@, output]
}

pub open spec fn part_args(parts: Seq<(Seq<char>, Seq<char>, u64)>, group: Seq<char>, k: int) -> Seq<Seq<char>>
    decreases k,
{
    if k <= 0 {
        seq![]
    } else {
        let (name, path, size) = parts[k - 1];
        part_args(parts, group, k - 1) + seq![
            "--partition"@,
            name + ":readonly:"@ + dec_text(size as nat) + seq![':'] + group,
            "--image"@,
            name + seq!['='] + path,
        ]
    }
}

pub open spec fn parts_view(v: Seq<(String, String, u64)>) -> Seq<(Seq<char>, Seq<char>, u64)> {
    v.map_values(|p: (String, String, u64)| (p.0@, p.1@, p.2))
}

/// Total bytes of the partition images.
pub open spec fn parts_total(parts: Seq<(Seq<char>, Seq<char>, u64)>) -> nat
    decreases parts.len(),
{
    if parts.len() == 0 { 0 } else { parts_total(parts.drop_last()) + parts.last().2 as nat }
}

/// The lpmake arguments for a super image of these partitions.
pub fn lpmake_args(parts: &[(String, String, u64)], group: &str, slots: u32, output: &str) -> (r: Vec<String>)
    requires
        parts_total(parts_view(parts@)) <= u128::MAX,
    ensures
        texts(r@) == lpmake_args_of(parts_view(parts@), group@, slots, parts_total(parts_view(parts@)), output@),
{
    let ghost pv = parts_view(parts@);
    let mut total: u128 = 0;
    let mut i: usize = 0;
    while i < parts.len()
        invariant
            i <= parts@.len(),
            pv == parts_view(parts@),
            total == parts_total(pv.take(i as int)),
            total <= i * (u64::MAX as int),
        decreases parts@.len() - i,
    {
        assert(pv.take(i + 1).drop_last() =~= pv.take(i as int));
        proof {
            assert((i + 1) * (u64::MAX as int) == i * (u64::MAX as int) + u64::MAX) by (nonlinear_arith);
            assert((i + 1) * (u64::MAX as int) <= (usize::MAX as int) * (u64::MAX as int)) by (nonlinear_arith)
                requires i + 1 <= usize::MAX;
            assert((usize::MAX as int) * (u64::MAX as int) < 0x1_0000_0000_0000_0000 * 0x1_0000_0000_0000_0000) by (nonlinear_arith)
                requires usize::MAX < 0x1_0000_0000_0000_0000;
        }
        total = total + parts[i].2 as u128;
        i = i + 1;
    }
    assert(pv.take(parts@.len() as int) =~= pv);
    let gc = chars_of(group);
    let sc = dec_chars(slots as u64);
    let mut g: Vec<char> = Vec::new();
    push_chars(&mut g, gc.as_slice());
    g.push(':');
    let tc = dec128(total);
    push_chars(&mut g, tc.as_slice());
    let a0 = "--metadata-size".to_owned();
    let a1 = "65536".to_owned();
    let a2 = "--metadata-slots".to_owned();
    let a3 = string_of(sc.as_slice());
    let a4 = "--device-size".to_owned();
    let a5 = "auto".to_owned();
    let a6 = "--group".to_owned();
    let a7 = string_of(g.as_slice());
    assert(a7@ == group@ + seq![':'] + dec_text(total as nat));
    let mut out: Vec<String> = Vec::new();
    out.push(a0);
    out.push(a1);
    out.push(a2);
    out.push(a3);
    out.push(a4);
    out.push(a5);
    out.push(a6);
    out.push(a7);
    let ghost head = texts(out@);
    assert(head =~= seq![a0@, a1@, a2@, a3@, a4@, a5@, a6@, a7@]);
    let mut k: usize = 0;
    while k < parts.len()
        invariant
            k <= parts@.len(),
            pv == parts_view(parts@),
            gc@ == group@,
            texts(out@) == head + part_args(pv, group@, k as int),
        decreases parts@.len() - k,
    {
        let nc = chars_of(parts[k].0.as_str());
        let pc = chars_of(parts[k].1.as_str());
        let zc = dec_chars(parts[k].2);
        let ghost before = texts(out@);
        let mut a: Vec<char> = Vec::new();
        push_chars(&mut a, nc.as_slice());
        push_text(&mut a, ":readonly:");
        push_chars(&mut a, zc.as_slice());
        a.push(':');
        push_chars(&mut a, gc.as_slice());
        let mut b: Vec<char> = Vec::new();
        push_chars(&mut b, nc.as_slice());
        b.push('=');
        push_chars(&mut b, pc.as_slice());
        let p0 = "--partition".to_owned();
        let p1 = string_of(a.as_slice());
        let p2 = "--image".to_owned();
        let p3 = string_of(b.as_slice());
        out.push(p0);
        out.push(p1);
        out.push(p2);
        out.push(p3);
        assert(pv[k as int] == (nc@, pc@, parts@[k as int].2));
        assert(p1@ =~= nc@ + ":readonly:"@ + dec_text(parts@[k as int].2 as nat) + seq![':'] + group@);
        assert(p3@ =~= nc@ + seq!['='] + pc@);
        assert(texts(out@) =~= before + seq![p0@, p1@, p2@, p3@]);
        assert(texts(out@) =~= head + part_args(pv, group@, k + 1));
        k = k + 1;
    }
    let ghost before = texts(out@);
    out.push("--output".to_owned());
    out.push(output.to_owned());
    assert(texts(out@) =~= lpmake_args_of(pv, group@, slots, total as nat, output@));
    out
}

// ---- Odin MD5 ----

/// The MD5 that `md5sum` printed: its first word, when that is 32 hex
/// digits.
pub open spec fn md5_of(out: Seq<char>) -> Option<Seq<char>> {
    let h = first_word(out);
    if h.len() == 32 && all_hex(h) { Some(h) } else { None }
}

/// The first word of a text, or nothing.
pub open spec fn first_word(s: Seq<char>) -> Seq<char> {
    if words(s).len() > 0 { words(s)[0] } else { Seq::<char>::empty() }
}

/// Every character is a hex digit.
pub open spec fn all_hex(h: Seq<char>) -> bool {
    forall|k: int| 0 <= k < h.len() ==> (#[trigger] hex_char_value(h[k])) is Some
}

/// Reads the hash from `md5sum` output.
pub fn md5_from_output(out: &str) -> (r: Option<String>)
    ensures
        match (r, md5_of(out@)) {
            (Some(a), Some(b)) => a@ == b,
            (None, None) => true,
            _ => false,
        },
{
    let cs = chars_of(out);
    let w = split_words(cs.as_slice());
    let h: Vec<char> = if w.len() > 0 {
        assert(chars_seq(w@)[0] == w@[0]@);
        vstd::slice::slice_to_vec(w[0].as_slice())
    } else {
        Vec::new()
    };
    if h.len() != 32 {
        return None;
    }
    let mut i: usize = 0;
    let ghost w0 = first_word(out@);
    assert(h@ == w0);
    while i < 32
        invariant
            i <= 32,
            h@.len() == 32,
            h@ == w0,
            w0 == first_word(out@),
            forall|k: int| 0 <= k < i ==> (#[trigger] hex_char_value(h@[k])) is Some,
        decreases 32 - i,
    {
        let c = h[i];
        let ok = ('0' <= c && c <= '9') || ('a' <= c && c <= 'f') || ('A' <= c && c <= 'F');
        if !ok {
            assert(hex_char_value(h@[i as int]) is None);
            assert(hex_char_value(w0[i as int]) is None);
            assert(!all_hex(w0));
            return None;
        }
        i = i + 1;
    }
    Some(string_of(h.as_slice()))
}

} // verus!
