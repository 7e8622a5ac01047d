//! Kernels built with CONFIG_IKCONFIG embed their .config as a gzip stream
//! between "IKCFG_ST" and "IKCFG_ED". Reading it answers what every
//! filesystem conversion depends on: can this kernel mount EROFS or F2FS,
//! and with which compression?
//!
//! Decompressing the stream is the caller's part (the system gzip).
use vstd::prelude::*;
use crate::bytes::{find_bytes, find_bytes_spec};
use crate::text::{chars_of, string_of, lines, lines_of, trim, trimmed, chars_seq, starts_with, ends_with,
    has_prefix, has_suffix, find_char, find_from, has_char, contains_char, lemma_find_char, keep_some,
    lemma_keep_some_step, pairs_seq, lossy_decode, lossy_string, same_text, push_text, push_chars,
    dec_text, dec_chars, texts, joined, join_texts};

verus! {

pub open spec fn ikcfg_start() -> Seq<u8> {
    seq![0x49u8, 0x4b, 0x43, 0x46, 0x47, 0x5f, 0x53, 0x54]
}

pub open spec fn ikcfg_end() -> Seq<u8> {
    seq![0x49u8, 0x4b, 0x43, 0x46, 0x47, 0x5f, 0x45, 0x44]
}

/// Where the embedded gzip stream lies: after the first "IKCFG_ST", when it
/// starts with the gzip magic, up to the first "IKCFG_ED" after it.
pub open spec fn config_blob_of(d: Seq<u8>) -> Option<(nat, nat)> {
    match find_bytes_spec(d, ikcfg_start()) {
        None => None,
        Some(st) => {
            let start = st + 8;
            if start + 2 > d.len() || d[start as int] != 0x1f || d[start as int + 1] != 0x8b {
                None
            } else {
                match find_bytes_spec(d.skip(start as int), ikcfg_end()) {
                    None => None,
                    Some(ed) => Some((start, start + ed)),
                }
            }
        },
    }
}

/// Finds the embedded config stream of a kernel image.
pub fn config_blob(data: &[u8]) -> (r: Option<(usize, usize)>)
    ensures
        match (r, config_blob_of(data@)) {
            (Some((a, b)), Some((c, e))) => a == c && b == e && a <= b <= data@.len(),
            (None, None) => true,
            _ => false,
        },
{
    let st_pat: [u8; 8] = [0x49, 0x4b, 0x43, 0x46, 0x47, 0x5f, 0x53, 0x54];
    let ed_pat: [u8; 8] = [0x49, 0x4b, 0x43, 0x46, 0x47, 0x5f, 0x45, 0x44];
    assert(st_pat@ =~= ikcfg_start());
    assert(ed_pat@ =~= ikcfg_end());
    assert(data@.skip(0) =~= data@);
    let st = match find_bytes(data, 0, st_pat.as_slice()) {
        Some(st) => st,
        None => return None,
    };
    let n = data.len();
    assert(st + 8 <= n);
    let start = st + 8;
    if start > data.len() || data.len() - start < 2 || data[start] != 0x1f || data[start + 1] != 0x8b {
        return None;
    }
    match find_bytes(data, start, ed_pat.as_slice()) {
        Some(ed) => Some((start, start + ed)),
        None => None,
    }
}

/// A line of a kernel .config: "CONFIG_X=value" as (key, value), both
/// trimmed; "CONFIG_X is not set" as (key, "n").
pub open spec fn config_line(line: Seq<char>) -> Option<(Seq<char>, Seq<char>)> {
    let l = trim(line);
    if !starts_with(l, "CONFIG_"@) {
        None
    } else if has_char(l, '=') {
        let i = find_char(l, '=') as int;
        Some((trim(l.take(i)), trim(l.skip(i + 1))))
    } else if ends_with(l, " is not set"@) {
        Some((trim(l.take(l.len() - " is not set"@.len())), "n"@))
    } else {
        None
    }
}

/// The entries of a decompressed config, read as `String::from_utf8_lossy`
/// decodes it; none when the output is empty or has no entry.
pub open spec fn config_of(out: Seq<u8>) -> Option<Seq<(Seq<char>, Seq<char>)>> {
    if out.len() == 0 {
        None
    } else {
        let es = keep_some(lines(lossy_decode(out)), |l: Seq<char>| config_line(l));
        if es.len() == 0 { None } else { Some(es) }
    }
}

fn config_pair(line: &[char]) -> (r: Option<(String, String)>)
    ensures
        r matches Some(p) ==> config_line(line@) == Some((p.0@, p.1@)),
        r is None ==> config_line(line@) is None,
{
    let l = trimmed(line);
    let pre = chars_of("CONFIG_");
    if !has_prefix(l.as_slice(), pre.as_slice()) {
        return None;
    }
    if contains_char(l.as_slice(), '=') {
        let i = find_from(l.as_slice(), 0, '=');
        proof {
            assert(l@.skip(0) =~= l@);
            lemma_find_char(l@, '=');
            let k = choose|k: int| 0 <= k < l@.len() && l@[k] == '=';
            assert(find_char(l@, '=') <= k);
        }
        let n = l.len();
        assert(l@.subrange(0, i as int) =~= l@.take(i as int));
        assert(l@.subrange(i + 1, n as int) =~= l@.skip(i + 1));
        let k = trimmed(&l.as_slice()[0..i]);
        let v = trimmed(&l.as_slice()[i + 1..n]);
        return Some((string_of(k.as_slice()), string_of(v.as_slice())));
    }
    let suffix = chars_of(" is not set");
    if has_suffix(l.as_slice(), suffix.as_slice()) {
        let n = l.len() - suffix.len();
        assert(l@.subrange(0, n as int) =~= l@.take(n as int));
        let k = trimmed(&l.as_slice()[0..n]);
        return Some((string_of(k.as_slice()), "n".to_owned()));
    }
    None
}

/// The entries of a config text, in order.
pub fn config_entries(text: &str) -> (r: Vec<(String, String)>)
    ensures
        pairs_seq(r@) == keep_some(lines(text@), |l: Seq<char>| config_line(l)),
{
    let cs = chars_of(text);
    let ls = lines_of(cs.as_slice());
    let ghost all = lines(text@);
    let ghost f = |l: Seq<char>| config_line(l);
    let mut entries: Vec<(String, String)> = Vec::new();
    let mut i: usize = 0;
    assert(all.take(0) =~= Seq::<Seq<char>>::empty());
    while i < ls.len()
        invariant
            i <= ls@.len(),
            chars_seq(ls@) == all,
            f == (|l: Seq<char>| config_line(l)),
            pairs_seq(entries@) == keep_some(all.take(i as int), f),
        decreases ls@.len() - i,
    {
        proof { lemma_keep_some_step(all, f, i as int); }
        assert(all[i as int] == ls@[i as int]@);
        assert(f(all[i as int]) == config_line(all[i as int]));
        let ghost before = pairs_seq(entries@);
        match config_pair(ls[i].as_slice()) {
            Some(p) => {
                entries.push(p);
                assert(pairs_seq(entries@) =~= before.push((p.0@, p.1@)));
            },
            None => {},
        }
        i = i + 1;
    }
    assert(all.take(ls@.len() as int) =~= all);
    entries
}

/// Reads the decompressed kernel config.
pub fn parse_config(out: &[u8]) -> (r: Option<Vec<(String, String)>>)
    ensures
        match (r, config_of(out@)) {
            (Some(v), Some(es)) => pairs_seq(v@) == es,
            (None, None) => true,
            _ => false,
        },
{
    if out.len() == 0 {
        return None;
    }
    let text = lossy_string(out);
    assert(text@ == lossy_decode(out@));
    let entries = config_entries(text.as_str());
    if entries.len() == 0 {
        return None;
    }
    Some(entries)
}

/// Whether the first entry named `key` is built in or a module.
pub open spec fn cfg_of(map: Seq<(Seq<char>, Seq<char>)>, key: Seq<char>) -> Option<bool>
    decreases map.len(),
{
    if map.len() == 0 {
        None
    } else if map[0].0 == key {
        Some(map[0].1 == "y"@ || map[0].1 == "m"@)
    } else {
        cfg_of(map.drop_first(), key)
    }
}

/// Looks an option up: built in ("y") or a module ("m"), off, or absent.
pub fn cfg(map: &[(String, String)], key: &str) -> (r: Option<bool>)
    ensures
        r == cfg_of(pairs_seq(map@), key@),
{
    let ghost all = pairs_seq(map@);
    let k = chars_of(key);
    let mut i: usize = 0;
    assert(all.skip(0) =~= all);
    while i < map.len()
        invariant
            i <= map@.len(),
            all == pairs_seq(map@),
            k@ == key@,
            cfg_of(all, key@) == cfg_of(all.skip(i as int), key@),
        decreases map@.len() - i,
    {
        assert(all.skip(i as int)[0] == all[i as int]);
        assert(all.skip(i as int).drop_first() =~= all.skip(i + 1));
        let name = chars_of(map[i].0.as_str());
        if name.len() == k.len() && crate::text::has_prefix(name.as_slice(), k.as_slice()) {
            assert(name@.take(k@.len() as int) =~= name@);
            let v = chars_of(map[i].1.as_str());
            return Some(same_text(v.as_slice(), "y") || same_text(v.as_slice(), "m"));
        }
        proof {
            if name@ == k@ { assert(name@.take(k@.len() as int) =~= name@); }
        }
        i = i + 1;
    }
    None
}

/// Looks an option up and, when it is on, records `label` as supported.
pub fn supported(map: &[(String, String)], key: &str, label: &str, algos: &mut Vec<String>) -> (r: Option<bool>)
    ensures
        r == cfg_of(pairs_seq(map@), key@),
        texts(final(algos)@) == texts(old(algos)@) + (if r == Some(true) { seq![label@] } else { seq![] }),
{
    let on = cfg(map, key);
    let ghost before = texts(algos@);
    if on == Some(true) {
        algos.push(label.to_owned());
        assert(texts(algos@) =~= before.push(label@));
    } else {
        assert(texts(algos@) =~= before);
    }
    on
}

/// What an embedded kernel config says about filesystem support.
#[derive(Debug, Clone)]
pub struct KernelFsSupport {
    /// Whether an embedded config was found and decompressed.
    pub config_found: bool,
    pub ext4: Option<bool>,
    pub erofs: Option<bool>,
    pub erofs_zip: Option<bool>,
    pub f2fs: Option<bool>,
    pub f2fs_compression: Option<bool>,
    /// Compression support confirmed, e.g. "EROFS LZ4".
    pub algorithms: Vec<String>,
    pub total_entries: usize,
}

impl KernelFsSupport {
    /// The summary of a kernel without a readable config.
    pub fn not_found() -> (r: KernelFsSupport)
        ensures
            !r.config_found && r.ext4 is None && r.erofs is None && r.erofs_zip is None && r.f2fs is None
                && r.f2fs_compression is None && r.algorithms@.len() == 0 && r.total_entries == 0,
    {
        KernelFsSupport {
            config_found: false,
            ext4: None,
            erofs: None,
            erofs_zip: None,
            f2fs: None,
            f2fs_compression: None,
            algorithms: Vec::new(),
            total_entries: 0,
        }
    }
}

/// `label` when `key` is on, else nothing.
pub open spec fn label_if(map: Seq<(Seq<char>, Seq<char>)>, key: Seq<char>, label: Seq<char>) -> Seq<Seq<char>> {
    if cfg_of(map, key) == Some(true) { seq![label] } else { seq![] }
}

/// The compression algorithms a config confirms, in report order: the
/// EROFS ones when EROFS compression is on, then the F2FS ones when F2FS
/// and its compression are.
pub open spec fn algorithms_of(map: Seq<(Seq<char>, Seq<char>)>) -> Seq<Seq<char>> {
    (if cfg_of(map, "CONFIG_EROFS_FS_ZIP"@) == Some(true) {
            label_if(map, "CONFIG_EROFS_FS_ZIP_LZ4"@, "EROFS LZ4"@)
                + label_if(map, "CONFIG_EROFS_FS_ZIP_DEFLATE"@, "EROFS deflate"@)
                + label_if(map, "CONFIG_EROFS_FS_ZIP_ZSTD"@, "EROFS zstd"@)
        } else {
            seq![]
        })
        + (if cfg_of(map, "CONFIG_F2FS_FS"@) == Some(true) && cfg_of(map, "CONFIG_F2FS_FS_COMPRESSION"@) == Some(true) {
            label_if(map, "CONFIG_F2FS_FS_LZ4"@, "F2FS LZ4"@)
                + label_if(map, "CONFIG_F2FS_FS_LZO"@, "F2FS LZO"@)
                + label_if(map, "CONFIG_F2FS_FS_ZSTD"@, "F2FS zstd"@)
        } else {
            seq![]
        })
}

pub open spec fn on(map: Seq<(Seq<char>, Seq<char>)>, key: Seq<char>) -> bool {
    cfg_of(map, key) == Some(true)
}

/// The compression algorithms a report can name, in report order.
pub open spec fn compression_labels() -> Seq<Seq<char>> {
    seq!["EROFS LZ4"@, "EROFS deflate"@, "EROFS zstd"@, "F2FS LZ4"@, "F2FS LZO"@, "F2FS zstd"@]
}

/// Whether a config supports an algorithm: its filesystem's compression
/// layer and the algorithm's own option are built in (`y` or `m`).
pub open spec fn algorithm_supported(map: Seq<(Seq<char>, Seq<char>)>, label: Seq<char>) -> bool {
    let erofs = on(map, "CONFIG_EROFS_FS_ZIP"@);
    let f2fs = on(map, "CONFIG_F2FS_FS"@) && on(map, "CONFIG_F2FS_FS_COMPRESSION"@);
    if label == "EROFS LZ4"@ {
        erofs && on(map, "CONFIG_EROFS_FS_ZIP_LZ4"@)
    } else if label == "EROFS deflate"@ {
        erofs && on(map, "CONFIG_EROFS_FS_ZIP_DEFLATE"@)
    } else if label == "EROFS zstd"@ {
        erofs && on(map, "CONFIG_EROFS_FS_ZIP_ZSTD"@)
    } else if label == "F2FS LZ4"@ {
        f2fs && on(map, "CONFIG_F2FS_FS_LZ4"@)
    } else if label == "F2FS LZO"@ {
        f2fs && on(map, "CONFIG_F2FS_FS_LZO"@)
    } else if label == "F2FS zstd"@ {
        f2fs && on(map, "CONFIG_F2FS_FS_ZSTD"@)
    } else {
        false
    }
}

/// The reported algorithms are exactly the supported ones, each once, in
/// the fixed report order (EROFS LZ4, deflate, zstd, then F2FS LZ4, LZO,
/// zstd): in particular F2FS LZ4 is reported exactly when F2FS, its
/// compression and its LZ4 option are all on.
pub proof fn lemma_algorithms_reported(map: Seq<(Seq<char>, Seq<char>)>)
    ensures
        algorithms_of(map) == compression_labels().filter(|l: Seq<char>| algorithm_supported(map, l)),
        forall|l: Seq<char>| algorithms_of(map).contains(l) <==> compression_labels().contains(l) && algorithm_supported(map, l),
{
    reveal_strlit("EROFS LZ4");
    reveal_strlit("EROFS deflate");
    reveal_strlit("EROFS zstd");
    reveal_strlit("F2FS LZ4");
    reveal_strlit("F2FS LZO");
    reveal_strlit("F2FS zstd");
    let ls = compression_labels();
    let pred = |l: Seq<char>| algorithm_supported(map, l);
    assert(ls[0].len() == 9 && ls[1].len() == 13 && ls[2].len() == 10 && ls[3].len() == 8 && ls[4].len() == 8 && ls[5].len() == 9);
    assert(ls[0][0] == 'E' && ls[5][0] == 'F' && ls[4][7] == 'O' && ls[3][7] == '4');
    assert(ls[0] != ls[1] && ls[0] != ls[2] && ls[0] != ls[3] && ls[0] != ls[4] && ls[0] != ls[5]);
    assert(ls[1] != ls[2] && ls[1] != ls[3] && ls[1] != ls[4] && ls[1] != ls[5]);
    assert(ls[2] != ls[3] && ls[2] != ls[4] && ls[2] != ls[5]);
    assert(ls[3] != ls[4] && ls[3] != ls[5] && ls[4] != ls[5]);
    reveal_with_fuel(Seq::<Seq<char>>::filter, 7);
    assert(ls.drop_last() =~= seq!["EROFS LZ4"@, "EROFS deflate"@, "EROFS zstd"@, "F2FS LZ4"@, "F2FS LZO"@]);
    assert(ls.drop_last().drop_last() =~= seq!["EROFS LZ4"@, "EROFS deflate"@, "EROFS zstd"@, "F2FS LZ4"@]);
    assert(ls.drop_last().drop_last().drop_last() =~= seq!["EROFS LZ4"@, "EROFS deflate"@, "EROFS zstd"@]);
    assert(ls.drop_last().drop_last().drop_last().drop_last() =~= seq!["EROFS LZ4"@, "EROFS deflate"@]);
    assert(ls.drop_last().drop_last().drop_last().drop_last().drop_last() =~= seq!["EROFS LZ4"@]);
    assert(seq!["EROFS LZ4"@].drop_last() =~= Seq::<Seq<char>>::empty());
    assert(algorithms_of(map) =~= ls.filter(pred));
    assert forall|l: Seq<char>| algorithms_of(map).contains(l) <==> ls.contains(l) && algorithm_supported(map, l) by {
        if ls.contains(l) && algorithm_supported(map, l) {
            let i = choose|i: int| 0 <= i < ls.len() && ls[i] == l;
            ls.lemma_filter_contains(pred, i);
        }
        if algorithms_of(map).contains(l) {
            ls.lemma_filter_contains_rev(pred, l);
            ls.filter_lemma(pred);
        }
    }
}

/// Summarises a config's filesystem support.
#[verifier::rlimit(40)]
pub fn summarize(map: &[(String, String)]) -> (r: KernelFsSupport)
    ensures
        r.config_found,
        r.total_entries == map@.len(),
        r.ext4 == cfg_of(pairs_seq(map@), "CONFIG_EXT4_FS"@),
        r.erofs == cfg_of(pairs_seq(map@), "CONFIG_EROFS_FS"@),
        r.erofs_zip == cfg_of(pairs_seq(map@), "CONFIG_EROFS_FS_ZIP"@),
        r.f2fs == cfg_of(pairs_seq(map@), "CONFIG_F2FS_FS"@),
        r.f2fs_compression == cfg_of(pairs_seq(map@), "CONFIG_F2FS_FS_COMPRESSION"@),
        texts(r.algorithms@) == algorithms_of(pairs_seq(map@)),
{
    let ghost m = pairs_seq(map@);
    let mut algos: Vec<String> = Vec::new();
    assert(texts(algos@) =~= Seq::<Seq<char>>::empty());
    let ext4 = cfg(map, "CONFIG_EXT4_FS");
    let erofs = cfg(map, "CONFIG_EROFS_FS");
    let erofs_zip = cfg(map, "CONFIG_EROFS_FS_ZIP");
    let f2fs = cfg(map, "CONFIG_F2FS_FS");
    let f2fs_compression = cfg(map, "CONFIG_F2FS_FS_COMPRESSION");
    let ghost base = texts(algos@);
    if erofs_zip == Some(true) {
        let _ = supported(map, "CONFIG_EROFS_FS_ZIP_LZ4", "EROFS LZ4", &mut algos);
        let _ = supported(map, "CONFIG_EROFS_FS_ZIP_DEFLATE", "EROFS deflate", &mut algos);
        let _ = supported(map, "CONFIG_EROFS_FS_ZIP_ZSTD", "EROFS zstd", &mut algos);
    }
    let ghost mid = texts(algos@);
    assert(mid =~= base + (if cfg_of(m, "CONFIG_EROFS_FS_ZIP"@) == Some(true) {
        label_if(m, "CONFIG_EROFS_FS_ZIP_LZ4"@, "EROFS LZ4"@)
            + label_if(m, "CONFIG_EROFS_FS_ZIP_DEFLATE"@, "EROFS deflate"@)
            + label_if(m, "CONFIG_EROFS_FS_ZIP_ZSTD"@, "EROFS zstd"@)
    } else {
        seq![]
    }));
    if f2fs == Some(true) && f2fs_compression == Some(true) {
        let _ = supported(map, "CONFIG_F2FS_FS_LZ4", "F2FS LZ4", &mut algos);
        let _ = supported(map, "CONFIG_F2FS_FS_LZO", "F2FS LZO", &mut algos);
        let _ = supported(map, "CONFIG_F2FS_FS_ZSTD", "F2FS zstd", &mut algos);
    }
    assert(texts(algos@) =~= algorithms_of(m));
    KernelFsSupport {
        config_found: true,
        ext4,
        erofs,
        erofs_zip,
        f2fs,
        f2fs_compression,
        algorithms: algos,
        total_entries: map.len(),
    }
}

/// How a support state reads in the build log.
pub open spec fn state_text(v: Option<bool>) -> Seq<char> {
    match v {
        Some(true) => "supported"@,
        Some(false) => "NOT in kernel"@,
        None => "not mentioned in config"@,
    }
}

/// Describes a support state.
pub fn fmt_bool(v: Option<bool>) -> (r: String)
    ensures
        r@ == state_text(v),
{
    match v {
        Some(true) => "supported".to_owned(),
        Some(false) => "NOT in kernel".to_owned(),
        None => "not mentioned in config".to_owned(),
    }
}

/// Where an unpacked kernel may sit in a workspace, in order.
pub open spec fn kernel_candidates_of(workspace: Seq<char>) -> Seq<Seq<char>> {
    seq![
        crate::fsconfig::join_path(workspace, "kernel"@),
        crate::fsconfig::join_path(workspace, "boot/kernel"@),
        crate::fsconfig::join_path(workspace, "boot-unpack/kernel"@),
    ]
}

/// The paths to look for an unpacked kernel at.
pub fn kernel_candidates(workspace: &str) -> (r: Vec<String>)
    ensures
        texts(r@) == kernel_candidates_of(workspace@),
{
    let mut v: Vec<String> = Vec::new();
    v.push(crate::fsconfig::join_paths(workspace, "kernel"));
    v.push(crate::fsconfig::join_paths(workspace, "boot/kernel"));
    v.push(crate::fsconfig::join_paths(workspace, "boot-unpack/kernel"));
    assert(texts(v@) =~= kernel_candidates_of(workspace@));
    v
}

/// The checks a build of `format` cares about: (name, lowercase name,
/// state).
pub open spec fn checks_of(format: Seq<char>, s: KernelFsSupport) -> Seq<(Seq<char>, Seq<char>, Option<bool>)> {
    if format == "erofs"@ {
        seq![("EROFS filesystem"@, "erofs filesystem"@, s.erofs), ("EROFS compression"@, "erofs compression"@, s.erofs_zip)]
    } else if format == "f2fs"@ {
        seq![("F2FS filesystem"@, "f2fs filesystem"@, s.f2fs), ("F2FS compression"@, "f2fs compression"@, s.f2fs_compression)]
    } else if format == "ext4"@ {
        seq![("ext4 filesystem"@, "ext4 filesystem"@, s.ext4)]
    } else {
        seq![]
    }
}

/// The log lines of one check: its state, and a warning when the kernel
/// lacks it.
pub open spec fn check_lines(c: (Seq<char>, Seq<char>, Option<bool>), format: Seq<char>) -> Seq<Seq<char>> {
    seq!["[Kernel] "@ + c.0 + ": "@ + state_text(c.2)] + if c.2 == Some(false) {
        seq!["[Kernel] WARNING: kernel lacks "@ + c.1 + " - the built "@ + format + " image may not mount on this device"@]
    } else {
        seq![]
    }
}

pub open spec fn checks_lines(cs: Seq<(Seq<char>, Seq<char>, Option<bool>)>, format: Seq<char>) -> Seq<Seq<char>>
    decreases cs.len(),
{
    if cs.len() == 0 { seq![] } else { checks_lines(cs.drop_last(), format) + check_lines(cs.last(), format) }
}

/// What a build logs about the kernel's filesystem support: that there is
/// no kernel, that it carries no config, or the config's entries, each
/// relevant check (with a warning where support is missing) and the
/// compression support found. Warnings, never blockers.
pub open spec fn warning_lines_of(kernel: Option<Seq<char>>, s: KernelFsSupport, format: Seq<char>) -> Seq<Seq<char>> {
    match kernel {
        None => seq!["[Kernel] no unpacked kernel in workspace - unpack boot.img in the Magisk tab to get filesystem support checks"@],
        Some(k) => if !s.config_found {
            seq!["[Kernel] "@ + k + " carries no embedded config (CONFIG_IKCONFIG disabled) - cannot verify "@ + format + " support"@]
        } else {
            seq!["[Kernel] embedded config read from "@ + k + " ("@ + dec_text(s.total_entries as nat) + " entries)"@]
                + checks_lines(checks_of(format, s), format)
                + if s.algorithms@.len() > 0 {
                    seq!["[Kernel] compression support: "@ + joined(texts(s.algorithms@), ", "@)]
                } else {
                    seq![]
                }
        },
    }
}

fn push_check(out: &mut Vec<String>, name: &str, lower: &str, state: Option<bool>, format: &[char])
    ensures
        texts(final(out)@) == texts(old(out)@) + check_lines((name@, lower@, state), format@),
{
    let ghost before = texts(out@);
    let mut a: Vec<char> = Vec::new();
    push_text(&mut a, "[Kernel] ");
    push_text(&mut a, name);
    push_text(&mut a, ": ");
    let st = fmt_bool(state);
    push_text(&mut a, st.as_str());
    out.push(string_of(a.as_slice()));
    if state == Some(false) {
        let mut b: Vec<char> = Vec::new();
        push_text(&mut b, "[Kernel] WARNING: kernel lacks ");
        push_text(&mut b, lower);
        push_text(&mut b, " - the built ");
        push_chars(&mut b, format);
        push_text(&mut b, " image may not mount on this device");
        out.push(string_of(b.as_slice()));
        assert(texts(out@) =~= before + check_lines((name@, lower@, state), format@));
    } else {
        assert(texts(out@) =~= before + check_lines((name@, lower@, state), format@));
    }
}

/// The build log lines about the kernel found at `kernel` (none when no
/// unpacked kernel was found) for an image of `format`.
pub fn build_warning_lines(kernel: Option<&str>, support: &KernelFsSupport, format: &str) -> (r: Vec<String>)
    ensures
        texts(r@) == warning_lines_of(match kernel {
            Some(k) => Some(k@),
            None => None,
        }, *support, format@),
{
    let mut out: Vec<String> = Vec::new();
    let k = match kernel {
        None => {
            out.push("[Kernel] no unpacked kernel in workspace - unpack boot.img in the Magisk tab to get filesystem support checks".to_owned());
            assert(texts(out@) =~= warning_lines_of(None, *support, format@));
            return out;
        },
        Some(k) => k,
    };
    let kc = chars_of(k);
    let fc = chars_of(format);
    if !support.config_found {
        let mut buf: Vec<char> = Vec::new();
        push_text(&mut buf, "[Kernel] ");
        push_chars(&mut buf, kc.as_slice());
        push_text(&mut buf, " carries no embedded config (CONFIG_IKCONFIG disabled) - cannot verify ");
        push_chars(&mut buf, fc.as_slice());
        push_text(&mut buf, " support");
        out.push(string_of(buf.as_slice()));
        assert(texts(out@) =~= warning_lines_of(Some(k@), *support, format@));
        return out;
    }
    let mut head: Vec<char> = Vec::new();
    push_text(&mut head, "[Kernel] embedded config read from ");
    push_chars(&mut head, kc.as_slice());
    push_text(&mut head, " (");
    let d = dec_chars(support.total_entries as u64);
    push_chars(&mut head, d.as_slice());
    push_text(&mut head, " entries)");
    out.push(string_of(head.as_slice()));
    let ghost first = texts(out@);
    let ghost cs = checks_of(format@, *support);
    proof { reveal_with_fuel(checks_lines, 3); }
    if same_text(fc.as_slice(), "erofs") {
        push_check(&mut out, "EROFS filesystem", "erofs filesystem", support.erofs, fc.as_slice());
        push_check(&mut out, "EROFS compression", "erofs compression", support.erofs_zip, fc.as_slice());
        assert(cs.drop_last().drop_last() =~= Seq::<(Seq<char>, Seq<char>, Option<bool>)>::empty());
        assert(cs.drop_last().last() == cs[0] && cs.last() == cs[1]);
        assert(checks_lines(cs, format@) =~= check_lines(cs[0], format@) + check_lines(cs[1], format@));
    } else if same_text(fc.as_slice(), "f2fs") {
        push_check(&mut out, "F2FS filesystem", "f2fs filesystem", support.f2fs, fc.as_slice());
        push_check(&mut out, "F2FS compression", "f2fs compression", support.f2fs_compression, fc.as_slice());
        assert(cs.drop_last().drop_last() =~= Seq::<(Seq<char>, Seq<char>, Option<bool>)>::empty());
        assert(cs.drop_last().last() == cs[0] && cs.last() == cs[1]);
        assert(checks_lines(cs, format@) =~= check_lines(cs[0], format@) + check_lines(cs[1], format@));
    } else if same_text(fc.as_slice(), "ext4") {
        push_check(&mut out, "ext4 filesystem", "ext4 filesystem", support.ext4, fc.as_slice());
        assert(cs.drop_last() =~= Seq::<(Seq<char>, Seq<char>, Option<bool>)>::empty());
        assert(checks_lines(cs, format@) =~= check_lines(cs[0], format@));
    } else {
        assert(cs =~= Seq::<(Seq<char>, Seq<char>, Option<bool>)>::empty());
    }
    assert(texts(out@) =~= first + checks_lines(cs, format@));
    if support.algorithms.len() > 0 {
        let j = join_texts(support.algorithms.as_slice(), ", ");
        let ghost before = texts(out@);
        let mut buf: Vec<char> = Vec::new();
        push_text(&mut buf, "[Kernel] compression support: ");
        push_text(&mut buf, j.as_str());
        out.push(string_of(buf.as_slice()));
        assert(texts(out@) =~= before.push(buf@));
    }
    assert(texts(out@) =~= warning_lines_of(Some(k@), *support, format@));
    out
}

} // verus!
