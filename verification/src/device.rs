//! Device side, scoped by risk: reading `adb`/`fastboot` output, choosing
//! reboot targets, and the guard rails of a fastboot flash. Identity
//! partitions, the bootloader chain and dynamic partitions from bootloader
//! fastboot each need the user's explicit acknowledgement; an image larger
//! than its partition is blocked outright.
//!
//! Running the tools is the caller's part; this module reads what they
//! printed and decides.
use vstd::prelude::*;
use crate::text::{chars_of, string_of, lines, lines_of, trim, trimmed, chars_seq, words, split_words,
    starts_with, ends_with, has_prefix, strip_all_prefix, strip_all_suffix, without_prefixes, without_suffixes,
    last_index_of, rfind_char, has_char, contains_char, keep_some, lemma_keep_some_step, pairs_seq,
    parse_radix16, parse_hex_u64, find_text_spec, find_text, same_text, dec_text, dec_chars,
    push_text, push_chars, texts, joined, join_texts, lowercase, to_lower,
    ascii_lowercase, all_ascii, lemma_strip_all_suffix_prefix};

verus! {

// ---- partition classes ----

/// A partition name without its slot suffixes (every trailing `_a`, then
/// every trailing `_b`), lowercased.
pub open spec fn partition_class(p: Seq<char>) -> Seq<char> {
    lowercase(strip_all_suffix(strip_all_suffix(p, "_a"@), "_b"@))
}

/// The class of an ASCII partition name: without its slot suffixes, with
/// `A`-`Z` made lowercase.
pub open spec fn ascii_partition_class(p: Seq<char>) -> Seq<char> {
    ascii_lowercase(strip_all_suffix(strip_all_suffix(p, "_a"@), "_b"@))
}

/// For an ASCII name the class is its ASCII lowercase without suffixes.
proof fn lemma_ascii_strip(p: Seq<char>)
    requires
        all_ascii(p),
    ensures
        all_ascii(strip_all_suffix(strip_all_suffix(p, "_a"@), "_b"@)),
{
    let a = strip_all_suffix(p, "_a"@);
    let b = strip_all_suffix(a, "_b"@);
    lemma_strip_all_suffix_prefix(p, "_a"@);
    lemma_strip_all_suffix_prefix(a, "_b"@);
    assert forall|i: int| 0 <= i < b.len() implies (#[trigger] b[i] as u32) < 128 by {
        assert(b[i] == a[i]);
        assert(a[i] == p[i]);
    }
}

fn class_of(partition: &str) -> (r: Vec<char>)
    ensures
        r@ == partition_class(partition@),
        all_ascii(partition@) ==> r@ == ascii_partition_class(partition@),
{
    proof { if all_ascii(partition@) { lemma_ascii_strip(partition@); } }
    let cs = chars_of(partition);
    let sa = chars_of("_a");
    let sb = chars_of("_b");
    let a = without_suffixes(cs.as_slice(), sa.as_slice());
    let b = without_suffixes(a.as_slice(), sb.as_slice());
    to_lower(b.as_slice())
}

/// Partitions that hold identity, calibration or radio state.
pub open spec fn identity_class(n: Seq<char>) -> bool {
    ||| n == "modemst1"@ ||| n == "modemst2"@ ||| n == "modemst"@ ||| n == "fsc"@
    ||| n == "fsg"@ ||| n == "persist"@ ||| n == "persistbak"@ ||| n == "efs"@
    ||| n == "nvdata"@ ||| n == "nvram"@ ||| n == "secdata"@ ||| n == "oplusstanvbk"@
    ||| n == "oplussec"@ ||| n == "mi_ext"@ ||| n == "cust"@
}

/// Partitions of the bootloader chain.
pub open spec fn bootloader_class(n: Seq<char>) -> bool {
    ||| n == "bootloader"@ ||| n == "xbl"@ ||| n == "xbl_config"@ ||| n == "abl"@
    ||| n == "aop"@ ||| n == "aop_config"@ ||| n == "tz"@ ||| n == "hyp"@
    ||| n == "cmnlib"@ ||| n == "cmnlib64"@ ||| n == "keymaster"@ ||| n == "km"@
    ||| n == "uefisecapp"@ ||| n == "devcfg"@ ||| n == "qupfw"@ ||| n == "vmboo"@
    ||| n == "shrm"@ ||| n == "imagefv"@ ||| n == "multiimgoem"@ ||| n == "featenabler"@
    ||| n == "cpucp"@
}

/// Dynamic partitions, which live inside `super`.
pub open spec fn dynamic_class(n: Seq<char>) -> bool {
    ||| n == "system"@ ||| n == "vendor"@ ||| n == "product"@ ||| n == "odm"@
    ||| n == "system_ext"@ ||| n == "vendor_dlkm"@ ||| n == "odm_dlkm"@ ||| n == "system_dlkm"@
}

/// Partitions that hold device identity, calibration or radio state: a bad
/// write there is unrecoverable even with the right image.
pub fn is_identity_partition(partition: &str) -> (r: bool)
    ensures
        r == identity_class(partition_class(partition@)),
        all_ascii(partition@) ==> r == identity_class(ascii_partition_class(partition@))
            && partition_class(partition@) == ascii_partition_class(partition@),
{
    let c = class_of(partition);
    let s = string_of(c.as_slice());
    is_identity_class(s.as_str())
}

/// Whether a lowercased, suffix-free partition name is of this class.
pub fn is_identity_class(class: &str) -> (r: bool)
    ensures
        r == identity_class(class@),
{
    let n = chars_of(class);
    let n = n.as_slice();
    same_text(n, "modemst1") || same_text(n, "modemst2") || same_text(n, "modemst") || same_text(n, "fsc")
        || same_text(n, "fsg") || same_text(n, "persist") || same_text(n, "persistbak") || same_text(n, "efs")
        || same_text(n, "nvdata") || same_text(n, "nvram") || same_text(n, "secdata")
        || same_text(n, "oplusstanvbk") || same_text(n, "oplussec") || same_text(n, "mi_ext")
        || same_text(n, "cust")
}

/// The bootloader chain: flashable, but only with an explicit opt-in.
pub fn is_bootloader_partition(partition: &str) -> (r: bool)
    ensures
        r == bootloader_class(partition_class(partition@)),
        all_ascii(partition@) ==> r == bootloader_class(ascii_partition_class(partition@))
            && partition_class(partition@) == ascii_partition_class(partition@),
{
    let c = class_of(partition);
    let s = string_of(c.as_slice());
    is_bootloader_class(s.as_str())
}

/// Whether a lowercased, suffix-free partition name is of this class.
pub fn is_bootloader_class(class: &str) -> (r: bool)
    ensures
        r == bootloader_class(class@),
{
    let n = chars_of(class);
    let n = n.as_slice();
    same_text(n, "bootloader") || same_text(n, "xbl") || same_text(n, "xbl_config") || same_text(n, "abl")
        || same_text(n, "aop") || same_text(n, "aop_config") || same_text(n, "tz") || same_text(n, "hyp")
        || same_text(n, "cmnlib") || same_text(n, "cmnlib64") || same_text(n, "keymaster")
        || same_text(n, "km") || same_text(n, "uefisecapp") || same_text(n, "devcfg")
        || same_text(n, "qupfw") || same_text(n, "vmboo") || same_text(n, "shrm")
        || same_text(n, "imagefv") || same_text(n, "multiimgoem") || same_text(n, "featenabler")
        || same_text(n, "cpucp")
}

/// Dynamic partitions: writing them needs fastbootd, not bootloader
/// fastboot.
pub fn is_dynamic_partition(partition: &str) -> (r: bool)
    ensures
        r == dynamic_class(partition_class(partition@)),
        all_ascii(partition@) ==> r == dynamic_class(ascii_partition_class(partition@))
            && partition_class(partition@) == ascii_partition_class(partition@),
{
    let c = class_of(partition);
    let s = string_of(c.as_slice());
    is_dynamic_class(s.as_str())
}

/// Whether a lowercased, suffix-free partition name is of this class.
pub fn is_dynamic_class(class: &str) -> (r: bool)
    ensures
        r == dynamic_class(class@),
{
    let n = chars_of(class);
    let n = n.as_slice();
    same_text(n, "system") || same_text(n, "vendor") || same_text(n, "product") || same_text(n, "odm")
        || same_text(n, "system_ext") || same_text(n, "vendor_dlkm") || same_text(n, "odm_dlkm")
        || same_text(n, "system_dlkm")
}

/// Dropping one more copy of a suffix changes nothing.
proof fn lemma_strip_one_more(s: Seq<char>, p: Seq<char>)
    requires
        p.len() > 0,
    ensures
        strip_all_suffix(s + p, p) == strip_all_suffix(s, p),
{
    let t = s + p;
    assert(t.skip(t.len() - p.len()) =~= p);
    assert(t.take(t.len() - p.len()) =~= s);
}

/// A slot suffix does not change a partition's class, so the identity,
/// bootloader and dynamic checks answer alike for `x`, `x_a` and (where
/// `x` does not itself end in `_a`) `x_b`.
pub proof fn lemma_slot_suffix_ignored(p: Seq<char>)
    ensures
        partition_class(p + "_a"@) == partition_class(p),
        !ends_with(p, "_a"@) ==> partition_class(p + "_b"@) == partition_class(p),
{
    reveal_strlit("_a");
    reveal_strlit("_b");
    lemma_strip_one_more(p, "_a"@);
    lemma_strip_one_more(p, "_b"@);
    let t = p + "_b"@;
    assert(t.skip(t.len() - 2) =~= "_b"@);
    assert(!ends_with(t, "_a"@)) by {
        if ends_with(t, "_a"@) {
            assert(t.skip(t.len() - 2)[1] == 'a');
        }
    }
    assert(strip_all_suffix(t, "_a"@) == t);
    if !ends_with(p, "_a"@) {
        assert(strip_all_suffix(p, "_a"@) == p);
    }
}

/// A lowercase ASCII name: nothing for ASCII lowercasing to change.
pub open spec fn lower_ascii_name(n: Seq<char>) -> bool {
    forall|i: int| 0 <= i < n.len() ==> (#[trigger] n[i] as u32) < 128 && !('A' <= n[i] && n[i] <= 'Z')
}

proof fn lemma_lower_ascii_fixed(n: Seq<char>)
    requires
        lower_ascii_name(n),
    ensures
        ascii_lowercase(n) == n,
{
    assert(ascii_lowercase(n) =~= n);
}

/// A name that ends in neither slot suffix keeps its class under a slot
/// suffix: stripping `x`, `x_a` or `x_b` gives `x`.
proof fn lemma_strip_slot(n: Seq<char>, suffix: Seq<char>)
    requires
        !ends_with(n, "_a"@),
        !ends_with(n, "_b"@),
        suffix == ""@ || suffix == "_a"@ || suffix == "_b"@,
    ensures
        strip_all_suffix(strip_all_suffix(n + suffix, "_a"@), "_b"@) == n,
{
    reveal_strlit("");
    reveal_strlit("_a");
    reveal_strlit("_b");
    assert(strip_all_suffix(n, "_a"@) == n);
    assert(strip_all_suffix(n, "_b"@) == n);
    if suffix == "_a"@ {
        lemma_strip_one_more(n, "_a"@);
    } else if suffix == "_b"@ {
        let t = n + "_b"@;
        assert(t.skip(t.len() - 2) =~= "_b"@);
        assert(!ends_with(t, "_a"@)) by {
            if ends_with(t, "_a"@) {
                assert(t.skip(t.len() - 2)[1] == 'a');
            }
        }
        assert(strip_all_suffix(t, "_a"@) == t);
        lemma_strip_one_more(n, "_b"@);
    } else {
        assert(n + suffix =~= n);
    }
}

/// The partitions that hold identity or radio state (modem storage,
/// persist, EFS, NV data, vendor security data) are in the identity class
/// under any slot suffix: a flash plan for one of them without the
/// identity opt-in is marked identity and has its identity risk first
/// among the unacknowledged ones, so `flash_gate` refuses it. For an
/// ASCII name, `plan_flash` ensures that the class is the name lowercased
/// without its slot suffixes.
pub proof fn lemma_identity_partitions_need_opt_in(
    plan: FlashPlan,
    n: Seq<char>,
    suffix: Seq<char>,
    image: Seq<char>,
    image_size: u64,
    vars: Seq<(Seq<char>, Seq<char>)>,
    bootloader_opt_in: bool,
    dynamic_ack: bool,
)
    requires
        n == "modemst1"@ || n == "modemst2"@ || n == "modemst"@ || n == "fsc"@ || n == "fsg"@ || n == "persist"@ || n == "persistbak"@ || n == "efs"@ || n == "nvdata"@ || n == "nvram"@ || n == "secdata"@ || n == "oplusstanvbk"@ || n == "oplussec"@ || n == "mi_ext"@ || n == "cust"@,
        suffix == ""@ || suffix == "_a"@ || suffix == "_b"@,
        plan_holds(plan, n + suffix, image, image_size, vars, bootloader_opt_in, false, dynamic_ack),
        partition_class(n + suffix) == ascii_partition_class(n + suffix),
    ensures
        plan.identity,
        plan.unacknowledged@.len() > 0,
        texts(plan.unacknowledged@)[0] == identity_risk(n + suffix),
{
    reveal_strlit("modemst1");
    reveal_strlit("modemst2");
    reveal_strlit("modemst");
    reveal_strlit("fsc");
    reveal_strlit("fsg");
    reveal_strlit("persist");
    reveal_strlit("persistbak");
    reveal_strlit("efs");
    reveal_strlit("nvdata");
    reveal_strlit("nvram");
    reveal_strlit("secdata");
    reveal_strlit("oplusstanvbk");
    reveal_strlit("oplussec");
    reveal_strlit("mi_ext");
    reveal_strlit("cust");
    reveal_strlit("_a");
    reveal_strlit("_b");
    assert(lower_ascii_name(n));
    assert(!ends_with(n, "_a"@)) by {
        if ends_with(n, "_a"@) { assert(n.skip(n.len() - 2)[0] == '_' && n.skip(n.len() - 2)[1] == 'a'); }
    }
    assert(!ends_with(n, "_b"@)) by {
        if ends_with(n, "_b"@) { assert(n.skip(n.len() - 2)[0] == '_' && n.skip(n.len() - 2)[1] == 'b'); }
    }
    lemma_strip_slot(n, suffix);
    lemma_lower_ascii_fixed(n);
    assert(partition_class(n + suffix) == n);
    assert(identity_class(n));
    let u = texts(plan.unacknowledged@);
    assert(u.len() == plan.unacknowledged@.len());
    assert(u[0] == identity_risk(n + suffix));
}

/// The identity class is exactly these fifteen names.
pub proof fn lemma_identity_class_names(c: Seq<char>)
    ensures
        identity_class(c) <==> (c == "modemst1"@ || c == "modemst2"@ || c == "modemst"@ || c == "fsc"@ || c == "fsg"@ || c == "persist"@ || c == "persistbak"@ || c == "efs"@ || c == "nvdata"@ || c == "nvram"@ || c == "secdata"@ || c == "oplusstanvbk"@ || c == "oplussec"@ || c == "mi_ext"@ || c == "cust"@),
{
}

// ---- tool output ----

/// A list without its first element (none left of an empty one).
pub open spec fn after_first<A>(s: Seq<A>) -> Seq<A> {
    if s.len() == 0 { s } else { s.drop_first() }
}

/// A line of `adb devices`: its first two words, serial and state.
pub open spec fn adb_line(l: Seq<char>) -> Option<(Seq<char>, Seq<char>)> {
    let w = words(trim(l));
    if w.len() >= 2 { Some((w[0], w[1])) } else { None }
}

/// `adb devices` output: (serial, state) for each line after the header
/// that has two words.
pub open spec fn adb_devices_of(text: Seq<char>) -> Seq<(Seq<char>, Seq<char>)> {
    keep_some(after_first(lines(text)), |l: Seq<char>| adb_line(l))
}

fn first_two_words(l: &[char]) -> (r: Option<(String, String)>)
    ensures
        r matches Some(p) ==> words(l@).len() >= 2 && p.0@ == words(l@)[0] && p.1@ == words(l@)[1],
        r is None ==> words(l@).len() < 2,
{
    let w = split_words(l);
    if w.len() < 2 {
        return None;
    }
    assert(chars_seq(w@)[0] == w@[0]@ && chars_seq(w@)[1] == w@[1]@);
    Some((string_of(w[0].as_slice()), string_of(w[1].as_slice())))
}

fn adb_device(line: &[char]) -> (r: Option<(String, String)>)
    ensures
        r matches Some(p) ==> adb_line(line@) == Some((p.0@, p.1@)),
        r is None ==> adb_line(line@) is None,
{
    let t = trimmed(line);
    first_two_words(t.as_slice())
}

/// `adb devices` output, read into (serial, state) pairs.
pub fn parse_adb_devices(output: &str) -> (r: Vec<(String, String)>)
    ensures
        pairs_seq(r@) == adb_devices_of(output@),
{
    let cs = chars_of(output);
    let ls = lines_of(cs.as_slice());
    let ghost all = lines(output@);
    let ghost rest = after_first(all);
    let ghost f = |l: Seq<char>| adb_line(l);
    let mut out: Vec<(String, String)> = Vec::new();
    if ls.len() == 0 {
        return out;
    }
    let mut i: usize = 1;
    assert(rest.take(0) =~= Seq::<Seq<char>>::empty());
    while i < ls.len()
        invariant
            1 <= i <= ls@.len(),
            chars_seq(ls@) == all,
            rest == all.drop_first(),
            f == (|l: Seq<char>| adb_line(l)),
            pairs_seq(out@) == keep_some(rest.take(i - 1), f),
        decreases ls@.len() - i,
    {
        proof { lemma_keep_some_step(rest, f, i - 1); }
        assert(rest[i - 1] == ls@[i as int]@);
        assert(f(rest[i - 1]) == adb_line(rest[i - 1]));
        let ghost before = pairs_seq(out@);
        match adb_device(ls[i].as_slice()) {
            Some(p) => {
                out.push(p);
                assert(pairs_seq(out@) =~= before.push((p.0@, p.1@)));
            },
            None => {},
        }
        i = i + 1;
    }
    assert(rest.take(ls@.len() - 1) =~= rest);
    out
}

/// A line of `fastboot getvar` output, "(bootloader) key: value": split at
/// its last colon; kept when the key is nonempty and has no space.
pub open spec fn fastboot_var_line(line: Seq<char>) -> Option<(Seq<char>, Seq<char>)> {
    let l = trim(line);
    let l = trim(if starts_with(l, "(bootloader)"@) { l.skip("(bootloader)"@.len() as int) } else { l });
    match last_index_of(l, ':') {
        None => None,
        Some(i) => {
            let k = trim(l.take(i as int));
            let v = trim(l.skip(i as int + 1));
            if k.len() > 0 && !has_char(k, ' ') { Some((k, v)) } else { None }
        },
    }
}

pub open spec fn fastboot_vars_of(text: Seq<char>) -> Seq<(Seq<char>, Seq<char>)> {
    keep_some(lines(text), |l: Seq<char>| fastboot_var_line(l))
}

fn fastboot_var(line: &[char]) -> (r: Option<(String, String)>)
    ensures
        r matches Some(p) ==> fastboot_var_line(line@) == Some((p.0@, p.1@)),
        r is None ==> fastboot_var_line(line@) is None,
{
    let l = trimmed(line);
    let pre = chars_of("(bootloader)");
    let l2 = if has_prefix(l.as_slice(), pre.as_slice()) {
        let n = pre.len();
        assert(l@.subrange(n as int, l@.len() as int) =~= l@.skip(n as int));
        trimmed(&l.as_slice()[n..l.len()])
    } else {
        trimmed(l.as_slice())
    };
    match rfind_char(l2.as_slice(), ':') {
        None => None,
        Some(i) => {
            assert(l2@.subrange(0, i as int) =~= l2@.take(i as int));
            assert(l2@.subrange(i + 1, l2@.len() as int) =~= l2@.skip(i + 1));
            let k = trimmed(&l2.as_slice()[0..i]);
            let v = trimmed(&l2.as_slice()[i + 1..l2.len()]);
            if k.len() > 0 && !contains_char(k.as_slice(), ' ') {
                Some((string_of(k.as_slice()), string_of(v.as_slice())))
            } else {
                None
            }
        },
    }
}

/// `fastboot getvar all` output, read into (variable, value) pairs.
pub fn parse_fastboot_vars(text: &str) -> (r: Vec<(String, String)>)
    ensures
        pairs_seq(r@) == fastboot_vars_of(text@),
{
    let cs = chars_of(text);
    let ls = lines_of(cs.as_slice());
    let ghost all = lines(text@);
    let ghost f = |l: Seq<char>| fastboot_var_line(l);
    let mut out: Vec<(String, String)> = Vec::new();
    let mut i: usize = 0;
    assert(all.take(0) =~= Seq::<Seq<char>>::empty());
    while i < ls.len()
        invariant
            i <= ls@.len(),
            chars_seq(ls@) == all,
            f == (|l: Seq<char>| fastboot_var_line(l)),
            pairs_seq(out@) == keep_some(all.take(i as int), f),
        decreases ls@.len() - i,
    {
        proof { lemma_keep_some_step(all, f, i as int); }
        assert(all[i as int] == ls@[i as int]@);
        assert(f(all[i as int]) == fastboot_var_line(all[i as int]));
        let ghost before = pairs_seq(out@);
        match fastboot_var(ls[i].as_slice()) {
            Some(p) => {
                out.push(p);
                assert(pairs_seq(out@) =~= before.push((p.0@, p.1@)));
            },
            None => {},
        }
        i = i + 1;
    }
    assert(all.take(ls@.len() as int) =~= all);
    out
}

/// A fastboot size such as "0x20000000": trimmed, every leading "0x" and
/// then every leading "0X" dropped, the rest read as hexadecimal.
pub open spec fn hex_size_of(v: Seq<char>) -> Option<nat> {
    parse_radix16(strip_all_prefix(strip_all_prefix(trim(v), "0x"@), "0X"@), u64::MAX as nat)
}

/// Reads a fastboot partition size.
pub fn parse_hex_size(v: &str) -> (r: Option<u64>)
    ensures
        r matches Some(n) ==> hex_size_of(v@) == Some(n as nat),
        r is None ==> hex_size_of(v@) is None,
{
    let cs = chars_of(v);
    let t = trimmed(cs.as_slice());
    let p1 = chars_of("0x");
    let p2 = chars_of("0X");
    let a = without_prefixes(t.as_slice(), p1.as_slice());
    let b = without_prefixes(a.as_slice(), p2.as_slice());
    parse_hex_u64(b.as_slice())
}

/// A device seen by `adb` or `fastboot`.
#[derive(Debug, Clone)]
pub struct DeviceEntry {
    pub serial: String,
    pub state: String,
}

pub open spec fn devices_view(v: Seq<DeviceEntry>) -> Seq<(Seq<char>, Seq<char>)> {
    v.map_values(|d: DeviceEntry| (d.serial@, d.state@))
}

/// A line of `fastboot devices`, "SERIAL\tfastboot": a device when its
/// second word mentions fastboot.
pub open spec fn fastboot_device_line(l: Seq<char>) -> Option<(Seq<char>, Seq<char>)> {
    let w = words(l);
    if w.len() >= 2 && find_text_spec(w[1], "fastboot"@) is Some { Some((w[0], "fastboot"@)) } else { None }
}

fn fastboot_device(line: &[char]) -> (r: Option<DeviceEntry>)
    ensures
        r matches Some(d) ==> fastboot_device_line(line@) == Some((d.serial@, d.state@)),
        r is None ==> fastboot_device_line(line@) is None,
{
    let fb = chars_of("fastboot");
    let w = split_words(line);
    if w.len() < 2 {
        return None;
    }
    assert(chars_seq(w@)[0] == w@[0]@ && chars_seq(w@)[1] == w@[1]@);
    if find_text(w[1].as_slice(), fb.as_slice()).is_some() {
        Some(DeviceEntry { serial: string_of(w[0].as_slice()), state: "fastboot".to_owned() })
    } else {
        None
    }
}

/// Devices listed by `fastboot devices`.
pub fn parse_fastboot_devices(text: &str) -> (r: Vec<DeviceEntry>)
    ensures
        devices_view(r@) == keep_some(lines(text@), |l: Seq<char>| fastboot_device_line(l)),
{
    let cs = chars_of(text);
    let ls = lines_of(cs.as_slice());
    let ghost all = lines(text@);
    let ghost f = |l: Seq<char>| fastboot_device_line(l);
    let mut out: Vec<DeviceEntry> = Vec::new();
    let mut i: usize = 0;
    assert(all.take(0) =~= Seq::<Seq<char>>::empty());
    while i < ls.len()
        invariant
            i <= ls@.len(),
            chars_seq(ls@) == all,
            f == (|l: Seq<char>| fastboot_device_line(l)),
            devices_view(out@) == keep_some(all.take(i as int), f),
        decreases ls@.len() - i,
    {
        proof { lemma_keep_some_step(all, f, i as int); }
        assert(all[i as int] == ls@[i as int]@);
        assert(f(all[i as int]) == fastboot_device_line(all[i as int]));
        let ghost before = devices_view(out@);
        match fastboot_device(ls[i].as_slice()) {
            Some(d) => {
                out.push(d);
                assert(devices_view(out@) =~= before.push((d.serial@, d.state@)));
            },
            None => {},
        }
        i = i + 1;
    }
    assert(all.take(ls@.len() as int) =~= all);
    out
}

/// A line of `getprop` output, "[key]: [value]": the text between the
/// outer brackets, split at its first "]: [".
pub open spec fn getprop_line(line: Seq<char>) -> Option<(Seq<char>, Seq<char>)> {
    let t = trim(line);
    if t.len() >= 2 && t[0] == '[' && t.last() == ']' {
        let inner = t.subrange(1, t.len() - 1);
        match find_text_spec(inner, "]: ["@) {
            Some(i) => Some((inner.take(i as int), inner.skip(i as int + "]: ["@.len()))),
            None => None,
        }
    } else {
        None
    }
}

fn getprop_pair(line: &[char]) -> (r: Option<(String, String)>)
    ensures
        r matches Some(p) ==> getprop_line(line@) == Some((p.0@, p.1@)),
        r is None ==> getprop_line(line@) is None,
{
    let sep = chars_of("]: [");
    let t = trimmed(line);
    if !(t.len() >= 2 && t[0] == '[' && t[t.len() - 1] == ']') {
        return None;
    }
    let inner = &t.as_slice()[1..t.len() - 1];
    assert(inner@ =~= t@.subrange(1, t@.len() - 1));
    match find_text(inner, sep.as_slice()) {
        Some(k) => {
            let e = k + sep.len();
            assert(inner@.subrange(0, k as int) =~= inner@.take(k as int));
            assert(inner@.subrange(e as int, inner@.len() as int) =~= inner@.skip(e as int));
            Some((string_of(&inner[0..k]), string_of(&inner[e..inner.len()])))
        },
        None => None,
    }
}

/// `adb shell getprop` output, read into (property, value) pairs.
pub fn parse_getprop(text: &str) -> (r: Vec<(String, String)>)
    ensures
        pairs_seq(r@) == keep_some(lines(text@), |l: Seq<char>| getprop_line(l)),
{
    let cs = chars_of(text);
    let ls = lines_of(cs.as_slice());
    let ghost all = lines(text@);
    let ghost f = |l: Seq<char>| getprop_line(l);
    let mut out: Vec<(String, String)> = Vec::new();
    let mut i: usize = 0;
    assert(all.take(0) =~= Seq::<Seq<char>>::empty());
    while i < ls.len()
        invariant
            i <= ls@.len(),
            chars_seq(ls@) == all,
            f == (|l: Seq<char>| getprop_line(l)),
            pairs_seq(out@) == keep_some(all.take(i as int), f),
        decreases ls@.len() - i,
    {
        proof { lemma_keep_some_step(all, f, i as int); }
        assert(all[i as int] == ls@[i as int]@);
        assert(f(all[i as int]) == getprop_line(all[i as int]));
        let ghost before = pairs_seq(out@);
        match getprop_pair(ls[i].as_slice()) {
            Some(p) => {
                out.push(p);
                assert(pairs_seq(out@) =~= before.push((p.0@, p.1@)));
            },
            None => {},
        }
        i = i + 1;
    }
    assert(all.take(ls@.len() as int) =~= all);
    out
}

// ---- reboots ----

/// Why a reboot was refused.
#[derive(Debug, Clone, PartialEq, Eq)]
pub enum RebootError {
    /// A target this transport does not offer; the target.
    UnsupportedTarget(String),
}

/// The argument of `adb reboot` for a target: bootloader, recovery,
/// fastbootd (as "fastboot"), download or sideload.
pub open spec fn adb_reboot_arg_of(target: Seq<char>) -> Option<Seq<char>> {
    if target == "fastbootd"@ {
        Some("fastboot"@)
    } else if target == "bootloader"@ || target == "recovery"@ || target == "download"@ || target == "sideload"@ {
        Some(target)
    } else {
        None
    }
}

/// The argument for `adb -s SERIAL reboot`.
pub fn adb_reboot_arg(target: &str) -> (r: Result<String, RebootError>)
    ensures
        match (r, adb_reboot_arg_of(target@)) {
            (Ok(a), Some(b)) => a@ == b,
            (Err(RebootError::UnsupportedTarget(t)), None) => t@ == target@,
            _ => false,
        },
{
    let t = chars_of(target);
    if same_text(t.as_slice(), "fastbootd") {
        Ok("fastboot".to_owned())
    } else if same_text(t.as_slice(), "bootloader") || same_text(t.as_slice(), "recovery")
        || same_text(t.as_slice(), "download") || same_text(t.as_slice(), "sideload") {
        Ok(target.to_owned())
    } else {
        Err(RebootError::UnsupportedTarget(target.to_owned()))
    }
}

/// The fastboot command for a target: "reboot-fastboot" for fastbootd,
/// "reboot-" and the target for bootloader and recovery.
pub open spec fn fastboot_reboot_arg_of(target: Seq<char>) -> Option<Seq<char>> {
    if target == "fastbootd"@ {
        Some("reboot-fastboot"@)
    } else if target == "bootloader"@ || target == "recovery"@ {
        Some("reboot-"@ + target)
    } else {
        None
    }
}

/// The command for `fastboot -s SERIAL`.
pub fn fastboot_reboot_arg(target: &str) -> (r: Result<String, RebootError>)
    ensures
        match (r, fastboot_reboot_arg_of(target@)) {
            (Ok(a), Some(b)) => a@ == b,
            (Err(RebootError::UnsupportedTarget(t)), None) => t@ == target@,
            _ => false,
        },
{
    let t = chars_of(target);
    if same_text(t.as_slice(), "fastbootd") {
        Ok("reboot-fastboot".to_owned())
    } else if same_text(t.as_slice(), "bootloader") || same_text(t.as_slice(), "recovery") {
        let mut buf: Vec<char> = Vec::new();
        push_text(&mut buf, "reboot-");
        push_chars(&mut buf, t.as_slice());
        Ok(string_of(buf.as_slice()))
    } else {
        Err(RebootError::UnsupportedTarget(target.to_owned()))
    }
}

// ---- guarded flashing ----

/// The flash decision, made before anything is written.
#[derive(Debug, Clone)]
pub struct FlashPlan {
    pub partition: String,
    pub image: String,
    pub image_size: u64,
    pub partition_size: Option<u64>,
    pub dynamic: bool,
    pub userspace_fastboot: Option<bool>,
    pub identity: bool,
    pub bootloader: bool,
    /// Facts worth reading before proceeding.
    pub warnings: Vec<String>,
    /// Operations that cannot succeed; the flash stays disabled.
    pub blockers: Vec<String>,
    /// Risks the user must acknowledge first.
    pub unacknowledged: Vec<String>,
}

/// The value of the first variable named `key`.
pub open spec fn first_value(vars: Seq<(Seq<char>, Seq<char>)>, key: Seq<char>) -> Option<Seq<char>>
    decreases vars.len(),
{
    if vars.len() == 0 {
        None
    } else if vars[0].0 == key {
        Some(vars[0].1)
    } else {
        first_value(vars.drop_first(), key)
    }
}

pub open spec fn size_blocker(image_size: u64, partition: Seq<char>, psize: u64) -> Seq<char> {
    "image ("@ + dec_text(image_size as nat) + " bytes) is larger than partition "@ + partition + " ("@
        + dec_text(psize as nat) + " bytes) - fastboot would fail mid-write"@
}

pub open spec fn identity_warning(partition: Seq<char>) -> Seq<char> {
    "IDENTITY PARTITION OVERRIDE: "@ + partition
        + " holds IMEI/radio/calibration state. Without a backup of this exact partition, overwriting it may permanently lose it."@
}

pub open spec fn identity_risk(partition: Seq<char>) -> Seq<char> {
    partition
        + " holds device identity/radio state (IMEI, calibration). Overwriting it without a backup cannot be undone - nothing can put it back. Proceed only with your own backup of this partition."@
}

pub open spec fn bootloader_warning(partition: Seq<char>) -> Seq<char> {
    "BOOTLOADER CHAIN OVERRIDE: a bad write to "@ + partition + " can permanently brick the device."@
}

pub open spec fn bootloader_risk(partition: Seq<char>) -> Seq<char> {
    partition + " is part of the bootloader chain - a bad write here can permanently brick the device."@
}

pub open spec fn dynamic_note(partition: Seq<char>) -> Seq<char> {
    partition
        + " is a dynamic partition and the device is in bootloader fastboot - most devices need fastbootd for this; fastboot will error immediately if this one does not support it."@
}

pub open spec fn when(b: bool, m: Seq<char>) -> Seq<Seq<char>> {
    if b { seq![m] } else { seq![] }
}

/// Whether the device reports userspace fastboot (fastbootd).
pub open spec fn userspace_of(vars: Seq<(Seq<char>, Seq<char>)>) -> Option<bool> {
    match first_value(vars, "is-userspace"@) {
        Some(v) => Some(v == "yes"@),
        None => None,
    }
}

/// The size the device reports for the partition.
pub open spec fn partition_size_of(vars: Seq<(Seq<char>, Seq<char>)>, partition: Seq<char>) -> Option<u64> {
    match first_value(vars, "partition-size:"@ + partition) {
        Some(v) => match hex_size_of(v) {
            Some(n) => Some(n as u64),
            None => None,
        },
        None => None,
    }
}

/// The plan's flags and messages, from the partition, the image size, the
/// device variables and the user's three opt-ins.
pub open spec fn plan_holds(
    plan: FlashPlan,
    partition: Seq<char>,
    image: Seq<char>,
    image_size: u64,
    vars: Seq<(Seq<char>, Seq<char>)>,
    bootloader_opt_in: bool,
    identity_opt_in: bool,
    dynamic_ack: bool,
) -> bool {
    let class = partition_class(partition);
    let identity = identity_class(class);
    let bootloader = bootloader_class(class);
    let dynamic = dynamic_class(class);
    let userspace = userspace_of(vars);
    let psize = partition_size_of(vars, partition);
    let dyn_risk = dynamic && userspace != Some(true);
    &&& plan.partition@ == partition
    &&& plan.image@ == image
    &&& plan.image_size == image_size
    &&& plan.partition_size == psize
    &&& plan.dynamic == dynamic
    &&& plan.userspace_fastboot == userspace
    &&& plan.identity == identity
    &&& plan.bootloader == bootloader
    &&& texts(plan.blockers@) == (match psize {
        Some(p) => when(image_size > p, size_blocker(image_size, partition, p)),
        None => seq![],
    })
    &&& texts(plan.warnings@) == when(identity && identity_opt_in, identity_warning(partition))
        + when(bootloader && bootloader_opt_in, bootloader_warning(partition))
        + when(dyn_risk && dynamic_ack, dynamic_note(partition))
    &&& texts(plan.unacknowledged@) == when(identity && !identity_opt_in, identity_risk(partition))
        + when(bootloader && !bootloader_opt_in, bootloader_risk(partition))
        + when(dyn_risk && !dynamic_ack, dynamic_note(partition))
}

fn lookup_var(vars: &[(String, String)], key: &[char]) -> (r: Option<String>)
    ensures
        r matches Some(v) ==> first_value(pairs_seq(vars@), key@) == Some(v@),
        r is None ==> first_value(pairs_seq(vars@), key@) is None,
{
    let ghost all = pairs_seq(vars@);
    let mut i: usize = 0;
    assert(all.skip(0) =~= all);
    while i < vars.len()
        invariant
            i <= vars@.len(),
            all == pairs_seq(vars@),
            first_value(all, key@) == first_value(all.skip(i as int), key@),
        decreases vars@.len() - i,
    {
        let k = chars_of(vars[i].0.as_str());
        assert(all.skip(i as int)[0] == all[i as int]);
        assert(all.skip(i as int).drop_first() =~= all.skip(i + 1));
        if k.len() == key.len() && has_prefix(k.as_slice(), key) {
            assert(k@.take(key@.len() as int) =~= k@);
            return Some(vars[i].1.clone());
        }
        proof {
            if k@ == key@ { assert(k@.take(key@.len() as int) =~= k@); }
        }
        i = i + 1;
    }
    None
}

fn with_partition(before: &str, partition: &[char], after: &str) -> (r: String)
    ensures
        r@ == before@ + partition@ + after@,
{
    let mut buf: Vec<char> = Vec::new();
    push_text(&mut buf, before);
    push_chars(&mut buf, partition);
    push_text(&mut buf, after);
    string_of(buf.as_slice())
}

/// Builds the flash decision for writing an image of `image_size` bytes to
/// `partition`, given the variables the device reported: every check is
/// visible before anything is written. The tool informs and asks for
/// acknowledgement; only an image larger than its partition is blocked.
pub fn plan_flash(
    partition: &str,
    image: &str,
    image_size: u64,
    vars: &[(String, String)],
    bootloader_opt_in: bool,
    identity_opt_in: bool,
    dynamic_ack: bool,
) -> (plan: FlashPlan)
    ensures
        plan_holds(plan, partition@, image@, image_size, pairs_seq(vars@), bootloader_opt_in,
            identity_opt_in, dynamic_ack),
        all_ascii(partition@) ==> partition_class(partition@) == ascii_partition_class(partition@),
{
    let p = chars_of(partition);
    let dynamic = is_dynamic_partition(partition);
    let identity = is_identity_partition(partition);
    let bootloader = is_bootloader_partition(partition);
    let us_key = chars_of("is-userspace");
    let userspace_fastboot = match lookup_var(vars, us_key.as_slice()) {
        Some(v) => Some(v == "yes".to_owned()),
        None => None,
    };
    let mut size_key: Vec<char> = Vec::new();
    push_text(&mut size_key, "partition-size:");
    push_chars(&mut size_key, p.as_slice());
    let partition_size = match lookup_var(vars, size_key.as_slice()) {
        Some(v) => parse_hex_size(v.as_str()),
        None => None,
    };

    let mut warnings: Vec<String> = Vec::new();
    let mut blockers: Vec<String> = Vec::new();
    let mut unacknowledged: Vec<String> = Vec::new();

    match partition_size {
        Some(psize) => {
            if image_size > psize {
                let mut buf: Vec<char> = Vec::new();
                push_text(&mut buf, "image (");
                let a = dec_chars(image_size);
                push_chars(&mut buf, a.as_slice());
                push_text(&mut buf, " bytes) is larger than partition ");
                push_chars(&mut buf, p.as_slice());
                push_text(&mut buf, " (");
                let b = dec_chars(psize);
                push_chars(&mut buf, b.as_slice());
                push_text(&mut buf, " bytes) - fastboot would fail mid-write");
                blockers.push(string_of(buf.as_slice()));
            }
        },
        None => {},
    }
    if identity {
        if identity_opt_in {
            warnings.push(with_partition("IDENTITY PARTITION OVERRIDE: ", p.as_slice(),
                " holds IMEI/radio/calibration state. Without a backup of this exact partition, overwriting it may permanently lose it."));
        } else {
            unacknowledged.push(with_partition("", p.as_slice(),
                " holds device identity/radio state (IMEI, calibration). Overwriting it without a backup cannot be undone - nothing can put it back. Proceed only with your own backup of this partition."));
        }
    }
    if bootloader {
        if bootloader_opt_in {
            warnings.push(with_partition("BOOTLOADER CHAIN OVERRIDE: a bad write to ", p.as_slice(),
                " can permanently brick the device."));
        } else {
            unacknowledged.push(with_partition("", p.as_slice(),
                " is part of the bootloader chain - a bad write here can permanently brick the device."));
        }
    }
    let dyn_risk = match userspace_fastboot {
        Some(u) => dynamic && !u,
        None => dynamic,
    };
    if dyn_risk {
        let note = with_partition("", p.as_slice(),
            " is a dynamic partition and the device is in bootloader fastboot - most devices need fastbootd for this; fastboot will error immediately if this one does not support it.");
        if dynamic_ack {
            warnings.push(note);
        } else {
            unacknowledged.push(note);
        }
    }
    proof {
        reveal_strlit("");
        assert(texts(blockers@) =~= (match partition_size {
            Some(ps) => when(image_size > ps, size_blocker(image_size, partition@, ps)),
            None => seq![],
        }));
        assert(texts(warnings@) =~= when(identity && identity_opt_in, identity_warning(partition@))
            + when(bootloader && bootloader_opt_in, bootloader_warning(partition@))
            + when(dyn_risk && dynamic_ack, dynamic_note(partition@)));
        assert(texts(unacknowledged@) =~= when(identity && !identity_opt_in, identity_risk(partition@))
            + when(bootloader && !bootloader_opt_in, bootloader_risk(partition@))
            + when(dyn_risk && !dynamic_ack, dynamic_note(partition@)));
    }
    FlashPlan {
        partition: partition.to_owned(),
        image: image.to_owned(),
        image_size,
        partition_size,
        dynamic,
        userspace_fastboot,
        identity,
        bootloader,
        warnings,
        blockers,
        unacknowledged,
    }
}

/// Why a flash does not go ahead.
#[derive(Debug, Clone, PartialEq, Eq)]
pub enum FlashRefusal {
    /// The blockers, joined by "; ".
    Impossible(String),
    /// The unacknowledged risks, joined by "; ".
    Unacknowledged(String),
}

/// Whether a plan may be carried out: refused while it has a blocker, then
/// while it has an unacknowledged risk.
pub fn flash_gate(plan: &FlashPlan) -> (r: Result<(), FlashRefusal>)
    ensures
        plan.blockers@.len() > 0 ==> (r matches Err(FlashRefusal::Impossible(m))
            && m@ == joined(texts(plan.blockers@), "; "@)),
        plan.blockers@.len() == 0 && plan.unacknowledged@.len() > 0 ==> (r matches Err(FlashRefusal::Unacknowledged(m))
            && m@ == joined(texts(plan.unacknowledged@), "; "@)),
        r is Ok <==> plan.blockers@.len() == 0 && plan.unacknowledged@.len() == 0,
{
    if plan.blockers.len() > 0 {
        return Err(FlashRefusal::Impossible(join_texts(plan.blockers.as_slice(), "; ")));
    }
    if plan.unacknowledged.len() > 0 {
        return Err(FlashRefusal::Unacknowledged(join_texts(plan.unacknowledged.as_slice(), "; ")));
    }
    Ok(())
}

/// The opt-ins never lift a blocker: two plans for the same partition,
/// image and device variables have the same blockers whatever was
/// acknowledged, and there is one exactly when the image is larger than
/// the size the device reports.
pub proof fn lemma_opt_ins_never_unblock(
    a: FlashPlan,
    b: FlashPlan,
    partition: Seq<char>,
    image: Seq<char>,
    image_size: u64,
    vars: Seq<(Seq<char>, Seq<char>)>,
    bl_a: bool, id_a: bool, dy_a: bool,
    bl_b: bool, id_b: bool, dy_b: bool,
)
    requires
        plan_holds(a, partition, image, image_size, vars, bl_a, id_a, dy_a),
        plan_holds(b, partition, image, image_size, vars, bl_b, id_b, dy_b),
    ensures
        texts(a.blockers@) == texts(b.blockers@),
        a.blockers@.len() > 0 <==> (partition_size_of(vars, partition) matches Some(p) && image_size > p),
{
    assert(a.blockers@.len() == texts(a.blockers@).len());
}

/// With every risk acknowledged nothing is left to acknowledge, and each
/// risk shows up once, as a warning or as a question, never as a blocker.
pub proof fn lemma_full_opt_in_clears_risks(
    plan: FlashPlan,
    partition: Seq<char>,
    image: Seq<char>,
    image_size: u64,
    vars: Seq<(Seq<char>, Seq<char>)>,
)
    requires
        plan_holds(plan, partition, image, image_size, vars, true, true, true),
    ensures
        plan.unacknowledged@.len() == 0,
{
    assert(texts(plan.unacknowledged@).len() == 0);
}

} // verus!
