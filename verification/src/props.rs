//! `build.prop`-style property files: which ones a ROM ships, which paths
//! the editor may write, and the "key=value" reading of their lines.
//! Comments and blank lines are kept verbatim on save, so a round trip
//! never rewrites what it does not understand.
use vstd::prelude::*;
use crate::text::{chars_of, string_of, lines, lines_of, trim, trimmed, chars_seq, starts_with,
    has_char, contains_char, find_char, find_from, keep_some, lemma_keep_some_step, pairs_seq, same_text,
    ends_with, has_suffix, lemma_find_char};

verus! {

/// A prop file found in a workspace.
#[derive(Debug, Clone)]
pub struct PropFile {
    /// Path relative to the workspace root.
    pub rel: String,
    pub size: u64,
}

/// Prop files a ROM ships, in the order they usually matter.
pub open spec fn candidates() -> Seq<Seq<char>> {
    seq![
        "build.prop"@,
        "system/build.prop"@,
        "vendor/build.prop"@,
        "product/build.prop"@,
        "system/system_ext/build.prop"@,
        "system_ext/build.prop"@,
        "system/product/build.prop"@,
        "vendor/etc/prop.default"@,
        "system/etc/prop.default"@,
        "default.prop"@,
    ]
}

/// The prop files to look for, relative to the workspace root.
pub fn prop_candidates() -> (r: Vec<&'static str>)
    ensures
        r@.map_values(|s: &str| s@) == candidates(),
{
    let mut v: Vec<&'static str> = Vec::new();
    v.push("build.prop");
    v.push("system/build.prop");
    v.push("vendor/build.prop");
    v.push("product/build.prop");
    v.push("system/system_ext/build.prop");
    v.push("system_ext/build.prop");
    v.push("system/product/build.prop");
    v.push("vendor/etc/prop.default");
    v.push("system/etc/prop.default");
    v.push("default.prop");
    assert(v@.map_values(|s: &str| s@) =~= candidates());
    v
}

/// A line of a prop file read as a pair: a nonblank, non-comment line
/// holding '=' is split at its first '='; the key is trimmed, the value
/// kept as written.
pub open spec fn prop_line(l: Seq<char>) -> Option<(Seq<char>, Seq<char>)> {
    let t = trim(l);
    if t.len() > 0 && !starts_with(t, "#"@) && has_char(t, '=') {
        let i = find_char(l, '=') as int;
        Some((trim(l.take(i)), l.skip(i + 1)))
    } else {
        None
    }
}

/// The key/value pairs of a prop file, in order.
pub open spec fn props_of(content: Seq<char>) -> Seq<(Seq<char>, Seq<char>)> {
    keep_some(lines(content), |l: Seq<char>| prop_line(l))
}

proof fn lemma_trim_sub(s: Seq<char>, c: char)
    requires
        has_char(trim(s), c),
    ensures
        has_char(s, c),
{
    crate::text::lemma_trim_within(s);
    let t = trim(s);
    let k = choose|k: int| 0 <= k < t.len() && t[k] == c;
    let a = choose|a: int| #[trigger] crate::text::occurs_at(s, t, a);
    assert(s.subrange(a, a + t.len())[k] == s[a + k]);
}

fn prop_pair(l: &[char]) -> (r: Option<(String, String)>)
    ensures
        r matches Some(p) ==> prop_line(l@) == Some((p.0@, p.1@)),
        r is None ==> prop_line(l@) is None,
{
    let t = trimmed(l);
    if t.len() == 0 || t[0] == '#' || !contains_char(t.as_slice(), '=') {
        proof {
            if t@.len() > 0 && t@[0] == '#' {
                reveal_strlit("#");
                assert(t@.take(1) =~= "#"@);
            }
        }
        return None;
    }
    proof {
        reveal_strlit("#");
        if starts_with(t@, "#"@) { assert(t@.take(1)[0] == t@[0]); }
        lemma_trim_sub(l@, '=');
    }
    let i = find_from(l, 0, '=');
    proof {
        assert(l@.skip(0) =~= l@);
        lemma_find_char(l@, '=');
        let k = choose|k: int| 0 <= k < l@.len() && l@[k] == '=';
        assert(find_char(l@, '=') <= k);
    }
    assert(l@.subrange(0, i as int) =~= l@.take(i as int));
    assert(l@.subrange(i + 1, l@.len() as int) =~= l@.skip(i + 1));
    let n = l.len();
    assert(i < n);
    let k = trimmed(&l[0..i]);
    let v = &l[i + 1..n];
    Some((string_of(k.as_slice()), string_of(v)))
}

/// Reads the "key=value" lines of a prop file; comments, blank lines and
/// lines without '=' are passed over.
pub fn parse_props(content: &str) -> (r: Vec<(String, String)>)
    ensures
        pairs_seq(r@) == props_of(content@),
{
    let cs = chars_of(content);
    let ls = lines_of(cs.as_slice());
    let ghost all = lines(content@);
    let ghost f = |l: Seq<char>| prop_line(l);
    let mut out: Vec<(String, String)> = Vec::new();
    let mut i: usize = 0;
    assert(all.take(0) =~= Seq::<Seq<char>>::empty());
    while i < ls.len()
        invariant
            i <= ls@.len(),
            chars_seq(ls@) == all,
            f == (|l: Seq<char>| prop_line(l)),
            pairs_seq(out@) == keep_some(all.take(i as int), f),
        decreases ls@.len() - i,
    {
        proof { lemma_keep_some_step(all, f, i as int); }
        assert(all[i as int] == ls@[i as int]@);
        assert(f(all[i as int]) == prop_line(all[i as int]));
        let ghost before = pairs_seq(out@);
        match prop_pair(ls[i].as_slice()) {
            Some(p) => {
                out.push(p);
                assert(pairs_seq(out@) =~= before.push((p.0@, p.1@)));
            },
            None => {},
        }
        i = i + 1;
    }
    assert(all.take(ls@.len() as int) =~= all);
    out
}

/// The file names the editor may write: build.prop, default.prop,
/// prop.default, or anything ending in ".prop".
pub open spec fn prop_name(name: Seq<char>) -> bool {
    name == "build.prop"@ || name == "default.prop"@ || name == "prop.default"@ || ends_with(name, ".prop"@)
}

/// Whether a file name is one the prop editor may write.
pub fn is_prop_name(name: &str) -> (r: bool)
    ensures
        r == prop_name(name@),
{
    let n = chars_of(name);
    let suffix = chars_of(".prop");
    same_text(n.as_slice(), "build.prop") || same_text(n.as_slice(), "default.prop")
        || same_text(n.as_slice(), "prop.default") || has_suffix(n.as_slice(), suffix.as_slice())
}

} // verus!
