//! Android filesystem metadata: the fs_config binary that `e2fsdroid -C`
//! and `sload.f2fs -C` consume, file_contexts rules and their coverage of
//! a tree, and the debugfs script that applies ownership and SELinux
//! labels to a built ext4 image.
//!
//! Binary fs_config format (libcutils fs_config.cpp), little-endian per
//! record: u16 record length (16-byte header + name + NUL), u16 uid, u16
//! gid, u16 mode, u64 capabilities, then the name and a NUL.
//!
//! Walking the extracted tree is the caller's part; it hands over what it
//! found, in the order it found it.
use vstd::prelude::*;
use vstd::utf8::encode_utf8;
use crate::bytes::le_bytes;
use crate::text::{lemma_text_lt_transitive, lemma_text_lt_irreflexive, chars_of, string_of, lines, lines_of, trim, trimmed, chars_seq, starts_with,
    is_ws, is_ws_char, word_len, keep_some, lemma_keep_some_step, strip_all_suffix,
    without_suffixes, push_text, push_chars, texts, text_lt, text_less};

verus! {

// ---- regular expressions ----

#[verifier::external_type_specification]
#[verifier::external_body]
pub struct ExRegex(regex::Regex);

/// Whether `regex::Regex::new` accepts a pattern (its syntax, within the
/// default size limit).
pub uninterp spec fn regex_compiles(pattern: Seq<char>) -> bool;

/// Whether the regex compiled from `pattern` matches somewhere in `hay`
/// (`Regex::is_match`).
pub uninterp spec fn regex_matches(pattern: Seq<char>, hay: Seq<char>) -> bool;

/// A file_contexts rule: a compiled pattern and the context it assigns.
/// Only `compile_rule` makes one, so `re` is always compiled from
/// `pattern`.
pub struct ContextRule {
    re: regex::Regex,
    pattern: String,
    context: String,
}

impl ContextRule {
    pub closed spec fn pattern_view(&self) -> Seq<char> {
        self.pattern@
    }

    pub closed spec fn context_view(&self) -> Seq<char> {
        self.context@
    }
}

/// `regex::Regex::new(pattern)`: a rule when the pattern compiles. The
/// claim is that compiling succeeds exactly for the patterns the name
/// `regex_compiles` holds of.
#[verifier::external_body]
fn compile_rule(pattern: &str, context: &str) -> (r: Option<ContextRule>)
    ensures
        r is Some <==> regex_compiles(pattern@),
        r matches Some(rule) ==> rule.pattern_view() == pattern@ && rule.context_view() == context@,
{
    match regex::Regex::new(pattern) {
        Ok(re) => Some(ContextRule { re, pattern: pattern.to_owned(), context: context.to_owned() }),
        Err(_) => None,
    }
}

/// `Regex::is_match` of the rule's compiled pattern. The claim is that the
/// answer depends on the pattern and the haystack alone, as the name
/// `regex_matches` does; `re` was compiled from `pattern` by
/// `compile_rule`.
#[verifier::external_body]
fn rule_matches(rule: &ContextRule, hay: &str) -> (r: bool)
    ensures
        r == regex_matches(rule.pattern_view(), hay@),
{
    rule.re.is_match(hay)
}

// ---- file_contexts ----

/// A rule line of a file_contexts file: nonblank, not a comment, a
/// pattern up to the first whitespace and the (trimmed) context after it.
pub open spec fn rule_line(l: Seq<char>) -> Option<(Seq<char>, Seq<char>)> {
    let t = trim(l);
    if t.len() == 0 || starts_with(t, "#"@) {
        None
    } else {
        let k = word_len(t);
        if k >= t.len() { None } else { Some((t.take(k as int), trim(t.skip(k as int + 1)))) }
    }
}

/// The pattern that matches a whole path exactly where `p` does: `p`
/// anchored at both ends, as the runtime file_contexts backend anchors
/// each rule.
pub open spec fn whole_match(p: Seq<char>) -> Seq<char> {
    "^(?:"@ + p + ")$"@
}

/// Anchors a file_contexts pattern at both ends.
pub fn whole_match_pattern(p: &[char]) -> (r: String)
    ensures
        r@ == whole_match(p@),
{
    let mut out = chars_of("^(?:");
    push_chars(&mut out, p);
    let tail = chars_of(")$");
    push_chars(&mut out, tail.as_slice());
    string_of(out.as_slice())
}

/// The rules of a file_contexts text that compile, in order (each pattern
/// anchored to match whole paths), and how many rule lines did not
/// compile.
pub open spec fn rules_of(ls: Seq<Seq<char>>) -> (Seq<(Seq<char>, Seq<char>)>, nat)
    decreases ls.len(),
{
    if ls.len() == 0 {
        (seq![], 0)
    } else {
        let (rs, skipped) = rules_of(ls.drop_last());
        match rule_line(ls.last()) {
            None => (rs, skipped),
            Some((pat, ctx)) => if regex_compiles(whole_match(pat)) {
                (rs.push((whole_match(pat), ctx)), skipped)
            } else {
                (rs, skipped + 1)
            },
        }
    }
}

/// Ordered file_contexts rules. Lookup is first-match over whole paths, as
/// the runtime backend reads an in-order contexts file.
pub struct ContextRules {
    rules: Vec<ContextRule>,
    skipped: usize,
}

pub open spec fn rule_views(v: Seq<ContextRule>) -> Seq<(Seq<char>, Seq<char>)> {
    v.map_values(|r: ContextRule| (r.pattern_view(), r.context_view()))
}

/// The context of the first rule that matches `path`.
pub open spec fn first_match(rules: Seq<(Seq<char>, Seq<char>)>, path: Seq<char>) -> Option<Seq<char>>
    decreases rules.len(),
{
    if rules.len() == 0 {
        None
    } else if regex_matches(rules[0].0, path) {
        Some(rules[0].1)
    } else {
        first_match(rules.drop_first(), path)
    }
}

fn rule_parts(l: &[char]) -> (r: Option<(Vec<char>, Vec<char>)>)
    ensures
        match (r, rule_line(l@)) {
            (Some((p, c)), Some((q, d))) => p@ == q && c@ == d,
            (None, None) => true,
            _ => false,
        },
{
    let t = trimmed(l);
    proof { reveal_strlit("#"); }
    if t.len() == 0 || t[0] == '#' {
        proof { if t@.len() > 0 { assert(t@.take(1) =~= "#"@); } }
        return None;
    }
    proof { assert(t@.take(1)[0] == t@[0]); }
    let mut k: usize = 0;
    while k < t.len() && !is_ws_char(t[k])
        invariant
            k <= t@.len(),
            forall|m: int| 0 <= m < k ==> !is_ws(t@[m]),
        decreases t@.len() - k,
    {
        k = k + 1;
    }
    proof { lemma_word_len_is(t@, k as int); }
    if k >= t.len() {
        return None;
    }
    let n = t.len();
    assert(t@.subrange(0, k as int) =~= t@.take(k as int));
    assert(t@.subrange(k + 1, n as int) =~= t@.skip(k + 1));
    let pat = vstd::slice::slice_to_vec(&t.as_slice()[0..k]);
    let ctx = trimmed(&t.as_slice()[k + 1..n]);
    Some((pat, ctx))
}

proof fn lemma_word_len_is(s: Seq<char>, n: int)
    requires
        0 <= n <= s.len(),
        forall|m: int| 0 <= m < n ==> !is_ws(s[m]),
        n < s.len() ==> is_ws(s[n]),
    ensures
        word_len(s) == n,
    decreases s.len(),
{
    if s.len() > 0 && !is_ws(s[0]) {
        assert forall|m: int| 0 <= m < n - 1 implies !is_ws(s.drop_first()[m]) by {
            assert(s.drop_first()[m] == s[m + 1]);
        }
        lemma_word_len_is(s.drop_first(), n - 1);
    }
}

impl ContextRules {
    pub closed spec fn rules_view(&self) -> Seq<(Seq<char>, Seq<char>)> {
        rule_views(self.rules@)
    }

    pub closed spec fn skipped_view(&self) -> nat {
        self.skipped as nat
    }

    /// Reads the rules of a file_contexts text: "<regex> <context>" lines;
    /// comments and blank lines are passed over, each pattern is anchored
    /// to match whole paths, and patterns that do not compile are counted.
    pub fn parse(text: &str) -> (r: ContextRules)
        ensures
            (r.rules_view(), r.skipped_view()) == rules_of(lines(text@)),
    {
        let cs = chars_of(text);
        let ls = lines_of(cs.as_slice());
        let ghost all = lines(text@);
        let mut rules: Vec<ContextRule> = Vec::new();
        let mut skipped: usize = 0;
        let mut i: usize = 0;
        assert(all.take(0) =~= Seq::<Seq<char>>::empty());
        assert(rule_views(rules@) =~= Seq::<(Seq<char>, Seq<char>)>::empty());
        while i < ls.len()
            invariant
                i <= ls@.len(),
                chars_seq(ls@) == all,
                skipped <= i,
                (rule_views(rules@), skipped as nat) == rules_of(all.take(i as int)),
            decreases ls@.len() - i,
        {
            assert(all.take(i + 1).drop_last() =~= all.take(i as int));
            assert(all.take(i + 1).last() == ls@[i as int]@);
            match rule_parts(ls[i].as_slice()) {
                None => {},
                Some((p, c)) => {
                    let ps = whole_match_pattern(p.as_slice());
                    let cs2 = string_of(c.as_slice());
                    match compile_rule(ps.as_str(), cs2.as_str()) {
                        Some(rule) => {
                            let ghost before = rule_views(rules@);
                            let ghost rv = (rule.pattern_view(), rule.context_view());
                            rules.push(rule);
                            assert(rule_views(rules@) =~= before.push(rv));
                        },
                        None => {
                            skipped = skipped + 1;
                        },
                    }
                },
            }
            i = i + 1;
        }
        assert(all.take(ls@.len() as int) =~= all);
        ContextRules { rules, skipped }
    }

    /// The context of the first rule whose pattern matches all of `path`.
    pub fn lookup(&self, path: &str) -> (r: Option<&str>)
        ensures
            match (r, first_match(self.rules_view(), path@)) {
                (Some(s), Some(c)) => s@ == c,
                (None, None) => true,
                _ => false,
            },
    {
        let ghost rs = self.rules_view();
        let mut i: usize = 0;
        assert(rs.skip(0) =~= rs);
        while i < self.rules.len()
            invariant
                i <= self.rules@.len(),
                rs == self.rules_view(),
                first_match(rs, path@) == first_match(rs.skip(i as int), path@),
            decreases self.rules@.len() - i,
        {
            assert(rs.skip(i as int)[0] == rs[i as int]);
            assert(rs.skip(i as int).drop_first() =~= rs.skip(i + 1));
            if rule_matches(&self.rules[i], path) {
                return Some(self.rules[i].context.as_str());
            }
            i = i + 1;
        }
        None
    }

    /// How many rule lines did not compile.
    pub fn skipped(&self) -> (r: usize)
        ensures
            r == self.skipped_view(),
    {
        self.skipped
    }

    /// The paths no rule covers: the first `cap` of them, and how many
    /// there are.
    pub fn uncovered(&self, paths: &[String], cap: usize) -> (r: (Vec<String>, usize))
        ensures
            texts(r.0@) == uncovered_of(self.rules_view(), texts(paths@)).take(
                if uncovered_of(self.rules_view(), texts(paths@)).len() < cap {
                    uncovered_of(self.rules_view(), texts(paths@)).len() as int
                } else {
                    cap as int
                },
            ),
            r.1 == uncovered_of(self.rules_view(), texts(paths@)).len(),
    {
        let ghost rs = self.rules_view();
        let ghost all = texts(paths@);
        let ghost f = |p: Seq<char>| if first_match(rs, p) is None { Some(p) } else { None };
        let mut found: Vec<String> = Vec::new();
        let mut total: usize = 0;
        let mut i: usize = 0;
        assert(all.take(0) =~= Seq::<Seq<char>>::empty());
        assert(texts(found@) =~= Seq::<Seq<char>>::empty());
        while i < paths.len()
            invariant
                i <= paths@.len(),
                rs == self.rules_view(),
                all == texts(paths@),
                f == (|p: Seq<char>| if first_match(rs, p) is None { Some(p) } else { None }),
                total == keep_some(all.take(i as int), f).len(),
                total <= i,
                texts(found@) == keep_some(all.take(i as int), f).take(if total < cap { total as int } else { cap as int }),
            decreases paths@.len() - i,
        {
            proof { lemma_keep_some_step(all, f, i as int); }
            assert(all[i as int] == paths@[i as int]@);
            let ghost prev = keep_some(all.take(i as int), f);
            if self.lookup(paths[i].as_str()).is_none() {
                let ghost before = texts(found@);
                if found.len() < cap {
                    found.push(paths[i].clone());
                    assert(texts(found@) =~= before.push(all[i as int]));
                    assert(prev.push(all[i as int]).take(total + 1) =~= prev.take(total as int).push(all[i as int]));
                } else {
                    assert(texts(found@).len() == found@.len());
                    assert(prev.push(all[i as int]).take(cap as int) =~= prev.take(cap as int));
                }
                total = total + 1;
            }
            i = i + 1;
        }
        assert(all.take(paths@.len() as int) =~= all);
        (found, total)
    }
}

/// The paths of a walk that no rule covers, in order.
pub open spec fn uncovered_of(rules: Seq<(Seq<char>, Seq<char>)>, paths: Seq<Seq<char>>) -> Seq<Seq<char>> {
    keep_some(paths, |p: Seq<char>| if first_match(rules, p) is None { Some(p) } else { None })
}

/// debugfs's filespec parser does not honor quotes: a path with whitespace
/// or a double quote cannot be addressed.
pub open spec fn addressable_path(p: Seq<char>) -> bool {
    forall|k: int| 0 <= k < p.len() ==> !is_ws(#[trigger] p[k]) && p[k] != '"'
}

/// Whether debugfs can address a path.
pub fn addressable(path: &str) -> (r: bool)
    ensures
        r == addressable_path(path@),
{
    let cs = chars_of(path);
    let mut i: usize = 0;
    while i < cs.len()
        invariant
            i <= cs@.len(),
            cs@ == path@,
            forall|k: int| 0 <= k < i ==> !is_ws(#[trigger] cs@[k]) && cs@[k] != '"',
        decreases cs@.len() - i,
    {
        if is_ws_char(cs[i]) || cs[i] == '"' {
            return false;
        }
        i = i + 1;
    }
    true
}

// ---- debugfs script ----

/// What a walked entry is.
#[derive(Debug, Clone, Copy, PartialEq, Eq, Structural)]
pub enum EntryKind {
    Dir,
    File,
    /// A symlink or other special file.
    Other,
}

/// An entry of the walked tree: its path below the tree root, by
/// component, and its kind.
#[derive(Debug, Clone)]
pub struct TreeEntry {
    pub parts: Vec<String>,
    pub kind: EntryKind,
}

/// The first `k` components, each after a slash.
pub open spec fn slash_path(parts: Seq<Seq<char>>, k: int) -> Seq<char>
    decreases k,
{
    if k <= 0 { seq![] } else { slash_path(parts, k - 1) + seq!['/'] + parts[k - 1] }
}

/// The context an entry gets: that of the first rule matching its device
/// path, else its nearest ancestor's, up to the mount point's own.
pub open spec fn nearest_context(
    rules: Option<Seq<(Seq<char>, Seq<char>)>>,
    mount: Seq<char>,
    parts: Seq<Seq<char>>,
    k: int,
) -> Option<Seq<char>>
    decreases k,
{
    match rules {
        None => None,
        Some(rs) => match first_match(rs, mount + slash_path(parts, k)) {
            Some(c) => Some(c),
            None => if k <= 0 { None } else { nearest_context(rules, mount, parts, k - 1) },
        },
    }
}

/// Commands for one addressable entry: root ownership for directories and
/// files, then its label when it has one.
pub open spec fn entry_commands(img: Seq<char>, kind: EntryKind, ctx: Option<Seq<char>>) -> Seq<Seq<char>> {
    (if kind != EntryKind::Other {
        seq!["sif "@ + img + " uid 0"@, "sif "@ + img + " gid 0"@]
    } else {
        seq![]
    }) + (match ctx {
        Some(c) => seq!["ea_set "@ + img + " security.selinux "@ + c],
        None => seq![],
    })
}

pub open spec fn entry_view(e: TreeEntry) -> (Seq<Seq<char>>, EntryKind) {
    (texts(e.parts@), e.kind)
}

/// The script for the first `n` entries after the image root's commands,
/// and how many entries could not be addressed.
pub open spec fn script_of(
    rules: Option<Seq<(Seq<char>, Seq<char>)>>,
    mount: Seq<char>,
    entries: Seq<(Seq<Seq<char>>, EntryKind)>,
    n: int,
) -> (Seq<Seq<char>>, nat)
    decreases n,
{
    if n <= 0 {
        (seq!["sif / uid 0"@, "sif / gid 0"@] + match nearest_context(rules, mount, seq![], 0) {
            Some(c) => seq!["ea_set / security.selinux "@ + c],
            None => seq![],
        }, 0)
    } else {
        let (cmds, skipped) = script_of(rules, mount, entries, n - 1);
        let (parts, kind) = entries[n - 1];
        let img = slash_path(parts, parts.len() as int);
        if !addressable_path(img) {
            (cmds, skipped + 1)
        } else {
            (cmds + entry_commands(img, kind, nearest_context(rules, mount, parts, parts.len() as int)), skipped)
        }
    }
}

/// How many of the first `n` entries have an image path that debugfs
/// cannot address.
pub open spec fn unaddressable_count(entries: Seq<(Seq<Seq<char>>, EntryKind)>, n: int) -> nat
    decreases n,
{
    if n <= 0 {
        0
    } else {
        unaddressable_count(entries, n - 1)
            + if addressable_path(slash_path(entries[n - 1].0, entries[n - 1].0.len() as int)) { 0nat } else { 1nat }
    }
}

/// A debugfs script starts with the two root ownership lines, never
/// shrinks as entries are added, and the count it reports is the number
/// of entries whose image path cannot be addressed (those get no lines).
pub proof fn lemma_script_counts_unaddressable(
    rules: Option<Seq<(Seq<char>, Seq<char>)>>,
    mount: Seq<char>,
    entries: Seq<(Seq<Seq<char>>, EntryKind)>,
    n: int,
)
    requires
        0 <= n <= entries.len(),
    ensures
        script_of(rules, mount, entries, n).1 == unaddressable_count(entries, n),
        script_of(rules, mount, entries, n).0.len() >= 2,
        script_of(rules, mount, entries, n).0[0] == "sif / uid 0"@,
        script_of(rules, mount, entries, n).0[1] == "sif / gid 0"@,
        n > 0 && !addressable_path(slash_path(entries[n - 1].0, entries[n - 1].0.len() as int))
            ==> script_of(rules, mount, entries, n).0 == script_of(rules, mount, entries, n - 1).0,
    decreases n,
{
    if n > 0 {
        lemma_script_counts_unaddressable(rules, mount, entries, n - 1);
        let prev = script_of(rules, mount, entries, n - 1).0;
        let (parts, kind) = entries[n - 1];
        let img = slash_path(parts, parts.len() as int);
        if addressable_path(img) {
            let more = entry_commands(img, kind, nearest_context(rules, mount, parts, parts.len() as int));
            assert((prev + more)[0] == prev[0]);
            assert((prev + more)[1] == prev[1]);
        }
    }
}

fn slash_join(parts: &[String], k: usize) -> (r: Vec<char>)
    requires
        k <= parts@.len(),
    ensures
        r@ == slash_path(texts(parts@), k as int),
{
    let mut out: Vec<char> = Vec::new();
    let mut j: usize = 0;
    while j < k
        invariant
            j <= k <= parts@.len(),
            out@ == slash_path(texts(parts@), j as int),
        decreases k - j,
    {
        out.push('/');
        let c = chars_of(parts[j].as_str());
        push_chars(&mut out, c.as_slice());
        j = j + 1;
    }
    out
}

fn context_for<'a>(rules: Option<&'a ContextRules>, mount: &[char], parts: &[String]) -> (r: Option<&'a str>)
    ensures
        match (r, nearest_context(rules_opt(rules), mount@, texts(parts@), parts@.len() as int)) {
            (Some(s), Some(c)) => s@ == c,
            (None, None) => true,
            _ => false,
        },
{
    let rs = match rules {
        None => return None,
        Some(rs) => rs,
    };
    let mut k: usize = parts.len();
    loop
        invariant
            k <= parts@.len(),
            rules == Some(rs),
            nearest_context(rules_opt(rules), mount@, texts(parts@), parts@.len() as int)
                == nearest_context(rules_opt(rules), mount@, texts(parts@), k as int),
        decreases k,
    {
        let mut dev = vstd::slice::slice_to_vec(mount);
        let tail = slash_join(parts, k);
        push_chars(&mut dev, tail.as_slice());
        let d = string_of(dev.as_slice());
        match rs.lookup(d.as_str()) {
            Some(c) => return Some(c),
            None => {},
        }
        if k == 0 {
            return None;
        }
        k = k - 1;
    }
}

pub open spec fn rules_opt(rules: Option<&ContextRules>) -> Option<Seq<(Seq<char>, Seq<char>)>> {
    match rules {
        Some(r) => Some(r.rules_view()),
        None => None,
    }
}

fn labelled(buf: &mut Vec<String>, img: &[char], ctx: &str)
    ensures
        texts(final(buf)@) == texts(old(buf)@).push("ea_set "@ + img@ + " security.selinux "@ + ctx@),
{
    let mut c: Vec<char> = Vec::new();
    push_text(&mut c, "ea_set ");
    push_chars(&mut c, img);
    push_text(&mut c, " security.selinux ");
    push_text(&mut c, ctx);
    let ghost before = texts(buf@);
    buf.push(string_of(c.as_slice()));
    assert(texts(buf@) =~= before.push(c@));
}

fn owned(buf: &mut Vec<String>, img: &[char])
    ensures
        texts(final(buf)@) == texts(old(buf)@) + seq!["sif "@ + img@ + " uid 0"@, "sif "@ + img@ + " gid 0"@],
{
    let ghost before = texts(buf@);
    let mut a: Vec<char> = Vec::new();
    push_text(&mut a, "sif ");
    push_chars(&mut a, img);
    push_text(&mut a, " uid 0");
    let mut b: Vec<char> = Vec::new();
    push_text(&mut b, "sif ");
    push_chars(&mut b, img);
    push_text(&mut b, " gid 0");
    buf.push(string_of(a.as_slice()));
    buf.push(string_of(b.as_slice()));
    assert(texts(buf@) =~= before + seq![a@, b@]);
}

/// The debugfs commands that give a built ext4 image root:root ownership
/// and SELinux labels, for the entries of the walked tree in walk order;
/// labels match device paths (`mount` and below) while commands address
/// image paths. Also returns how many entries could not be addressed.
pub fn debugfs_commands(mount_point: &str, rules: Option<&ContextRules>, entries: &[TreeEntry]) -> (r: (Vec<String>, usize))
    ensures
        (texts(r.0@), r.1 as nat) == script_of(rules_opt(rules), strip_all_suffix(mount_point@, "/"@),
            entries@.map_values(|e: TreeEntry| entry_view(e)), entries@.len() as int),
{
    let ghost ev = entries@.map_values(|e: TreeEntry| entry_view(e));
    let mc = chars_of(mount_point);
    let slash = chars_of("/");
    let mount = without_suffixes(mc.as_slice(), slash.as_slice());
    let ghost m = mount@;
    let mut cmds: Vec<String> = Vec::new();
    cmds.push("sif / uid 0".to_owned());
    cmds.push("sif / gid 0".to_owned());
    let no_parts: Vec<String> = Vec::new();
    assert(texts(no_parts@) =~= Seq::<Seq<char>>::empty());
    match context_for(rules, mount.as_slice(), no_parts.as_slice()) {
        Some(c) => {
            let ghost before = texts(cmds@);
            let mut t: Vec<char> = Vec::new();
            push_text(&mut t, "ea_set / security.selinux ");
            push_text(&mut t, c);
            cmds.push(string_of(t.as_slice()));
            assert(texts(cmds@) =~= before.push(t@));
        },
        None => {},
    }
    let mut skipped: usize = 0;
    let mut i: usize = 0;
    assert(texts(cmds@) =~= script_of(rules_opt(rules), m, ev, 0).0);
    while i < entries.len()
        invariant
            i <= entries@.len(),
            m == mount@,
            ev == entries@.map_values(|e: TreeEntry| entry_view(e)),
            skipped <= i,
            (texts(cmds@), skipped as nat) == script_of(rules_opt(rules), m, ev, i as int),
        decreases entries@.len() - i,
    {
        let e = &entries[i];
        assert(ev[i as int] == entry_view(entries@[i as int]));
        let n = e.parts.len();
        let img = slash_join(e.parts.as_slice(), n);
        let is = string_of(img.as_slice());
        if !addressable(is.as_str()) {
            skipped = skipped + 1;
        } else {
            let ctx = context_for(rules, mount.as_slice(), e.parts.as_slice());
            let ghost before = texts(cmds@);
            if e.kind != EntryKind::Other {
                owned(&mut cmds, img.as_slice());
            }
            match ctx {
                Some(c) => labelled(&mut cmds, img.as_slice(), c),
                None => {},
            }
            assert(texts(cmds@) =~= before + entry_commands(img@, e.kind,
                nearest_context(rules_opt(rules), m, texts(e.parts@), n as int)));
        }
        i = i + 1;
    }
    (cmds, skipped)
}

// ---- finding file_contexts ----

/// `Path::join` of a relative path: a slash between the two unless the
/// base is empty or already ends in one.
pub open spec fn join_path(base: Seq<char>, rel: Seq<char>) -> Seq<char> {
    if base.len() == 0 || base.last() == '/' { base + rel } else { base + seq!['/'] + rel }
}

pub fn join_paths(base: &str, rel: &str) -> (r: String)
    ensures
        r@ == join_path(base@, rel@),
{
    let mut b = chars_of(base);
    let need = b.len() > 0 && b[b.len() - 1] != '/';
    if need {
        b.push('/');
    }
    push_text(&mut b, rel);
    string_of(b.as_slice())
}

/// Where a partition's text file_contexts may be, in order of preference:
/// the tree's own etc/selinux copy first, then the workspace's.
pub open spec fn text_candidates(workspace: Seq<char>, tree: Seq<char>) -> Seq<Seq<char>> {
    seq![
        join_path(tree, "etc/selinux/file_contexts"@),
        join_path(tree, "etc/selinux/file_contexts.txt"@),
        join_path(workspace, "file_contexts"@),
        join_path(workspace, "file_contexts.txt"@),
        join_path(workspace, "system/etc/selinux/file_contexts"@),
    ]
}

/// Where a compiled file_contexts.bin may be, in order of preference.
pub open spec fn bin_candidates(workspace: Seq<char>, tree: Seq<char>) -> Seq<Seq<char>> {
    seq![
        join_path(tree, "etc/selinux/file_contexts.bin"@),
        join_path(workspace, "file_contexts.bin"@),
        join_path(workspace, "system/etc/selinux/file_contexts.bin"@),
    ]
}

/// The candidate paths of the text and compiled file_contexts.
pub fn file_contexts_candidates(workspace: &str, tree: &str) -> (r: (Vec<String>, Vec<String>))
    ensures
        texts(r.0@) == text_candidates(workspace@, tree@),
        texts(r.1@) == bin_candidates(workspace@, tree@),
{
    let mut t: Vec<String> = Vec::new();
    t.push(join_paths(tree, "etc/selinux/file_contexts"));
    t.push(join_paths(tree, "etc/selinux/file_contexts.txt"));
    t.push(join_paths(workspace, "file_contexts"));
    t.push(join_paths(workspace, "file_contexts.txt"));
    t.push(join_paths(workspace, "system/etc/selinux/file_contexts"));
    let mut b: Vec<String> = Vec::new();
    b.push(join_paths(tree, "etc/selinux/file_contexts.bin"));
    b.push(join_paths(workspace, "file_contexts.bin"));
    b.push(join_paths(workspace, "system/etc/selinux/file_contexts.bin"));
    assert(texts(t@) =~= text_candidates(workspace@, tree@));
    assert(texts(b@) =~= bin_candidates(workspace@, tree@));
    (t, b)
}

/// The first candidate that is an existing file.
pub open spec fn first_present(cands: Seq<Seq<char>>, present: Seq<Seq<char>>) -> Option<Seq<char>>
    decreases cands.len(),
{
    if cands.len() == 0 {
        None
    } else if present.contains(cands[0]) {
        Some(cands[0])
    } else {
        first_present(cands.drop_first(), present)
    }
}

fn pick_first(cands: &[String], present: &[String]) -> (r: Option<String>)
    ensures
        match (r, first_present(texts(cands@), texts(present@))) {
            (Some(a), Some(b)) => a@ == b,
            (None, None) => true,
            _ => false,
        },
{
    let ghost cs = texts(cands@);
    let ghost ps = texts(present@);
    let mut i: usize = 0;
    assert(cs.skip(0) =~= cs);
    while i < cands.len()
        invariant
            i <= cands@.len(),
            cs == texts(cands@),
            ps == texts(present@),
            first_present(cs, ps) == first_present(cs.skip(i as int), ps),
        decreases cands@.len() - i,
    {
        assert(cs.skip(i as int)[0] == cands@[i as int]@);
        assert(cs.skip(i as int).drop_first() =~= cs.skip(i + 1));
        let mut j: usize = 0;
        let mut found = false;
        while j < present.len() && !found
            invariant
                j <= present@.len(),
                ps == texts(present@),
                found ==> ps.contains(cands@[i as int]@),
                !found ==> forall|m: int| 0 <= m < j ==> ps[m] != cands@[i as int]@,
                i < cands@.len(),
            decreases present@.len() - j + (if found { 0int } else { 1int }),
        {
            if present[j] == cands[i] {
                assert(ps[j as int] == cands@[i as int]@);
                found = true;
            } else {
                j = j + 1;
            }
        }
        if found {
            return Some(cands[i].clone());
        }
        i = i + 1;
    }
    None
}

/// The text file_contexts and the compiled one to use for a partition
/// tree: for each, the first candidate among the files that exist.
pub fn find_file_contexts(workspace: &str, tree: &str, existing: &[String]) -> (r: (Option<String>, Option<String>))
    ensures
        match (r.0, first_present(text_candidates(workspace@, tree@), texts(existing@))) {
            (Some(a), Some(b)) => a@ == b,
            (None, None) => true,
            _ => false,
        },
        match (r.1, first_present(bin_candidates(workspace@, tree@), texts(existing@))) {
            (Some(a), Some(b)) => a@ == b,
            (None, None) => true,
            _ => false,
        },
{
    let (t, b) = file_contexts_candidates(workspace, tree);
    (pick_first(t.as_slice(), existing), pick_first(b.as_slice(), existing))
}

// ---- fs_config ----

/// The mount point without trailing slashes: the prefix of every path.
pub fn mount_prefix(mount_point: &str) -> (r: String)
    ensures
        r@ == strip_all_suffix(mount_point@, "/"@),
{
    let mc = chars_of(mount_point);
    let slash = chars_of("/");
    let m = without_suffixes(mc.as_slice(), slash.as_slice());
    string_of(m.as_slice())
}

/// Byte length of a path, as `str::len` counts.
pub open spec fn byte_len(p: Seq<char>) -> nat {
    encode_utf8(p).len()
}

/// Order of fs_config entries: longer paths first, equal lengths by path.
/// Correct under both first-match and longest-match prefix lookup.
pub open spec fn fs_before(a: (Seq<char>, u16), b: (Seq<char>, u16)) -> bool {
    byte_len(a.0) > byte_len(b.0) || (byte_len(a.0) == byte_len(b.0) && text_lt(a.0, b.0))
}

/// `x` placed before the first entry that it sorts before.
pub open spec fn insert_entry(s: Seq<(Seq<char>, u16)>, x: (Seq<char>, u16)) -> Seq<(Seq<char>, u16)>
    decreases s.len(),
{
    if s.len() == 0 {
        seq![x]
    } else if fs_before(x, s[0]) {
        seq![x] + s
    } else {
        seq![s[0]] + insert_entry(s.drop_first(), x)
    }
}

/// Stable insertion sort of entries in fs_config order.
pub open spec fn sort_entries(s: Seq<(Seq<char>, u16)>) -> Seq<(Seq<char>, u16)>
    decreases s.len(),
{
    if s.len() == 0 { s } else { insert_entry(sort_entries(s.drop_last()), s.last()) }
}

/// One fs_config record: length, uid 0, gid 0, mode, no capabilities, the
/// name and a NUL.
pub open spec fn record_of(e: (Seq<char>, u16)) -> Seq<u8> {
    let name = encode_utf8(e.0);
    le_bytes((((16 + name.len() + 1) as u16) as nat), 2) + le_bytes(0, 2) + le_bytes(0, 2)
        + le_bytes(e.1 as nat, 2) + le_bytes(0, 8) + name + seq![0u8]
}

pub open spec fn records_of(s: Seq<(Seq<char>, u16)>) -> Seq<u8>
    decreases s.len(),
{
    if s.len() == 0 { seq![] } else { records_of(s.drop_last()) + record_of(s.last()) }
}

/// The fs_config entries of a tree: the mount point itself as a directory,
/// then what the walk found, sorted longest first.
pub open spec fn fs_entries(prefix: Seq<char>, found: Seq<(Seq<char>, u16)>) -> Seq<(Seq<char>, u16)> {
    sort_entries(seq![(prefix, 0o755u16)] + found)
}

pub open spec fn found_view(v: Seq<(String, u16)>) -> Seq<(Seq<char>, u16)> {
    v.map_values(|e: (String, u16)| (e.0@, e.1))
}

fn entry_before(a: &(String, u16), b: &(String, u16)) -> (r: bool)
    ensures
        r == fs_before((a.0@, a.1), (b.0@, b.1)),
{
    let la = a.0.as_str().as_bytes().len();
    let lb = b.0.as_str().as_bytes().len();
    if la != lb {
        return la > lb;
    }
    let ca = chars_of(a.0.as_str());
    let cb = chars_of(b.0.as_str());
    text_less(ca.as_slice(), cb.as_slice())
}

fn insert_fs_entry(v: &mut Vec<(String, u16)>, x: (String, u16))
    ensures
        found_view(final(v)@) == insert_entry(found_view(old(v)@), (x.0@, x.1)),
{
    let ghost s0 = found_view(v@);
    let ghost xv = (x.0@, x.1);
    let mut i: usize = 0;
    let mut stop = false;
    assert(s0.skip(0) =~= s0);
    assert(s0.take(0) + s0.skip(0) =~= s0);
    while i < v.len() && !stop
        invariant
            i <= v@.len(),
            s0 == found_view(v@),
            xv == (x.0@, x.1),
            insert_entry(s0, xv) == s0.take(i as int) + insert_entry(s0.skip(i as int), xv),
            stop ==> i < v@.len() && fs_before(xv, s0[i as int]),
        decreases v@.len() - i + (if stop { 0int } else { 1int }),
    {
        assert(s0.skip(i as int)[0] == s0[i as int]);
        if entry_before(&x, &v[i]) {
            stop = true;
            continue;
        }
        assert(s0.skip(i as int).drop_first() =~= s0.skip(i + 1));
        assert(s0.take(i + 1) =~= s0.take(i as int).push(s0[i as int]));
        assert(s0.take(i as int) + (seq![s0[i as int]] + insert_entry(s0.skip(i + 1), xv))
            =~= s0.take(i + 1) + insert_entry(s0.skip(i + 1), xv));
        i = i + 1;
    }
    proof {
        if !stop {
            assert(s0.skip(i as int) =~= Seq::<(Seq<char>, u16)>::empty());
        }
    }
    v.insert(i, x);
    assert(found_view(v@) =~= s0.take(i as int) + insert_entry(s0.skip(i as int), xv));
}

fn push_le(buf: &mut Vec<u8>, v: u64, n: usize)
    requires
        n <= 8,
        v < pow2_8n(n as nat),
    ensures
        final(buf)@ == old(buf)@ + le_bytes(v as nat, n as nat),
    decreases n,
{
    if n == 0 {
        return;
    }
    buf.push((v % 256) as u8);
    proof {
        assert(v / 256 < pow2_8n((n - 1) as nat)) by (nonlinear_arith)
            requires v < pow2_8n(n as nat), pow2_8n(n as nat) == 256 * pow2_8n((n - 1) as nat);
    }
    let ghost mid = buf@;
    push_le(buf, v / 256, n - 1);
    assert(buf@ =~= old(buf)@ + le_bytes(v as nat, n as nat));
}

pub open spec fn pow2_8n(n: nat) -> nat
    decreases n,
{
    if n == 0 { 1 } else { 256 * pow2_8n((n - 1) as nat) }
}

/// The fs_config binary for a tree mounted at `prefix`, given the
/// (path, mode) entries its walk found; also the number of records.
pub fn fs_config_image(prefix: &str, found: &[(String, u16)]) -> (r: (Vec<u8>, usize))
    requires
        found@.len() < usize::MAX,
    ensures
        r.0@ == records_of(fs_entries(prefix@, found_view(found@))),
        r.1 == found@.len() + 1,
{
    let ghost all = seq![(prefix@, 0o755u16)] + found_view(found@);
    let mut sorted: Vec<(String, u16)> = Vec::new();
    assert(found_view(sorted@) =~= Seq::<(Seq<char>, u16)>::empty());
    insert_fs_entry(&mut sorted, (prefix.to_owned(), 0o755u16));
    assert(found_view(sorted@) =~= sort_entries(all.take(1))) by {
        let t = all.take(1);
        assert(t.drop_last() =~= Seq::<(Seq<char>, u16)>::empty());
        assert(t.last() == (prefix@, 0o755u16));
        assert(sort_entries(t.drop_last()) =~= Seq::<(Seq<char>, u16)>::empty());
        assert(sort_entries(t) == insert_entry(Seq::<(Seq<char>, u16)>::empty(), (prefix@, 0o755u16)));
    }
    let mut i: usize = 0;
    while i < found.len()
        invariant
            i <= found@.len(),
            all == seq![(prefix@, 0o755u16)] + found_view(found@),
            found_view(sorted@) == sort_entries(all.take(i + 1)),
            sorted@.len() == i + 1,
        decreases found@.len() - i,
    {
        assert(all.take(i + 2).drop_last() =~= all.take(i + 1));
        assert(all.take(i + 2).last() == (found@[i as int].0@, found@[i as int].1));
        let e = (found[i].0.clone(), found[i].1);
        let ghost pre = found_view(sorted@);
        insert_fs_entry(&mut sorted, e);
        proof { lemma_insert_entry_len(pre, (e.0@, e.1)); }
        i = i + 1;
    }
    assert(all.take(found@.len() as int + 1) =~= all);
    let ghost sv = found_view(sorted@);
    let mut buf: Vec<u8> = Vec::new();
    let mut k: usize = 0;
    proof { reveal_with_fuel(pow2_8n, 9); }
    while k < sorted.len()
        invariant
            k <= sorted@.len(),
            sv == found_view(sorted@),
            buf@ == records_of(sv.take(k as int)),
        decreases sorted@.len() - k,
    {
        assert(sv.take(k + 1).drop_last() =~= sv.take(k as int));
        assert(sv.take(k + 1).last() == sv[k as int]);
        let name = sorted[k].0.as_str().as_bytes();
        let wide: u128 = 16 + name.len() as u128 + 1;
        let len: u16 = #[verifier::truncate] (wide as u16);
        proof { reveal_with_fuel(pow2_8n, 9); }
        push_le(&mut buf, len as u64, 2);
        push_le(&mut buf, 0, 2);
        push_le(&mut buf, 0, 2);
        push_le(&mut buf, sorted[k].1 as u64, 2);
        push_le(&mut buf, 0, 8);
        let mut j: usize = 0;
        let ghost before = buf@;
        while j < name.len()
            invariant
                j <= name@.len(),
                buf@ == before + name@.take(j as int),
            decreases name@.len() - j,
        {
            buf.push(name[j]);
            assert(name@.take(j + 1) =~= name@.take(j as int).push(name@[j as int]));
            j = j + 1;
        }
        assert(name@.take(name@.len() as int) =~= name@);
        buf.push(0);
        assert(buf@ =~= records_of(sv.take(k + 1)));
        k = k + 1;
    }
    assert(sv.take(sorted@.len() as int) =~= sv);
    (buf, sorted.len())
}

/// Entries in fs_config order: none sorts before an earlier one.
pub open spec fn entries_sorted(s: Seq<(Seq<char>, u16)>) -> bool {
    forall|i: int, j: int| 0 <= i < j < s.len() ==> !fs_before(#[trigger] s[j], #[trigger] s[i])
}

proof fn lemma_fs_before_order(a: (Seq<char>, u16), b: (Seq<char>, u16), c: (Seq<char>, u16))
    ensures
        !fs_before(a, a),
        fs_before(a, b) && fs_before(b, c) ==> fs_before(a, c),
{
    lemma_text_lt_irreflexive(a.0);
    if fs_before(a, b) && fs_before(b, c) && byte_len(a.0) == byte_len(b.0) && byte_len(b.0) == byte_len(c.0) {
        lemma_text_lt_transitive(a.0, b.0, c.0);
    }
}

/// Where `insert_entry` puts `x`: after every entry it does not sort
/// before, ahead of the rest.
proof fn lemma_insert_entry_shape(s: Seq<(Seq<char>, u16)>, x: (Seq<char>, u16)) -> (p: int)
    ensures
        0 <= p <= s.len(),
        insert_entry(s, x) == s.take(p) + seq![x] + s.skip(p),
        forall|m: int| 0 <= m < p ==> !fs_before(x, #[trigger] s[m]),
        p < s.len() ==> fs_before(x, s[p]),
    decreases s.len(),
{
    if s.len() == 0 {
        assert(s.take(0) + seq![x] + s.skip(0) =~= seq![x]);
        0
    } else if fs_before(x, s[0]) {
        assert(s.take(0) + seq![x] + s.skip(0) =~= seq![x] + s);
        0
    } else {
        let t = s.drop_first();
        let q = lemma_insert_entry_shape(t, x);
        assert(seq![s[0]] + (t.take(q) + seq![x] + t.skip(q)) =~= s.take(q + 1) + seq![x] + s.skip(q + 1));
        assert forall|m: int| 0 <= m < q + 1 implies !fs_before(x, #[trigger] s[m]) by {
            if m > 0 { assert(s[m] == t[m - 1]); }
        }
        if q + 1 < s.len() { assert(s[q + 1] == t[q]); }
        q + 1
    }
}

proof fn lemma_insert_entry_sorted(s: Seq<(Seq<char>, u16)>, x: (Seq<char>, u16))
    requires
        entries_sorted(s),
    ensures
        entries_sorted(insert_entry(s, x)),
{
    let p = lemma_insert_entry_shape(s, x);
    let r = insert_entry(s, x);
    assert forall|i: int, j: int| 0 <= i < j < r.len() implies !fs_before(#[trigger] r[j], #[trigger] r[i]) by {
        let ri = if i < p { s[i] } else if i == p { x } else { s[i - 1] };
        let rj = if j < p { s[j] } else if j == p { x } else { s[j - 1] };
        assert(r[i] == ri && r[j] == rj);
        if j == p {
            // r[i] = s[i], i < p: x does not sort before s[i]
        } else if i == p {
            // r[j] = s[j - 1] with j - 1 >= p, and x sorts before s[p]
            lemma_fs_before_order(s[j - 1], x, s[p]);
            lemma_fs_before_order(s[p], s[p], s[p]);
            if j - 1 > p {
                assert(!fs_before(s[j - 1], s[p]));
            }
        }
    }
}

/// Sorting leaves the entries in fs_config order: in particular every
/// entry's path is at least as long, in bytes, as every later one's.
pub proof fn lemma_sort_entries_sorted(s: Seq<(Seq<char>, u16)>)
    ensures
        entries_sorted(sort_entries(s)),
        forall|i: int, j: int| 0 <= i < j < sort_entries(s).len()
            ==> byte_len((#[trigger] sort_entries(s)[i]).0) >= byte_len((#[trigger] sort_entries(s)[j]).0),
    decreases s.len(),
{
    if s.len() > 0 {
        lemma_sort_entries_sorted(s.drop_last());
        lemma_insert_entry_sorted(sort_entries(s.drop_last()), s.last());
    }
    let r = sort_entries(s);
    assert forall|i: int, j: int| 0 <= i < j < r.len() implies byte_len((#[trigger] r[i]).0) >= byte_len((#[trigger] r[j]).0) by {
        assert(!fs_before(r[j], r[i]));
    }
}

proof fn lemma_insert_entry_len(s: Seq<(Seq<char>, u16)>, x: (Seq<char>, u16))
    ensures
        insert_entry(s, x).len() == s.len() + 1,
    decreases s.len(),
{
    if s.len() > 0 && !fs_before(x, s[0]) {
        lemma_insert_entry_len(s.drop_first(), x);
    }
}

} // verus!
