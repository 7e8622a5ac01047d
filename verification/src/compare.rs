//! Tree comparison: two directory listings (stock against edited, or two
//! firmware releases) are merged path by path, every path is given a
//! status, and same-kind files are judged by their contents.
//!
//! Walking the trees and reading the files is the caller's part: it hands
//! over each listing, sorted by path as a `BTreeMap` yields it, and for each
//! merged path the file facts that the status needs.
use vstd::prelude::*;
use crate::text::{chars_of, text_lt, lemma_text_lt_irreflexive, lemma_text_lt_transitive,
    lemma_text_lt_total, text_less};

verus! {

/// How a path occurs in the two trees: on both sides (with whether each is
/// a directory), or on one side only.
#[derive(Debug, Clone, Copy, PartialEq, Eq, Structural)]
pub enum Side {
    Both { left_dir: bool, right_dir: bool },
    LeftOnly(bool),
    RightOnly(bool),
}

/// A path of the merged listing.
#[derive(Debug, Clone)]
pub struct PathPair {
    pub path: String,
    pub side: Side,
}

/// One compared path. `status` is one of "identical", "added", "removed",
/// "changed", "type-changed".
#[derive(Debug, Clone)]
pub struct DiffEntry {
    pub path: String,
    pub status: String,
    pub left_size: Option<u64>,
    pub right_size: Option<u64>,
    pub is_dir: bool,
}

pub struct DiffEntryModel {
    pub path: Seq<char>,
    pub status: Seq<char>,
    pub left_size: Option<u64>,
    pub right_size: Option<u64>,
    pub is_dir: bool,
}

impl View for DiffEntry {
    type V = DiffEntryModel;

    open spec fn view(&self) -> DiffEntryModel {
        DiffEntryModel {
            path: self.path@,
            status: self.status@,
            left_size: self.left_size,
            right_size: self.right_size,
            is_dir: self.is_dir,
        }
    }
}

/// Counts of each status over every compared path, and whether the entry
/// list was cut at its cap.
#[derive(Debug, Clone, Copy, PartialEq, Eq, Structural)]
pub struct CompareSummary {
    pub identical: usize,
    pub added: usize,
    pub removed: usize,
    pub changed: usize,
    pub type_changed: usize,
    pub truncated: bool,
}

impl Default for CompareSummary {
    fn default() -> (r: CompareSummary)
        ensures
            r == (CompareSummary {
                identical: 0,
                added: 0,
                removed: 0,
                changed: 0,
                type_changed: 0,
                truncated: false,
            }),
    {
        CompareSummary { identical: 0, added: 0, removed: 0, changed: 0, type_changed: 0, truncated: false }
    }
}

pub struct CompareResult {
    pub summary: CompareSummary,
    pub entries: Vec<DiffEntry>,
}

/// What the caller found out about a path on disk: each side's size (for
/// a file whose size could be read) and whether two files' contents differ.
#[derive(Debug, Clone, Copy, PartialEq, Eq, Structural)]
pub struct FileFacts {
    pub left_size: Option<u64>,
    pub right_size: Option<u64>,
    pub differ: bool,
}

/// How many entries a comparison lists before it only counts.
pub const DEFAULT_CAP: usize = 50000;

// ---- merging the listings ----

/// Paths of a listing in strictly increasing order (as a `BTreeMap` keeps
/// them), so none occurs twice.
pub open spec fn sorted_paths(s: Seq<(Seq<char>, bool)>) -> bool {
    forall|i: int, j: int| 0 <= i < j < s.len() ==> text_lt(#[trigger] s[i].0, #[trigger] s[j].0)
}

/// The two listings merged in path order: a path on both sides once, as
/// `Both`; others as `LeftOnly` / `RightOnly`.
pub open spec fn merge_paths(l: Seq<(Seq<char>, bool)>, r: Seq<(Seq<char>, bool)>) -> Seq<(Seq<char>, Side)>
    decreases l.len() + r.len(),
{
    if l.len() == 0 && r.len() == 0 {
        seq![]
    } else if l.len() == 0 || (r.len() > 0 && text_lt(r[0].0, l[0].0)) {
        seq![(r[0].0, Side::RightOnly(r[0].1))] + merge_paths(l, r.drop_first())
    } else if r.len() == 0 || text_lt(l[0].0, r[0].0) {
        seq![(l[0].0, Side::LeftOnly(l[0].1))] + merge_paths(l.drop_first(), r)
    } else {
        seq![(l[0].0, Side::Both { left_dir: l[0].1, right_dir: r[0].1 })]
            + merge_paths(l.drop_first(), r.drop_first())
    }
}

/// `k` is a path of the listing.
pub open spec fn listed(s: Seq<(Seq<char>, bool)>, k: Seq<char>) -> bool {
    exists|a: int| 0 <= a < s.len() && (#[trigger] s[a]).0 == k
}

/// `(k, d)` is an entry of the listing.
pub open spec fn listed_as(s: Seq<(Seq<char>, bool)>, k: Seq<char>, d: bool) -> bool {
    exists|a: int| 0 <= a < s.len() && #[trigger] s[a] == (k, d)
}

/// `k` is a path of the merged listing.
pub open spec fn merged(m: Seq<(Seq<char>, Side)>, k: Seq<char>) -> bool {
    exists|a: int| 0 <= a < m.len() && (#[trigger] m[a]).0 == k
}

/// The side recorded for a merged path is what the two listings hold.
pub open spec fn side_fits(l: Seq<(Seq<char>, bool)>, r: Seq<(Seq<char>, bool)>, e: (Seq<char>, Side)) -> bool {
    match e.1 {
        Side::Both { left_dir, right_dir } => listed_as(l, e.0, left_dir) && listed_as(r, e.0, right_dir),
        Side::LeftOnly(d) => listed_as(l, e.0, d) && !listed(r, e.0),
        Side::RightOnly(d) => listed_as(r, e.0, d) && !listed(l, e.0),
    }
}

proof fn lemma_listed_tail(s: Seq<(Seq<char>, bool)>)
    requires
        s.len() > 0,
    ensures
        forall|k: Seq<char>| listed(s, k) <==> (k == s[0].0 || listed(s.drop_first(), k)),
        forall|k: Seq<char>, d: bool| listed_as(s.drop_first(), k, d) ==> listed_as(s, k, d),
        listed_as(s, s[0].0, s[0].1),
{
    let t = s.drop_first();
    assert forall|k: Seq<char>| listed(s, k) implies (k == s[0].0 || listed(t, k)) by {
        let a = choose|a: int| 0 <= a < s.len() && (#[trigger] s[a]).0 == k;
        if a > 0 { assert(t[a - 1] == s[a]); }
    }
    assert forall|k: Seq<char>| listed(t, k) implies listed(s, k) by {
        let a = choose|a: int| 0 <= a < t.len() && (#[trigger] t[a]).0 == k;
        assert(s[a + 1] == t[a]);
    }
    assert forall|k: Seq<char>, d: bool| listed_as(t, k, d) implies listed_as(s, k, d) by {
        let a = choose|a: int| 0 <= a < t.len() && #[trigger] t[a] == (k, d);
        assert(s[a + 1] == t[a]);
    }
    assert(s[0] == (s[0].0, s[0].1));
}

/// In a sorted listing, a path before the first one is not listed, and
/// the first one lies below all the others.
proof fn lemma_below_sorted(s: Seq<(Seq<char>, bool)>, k: Seq<char>)
    requires
        sorted_paths(s),
        s.len() > 0,
        k == s[0].0 || text_lt(k, s[0].0),
    ensures
        forall|a: int| 1 <= a < s.len() ==> text_lt(k, (#[trigger] s[a]).0),
        text_lt(k, s[0].0) ==> !listed(s, k),
{
    assert forall|a: int| 1 <= a < s.len() implies text_lt(k, (#[trigger] s[a]).0) by {
        assert(text_lt(s[0].0, s[a].0));
        if k != s[0].0 { lemma_text_lt_transitive(k, s[0].0, s[a].0); }
    }
    if text_lt(k, s[0].0) {
        assert forall|a: int| 0 <= a < s.len() implies (#[trigger] s[a]).0 != k by {
            lemma_text_lt_irreflexive(k);
        }
    }
}

/// The merged listing holds each path of either tree exactly once, in
/// strictly increasing order, with the side each tree gives it.
pub proof fn lemma_merge_paths(l: Seq<(Seq<char>, bool)>, r: Seq<(Seq<char>, bool)>)
    requires
        sorted_paths(l),
        sorted_paths(r),
    ensures
        forall|k: Seq<char>| merged(merge_paths(l, r), k) <==> (listed(l, k) || listed(r, k)),
        forall|i: int, j: int| 0 <= i < j < merge_paths(l, r).len()
            ==> text_lt(#[trigger] merge_paths(l, r)[i].0, #[trigger] merge_paths(l, r)[j].0),
        forall|i: int| 0 <= i < merge_paths(l, r).len() ==> side_fits(l, r, #[trigger] merge_paths(l, r)[i]),
    decreases l.len() + r.len(),
{
    let m = merge_paths(l, r);
    if l.len() == 0 && r.len() == 0 {
        return;
    }
    // The head of the merge, the listings that remain, and the merge of those.
    let (head, l2, r2) = if l.len() == 0 || (r.len() > 0 && text_lt(r[0].0, l[0].0)) {
        ((r[0].0, Side::RightOnly(r[0].1)), l, r.drop_first())
    } else if r.len() == 0 || text_lt(l[0].0, r[0].0) {
        ((l[0].0, Side::LeftOnly(l[0].1)), l.drop_first(), r)
    } else {
        ((l[0].0, Side::Both { left_dir: l[0].1, right_dir: r[0].1 }), l.drop_first(), r.drop_first())
    };
    let rest = merge_paths(l2, r2);
    assert(m =~= seq![head] + rest);
    assert(sorted_paths(l2)) by {
        if l.len() > 0 && l2.len() < l.len() {
            assert forall|i: int, j: int| 0 <= i < j < l2.len() implies text_lt(#[trigger] l2[i].0, #[trigger] l2[j].0) by {
                assert(l2[i] == l[i + 1] && l2[j] == l[j + 1]);
            }
        }
    }
    assert(sorted_paths(r2)) by {
        if r.len() > 0 && r2.len() < r.len() {
            assert forall|i: int, j: int| 0 <= i < j < r2.len() implies text_lt(#[trigger] r2[i].0, #[trigger] r2[j].0) by {
                assert(r2[i] == r[i + 1] && r2[j] == r[j + 1]);
            }
        }
    }
    lemma_merge_paths(l2, r2);
    if l.len() > 0 { lemma_listed_tail(l); }
    if r.len() > 0 { lemma_listed_tail(r); }
    if l.len() > 0 && r.len() > 0 {
        lemma_text_lt_total(l[0].0, r[0].0);
    }
    // Every path that remains lies above the head.
    if l.len() > 0 { lemma_below_sorted(l, head.0); }
    if r.len() > 0 { lemma_below_sorted(r, head.0); }
    assert forall|k: Seq<char>| (listed(l2, k) || listed(r2, k)) implies text_lt(head.0, k) by {
        if listed(l2, k) {
            let a = choose|a: int| 0 <= a < l2.len() && (#[trigger] l2[a]).0 == k;
            if l2.len() < l.len() { assert(l2[a] == l[a + 1]); } else { assert(l2[a] == l[a]); }
        } else {
            let a = choose|a: int| 0 <= a < r2.len() && (#[trigger] r2[a]).0 == k;
            if r2.len() < r.len() { assert(r2[a] == r[a + 1]); } else { assert(r2[a] == r[a]); }
        }
    }
    assert forall|k: Seq<char>| merged(m, k) <==> (listed(l, k) || listed(r, k)) by {
        if merged(m, k) {
            let a = choose|a: int| 0 <= a < m.len() && (#[trigger] m[a]).0 == k;
            if a > 0 { assert(m[a] == rest[a - 1]); assert(merged(rest, k)); }
        }
        if listed(l, k) || listed(r, k) {
            if k == head.0 { assert(m[0].0 == k); } else {
                assert(listed(l2, k) || listed(r2, k));
                let a = choose|a: int| 0 <= a < rest.len() && (#[trigger] rest[a]).0 == k;
                assert(m[a + 1] == rest[a]);
            }
        }
    }
    assert forall|i: int, j: int| 0 <= i < j < m.len() implies text_lt(#[trigger] m[i].0, #[trigger] m[j].0) by {
        assert(m[j] == rest[j - 1]);
        assert(merged(rest, rest[j - 1].0));
        if i > 0 { assert(m[i] == rest[i - 1]); }
    }
    assert forall|i: int| 0 <= i < m.len() implies side_fits(l, r, #[trigger] m[i]) by {
        if i > 0 {
            assert(m[i] == rest[i - 1]);
            let e = rest[i - 1];
            assert(side_fits(l2, r2, e));
            assert(merged(rest, e.0));
            assert(text_lt(head.0, e.0));
            lemma_text_lt_irreflexive(e.0);
        } else {
            lemma_text_lt_irreflexive(head.0);
        }
    }
}

pub open spec fn listing_view(v: Seq<(String, bool)>) -> Seq<(Seq<char>, bool)> {
    v.map_values(|e: (String, bool)| (e.0@, e.1))
}

pub open spec fn pairs_view(v: Seq<PathPair>) -> Seq<(Seq<char>, Side)> {
    v.map_values(|p: PathPair| (p.path@, p.side))
}

/// Whether a listing is sorted as `pair_paths` needs.
pub fn listing_sorted(v: &[(String, bool)]) -> (r: bool)
    ensures
        r == sorted_paths(listing_view(v@)),
{
    let ghost s = listing_view(v@);
    if v.len() == 0 {
        return true;
    }
    let mut i: usize = 1;
    while i < v.len()
        invariant
            1 <= i <= v@.len(),
            s == listing_view(v@),
            forall|a: int, b: int| 0 <= a < b < i ==> text_lt(#[trigger] s[a].0, #[trigger] s[b].0),
        decreases v@.len() - i,
    {
        let a = chars_of(v[i - 1].0.as_str());
        let b = chars_of(v[i].0.as_str());
        assert(s[i - 1].0 == a@ && s[i as int].0 == b@);
        if !text_less(a.as_slice(), b.as_slice()) {
            assert(!text_lt(s[i - 1].0, s[i as int].0));
            return false;
        }
        proof {
            assert forall|x: int, y: int| 0 <= x < y < i + 1 implies text_lt(#[trigger] s[x].0, #[trigger] s[y].0) by {
                if y == i && x < i - 1 {
                    lemma_text_lt_transitive(s[x].0, s[i - 1].0, s[i as int].0);
                }
            }
        }
        i = i + 1;
    }
    true
}

/// Merges two sorted listings into one entry per path, in path order.
pub fn pair_paths(left: &[(String, bool)], right: &[(String, bool)]) -> (r: Vec<PathPair>)
    ensures
        pairs_view(r@) == merge_paths(listing_view(left@), listing_view(right@)),
{
    let ghost l = listing_view(left@);
    let ghost rr = listing_view(right@);
    let mut out: Vec<PathPair> = Vec::new();
    let mut i: usize = 0;
    let mut j: usize = 0;
    assert(l.skip(0) =~= l);
    assert(rr.skip(0) =~= rr);
    assert(pairs_view(out@) =~= Seq::<(Seq<char>, Side)>::empty());
    while i < left.len() || j < right.len()
        invariant
            i <= left@.len(),
            j <= right@.len(),
            l == listing_view(left@),
            rr == listing_view(right@),
            merge_paths(l, rr) == pairs_view(out@) + merge_paths(l.skip(i as int), rr.skip(j as int)),
        decreases left@.len() + right@.len() - i - j,
    {
        let ghost ls = l.skip(i as int);
        let ghost rs = rr.skip(j as int);
        let ghost before = pairs_view(out@);
        if i < left.len() {
            assert(ls[0] == l[i as int]);
            assert(ls.drop_first() =~= l.skip(i + 1));
        }
        if j < right.len() {
            assert(rs[0] == rr[j as int]);
            assert(rs.drop_first() =~= rr.skip(j + 1));
        }
        let take_right: bool;
        let take_left: bool;
        if i >= left.len() {
            take_right = true;
            take_left = false;
        } else if j >= right.len() {
            take_right = false;
            take_left = true;
        } else {
            let a = chars_of(left[i].0.as_str());
            let b = chars_of(right[j].0.as_str());
            if text_less(b.as_slice(), a.as_slice()) {
                take_right = true;
                take_left = false;
            } else if text_less(a.as_slice(), b.as_slice()) {
                take_right = false;
                take_left = true;
            } else {
                take_right = true;
                take_left = true;
            }
        }
        if take_right && !take_left {
            let p = PathPair { path: right[j].0.clone(), side: Side::RightOnly(right[j].1) };
            out.push(p);
            assert(pairs_view(out@) =~= before + seq![(rs[0].0, Side::RightOnly(rs[0].1))]);
            j = j + 1;
        } else if take_left && !take_right {
            let p = PathPair { path: left[i].0.clone(), side: Side::LeftOnly(left[i].1) };
            out.push(p);
            assert(pairs_view(out@) =~= before + seq![(ls[0].0, Side::LeftOnly(ls[0].1))]);
            i = i + 1;
        } else {
            let p = PathPair {
                path: left[i].0.clone(),
                side: Side::Both { left_dir: left[i].1, right_dir: right[j].1 },
            };
            out.push(p);
            assert(pairs_view(out@) =~= before
                + seq![(ls[0].0, Side::Both { left_dir: ls[0].1, right_dir: rs[0].1 })]);
            i = i + 1;
            j = j + 1;
        }
    }
    assert(l.skip(i as int) =~= Seq::<(Seq<char>, bool)>::empty());
    assert(rr.skip(j as int) =~= Seq::<(Seq<char>, bool)>::empty());
    assert(pairs_view(out@) + Seq::<(Seq<char>, Side)>::empty() =~= pairs_view(out@));
    out
}

// ---- statuses ----

/// The entry for a merged path, given what was found on disk.
pub open spec fn entry_of(path: Seq<char>, side: Side, f: FileFacts) -> DiffEntryModel {
    match side {
        Side::Both { left_dir, right_dir } => if left_dir != right_dir {
            DiffEntryModel { path, status: "type-changed"@, left_size: None, right_size: None, is_dir: left_dir }
        } else if left_dir {
            DiffEntryModel { path, status: "identical"@, left_size: None, right_size: None, is_dir: true }
        } else {
            DiffEntryModel {
                path,
                status: if f.differ { "changed"@ } else { "identical"@ },
                left_size: f.left_size,
                right_size: f.right_size,
                is_dir: false,
            }
        },
        Side::LeftOnly(d) => DiffEntryModel {
            path,
            status: "removed"@,
            left_size: if d { None } else { f.left_size },
            right_size: None,
            is_dir: d,
        },
        Side::RightOnly(d) => DiffEntryModel {
            path,
            status: "added"@,
            left_size: None,
            right_size: if d { None } else { f.right_size },
            is_dir: d,
        },
    }
}

/// Whether a side of a merged path holds a file (as opposed to a folder
/// or nothing).
pub open spec fn left_file(side: Side) -> bool {
    match side {
        Side::Both { left_dir, right_dir } => !left_dir && !right_dir,
        Side::LeftOnly(d) => !d,
        Side::RightOnly(_) => false,
    }
}

pub open spec fn right_file(side: Side) -> bool {
    match side {
        Side::Both { left_dir, right_dir } => !left_dir && !right_dir,
        Side::RightOnly(d) => !d,
        Side::LeftOnly(_) => false,
    }
}

/// An entry reports a side's size exactly where that side holds a file
/// (of the same kind as the other side, when there are two): then it is
/// the size found there; a folder, a missing side or a kind change
/// reports none.
pub proof fn lemma_entry_sizes(path: Seq<char>, side: Side, f: FileFacts)
    ensures
        entry_of(path, side, f).left_size == (if left_file(side) { f.left_size } else { None }),
        entry_of(path, side, f).right_size == (if right_file(side) { f.right_size } else { None }),
        entry_of(path, side, f).path == path,
{
}

/// The two one-sided cases mirror each other: a path only in the right
/// tree is reported as the same path only in the left tree would be, with
/// "added" for "removed" and the sides' sizes swapped.
pub proof fn lemma_added_mirrors_removed(path: Seq<char>, d: bool, f: FileFacts)
    ensures
        ({
            let a = entry_of(path, Side::RightOnly(d), f);
            let r = entry_of(path, Side::LeftOnly(d), FileFacts { left_size: f.right_size, right_size: f.left_size, differ: f.differ });
            &&& a.status == "added"@ && r.status == "removed"@
            &&& a.left_size == r.right_size && a.right_size == r.left_size
            &&& a.is_dir == r.is_dir && a.is_dir == d
            &&& a.path == r.path
        }),
{
}

/// Whether a merged path needs its file contents compared: a file on both
/// sides.
pub fn needs_content_check(side: Side) -> (r: bool)
    ensures
        r == (side == Side::Both { left_dir: false, right_dir: false }),
{
    match side {
        Side::Both { left_dir, right_dir } => !left_dir && !right_dir,
        _ => false,
    }
}

/// Builds the entry for a merged path.
pub fn diff_entry(pair: &PathPair, f: FileFacts) -> (e: DiffEntry)
    ensures
        e@ == entry_of(pair.path@, pair.side, f),
{
    let path = pair.path.clone();
    match pair.side {
        Side::Both { left_dir, right_dir } => if left_dir != right_dir {
            DiffEntry { path, status: "type-changed".to_owned(), left_size: None, right_size: None, is_dir: left_dir }
        } else if left_dir {
            DiffEntry { path, status: "identical".to_owned(), left_size: None, right_size: None, is_dir: true }
        } else {
            let status = if f.differ { "changed".to_owned() } else { "identical".to_owned() };
            DiffEntry { path, status, left_size: f.left_size, right_size: f.right_size, is_dir: false }
        },
        Side::LeftOnly(d) => DiffEntry {
            path,
            status: "removed".to_owned(),
            left_size: if d { None } else { f.left_size },
            right_size: None,
            is_dir: d,
        },
        Side::RightOnly(d) => DiffEntry {
            path,
            status: "added".to_owned(),
            left_size: None,
            right_size: if d { None } else { f.right_size },
            is_dir: d,
        },
    }
}

/// The entries of all merged paths.
pub open spec fn entries_of(pairs: Seq<(Seq<char>, Side)>, facts: Seq<FileFacts>) -> Seq<DiffEntryModel>
    recommends
        pairs.len() == facts.len(),
{
    Seq::new(pairs.len(), |i: int| entry_of(pairs[i].0, pairs[i].1, facts[i]))
}

/// How many entries carry status `st`.
pub open spec fn count_status(es: Seq<DiffEntryModel>, st: Seq<char>) -> nat
    decreases es.len(),
{
    if es.len() == 0 {
        0
    } else {
        count_status(es.drop_last(), st) + if es.last().status == st { 1nat } else { 0nat }
    }
}

pub open spec fn entries_view(v: Seq<DiffEntry>) -> Seq<DiffEntryModel> {
    v.map_values(|e: DiffEntry| e@)
}

/// The summary of a comparison whose entries are `es`, listed up to `cap`.
pub open spec fn summary_of(es: Seq<DiffEntryModel>, cap: nat) -> CompareSummary {
    CompareSummary {
        identical: count_status(es, "identical"@) as usize,
        added: count_status(es, "added"@) as usize,
        removed: count_status(es, "removed"@) as usize,
        changed: count_status(es, "changed"@) as usize,
        type_changed: count_status(es, "type-changed"@) as usize,
        truncated: es.len() > cap,
    }
}

proof fn lemma_count_le(es: Seq<DiffEntryModel>, st: Seq<char>)
    ensures
        count_status(es, st) <= es.len(),
    decreases es.len(),
{
    if es.len() > 0 {
        lemma_count_le(es.drop_last(), st);
    }
}

pub open spec fn one_if(b: bool) -> nat {
    if b { 1 } else { 0 }
}

/// `s` after counting one more entry with status `st`.
pub open spec fn bumped(s: CompareSummary, st: Seq<char>) -> CompareSummary {
    CompareSummary {
        identical: (s.identical + one_if(st == "identical"@)) as usize,
        added: (s.added + one_if(st == "added"@)) as usize,
        removed: (s.removed + one_if(st == "removed"@)) as usize,
        changed: (s.changed + one_if(st == "changed"@)) as usize,
        type_changed: (s.type_changed + one_if(st == "type-changed"@)) as usize,
        truncated: s.truncated,
    }
}

fn count_entry(s: &mut CompareSummary, status: &String)
    requires
        old(s).identical < usize::MAX,
        old(s).added < usize::MAX,
        old(s).removed < usize::MAX,
        old(s).changed < usize::MAX,
        old(s).type_changed < usize::MAX,
    ensures
        *final(s) == bumped(*old(s), status@),
{
    proof {
        reveal_strlit("identical");
        reveal_strlit("added");
        reveal_strlit("removed");
        reveal_strlit("changed");
        reveal_strlit("type-changed");
        assert("changed"@[0] != "removed"@[0]);
        assert("identical"@.len() == 9 && "added"@.len() == 5 && "removed"@.len() == 7);
        assert("changed"@.len() == 7 && "type-changed"@.len() == 12);
        assert("changed"@ != "removed"@);
    }
    if *status == "identical".to_owned() {
        s.identical = s.identical + 1;
    } else if *status == "added".to_owned() {
        s.added = s.added + 1;
    } else if *status == "removed".to_owned() {
        s.removed = s.removed + 1;
    } else if *status == "changed".to_owned() {
        s.changed = s.changed + 1;
    } else if *status == "type-changed".to_owned() {
        s.type_changed = s.type_changed + 1;
    }
}

/// The status is one of the five that the summary counts.
pub open spec fn known_status(st: Seq<char>) -> bool {
    st == "identical"@ || st == "added"@ || st == "removed"@ || st == "changed"@ || st == "type-changed"@
}

proof fn lemma_counts_add_up(es: Seq<DiffEntryModel>)
    requires
        forall|i: int| 0 <= i < es.len() ==> known_status(#[trigger] es[i].status),
    ensures
        count_status(es, "identical"@) + count_status(es, "added"@) + count_status(es, "removed"@)
            + count_status(es, "changed"@) + count_status(es, "type-changed"@) == es.len(),
    decreases es.len(),
{
    if es.len() > 0 {
        reveal_strlit("identical");
        reveal_strlit("added");
        reveal_strlit("removed");
        reveal_strlit("changed");
        reveal_strlit("type-changed");
        assert("changed"@[0] != "removed"@[0]);
        assert("identical"@.len() == 9 && "added"@.len() == 5 && "removed"@.len() == 7);
        assert("changed"@.len() == 7 && "type-changed"@.len() == 12);
        let init = es.drop_last();
        assert forall|i: int| 0 <= i < init.len() implies known_status(#[trigger] init[i].status) by {
            assert(init[i] == es[i]);
        }
        assert(known_status(es[es.len() - 1].status));
        lemma_counts_add_up(init);
    }
}

/// A comparison accounts for every merged path exactly once: the five
/// counts add up to the number of paths, whatever the cap.
pub proof fn lemma_summary_counts_every_path(pairs: Seq<(Seq<char>, Side)>, facts: Seq<FileFacts>, cap: nat)
    requires
        facts.len() == pairs.len(),
        pairs.len() <= usize::MAX,
    ensures
        ({
            let s = summary_of(entries_of(pairs, facts), cap);
            s.identical + s.added + s.removed + s.changed + s.type_changed == pairs.len()
                && s.truncated == (pairs.len() > cap)
        }),
{
    let es = entries_of(pairs, facts);
    assert forall|i: int| 0 <= i < es.len() implies known_status(#[trigger] es[i].status) by {}
    lemma_counts_add_up(es);
    lemma_count_le(es, "identical"@);
    lemma_count_le(es, "added"@);
    lemma_count_le(es, "removed"@);
    lemma_count_le(es, "changed"@);
    lemma_count_le(es, "type-changed"@);
}

/// A comparison of two sorted listings gives each path of either tree
/// exactly one entry, in strictly increasing path order: "removed" for a
/// path of the left tree only, "added" for one of the right tree only,
/// "type-changed" where one side is a directory and the other not,
/// "identical" for two directories, and "identical" or "changed" for two
/// files as their contents agree. The counts cover all the paths, and the
/// listing is cut exactly when there are more paths than the cap.
pub proof fn lemma_compare_covers_union(l: Seq<(Seq<char>, bool)>, r: Seq<(Seq<char>, bool)>, facts: Seq<FileFacts>, cap: nat)
    requires
        sorted_paths(l),
        sorted_paths(r),
        facts.len() == merge_paths(l, r).len(),
        merge_paths(l, r).len() <= usize::MAX,
    ensures
        ({
            let m = merge_paths(l, r);
            let es = entries_of(m, facts);
            let s = summary_of(es, cap);
            &&& es.len() == m.len()
            &&& forall|k: Seq<char>| (exists|i: int| 0 <= i < es.len() && (#[trigger] es[i]).path == k)
                    <==> (listed(l, k) || listed(r, k))
            &&& forall|i: int, j: int| 0 <= i < j < es.len() ==> text_lt(#[trigger] es[i].path, #[trigger] es[j].path)
            &&& forall|i: int| 0 <= i < es.len() ==> side_fits(l, r, #[trigger] m[i])
                    && es[i] == entry_of(m[i].0, m[i].1, facts[i])
            &&& s.identical + s.added + s.removed + s.changed + s.type_changed == es.len()
            &&& s.truncated == (es.len() > cap)
        }),
{
    let m = merge_paths(l, r);
    let es = entries_of(m, facts);
    lemma_merge_paths(l, r);
    lemma_summary_counts_every_path(m, facts, cap);
    assert forall|k: Seq<char>| (exists|i: int| 0 <= i < es.len() && (#[trigger] es[i]).path == k)
        <==> (listed(l, k) || listed(r, k)) by {
        if exists|i: int| 0 <= i < es.len() && (#[trigger] es[i]).path == k {
            let i = choose|i: int| 0 <= i < es.len() && (#[trigger] es[i]).path == k;
            assert(m[i].0 == k);
            assert(merged(m, k));
        }
        if listed(l, k) || listed(r, k) {
            assert(merged(m, k));
            let a = choose|a: int| 0 <= a < m.len() && (#[trigger] m[a]).0 == k;
            assert(es[a].path == k);
        }
    }
    assert forall|i: int, j: int| 0 <= i < j < es.len() implies text_lt(#[trigger] es[i].path, #[trigger] es[j].path) by {
        assert(es[i].path == m[i].0 && es[j].path == m[j].0);
    }
}

/// Gives every merged path its entry and counts the statuses; at most
/// `cap` entries are kept, the counts cover all.
pub fn summarize(pairs: &[PathPair], facts: &[FileFacts], cap: usize) -> (r: CompareResult)
    requires
        facts@.len() == pairs@.len(),
    ensures
        entries_view(r.entries@) == entries_of(pairs_view(pairs@), facts@).take(
            if pairs@.len() < cap { pairs@.len() as int } else { cap as int },
        ),
        r.summary == summary_of(entries_of(pairs_view(pairs@), facts@), cap as nat),
{
    let ghost all = entries_of(pairs_view(pairs@), facts@);
    let mut summary = CompareSummary::default();
    let mut entries: Vec<DiffEntry> = Vec::new();
    let mut truncated = false;
    let mut i: usize = 0;
    while i < pairs.len()
        invariant
            i <= pairs@.len(),
            facts@.len() == pairs@.len(),
            all == entries_of(pairs_view(pairs@), facts@),
            entries_view(entries@) == all.take(if i < cap { i as int } else { cap as int }),
            truncated == (i > cap),
            summary.identical == count_status(all.take(i as int), "identical"@),
            summary.added == count_status(all.take(i as int), "added"@),
            summary.removed == count_status(all.take(i as int), "removed"@),
            summary.changed == count_status(all.take(i as int), "changed"@),
            summary.type_changed == count_status(all.take(i as int), "type-changed"@),
            !summary.truncated,
        decreases pairs@.len() - i,
    {
        let e = diff_entry(&pairs[i], facts[i]);
        assert(e@ == all[i as int]);
        let ghost pre = all.take(i as int);
        assert(all.take(i + 1).drop_last() =~= pre);
        assert(all.take(i + 1).last() == e@);
        proof {
            lemma_count_le(pre, "identical"@);
            lemma_count_le(pre, "added"@);
            lemma_count_le(pre, "removed"@);
            lemma_count_le(pre, "changed"@);
            lemma_count_le(pre, "type-changed"@);
        }
        count_entry(&mut summary, &e.status);
        if entries.len() < cap {
            let ghost before = entries_view(entries@);
            entries.push(e);
            assert(entries_view(entries@) =~= before.push(all[i as int]));
            assert(all.take(i + 1) =~= all.take(i as int).push(all[i as int]));
        } else {
            truncated = true;
        }
        i = i + 1;
    }
    assert(all.take(pairs@.len() as int) =~= all);
    summary.truncated = truncated;
    CompareResult { summary, entries }
}

/// One step of a chunked content comparison: `Some(true)` when the two
/// chunks differ in length or bytes, `Some(false)` when both sides have
/// ended, `None` to read on.
pub fn chunk_verdict(a: &[u8], b: &[u8]) -> (r: Option<bool>)
    ensures
        r == (if a@.len() != b@.len() {
            Some(true)
        } else if a@.len() == 0 {
            Some(false)
        } else if a@ != b@ {
            Some(true)
        } else {
            None::<bool>
        }),
{
    if a.len() != b.len() {
        return Some(true);
    }
    if a.len() == 0 {
        return Some(false);
    }
    let mut i: usize = 0;
    while i < a.len()
        invariant
            i <= a@.len(),
            a@.len() == b@.len(),
            forall|k: int| 0 <= k < i ==> a@[k] == b@[k],
        decreases a@.len() - i,
    {
        if a[i] != b[i] {
            return Some(true);
        }
        i = i + 1;
    }
    assert(a@ =~= b@);
    None
}

} // verus!
