//! Working inside a project workspace: the app directories of an
//! extracted ROM, reversible removal into the project backup and restoring
//! from it, the file browser's listing order and renames, Samsung disarm
//! and deodex planning, the project list, and finding host tools on PATH.
use vstd::prelude::*;
use crate::text::{chars_of, string_of, lowercase, to_lower, text_lt, text_less, texts, same_text,
    starts_with, ends_with, has_suffix, has_char, contains_char, strip_all_suffix, without_suffixes,
    push_text, push_chars, split_char, split_on, chars_seq, extension_of, has_extension};
use crate::fsconfig::{join_path, join_paths};
use crate::paths::{path_parts, path_under, same_path, path_starts_with, paths_equal, component, lemma_parts_empty,
    lemma_parts_concat, lemma_parts_join, lemma_parts_component, lemma_parts_are_components};

verus! {

// ---- records ----

/// An entry of a directory listing.
#[derive(Debug, Clone)]
pub struct DirEntryInfo {
    pub name: String,
    pub is_dir: bool,
    pub size: u64,
}

/// An installed app of the ROM.
#[derive(Debug, Clone)]
pub struct AppInfo {
    pub name: String,
    pub path: String,
    pub size: u64,
}

/// An app moved into the project backup.
#[derive(Debug, Clone)]
pub struct RemovedApp {
    /// Path inside the project backup.
    pub backup_path: String,
    /// Where the app will be restored to.
    pub original_path: String,
    pub name: String,
}

/// A project: a named workspace.
#[derive(Debug, Clone)]
pub struct Project {
    pub id: String,
    pub name: String,
    pub path: String,
    pub created_at: String,
}

// ---- app directories ----

/// Where an extracted ROM keeps its apps.
pub open spec fn app_dirs_of() -> Seq<Seq<char>> {
    seq![
        "system/app"@, "system/priv-app"@, "system/product/app"@, "system/product/priv-app"@,
        "system/system_ext/app"@, "system/system_ext/priv-app"@, "vendor/app"@, "product/app"@,
        "product/priv-app"@,
    ]
}

/// The app directories, relative to the workspace.
pub fn app_dirs() -> (r: Vec<&'static str>)
    ensures
        r@.map_values(|s: &str| s@) == app_dirs_of(),
{
    let mut v: Vec<&'static str> = Vec::new();
    v.push("system/app");
    v.push("system/priv-app");
    v.push("system/product/app");
    v.push("system/product/priv-app");
    v.push("system/system_ext/app");
    v.push("system/system_ext/priv-app");
    v.push("vendor/app");
    v.push("product/app");
    v.push("product/priv-app");
    assert(v@.map_values(|s: &str| s@) =~= app_dirs_of());
    v
}

/// Where deodexing looks for odex files, in order.
pub open spec fn deodex_dirs_of() -> Seq<Seq<char>> {
    seq![
        "system/app"@, "system/priv-app"@, "system/product/app"@, "system/product/priv-app"@,
        "system/system_ext/app"@, "system/system_ext/priv-app"@, "product/app"@, "product/priv-app"@,
        "vendor/app"@,
    ]
}

/// The directories deodexing searches, relative to the workspace.
pub fn deodex_dirs() -> (r: Vec<&'static str>)
    ensures
        r@.map_values(|s: &str| s@) == deodex_dirs_of(),
{
    let mut v: Vec<&'static str> = Vec::new();
    v.push("system/app");
    v.push("system/priv-app");
    v.push("system/product/app");
    v.push("system/product/priv-app");
    v.push("system/system_ext/app");
    v.push("system/system_ext/priv-app");
    v.push("product/app");
    v.push("product/priv-app");
    v.push("vendor/app");
    assert(v@.map_values(|s: &str| s@) =~= deodex_dirs_of());
    v
}

// ---- ordering ----

/// `x` placed before the first element that does not order before it
/// under `lt`: folding from the back, this keeps equal elements in their
/// original order.
pub open spec fn insert_front<A>(s: Seq<A>, x: A, lt: spec_fn(A, A) -> bool) -> Seq<A>
    decreases s.len(),
{
    if s.len() == 0 || !lt(s[0], x) { seq![x] + s } else { seq![s[0]] + insert_front(s.drop_first(), x, lt) }
}

/// Stable sort under the strict order `lt` (`sort_by`).
pub open spec fn stable_sort<A>(s: Seq<A>, lt: spec_fn(A, A) -> bool) -> Seq<A>
    decreases s.len(),
{
    if s.len() == 0 { s } else { insert_front(stable_sort(s.drop_first(), lt), s[0], lt) }
}

pub open spec fn app_view(a: AppInfo) -> (Seq<char>, Seq<char>, u64) {
    (a.name@, a.path@, a.size)
}

/// Apps by lowercased name.
pub open spec fn app_lt(a: (Seq<char>, Seq<char>, u64), b: (Seq<char>, Seq<char>, u64)) -> bool {
    text_lt(lowercase(a.0), lowercase(b.0))
}

fn name_key(name: &String) -> (r: Vec<char>)
    ensures
        r@ == lowercase(name@),
{
    let c = chars_of(name.as_str());
    to_lower(c.as_slice())
}

/// Orders apps by name, case-insensitively; equal names keep their order.
pub fn sort_apps(apps: Vec<AppInfo>) -> (r: Vec<AppInfo>)
    ensures
        r@.map_values(|a: AppInfo| app_view(a)) == stable_sort(apps@.map_values(|a: AppInfo| app_view(a)),
            |a: (Seq<char>, Seq<char>, u64), b: (Seq<char>, Seq<char>, u64)| app_lt(a, b)),
{
    let ghost lt = |a: (Seq<char>, Seq<char>, u64), b: (Seq<char>, Seq<char>, u64)| app_lt(a, b);
    let ghost all = apps@.map_values(|a: AppInfo| app_view(a));
    let mut rest = apps;
    let mut out: Vec<AppInfo> = Vec::new();
    assert(all.skip(all.len() as int) =~= Seq::<(Seq<char>, Seq<char>, u64)>::empty());
    assert(out@.map_values(|a: AppInfo| app_view(a)) =~= Seq::<(Seq<char>, Seq<char>, u64)>::empty());
    while rest.len() > 0
        invariant
            rest@.len() <= all.len(),
            rest@.map_values(|a: AppInfo| app_view(a)) == all.take(rest@.len() as int),
            out@.map_values(|a: AppInfo| app_view(a)) == stable_sort(all.skip(rest@.len() as int), lt),
            lt == (|a: (Seq<char>, Seq<char>, u64), b: (Seq<char>, Seq<char>, u64)| app_lt(a, b)),
        decreases rest@.len(),
    {
        let ghost n = rest@.len() as int;
        let x = rest.pop().unwrap();
        assert(all.take(n)[n - 1] == app_view(x));
        assert(rest@.map_values(|a: AppInfo| app_view(a)) =~= all.take(n - 1));
        assert(all.skip(n - 1).drop_first() =~= all.skip(n));
        assert(all.skip(n - 1)[0] == app_view(x));
        let xk = name_key(&x.name);
        let ghost s0 = out@.map_values(|a: AppInfo| app_view(a));
        let mut i: usize = 0;
        let mut stop = false;
        assert(s0.skip(0) =~= s0);
        assert(s0.take(0) + s0.skip(0) =~= s0);
        while i < out.len() && !stop
            invariant
                i <= out@.len(),
                s0 == out@.map_values(|a: AppInfo| app_view(a)),
                xk@ == lowercase(x.name@),
                lt == (|a: (Seq<char>, Seq<char>, u64), b: (Seq<char>, Seq<char>, u64)| app_lt(a, b)),
                insert_front(s0, app_view(x), lt) == s0.take(i as int) + insert_front(s0.skip(i as int), app_view(x), lt),
                stop ==> i < out@.len() && !lt(s0[i as int], app_view(x)),
            decreases out@.len() - i + (if stop { 0int } else { 1int }),
        {
            let yk = name_key(&out[i].name);
            assert(s0[i as int] == app_view(out@[i as int]));
            if !text_less(yk.as_slice(), xk.as_slice()) {
                stop = true;
                continue;
            }
            assert(s0.skip(i as int)[0] == s0[i as int]);
            assert(s0.skip(i as int).drop_first() =~= s0.skip(i + 1));
            assert(s0.take(i + 1) =~= s0.take(i as int).push(s0[i as int]));
            assert(s0.take(i as int) + (seq![s0[i as int]] + insert_front(s0.skip(i + 1), app_view(x), lt))
                =~= s0.take(i + 1) + insert_front(s0.skip(i + 1), app_view(x), lt));
            i = i + 1;
        }
        proof {
            if !stop {
                assert(s0.skip(i as int) =~= Seq::<(Seq<char>, Seq<char>, u64)>::empty());
            } else {
                assert(s0.skip(i as int)[0] == s0[i as int]);
            }
        }
        let ghost xv = app_view(x);
        out.insert(i, x);
        assert(out@.map_values(|a: AppInfo| app_view(a)) =~= s0.take(i as int) + insert_front(s0.skip(i as int), xv, lt));
    }
    assert(all.skip(0) =~= all);
    out
}

pub open spec fn removed_view(r: RemovedApp) -> (Seq<char>, Seq<char>, Seq<char>) {
    (r.backup_path@, r.original_path@, r.name@)
}

/// Removed items by name.
pub open spec fn removed_lt(a: (Seq<char>, Seq<char>, Seq<char>), b: (Seq<char>, Seq<char>, Seq<char>)) -> bool {
    text_lt(a.2, b.2)
}

/// Orders the backup listing by name; equal names keep their order.
pub fn sort_removed(items: Vec<RemovedApp>) -> (r: Vec<RemovedApp>)
    ensures
        r@.map_values(|x: RemovedApp| removed_view(x)) == stable_sort(items@.map_values(|x: RemovedApp| removed_view(x)),
            |a: (Seq<char>, Seq<char>, Seq<char>), b: (Seq<char>, Seq<char>, Seq<char>)| removed_lt(a, b)),
{
    let ghost lt = |a: (Seq<char>, Seq<char>, Seq<char>), b: (Seq<char>, Seq<char>, Seq<char>)| removed_lt(a, b);
    let ghost all = items@.map_values(|x: RemovedApp| removed_view(x));
    let mut rest = items;
    let mut out: Vec<RemovedApp> = Vec::new();
    assert(all.skip(all.len() as int) =~= Seq::<(Seq<char>, Seq<char>, Seq<char>)>::empty());
    assert(out@.map_values(|x: RemovedApp| removed_view(x)) =~= Seq::<(Seq<char>, Seq<char>, Seq<char>)>::empty());
    while rest.len() > 0
        invariant
            rest@.len() <= all.len(),
            rest@.map_values(|x: RemovedApp| removed_view(x)) == all.take(rest@.len() as int),
            out@.map_values(|x: RemovedApp| removed_view(x)) == stable_sort(all.skip(rest@.len() as int), lt),
            lt == (|a: (Seq<char>, Seq<char>, Seq<char>), b: (Seq<char>, Seq<char>, Seq<char>)| removed_lt(a, b)),
        decreases rest@.len(),
    {
        let ghost n = rest@.len() as int;
        let x = rest.pop().unwrap();
        assert(all.take(n)[n - 1] == removed_view(x));
        assert(rest@.map_values(|x: RemovedApp| removed_view(x)) =~= all.take(n - 1));
        assert(all.skip(n - 1).drop_first() =~= all.skip(n));
        assert(all.skip(n - 1)[0] == removed_view(x));
        let xk = chars_of(x.name.as_str());
        let ghost s0 = out@.map_values(|x: RemovedApp| removed_view(x));
        let mut i: usize = 0;
        let mut stop = false;
        assert(s0.skip(0) =~= s0);
        assert(s0.take(0) + s0.skip(0) =~= s0);
        while i < out.len() && !stop
            invariant
                i <= out@.len(),
                s0 == out@.map_values(|x: RemovedApp| removed_view(x)),
                xk@ == x.name@,
                lt == (|a: (Seq<char>, Seq<char>, Seq<char>), b: (Seq<char>, Seq<char>, Seq<char>)| removed_lt(a, b)),
                insert_front(s0, removed_view(x), lt) == s0.take(i as int) + insert_front(s0.skip(i as int), removed_view(x), lt),
                stop ==> i < out@.len() && !lt(s0[i as int], removed_view(x)),
            decreases out@.len() - i + (if stop { 0int } else { 1int }),
        {
            let yk = chars_of(out[i].name.as_str());
            assert(s0[i as int] == removed_view(out@[i as int]));
            if !text_less(yk.as_slice(), xk.as_slice()) {
                stop = true;
                continue;
            }
            assert(s0.skip(i as int)[0] == s0[i as int]);
            assert(s0.skip(i as int).drop_first() =~= s0.skip(i + 1));
            assert(s0.take(i + 1) =~= s0.take(i as int).push(s0[i as int]));
            assert(s0.take(i as int) + (seq![s0[i as int]] + insert_front(s0.skip(i + 1), removed_view(x), lt))
                =~= s0.take(i + 1) + insert_front(s0.skip(i + 1), removed_view(x), lt));
            i = i + 1;
        }
        proof {
            if !stop {
                assert(s0.skip(i as int) =~= Seq::<(Seq<char>, Seq<char>, Seq<char>)>::empty());
            } else {
                assert(s0.skip(i as int)[0] == s0[i as int]);
            }
        }
        let ghost xv = removed_view(x);
        out.insert(i, x);
        assert(out@.map_values(|x: RemovedApp| removed_view(x)) =~= s0.take(i as int) + insert_front(s0.skip(i as int), xv, lt));
    }
    assert(all.skip(0) =~= all);
    out
}

pub open spec fn dir_entry_view(e: DirEntryInfo) -> (Seq<char>, bool, u64) {
    (e.name@, e.is_dir, e.size)
}

/// Listing order: directories first, then by lowercased name.
pub open spec fn entry_lt(a: (Seq<char>, bool, u64), b: (Seq<char>, bool, u64)) -> bool {
    (a.1 && !b.1) || (a.1 == b.1 && text_lt(lowercase(a.0), lowercase(b.0)))
}

/// Orders a directory listing: directories first, then by name,
/// case-insensitively; equal entries keep their order.
pub fn sort_listing(entries: Vec<DirEntryInfo>) -> (r: Vec<DirEntryInfo>)
    ensures
        r@.map_values(|e: DirEntryInfo| dir_entry_view(e)) == stable_sort(
            entries@.map_values(|e: DirEntryInfo| dir_entry_view(e)),
            |a: (Seq<char>, bool, u64), b: (Seq<char>, bool, u64)| entry_lt(a, b)),
{
    let ghost lt = |a: (Seq<char>, bool, u64), b: (Seq<char>, bool, u64)| entry_lt(a, b);
    let ghost all = entries@.map_values(|e: DirEntryInfo| dir_entry_view(e));
    let mut rest = entries;
    let mut out: Vec<DirEntryInfo> = Vec::new();
    assert(all.skip(all.len() as int) =~= Seq::<(Seq<char>, bool, u64)>::empty());
    assert(out@.map_values(|e: DirEntryInfo| dir_entry_view(e)) =~= Seq::<(Seq<char>, bool, u64)>::empty());
    while rest.len() > 0
        invariant
            rest@.len() <= all.len(),
            rest@.map_values(|e: DirEntryInfo| dir_entry_view(e)) == all.take(rest@.len() as int),
            out@.map_values(|e: DirEntryInfo| dir_entry_view(e)) == stable_sort(all.skip(rest@.len() as int), lt),
            lt == (|a: (Seq<char>, bool, u64), b: (Seq<char>, bool, u64)| entry_lt(a, b)),
        decreases rest@.len(),
    {
        let ghost n = rest@.len() as int;
        let x = rest.pop().unwrap();
        assert(all.take(n)[n - 1] == dir_entry_view(x));
        assert(rest@.map_values(|e: DirEntryInfo| dir_entry_view(e)) =~= all.take(n - 1));
        assert(all.skip(n - 1).drop_first() =~= all.skip(n));
        assert(all.skip(n - 1)[0] == dir_entry_view(x));
        let xk = name_key(&x.name);
        let ghost s0 = out@.map_values(|e: DirEntryInfo| dir_entry_view(e));
        let mut i: usize = 0;
        let mut stop = false;
        assert(s0.skip(0) =~= s0);
        assert(s0.take(0) + s0.skip(0) =~= s0);
        while i < out.len() && !stop
            invariant
                i <= out@.len(),
                s0 == out@.map_values(|e: DirEntryInfo| dir_entry_view(e)),
                xk@ == lowercase(x.name@),
                lt == (|a: (Seq<char>, bool, u64), b: (Seq<char>, bool, u64)| entry_lt(a, b)),
                insert_front(s0, dir_entry_view(x), lt) == s0.take(i as int) + insert_front(s0.skip(i as int), dir_entry_view(x), lt),
                stop ==> i < out@.len() && !lt(s0[i as int], dir_entry_view(x)),
            decreases out@.len() - i + (if stop { 0int } else { 1int }),
        {
            let yk = name_key(&out[i].name);
            assert(s0[i as int] == dir_entry_view(out@[i as int]));
            let y_dir = out[i].is_dir;
            let before = (y_dir && !x.is_dir) || (y_dir == x.is_dir && text_less(yk.as_slice(), xk.as_slice()));
            if !before {
                stop = true;
                continue;
            }
            assert(s0.skip(i as int)[0] == s0[i as int]);
            assert(s0.skip(i as int).drop_first() =~= s0.skip(i + 1));
            assert(s0.take(i + 1) =~= s0.take(i as int).push(s0[i as int]));
            assert(s0.take(i as int) + (seq![s0[i as int]] + insert_front(s0.skip(i + 1), dir_entry_view(x), lt))
                =~= s0.take(i + 1) + insert_front(s0.skip(i + 1), dir_entry_view(x), lt));
            i = i + 1;
        }
        proof {
            if !stop {
                assert(s0.skip(i as int) =~= Seq::<(Seq<char>, bool, u64)>::empty());
            } else {
                assert(s0.skip(i as int)[0] == s0[i as int]);
            }
        }
        let ghost xv = dir_entry_view(x);
        out.insert(i, x);
        assert(out@.map_values(|e: DirEntryInfo| dir_entry_view(e)) =~= s0.take(i as int) + insert_front(s0.skip(i as int), xv, lt));
    }
    assert(all.skip(0) =~= all);
    out
}

// ---- project backup ----

/// The project backup that removed apps and files are moved into.
pub open spec fn backup_root_of(workspace: Seq<char>) -> Seq<char> {
    join_path(workspace, ".tuxkitchen/removed"@)
}

/// The backup folder of a workspace.
pub fn backup_root(workspace_path: &str) -> (r: String)
    ensures
        r@ == backup_root_of(workspace_path@),
{
    join_paths(workspace_path, ".tuxkitchen/removed")
}

/// Components joined by slashes.
pub open spec fn slash_joined(parts: Seq<Seq<char>>) -> Seq<char>
    decreases parts.len(),
{
    if parts.len() == 0 {
        seq![]
    } else if parts.len() == 1 {
        parts[0]
    } else {
        slash_joined(parts.drop_last()) + seq!['/'] + parts.last()
    }
}

fn join_parts(parts: &Vec<Vec<char>>, from: usize) -> (r: Vec<char>)
    requires
        from <= parts@.len(),
    ensures
        r@ == slash_joined(chars_seq(parts@).skip(from as int)),
{
    let ghost all = chars_seq(parts@).skip(from as int);
    let mut out: Vec<char> = Vec::new();
    let mut k: usize = from;
    assert(all.take(0) =~= Seq::<Seq<char>>::empty());
    while k < parts.len()
        invariant
            from <= k <= parts@.len(),
            all == chars_seq(parts@).skip(from as int),
            out@ == slash_joined(all.take(k - from)),
        decreases parts@.len() - k,
    {
        assert(all.take(k - from + 1).drop_last() =~= all.take(k - from));
        assert(all.take(k - from + 1).last() == parts@[k as int]@);
        if k > from {
            out.push('/');
        }
        push_chars(&mut out, parts[k].as_slice());
        proof {
            if k == from { assert(out@ =~= all.take(1)[0]); }
        }
        k = k + 1;
    }
    assert(all.take(parts@.len() - from) =~= all);
    out
}

/// Why a move into or out of the backup was refused.
#[derive(Debug, Clone, PartialEq, Eq)]
pub enum BackupError {
    /// The path resolves outside the workspace.
    Outside,
    /// The path is the workspace itself.
    Workspace,
    /// The path is not inside a removed-apps folder.
    NotInBackup,
}

/// Where a resolved path inside the workspace goes in the backup: its path
/// below the workspace, under `backup`.
pub open spec fn backup_destination_of(backup: Seq<char>, workspace: Seq<char>, target: Seq<char>) -> Result<Seq<char>, BackupError> {
    if !path_under(target, workspace) {
        Err(BackupError::Outside)
    } else if same_path(target, workspace) {
        Err(BackupError::Workspace)
    } else {
        Ok(join_path(backup, slash_joined(path_parts(target).skip(path_parts(workspace).len() as int))))
    }
}

fn parts_of_text(p: &str) -> (r: Vec<Vec<char>>)
    ensures
        chars_seq(r@) == path_parts(p@),
{
    let c = chars_of(p);
    crate::paths::parts_of_chars(c.as_slice())
}

/// The backup path of a removal: refused outside the workspace and for the
/// workspace itself.
pub fn backup_destination(backup: &str, workspace: &str, target: &str) -> (r: Result<String, BackupError>)
    ensures
        match (r, backup_destination_of(backup@, workspace@, target@)) {
            (Ok(a), Ok(b)) => a@ == b,
            (Err(e), Err(f)) => e == f,
            _ => false,
        },
{
    if !path_starts_with(target, workspace) {
        return Err(BackupError::Outside);
    }
    if paths_equal(target, workspace) {
        return Err(BackupError::Workspace);
    }
    let tp = parts_of_text(target);
    let wp = parts_of_text(workspace);
    proof { assert(chars_seq(wp@).len() <= chars_seq(tp@).len()); }
    let rel = join_parts(&tp, wp.len());
    let rs = string_of(rel.as_slice());
    Ok(join_paths(backup, rs.as_str()))
}

/// Where a backed-up path is restored to: the backup layout is
/// `<workspace>/.tuxkitchen/removed/<rel>`, so the components before the
/// first ".tuxkitchen", "removed" pair are joined with those after it.
pub open spec fn restore_destination_of(backup_path: Seq<char>) -> Option<Seq<char>> {
    let parts = path_parts(backup_path);
    match first_pair_index(parts, ".tuxkitchen"@, "removed"@) {
        None => None,
        Some(idx) => {
            let root = parts.take(idx as int);
            let lead = if starts_with(backup_path, "/"@) { seq!['/'] } else { seq![] };
            Some(join_path(lead + slash_joined(root), slash_joined(parts.skip(idx as int + 2))))
        },
    }
}

/// Index of the first place where `x` is directly followed by `y`.
pub open spec fn first_pair_index(s: Seq<Seq<char>>, x: Seq<char>, y: Seq<char>) -> Option<nat>
    decreases s.len(),
{
    if s.len() < 2 {
        None
    } else if s[0] == x && s[1] == y {
        Some(0)
    } else {
        match first_pair_index(s.drop_first(), x, y) {
            Some(i) => Some(i + 1),
            None => None,
        }
    }
}

/// Whether `x` is directly followed by `y` somewhere in `s`.
pub open spec fn has_pair(s: Seq<Seq<char>>, x: Seq<char>, y: Seq<char>) -> bool {
    exists|i: int| 0 <= i && i + 1 < s.len() && #[trigger] s[i] == x && s[i + 1] == y
}

fn find_pair(parts: &Vec<Vec<char>>, x: &str, y: &str) -> (r: Option<usize>)
    ensures
        match (r, first_pair_index(chars_seq(parts@), x@, y@)) {
            (Some(a), Some(b)) => a == b && a + 1 < parts@.len(),
            (None, None) => true,
            _ => false,
        },
{
    let ghost all = chars_seq(parts@);
    let mut i: usize = 0;
    assert(all.skip(0) =~= all);
    while i < parts.len() && i + 1 < parts.len()
        invariant
            i <= parts@.len(),
            all == chars_seq(parts@),
            first_pair_index(all, x@, y@) == (match first_pair_index(all.skip(i as int), x@, y@) {
                Some(j) => Some((j + i) as nat),
                None => None,
            }),
        decreases parts@.len() - i,
    {
        assert(all.skip(i as int)[0] == parts@[i as int]@);
        assert(all.skip(i as int)[1] == parts@[i + 1]@);
        assert(all.skip(i as int).drop_first() =~= all.skip(i + 1));
        if same_text(parts[i].as_slice(), x) && same_text(parts[i + 1].as_slice(), y) {
            return Some(i);
        }
        i = i + 1;
    }
    assert(all.skip(i as int).len() < 2);
    None
}

/// Where a backed-up app or file goes back to.
pub fn restore_destination(backup_path: &str) -> (r: Result<String, BackupError>)
    ensures
        match (r, restore_destination_of(backup_path@)) {
            (Ok(a), Some(b)) => a@ == b,
            (Err(e), None) => e == BackupError::NotInBackup,
            _ => false,
        },
{
    let parts = parts_of_text(backup_path);
    let ghost pv = chars_seq(parts@);
    let idx = match find_pair(&parts, ".tuxkitchen", "removed") {
        Some(i) => i,
        None => return Err(BackupError::NotInBackup),
    };
    let mut root: Vec<Vec<char>> = Vec::new();
    let mut k: usize = 0;
    while k < idx
        invariant
            k <= idx,
            idx + 1 < parts@.len(),
            pv == chars_seq(parts@),
            chars_seq(root@) == pv.take(k as int),
        decreases idx - k,
    {
        let ghost before = chars_seq(root@);
        let piece = vstd::slice::slice_to_vec(parts[k].as_slice());
        assert(piece@ == pv[k as int]);
        root.push(piece);
        assert(chars_seq(root@) =~= before.push(pv[k as int]));
        assert(pv.take(k + 1) =~= pv.take(k as int).push(pv[k as int]));
        k = k + 1;
    }
    let head = join_parts(&root, 0);
    assert(chars_seq(root@).skip(0) =~= chars_seq(root@));
    let count = parts.len();
    assert(idx + 1 < count);
    let after = idx + 2;
    let tail = join_parts(&parts, after);
    let bc = chars_of(backup_path);
    let mut lead: Vec<char> = Vec::new();
    proof { reveal_strlit("/"); }
    if bc.len() > 0 && bc[0] == '/' {
        lead.push('/');
        assert(bc@.take(1) =~= "/"@);
    } else {
        proof { if bc@.len() > 0 { assert(bc@.take(1)[0] == bc@[0]); } }
    }
    push_chars(&mut lead, head.as_slice());
    let ls = string_of(lead.as_slice());
    let ts = string_of(tail.as_slice());
    Ok(join_paths(ls.as_str(), ts.as_str()))
}

/// Components joined by slashes split back into those components, and the
/// joined text does not start with a slash.
proof fn lemma_slash_joined_parts(ps: Seq<Seq<char>>)
    requires
        forall|i: int| 0 <= i < ps.len() ==> component(#[trigger] ps[i]),
    ensures
        path_parts(slash_joined(ps)) == ps,
        ps.len() > 0 ==> slash_joined(ps).len() > 0 && slash_joined(ps)[0] != '/',
    decreases ps.len(),
{
    lemma_parts_empty();
    if ps.len() == 0 {
        assert(ps =~= Seq::<Seq<char>>::empty());
    } else if ps.len() == 1 {
        assert(component(ps[0]));
        lemma_parts_component(ps[0]);
        assert(seq![ps[0]] =~= ps);
        if ps[0][0] == '/' {
            assert(has_char(ps[0], '/'));
        }
    } else {
        let init = ps.drop_last();
        assert forall|i: int| 0 <= i < init.len() implies component(#[trigger] init[i]) by {
            assert(init[i] == ps[i]);
        }
        lemma_slash_joined_parts(init);
        assert(component(ps.last()));
        lemma_parts_component(ps.last());
        lemma_parts_concat(slash_joined(init), ps.last());
        assert(init + seq![ps.last()] =~= ps);
        assert(slash_joined(ps)[0] == slash_joined(init)[0]);
    }
}

/// `first_pair_index` past a prefix that holds no such pair, where the
/// pair does not straddle the join either.
proof fn lemma_first_pair_after(pre: Seq<Seq<char>>, rest: Seq<Seq<char>>, x: Seq<char>, y: Seq<char>)
    requires
        !has_pair(pre, x, y),
        pre.len() > 0 && rest.len() > 0 ==> !(pre.last() == x && rest[0] == y),
    ensures
        first_pair_index(pre + rest, x, y) == (match first_pair_index(rest, x, y) {
            Some(i) => Some((i + pre.len()) as nat),
            None => None,
        }),
    decreases pre.len(),
{
    if pre.len() == 0 {
        assert(pre + rest =~= rest);
    } else {
        let s = pre + rest;
        assert(s[0] == pre[0]);
        assert(s.drop_first() =~= pre.drop_first() + rest);
        if s.len() >= 2 && s[0] == x && s[1] == y {
            if pre.len() >= 2 {
                assert(s[1] == pre[1]);
                assert(pre[0] == x && pre[1] == y);
                assert(has_pair(pre, x, y));
            } else {
                assert(s[1] == rest[0]);
                assert(pre.last() == pre[0]);
            }
        }
        let tail = pre.drop_first();
        assert(!has_pair(tail, x, y)) by {
            if has_pair(tail, x, y) {
                let k = choose|k: int| 0 <= k && k + 1 < tail.len() && #[trigger] tail[k] == x && tail[k + 1] == y;
                assert(pre[k + 1] == x && pre[k + 1 + 1] == y);
                assert(has_pair(pre, x, y));
            }
        }
        if tail.len() > 0 {
            assert(tail.last() == pre.last());
        }
        lemma_first_pair_after(tail, rest, x, y);
        if s.len() < 2 {
            assert(rest.len() == 0);
            assert(first_pair_index(rest, x, y) is None);
        }
    }
}

proof fn lemma_starts_slash(s: Seq<char>)
    ensures
        starts_with(s, "/"@) == (s.len() > 0 && s[0] == '/'),
{
    reveal_strlit("/");
    if s.len() > 0 && s[0] == '/' {
        assert(s.take(1) =~= "/"@);
    }
    if starts_with(s, "/"@) {
        assert(s.take(1)[0] == s[0]);
    }
}

proof fn lemma_join_first(a: Seq<char>, b: Seq<char>)
    requires
        a.len() > 0,
    ensures
        join_path(a, b).len() > 0,
        join_path(a, b)[0] == a[0],
{
}

/// The components of the backup folder below a workspace.
proof fn lemma_backup_suffix_parts()
    ensures
        path_parts(".tuxkitchen/removed"@) == seq![".tuxkitchen"@, "removed"@],
        ".tuxkitchen"@ != "removed"@,
{
    reveal_strlit(".tuxkitchen/removed");
    reveal_strlit(".tuxkitchen");
    reveal_strlit("removed");
    reveal_strlit(".");
    let t = ".tuxkitchen"@;
    let r = "removed"@;
    assert(".tuxkitchen/removed"@ =~= t + seq!['/'] + r);
    assert(!has_char(t, '/')) by {
        assert forall|k: int| 0 <= k < t.len() implies t[k] != '/' by {}
    }
    assert(!has_char(r, '/')) by {
        assert forall|k: int| 0 <= k < r.len() implies r[k] != '/' by {}
    }
    assert(t != "."@) by { assert(t.len() != "."@.len()); }
    assert(r != "."@) by { assert(r.len() != "."@.len()); }
    lemma_parts_component(t);
    lemma_parts_component(r);
    lemma_parts_concat(t, r);
    assert(seq![t] + seq![r] =~= seq![t, r]);
    assert(t[0] != r[0]);
}

/// Restoring what was backed up puts it back where it was: for a target
/// inside the workspace (and not the workspace itself), the restore
/// destination of its backup path is the target again, as a path. This
/// holds where the workspace path does not itself run through a
/// ".tuxkitchen/removed" folder.
pub proof fn lemma_restore_undoes_backup(ws: Seq<char>, target: Seq<char>)
    requires
        ws.len() > 0,
        path_under(target, ws),
        !same_path(target, ws),
        !has_pair(path_parts(ws), ".tuxkitchen"@, "removed"@),
    ensures
        backup_destination_of(backup_root_of(ws), ws, target) is Ok,
        restore_destination_of(backup_destination_of(backup_root_of(ws), ws, target)->Ok_0)
            matches Some(back) && same_path(back, target),
{
    let pw = path_parts(ws);
    let pt = path_parts(target);
    let n = pw.len() as int;
    let rel = pt.skip(n);
    let t = ".tuxkitchen"@;
    let rm = "removed"@;
    let root = backup_root_of(ws);
    let b = join_path(root, slash_joined(rel));
    assert(backup_destination_of(root, ws, target) == Ok::<Seq<char>, BackupError>(b));
    // the components of the backup path
    lemma_backup_suffix_parts();
    lemma_parts_join(ws, ".tuxkitchen/removed"@);
    lemma_parts_are_components(target);
    assert forall|i: int| 0 <= i < rel.len() implies component(#[trigger] rel[i]) by {
        assert(rel[i] == pt[i + n]);
    }
    lemma_slash_joined_parts(rel);
    lemma_parts_join(root, slash_joined(rel));
    let parts = path_parts(b);
    assert(parts =~= pw + (seq![t, rm] + rel));
    // where the backup folder is found
    assert((seq![t, rm] + rel)[0] == t);
    assert((seq![t, rm] + rel)[1] == rm);
    assert(first_pair_index(seq![t, rm] + rel, t, rm) == Some(0nat));
    lemma_first_pair_after(pw, seq![t, rm] + rel, t, rm);
    let idx = n;
    assert(first_pair_index(parts, t, rm) == Some(idx as nat));
    assert(parts.take(idx) =~= pw);
    assert(parts.skip(idx + 2) =~= rel);
    // the leading slash
    lemma_starts_slash(b);
    lemma_starts_slash(ws);
    lemma_starts_slash(target);
    lemma_join_first(ws, ".tuxkitchen/removed"@);
    lemma_join_first(root, slash_joined(rel));
    let lead: Seq<char> = if starts_with(b, "/"@) { seq!['/'] } else { seq![] };
    let back = join_path(lead + slash_joined(pw), slash_joined(rel));
    assert(restore_destination_of(b) == Some(back));
    // its components
    assert forall|i: int| 0 <= i < pw.len() implies component(#[trigger] pw[i]) by {
        lemma_parts_are_components(ws);
    }
    lemma_slash_joined_parts(pw);
    lemma_parts_empty();
    if starts_with(b, "/"@) {
        assert(lead + slash_joined(pw) =~= Seq::<char>::empty() + seq!['/'] + slash_joined(pw));
        lemma_parts_concat(Seq::<char>::empty(), slash_joined(pw));
        assert(Seq::<Seq<char>>::empty() + pw =~= pw);
    } else {
        assert(lead + slash_joined(pw) =~= slash_joined(pw));
    }
    lemma_parts_join(lead + slash_joined(pw), slash_joined(rel));
    assert(pt.take(n) == pw);
    assert(pw + rel =~= pt);
    assert(path_parts(back) == pt);
    // absolute exactly when the target is
    lemma_starts_slash(back);
    assert(pt != pw);
    assert(rel.len() > 0);
    if (lead + slash_joined(pw)).len() > 0 {
        lemma_join_first(lead + slash_joined(pw), slash_joined(rel));
        if !starts_with(b, "/"@) {
            assert(pw.len() > 0);
            assert((lead + slash_joined(pw))[0] == slash_joined(pw)[0]);
        }
    } else {
        assert(lead.len() == 0);
        assert(back == slash_joined(rel));
    }
}

/// A file whose name (lowercased) ends in .apk, .odex or .vdex marks the
/// folder holding it as an app.
pub open spec fn app_artifact(name: Seq<char>) -> bool {
    artifact_suffix(lowercase(name))
}

pub open spec fn artifact_suffix(l: Seq<char>) -> bool {
    ends_with(l, ".apk"@) || ends_with(l, ".odex"@) || ends_with(l, ".vdex"@)
}

/// Whether a file name marks an app folder.
pub fn is_app_artifact(name: &str) -> (r: bool)
    ensures
        r == app_artifact(name@),
{
    let c = chars_of(name);
    let l = to_lower(c.as_slice());
    let ls = string_of(l.as_slice());
    has_artifact_suffix(ls.as_str())
}

/// Whether an already lowercased file name ends in .apk, .odex or .vdex.
pub fn has_artifact_suffix(lower: &str) -> (r: bool)
    ensures
        r == artifact_suffix(lower@),
{
    let l = chars_of(lower);
    let a = chars_of(".apk");
    let o = chars_of(".odex");
    let v = chars_of(".vdex");
    has_suffix(l.as_slice(), a.as_slice()) || has_suffix(l.as_slice(), o.as_slice()) || has_suffix(l.as_slice(), v.as_slice())
}

/// The entry of an item found in the backup at `backup_path`, `rel` being
/// its components below the backup root.
pub fn removed_app(workspace: &str, backup_path: &str, rel: &[String]) -> (r: RemovedApp)
    ensures
        r.backup_path@ == backup_path@,
        r.original_path@ == join_path(workspace@, slash_joined(texts(rel@))),
        r.name@ == slash_joined(texts(rel@)),
{
    let mut parts: Vec<Vec<char>> = Vec::new();
    let mut i: usize = 0;
    while i < rel.len()
        invariant
            i <= rel@.len(),
            chars_seq(parts@) == texts(rel@).take(i as int),
        decreases rel@.len() - i,
    {
        let c = chars_of(rel[i].as_str());
        let ghost before = chars_seq(parts@);
        assert(c@ == texts(rel@)[i as int]);
        parts.push(c);
        assert(chars_seq(parts@) =~= before.push(c@));
        assert(texts(rel@).take(i + 1) =~= texts(rel@).take(i as int).push(c@));
        i = i + 1;
    }
    assert(texts(rel@).take(rel@.len() as int) =~= texts(rel@));
    assert(chars_seq(parts@).skip(0) =~= chars_seq(parts@));
    let name = join_parts(&parts, 0);
    let ns = string_of(name.as_slice());
    RemovedApp {
        backup_path: backup_path.to_owned(),
        original_path: join_paths(workspace, ns.as_str()),
        name: ns,
    }
}

// ---- renames ----

/// A new name the file browser accepts: nonempty, no slash or backslash,
/// not hidden.
pub open spec fn valid_new_name(name: Seq<char>) -> bool {
    name.len() > 0 && !has_char(name, '/') && !has_char(name, '\\') && name[0] != '.'
}

/// Whether a new name is acceptable.
pub fn check_new_name(name: &str) -> (r: bool)
    ensures
        r == valid_new_name(name@),
{
    let c = chars_of(name);
    c.len() > 0 && !contains_char(c.as_slice(), '/') && !contains_char(c.as_slice(), '\\') && c[0] != '.'
}

// ---- Samsung disarm ----

/// What a disarm does to an image.
#[derive(Debug, Clone, Copy, PartialEq, Eq, Structural)]
pub enum DisarmKind {
    /// Clear the vbmeta verity flags in place.
    Vbmeta,
    /// Unpack, hexpatch the kernel, repack.
    Boot,
}

/// The images a disarm works on: "*.img" files whose names start with
/// boot, vbmeta or vendor_boot.
pub open spec fn disarm_kind_of(name: Seq<char>) -> Option<DisarmKind> {
    if extension_of(name) == Some("img"@)
        && (starts_with(name, "boot"@) || starts_with(name, "vbmeta"@) || starts_with(name, "vendor_boot"@)) {
        if starts_with(name, "vbmeta"@) { Some(DisarmKind::Vbmeta) } else { Some(DisarmKind::Boot) }
    } else {
        None
    }
}

/// How a workspace file takes part in a disarm, if at all.
pub fn disarm_kind(name: &str) -> (r: Option<DisarmKind>)
    ensures
        r == disarm_kind_of(name@),
{
    let c = chars_of(name);
    let b = chars_of("boot");
    let v = chars_of("vbmeta");
    let vb = chars_of("vendor_boot");
    if !has_extension(c.as_slice(), "img") {
        return None;
    }
    let is_v = crate::text::has_prefix(c.as_slice(), v.as_slice());
    if !(crate::text::has_prefix(c.as_slice(), b.as_slice()) || is_v || crate::text::has_prefix(c.as_slice(), vb.as_slice())) {
        return None;
    }
    if is_v { Some(DisarmKind::Vbmeta) } else { Some(DisarmKind::Boot) }
}

/// The kernel enforcement patches (label, hex pattern, hex replacement),
/// applied only where the pattern exists.
pub open spec fn kernel_patches_of() -> Seq<(Seq<char>, Seq<char>, Seq<char>)> {
    seq![
        ("RKP"@, "49010054011440B93FA00F71E9000054010840B93FA00F7189000054001840B91FA00F7188010054"@,
            "A1020054011440B93FA00F7140020054010840B93FA00F71E0010054001840B91FA00F7181010054"@),
        ("defex"@, "821B8012"@, "E2FF8F12"@),
        ("PROCA"@, "70726F63615F636F6E66696700"@, "70726F63615F6D616769736B00"@),
    ]
}

/// The kernel patches of a disarm.
pub fn kernel_patches() -> (r: Vec<(&'static str, &'static str, &'static str)>)
    ensures
        r@.map_values(|t: (&str, &str, &str)| (t.0@, t.1@, t.2@)) == kernel_patches_of(),
{
    let mut v: Vec<(&'static str, &'static str, &'static str)> = Vec::new();
    v.push(("RKP", "49010054011440B93FA00F71E9000054010840B93FA00F7189000054001840B91FA00F7188010054",
        "A1020054011440B93FA00F7140020054010840B93FA00F71E0010054001840B91FA00F7181010054"));
    v.push(("defex", "821B8012", "E2FF8F12"));
    v.push(("PROCA", "70726F63615F636F6E66696700", "70726F63615F6D616769736B00"));
    assert(v@.map_values(|t: (&str, &str, &str)| (t.0@, t.1@, t.2@)) =~= kernel_patches_of());
    v
}

/// The file a disarmed image is written to: its name without trailing
/// ".img"s, then "_disarmed.img".
pub fn disarmed_name(name: &str) -> (r: String)
    ensures
        r@ == strip_all_suffix(name@, ".img"@) + "_disarmed.img"@,
{
    let c = chars_of(name);
    let suf = chars_of(".img");
    let mut base = without_suffixes(c.as_slice(), suf.as_slice());
    push_text(&mut base, "_disarmed.img");
    string_of(base.as_slice())
}

/// Why a disarm or deodex run failed as a whole.
#[derive(Debug, Clone, Copy, PartialEq, Eq, Structural)]
pub enum RunError {
    /// No image could be patched.
    NothingPatched,
    /// No app could be deodexed.
    NothingDeodexed,
}

/// The outcome of a disarm: a failure when no image was patched.
pub fn disarm_outcome(patched_any: bool) -> (r: Result<(), RunError>)
    ensures
        r is Ok <==> patched_any,
        !patched_any ==> r == Err::<(), RunError>(RunError::NothingPatched),
{
    if patched_any { Ok(()) } else { Err(RunError::NothingPatched) }
}

// ---- deodex ----

/// `Path::parent` of a path: the text before its last slash ("/" for a
/// top-level entry of an absolute path), empty for a bare name.
pub open spec fn parent_of(p: Seq<char>) -> Seq<char> {
    match crate::text::last_index_of(p, '/') {
        None => seq![],
        Some(i) => if i == 0 { seq!['/'] } else { p.take(i as int) },
    }
}

/// `Path::file_name`: the text after the last slash.
pub open spec fn file_name_of(p: Seq<char>) -> Seq<char> {
    match crate::text::last_index_of(p, '/') {
        None => p,
        Some(i) => p.skip(i as int + 1),
    }
}

/// `Path::file_stem` of a name: before its last dot, unless that dot leads
/// the name.
pub open spec fn stem_of(name: Seq<char>) -> Seq<char> {
    match crate::text::last_index_of(name, '.') {
        None => name,
        Some(i) => if i == 0 { name } else { name.take(i as int) },
    }
}

/// What deodexing an odex file involves: its folder, its stem, the APK it
/// belongs to (above an `oat` folder when it sits in one), the scratch
/// folder, the stale artefacts to drop, and whether the `oat` folder goes.
pub struct DeodexPlan {
    pub dir: String,
    pub stem: String,
    pub apk: String,
    pub scratch: String,
    pub artifacts: Vec<String>,
    pub in_oat: bool,
    pub oat_parent: String,
}

pub open spec fn apk_of(dir: Seq<char>, stem: Seq<char>) -> Seq<char> {
    if file_name_of(dir) == "oat"@ {
        join_path(parent_of(dir), stem + ".apk"@)
    } else {
        join_path(dir, stem + ".apk"@)
    }
}

/// `Path::with_extension` for a path whose file name has one.
pub open spec fn with_extension_of(p: Seq<char>, ext: Seq<char>) -> Seq<char> {
    let name = file_name_of(p);
    p.take(p.len() - name.len()) + stem_of(name) + seq!['.'] + ext
}

fn split_last(p: &[char], c: char) -> (r: Option<usize>)
    ensures
        r matches Some(i) ==> crate::text::last_index_of(p@, c) == Some(i as nat) && i < p@.len(),
        r is None ==> crate::text::last_index_of(p@, c) is None,
{
    crate::text::rfind_char(p, c)
}

pub(crate) fn parent_chars(p: &[char]) -> (r: Vec<char>)
    ensures
        r@ == parent_of(p@),
{
    match split_last(p, '/') {
        None => Vec::new(),
        Some(i) => if i == 0 {
            let mut v: Vec<char> = Vec::new();
            v.push('/');
            v
        } else {
            assert(p@.subrange(0, i as int) =~= p@.take(i as int));
            vstd::slice::slice_to_vec(&p[0..i])
        },
    }
}

pub(crate) fn file_name_chars(p: &[char]) -> (r: Vec<char>)
    ensures
        r@ == file_name_of(p@),
{
    match split_last(p, '/') {
        None => vstd::slice::slice_to_vec(p),
        Some(i) => {
            let n = p.len();
            assert(p@.subrange(i + 1, n as int) =~= p@.skip(i + 1));
            vstd::slice::slice_to_vec(&p[i + 1..n])
        },
    }
}

pub(crate) fn stem_chars(name: &[char]) -> (r: Vec<char>)
    ensures
        r@ == stem_of(name@),
{
    match split_last(name, '.') {
        None => vstd::slice::slice_to_vec(name),
        Some(i) => if i == 0 {
            vstd::slice::slice_to_vec(name)
        } else {
            assert(name@.subrange(0, i as int) =~= name@.take(i as int));
            vstd::slice::slice_to_vec(&name[0..i])
        },
    }
}

fn with_ext(p: &[char], ext: &str) -> (r: String)
    ensures
        r@ == with_extension_of(p@, ext@),
{
    let name = file_name_chars(p);
    proof {
        match crate::text::last_index_of(p@, '/') {
            None => {},
            Some(i) => { crate::text::lemma_last_index_bound(p@, '/'); },
        }
    }
    let keep = p.len() - name.len();
    let mut out = vstd::slice::slice_to_vec(&p[0..keep]);
    assert(p@.subrange(0, keep as int) =~= p@.take(keep as int));
    let st = stem_chars(name.as_slice());
    push_chars(&mut out, st.as_slice());
    out.push('.');
    push_text(&mut out, ext);
    string_of(out.as_slice())
}

fn text2(a: &[char], b: &str) -> (r: String)
    ensures
        r@ == a@ + b@,
{
    let mut v = vstd::slice::slice_to_vec(a);
    push_text(&mut v, b);
    string_of(v.as_slice())
}

fn text2b(a: &str, b: &[char]) -> (r: String)
    ensures
        r@ == a@ + b@,
{
    let mut v = chars_of(a);
    push_chars(&mut v, b);
    string_of(v.as_slice())
}

/// Plans the deodexing of one odex file.
pub fn deodex_plan(odex: &str) -> (r: DeodexPlan)
    ensures
        ({
            let dir = parent_of(odex@);
            let stem = stem_of(file_name_of(odex@));
            let apk = apk_of(dir, stem);
            &&& r.dir@ == dir
            &&& r.stem@ == stem
            &&& r.apk@ == apk
            &&& r.scratch@ == join_path(dir, ".deodex-"@ + stem)
            &&& texts(r.artifacts@) == seq![
                join_path(dir, stem + ".vdex"@),
                join_path(dir, stem + ".art"@),
                with_extension_of(apk, "vdex"@),
                with_extension_of(apk, "art"@),
            ]
            &&& r.in_oat == (file_name_of(dir) == "oat"@)
            &&& r.oat_parent@ == parent_of(dir)
        }),
{
    let oc = chars_of(odex);
    let dir = parent_chars(oc.as_slice());
    let name = file_name_chars(oc.as_slice());
    let stem = stem_chars(name.as_slice());
    let dir_name = file_name_chars(dir.as_slice());
    let in_oat = same_text(dir_name.as_slice(), "oat");
    let oat_parent = parent_chars(dir.as_slice());
    let ds = string_of(dir.as_slice());
    let ss = string_of(stem.as_slice());
    let apk_name = text2(stem.as_slice(), ".apk");
    let apk = if in_oat {
        let ps = string_of(oat_parent.as_slice());
        join_paths(ps.as_str(), apk_name.as_str())
    } else {
        join_paths(ds.as_str(), apk_name.as_str())
    };
    let scratch_name = text2b(".deodex-", stem.as_slice());
    let scratch = join_paths(ds.as_str(), scratch_name.as_str());
    let ac = chars_of(apk.as_str());
    let vdex = text2(stem.as_slice(), ".vdex");
    let art = text2(stem.as_slice(), ".art");
    let mut artifacts: Vec<String> = Vec::new();
    artifacts.push(join_paths(ds.as_str(), vdex.as_str()));
    artifacts.push(join_paths(ds.as_str(), art.as_str()));
    artifacts.push(with_ext(ac.as_slice(), "vdex"));
    artifacts.push(with_ext(ac.as_slice(), "art"));
    assert(texts(artifacts@) =~= seq![
        join_path(dir@, stem@ + ".vdex"@),
        join_path(dir@, stem@ + ".art"@),
        with_extension_of(apk@, "vdex"@),
        with_extension_of(apk@, "art"@),
    ]);
    DeodexPlan {
        dir: ds,
        stem: ss,
        apk,
        scratch,
        artifacts,
        in_oat,
        oat_parent: string_of(oat_parent.as_slice()),
    }
}

/// The outcome of a deodex run: a failure when no app was converted.
pub fn deodex_outcome(converted: usize) -> (r: Result<(), RunError>)
    ensures
        r is Ok <==> converted > 0,
        converted == 0 ==> r == Err::<(), RunError>(RunError::NothingDeodexed),
{
    if converted == 0 { Err(RunError::NothingDeodexed) } else { Ok(()) }
}

// ---- projects ----

/// The project list without the project `id`; the others keep their order.
pub fn remove_project(projects: Vec<Project>, id: &str) -> (r: Vec<Project>)
    ensures
        r@ == projects@.filter(|p: Project| p.id@ != id@),
{
    let ghost all = projects@;
    let ghost keep = |p: Project| p.id@ != id@;
    let mut rest = projects;
    let mut out: Vec<Project> = Vec::new();
    assert(all.skip(all.len() as int) =~= Seq::<Project>::empty());
    assert(Seq::<Project>::empty().filter(keep) =~= Seq::<Project>::empty());
    while rest.len() > 0
        invariant
            rest@.len() <= all.len(),
            rest@ == all.take(rest@.len() as int),
            out@ == all.skip(rest@.len() as int).filter(keep),
            keep == (|p: Project| p.id@ != id@),
        decreases rest@.len(),
    {
        let ghost n = rest@.len() as int;
        let p = rest.pop().unwrap();
        assert(rest@ =~= all.take(n - 1));
        assert(all.skip(n - 1) =~= seq![p] + all.skip(n));
        proof {
            Seq::filter_distributes_over_add(seq![p], all.skip(n), keep);
            reveal(Seq::filter);
            assert(seq![p].drop_last() =~= Seq::<Project>::empty());
            assert(Seq::<Project>::empty().filter(keep) =~= Seq::<Project>::empty());
            assert(seq![p].last() == p);
        }
        let pid = chars_of(p.id.as_str());
        if !same_text(pid.as_slice(), id) {
            out.insert(0, p);
            assert(out@ =~= seq![p] + all.skip(n).filter(keep));
        } else {
            assert(!keep(p));
            assert(seq![p].filter(keep) =~= Seq::<Project>::empty());
        }
    }
    assert(all.skip(0) =~= all);
    out
}

pub open spec fn dec_digit(c: char) -> bool {
    '0' <= c && c <= '9'
}

pub open spec fn lower_hex_digit(c: char) -> bool {
    dec_digit(c) || ('a' <= c && c <= 'f')
}

/// A version-4 UUID in hyphenated lowercase form: 36 characters, hyphens
/// after the 8th, 12th, 16th and 20th hex digits, the version digit 4 and
/// a variant digit of 8, 9, a or b.
pub open spec fn uuid_v4_text(s: Seq<char>) -> bool {
    &&& s.len() == 36
    &&& forall|i: int| 0 <= i < 36 ==> (if i == 8 || i == 13 || i == 18 || i == 23 {
            #[trigger] s[i] == '-'
        } else {
            lower_hex_digit(s[i])
        })
    &&& s[14] == '4'
    &&& (s[19] == '8' || s[19] == '9' || s[19] == 'a' || s[19] == 'b')
}

/// A year as chrono writes it: four digits, or a sign and at least four
/// digits outside 0..=9999.
pub open spec fn year_text(y: Seq<char>) -> bool {
    ||| y.len() == 4 && forall|i: int| 0 <= i < 4 ==> dec_digit(#[trigger] y[i])
    ||| y.len() >= 5 && (y[0] == '+' || y[0] == '-') && forall|i: int| 1 <= i < y.len() ==> dec_digit(#[trigger] y[i])
}

/// Seconds' fraction: none, or a dot and 3, 6 or 9 digits.
pub open spec fn fraction_text(f: Seq<char>) -> bool {
    ||| f.len() == 0
    ||| (f.len() == 4 || f.len() == 7 || f.len() == 10) && f[0] == '.'
        && forall|i: int| 1 <= i < f.len() ==> dec_digit(#[trigger] f[i])
}

/// An RFC 3339 date and time with a numeric offset, such as
/// `1996-12-19T16:39:57.25-08:00`: year, `-MM-DD`, `T`, `HH:MM:SS`, an
/// optional fraction, and `+HH:MM` or `-HH:MM`.
pub open spec fn rfc3339_text(s: Seq<char>) -> bool {
    exists|k: int| 10 <= k && k + 15 <= s.len() && #[trigger] s[k] == 'T'
        && year_text(s.take(k - 6))
        && s[k - 6] == '-' && dec_digit(s[k - 5]) && dec_digit(s[k - 4])
        && s[k - 3] == '-' && dec_digit(s[k - 2]) && dec_digit(s[k - 1])
        && dec_digit(s[k + 1]) && dec_digit(s[k + 2]) && s[k + 3] == ':'
        && dec_digit(s[k + 4]) && dec_digit(s[k + 5]) && s[k + 6] == ':'
        && dec_digit(s[k + 7]) && dec_digit(s[k + 8])
        && fraction_text(s.subrange(k + 9, s.len() - 6))
        && (s[s.len() - 6] == '+' || s[s.len() - 6] == '-')
        && dec_digit(s[s.len() - 5]) && dec_digit(s[s.len() - 4]) && s[s.len() - 3] == ':'
        && dec_digit(s[s.len() - 2]) && dec_digit(s[s.len() - 1])
}

/// `uuid::Uuid::new_v4().to_string()`: a random version-4 UUID in its
/// hyphenated lowercase form (`Display` writes the hyphenated form in
/// lowercase; `new_v4` sets the version and variant bits). Which UUID comes
/// back is random and not claimed.
#[verifier::external_body]
fn new_project_id() -> (r: String)
    ensures
        uuid_v4_text(r@),
{
    uuid::Uuid::new_v4().to_string()
}

/// `chrono::Local::now().to_rfc3339()`: the current local time as an
/// RFC 3339 text with a numeric offset. Which time comes back is not
/// claimed.
#[verifier::external_body]
fn now_rfc3339() -> (r: String)
    ensures
        rfc3339_text(r@),
{
    chrono::Local::now().to_rfc3339()
}

/// A new project for a workspace: a fresh id and the creation time.
pub fn create_project(name: String, workspace_path: String) -> (r: Project)
    ensures
        r.name@ == name@,
        r.path@ == workspace_path@,
        uuid_v4_text(r.id@),
        rfc3339_text(r.created_at@),
{
    Project { id: new_project_id(), name, path: workspace_path, created_at: now_rfc3339() }
}

// ---- finding tools ----

/// Where PATH says to look for a tool: each entry of the list (split at
/// ':') joined with the name.
pub open spec fn tool_candidates_of(path_var: Seq<char>, name: Seq<char>) -> Seq<Seq<char>> {
    split_char(path_var, ':').map_values(|d: Seq<char>| join_path(d, name))
}

/// The paths to try for a tool.
pub fn tool_candidates(path_var: &str, name: &str) -> (r: Vec<String>)
    ensures
        texts(r@) == tool_candidates_of(path_var@, name@),
{
    let pc = chars_of(path_var);
    let dirs = split_on(pc.as_slice(), ':');
    let ghost ds = chars_seq(dirs@);
    let mut out: Vec<String> = Vec::new();
    let mut i: usize = 0;
    while i < dirs.len()
        invariant
            i <= dirs@.len(),
            ds == chars_seq(dirs@),
            ds == split_char(path_var@, ':'),
            texts(out@) == tool_candidates_of(path_var@, name@).take(i as int),
        decreases dirs@.len() - i,
    {
        let d = string_of(dirs[i].as_slice());
        assert(ds[i as int] == d@);
        let ghost before = texts(out@);
        let joined = join_paths(d.as_str(), name);
        assert(joined@ == tool_candidates_of(path_var@, name@)[i as int]);
        out.push(joined);
        assert(texts(out@) =~= before.push(joined@));
        assert(tool_candidates_of(path_var@, name@).take(i + 1)
            =~= tool_candidates_of(path_var@, name@).take(i as int).push(joined@));
        i = i + 1;
    }
    assert(tool_candidates_of(path_var@, name@).take(dirs@.len() as int) =~= tool_candidates_of(path_var@, name@));
    out
}

/// The first candidate that exists.
pub fn find_tool(candidates: &[String], present: &[bool]) -> (r: Option<String>)
    requires
        present@.len() == candidates@.len(),
    ensures
        match r {
            Some(p) => exists|i: int| 0 <= i < candidates@.len() && present@[i] && candidates@[i]@ == p@
                && forall|j: int| 0 <= j < i ==> !present@[j],
            None => forall|i: int| 0 <= i < candidates@.len() ==> !present@[i],
        },
{
    let mut i: usize = 0;
    while i < candidates.len()
        invariant
            i <= candidates@.len(),
            present@.len() == candidates@.len(),
            forall|j: int| 0 <= j < i ==> !present@[j],
        decreases candidates@.len() - i,
    {
        if present[i] {
            let r = candidates[i].clone();
            assert(candidates@[i as int]@ == r@);
            return Some(r);
        }
        i = i + 1;
    }
    None
}

/// Where a host magiskboot may be: the override, the packaged copy, then
/// PATH.
pub fn magiskboot_candidates(override_path: Option<&str>, path_var: Option<&str>) -> (r: Vec<String>)
    ensures
        texts(r@) == (match override_path {
            Some(o) => seq![o@],
            None => seq![],
        }) + seq!["/usr/lib/tuxkitchen/magiskboot"@] + (match path_var {
            Some(pv) => tool_candidates_of(pv@, "magiskboot"@),
            None => seq![],
        }),
{
    let mut out: Vec<String> = Vec::new();
    match override_path {
        Some(o) => out.push(o.to_owned()),
        None => {},
    }
    out.push("/usr/lib/tuxkitchen/magiskboot".to_owned());
    let ghost head = texts(out@);
    match path_var {
        Some(pv) => {
            let mut more = tool_candidates(pv, "magiskboot");
            let ghost m = texts(more@);
            out.append(&mut more);
            assert(texts(out@) =~= head + m);
        },
        None => {
            assert(texts(out@) =~= head + Seq::<Seq<char>>::empty());
        },
    }
    out
}

} // verus!
