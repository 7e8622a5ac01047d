//! Keeping file operations inside a project workspace. Paths are compared
//! by component, as `Path::starts_with` does, on absolute paths that the
//! caller has resolved against the file system.
use vstd::prelude::*;
use crate::text::{chars_of, string_of, split_char, split_on, chars_seq, starts_with, strip_all_prefix,
    without_prefixes, keep_some, lemma_keep_some_step, same_text};
use crate::props::prop_name;
use crate::text::{has_char, lemma_keep_some_concat, lemma_keep_some_all, lemma_split_char_concat,
    lemma_split_pieces_free, lemma_split_whole};
use crate::fsconfig::join_path;

verus! {

/// The normal components of a path: the pieces between slashes, without
/// empty pieces and ".".
pub open spec fn path_parts(p: Seq<char>) -> Seq<Seq<char>> {
    keep_some(split_char(p, '/'), |c: Seq<char>| if c.len() == 0 || c == "."@ { None } else { Some(c) })
}

/// `Path::starts_with` for paths that are both absolute or both relative
/// without a leading ".": `base`'s components begin `p`'s.
pub open spec fn path_under(p: Seq<char>, base: Seq<char>) -> bool {
    &&& starts_with(p, "/"@) == starts_with(base, "/"@)
    &&& path_parts(base).len() <= path_parts(p).len()
    &&& path_parts(p).take(path_parts(base).len() as int) == path_parts(base)
}

/// `Path` equality for such paths: the same components.
pub open spec fn same_path(p: Seq<char>, q: Seq<char>) -> bool {
    starts_with(p, "/"@) == starts_with(q, "/"@) && path_parts(p) == path_parts(q)
}

pub(crate) fn parts_of_chars(p: &[char]) -> (r: Vec<Vec<char>>)
    ensures
        chars_seq(r@) == path_parts(p@),
{
    let pieces = split_on(p, '/');
    let ghost all = split_char(p@, '/');
    let ghost f = |c: Seq<char>| if c.len() == 0 || c == "."@ { None } else { Some(c) };
    let mut out: Vec<Vec<char>> = Vec::new();
    let mut i: usize = 0;
    assert(all.take(0) =~= Seq::<Seq<char>>::empty());
    assert(chars_seq(out@) =~= Seq::<Seq<char>>::empty());
    while i < pieces.len()
        invariant
            i <= pieces@.len(),
            chars_seq(pieces@) == all,
            f == (|c: Seq<char>| if c.len() == 0 || c == "."@ { None } else { Some(c) }),
            chars_seq(out@) == keep_some(all.take(i as int), f),
        decreases pieces@.len() - i,
    {
        proof { lemma_keep_some_step(all, f, i as int); }
        assert(all[i as int] == pieces@[i as int]@);
        let ghost before = chars_seq(out@);
        if pieces[i].len() > 0 && !same_text(pieces[i].as_slice(), ".") {
            out.push(pieces[i].clone());
            assert(chars_seq(out@) =~= before.push(pieces@[i as int]@));
        }
        i = i + 1;
    }
    assert(all.take(pieces@.len() as int) =~= all);
    out
}

/// A normal path component: not empty, not ".", without a slash.
pub open spec fn component(c: Seq<char>) -> bool {
    c.len() > 0 && c != "."@ && !has_char(c, '/')
}

pub proof fn lemma_parts_empty()
    ensures
        path_parts(seq![]) == Seq::<Seq<char>>::empty(),
{
    let e = Seq::<char>::empty();
    lemma_split_whole(e, '/');
    assert(split_char(e, '/') == seq![e]);
    assert(seq![e].drop_last() =~= Seq::<Seq<char>>::empty());
    assert(seq![e].last() == e);
    reveal_with_fuel(keep_some, 2);
    assert(path_parts(e) =~= Seq::<Seq<char>>::empty());
}

/// The components of `a`, a slash and `b` are those of `a`, then those
/// of `b`.
pub proof fn lemma_parts_concat(a: Seq<char>, b: Seq<char>)
    ensures
        path_parts(a + seq!['/'] + b) == path_parts(a) + path_parts(b),
{
    lemma_split_char_concat(a, b, '/');
    lemma_keep_some_concat(split_char(a, '/'), split_char(b, '/'),
        |c: Seq<char>| if c.len() == 0 || c == "."@ { None } else { Some(c) });
}

/// Joining paths concatenates their components.
pub proof fn lemma_parts_join(a: Seq<char>, b: Seq<char>)
    ensures
        path_parts(join_path(a, b)) == path_parts(a) + path_parts(b),
{
    lemma_parts_empty();
    if a.len() == 0 {
        assert(a + b =~= b);
        assert(a =~= Seq::<char>::empty());
        assert(path_parts(a) + path_parts(b) =~= path_parts(b));
    } else if a.last() == '/' {
        let h = a.drop_last();
        assert(a =~= h + seq!['/'] + seq![]);
        lemma_parts_concat(h, seq![]);
        assert(path_parts(h) + path_parts(seq![]) =~= path_parts(h));
        assert(a + b =~= h + seq!['/'] + b);
        lemma_parts_concat(h, b);
    } else {
        lemma_parts_concat(a, b);
    }
}

/// A single component is its own only component.
pub proof fn lemma_parts_component(c: Seq<char>)
    requires
        component(c),
    ensures
        path_parts(c) == seq![c],
{
    lemma_split_whole(c, '/');
    assert(seq![c].drop_last() =~= Seq::<Seq<char>>::empty());
    assert(seq![c].last() == c);
    reveal_with_fuel(keep_some, 2);
    assert(path_parts(c) =~= seq![c]);
}

/// Every component of a path is a normal component.
pub proof fn lemma_parts_are_components(p: Seq<char>)
    ensures
        forall|i: int| 0 <= i < path_parts(p).len() ==> component(#[trigger] path_parts(p)[i]),
{
    let pieces = split_char(p, '/');
    let f = |c: Seq<char>| if c.len() == 0 || c == "."@ { None } else { Some(c) };
    lemma_split_pieces_free(p, '/');
    assert forall|i: int| 0 <= i < pieces.len() implies
        (#[trigger] f(pieces[i]) matches Some(b) ==> component(b)) by {
        assert(!has_char(pieces[i], '/'));
    }
    lemma_keep_some_all(pieces, f, |c: Seq<char>| component(c));
}

fn is_absolute(p: &[char]) -> (r: bool)
    ensures
        r == starts_with(p@, "/"@),
{
    proof { reveal_strlit("/"); }
    if p.len() > 0 && p[0] == '/' {
        assert(p@.take(1) =~= "/"@);
        true
    } else {
        proof {
            if p@.len() > 0 { assert(p@.take(1)[0] == p@[0]); }
        }
        false
    }
}

fn parts_equal(a: &Vec<Vec<char>>, b: &Vec<Vec<char>>, n: usize) -> (r: bool)
    requires
        n <= a@.len(),
        n <= b@.len(),
    ensures
        r == (chars_seq(a@).take(n as int) == chars_seq(b@).take(n as int)),
{
    let mut i: usize = 0;
    while i < n
        invariant
            i <= n <= a@.len(),
            n <= b@.len(),
            chars_seq(a@).take(i as int) == chars_seq(b@).take(i as int),
        decreases n - i,
    {
        let x = &a[i];
        let y = &b[i];
        assert(x@ == chars_seq(a@)[i as int] && y@ == chars_seq(b@)[i as int]);
        if x.len() != y.len() {
            assert(chars_seq(a@).take(n as int)[i as int] != chars_seq(b@).take(n as int)[i as int]);
            return false;
        }
        let mut j: usize = 0;
        while j < x.len()
            invariant
                j <= x@.len() == y@.len(),
                i < n <= a@.len(),
                n <= b@.len(),
                x@ == chars_seq(a@)[i as int],
                y@ == chars_seq(b@)[i as int],
                forall|k: int| 0 <= k < j ==> x@[k] == y@[k],
            decreases x@.len() - j,
        {
            if x[j] != y[j] {
                assert(chars_seq(a@).take(n as int)[i as int][j as int] != chars_seq(b@).take(n as int)[i as int][j as int]);
                return false;
            }
            j = j + 1;
        }
        assert(x@ =~= y@);
        assert(chars_seq(a@).take(i + 1) =~= chars_seq(b@).take(i + 1));
        i = i + 1;
    }
    true
}

/// Whether `p` lies at or under `base`.
pub fn path_starts_with(p: &str, base: &str) -> (r: bool)
    ensures
        r == path_under(p@, base@),
{
    let pc = chars_of(p);
    let bc = chars_of(base);
    if is_absolute(pc.as_slice()) != is_absolute(bc.as_slice()) {
        return false;
    }
    let pp = parts_of_chars(pc.as_slice());
    let bp = parts_of_chars(bc.as_slice());
    if bp.len() > pp.len() {
        return false;
    }
    let r = parts_equal(&pp, &bp, bp.len());
    assert(chars_seq(bp@).take(bp@.len() as int) =~= chars_seq(bp@));
    r
}

/// Whether `p` and `q` name the same path.
pub fn paths_equal(p: &str, q: &str) -> (r: bool)
    ensures
        r == same_path(p@, q@),
{
    let pc = chars_of(p);
    let qc = chars_of(q);
    if is_absolute(pc.as_slice()) != is_absolute(qc.as_slice()) {
        return false;
    }
    let pp = parts_of_chars(pc.as_slice());
    let qp = parts_of_chars(qc.as_slice());
    if pp.len() != qp.len() {
        assert(chars_seq(pp@).len() != chars_seq(qp@).len());
        return false;
    }
    let r = parts_equal(&pp, &qp, pp.len());
    assert(chars_seq(pp@).take(pp@.len() as int) =~= chars_seq(pp@));
    assert(chars_seq(qp@).take(qp@.len() as int) =~= chars_seq(qp@));
    r
}

/// A workspace-relative path with its leading slashes dropped, so that it
/// joins under the workspace.
pub fn relative_part(rel: &str) -> (r: String)
    ensures
        r@ == strip_all_prefix(rel@, "/"@),
{
    let cs = chars_of(rel);
    let slash = chars_of("/");
    let t = without_prefixes(cs.as_slice(), slash.as_slice());
    string_of(t.as_slice())
}

/// Why a path was refused.
#[derive(Debug, Clone, PartialEq, Eq)]
pub enum ConfineError {
    /// The path resolves outside the workspace.
    Outside,
    /// The path is the workspace itself.
    Workspace,
    /// Not a prop file; the file name.
    NotProp(String),
}

/// Accepts a resolved path for a file operation: it must lie under the
/// workspace and not be the workspace itself.
pub fn confine_resolved(workspace: &str, resolved: &str) -> (r: Result<(), ConfineError>)
    ensures
        !path_under(resolved@, workspace@) ==> r == Err::<(), ConfineError>(ConfineError::Outside),
        path_under(resolved@, workspace@) && same_path(resolved@, workspace@)
            ==> r == Err::<(), ConfineError>(ConfineError::Workspace),
        r is Ok <==> path_under(resolved@, workspace@) && !same_path(resolved@, workspace@),
{
    if !path_starts_with(resolved, workspace) {
        return Err(ConfineError::Outside);
    }
    if paths_equal(resolved, workspace) {
        return Err(ConfineError::Workspace);
    }
    Ok(())
}

/// Accepts the target of a prop-file write: the target and its resolved
/// parent must lie under the workspace; where something already sits at
/// the target (a file, or a link to one), its fully resolved location
/// must lie under the workspace too, so a link cannot lead the write
/// outside; and its file name must be a prop file's. `target_present`
/// tells whether anything sits at the target, `resolved_target` where it
/// resolves to (`None` when it cannot be resolved).
pub fn confine_prop_target(
    workspace: &str,
    target: &str,
    resolved_parent: Option<&str>,
    target_present: bool,
    resolved_target: Option<&str>,
    file_name: Option<&str>,
) -> (r: Result<(), ConfineError>)
    ensures
        ({
            let parent_ok = match resolved_parent {
                Some(p) => path_under(p@, workspace@),
                None => false,
            };
            let resolved_ok = !target_present || match resolved_target {
                Some(p) => path_under(p@, workspace@),
                None => false,
            };
            let name = match file_name {
                Some(n) => n@,
                None => Seq::<char>::empty(),
            };
            if !parent_ok || !path_under(target@, workspace@) || !resolved_ok {
                r == Err::<(), ConfineError>(ConfineError::Outside)
            } else if !prop_name(name) {
                r matches Err(ConfineError::NotProp(n)) && n@ == name
            } else {
                r is Ok
            }
        }),
{
    let parent_ok = match resolved_parent {
        Some(p) => path_starts_with(p, workspace),
        None => false,
    };
    let resolved_ok = if target_present {
        match resolved_target {
            Some(p) => path_starts_with(p, workspace),
            None => false,
        }
    } else {
        true
    };
    if !parent_ok || !path_starts_with(target, workspace) || !resolved_ok {
        return Err(ConfineError::Outside);
    }
    let name = match file_name {
        Some(n) => n.to_owned(),
        None => String::new(),
    };
    if !crate::props::is_prop_name(name.as_str()) {
        return Err(ConfineError::NotProp(name));
    }
    Ok(())
}

} // verus!
