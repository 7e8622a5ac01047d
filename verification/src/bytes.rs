//! Big- and little-endian integer fields inside byte buffers.
use vstd::prelude::*;

verus! {

/// Value of a byte string read as a big-endian unsigned number.
pub open spec fn be_value(s: Seq<u8>) -> nat
    decreases s.len(),
{
    if s.len() == 0 {
        0
    } else {
        be_value(s.drop_last()) * 256 + s.last() as nat
    }
}

/// Value of a byte string read as a little-endian unsigned number.
pub open spec fn le_value(s: Seq<u8>) -> nat
    decreases s.len(),
{
    if s.len() == 0 {
        0
    } else {
        le_value(s.drop_first()) * 256 + s[0] as nat
    }
}

/// The four bytes of `v` in big-endian order.
pub open spec fn be_bytes4(v: u32) -> Seq<u8> {
    seq![
        (v / 0x100_0000) as u8,
        ((v / 0x1_0000) % 256) as u8,
        ((v / 0x100) % 256) as u8,
        (v % 256) as u8,
    ]
}

/// The bytes of `v` in little-endian order, `n` of them.
pub open spec fn le_bytes(v: nat, n: nat) -> Seq<u8>
    decreases n,
{
    if n == 0 {
        seq![]
    } else {
        seq![(v % 256) as u8] + le_bytes(v / 256, (n - 1) as nat)
    }
}

/// 256 to the power `n`.
pub open spec fn pow256(n: nat) -> nat
    decreases n,
{
    if n == 0 { 1 } else { 256 * pow256((n - 1) as nat) }
}

pub proof fn lemma_pow256_small()
    ensures
        pow256(4) == 0x1_0000_0000,
        pow256(8) == 0x1_0000_0000_0000_0000,
{
    reveal_with_fuel(pow256, 9);
}

pub proof fn lemma_pow256_mono(i: nat, j: nat)
    requires i <= j,
    ensures 1 <= pow256(i) <= pow256(j),
    decreases j,
{
    if j > 0 && i < j {
        lemma_pow256_mono(i, (j - 1) as nat);
    } else if j > 0 {
        lemma_pow256_mono(0, (j - 1) as nat);
    }
}

pub proof fn lemma_be_value_bound(s: Seq<u8>)
    ensures
        be_value(s) < pow256(s.len()),
    decreases s.len(),
{
    if s.len() > 0 {
        lemma_be_value_bound(s.drop_last());
        let p = pow256((s.len() - 1) as nat);
        assert(be_value(s.drop_last()) * 256 + s.last() < p * 256) by (nonlinear_arith)
            requires be_value(s.drop_last()) < p, s.last() < 256;
    }
}

pub proof fn lemma_be_bytes4(v: u32)
    ensures
        be_value(be_bytes4(v)) == v,
        be_bytes4(v).len() == 4,
{
    let s = be_bytes4(v);
    assert(s.drop_last().drop_last().drop_last().drop_last() =~= Seq::<u8>::empty());
    assert(s.drop_last().drop_last().drop_last() =~= seq![s[0]]);
    assert(s.drop_last().drop_last() =~= seq![s[0], s[1]]);
    assert(s.drop_last() =~= seq![s[0], s[1], s[2]]);
    reveal_with_fuel(be_value, 5);
}

/// Reads `n` big-endian bytes at `at`.
pub fn read_be(b: &[u8], at: usize, n: usize) -> (v: u64)
    requires
        n <= 8,
        at + n <= b@.len(),
    ensures
        v == be_value(b@.subrange(at as int, at + n)),
{
    let mut v: u64 = 0;
    let mut i: usize = 0;
    while i < n
        invariant
            i <= n <= 8,
            at + n <= b.len(),
            v == be_value(b@.subrange(at as int, at + i)),
            v < pow256(i as nat),
        decreases n - i,
    {
        proof {
            lemma_pow256_mono(i as nat + 1, 8);
            lemma_pow256_small();
            assert(b@.subrange(at as int, at + i + 1).drop_last() =~= b@.subrange(at as int, at + i));
        }
        let byte = b[at + i];
        proof {
            let p = pow256(i as nat);
            assert(v * 256 + byte < p * 256) by (nonlinear_arith)
                requires v < p, byte < 256;
            assert(pow256(i as nat + 1) == 256 * p);
        }
        v = v * 256 + byte as u64;
        i = i + 1;
    }
    v
}

/// Reads four big-endian bytes at `at`.
pub fn read_be32(b: &[u8], at: usize) -> (v: u32)
    requires
        at + 4 <= b@.len(),
    ensures
        v == be_value(b@.subrange(at as int, at + 4)),
{
    let w = read_be(b, at, 4);
    proof {
        lemma_be_value_bound(b@.subrange(at as int, at + 4));
        lemma_pow256_small();
    }
    w as u32
}

/// Reads four little-endian bytes at `at`.
pub fn read_le32(b: &[u8], at: usize) -> (v: u32)
    requires
        at + 4 <= b@.len(),
    ensures
        v == le_value(b@.subrange(at as int, at + 4)),
{
    let s = Ghost(b@.subrange(at as int, at + 4));
    proof {
        assert(s@.drop_first().drop_first().drop_first().drop_first() =~= Seq::<u8>::empty());
        reveal_with_fuel(le_value, 5);
    }
    let v = b[at] as u32 + (b[at + 1] as u32) * 0x100 + (b[at + 2] as u32) * 0x1_0000 + (b[at + 3] as u32) * 0x100_0000;
    v
}

/// Appends the big-endian bytes of `v`.
pub fn put_be32(buf: &mut Vec<u8>, v: u32)
    ensures
        final(buf)@ == old(buf)@ + be_bytes4(v),
{
    buf.push((v / 0x100_0000) as u8);
    buf.push(((v / 0x1_0000) % 256) as u8);
    buf.push(((v / 0x100) % 256) as u8);
    buf.push((v % 256) as u8);
    assert(buf@ =~= old(buf)@ + be_bytes4(v));
}

/// `p` occurs in `d` at index `i`.
pub open spec fn bytes_occur_at(d: Seq<u8>, p: Seq<u8>, i: int) -> bool {
    0 <= i && i + p.len() <= d.len() && d.subrange(i, i + p.len()) == p
}

/// Index of the first occurrence of `p` in `d`.
pub closed spec fn find_bytes_spec(d: Seq<u8>, p: Seq<u8>) -> Option<nat> {
    if exists|i: int| bytes_occur_at(d, p, i) {
        Some((choose|i: int| bytes_occur_at(d, p, i) && forall|j: int| 0 <= j < i ==> !bytes_occur_at(d, p, j)) as nat)
    } else {
        None
    }
}

fn bytes_here(d: &[u8], p: &[u8], i: usize) -> (r: bool)
    requires
        i + p@.len() <= d@.len(),
    ensures
        r == bytes_occur_at(d@, p@, i as int),
{
    let mut k: usize = 0;
    while k < p.len()
        invariant
            k <= p@.len(),
            i + p.len() <= d.len(),
            forall|m: int| 0 <= m < k ==> d@[i + m] == p@[m],
        decreases p@.len() - k,
    {
        if d[i + k] != p[k] {
            assert(d@.subrange(i as int, i + p@.len())[k as int] != p@[k as int]);
            return false;
        }
        k = k + 1;
    }
    assert(d@.subrange(i as int, i + p@.len()) =~= p@);
    true
}

/// The first index where `p` occurs in `d[from..]`, counted from `from`
/// (`windows(n).position(..)`).
pub fn find_bytes(d: &[u8], from: usize, p: &[u8]) -> (r: Option<usize>)
    requires
        from <= d@.len(),
    ensures
        r matches Some(i) ==> find_bytes_spec(d@.skip(from as int), p@) == Some(i as nat)
            && bytes_occur_at(d@, p@, from + i),
        r is None ==> find_bytes_spec(d@.skip(from as int), p@) is None,
{
    let ghost s = d@.skip(from as int);
    if p.len() > d.len() - from {
        assert forall|i: int| !bytes_occur_at(s, p@, i) by {}
        return None;
    }
    let last: usize = d.len() - from - p.len();
    let mut i: usize = 0;
    while i <= last
        invariant
            last + p.len() + from == d.len(),
            s == d@.skip(from as int),
            i <= last + 1,
            forall|j: int| 0 <= j < i ==> !bytes_occur_at(s, p@, j),
        decreases last + 1 - i,
    {
        let here = bytes_here(d, p, from + i);
        assert(bytes_occur_at(d@, p@, from + i) == bytes_occur_at(s, p@, i as int)) by {
            assert(d@.subrange(from + i, from + i + p@.len()) =~= s.subrange(i as int, i + p@.len()));
        }
        if here {
            proof {
                let w = choose|x: int| bytes_occur_at(s, p@, x) && forall|j: int| 0 <= j < x ==> !bytes_occur_at(s, p@, j);
                assert(bytes_occur_at(s, p@, w));
                if w < i { assert(!bytes_occur_at(s, p@, w)); }
                if w > i { assert(!bytes_occur_at(s, p@, i as int)); }
            }
            return Some(i);
        }
        if i == last {
            assert forall|j: int| !bytes_occur_at(s, p@, j) by {
                if j > last as int { assert(j + p@.len() > s.len()); }
            }
            return None;
        }
        i = i + 1;
    }
    None
}

} // verus!
