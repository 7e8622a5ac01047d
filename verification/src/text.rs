//! Character-level text handling shared by the parsers: conversions
//! between `str`/`String` and character vectors, UTF-8 decoding, lines,
//! whitespace and decimal/hex numerals.
use vstd::prelude::*;
use vstd::utf8::{valid_utf8, decode_utf8, encode_utf8, encode_scalar};

verus! {

/// The characters of `s`, in order.
pub fn chars_of(s: &str) -> (out: Vec<char>)
    ensures
        out@ == s@,
{
    let mut out: Vec<char> = Vec::new();
    for c in it: s.chars()
        invariant
            out@ == it.seq().take(it.index() as int),
            it.seq() == s@,
    {
        out.push(c);
    }
    out
}

/// Collects characters into a `String` (`FromIterator<&char> for String`).
#[verifier::external_body]
pub(crate) fn string_of(cs: &[char]) -> (s: String)
    ensures
        s@ == cs@,
{
    cs.iter().collect()
}

/// What `String::from_utf8_lossy` makes of a byte string: its decoding,
/// with each maximal invalid subsequence replaced by U+FFFD.
pub uninterp spec fn utf8_lossy(b: Seq<u8>) -> Seq<char>;

/// Text of a byte string decoded as `String::from_utf8_lossy` does: the
/// plain decoding of valid UTF-8, the replacement decoding otherwise.
pub open spec fn lossy_decode(b: Seq<u8>) -> Seq<char> {
    if valid_utf8(b) { decode_utf8(b) } else { utf8_lossy(b) }
}

/// `String::from_utf8_lossy`, owned. The documentation promises the plain
/// decoding for valid UTF-8; what replacements it makes otherwise is left
/// to the name.
#[verifier::external_body]
pub(crate) fn lossy_string(b: &[u8]) -> (s: String)
    ensures
        !valid_utf8(b@) ==> s@ == utf8_lossy(b@),
        valid_utf8(b@) ==> s@ == decode_utf8(b@),
{
    String::from_utf8_lossy(b).into_owned()
}

/// `core::str::from_utf8`: the text of valid UTF-8, `None` otherwise.
#[verifier::external_body]
pub(crate) fn utf8_text(b: &[u8]) -> (r: Option<String>)
    ensures
        r is Some <==> valid_utf8(b@),
        r matches Some(s) ==> s@ == decode_utf8(b@),
{
    match core::str::from_utf8(b) {
        Ok(s) => Some(s.to_owned()),
        Err(_) => None,
    }
}

pub proof fn lemma_encode_concat(a: Seq<char>, b: Seq<char>)
    ensures
        encode_utf8(a + b) == encode_utf8(a) + encode_utf8(b),
    decreases a.len(),
{
    if a.len() == 0 {
        assert(a + b =~= b);
    } else {
        lemma_encode_concat(a.drop_first(), b);
        assert((a + b).drop_first() =~= a.drop_first() + b);
        assert((a + b)[0] == a[0]);
    }
}

pub proof fn lemma_encode_nul()
    ensures
        encode_utf8(seq!['\0']) == seq![0u8],
{
    let s = seq!['\0'];
    assert(s.drop_first() =~= Seq::<char>::empty());
    assert((0u32 & 0x7Fu32) == 0u32) by (bit_vector);
    assert(encode_scalar(0u32) =~= seq![0u8]);
    assert(('\0' as u32) == 0u32);
    assert(encode_utf8(s) =~= encode_scalar(0u32) + encode_utf8(s.drop_first()));
}


/// Whether `cs` spells exactly `w`.
pub fn same_text(cs: &[char], w: &str) -> (r: bool)
    ensures
        r == (cs@ == w@),
{
    let wc = chars_of(w);
    if cs.len() != wc.len() {
        return false;
    }
    let mut i: usize = 0;
    while i < cs.len()
        invariant
            i <= cs@.len(),
            cs@.len() == wc@.len(),
            wc@ == w@,
            forall|k: int| 0 <= k < i ==> cs@[k] == wc@[k],
        decreases cs@.len() - i,
    {
        if cs[i] != wc[i] {
            return false;
        }
        i = i + 1;
    }
    assert(cs@ =~= wc@);
    true
}

// ---- ordering ----

/// `str` ordering: lexicographic by code point, a proper prefix first.
pub open spec fn text_lt(a: Seq<char>, b: Seq<char>) -> bool
    decreases a.len(),
{
    if a.len() == 0 {
        b.len() > 0
    } else if b.len() == 0 {
        false
    } else if a[0] != b[0] {
        a[0] < b[0]
    } else {
        text_lt(a.drop_first(), b.drop_first())
    }
}

pub proof fn lemma_text_lt_irreflexive(a: Seq<char>)
    ensures
        !text_lt(a, a),
    decreases a.len(),
{
    if a.len() > 0 {
        lemma_text_lt_irreflexive(a.drop_first());
    }
}

pub proof fn lemma_text_lt_transitive(a: Seq<char>, b: Seq<char>, c: Seq<char>)
    requires
        text_lt(a, b),
        text_lt(b, c),
    ensures
        text_lt(a, c),
    decreases a.len(),
{
    if a.len() > 0 && b.len() > 0 && c.len() > 0 && a[0] == b[0] && b[0] == c[0] {
        lemma_text_lt_transitive(a.drop_first(), b.drop_first(), c.drop_first());
    }
}

pub proof fn lemma_text_lt_total(a: Seq<char>, b: Seq<char>)
    ensures
        text_lt(a, b) || text_lt(b, a) || a == b,
    decreases a.len(),
{
    if a.len() > 0 && b.len() > 0 {
        if a[0] == b[0] {
            lemma_text_lt_total(a.drop_first(), b.drop_first());
            if a.drop_first() == b.drop_first() {
                assert(a =~= seq![a[0]] + a.drop_first());
                assert(b =~= seq![b[0]] + b.drop_first());
            }
        }
    } else if a.len() == 0 && b.len() == 0 {
        assert(a =~= b);
    }
}

/// Whether `a` orders before `b`.
pub fn text_less(a: &[char], b: &[char]) -> (r: bool)
    ensures
        r == text_lt(a@, b@),
{
    let mut i: usize = 0;
    assert(a@.skip(0) =~= a@);
    assert(b@.skip(0) =~= b@);
    while i < a.len() && i < b.len() && a[i] == b[i]
        invariant
            i <= a@.len(),
            i <= b@.len(),
            text_lt(a@, b@) == text_lt(a@.skip(i as int), b@.skip(i as int)),
        decreases a@.len() - i,
    {
        assert(a@.skip(i as int).drop_first() =~= a@.skip(i + 1));
        assert(b@.skip(i as int).drop_first() =~= b@.skip(i + 1));
        i = i + 1;
    }
    if i >= a.len() {
        i < b.len()
    } else if i >= b.len() {
        false
    } else {
        assert(a@.skip(i as int)[0] == a@[i as int]);
        assert(b@.skip(i as int)[0] == b@[i as int]);
        a[i] < b[i]
    }
}

// ---- whitespace ----

/// `char::is_whitespace`: the Unicode White_Space property.
pub open spec fn is_ws(c: char) -> bool {
    let u = c as u32;
    ||| 9 <= u <= 13
    ||| u == 32
    ||| u == 0x85
    ||| u == 0xA0
    ||| u == 0x1680
    ||| 0x2000 <= u <= 0x200A
    ||| u == 0x2028
    ||| u == 0x2029
    ||| u == 0x202F
    ||| u == 0x205F
    ||| u == 0x3000
}

pub fn is_ws_char(c: char) -> (r: bool)
    ensures
        r == is_ws(c),
{
    let u = c as u32;
    (9 <= u && u <= 13) || u == 32 || u == 0x85 || u == 0xA0 || u == 0x1680
        || (0x2000 <= u && u <= 0x200A) || u == 0x2028 || u == 0x2029 || u == 0x202F
        || u == 0x205F || u == 0x3000
}

pub open spec fn trim_start(s: Seq<char>) -> Seq<char>
    decreases s.len(),
{
    if s.len() > 0 && is_ws(s[0]) { trim_start(s.drop_first()) } else { s }
}

pub open spec fn trim_end(s: Seq<char>) -> Seq<char>
    decreases s.len(),
{
    if s.len() > 0 && is_ws(s.last()) { trim_end(s.drop_last()) } else { s }
}

/// `str::trim`.
pub open spec fn trim(s: Seq<char>) -> Seq<char> {
    trim_end(trim_start(s))
}

proof fn lemma_trim_start_skip(s: Seq<char>)
    ensures
        trim_start(s).len() <= s.len(),
        trim_start(s) == s.skip(s.len() - trim_start(s).len()),
    decreases s.len(),
{
    if s.len() > 0 && is_ws(s[0]) {
        lemma_trim_start_skip(s.drop_first());
        assert(s.drop_first().skip(s.drop_first().len() - trim_start(s).len())
            =~= s.skip(s.len() - trim_start(s).len()));
    } else {
        assert(s.skip(0) =~= s);
    }
}

proof fn lemma_trim_end_take(s: Seq<char>)
    ensures
        trim_end(s).len() <= s.len(),
        trim_end(s) == s.take(trim_end(s).len() as int),
    decreases s.len(),
{
    if s.len() > 0 && is_ws(s.last()) {
        lemma_trim_end_take(s.drop_last());
        assert(s.drop_last().take(trim_end(s).len() as int) =~= s.take(trim_end(s).len() as int));
    } else {
        assert(s.take(s.len() as int) =~= s);
    }
}

/// `trim(s)` is a piece of `s`.
pub proof fn lemma_trim_within(s: Seq<char>)
    ensures
        exists|a: int| #[trigger] occurs_at(s, trim(s), a),
{
    lemma_trim_start_skip(s);
    let u = trim_start(s);
    lemma_trim_end_take(u);
    let a = s.len() - u.len();
    let t = trim(s);
    assert(s.subrange(a, a + t.len()) =~= u.take(t.len() as int));
    assert(occurs_at(s, t, a));
}

/// The bounds of `trim(cs)` inside `cs`.
pub fn trim_bounds(cs: &[char]) -> (r: (usize, usize))
    ensures
        r.0 <= r.1 <= cs@.len(),
        cs@.subrange(r.0 as int, r.1 as int) == trim(cs@),
{
    let mut a: usize = 0;
    assert(cs@.skip(0) =~= cs@);
    while a < cs.len() && is_ws_char(cs[a])
        invariant
            a <= cs@.len(),
            trim_start(cs@) == trim_start(cs@.skip(a as int)),
        decreases cs@.len() - a,
    {
        assert(cs@.skip(a as int).drop_first() =~= cs@.skip(a + 1));
        a = a + 1;
    }
    let ghost t = cs@.skip(a as int);
    assert(trim_start(cs@) == t);
    let mut b: usize = cs.len();
    assert(t.subrange(0, (b - a) as int) =~= t);
    while b > a && is_ws_char(cs[b - 1])
        invariant
            a <= b <= cs@.len(),
            t == cs@.skip(a as int),
            trim_end(t) == trim_end(cs@.subrange(a as int, b as int)),
        decreases b,
    {
        assert(cs@.subrange(a as int, b as int).drop_last() =~= cs@.subrange(a as int, b - 1));
        b = b - 1;
    }
    assert(t =~= cs@.subrange(a as int, cs@.len() as int));
    (a, b)
}

/// `str::trim`, copied out.
pub fn trimmed(cs: &[char]) -> (r: Vec<char>)
    ensures
        r@ == trim(cs@),
{
    let (a, b) = trim_bounds(cs);
    vstd::slice::slice_to_vec(&cs[a..b])
}

// ---- lines ----

/// Length of the first line of `s`: the index of the first newline, or
/// the whole length.
pub open spec fn line_end(s: Seq<char>) -> nat
    decreases s.len(),
{
    if s.len() == 0 || s[0] == '\n' { 0 } else { 1 + line_end(s.drop_first()) }
}

pub proof fn lemma_line_end(s: Seq<char>)
    ensures
        line_end(s) <= s.len(),
        line_end(s) < s.len() ==> s[line_end(s) as int] == '\n',
        forall|k: int| 0 <= k < line_end(s) ==> s[k] != '\n',
    decreases s.len(),
{
    if s.len() > 0 && s[0] != '\n' {
        lemma_line_end(s.drop_first());
        assert forall|k: int| 0 <= k < line_end(s) implies s[k] != '\n' by {
            if k > 0 { assert(s[k] == s.drop_first()[k - 1]); }
        }
    }
}

pub proof fn lemma_line_end_unique(s: Seq<char>, n: int)
    requires
        0 <= n <= s.len(),
        n < s.len() ==> s[n] == '\n',
        forall|k: int| 0 <= k < n ==> s[k] != '\n',
    ensures
        line_end(s) == n,
    decreases s.len(),
{
    if s.len() > 0 && s[0] != '\n' {
        assert(n > 0);
        assert forall|k: int| 0 <= k < n - 1 implies s.drop_first()[k] != '\n' by {
            assert(s.drop_first()[k] == s[k + 1]);
        }
        lemma_line_end_unique(s.drop_first(), n - 1);
    }
}

/// A line without the carriage return before its newline.
pub open spec fn strip_cr(l: Seq<char>) -> Seq<char> {
    if l.len() > 0 && l.last() == '\r' { l.drop_last() } else { l }
}

/// `str::lines`: split at `\n`, a `\r` right before a `\n` dropped, no
/// empty line after a final newline.
pub open spec fn lines(s: Seq<char>) -> Seq<Seq<char>>
    decreases s.len(),
{
    if s.len() == 0 {
        seq![]
    } else {
        let k = line_end(s);
        if k >= s.len() {
            seq![s]
        } else {
            seq![strip_cr(s.take(k as int))] + lines(s.skip(k as int + 1))
        }
    }
}

pub open spec fn chars_seq(v: Seq<Vec<char>>) -> Seq<Seq<char>> {
    v.map_values(|l: Vec<char>| l@)
}

/// `str::lines`, each line copied out.
pub fn lines_of(cs: &[char]) -> (r: Vec<Vec<char>>)
    ensures
        chars_seq(r@) == lines(cs@),
{
    let mut out: Vec<Vec<char>> = Vec::new();
    let mut pos: usize = 0;
    assert(cs@.skip(0) =~= cs@);
    assert(chars_seq(out@) =~= Seq::<Seq<char>>::empty());
    while pos < cs.len()
        invariant
            pos <= cs@.len(),
            lines(cs@) == chars_seq(out@) + lines(cs@.skip(pos as int)),
        decreases cs@.len() - pos,
    {
        let ghost rest = cs@.skip(pos as int);
        let mut e = pos;
        while e < cs.len() && cs[e] != '\n'
            invariant
                pos <= e <= cs@.len(),
                rest == cs@.skip(pos as int),
                forall|k: int| pos <= k < e ==> cs@[k] != '\n',
            decreases cs@.len() - e,
        {
            e = e + 1;
        }
        proof {
            assert forall|k: int| 0 <= k < e - pos implies rest[k] != '\n' by {
                assert(rest[k] == cs@[pos + k]);
            }
            lemma_line_end_unique(rest, (e - pos) as int);
        }
        let ghost before = chars_seq(out@);
        if e == cs.len() {
            let line = vstd::slice::slice_to_vec(&cs[pos..e]);
            assert(line@ =~= rest);
            out.push(line);
            assert(chars_seq(out@) =~= before.push(rest));
            assert(cs@.skip(e as int) =~= Seq::<char>::empty());
            assert(lines(rest) == seq![rest]);
            assert(lines(cs@) =~= chars_seq(out@) + lines(cs@.skip(e as int)));
            pos = e;
        } else {
            let mut le = e;
            if le > pos && cs[le - 1] == '\r' {
                le = le - 1;
            }
            let line = vstd::slice::slice_to_vec(&cs[pos..le]);
            assert(line@ =~= strip_cr(rest.take((e - pos) as int)));
            out.push(line);
            assert(chars_seq(out@) =~= before.push(line@));
            assert(rest.skip(e - pos + 1) =~= cs@.skip(e + 1));
            assert(lines(cs@) =~= chars_seq(out@) + lines(cs@.skip(e + 1)));
            pos = e + 1;
        }
    }
    assert(cs@.skip(pos as int) =~= Seq::<char>::empty());
    assert(chars_seq(out@) + Seq::<Seq<char>>::empty() =~= chars_seq(out@));
    out
}

// ---- decimal numerals ----

pub open spec fn dec_digits_value(s: Seq<char>) -> Option<nat>
    decreases s.len(),
{
    if s.len() == 0 {
        Some(0)
    } else {
        let c = s.last() as u32;
        match dec_digits_value(s.drop_last()) {
            Some(v) => if 48 <= c <= 57 { Some(v * 10 + (c - 48) as nat) } else { None },
            None => None,
        }
    }
}

/// `FromStr` of an unsigned integer type whose largest value is `max`: an
/// optional `+`, then at least one ASCII digit, value at most `max`.
pub open spec fn parse_unsigned(s: Seq<char>, max: nat) -> Option<nat> {
    let digits = if s.len() > 0 && s[0] == '+' { s.drop_first() } else { s };
    if digits.len() == 0 {
        None
    } else {
        match dec_digits_value(digits) {
            Some(v) => if v <= max { Some(v) } else { None },
            None => None,
        }
    }
}

/// A numeral too large for a wider type is too large for a narrower one.
pub proof fn lemma_parse_unsigned_bound(s: Seq<char>, small: nat, big: nat)
    requires
        small <= big,
        parse_unsigned(s, big) is None,
    ensures
        parse_unsigned(s, small) is None,
{
}

/// `str::parse::<u64>`.
pub fn parse_u64(s: &[char]) -> (r: Option<u64>)
    ensures
        r matches Some(v) ==> parse_unsigned(s@, u64::MAX as nat) == Some(v as nat),
        r is None ==> parse_unsigned(s@, u64::MAX as nat) is None,
{
    let start: usize = if s.len() > 0 && s[0] == '+' { 1 } else { 0 };
    let ghost digits = if s@.len() > 0 && s@[0] == '+' { s@.drop_first() } else { s@ };
    assert(digits =~= s@.subrange(start as int, s@.len() as int));
    if start >= s.len() {
        return None;
    }
    let mut v: u64 = 0;
    let mut i: usize = start;
    while i < s.len()
        invariant
            start <= i <= s@.len(),
            start < s@.len(),
            digits == s@.subrange(start as int, s@.len() as int),
            digits == (if s@.len() > 0 && s@[0] == '+' { s@.drop_first() } else { s@ }),
            dec_digits_value(s@.subrange(start as int, i as int)) == Some(v as nat),
        decreases s@.len() - i,
    {
        assert(s@.subrange(start as int, i + 1).drop_last() =~= s@.subrange(start as int, i as int));
        assert(s@.subrange(start as int, i + 1).last() == s@[i as int]);
        let c = s[i] as u32;
        if c < 48 || c > 57 {
            proof {
                assert(s@.subrange(start as int, s@.len() as int).take(i + 1 - start) =~= s@.subrange(start as int, i + 1));
                assert(dec_digits_value(s@.subrange(start as int, i + 1)) is None);
                lemma_dec_none_extends(s@.subrange(start as int, s@.len() as int), i + 1 - start);
            }
            return None;
        }
        let d = (c - 48) as u64;
        if v > (u64::MAX - d) / 10 {
            proof {
                assert(v * 10 + d > u64::MAX) by (nonlinear_arith)
                    requires v > (u64::MAX - d) / 10, d <= 9;
                assert(s@.subrange(start as int, s@.len() as int).take(i + 1 - start) =~= s@.subrange(start as int, i + 1));
                assert(dec_digits_value(s@.subrange(start as int, i + 1)) == Some((v * 10 + d) as nat));
                lemma_dec_too_big(s@.subrange(start as int, s@.len() as int), i + 1 - start, u64::MAX as nat);
            }
            return None;
        }
        proof {
            assert(v * 10 + d <= u64::MAX) by (nonlinear_arith)
                requires v <= (u64::MAX - d) / 10, d <= 9;
        }
        v = v * 10 + d;
        i = i + 1;
    }
    assert(s@.subrange(start as int, s@.len() as int) == digits);
    Some(v)
}

pub proof fn lemma_dec_none_extends(s: Seq<char>, k: int)
    requires
        0 <= k <= s.len(),
        dec_digits_value(s.take(k)) is None,
    ensures
        dec_digits_value(s) is None,
    decreases s.len() - k,
{
    if k < s.len() {
        assert(s.take(k + 1).drop_last() =~= s.take(k));
        lemma_dec_none_extends(s, k + 1);
    } else {
        assert(s.take(k) =~= s);
    }
}

/// A numeral's value is at least that of any of its prefixes.
pub proof fn lemma_dec_monotone(s: Seq<char>, k: int)
    requires
        0 <= k <= s.len(),
        dec_digits_value(s) is Some,
    ensures
        dec_digits_value(s.take(k)) matches Some(p) && p <= dec_digits_value(s)->0,
    decreases s.len() - k,
{
    if k < s.len() {
        assert(s.take(k + 1).drop_last() =~= s.take(k));
        lemma_dec_monotone(s, k + 1);
        assert(s.take(k + 1).last() == s[k]);
    } else {
        assert(s.take(k) =~= s);
    }
}

pub proof fn lemma_dec_too_big(s: Seq<char>, k: int, max: nat)
    requires
        0 <= k <= s.len(),
        dec_digits_value(s.take(k)) matches Some(v) && v > max,
    ensures
        !(dec_digits_value(s) matches Some(w) && w <= max),
{
    if dec_digits_value(s) is Some {
        lemma_dec_monotone(s, k);
    }
}

// ---- splitting ----

/// Index of the first `c` in `s`, or the length.
pub open spec fn find_char(s: Seq<char>, c: char) -> nat
    decreases s.len(),
{
    if s.len() == 0 || s[0] == c { 0 } else { 1 + find_char(s.drop_first(), c) }
}

pub proof fn lemma_find_char(s: Seq<char>, c: char)
    ensures
        find_char(s, c) <= s.len(),
        find_char(s, c) < s.len() ==> s[find_char(s, c) as int] == c,
        forall|k: int| 0 <= k < find_char(s, c) ==> s[k] != c,
    decreases s.len(),
{
    if s.len() > 0 && s[0] != c {
        lemma_find_char(s.drop_first(), c);
        assert forall|k: int| 0 <= k < find_char(s, c) implies s[k] != c by {
            if k > 0 { assert(s[k] == s.drop_first()[k - 1]); }
        }
    }
}

pub proof fn lemma_find_char_unique(s: Seq<char>, c: char, n: int)
    requires
        0 <= n <= s.len(),
        n < s.len() ==> s[n] == c,
        forall|k: int| 0 <= k < n ==> s[k] != c,
    ensures
        find_char(s, c) == n,
    decreases s.len(),
{
    if s.len() > 0 && s[0] != c {
        assert forall|k: int| 0 <= k < n - 1 implies s.drop_first()[k] != c by {
            assert(s.drop_first()[k] == s[k + 1]);
        }
        lemma_find_char_unique(s.drop_first(), c, n - 1);
    }
}

/// The first index of `c` at or after `from`, or the length.
pub fn find_from(cs: &[char], from: usize, c: char) -> (r: usize)
    requires
        from <= cs@.len(),
    ensures
        from <= r <= cs@.len(),
        r == from + find_char(cs@.skip(from as int), c),
{
    let mut e = from;
    while e < cs.len() && cs[e] != c
        invariant
            from <= e <= cs@.len(),
            forall|k: int| from <= k < e ==> cs@[k] != c,
        decreases cs@.len() - e,
    {
        e = e + 1;
    }
    proof {
        let rest = cs@.skip(from as int);
        assert forall|k: int| 0 <= k < e - from implies rest[k] != c by {
            assert(rest[k] == cs@[from + k]);
        }
        lemma_find_char_unique(rest, c, (e - from) as int);
    }
    e
}

/// `str::split(c)`: the pieces between occurrences of `c`; always at
/// least one.
pub open spec fn split_char(s: Seq<char>, c: char) -> Seq<Seq<char>>
    decreases s.len(),
{
    let k = find_char(s, c);
    if k >= s.len() {
        seq![s]
    } else {
        seq![s.take(k as int)] + split_char(s.skip(k as int + 1), c)
    }
}

/// No piece of a split holds the separator.
pub proof fn lemma_split_pieces_free(s: Seq<char>, c: char)
    ensures
        forall|i: int| 0 <= i < split_char(s, c).len() ==> !has_char(#[trigger] split_char(s, c)[i], c),
    decreases s.len(),
{
    let k = find_char(s, c);
    lemma_find_char(s, c);
    if k < s.len() {
        lemma_split_pieces_free(s.skip(k as int + 1), c);
        let rest = split_char(s.skip(k as int + 1), c);
        assert forall|i: int| 0 <= i < split_char(s, c).len() implies !has_char(#[trigger] split_char(s, c)[i], c) by {
            if i == 0 {
                assert(split_char(s, c)[0] == s.take(k as int));
            } else {
                assert(split_char(s, c)[i] == rest[i - 1]);
            }
        }
    }
}

/// Splitting `a`, the separator and `b` splits `a` and `b` apart.
pub proof fn lemma_split_char_concat(a: Seq<char>, b: Seq<char>, c: char)
    ensures
        split_char(a + seq![c] + b, c) == split_char(a, c) + split_char(b, c),
    decreases a.len(),
{
    let t = a + seq![c] + b;
    let k = find_char(a, c);
    lemma_find_char(a, c);
    if k >= a.len() {
        assert forall|j: int| 0 <= j < a.len() implies t[j] != c by {
            assert(t[j] == a[j]);
        }
        lemma_find_char_unique(t, c, a.len() as int);
        assert(t.take(a.len() as int) =~= a);
        assert(t.skip(a.len() as int + 1) =~= b);
        assert(split_char(a, c) == seq![a]);
    } else {
        assert forall|j: int| 0 <= j < k implies t[j] != c by {
            assert(t[j] == a[j]);
        }
        lemma_find_char_unique(t, c, k as int);
        assert(t.take(k as int) =~= a.take(k as int));
        assert(t.skip(k as int + 1) =~= a.skip(k as int + 1) + seq![c] + b);
        lemma_split_char_concat(a.skip(k as int + 1), b, c);
        assert(split_char(a, c) == seq![a.take(k as int)] + split_char(a.skip(k as int + 1), c));
        assert(seq![a.take(k as int)] + (split_char(a.skip(k as int + 1), c) + split_char(b, c))
            =~= (seq![a.take(k as int)] + split_char(a.skip(k as int + 1), c)) + split_char(b, c));
    }
}

/// A text without the separator is one piece.
pub proof fn lemma_split_whole(s: Seq<char>, c: char)
    requires
        !has_char(s, c),
    ensures
        split_char(s, c) == seq![s],
{
    lemma_find_char(s, c);
    if find_char(s, c) < s.len() {
        assert(s[find_char(s, c) as int] == c);
    }
}

/// `str::split(c)`, each piece copied out.
pub fn split_on(cs: &[char], c: char) -> (r: Vec<Vec<char>>)
    ensures
        chars_seq(r@) == split_char(cs@, c),
{
    let mut out: Vec<Vec<char>> = Vec::new();
    let mut pos: usize = 0;
    assert(cs@.skip(0) =~= cs@);
    assert(chars_seq(out@) =~= Seq::<Seq<char>>::empty());
    loop
        invariant
            pos <= cs@.len(),
            split_char(cs@, c) == chars_seq(out@) + split_char(cs@.skip(pos as int), c),
        decreases cs@.len() - pos,
    {
        let e = find_from(cs, pos, c);
        let ghost rest = cs@.skip(pos as int);
        let piece = vstd::slice::slice_to_vec(&cs[pos..e]);
        let ghost before = chars_seq(out@);
        proof { lemma_find_char(rest, c); }
        assert(piece@ =~= rest.take((e - pos) as int));
        out.push(piece);
        assert(chars_seq(out@) =~= before.push(piece@));
        if e == cs.len() {
            assert(piece@ =~= rest);
            assert(split_char(cs@, c) =~= chars_seq(out@));
            return out;
        }
        assert(rest.skip(e - pos + 1) =~= cs@.skip(e + 1));
        assert(split_char(cs@, c) =~= chars_seq(out@) + split_char(cs@.skip(e + 1), c));
        pos = e + 1;
    }
}

// ---- hexadecimal numerals ----

pub open spec fn hex_char_value(c: char) -> Option<nat> {
    if '0' <= c && c <= '9' {
        Some((c as u32 - 48) as nat)
    } else if 'a' <= c && c <= 'f' {
        Some((c as u32 - 87) as nat)
    } else if 'A' <= c && c <= 'F' {
        Some((c as u32 - 55) as nat)
    } else {
        None
    }
}

pub open spec fn hex_chars_value(s: Seq<char>) -> Option<nat>
    decreases s.len(),
{
    if s.len() == 0 {
        Some(0)
    } else {
        match hex_chars_value(s.drop_last()) {
            Some(v) => match hex_char_value(s.last()) {
                Some(d) => Some(v * 16 + d),
                None => None,
            },
            None => None,
        }
    }
}

/// `from_str_radix(s, 16)` of an unsigned type whose largest value is
/// `max`: an optional `+`, then at least one hex digit, value at most `max`.
pub open spec fn parse_radix16(s: Seq<char>, max: nat) -> Option<nat> {
    let digits = if s.len() > 0 && s[0] == '+' { s.drop_first() } else { s };
    if digits.len() == 0 {
        None
    } else {
        match hex_chars_value(digits) {
            Some(v) => if v <= max { Some(v) } else { None },
            None => None,
        }
    }
}

fn hex_char(c: char) -> (r: Option<u64>)
    ensures
        r matches Some(d) ==> hex_char_value(c) == Some(d as nat) && d < 16,
        r is None ==> hex_char_value(c) is None,
{
    if '0' <= c && c <= '9' {
        Some((c as u32 - 48) as u64)
    } else if 'a' <= c && c <= 'f' {
        Some((c as u32 - 87) as u64)
    } else if 'A' <= c && c <= 'F' {
        Some((c as u32 - 55) as u64)
    } else {
        None
    }
}

proof fn lemma_hex_none_extends(s: Seq<char>, k: int)
    requires
        0 <= k <= s.len(),
        hex_chars_value(s.take(k)) is None,
    ensures
        hex_chars_value(s) is None,
    decreases s.len() - k,
{
    if k < s.len() {
        assert(s.take(k + 1).drop_last() =~= s.take(k));
        lemma_hex_none_extends(s, k + 1);
    } else {
        assert(s.take(k) =~= s);
    }
}

proof fn lemma_hex_monotone(s: Seq<char>, k: int)
    requires
        0 <= k <= s.len(),
        hex_chars_value(s) is Some,
    ensures
        hex_chars_value(s.take(k)) matches Some(p) && p <= hex_chars_value(s)->0,
    decreases s.len() - k,
{
    if k < s.len() {
        assert(s.take(k + 1).drop_last() =~= s.take(k));
        lemma_hex_monotone(s, k + 1);
        assert(s.take(k + 1).last() == s[k]);
    } else {
        assert(s.take(k) =~= s);
    }
}

/// `u64::from_str_radix(s, 16)`.
pub fn parse_hex_u64(s: &[char]) -> (r: Option<u64>)
    ensures
        r matches Some(v) ==> parse_radix16(s@, u64::MAX as nat) == Some(v as nat),
        r is None ==> parse_radix16(s@, u64::MAX as nat) is None,
{
    let start: usize = if s.len() > 0 && s[0] == '+' { 1 } else { 0 };
    let ghost digits = if s@.len() > 0 && s@[0] == '+' { s@.drop_first() } else { s@ };
    assert(digits =~= s@.subrange(start as int, s@.len() as int));
    if start >= s.len() {
        return None;
    }
    let mut v: u64 = 0;
    let mut i: usize = start;
    while i < s.len()
        invariant
            start <= i <= s@.len(),
            start < s@.len(),
            digits == s@.subrange(start as int, s@.len() as int),
            digits == (if s@.len() > 0 && s@[0] == '+' { s@.drop_first() } else { s@ }),
            hex_chars_value(s@.subrange(start as int, i as int)) == Some(v as nat),
        decreases s@.len() - i,
    {
        assert(s@.subrange(start as int, i + 1).drop_last() =~= s@.subrange(start as int, i as int));
        assert(s@.subrange(start as int, i + 1).last() == s@[i as int]);
        assert(digits.take(i + 1 - start) =~= s@.subrange(start as int, i + 1));
        let d = match hex_char(s[i]) {
            Some(d) => d,
            None => {
                proof { lemma_hex_none_extends(digits, i + 1 - start); }
                return None;
            },
        };
        if v > (u64::MAX - d) / 16 {
            proof {
                assert(v * 16 + d > u64::MAX) by (nonlinear_arith)
                    requires v > (u64::MAX - d) / 16, d < 16;
                if hex_chars_value(digits) is Some {
                    lemma_hex_monotone(digits, i + 1 - start);
                }
            }
            return None;
        }
        proof {
            assert(v * 16 + d <= u64::MAX) by (nonlinear_arith)
                requires v <= (u64::MAX - d) / 16, d < 16;
        }
        v = v * 16 + d;
        i = i + 1;
    }
    assert(s@.subrange(start as int, s@.len() as int) == digits);
    Some(v)
}

// ---- decimal rendering ----

pub open spec fn digit_char(d: nat) -> char {
    if d == 0 { '0' } else if d == 1 { '1' } else if d == 2 { '2' } else if d == 3 { '3' }
    else if d == 4 { '4' } else if d == 5 { '5' } else if d == 6 { '6' } else if d == 7 { '7' }
    else if d == 8 { '8' } else { '9' }
}

fn digit(d: u64) -> (c: char)
    ensures
        c == digit_char(d as nat),
{
    if d == 0 { '0' } else if d == 1 { '1' } else if d == 2 { '2' } else if d == 3 { '3' }
    else if d == 4 { '4' } else if d == 5 { '5' } else if d == 6 { '6' } else if d == 7 { '7' }
    else if d == 8 { '8' } else { '9' }
}

/// The decimal digits of `n`, as `Display` writes an unsigned integer.
pub open spec fn dec_text(n: nat) -> Seq<char>
    decreases n,
{
    if n < 10 { seq![digit_char(n)] } else { dec_text(n / 10).push(digit_char(n % 10)) }
}

/// The decimal digits of `n`.
pub fn dec_chars(n: u64) -> (r: Vec<char>)
    ensures
        r@ == dec_text(n as nat),
    decreases n,
{
    let c = digit(n % 10);
    if n < 10 {
        let mut v: Vec<char> = Vec::new();
        v.push(c);
        v
    } else {
        let mut v = dec_chars(n / 10);
        v.push(c);
        v
    }
}

pub open spec fn hex_digit_char(d: nat) -> char {
    if d < 10 { digit_char(d) } else if d == 10 { 'a' } else if d == 11 { 'b' } else if d == 12 { 'c' }
    else if d == 13 { 'd' } else if d == 14 { 'e' } else { 'f' }
}

fn hex_digit(d: u32) -> (c: char)
    requires
        d < 16,
    ensures
        c == hex_digit_char(d as nat),
{
    if d < 10 { digit(d as u64) } else if d == 10 { 'a' } else if d == 11 { 'b' } else if d == 12 { 'c' }
    else if d == 13 { 'd' } else if d == 14 { 'e' } else { 'f' }
}

/// `format!("{:08x}", v)`: eight lowercase hex digits, most significant
/// first.
pub open spec fn hex8_text(v: u32) -> Seq<char> {
    Seq::new(8, |i: int| hex_digit_char(((v as nat) / pow16((7 - i) as nat)) % 16))
}

pub open spec fn pow16(n: nat) -> nat
    decreases n,
{
    if n == 0 { 1 } else { 16 * pow16((n - 1) as nat) }
}

/// Eight lowercase hex digits of `v`.
pub fn hex8_chars(v: u32) -> (r: Vec<char>)
    ensures
        r@ == hex8_text(v),
{
    let mut out: Vec<char> = Vec::new();
    let mut i: u32 = 0;
    let mut p: u32 = 0x1000_0000;
    proof { reveal_with_fuel(pow16, 8); }
    while i < 8
        invariant
            i <= 8,
            p as nat == pow16((7 - i) as nat) || (i == 8 && p == 0),
            out@.len() == i,
            forall|k: int| 0 <= k < i ==> out@[k] == hex8_text(v)[k],
        decreases 8 - i,
    {
        proof { reveal_with_fuel(pow16, 8); }
        let d = (v / p) % 16;
        out.push(hex_digit(d));
        p = p / 16;
        i = i + 1;
    }
    assert(out@ =~= hex8_text(v));
    out
}

/// `format!("{:02}", n)`: the decimal digits of `n`, a leading zero added
/// when there is only one.
pub open spec fn dec2_text(n: nat) -> Seq<char> {
    if n < 10 { seq!['0'] + dec_text(n) } else { dec_text(n) }
}

/// Appends the characters of `s`.
pub fn push_text(buf: &mut Vec<char>, s: &str)
    ensures
        final(buf)@ == old(buf)@ + s@,
{
    let cs = chars_of(s);
    push_chars(buf, cs.as_slice());
}

/// Appends `cs`.
pub fn push_chars(buf: &mut Vec<char>, cs: &[char])
    ensures
        final(buf)@ == old(buf)@ + cs@,
{
    let ghost start = buf@;
    let mut i: usize = 0;
    while i < cs.len()
        invariant
            i <= cs@.len(),
            buf@ == start + cs@.take(i as int),
        decreases cs@.len() - i,
    {
        buf.push(cs[i]);
        assert(cs@.take(i + 1) =~= cs@.take(i as int).push(cs@[i as int]));
        i = i + 1;
    }
    assert(cs@.take(cs@.len() as int) =~= cs@);
}

// ---- prefixes and suffixes ----

/// `s` begins with `p`.
pub open spec fn starts_with(s: Seq<char>, p: Seq<char>) -> bool {
    p.len() <= s.len() && s.take(p.len() as int) == p
}

/// `s` ends with `p`.
pub open spec fn ends_with(s: Seq<char>, p: Seq<char>) -> bool {
    p.len() <= s.len() && s.skip(s.len() - p.len()) == p
}

/// Whether `cs` begins with `p`.
pub fn has_prefix(cs: &[char], p: &[char]) -> (r: bool)
    ensures
        r == starts_with(cs@, p@),
{
    if p.len() > cs.len() {
        return false;
    }
    let mut i: usize = 0;
    while i < p.len()
        invariant
            i <= p@.len() <= cs@.len(),
            forall|k: int| 0 <= k < i ==> cs@[k] == p@[k],
        decreases p@.len() - i,
    {
        if cs[i] != p[i] {
            assert(cs@.take(p@.len() as int)[i as int] != p@[i as int]);
            return false;
        }
        i = i + 1;
    }
    assert(cs@.take(p@.len() as int) =~= p@);
    true
}

/// Whether `cs` ends with `p`.
pub fn has_suffix(cs: &[char], p: &[char]) -> (r: bool)
    ensures
        r == ends_with(cs@, p@),
{
    if p.len() > cs.len() {
        return false;
    }
    let off: usize = cs.len() - p.len();
    let mut i: usize = 0;
    while i < p.len()
        invariant
            i <= p@.len() <= cs@.len(),
            off + p.len() == cs.len(),
            forall|k: int| 0 <= k < i ==> cs@[off + k] == p@[k],
        decreases p@.len() - i,
    {
        if cs[off + i] != p[i] {
            assert(cs@.skip(off as int)[i as int] != p@[i as int]);
            return false;
        }
        i = i + 1;
    }
    assert(cs@.skip(off as int) =~= p@);
    true
}

/// `str::trim_start_matches(p)` for a nonempty `p`: every leading copy
/// of `p` removed.
pub open spec fn strip_all_prefix(s: Seq<char>, p: Seq<char>) -> Seq<char>
    decreases s.len(),
{
    if p.len() > 0 && starts_with(s, p) { strip_all_prefix(s.skip(p.len() as int), p) } else { s }
}

/// `str::trim_end_matches(p)` for a nonempty `p`: every trailing copy of
/// `p` removed.
pub open spec fn strip_all_suffix(s: Seq<char>, p: Seq<char>) -> Seq<char>
    decreases s.len(),
{
    if p.len() > 0 && ends_with(s, p) { strip_all_suffix(s.take(s.len() - p.len()), p) } else { s }
}

/// `cs` with every leading copy of `p` removed.
pub fn without_prefixes(cs: &[char], p: &[char]) -> (r: Vec<char>)
    ensures
        r@ == strip_all_prefix(cs@, p@),
{
    let mut a: usize = 0;
    assert(cs@.skip(0) =~= cs@);
    if p.len() == 0 {
        return vstd::slice::slice_to_vec(cs);
    }
    while has_prefix(&cs[a..cs.len()], p)
        invariant
            a <= cs@.len(),
            p@.len() > 0,
            strip_all_prefix(cs@, p@) == strip_all_prefix(cs@.skip(a as int), p@),
        decreases cs@.len() - a,
    {
        assert(cs@.subrange(a as int, cs@.len() as int) =~= cs@.skip(a as int));
        assert(cs@.skip(a as int).skip(p@.len() as int) =~= cs@.skip(a + p@.len()));
        a = a + p.len();
    }
    assert(cs@.subrange(a as int, cs@.len() as int) =~= cs@.skip(a as int));
    vstd::slice::slice_to_vec(&cs[a..cs.len()])
}

/// `cs` with every trailing copy of `p` removed.
pub fn without_suffixes(cs: &[char], p: &[char]) -> (r: Vec<char>)
    ensures
        r@ == strip_all_suffix(cs@, p@),
{
    let mut b: usize = cs.len();
    assert(cs@.take(cs@.len() as int) =~= cs@);
    if p.len() == 0 {
        return vstd::slice::slice_to_vec(cs);
    }
    while has_suffix(&cs[0..b], p)
        invariant
            b <= cs@.len(),
            p@.len() > 0,
            strip_all_suffix(cs@, p@) == strip_all_suffix(cs@.take(b as int), p@),
        decreases b,
    {
        assert(cs@.subrange(0, b as int) =~= cs@.take(b as int));
        assert(cs@.take(b as int).take(b - p@.len()) =~= cs@.take(b - p@.len()));
        b = b - p.len();
    }
    assert(cs@.subrange(0, b as int) =~= cs@.take(b as int));
    vstd::slice::slice_to_vec(&cs[0..b])
}

/// Index of the last `c` in `s`.
pub open spec fn last_index_of(s: Seq<char>, c: char) -> Option<nat>
    decreases s.len(),
{
    if s.len() == 0 {
        None
    } else if s.last() == c {
        Some((s.len() - 1) as nat)
    } else {
        last_index_of(s.drop_last(), c)
    }
}

/// Where `last_index_of` finds `c`, it lies in `s` and holds `c`, and no
/// later place does.
pub proof fn lemma_last_index_bound(s: Seq<char>, c: char)
    ensures
        last_index_of(s, c) matches Some(i) ==> i < s.len() && s[i as int] == c
            && forall|k: int| i < k < s.len() ==> s[k] != c,
        last_index_of(s, c) is None ==> forall|k: int| 0 <= k < s.len() ==> s[k] != c,
    decreases s.len(),
{
    if s.len() > 0 && s.last() != c {
        lemma_last_index_bound(s.drop_last(), c);
        assert forall|k: int| 0 <= k < s.len() - 1 implies s[k] == s.drop_last()[k] by {}
    }
}

/// The last index of `c` in `cs`.
pub fn rfind_char(cs: &[char], c: char) -> (r: Option<usize>)
    ensures
        r matches Some(i) ==> last_index_of(cs@, c) == Some(i as nat) && i < cs@.len(),
        r is None ==> last_index_of(cs@, c) is None,
{
    let mut b: usize = cs.len();
    assert(cs@.take(b as int) =~= cs@);
    while b > 0
        invariant
            b <= cs@.len(),
            last_index_of(cs@, c) == last_index_of(cs@.take(b as int), c),
        decreases b,
    {
        assert(cs@.take(b as int).drop_last() =~= cs@.take(b - 1));
        if cs[b - 1] == c {
            return Some(b - 1);
        }
        b = b - 1;
    }
    None
}

/// `c` occurs in `s`.
pub open spec fn has_char(s: Seq<char>, c: char) -> bool {
    exists|k: int| 0 <= k < s.len() && s[k] == c
}

pub fn contains_char(cs: &[char], c: char) -> (r: bool)
    ensures
        r == has_char(cs@, c),
{
    let mut i: usize = 0;
    while i < cs.len()
        invariant
            i <= cs@.len(),
            forall|k: int| 0 <= k < i ==> cs@[k] != c,
        decreases cs@.len() - i,
    {
        if cs[i] == c {
            return true;
        }
        i = i + 1;
    }
    false
}

/// `p` occurs in `s` at index `i`.
pub open spec fn occurs_at(s: Seq<char>, p: Seq<char>, i: int) -> bool {
    0 <= i && i + p.len() <= s.len() && s.subrange(i, i + p.len()) == p
}

/// Index of the first occurrence of `p` in `s` (`str::find`).
pub closed spec fn find_text_spec(s: Seq<char>, p: Seq<char>) -> Option<nat> {
    if exists|i: int| occurs_at(s, p, i) {
        Some((choose|i: int| occurs_at(s, p, i) && forall|j: int| 0 <= j < i ==> !occurs_at(s, p, j)) as nat)
    } else {
        None
    }
}

fn occurs_here(cs: &[char], p: &[char], i: usize) -> (r: bool)
    requires
        i + p@.len() <= cs@.len(),
    ensures
        r == occurs_at(cs@, p@, i as int),
{
    let mut k: usize = 0;
    while k < p.len()
        invariant
            k <= p@.len(),
            i + p.len() <= cs.len(),
            forall|m: int| 0 <= m < k ==> cs@[i + m] == p@[m],
        decreases p@.len() - k,
    {
        if cs[i + k] != p[k] {
            assert(cs@.subrange(i as int, i + p@.len())[k as int] != p@[k as int]);
            return false;
        }
        k = k + 1;
    }
    assert(cs@.subrange(i as int, i + p@.len()) =~= p@);
    true
}

/// The first index where `p` occurs in `cs`.
pub fn find_text(cs: &[char], p: &[char]) -> (r: Option<usize>)
    ensures
        r matches Some(i) ==> find_text_spec(cs@, p@) == Some(i as nat) && occurs_at(cs@, p@, i as int),
        r is None ==> find_text_spec(cs@, p@) is None,
{
    if p.len() > cs.len() {
        assert forall|i: int| !occurs_at(cs@, p@, i) by {}
        return None;
    }
    let last: usize = cs.len() - p.len();
    let mut i: usize = 0;
    while i <= last
        invariant
            last + p.len() == cs.len(),
            i <= last + 1,
            forall|j: int| 0 <= j < i ==> !occurs_at(cs@, p@, j),
        decreases last + 1 - i,
    {
        if occurs_here(cs, p, i) {
            proof {
                let w = choose|x: int| occurs_at(cs@, p@, x) && forall|j: int| 0 <= j < x ==> !occurs_at(cs@, p@, j);
                assert(occurs_at(cs@, p@, w));
                if w < i { assert(!occurs_at(cs@, p@, w)); }
                if w > i { assert(!occurs_at(cs@, p@, i as int)); }
            }
            return Some(i);
        }
        if i == last {
            assert forall|j: int| !occurs_at(cs@, p@, j) by {
                if j > last as int { assert(j + p@.len() > cs@.len()); }
            }
            return None;
        }
        i = i + 1;
    }
    None
}

// ---- words ----

/// Length of the leading run of non-whitespace.
pub open spec fn word_len(s: Seq<char>) -> nat
    decreases s.len(),
{
    if s.len() == 0 || is_ws(s[0]) { 0 } else { 1 + word_len(s.drop_first()) }
}

pub proof fn lemma_word_len(s: Seq<char>)
    ensures
        word_len(s) <= s.len(),
        s.len() > 0 && !is_ws(s[0]) ==> word_len(s) >= 1,
        forall|k: int| 0 <= k < word_len(s) ==> !is_ws(#[trigger] s[k]),
        word_len(s) < s.len() ==> is_ws(s[word_len(s) as int]),
    decreases s.len(),
{
    if s.len() > 0 && !is_ws(s[0]) {
        lemma_word_len(s.drop_first());
        assert forall|k: int| 0 <= k < word_len(s) implies !is_ws(#[trigger] s[k]) by {
            if k > 0 { assert(s[k] == s.drop_first()[k - 1]); }
        }
    }
}

/// `str::split_whitespace`: the maximal runs of non-whitespace.
pub open spec fn words(s: Seq<char>) -> Seq<Seq<char>>
    decreases s.len(),
{
    if s.len() == 0 {
        seq![]
    } else if is_ws(s[0]) {
        words(s.drop_first())
    } else {
        let k = word_len(s);
        proof { lemma_word_len(s); }
        seq![s.take(k as int)] + words(s.skip(k as int))
    }
}

/// `str::split_whitespace`, each word copied out.
pub fn split_words(cs: &[char]) -> (r: Vec<Vec<char>>)
    ensures
        chars_seq(r@) == words(cs@),
{
    let mut out: Vec<Vec<char>> = Vec::new();
    let mut pos: usize = 0;
    assert(cs@.skip(0) =~= cs@);
    assert(chars_seq(out@) =~= Seq::<Seq<char>>::empty());
    while pos < cs.len()
        invariant
            pos <= cs@.len(),
            words(cs@) == chars_seq(out@) + words(cs@.skip(pos as int)),
        decreases cs@.len() - pos,
    {
        let ghost rest = cs@.skip(pos as int);
        if is_ws_char(cs[pos]) {
            assert(rest.drop_first() =~= cs@.skip(pos + 1));
            pos = pos + 1;
        } else {
            let mut e = pos;
            while e < cs.len() && !is_ws_char(cs[e])
                invariant
                    pos <= e <= cs@.len(),
                    forall|k: int| pos <= k < e ==> !is_ws(cs@[k]),
                decreases cs@.len() - e,
            {
                e = e + 1;
            }
            proof {
                lemma_word_len(rest);
                // the run found is exactly the leading word
                assert(word_len(rest) == e - pos) by {
                    lemma_word_len_exact(rest, (e - pos) as int);
                }
            }
            let w = vstd::slice::slice_to_vec(&cs[pos..e]);
            assert(w@ =~= rest.take((e - pos) as int));
            let ghost before = chars_seq(out@);
            out.push(w);
            assert(chars_seq(out@) =~= before.push(w@));
            assert(rest.skip(e - pos) =~= cs@.skip(e as int));
            pos = e;
        }
    }
    assert(cs@.skip(pos as int) =~= Seq::<char>::empty());
    assert(chars_seq(out@) + Seq::<Seq<char>>::empty() =~= chars_seq(out@));
    out
}

proof fn lemma_word_len_exact(s: Seq<char>, n: int)
    requires
        0 <= n <= s.len(),
        forall|k: int| 0 <= k < n ==> !is_ws(s[k]),
        n < s.len() ==> is_ws(s[n]),
    ensures
        word_len(s) == n,
    decreases s.len(),
{
    if s.len() > 0 && !is_ws(s[0]) {
        assert forall|k: int| 0 <= k < n - 1 implies !is_ws(s.drop_first()[k]) by {
            assert(s.drop_first()[k] == s[k + 1]);
        }
        lemma_word_len_exact(s.drop_first(), n - 1);
    }
}

// ---- filtering ----

/// The `Some` results of `f` over `s`, in order (`filter_map`).
pub open spec fn keep_some<A, B>(s: Seq<A>, f: spec_fn(A) -> Option<B>) -> Seq<B>
    decreases s.len(),
{
    if s.len() == 0 {
        seq![]
    } else {
        let init = keep_some(s.drop_last(), f);
        match f(s.last()) {
            Some(b) => init.push(b),
            None => init,
        }
    }
}

pub proof fn lemma_keep_some_step<A, B>(s: Seq<A>, f: spec_fn(A) -> Option<B>, i: int)
    requires
        0 <= i < s.len(),
    ensures
        keep_some(s.take(i + 1), f) == (match f(s[i]) {
            Some(b) => keep_some(s.take(i), f).push(b),
            None => keep_some(s.take(i), f),
        }),
{
    assert(s.take(i + 1).drop_last() =~= s.take(i));
    assert(s.take(i + 1).last() == s[i]);
}

/// `keep_some` of a concatenation is the concatenation of the results.
pub proof fn lemma_keep_some_concat<A, B>(s: Seq<A>, t: Seq<A>, f: spec_fn(A) -> Option<B>)
    ensures
        keep_some(s + t, f) == keep_some(s, f) + keep_some(t, f),
    decreases t.len(),
{
    if t.len() == 0 {
        assert(s + t =~= s);
        assert(keep_some(s, f) + keep_some(t, f) =~= keep_some(s, f));
    } else {
        assert((s + t).drop_last() =~= s + t.drop_last());
        assert((s + t).last() == t.last());
        lemma_keep_some_concat(s, t.drop_last(), f);
        match f(t.last()) {
            Some(b) => {
                assert(keep_some(s, f) + keep_some(t.drop_last(), f).push(b)
                    =~= (keep_some(s, f) + keep_some(t.drop_last(), f)).push(b));
            },
            None => {},
        }
    }
}

/// What `keep_some` keeps has every property that each kept result has.
pub proof fn lemma_keep_some_all<A, B>(s: Seq<A>, f: spec_fn(A) -> Option<B>, p: spec_fn(B) -> bool)
    requires
        forall|i: int| 0 <= i < s.len() ==> (#[trigger] f(s[i]) matches Some(b) ==> p(b)),
    ensures
        forall|j: int| 0 <= j < keep_some(s, f).len() ==> p(#[trigger] keep_some(s, f)[j]),
    decreases s.len(),
{
    if s.len() > 0 {
        assert forall|i: int| 0 <= i < s.drop_last().len() implies
            (#[trigger] f(s.drop_last()[i]) matches Some(b) ==> p(b)) by {
            assert(s.drop_last()[i] == s[i]);
        }
        lemma_keep_some_all(s.drop_last(), f, p);
        let init = keep_some(s.drop_last(), f);
        assert(f(s[s.len() - 1]) matches Some(b) ==> p(b));
        assert(s.last() == s[s.len() - 1]);
        assert forall|j: int| 0 <= j < keep_some(s, f).len() implies p(#[trigger] keep_some(s, f)[j]) by {
            if j < init.len() {
                assert(keep_some(s, f)[j] == init[j]);
            }
        }
    }
}

pub open spec fn pairs_seq(v: Seq<(String, String)>) -> Seq<(Seq<char>, Seq<char>)> {
    v.map_values(|p: (String, String)| (p.0@, p.1@))
}

// ---- file names ----

/// `Path::extension` of a plain file name: the text after the last dot,
/// none when there is no dot, when the only dot leads the name, or for
/// "..".
pub open spec fn extension_of(name: Seq<char>) -> Option<Seq<char>> {
    if name == ".."@ {
        None
    } else {
        match last_index_of(name, '.') {
            None => None,
            Some(i) => if i == 0 { None } else { Some(name.skip(i as int + 1)) },
        }
    }
}

/// Whether `name` has the extension `ext`.
pub fn has_extension(name: &[char], ext: &str) -> (r: bool)
    ensures
        r == (extension_of(name@) == Some(ext@)),
{
    if same_text(name, "..") {
        return false;
    }
    match rfind_char(name, '.') {
        None => false,
        Some(i) => {
            if i == 0 {
                return false;
            }
            let n = name.len();
            assert(i < n);
            assert(name@.subrange(i + 1, name@.len() as int) =~= name@.skip(i + 1));
            let rest = &name[i + 1..n];
            same_text(rest, ext)
        },
    }
}

// ---- sorting ----

/// `x` placed before the first element that orders after it.
pub open spec fn insert_sorted(s: Seq<Seq<char>>, x: Seq<char>) -> Seq<Seq<char>>
    decreases s.len(),
{
    if s.len() == 0 {
        seq![x]
    } else if text_lt(x, s[0]) {
        seq![x] + s
    } else {
        seq![s[0]] + insert_sorted(s.drop_first(), x)
    }
}

/// Insertion sort in text order; equal texts keep their order.
pub open spec fn sort_spec(s: Seq<Seq<char>>) -> Seq<Seq<char>>
    decreases s.len(),
{
    if s.len() == 0 { s } else { insert_sorted(sort_spec(s.drop_last()), s.last()) }
}

/// In text order: no element orders after a later one.
pub open spec fn text_sorted(s: Seq<Seq<char>>) -> bool {
    forall|i: int, j: int| 0 <= i < j < s.len() ==> !text_lt(#[trigger] s[j], #[trigger] s[i])
}

proof fn lemma_insert_sorted(s: Seq<Seq<char>>, x: Seq<char>)
    requires
        text_sorted(s),
    ensures
        text_sorted(insert_sorted(s, x)),
        insert_sorted(s, x).to_multiset() == s.to_multiset().insert(x),
        insert_sorted(s, x).len() == s.len() + 1,
    decreases s.len(),
{
    broadcast use vstd::seq_lib::group_seq_properties;
    let r = insert_sorted(s, x);
    if s.len() == 0 {
        assert(r =~= seq![x]);
        assert(s =~= Seq::<Seq<char>>::empty());
    } else if text_lt(x, s[0]) {
        assert forall|i: int, j: int| 0 <= i < j < r.len() implies !text_lt(#[trigger] r[j], #[trigger] r[i]) by {
            if i == 0 {
                assert(r[j] == s[j - 1]);
                if j > 1 {
                    if text_lt(r[j], x) {
                        lemma_text_lt_transitive(s[j - 1], x, s[0]);
                        assert(!text_lt(s[j - 1], s[0]));
                    }
                } else {
                    if text_lt(s[0], x) { lemma_text_lt_transitive(s[0], x, s[0]); lemma_text_lt_irreflexive(s[0]); }
                }
            } else {
                assert(r[i] == s[i - 1] && r[j] == s[j - 1]);
            }
        }
        assert(r =~= s.insert(0, x));
    } else {
        let t = s.drop_first();
        assert(text_sorted(t)) by {
            assert forall|i: int, j: int| 0 <= i < j < t.len() implies !text_lt(#[trigger] t[j], #[trigger] t[i]) by {
                assert(t[i] == s[i + 1] && t[j] == s[j + 1]);
            }
        }
        lemma_insert_sorted(t, x);
        let rt = insert_sorted(t, x);
        lemma_text_lt_total(x, s[0]);
        assert forall|i: int, j: int| 0 <= i < j < r.len() implies !text_lt(#[trigger] r[j], #[trigger] r[i]) by {
            if i == 0 {
                assert(r[j] == rt[j - 1]);
                // every element of rt is x or an element of t, none before s[0]
                assert(rt.to_multiset().count(rt[j - 1]) > 0);
                assert(rt.to_multiset() == t.to_multiset().insert(x));
                if rt[j - 1] != x {
                    assert(t.to_multiset().count(rt[j - 1]) > 0);
                    assert(t.contains(rt[j - 1]));
                    let m = choose|m: int| 0 <= m < t.len() && t[m] == rt[j - 1];
                    assert(s[m + 1] == t[m]);
                }
            } else {
                assert(r[i] == rt[i - 1] && r[j] == rt[j - 1]);
            }
        }
        assert(s =~= seq![s[0]] + t);
        assert(r =~= seq![s[0]] + rt);
        assert(seq![s[0]].to_multiset() =~= vstd::multiset::Multiset::singleton(s[0]));
        vstd::seq_lib::lemma_multiset_commutative(seq![s[0]], t);
        vstd::seq_lib::lemma_multiset_commutative(seq![s[0]], rt);
        assert(r.to_multiset() =~= s.to_multiset().insert(x));
    }
}

/// Sorting gives the same texts, in text order.
pub proof fn lemma_sort_spec(s: Seq<Seq<char>>)
    ensures
        text_sorted(sort_spec(s)),
        sort_spec(s).to_multiset() == s.to_multiset(),
        sort_spec(s).len() == s.len(),
    decreases s.len(),
{
    broadcast use vstd::seq_lib::group_seq_properties;
    if s.len() > 0 {
        lemma_sort_spec(s.drop_last());
        lemma_insert_sorted(sort_spec(s.drop_last()), s.last());
        assert(s =~= s.drop_last().push(s.last()));
    } else {
        assert(s =~= Seq::<Seq<char>>::empty());
    }
}

fn insert_text(v: &mut Vec<String>, x: String)
    ensures
        texts(final(v)@) == insert_sorted(texts(old(v)@), x@),
{
    let ghost s0 = texts(v@);
    let xc = chars_of(x.as_str());
    let mut i: usize = 0;
    let mut stop = false;
    assert(s0.skip(0) =~= s0);
    assert(s0.take(0) + s0.skip(0) =~= s0);
    while i < v.len() && !stop
        invariant
            i <= v@.len(),
            s0 == texts(v@),
            xc@ == x@,
            insert_sorted(s0, x@) == s0.take(i as int) + insert_sorted(s0.skip(i as int), x@),
            stop ==> i < v@.len() && text_lt(x@, s0[i as int]),
        decreases v@.len() - i + (if stop { 0int } else { 1int }),
    {
        let yc = chars_of(v[i].as_str());
        assert(s0.skip(i as int)[0] == v@[i as int]@);
        if text_less(xc.as_slice(), yc.as_slice()) {
            stop = true;
            continue;
        }
        assert(s0.skip(i as int).drop_first() =~= s0.skip(i + 1));
        assert(s0.take(i + 1) =~= s0.take(i as int).push(s0[i as int]));
        assert(s0.take(i as int) + (seq![s0[i as int]] + insert_sorted(s0.skip(i + 1), x@))
            =~= s0.take(i + 1) + insert_sorted(s0.skip(i + 1), x@));
        i = i + 1;
    }
    proof {
        if !stop {
            assert(s0.skip(i as int) =~= Seq::<Seq<char>>::empty());
        } else {
            assert(s0.skip(i as int)[0] == s0[i as int]);
        }
    }
    v.insert(i, x);
    assert(texts(v@) =~= s0.take(i as int) + insert_sorted(s0.skip(i as int), x@));
}

/// Sorts texts (`[String]::sort`).
pub fn sort_texts(v: Vec<String>) -> (r: Vec<String>)
    ensures
        texts(r@) == sort_spec(texts(v@)),
{
    let ghost s = texts(v@);
    let mut out: Vec<String> = Vec::new();
    let mut i: usize = 0;
    assert(s.take(0) =~= Seq::<Seq<char>>::empty());
    assert(texts(out@) =~= Seq::<Seq<char>>::empty());
    while i < v.len()
        invariant
            i <= v@.len(),
            s == texts(v@),
            texts(out@) == sort_spec(s.take(i as int)),
        decreases v@.len() - i,
    {
        assert(s.take(i + 1).drop_last() =~= s.take(i as int));
        assert(s.take(i + 1).last() == v@[i as int]@);
        insert_text(&mut out, v[i].clone());
        i = i + 1;
    }
    assert(s.take(v@.len() as int) =~= s);
    out
}

// ---- case ----

/// What `str::to_lowercase` returns for a text: its Unicode lowercase
/// mapping (which may change the length, and maps a final sigma by its
/// context).
pub uninterp spec fn lowercase(s: Seq<char>) -> Seq<char>;

/// A character's ASCII lowercase: `A`-`Z` become `a`-`z`, all else stays.
pub open spec fn ascii_lower(c: char) -> char {
    if 'A' <= c && c <= 'Z' { ((c as u32) + 32) as char } else { c }
}

/// A text's ASCII lowercase, character by character.
pub open spec fn ascii_lowercase(s: Seq<char>) -> Seq<char> {
    s.map_values(|c: char| ascii_lower(c))
}

/// Removing trailing copies of `p` leaves a prefix of `s`.
pub proof fn lemma_strip_all_suffix_prefix(s: Seq<char>, p: Seq<char>)
    ensures
        strip_all_suffix(s, p).len() <= s.len(),
        strip_all_suffix(s, p) == s.take(strip_all_suffix(s, p).len() as int),
    decreases s.len(),
{
    if p.len() > 0 && ends_with(s, p) {
        let t = s.take(s.len() - p.len());
        lemma_strip_all_suffix_prefix(t, p);
        assert(t.take(strip_all_suffix(t, p).len() as int) =~= s.take(strip_all_suffix(t, p).len() as int));
    } else {
        assert(s.take(s.len() as int) =~= s);
    }
}

/// Every character is ASCII.
pub open spec fn all_ascii(s: Seq<char>) -> bool {
    forall|i: int| 0 <= i < s.len() ==> (#[trigger] s[i] as u32) < 128
}

/// `str::to_lowercase`. Its result is named, not spelled out: the
/// Unicode case tables are not restated here. For ASCII text the
/// documented mapping is plain: `A`-`Z` become `a`-`z`, every other
/// character stays, one for one.
#[verifier::external_body]
pub(crate) fn to_lower(s: &[char]) -> (r: Vec<char>)
    ensures
        r@ == lowercase(s@),
        all_ascii(s@) ==> r@ == ascii_lowercase(s@),
{
    let t: String = s.iter().collect();
    t.to_lowercase().chars().collect()
}

// ---- joining ----

pub open spec fn texts(v: Seq<String>) -> Seq<Seq<char>> {
    v.map_values(|s: String| s@)
}

/// Texts joined with a separator (`[String]::join`).
pub open spec fn joined(ss: Seq<Seq<char>>, sep: Seq<char>) -> Seq<char>
    decreases ss.len(),
{
    if ss.len() == 0 {
        seq![]
    } else if ss.len() == 1 {
        ss[0]
    } else {
        joined(ss.drop_last(), sep) + sep + ss.last()
    }
}

/// Joins texts with a separator.
pub fn join_texts(ss: &[String], sep: &str) -> (r: String)
    ensures
        r@ == joined(texts(ss@), sep@),
{
    let ghost all = texts(ss@);
    let mut buf: Vec<char> = Vec::new();
    let mut i: usize = 0;
    while i < ss.len()
        invariant
            i <= ss@.len(),
            all == texts(ss@),
            buf@ == joined(all.take(i as int), sep@),
        decreases ss@.len() - i,
    {
        assert(all.take(i + 1).drop_last() =~= all.take(i as int));
        assert(all.take(i + 1).last() == ss@[i as int]@);
        if i > 0 {
            push_text(&mut buf, sep);
        }
        let part = chars_of(ss[i].as_str());
        push_chars(&mut buf, part.as_slice());
        proof {
            if i == 0 {
                assert(buf@ =~= all.take(1)[0]);
            }
        }
        i = i + 1;
    }
    assert(all.take(ss@.len() as int) =~= all);
    string_of(buf.as_slice())
}

} // verus!
