//! newc ("070701"/"070702") cpio archives, the format of Android ramdisks.
//!
//! Entries are read with every header field kept, and written back with
//! those fields unchanged, so untouched entries travel through an edit
//! verbatim: ownership, modes and timestamps live in the archive and would
//! be lost by a round trip through a user-owned folder.
use vstd::prelude::*;
use vstd::utf8::{valid_utf8, decode_utf8, encode_utf8};
use crate::text::{chars_of, string_of, lossy_string, utf8_text, lossy_decode, lemma_encode_concat, lemma_encode_nul};

verus! {

pub const S_IFMT: u32 = 0o170000;
pub const S_IFDIR: u32 = 0o040000;
pub const S_IFLNK: u32 = 0o120000;
pub const S_IFREG: u32 = 0o100000;

/// One archive member.
#[derive(Debug, Clone)]
pub struct CpioEntry {
    pub name: String,
    /// Full st_mode including the file-type bits.
    pub mode: u32,
    pub uid: u16,
    pub gid: u16,
    pub nlink: u16,
    pub mtime: u32,
    pub ino: u32,
    pub rdev: u32,
    /// File content, or the symlink target for S_IFLNK entries.
    pub data: Vec<u8>,
    pub magic_was_crc: bool,
}

/// The value of an entry.
pub struct EntryModel {
    pub name: Seq<char>,
    pub mode: u32,
    pub uid: u16,
    pub gid: u16,
    pub nlink: u16,
    pub mtime: u32,
    pub ino: u32,
    pub rdev: u32,
    pub data: Seq<u8>,
    pub magic_was_crc: bool,
}

impl View for CpioEntry {
    type V = EntryModel;

    open spec fn view(&self) -> EntryModel {
        EntryModel {
            name: self.name@,
            mode: self.mode,
            uid: self.uid,
            gid: self.gid,
            nlink: self.nlink,
            mtime: self.mtime,
            ino: self.ino,
            rdev: self.rdev,
            data: self.data@,
            magic_was_crc: self.magic_was_crc,
        }
    }
}

pub open spec fn entries_view(v: Seq<CpioEntry>) -> Seq<EntryModel> {
    v.map_values(|e: CpioEntry| e@)
}

/// Why an archive could not be read.
#[derive(Debug, Clone, PartialEq, Eq)]
pub enum CpioError {
    /// The data does not start with a newc magic.
    NotCpio,
    /// A header field is not UTF-8 text.
    HeaderNotText,
    /// A header field is text but not a hexadecimal number; the text.
    BadHeaderField(String),
    /// A header runs past the end of the data.
    TruncatedHeader,
    /// A name runs past the end of the data.
    TruncatedName,
    /// The data of the named entry runs past the end of the data.
    TruncatedData(String),
    /// No member precedes the trailer.
    NoEntries,
}

pub enum CpioErrorModel {
    NotCpio,
    HeaderNotText,
    BadHeaderField(Seq<char>),
    TruncatedHeader,
    TruncatedName,
    TruncatedData(Seq<char>),
    NoEntries,
}

impl View for CpioError {
    type V = CpioErrorModel;

    open spec fn view(&self) -> CpioErrorModel {
        match self {
            CpioError::NotCpio => CpioErrorModel::NotCpio,
            CpioError::HeaderNotText => CpioErrorModel::HeaderNotText,
            CpioError::BadHeaderField(t) => CpioErrorModel::BadHeaderField(t@),
            CpioError::TruncatedHeader => CpioErrorModel::TruncatedHeader,
            CpioError::TruncatedName => CpioErrorModel::TruncatedName,
            CpioError::TruncatedData(n) => CpioErrorModel::TruncatedData(n@),
            CpioError::NoEntries => CpioErrorModel::NoEntries,
        }
    }
}

// ---- header numerals ----

pub open spec fn hex_digit_value(b: u8) -> Option<nat> {
    if 48 <= b <= 57 {
        Some((b - 48) as nat)
    } else if 97 <= b <= 102 {
        Some((b - 87) as nat)
    } else if 65 <= b <= 70 {
        Some((b - 55) as nat)
    } else {
        None
    }
}

pub open spec fn hex_digits_value(s: Seq<u8>) -> Option<nat>
    decreases s.len(),
{
    if s.len() == 0 {
        Some(0)
    } else {
        match (hex_digits_value(s.drop_last()), hex_digit_value(s.last())) {
            (Some(v), Some(d)) => Some(v * 16 + d),
            _ => None,
        }
    }
}

/// `u32::from_str_radix(text, 16)` on the bytes of `text`: an optional
/// `+`, then at least one hex digit, value within u32.
pub open spec fn radix16_u32(s: Seq<u8>) -> Option<u32> {
    let digits = if s.len() > 0 && s[0] == 43u8 { s.drop_first() } else { s };
    if digits.len() == 0 {
        None
    } else {
        match hex_digits_value(digits) {
            Some(v) => if v <= u32::MAX { Some(v as u32) } else { None },
            None => None,
        }
    }
}

/// The 8-byte header field at `at`.
pub open spec fn header_field(d: Seq<u8>, at: int) -> Result<u32, CpioErrorModel> {
    let b = d.subrange(at, at + 8);
    match radix16_u32(b) {
        Some(v) => Ok(v),
        None => if valid_utf8(b) {
            Err(CpioErrorModel::BadHeaderField(decode_utf8(b)))
        } else {
            Err(CpioErrorModel::HeaderNotText)
        },
    }
}

/// The first `k` header fields of the header at `pos`, read in order.
pub open spec fn header_fields(d: Seq<u8>, pos: int, k: nat) -> Result<Seq<u32>, CpioErrorModel>
    decreases k,
{
    if k == 0 {
        Ok(seq![])
    } else {
        match header_fields(d, pos, (k - 1) as nat) {
            Err(e) => Err(e),
            Ok(f) => match header_field(d, pos + 6 + 8 * (k - 1)) {
                Err(e) => Err(e),
                Ok(v) => Ok(f.push(v)),
            },
        }
    }
}

fn hex_digit(b: u8) -> (r: Option<u32>)
    ensures
        r matches Some(v) ==> hex_digit_value(b) == Some(v as nat),
        r is None ==> hex_digit_value(b) is None,
{
    if 48 <= b && b <= 57 {
        Some((b - 48) as u32)
    } else if 97 <= b && b <= 102 {
        Some((b - 87) as u32)
    } else if 65 <= b && b <= 70 {
        Some((b - 55) as u32)
    } else {
        None
    }
}

proof fn lemma_hex_digits_bound(s: Seq<u8>)
    ensures
        hex_digits_value(s) matches Some(v) ==> v < pow16(s.len()),
    decreases s.len(),
{
    if s.len() > 0 {
        lemma_hex_digits_bound(s.drop_last());
        if let Some(v) = hex_digits_value(s) {
            let w = hex_digits_value(s.drop_last())->Some_0;
            let d = hex_digit_value(s.last())->Some_0;
            let p = pow16((s.len() - 1) as nat);
            assert(w * 16 + d < p * 16) by (nonlinear_arith)
                requires w < p, d < 16;
        }
    }
}

pub open spec fn pow16(n: nat) -> nat
    decreases n,
{
    if n == 0 { 1 } else { 16 * pow16((n - 1) as nat) }
}

/// Parses the 8-byte header field at `at`.
fn hex_field(data: &[u8], at: usize) -> (r: Result<u32, CpioError>)
    requires
        at + 8 <= data@.len(),
    ensures
        match r {
            Ok(v) => header_field(data@, at as int) == Ok::<u32, CpioErrorModel>(v),
            Err(e) => header_field(data@, at as int) == Err::<u32, CpioErrorModel>(e@),
        },
{
    let ghost b = data@.subrange(at as int, at + 8);
    let plus = data[at] == 43u8;
    let start: usize = if plus { 1 } else { 0 };
    let ghost digits = if plus { b.drop_first() } else { b };
    assert(digits =~= b.subrange(start as int, 8));
    let mut v: u32 = 0;
    let mut i: usize = start;
    let mut ok = true;
    while i < 8
        invariant
            start <= i <= 8,
            at + 8 <= data.len(),
            b == data@.subrange(at as int, at + 8),
            ok ==> hex_digits_value(b.subrange(start as int, i as int)) == Some(v as nat),
            !ok ==> hex_digits_value(b.subrange(start as int, i as int)) is None,
        decreases 8 - i,
    {
        assert(b.subrange(start as int, i + 1).drop_last() =~= b.subrange(start as int, i as int));
        assert(b.subrange(start as int, i + 1).last() == data@[at + i]);
        if ok {
            match hex_digit(data[at + i]) {
                Some(d) => {
                    proof {
                        lemma_hex_digits_bound(b.subrange(start as int, i as int));
                        assert(pow16(7) == 0x1000_0000) by { reveal_with_fuel(pow16, 8); }
                        lemma_pow16_mono((i - start) as nat, 7);
                    }
                    v = v * 16 + d;
                },
                None => {
                    ok = false;
                },
            }
        }
        i = i + 1;
    }
    if ok && start < 8 {
        assert(b.subrange(start as int, 8) =~= digits);
        return Ok(v);
    }
    assert(radix16_u32(b) is None);
    match utf8_text(&data[at..at + 8]) {
        Some(t) => Err(CpioError::BadHeaderField(t)),
        None => Err(CpioError::HeaderNotText),
    }
}

proof fn lemma_pow16_mono(i: nat, j: nat)
    requires i <= j,
    ensures 1 <= pow16(i) <= pow16(j),
    decreases j,
{
    if j > 0 && i < j {
        lemma_pow16_mono(i, (j - 1) as nat);
    } else if j > 0 {
        lemma_pow16_mono(0, (j - 1) as nat);
    }
}


// ---- reading ----

pub open spec fn newc_magic() -> Seq<u8> {
    seq![48u8, 55u8, 48u8, 55u8, 48u8, 49u8]
}

pub open spec fn crc_magic() -> Seq<u8> {
    seq![48u8, 55u8, 48u8, 55u8, 48u8, 50u8]
}

pub open spec fn bytes_at(d: Seq<u8>, at: int, m: Seq<u8>) -> bool {
    0 <= at && at + m.len() <= d.len() && d.subrange(at, at + m.len()) == m
}

pub open spec fn magic_at(d: Seq<u8>, at: int) -> bool {
    bytes_at(d, at, newc_magic()) || bytes_at(d, at, crc_magic())
}

/// Rounds up to a multiple of four.
pub open spec fn align4(x: int) -> int {
    (x + 3) / 4 * 4
}

pub proof fn lemma_align4(x: int)
    requires 0 <= x,
    ensures x <= align4(x) <= x + 3, align4(x) % 4 == 0,
        x % 4 == 0 ==> align4(x) == x,
{
}

/// Drops trailing NUL characters.
pub open spec fn trim_nul(s: Seq<char>) -> Seq<char>
    decreases s.len(),
{
    if s.len() > 0 && s.last() == '\0' {
        trim_nul(s.drop_last())
    } else {
        s
    }
}

pub open spec fn trailer_name() -> Seq<char> {
    seq!['T', 'R', 'A', 'I', 'L', 'E', 'R', '!', '!', '!']
}

/// The entry described by header fields `f`, a name and a data slice.
pub open spec fn entry_from_fields(f: Seq<u32>, name: Seq<char>, data: Seq<u8>, crc: bool) -> EntryModel {
    EntryModel {
        name: name,
        mode: f[1],
        uid: f[2] as u16,
        gid: f[3] as u16,
        nlink: f[4] as u16,
        mtime: f[5],
        ino: f[0],
        rdev: (f[9] << 16u32) | f[10],
        data: data,
        magic_was_crc: crc,
    }
}

pub open spec fn finish(acc: Seq<EntryModel>) -> Result<Seq<EntryModel>, CpioErrorModel> {
    if acc.len() == 0 {
        Err(CpioErrorModel::NoEntries)
    } else {
        Ok(acc)
    }
}

/// Reading members from `pos` on, after `acc` was read: a member is a
/// 110-byte header, a NUL-terminated name padded to four bytes, and data
/// padded to four bytes. Reading stops at the trailer or at anything that
/// is not a magic.
pub open spec fn parse_from(d: Seq<u8>, pos: int, acc: Seq<EntryModel>) -> Result<Seq<EntryModel>, CpioErrorModel>
    decreases d.len() + 4 - pos,
{
    if pos + 6 > d.len() || !magic_at(d, pos) {
        finish(acc)
    } else if pos + 110 > d.len() {
        Err(CpioErrorModel::TruncatedHeader)
    } else {
        match header_fields(d, pos, 13) {
            Err(e) => Err(e),
            Ok(f) => {
                let name_end = pos + 110 + f[11];
                if name_end > d.len() {
                    Err(CpioErrorModel::TruncatedName)
                } else {
                    let name = trim_nul(lossy_decode(d.subrange(pos + 110, name_end)));
                    let data_start = align4(name_end);
                    let data_end = data_start + f[6];
                    if data_end > d.len() {
                        Err(CpioErrorModel::TruncatedData(name))
                    } else if name == trailer_name() {
                        finish(acc)
                    } else {
                        proof { lemma_align4(name_end); lemma_align4(data_end); }
                        parse_from(
                            d,
                            align4(data_end),
                            acc.push(entry_from_fields(f, name, d.subrange(data_start, data_end), bytes_at(d, pos, crc_magic()))),
                        )
                    }
                }
            },
        }
    }
}

/// The members of archive `d`.
pub open spec fn parse_cpio(d: Seq<u8>) -> Result<Seq<EntryModel>, CpioErrorModel> {
    if d.len() < 6 || !magic_at(d, 0) {
        Err(CpioErrorModel::NotCpio)
    } else {
        parse_from(d, 0, seq![])
    }
}

proof fn lemma_parse_from_members(d: Seq<u8>, pos: int, acc: Seq<EntryModel>)
    requires
        0 <= pos,
        forall|i: int| 0 <= i < acc.len() ==> (#[trigger] acc[i]).name != trailer_name(),
    ensures
        parse_from(d, pos, acc) matches Ok(v) ==> v.len() > 0 && acc.len() <= v.len()
            && v.take(acc.len() as int) == acc
            && forall|i: int| 0 <= i < v.len() ==> (#[trigger] v[i]).name != trailer_name(),
    decreases d.len() + 4 - pos,
{
    if pos + 6 > d.len() || !magic_at(d, pos) {
        assert(acc.take(acc.len() as int) =~= acc);
    } else if pos + 110 > d.len() {
    } else {
        match header_fields(d, pos, 13) {
            Err(e) => {},
            Ok(f) => {
                let name_end = pos + 110 + f[11];
                if name_end <= d.len() {
                    let name = trim_nul(lossy_decode(d.subrange(pos + 110, name_end)));
                    let data_start = align4(name_end);
                    let data_end = data_start + f[6];
                    if data_end <= d.len() && name != trailer_name() {
                        lemma_align4(name_end);
                        lemma_align4(data_end);
                        let e = entry_from_fields(f, name, d.subrange(data_start, data_end), bytes_at(d, pos, crc_magic()));
                        let acc2 = acc.push(e);
                        assert forall|i: int| 0 <= i < acc2.len() implies (#[trigger] acc2[i]).name != trailer_name() by {
                            if i < acc.len() { assert(acc2[i] == acc[i]); }
                        }
                        lemma_parse_from_members(d, align4(data_end), acc2);
                        if parse_from(d, pos, acc) is Ok {
                            let v = parse_from(d, pos, acc)->Ok_0;
                            assert(v.take(acc2.len() as int) == acc2);
                            assert(v.take(acc.len() as int) =~= acc2.take(acc.len() as int));
                            assert(acc2.take(acc.len() as int) =~= acc);
                        }
                    } else if data_end <= d.len() {
                        assert(acc.take(acc.len() as int) =~= acc);
                    }
                }
            },
        }
    }
}

/// What reading an archive gives back: at least one member, and none named
/// as the trailer (reading stops there). An archive that starts with a
/// magic but is too short for the header fails as truncated.
pub proof fn lemma_parse_cpio_members(d: Seq<u8>)
    ensures
        parse_cpio(d) matches Ok(v) ==> v.len() > 0
            && forall|i: int| 0 <= i < v.len() ==> (#[trigger] v[i]).name != trailer_name(),
        magic_at(d, 0) && d.len() < 110 ==> parse_cpio(d) == Err::<Seq<EntryModel>, CpioErrorModel>(CpioErrorModel::TruncatedHeader),
{
    lemma_parse_from_members(d, 0, seq![]);
}

pub open spec fn entries_result_view(r: Result<Vec<CpioEntry>, CpioError>) -> Result<Seq<EntryModel>, CpioErrorModel> {
    match r {
        Ok(v) => Ok(entries_view(v@)),
        Err(e) => Err(e@),
    }
}

fn holds6(d: &[u8], at: usize, last: u8) -> (r: bool)
    requires
        at + 6 <= d@.len(),
    ensures
        r == (d@.subrange(at as int, at + 6) == seq![48u8, 55u8, 48u8, 55u8, 48u8, last]),
{
    let r = d[at] == 48 && d[at + 1] == 55 && d[at + 2] == 48 && d[at + 3] == 55 && d[at + 4] == 48 && d[at + 5] == last;
    proof {
        let s = d@.subrange(at as int, at + 6);
        if r {
            assert(s =~= seq![48u8, 55u8, 48u8, 55u8, 48u8, last]);
        } else if s == seq![48u8, 55u8, 48u8, 55u8, 48u8, last] {
            assert(s[0] == d@[at as int] && s[1] == d@[at + 1] && s[2] == d@[at + 2]);
            assert(s[3] == d@[at + 3] && s[4] == d@[at + 4] && s[5] == d@[at + 5]);
        }
    }
    r
}

/// Drops trailing NULs.
fn trim_nul_chars(cs: &Vec<char>) -> (r: usize)
    ensures
        r <= cs@.len(),
        cs@.subrange(0, r as int) == trim_nul(cs@),
{
    let mut n = cs.len();
    assert(cs@.subrange(0, n as int) =~= cs@);
    while n > 0 && cs[n - 1] == '\0'
        invariant
            n <= cs@.len(),
            trim_nul(cs@) == trim_nul(cs@.subrange(0, n as int)),
        decreases n,
    {
        assert(cs@.subrange(0, n as int).drop_last() =~= cs@.subrange(0, n - 1));
        assert(cs@.subrange(0, n as int).last() == cs@[n - 1]);
        n = n - 1;
    }
    assert(cs@.subrange(0, n as int) == trim_nul(cs@.subrange(0, n as int)));
    n
}

fn is_trailer(cs: &[char]) -> (r: bool)
    ensures
        r == (cs@ == trailer_name()),
{
    let t = ['T', 'R', 'A', 'I', 'L', 'E', 'R', '!', '!', '!'];
    if cs.len() != 10 {
        return false;
    }
    let mut i: usize = 0;
    while i < 10
        invariant
            i <= 10,
            cs@.len() == 10,
            t@ == trailer_name(),
            forall|k: int| 0 <= k < i ==> cs@[k] == trailer_name()[k],
        decreases 10 - i,
    {
        if cs[i] != t[i] {
            return false;
        }
        i = i + 1;
    }
    assert(cs@ =~= trailer_name());
    true
}

/// One step of reading at a position.
enum MemberStep {
    End,
    Failed(CpioError),
    Member(CpioEntry, usize),
}

/// Reads the member at `pos`.
#[verifier::rlimit(40)]
fn read_member(data: &[u8], pos: usize) -> (r: MemberStep)
    requires
        pos <= data@.len() + 3,
        data@.len() <= isize::MAX,
    ensures
        forall|acc: Seq<EntryModel>| #[trigger] parse_from(data@, pos as int, acc) == match r {
            MemberStep::End => finish(acc),
            MemberStep::Failed(e) => Err(e@),
            MemberStep::Member(e, next) => parse_from(data@, next as int, acc.push(e@)),
        },
        r matches MemberStep::Member(_, next) ==> pos < next <= data@.len() + 3,
{
    let len = data.len();
    if pos > len || len - pos < 6 {
        return MemberStep::End;
    }
    let crc = holds6(data, pos, 50);
    if !holds6(data, pos, 49) && !crc {
        return MemberStep::End;
    }
    if len - pos < 110 {
        return MemberStep::Failed(CpioError::TruncatedHeader);
    }
    let mut f: Vec<u32> = Vec::new();
    let mut k: usize = 0;
    while k < 13
        invariant
            k <= 13,
            pos + 110 <= len == data@.len(),
            header_fields(data@, pos as int, k as nat) == Ok::<Seq<u32>, CpioErrorModel>(f@),
            f@.len() == k,
            magic_at(data@, pos as int),
            crc == bytes_at(data@, pos as int, crc_magic()),
        decreases 13 - k,
    {
        proof { lemma_fields_len(data@, pos as int, k as nat); }
        let v = match hex_field(data, pos + 6 + 8 * k) {
            Ok(v) => v,
            Err(e) => {
                proof { lemma_fields_err(data@, pos as int, (k + 1) as nat, 13); }
                return MemberStep::Failed(e);
            },
        };
        f.push(v);
        k = k + 1;
    }
    let namesize = f[11] as usize;
    let p1 = pos + 110;
    if namesize > len - p1 {
        return MemberStep::Failed(CpioError::TruncatedName);
    }
    let name_end = p1 + namesize;
    let raw_name = lossy_string(&data[p1..name_end]);
    let name_chars = chars_of(raw_name.as_str());
    let keep = trim_nul_chars(&name_chars);
    let name_slice = name_chars.as_slice();
    let name_kept = &name_slice[0..keep];
    let filesize = f[6] as usize;
    let rem = name_end % 4;
    proof { lemma_align4(name_end as int); }
    if rem != 0 && name_end > len - (4 - rem) {
        return MemberStep::Failed(CpioError::TruncatedData(string_of(name_kept)));
    }
    let data_start = if rem == 0 { name_end } else { name_end + (4 - rem) };
    assert(data_start == align4(name_end as int));
    if filesize > len - data_start {
        return MemberStep::Failed(CpioError::TruncatedData(string_of(name_kept)));
    }
    let data_end = data_start + filesize;
    if is_trailer(name_kept) {
        return MemberStep::End;
    }
    let rdev = (f[9] << 16u32) | f[10];
    let entry = CpioEntry {
        name: string_of(name_kept),
        mode: f[1],
        uid: f[2] as u16,
        gid: f[3] as u16,
        nlink: f[4] as u16,
        mtime: f[5],
        ino: f[0],
        rdev: rdev,
        data: vstd::slice::slice_to_vec(&data[data_start..data_end]),
        magic_was_crc: crc,
    };
    let rem2 = data_end % 4;
    proof { lemma_align4(data_end as int); }
    let next = if rem2 == 0 { data_end } else { data_end + (4 - rem2) };
    assert(next == align4(data_end as int));
    MemberStep::Member(entry, next)
}

/// Reads all members of a newc archive held in memory.
pub fn read_entries_from(data: &[u8]) -> (r: Result<Vec<CpioEntry>, CpioError>)
    requires
        data@.len() <= isize::MAX,
    ensures
        entries_result_view(r) == parse_cpio(data@),
{
    let len = data.len();
    if len < 6 || !(holds6(data, 0, 49) || holds6(data, 0, 50)) {
        return Err(CpioError::NotCpio);
    }
    let mut entries: Vec<CpioEntry> = Vec::new();
    let mut pos: usize = 0;
    assert(entries_view(entries@) =~= Seq::<EntryModel>::empty());
    loop
        invariant
            len == data@.len(),
            len <= isize::MAX,
            pos <= len + 3,
            parse_from(data@, pos as int, entries_view(entries@)) == parse_cpio(data@),
        decreases len + 4 - pos,
    {
        let ghost before = entries_view(entries@);
        match read_member(data, pos) {
            MemberStep::End => {
                if entries.len() == 0 {
                    return Err(CpioError::NoEntries);
                }
                return Ok(entries);
            },
            MemberStep::Failed(e) => {
                return Err(e);
            },
            MemberStep::Member(e, next) => {
                entries.push(e);
                assert(entries_view(entries@) =~= before.push(e@));
                pos = next;
            },
        }
    }
}

proof fn lemma_fields_len(d: Seq<u8>, pos: int, k: nat)
    ensures
        header_fields(d, pos, k) matches Ok(f) ==> f.len() == k,
    decreases k,
{
    if k > 0 {
        lemma_fields_len(d, pos, (k - 1) as nat);
    }
}

proof fn lemma_fields_err(d: Seq<u8>, pos: int, k: nat, n: nat)
    requires
        k <= n,
        header_fields(d, pos, k) is Err,
    ensures
        header_fields(d, pos, n) == header_fields(d, pos, k),
    decreases n - k,
{
    if k < n {
        lemma_fields_err(d, pos, k, (n - 1) as nat);
    }
}


// ---- writing ----

pub open spec fn hex_char(n: nat) -> u8 {
    if n < 10 { (48 + n) as u8 } else { (87 + n) as u8 }
}

/// `format!("{:08x}", v)`: eight lowercase hex digits.
pub open spec fn hex8(v: u32) -> Seq<u8> {
    seq![
        hex_char((v / 0x1000_0000) as nat),
        hex_char((v / 0x100_0000 % 16) as nat),
        hex_char((v / 0x10_0000 % 16) as nat),
        hex_char((v / 0x1_0000 % 16) as nat),
        hex_char((v / 0x1000 % 16) as nat),
        hex_char((v / 0x100 % 16) as nat),
        hex_char((v / 0x10 % 16) as nat),
        hex_char((v % 16) as nat),
    ]
}

pub open spec fn fields_bytes(vals: Seq<u32>) -> Seq<u8>
    decreases vals.len(),
{
    if vals.len() == 0 {
        seq![]
    } else {
        fields_bytes(vals.drop_last()) + hex8(vals.last())
    }
}

/// Byte length of an entry name.
pub open spec fn name_len(e: EntryModel) -> nat {
    encode_utf8(e.name).len()
}

/// The thirteen header numbers written for `e`.
pub open spec fn header_values(e: EntryModel) -> Seq<u32> {
    seq![
        e.ino, e.mode, e.uid as u32, e.gid as u32, e.nlink as u32, e.mtime,
        e.data.len() as u32, 0u32, 0u32, (e.rdev >> 16u32) & 0xffffu32, e.rdev & 0xffffu32,
        (name_len(e) + 1) as u32, 0u32,
    ]
}

pub open spec fn header_bytes(e: EntryModel) -> Seq<u8> {
    (if e.magic_was_crc { crc_magic() } else { newc_magic() }) + fields_bytes(header_values(e))
}

pub open spec fn pad4(k: nat) -> nat {
    ((4 - k % 4) % 4) as nat
}

pub open spec fn zeros(n: nat) -> Seq<u8> {
    Seq::new(n, |i: int| 0u8)
}

/// The bytes of one member: header, NUL-terminated name padded to four
/// bytes, data padded to four bytes.
pub open spec fn record_bytes(e: EntryModel) -> Seq<u8> {
    header_bytes(e) + encode_utf8(e.name) + seq![0u8] + zeros(pad4(111 + name_len(e)))
        + e.data + zeros(pad4(e.data.len()))
}

pub open spec fn records(es: Seq<EntryModel>) -> Seq<u8>
    decreases es.len(),
{
    if es.len() == 0 {
        seq![]
    } else {
        record_bytes(es[0]) + records(es.drop_first())
    }
}

pub proof fn lemma_records_push(es: Seq<EntryModel>, e: EntryModel)
    ensures
        records(es.push(e)) == records(es) + record_bytes(e),
    decreases es.len(),
{
    if es.len() == 0 {
        assert(es.push(e).drop_first() =~= Seq::<EntryModel>::empty());
        assert(records(es.push(e)) =~= record_bytes(e) + records(Seq::<EntryModel>::empty()));
    } else {
        lemma_records_push(es.drop_first(), e);
        assert(es.push(e).drop_first() =~= es.drop_first().push(e));
        assert(es.push(e)[0] == es[0]);
    }
}

pub open spec fn trailer_entry() -> EntryModel {
    EntryModel {
        name: trailer_name(),
        mode: 0,
        uid: 0,
        gid: 0,
        nlink: 1,
        mtime: 0,
        ino: 0,
        rdev: 0,
        data: seq![],
        magic_was_crc: false,
    }
}

/// A whole archive: the members, the trailer, zero padding to 512 bytes.
pub open spec fn archive_bytes(es: Seq<EntryModel>) -> Seq<u8> {
    let body = records(es) + record_bytes(trailer_entry());
    body + zeros(((512 - body.len() % 512) % 512) as nat)
}

fn push_hex8(buf: &mut Vec<u8>, v: u32)
    ensures
        final(buf)@ == old(buf)@ + hex8(v),
{
    let ds: [u32; 8] = [
        v / 0x1000_0000, v / 0x100_0000 % 16, v / 0x10_0000 % 16, v / 0x1_0000 % 16,
        v / 0x1000 % 16, v / 0x100 % 16, v / 0x10 % 16, v % 16,
    ];
    let mut i: usize = 0;
    while i < 8
        invariant
            i <= 8,
            ds@ == seq![
                v / 0x1000_0000, v / 0x100_0000 % 16, v / 0x10_0000 % 16, v / 0x1_0000 % 16,
                v / 0x1000 % 16, v / 0x100 % 16, v / 0x10 % 16, v % 16,
            ],
            buf@ == old(buf)@ + hex8(v).take(i as int),
        decreases 8 - i,
    {
        let d = ds[i];
        assert(d < 16);
        let c: u8 = if d < 10 { (48 + d) as u8 } else { (87 + d) as u8 };
        assert(c == hex8(v)[i as int]);
        buf.push(c);
        assert(hex8(v).take(i + 1) =~= hex8(v).take(i as int).push(c));
        i = i + 1;
    }
    assert(hex8(v).take(8) =~= hex8(v));
}

fn push_zeros_to(buf: &mut Vec<u8>, m: usize)
    requires
        m > 0,
    ensures
        final(buf)@ == old(buf)@ + zeros(((m as int - (old(buf)@.len() as int) % (m as int)) % (m as int)) as nat),
        (final(buf)@.len() as int) % (m as int) == 0,
{
    let ghost start = buf@;
    let ghost n = ((m as int - (start.len() as int) % (m as int)) % (m as int)) as nat;
    let mut k: usize = 0;
    while buf.len() % m != 0
        invariant
            m > 0,
            n == (((m as int) - (start.len() as int) % (m as int)) % (m as int)) as nat,
            buf@ == start + zeros(k as nat),
            k <= n,
            buf@.len() == start.len() + k,
        decreases n - k,
    {
        proof {
            assert((start.len() as int + k as int) % (m as int) != 0);
            lemma_pad_step(start.len() as int, k as int, m as int);
        }
        buf.push(0);
        assert(zeros(k as nat + 1) =~= zeros(k as nat).push(0u8));
        k = k + 1;
    }
    proof { lemma_pad_done(start.len() as int, k as int, m as int); }
}

proof fn lemma_pad_step(l: int, k: int, m: int)
    requires
        m > 0, l >= 0, 0 <= k <= (m - l % m) % m, (l + k) % m != 0,
    ensures
        k < (m - l % m) % m,
{
    assert(k < (m - l % m) % m) by (nonlinear_arith)
        requires m > 0, l >= 0, 0 <= k <= (m - l % m) % m, (l + k) % m != 0;
}

proof fn lemma_pad_done(l: int, k: int, m: int)
    requires
        m > 0, l >= 0, 0 <= k <= (m - l % m) % m, (l + k) % m == 0,
    ensures
        k == (m - l % m) % m,
{
    assert(k == (m - l % m) % m) by (nonlinear_arith)
        requires m > 0, l >= 0, 0 <= k <= (m - l % m) % m, (l + k) % m == 0;
}

fn write_header(buf: &mut Vec<u8>, e: &CpioEntry)
    requires
        name_len(e@) <= isize::MAX,
    ensures
        final(buf)@ == old(buf)@ + header_bytes(e@),
{
    let ghost b0 = buf@;
    if e.magic_was_crc {
        buf.extend_from_slice(&[48u8, 55, 48, 55, 48, 50]);
    } else {
        buf.extend_from_slice(&[48u8, 55, 48, 55, 48, 49]);
    }
    let ghost b1 = buf@;
    assert(b1 == b0 + (if e.magic_was_crc { crc_magic() } else { newc_magic() }));
    let name_bytes = e.name.as_str().as_bytes();
    let vals: [u32; 13] = [
        e.ino, e.mode, e.uid as u32, e.gid as u32, e.nlink as u32, e.mtime,
        e.data.len() as u32, 0, 0, (e.rdev >> 16u32) & 0xffff, e.rdev & 0xffff,
        (name_bytes.len() as u64 + 1) as u32, 0,
    ];
    assert(vals@ =~= header_values(e@));
    let mut i: usize = 0;
    while i < 13
        invariant
            i <= 13,
            vals@ == header_values(e@),
            buf@ == b1 + fields_bytes(vals@.take(i as int)),
        decreases 13 - i,
    {
        push_hex8(buf, vals[i]);
        assert(vals@.take(i + 1).drop_last() =~= vals@.take(i as int));
        i = i + 1;
    }
    assert(vals@.take(13) =~= vals@);
    assert(buf@ =~= b0 + header_bytes(e@));
}

/// Appends one member to a buffer whose length is a multiple of four.
fn write_entry(buf: &mut Vec<u8>, e: &CpioEntry)
    requires
        old(buf)@.len() % 4 == 0,
        name_len(e@) <= isize::MAX,
    ensures
        final(buf)@ == old(buf)@ + record_bytes(e@),
        final(buf)@.len() % 4 == 0,
{
    let ghost b0 = buf@;
    write_header(buf, e);
    proof { lemma_fields_bytes_len(header_values(e@)); }
    let name_bytes = e.name.as_str().as_bytes();
    buf.extend_from_slice(name_bytes);
    buf.push(0);
    let ghost b2 = buf@;
    assert(b2.len() == b0.len() + 111 + name_len(e@));
    push_zeros_to(buf, 4);
    proof { lemma_pad_shift(b0.len() as int, 111 + name_len(e@)); }
    let ghost b3 = buf@;
    buf.extend_from_slice(e.data.as_slice());
    push_zeros_to(buf, 4);
    proof { lemma_pad_shift(b3.len() as int, e.data@.len()); }
    assert(buf@ =~= b0 + record_bytes(e@));
}

proof fn lemma_pad_shift(base: int, k: nat)
    requires
        base >= 0, base % 4 == 0,
    ensures
        (((4 as int) - (base + k) % (4 as int)) % (4 as int)) as nat == pad4(k),
{
    assert((base + k) % 4 == k % 4) by (nonlinear_arith)
        requires base >= 0, base % 4 == 0, k >= 0;
}

proof fn lemma_trailer_name_len()
    ensures
        name_len(trailer_entry()) == 10,
{
    let t = trailer_name();
    assert forall|i: int| 0 <= i < 10 implies (t[i] as u32) < 0x80 by {}
    lemma_ascii_len(t);
}

/// Characters below 0x80 encode as one byte each.
pub proof fn lemma_ascii_len(t: Seq<char>)
    requires
        forall|i: int| 0 <= i < t.len() ==> (t[i] as u32) < 0x80,
    ensures
        encode_utf8(t).len() == t.len(),
    decreases t.len(),
{
    if t.len() > 0 {
        lemma_ascii_len(t.drop_first());
    }
}

pub proof fn lemma_fields_bytes_len(vals: Seq<u32>)
    ensures
        fields_bytes(vals).len() == 8 * vals.len(),
    decreases vals.len(),
{
    if vals.len() > 0 {
        lemma_fields_bytes_len(vals.drop_last());
    }
}

/// The bytes of a whole archive holding `entries`, trailer and 512-byte
/// padding included.
pub fn serialize_entries(entries: &[CpioEntry]) -> (buf: Vec<u8>)
    requires
        forall|i: int| 0 <= i < entries@.len() ==> name_len(#[trigger] entries@[i]@) <= isize::MAX,
    ensures
        buf@ == archive_bytes(entries_view(entries@)),
{
    let mut buf: Vec<u8> = Vec::new();
    let mut i: usize = 0;
    while i < entries.len()
        invariant
            i <= entries@.len(),
            buf@ == records(entries_view(entries@).take(i as int)),
            buf@.len() % 4 == 0,
            forall|j: int| 0 <= j < entries@.len() ==> name_len(#[trigger] entries@[j]@) <= isize::MAX,
        decreases entries@.len() - i,
    {
        write_entry(&mut buf, &entries[i]);
        proof {
            lemma_records_push(entries_view(entries@).take(i as int), entries@[i as int]@);
            assert(entries_view(entries@).take(i + 1) =~= entries_view(entries@).take(i as int).push(entries@[i as int]@));
        }
        i = i + 1;
    }
    assert(entries_view(entries@).take(entries@.len() as int) =~= entries_view(entries@));
    let trailer = CpioEntry {
        name: string_of(&['T', 'R', 'A', 'I', 'L', 'E', 'R', '!', '!', '!']),
        mode: 0,
        uid: 0,
        gid: 0,
        nlink: 1,
        mtime: 0,
        ino: 0,
        rdev: 0,
        data: Vec::new(),
        magic_was_crc: false,
    };
    assert(trailer@ == trailer_entry());
    proof { lemma_trailer_name_len(); }
    write_entry(&mut buf, &trailer);
    push_zeros_to(&mut buf, 512);
    buf
}


// ---- the round trip ----

/// What a member must satisfy to be read back as written: its name and
/// data sizes fit the 32-bit header fields, its name does not end in NUL
/// (the reader strips trailing NULs) and is not the trailer's name.
pub open spec fn entry_writable(e: EntryModel) -> bool {
    &&& name_len(e) + 1 <= u32::MAX
    &&& e.data.len() <= u32::MAX
    &&& !(e.name.len() > 0 && e.name.last() == '\0')
    &&& e.name != trailer_name()
}

proof fn lemma_hex_char(n: nat)
    requires n < 16,
    ensures hex_digit_value(hex_char(n)) == Some(n),
{
}

proof fn lemma_hex8_parse(v: u32)
    ensures
        radix16_u32(hex8(v)) == Some(v),
{
    let s = hex8(v);
    let d0 = (v / 0x1000_0000) as nat;
    let d1 = (v / 0x100_0000 % 16) as nat;
    let d2 = (v / 0x10_0000 % 16) as nat;
    let d3 = (v / 0x1_0000 % 16) as nat;
    let d4 = (v / 0x1000 % 16) as nat;
    let d5 = (v / 0x100 % 16) as nat;
    let d6 = (v / 0x10 % 16) as nat;
    let d7 = (v % 16) as nat;
    assert(d0 < 16);
    lemma_hex_char(d0); lemma_hex_char(d1); lemma_hex_char(d2); lemma_hex_char(d3);
    lemma_hex_char(d4); lemma_hex_char(d5); lemma_hex_char(d6); lemma_hex_char(d7);
    assert(s[0] != 43u8);
    assert(s.take(0) =~= Seq::<u8>::empty());
    assert(s.take(1).last() == s[0] && s.take(2).last() == s[1] && s.take(3).last() == s[2]);
    assert(s.take(4).last() == s[3] && s.take(5).last() == s[4] && s.take(6).last() == s[5]);
    assert(s.take(7).last() == s[6] && s.last() == s[7]);
    assert(s.take(1).drop_last() =~= s.take(0));
    assert(s.take(2).drop_last() =~= s.take(1));
    assert(s.take(3).drop_last() =~= s.take(2));
    assert(s.take(4).drop_last() =~= s.take(3));
    assert(s.take(5).drop_last() =~= s.take(4));
    assert(s.take(6).drop_last() =~= s.take(5));
    assert(s.take(7).drop_last() =~= s.take(6));
    assert(s.drop_last() =~= s.take(7));
    assert(hex_digits_value(s.take(0)) == Some(0nat));
    assert(hex_digits_value(s.take(1)) == Some(d0));
    assert(hex_digits_value(s.take(2)) == Some(d0 * 16 + d1));
    assert(hex_digits_value(s.take(3)) == Some((d0 * 16 + d1) * 16 + d2));
    assert(hex_digits_value(s.take(4)) == Some(((d0 * 16 + d1) * 16 + d2) * 16 + d3));
    assert(hex_digits_value(s.take(5)) == Some((((d0 * 16 + d1) * 16 + d2) * 16 + d3) * 16 + d4));
    assert(hex_digits_value(s.take(6)) == Some(((((d0 * 16 + d1) * 16 + d2) * 16 + d3) * 16 + d4) * 16 + d5));
    assert(hex_digits_value(s.take(7)) == Some((((((d0 * 16 + d1) * 16 + d2) * 16 + d3) * 16 + d4) * 16 + d5) * 16 + d6));
    assert(hex_digits_value(s) == Some(((((((d0 * 16 + d1) * 16 + d2) * 16 + d3) * 16 + d4) * 16 + d5) * 16 + d6) * 16 + d7));
    assert(((((((((v / 0x1000_0000) * 16 + v / 0x100_0000 % 16) * 16 + v / 0x10_0000 % 16) * 16
        + v / 0x1_0000 % 16) * 16 + v / 0x1000 % 16) * 16 + v / 0x100 % 16) * 16 + v / 0x10 % 16) * 16
        + v % 16) == v) by (bit_vector);
}

proof fn lemma_fields_bytes_chunk(vals: Seq<u32>, k: int)
    requires
        0 <= k < vals.len(),
    ensures
        fields_bytes(vals).subrange(8 * k, 8 * k + 8) == hex8(vals[k]),
    decreases vals.len(),
{
    lemma_fields_bytes_len(vals.drop_last());
    if k == vals.len() - 1 {
        assert(fields_bytes(vals).subrange(8 * k, 8 * k + 8) =~= hex8(vals.last()));
    } else {
        lemma_fields_bytes_chunk(vals.drop_last(), k);
        assert(fields_bytes(vals).subrange(8 * k, 8 * k + 8) =~= fields_bytes(vals.drop_last()).subrange(8 * k, 8 * k + 8));
    }
}

proof fn lemma_header_fields(d: Seq<u8>, pos: int, e: EntryModel, k: nat)
    requires
        0 <= pos,
        pos + 110 <= d.len(),
        d.subrange(pos, pos + 110) == header_bytes(e),
        k <= 13,
    ensures
        header_fields(d, pos, k) == Ok::<Seq<u32>, CpioErrorModel>(header_values(e).take(k as int)),
    decreases k,
{
    let vals = header_values(e);
    lemma_fields_bytes_len(vals);
    if k == 0 {
        assert(vals.take(0) =~= Seq::<u32>::empty());
    } else {
        let j = k - 1;
        lemma_header_fields(d, pos, e, j as nat);
        lemma_fields_bytes_chunk(vals, j);
        let magic = if e.magic_was_crc { crc_magic() } else { newc_magic() };
        assert(d.subrange(pos + 6 + 8 * j, pos + 6 + 8 * j + 8) =~= fields_bytes(vals).subrange(8 * j, 8 * j + 8)) by {
            assert forall|i: int| 0 <= i < 8 implies #[trigger] d.subrange(pos + 6 + 8 * j, pos + 6 + 8 * j + 8)[i]
                == fields_bytes(vals).subrange(8 * j, 8 * j + 8)[i] by {
                assert(d[pos + 6 + 8 * j + i] == d.subrange(pos, pos + 110)[6 + 8 * j + i]);
                assert(header_bytes(e)[6 + 8 * j + i] == fields_bytes(vals)[8 * j + i]);
            }
        }
        lemma_hex8_parse(vals[j]);
        assert(vals.take(k as int) =~= vals.take(j).push(vals[j]));
    }
}

proof fn lemma_trim_nul_one(name: Seq<char>)
    requires
        !(name.len() > 0 && name.last() == '\0'),
    ensures
        trim_nul(name + seq!['\0']) == name,
{
    assert((name + seq!['\0']).drop_last() =~= name);
    reveal_with_fuel(trim_nul, 2);
}

proof fn lemma_name_decode(name: Seq<char>)
    ensures
        lossy_decode(encode_utf8(name) + seq![0u8]) == name + seq!['\0'],
{
    lemma_encode_concat(name, seq!['\0']);
    lemma_encode_nul();
    vstd::utf8::encode_utf8_valid_utf8(name + seq!['\0']);
    vstd::utf8::encode_utf8_decode_utf8(name + seq!['\0']);
}

/// One member of `d` at `off` is exactly the record of `e`.
#[verifier::rlimit(100)]
#[verifier::spinoff_prover]
proof fn lemma_record_step(d: Seq<u8>, off: int, e: EntryModel, acc: Seq<EntryModel>)
    requires
        0 <= off,
        off % 4 == 0,
        off + record_bytes(e).len() <= d.len(),
        d.subrange(off, off + record_bytes(e).len()) == record_bytes(e),
        name_len(e) + 1 <= u32::MAX,
        e.data.len() <= u32::MAX,
        !(e.name.len() > 0 && e.name.last() == '\0'),
    ensures
        e.name == trailer_name() ==> parse_from(d, off, acc) == finish(acc),
        e.name != trailer_name() ==> parse_from(d, off, acc) == parse_from(d, off + record_bytes(e).len(), acc.push(e)),
{
    let r = record_bytes(e);
    let nl = name_len(e);
    let dl = e.data.len();
    let vals = header_values(e);
    lemma_fields_bytes_len(vals);
    let h = header_bytes(e);
    assert(h.len() == 110);
    let p1 = pad4(111 + nl);
    let p2 = pad4(dl);
    assert(r.len() == 110 + nl + 1 + p1 + dl + p2);
    // the pieces of the record, found in `d`
    assert(d.subrange(off, off + 110) =~= h) by {
        assert forall|i: int| 0 <= i < 110 implies #[trigger] d.subrange(off, off + 110)[i] == h[i] by {
            assert(d[off + i] == d.subrange(off, off + r.len())[i]);
        }
    }
    let magic = if e.magic_was_crc { crc_magic() } else { newc_magic() };
    assert(d.subrange(off, off + 6) =~= magic) by {
        assert forall|i: int| 0 <= i < 6 implies #[trigger] d.subrange(off, off + 6)[i] == magic[i] by {
            assert(d[off + i] == d.subrange(off, off + 110)[i]);
        }
    }
    assert(e.magic_was_crc == bytes_at(d, off, crc_magic())) by {
        if !e.magic_was_crc {
            assert(d.subrange(off, off + 6)[5] == 49u8);
        }
    }
    lemma_header_fields(d, off, e, 13);
    assert(vals.take(13) =~= vals);
    let name_end = off + 110 + nl + 1;
    let nb = encode_utf8(e.name) + seq![0u8];
    assert(d.subrange(off + 110, name_end) =~= nb) by {
        assert forall|i: int| 0 <= i < nl + 1 implies #[trigger] d.subrange(off + 110, name_end)[i] == nb[i] by {
            assert(d[off + 110 + i] == d.subrange(off, off + r.len())[110 + i]);
            assert(r[110 + i] == nb[i]);
        }
    }
    lemma_name_decode(e.name);
    lemma_trim_nul_one(e.name);
    lemma_align4(name_end);
    assert(align4(name_end) == name_end + p1) by {
        assert((off + 111 + nl) % 4 == (111 + nl) % 4) by (nonlinear_arith)
            requires off % 4 == 0, off >= 0, nl >= 0;
    }
    let ds = name_end + p1;
    let de = ds + dl;
    assert(d.subrange(ds, de) =~= e.data) by {
        assert forall|i: int| 0 <= i < dl implies #[trigger] d.subrange(ds, de)[i] == e.data[i] by {
            assert(d[ds + i] == d.subrange(off, off + r.len())[110 + nl + 1 + p1 + i]);
        }
    }
    lemma_align4(de);
    assert(align4(de) == off + r.len()) by {
        assert((ds + dl) % 4 == dl % 4) by (nonlinear_arith)
            requires ds % 4 == 0, ds >= 0, dl >= 0;
    }
    lemma_fields_give_back(e);
}

/// The header fields of an entry, read back, give the entry again.
proof fn lemma_fields_give_back(e: EntryModel)
    requires
        name_len(e) + 1 <= u32::MAX,
        e.data.len() <= u32::MAX,
    ensures
        entry_from_fields(header_values(e), e.name, e.data, e.magic_was_crc) == e,
{
    let vals = header_values(e);
    assert(vals[11] == name_len(e) + 1);
    assert(vals[6] == e.data.len());
    let rdev = e.rdev;
    assert((((rdev >> 16u32) & 0xffffu32) << 16u32) | (rdev & 0xffffu32) == rdev) by (bit_vector);
    assert((e.uid as u32) as u16 == e.uid);
    assert((e.gid as u32) as u16 == e.gid);
    assert((e.nlink as u32) as u16 == e.nlink);
}

proof fn lemma_subrange_split(d: Seq<u8>, off: int, a: Seq<u8>, b: Seq<u8>)
    requires
        0 <= off,
        off + a.len() + b.len() <= d.len(),
        d.subrange(off, off + a.len() + b.len()) == a + b,
    ensures
        d.subrange(off, off + a.len()) == a,
        d.subrange(off + a.len(), off + a.len() + b.len()) == b,
{
    let w = a + b;
    assert(d.subrange(off, off + a.len()) =~= a) by {
        assert forall|i: int| 0 <= i < a.len() implies #[trigger] d.subrange(off, off + a.len())[i] == a[i] by {
            assert(d[off + i] == d.subrange(off, off + w.len())[i]);
            assert(w[i] == a[i]);
        }
    }
    assert(d.subrange(off + a.len(), off + a.len() + b.len()) =~= b) by {
        assert forall|i: int| 0 <= i < b.len() implies #[trigger] d.subrange(off + a.len(), off + a.len() + b.len())[i] == b[i] by {
            assert(d[off + a.len() + i] == d.subrange(off, off + w.len())[a.len() + i]);
            assert(w[a.len() + i] == b[i]);
        }
    }
}

#[verifier::rlimit(100)]
#[verifier::spinoff_prover]
proof fn lemma_parse_records(d: Seq<u8>, off: int, es: Seq<EntryModel>, acc: Seq<EntryModel>)
    requires
        0 <= off,
        off % 4 == 0,
        off + records(es).len() + record_bytes(trailer_entry()).len() <= d.len(),
        d.subrange(off, off + records(es).len() + record_bytes(trailer_entry()).len())
            == records(es) + record_bytes(trailer_entry()),
        forall|i: int| 0 <= i < es.len() ==> entry_writable(#[trigger] es[i]),
    ensures
        parse_from(d, off, acc) == finish(acc + es),
    decreases es.len(),
{
    let t = record_bytes(trailer_entry());
    lemma_trailer_name_len();
    if es.len() == 0 {
        assert(records(es) + t =~= t);
        lemma_record_step(d, off, trailer_entry(), acc);
        assert(acc + es =~= acc);
    } else {
        let e = es[0];
        let r = record_bytes(e);
        let rest = es.drop_first();
        assert(d.subrange(off, off + r.len()) == r
            && d.subrange(off + r.len(), off + r.len() + (records(rest) + t).len()) == records(rest) + t) by {
            assert(records(es) == r + records(rest));
            assert(records(es) + t =~= r + (records(rest) + t));
            lemma_subrange_split(d, off, r, records(rest) + t);
        }
        assert(entry_writable(es[0]));
        lemma_record_step(d, off, e, acc);
        proof_record_len_mod4(e);
        assert(forall|i: int| 0 <= i < rest.len() ==> entry_writable(#[trigger] rest[i])) by {
            assert forall|i: int| 0 <= i < rest.len() implies entry_writable(#[trigger] rest[i]) by {
                assert(rest[i] == es[i + 1]);
            }
        }
        lemma_parse_records(d, off + r.len(), rest, acc.push(e));
        assert(acc.push(e) + rest =~= acc + es);
    }
}

proof fn proof_record_len_mod4(e: EntryModel)
    ensures
        record_bytes(e).len() % 4 == 0,
{
    lemma_fields_bytes_len(header_values(e));
    let nl = name_len(e);
    let dl = e.data.len();
    assert((110 + nl + 1 + pad4(111 + nl)) % 4 == 0) by (nonlinear_arith)
        requires nl >= 0;
    assert((dl + pad4(dl)) % 4 == 0) by (nonlinear_arith)
        requires dl >= 0;
}

proof fn lemma_archive_start(es: Seq<EntryModel>)
    requires
        es.len() > 0,
    ensures
        archive_bytes(es).len() >= 6,
        magic_at(archive_bytes(es), 0),
        archive_bytes(es).subrange(0, (records(es) + record_bytes(trailer_entry())).len() as int)
            == records(es) + record_bytes(trailer_entry()),
{
    let d = archive_bytes(es);
    let body = records(es) + record_bytes(trailer_entry());
    assert(d.subrange(0, body.len() as int) =~= body);
    let e0 = es[0];
    assert(records(es) == record_bytes(e0) + records(es.drop_first()));
    lemma_fields_bytes_len(header_values(e0));
    let h = header_bytes(e0);
    let magic = if e0.magic_was_crc { crc_magic() } else { newc_magic() };
    assert(h.subrange(0, 6) =~= magic);
    assert(record_bytes(e0).subrange(0, 6) =~= h.subrange(0, 6));
    assert(body.subrange(0, 6) =~= record_bytes(e0).subrange(0, 6));
    assert(d.subrange(0, 6) =~= body.subrange(0, 6));
}

/// Law: an archive written from members that fit the format reads back
/// as exactly those members, header fields, names and data unchanged.
pub proof fn lemma_archive_roundtrip(es: Seq<EntryModel>)
    requires
        es.len() > 0,
        forall|i: int| 0 <= i < es.len() ==> entry_writable(#[trigger] es[i]),
    ensures
        parse_cpio(archive_bytes(es)) == Ok::<Seq<EntryModel>, CpioErrorModel>(es),
{
    lemma_archive_start(es);
    lemma_parse_records(archive_bytes(es), 0, es, seq![]);
    assert(Seq::<EntryModel>::empty() + es =~= es);
}


// ---- rebuilding from an edited folder ----

/// A name without its leading `./` components (`trim_start_matches("./")`).
pub open spec fn bare(s: Seq<char>) -> Seq<char>
    decreases s.len(),
{
    if s.len() >= 2 && s[0] == '.' && s[1] == '/' {
        bare(s.skip(2))
    } else {
        s
    }
}

/// Where the bare name starts.
fn bare_start(cs: &[char]) -> (r: usize)
    ensures
        r <= cs@.len(),
        cs@.skip(r as int) == bare(cs@),
{
    let mut i: usize = 0;
    assert(cs@.skip(0) =~= cs@);
    while i < cs.len() && i + 1 < cs.len() && cs[i] == '.' && cs[i + 1] == '/'
        invariant
            i <= cs@.len(),
            bare(cs@) == bare(cs@.skip(i as int)),
        decreases cs@.len() - i,
    {
        assert(cs@.skip(i as int).skip(2) =~= cs@.skip(i + 2));
        i = i + 2;
    }
    i
}

/// The bare name of an entry name, as a `String`.
pub fn bare_name(name: &str) -> (r: String)
    ensures
        r@ == bare(name@),
{
    let cs = chars_of(name);
    let k = bare_start(cs.as_slice());
    let slice = cs.as_slice();
    string_of(&slice[k..slice.len()])
}

fn chars_eq(a: &[char], b: &[char]) -> (r: bool)
    ensures
        r == (a@ == b@),
{
    if a.len() != b.len() {
        return false;
    }
    let mut i: usize = 0;
    while i < a.len()
        invariant
            i <= a@.len() == b@.len(),
            forall|k: int| 0 <= k < i ==> a@[k] == b@[k],
        decreases a@.len() - i,
    {
        if a[i] != b[i] {
            return false;
        }
        i = i + 1;
    }
    assert(a@ =~= b@);
    true
}

/// The naming style of an archive: `./` when any member name starts with it.
pub open spec fn uses_dot_prefix(es: Seq<EntryModel>) -> bool {
    exists|i: int| 0 <= i < es.len() && es[i].name.len() >= 2 && es[i].name[0] == '.' && es[i].name[1] == '/'
}

/// The prefix new members get: `"./"` when the archive uses that style.
pub fn name_prefix(entries: &[CpioEntry]) -> (r: String)
    ensures
        uses_dot_prefix(entries_view(entries@)) ==> r@ == seq!['.', '/'],
        !uses_dot_prefix(entries_view(entries@)) ==> r@ == Seq::<char>::empty(),
{
    let mut i: usize = 0;
    while i < entries.len()
        invariant
            i <= entries@.len(),
            forall|k: int| 0 <= k < i ==> !({
                let n = #[trigger] entries_view(entries@)[k].name;
                n.len() >= 2 && n[0] == '.' && n[1] == '/'
            }),
        decreases entries@.len() - i,
    {
        let cs = chars_of(entries[i].name.as_str());
        if cs.len() >= 2 && cs[0] == '.' && cs[1] == '/' {
            assert(entries_view(entries@)[i as int].name == cs@);
            return string_of(&['.', '/']);
        }
        i = i + 1;
    }
    assert(!uses_dot_prefix(entries_view(entries@)));
    string_of(&[])
}

pub open spec fn max_ino(es: Seq<EntryModel>) -> u32
    decreases es.len(),
{
    if es.len() == 0 {
        0
    } else {
        let m = max_ino(es.drop_last());
        if es.last().ino > m { es.last().ino } else { m }
    }
}

/// The first inode number for new members: one past the largest in the
/// archive (wrapping, as the release build's arithmetic does).
pub fn next_inode(entries: &[CpioEntry]) -> (r: u32)
    ensures
        r == (max_ino(entries_view(entries@)) + 1) % 0x1_0000_0000,
{
    let mut m: u32 = 0;
    let mut i: usize = 0;
    while i < entries.len()
        invariant
            i <= entries@.len(),
            m == max_ino(entries_view(entries@).take(i as int)),
        decreases entries@.len() - i,
    {
        assert(entries_view(entries@).take(i + 1).drop_last() =~= entries_view(entries@).take(i as int));
        if entries[i].ino > m {
            m = entries[i].ino;
        }
        i = i + 1;
    }
    assert(entries_view(entries@).take(entries@.len() as int) =~= entries_view(entries@));
    m.wrapping_add(1)
}

/// What is found on disk at a member's path.
#[derive(Debug, Clone, Copy, PartialEq, Eq, Structural)]
pub enum DiskKind {
    Missing,
    Dir,
    Symlink,
    File,
    Other,
}

/// What becomes of an old member when rebuilding.
#[derive(Debug, Clone, Copy, PartialEq, Eq, Structural)]
pub enum Carry {
    /// Deleted or changed type: left out; a path that still holds
    /// something gets a new member made from disk.
    Drop,
    /// Kept with header and data unchanged (a directory).
    Keep,
    /// Kept with its header; the data becomes the link's target.
    TakeLinkTarget,
    /// Kept with its header; the data becomes the file's content.
    TakeContent,
}

pub open spec fn carry_spec(mode: u32, disk: DiskKind) -> Carry {
    let kind = mode & S_IFMT;
    if kind == S_IFDIR && disk == DiskKind::Dir {
        Carry::Keep
    } else if kind == S_IFLNK && disk == DiskKind::Symlink {
        Carry::TakeLinkTarget
    } else if kind == S_IFREG && disk == DiskKind::File {
        Carry::TakeContent
    } else {
        Carry::Drop
    }
}

/// Decides how a member of the archive being rebuilt is carried into the
/// rebuilt one: only members whose path still holds the same kind of
/// object are kept, with their headers verbatim.
pub fn carry_action(mode: u32, disk: DiskKind) -> (r: Carry)
    ensures
        r == carry_spec(mode, disk),
{
    let kind = mode & S_IFMT;
    if kind == S_IFDIR && disk == DiskKind::Dir {
        Carry::Keep
    } else if kind == S_IFLNK && disk == DiskKind::Symlink {
        Carry::TakeLinkTarget
    } else if kind == S_IFREG && disk == DiskKind::File {
        Carry::TakeContent
    } else {
        Carry::Drop
    }
}

/// A copy of `e` with its data replaced by `data`.
pub fn with_data(e: &CpioEntry, data: Vec<u8>) -> (r: CpioEntry)
    ensures
        r@ == (EntryModel { data: data@, ..e@ }),
{
    CpioEntry {
        name: e.name.clone(),
        mode: e.mode,
        uid: e.uid,
        gid: e.gid,
        nlink: e.nlink,
        mtime: e.mtime,
        ino: e.ino,
        rdev: e.rdev,
        data: data,
        magic_was_crc: e.magic_was_crc,
    }
}

/// An object found in the edited folder.
pub enum DiskNode {
    Dir,
    Symlink(Vec<u8>),
    /// Permission bits and content.
    File(u32, Vec<u8>),
}

pub open spec fn disk_mode(node: DiskNode) -> u32 {
    match node {
        DiskNode::Dir => S_IFDIR | 0o755u32,
        DiskNode::Symlink(_) => S_IFLNK | 0o777u32,
        DiskNode::File(perms, _) => S_IFREG | (perms & 0o7777u32),
    }
}

/// A fresh member for an object that the archive being rebuilt did not hold:
/// root-owned, stamped `now`, directories 0755, links 0777, files with
/// their permission bits.
pub fn disk_entry(name: String, node: DiskNode, ino: u32, now: u32) -> (r: CpioEntry)
    ensures
        r@.name == name@,
        r@.mode == disk_mode(node),
        r@.uid == 0 && r@.gid == 0 && r@.rdev == 0,
        r@.nlink == (if node is Dir { 2u16 } else { 1u16 }),
        r@.mtime == now,
        r@.ino == ino,
        r@.data == (match node {
            DiskNode::Dir => Seq::<u8>::empty(),
            DiskNode::Symlink(t) => t@,
            DiskNode::File(_, c) => c@,
        }),
        !r@.magic_was_crc,
{
    let (mode, nlink, data) = match node {
        DiskNode::Dir => (S_IFDIR | 0o755u32, 2u16, Vec::new()),
        DiskNode::Symlink(t) => (S_IFLNK | 0o777u32, 1u16, t),
        DiskNode::File(perms, c) => (S_IFREG | (perms & 0o7777u32), 1u16, c),
    };
    CpioEntry { name, mode, uid: 0, gid: 0, nlink, mtime: now, ino, rdev: 0, data, magic_was_crc: false }
}

/// A member made from a folder object has that object's kind, and its
/// permission bits are the file's own (0755 for a folder, 0777 for a
/// link): a file read with permissions `perms` keeps `perms & 0o7777`, so
/// an executable stays executable.
pub proof fn lemma_disk_mode_bits(node: DiskNode)
    ensures
        disk_mode(node) & S_IFMT == (match node {
            DiskNode::Dir => S_IFDIR,
            DiskNode::Symlink(_) => S_IFLNK,
            DiskNode::File(_, _) => S_IFREG,
        }),
        disk_mode(node) & 0o7777u32 == (match node {
            DiskNode::Dir => 0o755u32,
            DiskNode::Symlink(_) => 0o777u32,
            DiskNode::File(perms, _) => perms & 0o7777u32,
        }),
{
    match node {
        DiskNode::Dir => {
            assert((0o040000u32 | 0o755u32) & 0o170000u32 == 0o040000u32) by (bit_vector);
            assert((0o040000u32 | 0o755u32) & 0o7777u32 == 0o755u32) by (bit_vector);
        },
        DiskNode::Symlink(_) => {
            assert((0o120000u32 | 0o777u32) & 0o170000u32 == 0o120000u32) by (bit_vector);
            assert((0o120000u32 | 0o777u32) & 0o7777u32 == 0o777u32) by (bit_vector);
        },
        DiskNode::File(perms, _) => {
            assert((0o100000u32 | (perms & 0o7777u32)) & 0o170000u32 == 0o100000u32) by (bit_vector);
            assert((0o100000u32 | (perms & 0o7777u32)) & 0o7777u32 == perms & 0o7777u32) by (bit_vector);
        },
    }
}

/// The member a walk makes for a folder object: `disk_entry`'s result.
pub open spec fn fresh_member(name: Seq<char>, node: DiskNode, ino: u32, now: u32) -> EntryModel {
    EntryModel {
        name: name,
        mode: disk_mode(node),
        uid: 0,
        gid: 0,
        nlink: if node is Dir { 2u16 } else { 1u16 },
        mtime: now,
        ino: ino,
        rdev: 0,
        data: match node {
            DiskNode::Dir => Seq::<u8>::empty(),
            DiskNode::Symlink(t) => t@,
            DiskNode::File(_, c) => c@,
        },
        magic_was_crc: false,
    }
}

/// The path of `name` below the folder path `rel` ("" at the top).
pub open spec fn child_rel_of(rel: Seq<char>, name: Seq<char>) -> Seq<char> {
    if rel.len() == 0 { name } else { rel + seq!['/'] + name }
}

/// How deep below the edited folder a walk goes.
pub const MAX_WALK_DEPTH: usize = 32;

/// Whether a walk may enter a folder at `depth` (the top is 0).
pub fn walk_depth_ok(depth: usize) -> (r: bool)
    ensures
        r == (depth <= MAX_WALK_DEPTH),
{
    depth <= MAX_WALK_DEPTH
}

/// The inode after `ino` (wrapping past the largest).
pub open spec fn next_ino_after(ino: u32) -> u32 {
    if ino == u32::MAX { 0 } else { (ino + 1) as u32 }
}

/// The member for object `name` found in folder `rel` of the edited tree:
/// named `prefix` + its path, numbered with the next inode, which then
/// advances. Also the object's path, for walking into it.
pub fn child_member(prefix: &str, rel: &str, name: &str, node: DiskNode, next_ino: &mut u32, now: u32)
    -> (r: (CpioEntry, String))
    ensures
        r.1@ == child_rel_of(rel@, name@),
        r.0@ == fresh_member(prefix@ + child_rel_of(rel@, name@), node, *old(next_ino), now),
        *final(next_ino) == next_ino_after(*old(next_ino)),
{
    let mut rc = chars_of(rel);
    let nc = chars_of(name);
    if rc.len() > 0 {
        rc.push('/');
    }
    crate::text::push_chars(&mut rc, nc.as_slice());
    assert(rc@ =~= child_rel_of(rel@, name@));
    let rel_child = string_of(rc.as_slice());
    let mut full = chars_of(prefix);
    crate::text::push_chars(&mut full, rc.as_slice());
    let full_name = string_of(full.as_slice());
    assert(full_name@ =~= prefix@ + child_rel_of(rel@, name@));
    let ino = *next_ino;
    let e = disk_entry(full_name, node, ino, now);
    *next_ino = if ino == u32::MAX { 0 } else { ino + 1 };
    assert(e@.data == fresh_member(prefix@ + child_rel_of(rel@, name@), node, ino, now).data);
    assert(e@ == fresh_member(prefix@ + child_rel_of(rel@, name@), node, ino, now));
    (e, rel_child)
}

pub open spec fn named_in(es: Seq<EntryModel>, n: Seq<char>) -> bool {
    exists|i: int| 0 <= i < es.len() && bare(es[i].name) == n
}

/// The members made from disk that join a rebuild: those whose bare names
/// no kept member has.
pub open spec fn new_members(kept: Seq<EntryModel>, disk: Seq<EntryModel>) -> Seq<EntryModel> {
    disk.filter(|d: EntryModel| !named_in(kept, bare(d.name)))
}

fn find_bare(old_members: &[CpioEntry], n: &[char]) -> (r: bool)
    ensures
        r == named_in(entries_view(old_members@), n@),
{
    let mut i: usize = 0;
    while i < old_members.len()
        invariant
            i <= old_members@.len(),
            forall|k: int| 0 <= k < i ==> bare(#[trigger] entries_view(old_members@)[k].name) != n@,
        decreases old_members@.len() - i,
    {
        let cs = chars_of(old_members[i].name.as_str());
        let k = bare_start(cs.as_slice());
        let s = cs.as_slice();
        if chars_eq(&s[k..s.len()], n) {
            assert(bare(entries_view(old_members@)[i as int].name) == n@);
            return true;
        }
        i = i + 1;
    }
    false
}

/// Completes a rebuild: after the carried members come the members made
/// from disk whose bare names no carried member has (new paths, and paths
/// whose old member changed kind or vanished and so was not carried).
/// Returns the members and how many there are, which is the count the
/// rebuild reports (carried plus added).
pub fn merge_new_members(carried: Vec<CpioEntry>, disk: Vec<CpioEntry>) -> (r: (Vec<CpioEntry>, usize))
    ensures
        entries_view(r.0@) == entries_view(carried@) + new_members(entries_view(carried@), entries_view(disk@)),
        r.1 == r.0@.len(),
{
    let n0 = carried.len();
    let mut out = carried;
    let ghost base = entries_view(out@);
    let ghost dv = entries_view(disk@);
    let ghost pred = |d: EntryModel| !named_in(base, bare(d.name));
    let mut i: usize = 0;
    assert(dv.take(0).filter(pred) =~= Seq::<EntryModel>::empty());
    assert(base + dv.take(0).filter(pred) =~= base);
    while i < disk.len()
        invariant
            i <= disk@.len(),
            n0 == base.len(),
            n0 <= out@.len(),
            dv == entries_view(disk@),
            entries_view(out@) == base + dv.take(i as int).filter(pred),
            pred == (|d: EntryModel| !named_in(base, bare(d.name))),
        decreases disk@.len() - i,
    {
        reveal_with_fuel(Seq::<EntryModel>::filter, 1);
        assert(dv.take(i + 1).drop_last() =~= dv.take(i as int));
        let cs = chars_of(disk[i].name.as_str());
        let k = bare_start(cs.as_slice());
        let s = cs.as_slice();
        let known = {
            let all = out.as_slice();
            let head = &all[0..n0];
            assert(entries_view(head@) =~= base) by {
                assert(entries_view(out@).take(n0 as int) =~= base);
            }
            find_bare(head, &s[k..s.len()])
        };
        if !known {
            let e = with_data(&disk[i], disk[i].data.clone());
            let ghost before = entries_view(out@);
            out.push(e);
            assert(entries_view(out@) =~= before.push(e@));
        }
        i = i + 1;
    }
    assert(dv.take(disk@.len() as int) =~= dv);
    let n = out.len();
    (out, n)
}

/// What an old member becomes, given what its path holds now.
pub open spec fn carried_of(e: EntryModel, kind: DiskKind, data: Seq<u8>) -> Option<EntryModel> {
    match carry_spec(e.mode, kind) {
        Carry::Drop => None,
        Carry::Keep => Some(e),
        Carry::TakeLinkTarget => Some(EntryModel { data: data, ..e }),
        Carry::TakeContent => Some(EntryModel { data: data, ..e }),
    }
}

/// The old members carried into the rebuilt archive, in their order.
pub open spec fn carried_members(os: Seq<EntryModel>, obs: Seq<(DiskKind, Seq<u8>)>) -> Seq<EntryModel>
    decreases os.len(),
{
    if os.len() == 0 || obs.len() == 0 {
        seq![]
    } else {
        let init = carried_members(os.drop_last(), obs.drop_last());
        match carried_of(os.last(), obs.last().0, obs.last().1) {
            Some(e) => init.push(e),
            None => init,
        }
    }
}

pub open spec fn observed_view(v: Seq<(DiskKind, Vec<u8>)>) -> Seq<(DiskKind, Seq<u8>)> {
    v.map_values(|o: (DiskKind, Vec<u8>)| (o.0, o.1@))
}

/// The members of a rebuilt archive: the old members, in order, that
/// their path still holds with the same kind (headers verbatim, data as
/// found: `observed[i]` tells what the path of `old_members[i]` holds, with
/// the link target or file content read there), then the members made
/// from disk whose names no carried member has: new paths, and paths
/// whose old member changed kind. Also the member count.
pub fn rebuild_members(old_members: &[CpioEntry], observed: &[(DiskKind, Vec<u8>)], disk: Vec<CpioEntry>)
    -> (r: (Vec<CpioEntry>, usize))
    requires
        observed@.len() == old_members@.len(),
    ensures
        entries_view(r.0@) == carried_members(entries_view(old_members@), observed_view(observed@))
            + new_members(carried_members(entries_view(old_members@), observed_view(observed@)), entries_view(disk@)),
        r.1 == r.0@.len(),
{
    let ghost os = entries_view(old_members@);
    let ghost ov = observed_view(observed@);
    let mut carried: Vec<CpioEntry> = Vec::new();
    let mut i: usize = 0;
    while i < old_members.len()
        invariant
            i <= old_members@.len() == observed@.len(),
            os == entries_view(old_members@),
            ov == observed_view(observed@),
            entries_view(carried@) == carried_members(os.take(i as int), ov.take(i as int)),
        decreases old_members@.len() - i,
    {
        assert(os.take(i + 1).drop_last() =~= os.take(i as int));
        assert(ov.take(i + 1).drop_last() =~= ov.take(i as int));
        assert(os.take(i + 1).last() == old_members@[i as int]@);
        assert(ov.take(i + 1).last() == (observed@[i as int].0, observed@[i as int].1@));
        let ghost before = entries_view(carried@);
        let e = &old_members[i];
        match carry_action(e.mode, observed[i].0) {
            Carry::Drop => {},
            Carry::Keep => {
                let kept = with_data(e, e.data.clone());
                assert(kept@ =~= e@);
                carried.push(kept);
                assert(entries_view(carried@) =~= before.push(e@));
            },
            Carry::TakeLinkTarget => {
                let kept = with_data(e, observed[i].1.clone());
                carried.push(kept);
                assert(entries_view(carried@) =~= before.push(kept@));
            },
            Carry::TakeContent => {
                let kept = with_data(e, observed[i].1.clone());
                carried.push(kept);
                assert(entries_view(carried@) =~= before.push(kept@));
            },
        }
        i = i + 1;
    }
    assert(os.take(old_members@.len() as int) =~= os);
    assert(ov.take(old_members@.len() as int) =~= ov);
    merge_new_members(carried, disk)
}

/// The kind of object a member's mode stands for on disk.
pub open spec fn disk_kind_of(mode: u32) -> DiskKind {
    let kind = mode & S_IFMT;
    if kind == S_IFDIR {
        DiskKind::Dir
    } else if kind == S_IFLNK {
        DiskKind::Symlink
    } else if kind == S_IFREG {
        DiskKind::File
    } else {
        DiskKind::Other
    }
}

proof fn lemma_nothing_new(os: Seq<EntryModel>, disk: Seq<EntryModel>)
    requires
        forall|j: int| 0 <= j < disk.len() ==> named_in(os, bare(#[trigger] disk[j].name)),
    ensures
        new_members(os, disk) == Seq::<EntryModel>::empty(),
    decreases disk.len(),
{
    reveal_with_fuel(Seq::<EntryModel>::filter, 1);
    if disk.len() > 0 {
        assert forall|j: int| 0 <= j < disk.drop_last().len() implies
            named_in(os, bare(#[trigger] disk.drop_last()[j].name)) by {
            assert(disk.drop_last()[j] == disk[j]);
        }
        lemma_nothing_new(os, disk.drop_last());
        assert(named_in(os, bare(disk[disk.len() - 1].name)));
    }
}

proof fn lemma_unchanged_carried(os: Seq<EntryModel>, obs: Seq<(DiskKind, Seq<u8>)>)
    requires
        obs.len() == os.len(),
        forall|i: int| 0 <= i < os.len() ==> disk_kind_of(#[trigger] os[i].mode) != DiskKind::Other,
        forall|i: int| 0 <= i < os.len() ==> #[trigger] obs[i] == (disk_kind_of(os[i].mode), os[i].data),
    ensures
        carried_members(os, obs) == os,
    decreases os.len(),
{
    if os.len() > 0 {
        let init_os = os.drop_last();
        let init_obs = obs.drop_last();
        assert forall|i: int| 0 <= i < init_os.len() implies disk_kind_of(#[trigger] init_os[i].mode) != DiskKind::Other by {
            assert(init_os[i] == os[i]);
        }
        assert forall|i: int| 0 <= i < init_os.len() implies #[trigger] init_obs[i] == (disk_kind_of(init_os[i].mode), init_os[i].data) by {
            assert(init_os[i] == os[i]);
            assert(init_obs[i] == obs[i]);
        }
        lemma_unchanged_carried(init_os, init_obs);
        let e = os.last();
        assert(e == os[os.len() - 1]);
        assert(obs.last() == obs[obs.len() - 1]);
        assert(disk_kind_of(e.mode) != DiskKind::Other);
        assert(carried_of(e, obs.last().0, obs.last().1) == Some(e));
        assert(carried_members(os, obs) =~= init_os.push(e));
        assert(init_os.push(e) =~= os);
    } else {
        assert(carried_members(os, obs) =~= os);
    }
}

/// Rebuilding from a folder that still holds every member as it was (same
/// kind, same link target or content) and nothing else gives back the
/// old members, headers and data, in their order.
pub proof fn lemma_unchanged_rebuild(os: Seq<EntryModel>, obs: Seq<(DiskKind, Seq<u8>)>, disk: Seq<EntryModel>)
    requires
        obs.len() == os.len(),
        forall|i: int| 0 <= i < os.len() ==> disk_kind_of(#[trigger] os[i].mode) != DiskKind::Other,
        forall|i: int| 0 <= i < os.len() ==> #[trigger] obs[i] == (disk_kind_of(os[i].mode), os[i].data),
        forall|j: int| 0 <= j < disk.len() ==> named_in(os, bare(#[trigger] disk[j].name)),
    ensures
        carried_members(os, obs) + new_members(carried_members(os, obs), disk) == os,
{
    lemma_unchanged_carried(os, obs);
    lemma_nothing_new(os, disk);
    assert(os + Seq::<EntryModel>::empty() =~= os);
}

/// A member whose path changed kind on disk is not lost: the old member is
/// left out and the member made from disk for that path joins the rebuild.
pub proof fn lemma_kind_change_rebuilt(os: Seq<EntryModel>, obs: Seq<(DiskKind, Seq<u8>)>, disk: Seq<EntryModel>, j: int)
    requires
        obs.len() == os.len(),
        0 <= j < disk.len(),
        forall|i: int| 0 <= i < os.len() && #[trigger] bare(os[i].name) == bare(disk[j].name)
            ==> carry_spec(os[i].mode, obs[i].0) == Carry::Drop,
    ensures
        new_members(carried_members(os, obs), disk).contains(disk[j]),
{
    lemma_dropped_not_carried(os, obs, bare(disk[j].name));
    let pred = |d: EntryModel| !named_in(carried_members(os, obs), bare(d.name));
    assert(pred(disk[j]));
    disk.lemma_filter_contains(pred, j);
}

proof fn lemma_dropped_not_carried(os: Seq<EntryModel>, obs: Seq<(DiskKind, Seq<u8>)>, n: Seq<char>)
    requires
        obs.len() == os.len(),
        forall|i: int| 0 <= i < os.len() && #[trigger] bare(os[i].name) == n
            ==> carry_spec(os[i].mode, obs[i].0) == Carry::Drop,
    ensures
        !named_in(carried_members(os, obs), n),
    decreases os.len(),
{
    if os.len() > 0 {
        let init_os = os.drop_last();
        let init_obs = obs.drop_last();
        assert forall|i: int| 0 <= i < init_os.len() && #[trigger] bare(init_os[i].name) == n
            implies carry_spec(init_os[i].mode, init_obs[i].0) == Carry::Drop by {
            assert(init_os[i] == os[i]);
            assert(init_obs[i] == obs[i]);
        }
        lemma_dropped_not_carried(init_os, init_obs, n);
        let c0 = carried_members(init_os, init_obs);
        let e = os.last();
        assert(e == os[os.len() - 1]);
        assert(obs.last() == obs[obs.len() - 1]);
        match carried_of(e, obs.last().0, obs.last().1) {
            Some(x) => {
                assert(x.name == e.name);
                assert(bare(e.name) != n);
                assert(carried_members(os, obs) == c0.push(x));
                if named_in(c0.push(x), n) {
                    let k = choose|k: int| 0 <= k < c0.push(x).len() && bare(c0.push(x)[k].name) == n;
                    if k < c0.len() {
                        assert(c0.push(x)[k] == c0[k]);
                    }
                }
            },
            None => {},
        }
    }
}

/// What extracting a member does.
#[derive(Debug)]
pub enum ExtractAction {
    /// The archive root (`.` or empty): the output folder itself.
    Skip,
    /// Create the directory at the bare name.
    Dir(String),
    /// Create a symlink at the bare name pointing at the target text.
    Symlink(String, String),
    /// Write the data to the bare name with these permission bits.
    File(String, u32),
    /// A device node or fifo: skipped with a warning (needs root).
    Special,
}

/// Decides what extracting `e` into a folder does.
pub fn extract_action(e: &CpioEntry) -> (r: ExtractAction)
    ensures
        ({
            let b = bare(e@.name);
            let kind = e@.mode & S_IFMT;
            if b.len() == 0 || b == seq!['.'] {
                r is Skip
            } else if kind == S_IFDIR {
                r matches ExtractAction::Dir(p) && p@ == b
            } else if kind == S_IFLNK {
                r matches ExtractAction::Symlink(p, t) && p@ == b && t@ == lossy_decode(e@.data)
            } else if kind == S_IFREG {
                r matches ExtractAction::File(p, m) && p@ == b && m == e@.mode & 0o7777u32
            } else {
                r is Special
            }
        }),
{
    let cs = chars_of(e.name.as_str());
    let k = bare_start(cs.as_slice());
    let s = cs.as_slice();
    let b = &s[k..s.len()];
    if b.len() == 0 || (b.len() == 1 && b[0] == '.') {
        proof {
            if b@.len() == 1 { assert(b@ =~= seq!['.']); }
        }
        return ExtractAction::Skip;
    }
    assert(b@ != seq!['.']);
    let kind = e.mode & S_IFMT;
    if kind == S_IFDIR {
        ExtractAction::Dir(string_of(b))
    } else if kind == S_IFLNK {
        let t = lossy_string(e.data.as_slice());
        ExtractAction::Symlink(string_of(b), t)
    } else if kind == S_IFREG {
        ExtractAction::File(string_of(b), e.mode & 0o7777u32)
    } else {
        ExtractAction::Special
    }
}

} // verus!
