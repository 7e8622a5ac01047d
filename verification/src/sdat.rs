//! Block-image transfer lists (`system.transfer.list` + `system.new.dat`),
//! as produced by img2sdat for full OTA packages.
//!
//! The list is read here into primitive block operations; copying the
//! blocks between files is left to the caller. Full lists carry `new`,
//! `zero`, `erase`, and `move`/`stash`/`free` against the output being
//! built. Incremental lists (`bsdiff`, `imgdiff`, stash-sourced moves)
//! need the old image and are refused.
use vstd::prelude::*;
use crate::text::{same_text, chars_of, string_of, lines, lines_of, trim, trimmed, split_char, split_on,
    parse_unsigned, parse_u64, chars_seq, ends_with, has_suffix, strip_all_suffix, without_suffixes, push_text};
use crate::fsconfig::{join_path, join_paths};
use crate::workspace::{parent_of, file_name_of, parent_chars, file_name_chars};

verus! {

/// Size of a block in bytes.
pub const BLOCK: u64 = 4096;

/// Why a range list was refused.
#[derive(Debug, Clone, PartialEq, Eq)]
pub enum RangesetError {
    /// A comma-separated piece is not a decimal number; the piece.
    BadToken(String),
    /// The leading count does not match the number of pairs.
    CountMismatch,
    /// A range ends before it starts.
    Inverted,
}

pub enum RangesetErrorModel {
    BadToken(Seq<char>),
    CountMismatch,
    Inverted,
}

impl View for RangesetError {
    type V = RangesetErrorModel;

    open spec fn view(&self) -> RangesetErrorModel {
        match self {
            RangesetError::BadToken(t) => RangesetErrorModel::BadToken(t@),
            RangesetError::CountMismatch => RangesetErrorModel::CountMismatch,
            RangesetError::Inverted => RangesetErrorModel::Inverted,
        }
    }
}

/// The numbers of the pieces, or the first piece that is not one.
pub open spec fn parse_all(toks: Seq<Seq<char>>) -> Result<Seq<u64>, Seq<char>>
    decreases toks.len(),
{
    if toks.len() == 0 {
        Ok(seq![])
    } else {
        match parse_all(toks.drop_last()) {
            Err(t) => Err(t),
            Ok(ns) => match parse_unsigned(toks.last(), u64::MAX as nat) {
                Some(v) => Ok(ns.push(v as u64)),
                None => Err(toks.last()),
            },
        }
    }
}

/// Pairs `(nums[i], nums[i + 1])`, `i = 1, 3, ...` while both exist.
pub open spec fn pairs_from(nums: Seq<u64>, i: int) -> Result<Seq<(u64, u64)>, RangesetErrorModel>
    decreases nums.len() - i,
{
    if i < 1 || i + 1 >= nums.len() {
        Ok(seq![])
    } else if nums[i + 1] < nums[i] {
        Err(RangesetErrorModel::Inverted)
    } else {
        match pairs_from(nums, i + 2) {
            Err(e) => Err(e),
            Ok(rest) => Ok(seq![(nums[i], nums[i + 1])] + rest),
        }
    }
}

/// A range list "N,s1,e1,...": a count N, then exactly N start/end pairs,
/// ends exclusive. "2,0,3,5,6" is [(0,3), (5,6)].
pub open spec fn rangeset(s: Seq<char>) -> Result<Seq<(u64, u64)>, RangesetErrorModel> {
    match parse_all(split_char(s, ',')) {
        Err(t) => Err(RangesetErrorModel::BadToken(t)),
        Ok(nums) => if nums.len() == 0 || nums.len() != 2 * nums[0] + 1 {
            Err(RangesetErrorModel::CountMismatch)
        } else {
            pairs_from(nums, 1)
        },
    }
}

pub open spec fn rangeset_result_view(r: Result<Vec<(u64, u64)>, RangesetError>) -> Result<Seq<(u64, u64)>, RangesetErrorModel> {
    match r {
        Ok(v) => Ok(v@),
        Err(e) => Err(e@),
    }
}

fn parse_rangeset_chars(s: &[char]) -> (r: Result<Vec<(u64, u64)>, RangesetError>)
    ensures
        rangeset_result_view(r) == rangeset(s@),
{
    let toks = split_on(s, ',');
    let ghost tv = chars_seq(toks@);
    let mut nums: Vec<u64> = Vec::new();
    let mut i: usize = 0;
    assert(tv.take(0) =~= Seq::<Seq<char>>::empty());
    while i < toks.len()
        invariant
            i <= toks@.len(),
            tv == chars_seq(toks@),
            tv == split_char(s@, ','),
            parse_all(tv.take(i as int)) == Ok::<Seq<u64>, Seq<char>>(nums@),
        decreases toks@.len() - i,
    {
        assert(tv.take(i + 1).drop_last() =~= tv.take(i as int));
        assert(tv.take(i + 1).last() == toks@[i as int]@);
        match parse_u64(toks[i].as_slice()) {
            Some(v) => {
                nums.push(v);
            },
            None => {
                proof {
                    assert(parse_all(tv.take(i + 1)) == Err::<Seq<u64>, Seq<char>>(toks@[i as int]@));
                    lemma_parse_all_err(tv, (i + 1) as int);
                }
                return Err(RangesetError::BadToken(string_of(toks[i].as_slice())));
            },
        }
        i = i + 1;
    }
    assert(tv.take(toks@.len() as int) =~= tv);
    if nums.len() == 0 || nums.len() % 2 == 0 || nums[0] != ((nums.len() - 1) / 2) as u64 {
        return Err(RangesetError::CountMismatch);
    }
    assert(rangeset(s@) == pairs_from(nums@, 1));
    let mut out: Vec<(u64, u64)> = Vec::new();
    let mut k: usize = 1;
    while k < nums.len() && k + 1 < nums.len()
        invariant
            1 <= k,
            k <= nums@.len(),
            k % 2 == 1,
            rangeset(s@) == pairs_from(nums@, 1),
            pairs_from(nums@, 1) == match pairs_from(nums@, k as int) {
                Err(e) => Err(e),
                Ok(rest) => Ok(out@ + rest),
            },
        decreases nums@.len() + 2 - k,
    {
        let (a, b) = (nums[k], nums[k + 1]);
        if b < a {
            assert(pairs_from(nums@, k as int) == Err::<Seq<(u64, u64)>, RangesetErrorModel>(RangesetErrorModel::Inverted));
            return Err(RangesetError::Inverted);
        }
        let ghost before = out@;
        out.push((a, b));
        proof {
            match pairs_from(nums@, k + 2) {
                Err(e) => {},
                Ok(rest) => { assert(before + (seq![(a, b)] + rest) =~= out@ + rest); },
            }
        }
        k = k + 2;
    }
    assert(out@ + Seq::<(u64, u64)>::empty() =~= out@);
    Ok(out)
}

proof fn lemma_parse_all_err(tv: Seq<Seq<char>>, k: int)
    requires
        0 <= k <= tv.len(),
        parse_all(tv.take(k)) is Err,
    ensures
        parse_all(tv) == parse_all(tv.take(k)),
    decreases tv.len() - k,
{
    if k < tv.len() {
        assert(tv.take(k + 1).drop_last() =~= tv.take(k));
        lemma_parse_all_err(tv, k + 1);
    } else {
        assert(tv.take(k) =~= tv);
    }
}

/// Parses a range list such as "2,0,3,5,6" into `[(0, 3), (5, 6)]`.
pub fn parse_rangeset(s: &str) -> (r: Result<Vec<(u64, u64)>, RangesetError>)
    ensures
        rangeset_result_view(r) == rangeset(s@),
        r matches Ok(v) ==> ranges_ordered(v@),
{
    let cs = chars_of(s);
    let r = parse_rangeset_chars(cs.as_slice());
    proof {
        if r is Ok { lemma_rangeset_ordered(s@); }
    }
    r
}

/// The lines of a transfer list, each trimmed.
pub open spec fn transfer_lines_of(text: Seq<char>) -> Seq<Seq<char>> {
    lines(text).map_values(|l: Seq<char>| trim(l))
}

/// Splits a transfer list into trimmed lines.
pub fn transfer_lines(text: &str) -> (r: Vec<Vec<char>>)
    ensures
        chars_seq(r@) == transfer_lines_of(text@),
{
    let cs = chars_of(text);
    let raw = lines_of(cs.as_slice());
    let mut out: Vec<Vec<char>> = Vec::new();
    let mut i: usize = 0;
    while i < raw.len()
        invariant
            i <= raw@.len(),
            chars_seq(raw@) == lines(text@),
            chars_seq(out@) == transfer_lines_of(text@).take(i as int),
        decreases raw@.len() - i,
    {
        let t = trimmed(raw[i].as_slice());
        let ghost before = chars_seq(out@);
        out.push(t);
        assert(chars_seq(out@) =~= before.push(t@));
        assert(transfer_lines_of(text@).take(i + 1) =~= transfer_lines_of(text@).take(i as int).push(t@));
        i = i + 1;
    }
    assert(transfer_lines_of(text@).take(raw@.len() as int) =~= transfer_lines_of(text@));
    out
}

/// An operand line that a command needs.
#[derive(Debug, Clone, Copy, PartialEq, Eq, Structural)]
pub enum Operand {
    NewRanges,
    ZeroRanges,
    MoveHash,
    MoveSource,
    MoveDest,
    StashHash,
    StashRanges,
    FreeHash,
}

/// Why a transfer list was refused.
#[derive(Debug, Clone, PartialEq, Eq)]
pub enum TransferError {
    MissingVersion,
    /// Only versions 2 to 4 are read.
    UnsupportedVersion(u64),
    MissingBlockCount,
    MissingStashCount,
    MissingStashEntries,
    /// A command's operand line is missing.
    Missing(Operand),
    /// A range list is malformed; the error and the line.
    Range(RangesetError, String),
    /// A `move` whose source is a stash (hash `-`).
    StashSourcedMove,
    /// `bsdiff`/`imgdiff`: patches against an old image.
    Incremental,
    /// A command this reader does not know; the command.
    UnknownCommand(String),
}

pub enum TransferErrorModel {
    MissingVersion,
    UnsupportedVersion(u64),
    MissingBlockCount,
    MissingStashCount,
    MissingStashEntries,
    Missing(Operand),
    Range(RangesetErrorModel, Seq<char>),
    StashSourcedMove,
    Incremental,
    UnknownCommand(Seq<char>),
}

impl View for TransferError {
    type V = TransferErrorModel;

    open spec fn view(&self) -> TransferErrorModel {
        match self {
            TransferError::MissingVersion => TransferErrorModel::MissingVersion,
            TransferError::UnsupportedVersion(v) => TransferErrorModel::UnsupportedVersion(*v),
            TransferError::MissingBlockCount => TransferErrorModel::MissingBlockCount,
            TransferError::MissingStashCount => TransferErrorModel::MissingStashCount,
            TransferError::MissingStashEntries => TransferErrorModel::MissingStashEntries,
            TransferError::Missing(o) => TransferErrorModel::Missing(*o),
            TransferError::Range(e, l) => TransferErrorModel::Range(e@, l@),
            TransferError::StashSourcedMove => TransferErrorModel::StashSourcedMove,
            TransferError::Incremental => TransferErrorModel::Incremental,
            TransferError::UnknownCommand(c) => TransferErrorModel::UnknownCommand(c@),
        }
    }
}

/// The number on line `i`, if there is such a line and it is one.
pub open spec fn number_line(ls: Seq<Seq<char>>, i: int) -> Option<nat> {
    if 0 <= i < ls.len() { parse_unsigned(ls[i], u64::MAX as nat) } else { None }
}

/// The header of a transfer list: version, image size in blocks, and the
/// line where the commands start. Version 4 adds a fourth line.
pub open spec fn transfer_header(ls: Seq<Seq<char>>) -> Result<(u64, u64, nat), TransferErrorModel> {
    match number_line(ls, 0) {
        None => Err(TransferErrorModel::MissingVersion),
        Some(v) => if !(2 <= v <= 4) {
            Err(TransferErrorModel::UnsupportedVersion(v as u64))
        } else {
            match number_line(ls, 1) {
                None => Err(TransferErrorModel::MissingBlockCount),
                Some(b) => match number_line(ls, 2) {
                    None => Err(TransferErrorModel::MissingStashCount),
                    Some(_) => if v >= 4 {
                        match number_line(ls, 3) {
                            None => Err(TransferErrorModel::MissingStashEntries),
                            Some(_) => Ok((v as u64, b as u64, 4nat)),
                        }
                    } else {
                        Ok((v as u64, b as u64, 3nat))
                    },
                },
            }
        },
    }
}

/// What the header of a transfer list says.
#[derive(Debug, Clone, Copy, PartialEq, Eq, Structural)]
pub struct TransferHeader {
    pub version: u64,
    /// Size of the output image in blocks.
    pub new_blocks: u64,
    /// Index of the first command line.
    pub first_command: usize,
}

fn number_at(ls: &[Vec<char>], i: usize) -> (r: Option<u64>)
    ensures
        r matches Some(v) ==> number_line(chars_seq(ls@), i as int) == Some(v as nat),
        r is None ==> number_line(chars_seq(ls@), i as int) is None,
{
    if i < ls.len() {
        parse_u64(ls[i].as_slice())
    } else {
        None
    }
}

/// Reads the header lines of a transfer list.
pub fn parse_transfer_header(ls: &[Vec<char>]) -> (r: Result<TransferHeader, TransferError>)
    ensures
        match (r, transfer_header(chars_seq(ls@))) {
            (Ok(h), Ok((v, b, n))) => h.version == v && h.new_blocks == b && h.first_command == n,
            (Err(e), Err(m)) => e@ == m,
            _ => false,
        },
{
    let version = match number_at(ls, 0) {
        Some(v) => v,
        None => return Err(TransferError::MissingVersion),
    };
    if !(2 <= version && version <= 4) {
        return Err(TransferError::UnsupportedVersion(version));
    }
    let new_blocks = match number_at(ls, 1) {
        Some(b) => b,
        None => return Err(TransferError::MissingBlockCount),
    };
    if number_at(ls, 2).is_none() {
        return Err(TransferError::MissingStashCount);
    }
    if version >= 4 {
        if number_at(ls, 3).is_none() {
            return Err(TransferError::MissingStashEntries);
        }
        return Ok(TransferHeader { version, new_blocks, first_command: 4 });
    }
    Ok(TransferHeader { version, new_blocks, first_command: 3 })
}

/// A command of a transfer list that changes the output image.
#[derive(Debug, Clone, PartialEq, Eq)]
pub enum TransferCommand {
    /// Copy the next blocks of the data file into these ranges, in order.
    New(Vec<(u64, u64)>),
    /// Fill these ranges with zero bytes.
    Zero(Vec<(u64, u64)>),
    /// Read the output's `src` blocks, then write them over `dst`.
    Move { src: Vec<(u64, u64)>, dst: Vec<(u64, u64)> },
    /// Keep a copy of these output blocks under a hash.
    Stash { hash: String, src: Vec<(u64, u64)> },
    /// Drop the copy kept under a hash.
    Free(String),
}

pub enum CommandModel {
    New(Seq<(u64, u64)>),
    Zero(Seq<(u64, u64)>),
    Move { src: Seq<(u64, u64)>, dst: Seq<(u64, u64)> },
    Stash { hash: Seq<char>, src: Seq<(u64, u64)> },
    Free(Seq<char>),
}

impl View for TransferCommand {
    type V = CommandModel;

    open spec fn view(&self) -> CommandModel {
        match self {
            TransferCommand::New(r) => CommandModel::New(r@),
            TransferCommand::Zero(r) => CommandModel::Zero(r@),
            TransferCommand::Move { src, dst } => CommandModel::Move { src: src@, dst: dst@ },
            TransferCommand::Stash { hash, src } => CommandModel::Stash { hash: hash@, src: src@ },
            TransferCommand::Free(h) => CommandModel::Free(h@),
        }
    }
}

/// The range list on line `k`, which the command needs as operand `what`.
pub open spec fn ranges_line(ls: Seq<Seq<char>>, k: int, what: Operand) -> Result<Seq<(u64, u64)>, TransferErrorModel> {
    if 0 <= k < ls.len() {
        match rangeset(ls[k]) {
            Ok(r) => Ok(r),
            Err(e) => Err(TransferErrorModel::Range(e, ls[k])),
        }
    } else {
        Err(TransferErrorModel::Missing(what))
    }
}

/// The command on line `i` and the line after its operands. Empty lines
/// and `erase` (meaningless on a file) give no command.
pub open spec fn command_at(ls: Seq<Seq<char>>, i: int) -> Result<(Option<CommandModel>, nat), TransferErrorModel>
    recommends
        0 <= i < ls.len(),
{
    let cmd = ls[i];
    let j = i + 1;
    if cmd.len() == 0 {
        Ok((None, j as nat))
    } else if cmd == "new"@ {
        match ranges_line(ls, j, Operand::NewRanges) {
            Ok(r) => Ok((Some(CommandModel::New(r)), (j + 1) as nat)),
            Err(e) => Err(e),
        }
    } else if cmd == "zero"@ {
        match ranges_line(ls, j, Operand::ZeroRanges) {
            Ok(r) => Ok((Some(CommandModel::Zero(r)), (j + 1) as nat)),
            Err(e) => Err(e),
        }
    } else if cmd == "move"@ {
        if j >= ls.len() {
            Err(TransferErrorModel::Missing(Operand::MoveHash))
        } else {
            match ranges_line(ls, j + 1, Operand::MoveSource) {
                Err(e) => Err(e),
                Ok(src) => match ranges_line(ls, j + 2, Operand::MoveDest) {
                    Err(e) => Err(e),
                    Ok(dst) => if ls[j] == "-"@ {
                        Err(TransferErrorModel::StashSourcedMove)
                    } else {
                        Ok((Some(CommandModel::Move { src, dst }), (j + 3) as nat))
                    },
                },
            }
        }
    } else if cmd == "stash"@ {
        if j >= ls.len() {
            Err(TransferErrorModel::Missing(Operand::StashHash))
        } else {
            match ranges_line(ls, j + 1, Operand::StashRanges) {
                Err(e) => Err(e),
                Ok(src) => Ok((Some(CommandModel::Stash { hash: ls[j], src }), (j + 2) as nat)),
            }
        }
    } else if cmd == "free"@ {
        if j >= ls.len() {
            Err(TransferErrorModel::Missing(Operand::FreeHash))
        } else {
            Ok((Some(CommandModel::Free(ls[j])), (j + 1) as nat))
        }
    } else if cmd == "erase"@ {
        Ok((None, if j < ls.len() { (j + 1) as nat } else { j as nat }))
    } else if cmd == "bsdiff"@ || cmd == "imgdiff"@ {
        Err(TransferErrorModel::Incremental)
    } else {
        Err(TransferErrorModel::UnknownCommand(cmd))
    }
}

pub open spec fn step_result_view(r: Result<(Option<TransferCommand>, usize), TransferError>) -> Result<(Option<CommandModel>, nat), TransferErrorModel> {
    match r {
        Ok((Some(c), n)) => Ok((Some(c@), n as nat)),
        Ok((None, n)) => Ok((None, n as nat)),
        Err(e) => Err(e@),
    }
}

fn ranges_at(ls: &[Vec<char>], k: usize, what: Operand) -> (r: Result<Vec<(u64, u64)>, TransferError>)
    ensures
        match (r, ranges_line(chars_seq(ls@), k as int, what)) {
            (Ok(v), Ok(m)) => v@ == m,
            (Err(e), Err(m)) => e@ == m,
            _ => false,
        },
{
    if k >= ls.len() {
        return Err(TransferError::Missing(what));
    }
    assert(chars_seq(ls@)[k as int] == ls@[k as int]@);
    match parse_rangeset_chars(ls[k].as_slice()) {
        Ok(v) => Ok(v),
        Err(e) => Err(TransferError::Range(e, string_of(ls[k].as_slice()))),
    }
}

/// Reads the command on line `i`. Returns the command to carry out, if
/// any, and the index of the line after its operands.
pub fn transfer_step(ls: &[Vec<char>], i: usize) -> (r: Result<(Option<TransferCommand>, usize), TransferError>)
    requires
        i < ls@.len(),
    ensures
        step_result_view(r) == command_at(chars_seq(ls@), i as int),
        r matches Ok((_, n)) ==> i < n <= ls@.len(),
{
    let ghost lsv = chars_seq(ls@);
    let cmd = ls[i].as_slice();
    assert(lsv[i as int] == cmd@);
    let j = i + 1;
    if cmd.len() == 0 {
        return Ok((None, j));
    }
    if same_text(cmd, "new") {
        let r = ranges_at(ls, j, Operand::NewRanges)?;
        return Ok((Some(TransferCommand::New(r)), j + 1));
    }
    if same_text(cmd, "zero") {
        let r = ranges_at(ls, j, Operand::ZeroRanges)?;
        return Ok((Some(TransferCommand::Zero(r)), j + 1));
    }
    if same_text(cmd, "move") {
        if j >= ls.len() {
            return Err(TransferError::Missing(Operand::MoveHash));
        }
        let src = ranges_at(ls, j + 1, Operand::MoveSource)?;
        let dst = ranges_at(ls, j + 2, Operand::MoveDest)?;
        assert(lsv[j as int] == ls@[j as int]@);
        if same_text(ls[j].as_slice(), "-") {
            return Err(TransferError::StashSourcedMove);
        }
        return Ok((Some(TransferCommand::Move { src, dst }), j + 3));
    }
    if same_text(cmd, "stash") {
        if j >= ls.len() {
            return Err(TransferError::Missing(Operand::StashHash));
        }
        let src = ranges_at(ls, j + 1, Operand::StashRanges)?;
        assert(lsv[j as int] == ls@[j as int]@);
        let hash = string_of(ls[j].as_slice());
        return Ok((Some(TransferCommand::Stash { hash, src }), j + 2));
    }
    if same_text(cmd, "free") {
        if j >= ls.len() {
            return Err(TransferError::Missing(Operand::FreeHash));
        }
        assert(lsv[j as int] == ls@[j as int]@);
        return Ok((Some(TransferCommand::Free(string_of(ls[j].as_slice()))), j + 1));
    }
    if same_text(cmd, "erase") {
        return Ok((None, if j < ls.len() { j + 1 } else { j }));
    }
    if same_text(cmd, "bsdiff") || same_text(cmd, "imgdiff") {
        return Err(TransferError::Incremental);
    }
    Err(TransferError::UnknownCommand(string_of(cmd)))
}

/// Every range of a parsed list starts at or before its end.
pub open spec fn ranges_ordered(r: Seq<(u64, u64)>) -> bool {
    forall|k: int| 0 <= k < r.len() ==> (#[trigger] r[k]).0 <= r[k].1
}

proof fn lemma_pairs_ordered(nums: Seq<u64>, i: int)
    requires
        pairs_from(nums, i) is Ok,
    ensures
        ranges_ordered(pairs_from(nums, i)->Ok_0),
    decreases nums.len() - i,
{
    if !(i < 1 || i + 1 >= nums.len()) {
        lemma_pairs_ordered(nums, i + 2);
        let rest = pairs_from(nums, i + 2)->Ok_0;
        let all = seq![(nums[i], nums[i + 1])] + rest;
        assert forall|k: int| 0 <= k < all.len() implies (#[trigger] all[k]).0 <= all[k].1 by {
            if k > 0 { assert(all[k] == rest[k - 1]); }
        }
    }
}

/// A range list that parses has no range ending before it starts.
pub proof fn lemma_rangeset_ordered(s: Seq<char>)
    requires
        rangeset(s) is Ok,
    ensures
        ranges_ordered(rangeset(s)->Ok_0),
{
    let nums = parse_all(split_char(s, ','))->Ok_0;
    lemma_pairs_ordered(nums, 1);
}

/// Blocks covered by one range; an inverted range covers none.
pub open spec fn span(r: (u64, u64)) -> nat {
    if r.0 <= r.1 { (r.1 - r.0) as nat } else { 0 }
}

/// Blocks covered by a range list.
pub open spec fn range_blocks(r: Seq<(u64, u64)>) -> nat
    decreases r.len(),
{
    if r.len() == 0 { 0 } else { range_blocks(r.drop_last()) + span(r.last()) }
}

/// Counts the blocks of a range list.
pub fn count_blocks(r: &[(u64, u64)]) -> (n: u128)
    ensures
        n == range_blocks(r@),
{
    let mut n: u128 = 0;
    let mut i: usize = 0;
    while i < r.len()
        invariant
            i <= r@.len(),
            n == range_blocks(r@.take(i as int)),
            n <= i * (u64::MAX as int),
        decreases r@.len() - i,
    {
        assert(r@.take(i + 1).drop_last() =~= r@.take(i as int));
        let (a, b) = r[i];
        let d: u64 = if a <= b { b - a } else { 0 };
        proof {
            assert(i < usize::MAX);
            assert((i + 1) * (u64::MAX as int) <= (usize::MAX as int) * (u64::MAX as int)) by (nonlinear_arith)
                requires i + 1 <= usize::MAX;
            assert((usize::MAX as int) * (u64::MAX as int) <= (u64::MAX as int) * (u64::MAX as int)) by (nonlinear_arith);
            assert(i * (u64::MAX as int) + u64::MAX == (i + 1) * (u64::MAX as int)) by (nonlinear_arith);
        }
        n = n + d as u128;
        i = i + 1;
    }
    assert(r@.take(r@.len() as int) =~= r@);
    n
}

/// The blocks a command writes, by kind: new, zeroed, moved (a move
/// writes its destination ranges).
pub open spec fn command_counts(c: CommandModel) -> (nat, nat, nat) {
    match c {
        CommandModel::New(r) => (range_blocks(r), 0, 0),
        CommandModel::Zero(r) => (0, range_blocks(r), 0),
        CommandModel::Move { src, dst } => (0, 0, range_blocks(dst)),
        _ => (0, 0, 0),
    }
}

/// `a + b`, held at the largest `u128`.
pub open spec fn sat_add(a: u128, b: nat) -> u128 {
    if a + b > u128::MAX { u128::MAX } else { (a + b) as u128 }
}

/// Adds a command's blocks to the running counts of new, zeroed and moved
/// blocks.
pub fn tally(stats: (u128, u128, u128), c: &TransferCommand) -> (r: (u128, u128, u128))
    ensures
        r == (sat_add(stats.0, command_counts(c@).0), sat_add(stats.1, command_counts(c@).1),
            sat_add(stats.2, command_counts(c@).2)),
{
    match c {
        TransferCommand::New(r) => (stats.0.saturating_add(count_blocks(r.as_slice())), stats.1, stats.2),
        TransferCommand::Zero(r) => (stats.0, stats.1.saturating_add(count_blocks(r.as_slice())), stats.2),
        TransferCommand::Move { src, dst } => (stats.0, stats.1, stats.2.saturating_add(count_blocks(dst.as_slice()))),
        _ => stats,
    }
}

/// Writes of a `move` over the destination ranges from `i` on, `off`
/// source blocks already used out of `have`: (first block, offset into the
/// source in blocks, block count) for each range that still fits, and
/// whether all of them did.
pub open spec fn move_writes_from(dst: Seq<(u64, u64)>, i: int, have: nat, off: nat) -> (Seq<(u64, u128, u64)>, bool)
    decreases dst.len() - i,
{
    if i < 0 || i >= dst.len() {
        (seq![], true)
    } else {
        let n = span(dst[i]);
        if off + n > have {
            (seq![], false)
        } else {
            let rest = move_writes_from(dst, i + 1, have, off + n);
            (seq![(dst[i].0, off as u128, n as u64)] + rest.0, rest.1)
        }
    }
}

/// Plans a `move`: the source is read whole first, then laid over the
/// destination ranges in order. Stops at the first range that would read
/// past the source; the flag says whether all fitted.
pub fn move_writes(src: &[(u64, u64)], dst: &[(u64, u64)]) -> (r: (Vec<(u64, u128, u64)>, bool))
    ensures
        (r.0@, r.1) == move_writes_from(dst@, 0, range_blocks(src@), 0),
{
    let have = count_blocks(src);
    let mut out: Vec<(u64, u128, u64)> = Vec::new();
    let mut off: u128 = 0;
    let mut i: usize = 0;
    while i < dst.len()
        invariant
            i <= dst@.len(),
            have == range_blocks(src@),
            off <= have,
            move_writes_from(dst@, 0, have as nat, 0) == ({
                let rest = move_writes_from(dst@, i as int, have as nat, off as nat);
                (out@ + rest.0, rest.1)
            }),
        decreases dst@.len() - i,
    {
        let (a, b) = dst[i];
        let n: u64 = if a <= b { b - a } else { 0 };
        if n as u128 > have - off {
            assert(out@ + Seq::<(u64, u128, u64)>::empty() =~= out@);
            return (out, false);
        }
        let ghost before = out@;
        out.push((a, off, n));
        proof {
            let rest = move_writes_from(dst@, i + 1, have as nat, (off + n) as nat);
            assert(before + (seq![(a, off, n)] + rest.0) =~= out@ + rest.0);
        }
        off = off + n as u128;
        i = i + 1;
    }
    assert(out@ + Seq::<(u64, u128, u64)>::empty() =~= out@);
    (out, true)
}


// ---- locating the transfer list ----

/// The name prefix a dat file shares with its transfer list: the name
/// without ".new.dat", or else without its trailing ".dat"s and dots.
pub open spec fn dat_prefix(name: Seq<char>) -> Seq<char> {
    if ends_with(name, ".new.dat"@) {
        name.take(name.len() - 8)
    } else {
        strip_all_suffix(strip_all_suffix(name, ".dat"@), "."@)
    }
}

/// Where the transfer list of a dat file lies: beside it, named after its
/// prefix.
pub open spec fn transfer_list_of(dat: Seq<char>) -> Seq<char> {
    join_path(parent_of(dat), dat_prefix(file_name_of(dat)) + ".transfer.list"@)
}

/// The path of the transfer list that goes with a dat file.
pub fn transfer_list_path(dat: &str) -> (r: String)
    ensures
        r@ == transfer_list_of(dat@),
{
    let d = chars_of(dat);
    let parent = parent_chars(d.as_slice());
    let name = file_name_chars(d.as_slice());
    let suf = chars_of(".new.dat");
    proof { reveal_strlit(".new.dat"); }
    let mut prefix: Vec<char> = if has_suffix(name.as_slice(), suf.as_slice()) {
        let n = name.len() - 8;
        assert(name@.subrange(0, n as int) =~= name@.take(n as int));
        vstd::slice::slice_to_vec(&name.as_slice()[0..n])
    } else {
        let dat_suf = chars_of(".dat");
        let dot = chars_of(".");
        let a = without_suffixes(name.as_slice(), dat_suf.as_slice());
        without_suffixes(a.as_slice(), dot.as_slice())
    };
    push_text(&mut prefix, ".transfer.list");
    let ps = string_of(parent.as_slice());
    let ns = string_of(prefix.as_slice());
    join_paths(ps.as_str(), ns.as_str())
}

} // verus!
