//! Unpacking a ROM archive into a workspace: which tool a file is handed
//! to, chosen by its extension.
use vstd::prelude::*;
use crate::text::{chars_of, string_of, chars_seq, extension_of, same_text, push_text, push_chars,
    texts};
use crate::paths::path_parts;
use crate::workspace::{stem_of, stem_chars};

verus! {

/// A tool run: the program and its arguments.
#[derive(Debug, Clone, PartialEq, Eq)]
pub struct ToolCommand {
    pub program: String,
    pub args: Vec<String>,
}

/// Why a file cannot be unpacked.
#[derive(Debug, Clone, PartialEq, Eq)]
pub enum UnpackError {
    /// No unpacker for this extension; the extension (empty when none).
    UnsupportedExtension(String),
}

/// `Path::file_name`: the last component, none for a path without one or
/// ending in "..".
pub open spec fn name_of_path(p: Seq<char>) -> Option<Seq<char>> {
    let ps = path_parts(p);
    if ps.len() == 0 || ps.last() == ".."@ { None } else { Some(ps.last()) }
}

/// The extension of a file's name, empty when it has none.
pub open spec fn file_ext(p: Seq<char>) -> Seq<char> {
    match name_of_path(p) {
        Some(n) => match extension_of(n) {
            Some(e) => e,
            None => seq![],
        },
        None => seq![],
    }
}

/// `Path::file_stem` of a file name.
pub open spec fn name_stem(n: Seq<char>) -> Seq<char> {
    if n == ".."@ { n } else { stem_of(n) }
}

pub open spec fn tar_ext(e: Seq<char>) -> bool {
    e == "tar"@ || e == "md5"@ || e == "tgz"@ || e == "gz"@ || e == "xz"@ || e == "zst"@ || e == "bzip2"@
        || e == "bz2"@
}

/// The tool and arguments that unpack `file` into `ws`, or the extension
/// that has none. `tar -xf` detects compression by itself.
pub open spec fn unpack_command_of(file: Seq<char>, ws: Seq<char>) -> Result<(Seq<char>, Seq<Seq<char>>), Seq<char>> {
    let e = file_ext(file);
    if e == "zip"@ || e == "jar"@ {
        Ok(("unzip"@, seq!["-o"@, file, "-d"@, ws]))
    } else if tar_ext(e) {
        Ok(("tar"@, seq!["-xf"@, file, "-C"@, ws]))
    } else if e == "7z"@ {
        Ok(("7z"@, seq!["x"@, file, "-o"@ + ws]))
    } else if e == "lz4"@ {
        Ok(("lz4"@, seq!["-d"@, file, ws + "/extracted.img"@]))
    } else if e == "br"@ {
        Ok(("brotli"@, seq!["-d"@, file, "-o"@, ws + seq!['/'] + name_stem(name_of_path(file)->Some_0)]))
    } else {
        Err(e)
    }
}

fn name_chars(p: &str) -> (r: Option<Vec<char>>)
    ensures
        match (r, name_of_path(p@)) {
            (Some(a), Some(b)) => a@ == b,
            (None, None) => true,
            _ => false,
        },
{
    let c = chars_of(p);
    let ps = crate::paths::parts_of_chars(c.as_slice());
    if ps.len() == 0 {
        return None;
    }
    let last = &ps[ps.len() - 1];
    assert(chars_seq(ps@).last() == last@);
    if same_text(last.as_slice(), "..") {
        return None;
    }
    Some(vstd::slice::slice_to_vec(last.as_slice()))
}

fn ext_chars(name: &[char]) -> (r: Vec<char>)
    ensures
        r@ == (match extension_of(name@) {
            Some(e) => e,
            None => seq![],
        }),
{
    if same_text(name, "..") {
        return Vec::new();
    }
    match crate::text::rfind_char(name, '.') {
        None => Vec::new(),
        Some(i) => {
            if i == 0 {
                return Vec::new();
            }
            let n = name.len();
            assert(name@.subrange(i + 1, n as int) =~= name@.skip(i + 1));
            vstd::slice::slice_to_vec(&name[i + 1..n])
        },
    }
}

fn owned(items: Vec<&str>) -> (r: Vec<String>)
    ensures
        texts(r@) == items@.map_values(|s: &str| s@),
{
    let mut out: Vec<String> = Vec::new();
    let mut i: usize = 0;
    while i < items.len()
        invariant
            i <= items@.len(),
            texts(out@) == items@.map_values(|s: &str| s@).take(i as int),
        decreases items@.len() - i,
    {
        let ghost before = texts(out@);
        let s = items[i].to_owned();
        out.push(s);
        assert(texts(out@) =~= before.push(items@[i as int]@));
        assert(items@.map_values(|s: &str| s@).take(i + 1)
            =~= items@.map_values(|s: &str| s@).take(i as int).push(items@[i as int]@));
        i = i + 1;
    }
    assert(items@.map_values(|s: &str| s@).take(items@.len() as int) =~= items@.map_values(|s: &str| s@));
    out
}

/// The unpacking command for a ROM file.
pub fn unpack_command(file: &str, ws: &str) -> (r: Result<ToolCommand, UnpackError>)
    ensures
        match (r, unpack_command_of(file@, ws@)) {
            (Ok(c), Ok((p, a))) => c.program@ == p && texts(c.args@) == a,
            (Err(UnpackError::UnsupportedExtension(x)), Err(e)) => x@ == e,
            _ => false,
        },
{
    let name = name_chars(file);
    let e: Vec<char> = match &name {
        Some(n) => ext_chars(n.as_slice()),
        None => Vec::new(),
    };
    let es = e.as_slice();
    proof {
        reveal_strlit("zip");
        reveal_strlit("jar");
    }
    if same_text(es, "zip") || same_text(es, "jar") {
        let mut v: Vec<&str> = Vec::new();
        v.push("-o");
        v.push(file);
        v.push("-d");
        v.push(ws);
        let args = owned(v);
        assert(texts(args@) =~= seq!["-o"@, file@, "-d"@, ws@]);
        return Ok(ToolCommand { program: "unzip".to_owned(), args });
    }
    if same_text(es, "tar") || same_text(es, "md5") || same_text(es, "tgz") || same_text(es, "gz")
        || same_text(es, "xz") || same_text(es, "zst") || same_text(es, "bzip2") || same_text(es, "bz2") {
        let mut v: Vec<&str> = Vec::new();
        v.push("-xf");
        v.push(file);
        v.push("-C");
        v.push(ws);
        let args = owned(v);
        assert(texts(args@) =~= seq!["-xf"@, file@, "-C"@, ws@]);
        return Ok(ToolCommand { program: "tar".to_owned(), args });
    }
    if same_text(es, "7z") {
        let mut o: Vec<char> = Vec::new();
        push_text(&mut o, "-o");
        push_text(&mut o, ws);
        let mut args: Vec<String> = Vec::new();
        args.push("x".to_owned());
        args.push(file.to_owned());
        args.push(string_of(o.as_slice()));
        assert(texts(args@) =~= seq!["x"@, file@, "-o"@ + ws@]);
        return Ok(ToolCommand { program: "7z".to_owned(), args });
    }
    if same_text(es, "lz4") {
        let mut o: Vec<char> = Vec::new();
        push_text(&mut o, ws);
        push_text(&mut o, "/extracted.img");
        let mut args: Vec<String> = Vec::new();
        args.push("-d".to_owned());
        args.push(file.to_owned());
        args.push(string_of(o.as_slice()));
        assert(texts(args@) =~= seq!["-d"@, file@, ws@ + "/extracted.img"@]);
        return Ok(ToolCommand { program: "lz4".to_owned(), args });
    }
    if same_text(es, "br") {
        match &name {
            Some(n) => {
                let stem = if same_text(n.as_slice(), "..") {
                    vstd::slice::slice_to_vec(n.as_slice())
                } else {
                    stem_chars(n.as_slice())
                };
                assert(n@ == name_of_path(file@)->Some_0);
                assert(stem@ == name_stem(n@));
                let mut o: Vec<char> = Vec::new();
                push_text(&mut o, ws);
                o.push('/');
                push_chars(&mut o, stem.as_slice());
                assert(o@ =~= ws@ + seq!['/'] + stem@);
                let mut args: Vec<String> = Vec::new();
                args.push("-d".to_owned());
                args.push(file.to_owned());
                args.push("-o".to_owned());
                args.push(string_of(o.as_slice()));
                assert(texts(args@) =~= seq!["-d"@, file@, "-o"@, ws@ + seq!['/'] + name_stem(name_of_path(file@)->Some_0)]);
                return Ok(ToolCommand { program: "brotli".to_owned(), args });
            },
            None => {
                proof { reveal_strlit("br"); }
                assert(false);
            },
        }
    }
    Err(UnpackError::UnsupportedExtension(string_of(es)))
}

} // verus!
