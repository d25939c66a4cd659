use vstd::prelude::*;
use crate::text::{chars_of, string_of, extend_str, lines_of, split_lines};
use crate::download::{stem_ext, stem_ext_exec};
use crate::decimal::eq_ignore_case;
use crate::web::{blank, is_blank, given, opt_view};

verus! {

broadcast use vstd::string::group_string_axioms;

/// A file name whose extension is `etl` in any letter case.
pub open spec fn etl_name(name: Seq<char>) -> bool {
    let ext = stem_ext(name).1;
    ext.len() > 0 && eq_ignore_case(ext.drop_first(), "etl"@)
}

/// Whether a file name has the extension `etl` (any case).
pub fn is_etl_name(name: &str) -> (r: bool)
    ensures
        r == etl_name(name@),
{
    let v = chars_of(name);
    let (_stem, ext) = stem_ext_exec(&v);
    proof {
        reveal_strlit("etl");
    }
    if ext.len() != 4 {
        return false;
    }
    let a = ext[1];
    let b = ext[2];
    let c = ext[3];
    proof {
        assert(ext@.drop_first() =~= seq![a, b, c]);
    }
    (a == 'e' || a == 'E') && (b == 't' || b == 'T') && (c == 'l' || c == 'L')
}

/// The name of a trace's converted copy: `<stem>.pcap`.
pub fn converted_name(file_name: &str) -> (r: String)
    ensures
        r@ == stem_ext(file_name@).0 + ".pcap"@,
{
    let v = chars_of(file_name);
    let (mut stem, _ext) = stem_ext_exec(&v);
    extend_str(&mut stem, ".pcap");
    string_of(&stem)
}

/// What a conversion job works on.
#[derive(Clone, Debug)]
pub enum ConvertInput {
    /// One trace file.
    Single(String),
    /// All traces of a directory.
    Directory(String),
    /// Nothing was given.
    Missing,
}

/// The single file when one is given (not blank), else the directory when
/// one is given, else nothing.
pub fn convert_input(input_dir: Option<&str>, single_file: Option<&str>) -> (r: ConvertInput)
    ensures
        match given(opt_view(single_file)) {
            Some(f) => r matches ConvertInput::Single(s) && s@ == f,
            None => match given(opt_view(input_dir)) {
                Some(d) => r matches ConvertInput::Directory(s) && s@ == d,
                None => r is Missing,
            },
        },
{
    if let Some(f) = single_file {
        if !is_blank(f) {
            return ConvertInput::Single(f.to_owned());
        }
    }
    if let Some(d) = input_dir {
        if !is_blank(d) {
            return ConvertInput::Directory(d.to_owned());
        }
    }
    ConvertInput::Missing
}

/// Where converted files go: the output directory given (not blank), else
/// the folder of the single file (`file_parent`, `.` when it has none), else
/// the input directory, else `.`.
pub fn convert_output_dir(output: Option<&str>, input: &ConvertInput, file_parent: Option<&str>) -> (r:
    String)
    ensures
        r@ == match given(opt_view(output)) {
            Some(o) => o,
            None => match input {
                ConvertInput::Single(_) => match file_parent {
                    Some(p) => p@,
                    None => "."@,
                },
                ConvertInput::Directory(d) => d@,
                ConvertInput::Missing => "."@,
            },
        },
{
    if let Some(o) = output {
        if !is_blank(o) {
            return o.to_owned();
        }
    }
    match input {
        ConvertInput::Single(_) => match file_parent {
            Some(p) => p.to_owned(),
            None => ".".to_owned(),
        },
        ConvertInput::Directory(d) => d.clone(),
        ConvertInput::Missing => ".".to_owned(),
    }
}

/// Why a conversion produced no file: the first line of the error output,
/// else the last line of the standard output, else a fixed message.
pub open spec fn convert_error_spec(stderr: Seq<char>, stdout: Seq<char>) -> Seq<char> {
    if stderr.len() > 0 {
        lines_of(stderr)[0]
    } else if stdout.len() > 0 {
        lines_of(stdout).last()
    } else {
        "No output file created"@
    }
}

proof fn lemma_lines_nonempty(s: Seq<char>)
    requires
        s.len() > 0,
    ensures
        lines_of(s).len() > 0,
{
    crate::text::lemma_split_char_nonempty(s.drop_last(), '\n');
    let r = crate::text::split_char(s.drop_last(), '\n');
    let p = crate::text::split_char(s, '\n');
    if s.last() == '\n' {
        assert(p.len() >= 2);
    } else {
        assert(p.last() == r.last().push(s.last()));
    }
}

/// The reason shown for a conversion that produced no file.
pub fn convert_error(stderr: &str, stdout: &str) -> (r: String)
    ensures
        r@ == convert_error_spec(stderr@, stdout@),
{
    let e = chars_of(stderr);
    if e.len() > 0 {
        let lines = split_lines(&e);
        proof {
            lemma_lines_nonempty(stderr@);
        }
        return string_of(&lines[0]);
    }
    let o = chars_of(stdout);
    if o.len() > 0 {
        let lines = split_lines(&o);
        proof {
            lemma_lines_nonempty(stdout@);
        }
        return string_of(&lines[lines.len() - 1]);
    }
    "No output file created".to_owned()
}

} // verus!
