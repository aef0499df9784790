//! What the command line asks for, as plain values: the reports to read and
//! where to write.
use vstd::prelude::*;
use vstd::string::*;

verus! {

/// One report to read.
#[derive(Debug)]
pub struct SingleReport {
    pub path: String,
    /// Whether the report starts with a header line.
    pub headers: bool,
}

/// Several reports to read, all with a header line or none.
#[derive(Debug)]
pub struct MultipleReports {
    pub paths: Vec<String>,
    pub headers: bool,
}

/// An output path as given, and whether an existing file may be overwritten.
#[derive(Debug)]
pub struct OutputFile {
    pub path: Option<String>,
    pub overwrite: bool,
}

/// Where output goes.
#[derive(Debug)]
pub enum OutputKind {
    File(String),
    Stdout,
}

/// Where output goes, and whether an existing file may be overwritten.
#[derive(Debug)]
pub struct Output {
    pub kind: OutputKind,
    pub overwrite: bool,
}

/// The path `-` stands for the standard output.
pub open spec fn is_dash(p: Seq<char>) -> bool {
    p.len() == 1 && p[0] == '-'
}

impl OutputKind {
    /// No path, or `-`, is the standard output; any other path is a file.
    pub fn from_path(path: Option<String>) -> (r: OutputKind)
        ensures
            match path {
                None => r is Stdout,
                Some(p) => if is_dash(p@) {
                    r is Stdout
                } else {
                    r matches OutputKind::File(f) && f == p
                },
            },
    {
        match path {
            None => OutputKind::Stdout,
            Some(p) => {
                let dash = p.as_str().unicode_len() == 1 && p.as_str().get_char(0) == '-';
                if dash {
                    OutputKind::Stdout
                } else {
                    OutputKind::File(p)
                }
            },
        }
    }
}

impl Output {
    /// The output that a command line's output options name.
    pub fn from_file(file: OutputFile) -> (r: Output)
        ensures
            r.overwrite == file.overwrite,
            match file.path {
                None => r.kind is Stdout,
                Some(p) => if is_dash(p@) {
                    r.kind is Stdout
                } else {
                    r.kind matches OutputKind::File(f) && f == p
                },
            },
    {
        Output { kind: OutputKind::from_path(file.path), overwrite: file.overwrite }
    }
}

} // verus!
