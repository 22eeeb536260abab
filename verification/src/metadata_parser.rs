//! The metadata of a shared file: its name, how many chunks it has, and how
//! far a search for it floods the network.

use vstd::prelude::*;

use crate::text::{
    chars_of, is_white_space, lemma_trim_is_stretch, parse_unsigned, parse_unsigned_chars,
    string_of, trim, trim_chars,
};

verus! {

/// Reads the metadata file (a `.p2p` file) at `metadata_file_path`.
pub struct MetadataParser {
    pub metadata_file_path: String,
}

/// Why a metadata file could not be read.
#[derive(Debug, Clone, Copy, PartialEq, Eq, Structural)]
pub enum MetadataError {
    /// The second line is not a number of chunks (0 to 255).
    BadChunkCount,
    /// The third line is not a time to live (0 to 2^32 - 1).
    BadTtl,
}

/// The views of the lines of a file; `None` stands for a line that could not be read.
pub open spec fn line_views(lines: Seq<Option<String>>) -> Seq<Option<Seq<char>>> {
    lines.map_values(|o: Option<String>| match o {
        Some(s) => Some(s@),
        None => None,
    })
}

/// The number written on line `i`, trimmed, if that line exists and could be
/// read; `Some(0)` where there is no such line.
pub open spec fn metadata_number(lines: Seq<Option<Seq<char>>>, i: int, max: nat) -> Option<nat> {
    if i < lines.len() && lines[i] is Some {
        parse_unsigned(trim(lines[i]->0), max)
    } else {
        Some(0)
    }
}

/// The metadata that the lines of a metadata file give: the first line,
/// trimmed, is the file name; the second the number of chunks; the third the
/// time to live. Later lines are ignored.
pub open spec fn metadata_of(lines: Seq<Option<Seq<char>>>) -> Result<
    (Seq<char>, nat, nat),
    MetadataError,
> {
    let name = if lines.len() > 0 && lines[0] is Some {
        trim(lines[0]->0)
    } else {
        Seq::<char>::empty()
    };
    match metadata_number(lines, 1, 255) {
        None => Err(MetadataError::BadChunkCount),
        Some(c) => match metadata_number(lines, 2, u32::MAX as nat) {
            None => Err(MetadataError::BadTtl),
            Some(t) => Ok((name, c, t)),
        },
    }
}

impl MetadataParser {
    /// A parser for the metadata file at `file_path`.
    pub fn new(file_path: &str) -> (r: MetadataParser)
        ensures
            r.metadata_file_path@ == file_path@,
    {
        let cs = chars_of(file_path);
        MetadataParser { metadata_file_path: string_of(cs.as_slice()) }
    }

    /// The file name, number of chunks and time to live written in the lines
    /// of the metadata file. A second line that is not a number of chunks, or
    /// a third that is not a time to live, makes the file unusable: the error
    /// says which, and nothing is returned for it.
    pub fn parse(&self, lines: &Vec<Option<String>>) -> (r: Result<(String, u8, u32), MetadataError>)
        ensures
            match (r, metadata_of(line_views(lines@))) {
                (Ok((name, chunks, ttl)), Ok((n, c, t))) => name@ == n && chunks == c && ttl == t,
                (Err(e), Err(f)) => e == f,
                _ => false,
            },
            r matches Ok((name, _, _)) ==> if lines@.len() > 0 && lines@[0] is Some {
                name@ == trim(lines@[0]->0@)
            } else {
                name@.len() == 0
            },
    {
        let ghost ls = line_views(lines@);
        let mut file_name = String::new();
        if lines.len() > 0 {
            match &lines[0] {
                Some(l) => {
                    let cs = chars_of(l.as_str());
                    let t = trim_chars(cs.as_slice());
                    file_name = string_of(t.as_slice());
                },
                None => {},
            }
        }
        let mut chunks: u8 = 0;
        if lines.len() > 1 {
            match &lines[1] {
                Some(l) => {
                    let cs = chars_of(l.as_str());
                    let t = trim_chars(cs.as_slice());
                    match parse_unsigned_chars(t.as_slice(), 255) {
                        Some(v) => {
                            chunks = v as u8;
                        },
                        None => {
                            return Err(MetadataError::BadChunkCount);
                        },
                    }
                },
                None => {},
            }
        }
        let mut ttl: u32 = 0;
        if lines.len() > 2 {
            match &lines[2] {
                Some(l) => {
                    let cs = chars_of(l.as_str());
                    let t = trim_chars(cs.as_slice());
                    match parse_unsigned_chars(t.as_slice(), 0xffff_ffff) {
                        Some(v) => {
                            ttl = v as u32;
                        },
                        None => {
                            return Err(MetadataError::BadTtl);
                        },
                    }
                },
                None => {},
            }
        }
        Ok((file_name, chunks, ttl))
    }
}

} // verus!

verus! {

/// The file name is the whole first line with only the whitespace at its two
/// ends taken off: it is a stretch of the first line, everything before and
/// after it is whitespace, and it neither starts nor ends with whitespace.
pub proof fn lemma_metadata_name_is_trimmed_line(lines: Seq<Option<Seq<char>>>)
    requires
        lines.len() > 0,
        lines[0] is Some,
        metadata_of(lines) is Ok,
    ensures
        metadata_of(lines) matches Ok((name, _, _)) && exists|a: int, b: int|
            0 <= a <= b <= lines[0]->0.len() && name == lines[0]->0.subrange(a, b) && (forall|i: int|
                0 <= i < a ==> is_white_space(#[trigger] lines[0]->0[i])) && (forall|i: int|
                b <= i < lines[0]->0.len() ==> is_white_space(#[trigger] lines[0]->0[i])) && (
            name.len() > 0 ==> !is_white_space(name[0]) && !is_white_space(name.last())),
{
    lemma_trim_is_stretch(lines[0]->0);
}

} // verus!
