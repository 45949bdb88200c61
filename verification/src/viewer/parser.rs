//! The readers of dependency files, chosen by the name of the file.

use vstd::prelude::*;

use crate::text::{ends_with, is_suffix_of};

verus! {

/// The readers of dependency files.
#[derive(Debug, Clone, Copy, PartialEq, Eq, Structural)]
pub enum SupportedParser {
    /// Reads `nuget.dgspec.json` files.
    Dgspec,
    /// Reads `project.assets.json` files.
    ProjectAssets,
}

/// The file name endings that a reader accepts.
pub open spec fn parser_extensions(p: SupportedParser) -> Seq<Seq<char>> {
    match p {
        SupportedParser::Dgspec => seq!["nuget.dgspec.json"@],
        SupportedParser::ProjectAssets => seq!["project.assets.json"@],
    }
}

/// Whether a reader accepts a file of this name.
pub open spec fn supports(p: SupportedParser, filename: Seq<char>) -> bool {
    exists|i: int| 0 <= i < parser_extensions(p).len() && is_suffix_of(#[trigger] parser_extensions(p)[i], filename)
}

/// The reader for a file of this name: the first of all readers that accepts
/// it.
pub open spec fn parser_for_name(filename: Seq<char>) -> Option<SupportedParser> {
    if supports(SupportedParser::Dgspec, filename) {
        Some(SupportedParser::Dgspec)
    } else if supports(SupportedParser::ProjectAssets, filename) {
        Some(SupportedParser::ProjectAssets)
    } else {
        None
    }
}

impl SupportedParser {
    /// Returns all supported parsers
    pub fn all() -> (r: Vec<Self>)
        ensures
            r@ == seq![SupportedParser::Dgspec, SupportedParser::ProjectAssets],
    {
        let mut r = Vec::new();
        r.push(SupportedParser::Dgspec);
        r.push(SupportedParser::ProjectAssets);
        r
    }

    /// Returns supported extensions for this parser
    pub fn extensions(&self) -> (r: Vec<&'static str>)
        ensures
            r@.map_values(|s: &str| s@) == parser_extensions(*self),
    {
        let mut r: Vec<&'static str> = Vec::new();
        match self {
            SupportedParser::Dgspec => r.push("nuget.dgspec.json"),
            SupportedParser::ProjectAssets => r.push("project.assets.json"),
        }
        proof {
            assert(r@.map_values(|s: &str| s@) =~= parser_extensions(*self));
        }
        r
    }

    /// Returns true if this parser supports the file
    pub fn does_support_extension(&self, filename: &str) -> (r: bool)
        ensures
            r == supports(*self, filename@),
    {
        let exts = self.extensions();
        let n = exts.len();
        for i in 0..n
            invariant
                n == exts@.len(),
                exts@.map_values(|s: &str| s@) == parser_extensions(*self),
                forall|k: int| 0 <= k < i ==> !is_suffix_of(#[trigger] parser_extensions(*self)[k], filename@),
        {
            proof {
                assert(exts@.map_values(|s: &str| s@)[i as int] == exts@[i as int]@);
            }
            if ends_with(filename, exts[i]) {
                return true;
            }
        }
        false
    }
}

/// The first of all readers that accepts a file of this name, or the message
/// that the file type is not supported.
pub fn select_parser(filename: &str) -> (r: Result<SupportedParser, String>)
    ensures
        match parser_for_name(filename@) {
            Some(p) => r matches Ok(q) && q == p,
            None => r matches Err(m) && m@ == "Unsupported file type"@,
        },
{
    let all = SupportedParser::all();
    let n = all.len();
    for i in 0..n
        invariant
            n == all@.len(),
            all@ == seq![SupportedParser::Dgspec, SupportedParser::ProjectAssets],
            forall|k: int| 0 <= k < i ==> !supports(#[trigger] all@[k], filename@),
    {
        if all[i].does_support_extension(filename) {
            return Ok(all[i]);
        }
    }
    proof {
        assert(!supports(all@[0], filename@));
        assert(!supports(all@[1], filename@));
    }
    Err("Unsupported file type".to_owned())
}

} // verus!
