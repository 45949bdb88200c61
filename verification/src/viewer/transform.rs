//! The text that names a dependency of the keyed graph on screen.

use vstd::prelude::*;

use crate::legacy::graph::dependency_graph::DependencyInfo;
use crate::text::{push_char, push_str};

verus! {

/// Whether `s` stands in `t` as a run of consecutive characters.
pub open spec fn is_piece_of(s: Seq<char>, t: Seq<char>) -> bool {
    exists|i: int| 0 <= i && i + s.len() <= t.len() && #[trigger] t.subrange(i, i + s.len()) == s
}

/// `std::path::Path::file_stem`, read as a string: the last component of the
/// path without its extension. What it finds depends on the separators of the
/// machine's paths, so nothing more is claimed than what holds everywhere:
/// the stem is a non-empty piece of the path without a `/`.
#[verifier::external_body]
fn file_stem(path: &str) -> (r: Option<String>)
    ensures
        match r {
            Some(s) => s@.len() > 0 && !s@.contains('/') && is_piece_of(s@, path@),
            None => true,
        },
{
    std::path::Path::new(path).file_stem().and_then(|s| s.to_str()).map(|s| s.to_string())
}

/// The text of a dependency whose path, for a project, has the stem `stem`:
/// a project shows the stem, or its whole path when there is none; a package
/// shows its name, `@` and its version (nothing after `@` without one).
pub open spec fn display_text(info: crate::legacy::graph::InfoView, stem: Option<Seq<char>>) -> Seq<char> {
    if info.is_project {
        match stem {
            Some(s) => s,
            None => info.name,
        }
    } else {
        info.name + seq!['@'] + match info.version {
            Some(v) => v,
            None => Seq::<char>::empty(),
        }
    }
}

/// The text of a dependency, given the stem of a project's path as found by
/// the caller.
pub fn display_text_with_stem(info: &DependencyInfo, stem: Option<String>) -> (r: String)
    ensures
        r@ == display_text(
            info@,
            match stem {
                Some(s) => Some(s@),
                None => None,
            },
        ),
{
    match info {
        DependencyInfo::Project(proj) => match stem {
            Some(s) => s,
            None => proj.path.clone(),
        },
        DependencyInfo::Package(_) => {
            let mut text = String::new();
            push_str(&mut text, info.get_name());
            push_char(&mut text, '@');
            match info.get_version() {
                Some(v) => push_str(&mut text, v.as_str()),
                None => {},
            }
            proof {
                let v = info@;
                let tail = match v.version {
                    Some(x) => x,
                    None => Seq::<char>::empty(),
                };
                assert(text@ =~= v.name + seq!['@'] + tail);
            }
            text
        },
    }
}

/// The text of a dependency: a project shows the stem of its path (its file
/// name without the extension), or its whole path when there is none; a
/// package shows its name, `@` and its version.
pub fn get_display_text(info: &DependencyInfo) -> (r: String)
    ensures
        !info@.is_project ==> r@ == display_text(info@, None),
        info@.is_project ==> r@ == info@.name || (r@.len() > 0 && !r@.contains('/') && is_piece_of(r@, info@.name)),
{
    let stem = match info {
        DependencyInfo::Project(proj) => file_stem(proj.path.as_str()),
        DependencyInfo::Package(_) => None,
    };
    display_text_with_stem(info, stem)
}

} // verus!
