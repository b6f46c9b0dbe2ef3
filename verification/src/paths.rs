//! Paths of the engine's data files.
use vstd::prelude::*;
use std::path::Path;
use crate::text::{str_chars, string_from_chars};

verus! {

/// `std::path::Path`, carried as an opaque value.
#[verifier::external_type_specification]
#[verifier::external_body]
pub struct ExPath(Path);

/// Calls `Path::to_string_lossy` (and takes ownership of the text): the
/// path as text, invalid Unicode replaced. The text depends on the
/// platform's path encoding, so nothing is stated of it.
#[verifier::external_body]
fn path_text(path: &Path) -> String {
    path.to_string_lossy().into_owned()
}

/// A text with each backslash replaced by a forward slash.
pub open spec fn forward_slashes(s: Seq<char>) -> Seq<char> {
    s.map_values(|c: char| if c == '\\' { '/' } else { c })
}

/// A text with each backslash replaced by a forward slash.
pub fn with_forward_slashes(s: &str) -> (r: String)
    ensures
        r@ == forward_slashes(s@),
{
    let cs = str_chars(s);
    let mut out: Vec<char> = Vec::new();
    let mut i: usize = 0;
    while i < cs.len()
        invariant
            i <= cs.len(),
            cs@ == s@,
            out@ == forward_slashes(cs@.take(i as int)),
        decreases cs.len() - i,
    {
        let c = cs[i];
        out.push(if c == '\\' { '/' } else { c });
        assert(forward_slashes(cs@.take(i + 1)) =~= forward_slashes(cs@.take(i as int)).push(if c == '\\' { '/' } else { c }));
        i = i + 1;
    }
    assert(cs@.take(cs.len() as int) =~= cs@);
    string_from_chars(&out)
}

/// The tablebase directory as text for the prober, with forward slashes
/// (the prober mishandles backslashes and drive letters).
pub fn syzygy_path_string(path: &Path) -> (r: String)
    ensures
        forall|i: int| 0 <= i < r@.len() ==> #[trigger] r@[i] != '\\',
{
    let text = path_text(path);
    with_forward_slashes(text.as_str())
}

} // verus!
