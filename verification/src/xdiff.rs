//! Three-way merge of file contents, line by line.
use vstd::prelude::*;

verus! {

/// How conflicting regions are rendered.
#[derive(Debug, Clone, Copy, PartialEq, Eq, Structural)]
pub enum ConflictStyle {
    /// Our lines and their lines.
    Merge,
    /// Our lines, the original lines and their lines.
    Diff3,
}

/// What the line-based three-way merge of `diffy` gives for the original `base` and the
/// two versions `ours` and `theirs`: the merged text, or the text with conflict markers.
pub uninterp spec fn spec_merge_bytes(diff3: bool, base: Seq<u8>, ours: Seq<u8>, theirs: Seq<u8>) -> Result<Seq<u8>, Seq<u8>>;

/// The views of the bytes of a result.
pub open spec fn result_view(r: Result<Vec<u8>, Vec<u8>>) -> Result<Seq<u8>, Seq<u8>> {
    match r {
        Ok(v) => Ok(v@),
        Err(v) => Err(v@),
    }
}

/// Calls `diffy::MergeOptions::merge_bytes` with the given conflict style; the result is
/// whatever that function gives for these arguments, which nothing here states further.
#[verifier::external_body]
fn diffy_merge_bytes(diff3: bool, base: &[u8], ours: &[u8], theirs: &[u8]) -> (r: Result<Vec<u8>, Vec<u8>>)
    ensures
        result_view(r) == spec_merge_bytes(diff3, base@, ours@, theirs@),
{
    let style = if diff3 { diffy::ConflictStyle::Diff3 } else { diffy::ConflictStyle::Merge };
    diffy::MergeOptions::new().set_conflict_style(style).merge_bytes(base, ours, theirs)
}

/// The three-way merge of file contents: `Ok` with the merged contents, or `Err` with the
/// contents holding conflict markers.
pub fn merge(style: ConflictStyle, base: &[u8], ours: &[u8], theirs: &[u8]) -> (r: Result<Vec<u8>, Vec<u8>>)
    ensures
        result_view(r) == spec_merge_bytes(style == ConflictStyle::Diff3, base@, ours@, theirs@),
{
    let diff3 = match style {
        ConflictStyle::Merge => false,
        ConflictStyle::Diff3 => true,
    };
    diffy_merge_bytes(diff3, base, ours, theirs)
}

} // verus!
