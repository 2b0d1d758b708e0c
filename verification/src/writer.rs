//! Composing and splicing the changelog document.

use crate::marker::find_first_marker;
use crate::marker::find_last_marker;
use crate::marker::has_marker;
use crate::marker::is_first_marker;
use crate::marker::is_last_marker;
use crate::marker::splice_after;
use crate::marker::spliced;
use vstd::prelude::*;

verus! {

/// How the writer treats the existing changelog document.
pub enum WriterMode {
    /// Discard any existing content; write `header + fragment + footer`.
    Replace,
    /// Splice the fragment right after the first separator marker.
    Prepend,
    /// Splice the fragment right after the last separator marker.
    Append,
}

/// The one error the splicing logic itself can raise: the document holds
/// no separator marker, so there is no anchor to insert at.
#[derive(Debug, PartialEq, Eq, Structural)]
pub enum WriteError {
    MissingSeparator,
}

/// The fixed document header written by replace mode.
pub open spec fn header_text() -> Seq<char> {
    "# Changelog\nAll notable changes to this project will be documented in this file. See [conventional commits](https://www.conventionalcommits.org/) for commit guidelines.\n\n- - -\n"@
}

/// The fixed document footer written by replace mode.
pub open spec fn footer_text() -> Seq<char> {
    "- - -\n\nThis changelog was generated by [cocogitto](https://github.com/oknozor/cocogitto)."@
}

/// The whole document produced by replace mode for a given fragment.
pub open spec fn replaced_text(fragment: Seq<char>) -> Seq<char> {
    header_text() + fragment + footer_text()
}

/// The document header: a title line, an explanatory sentence, and an
/// opening separator marker.
pub fn header() -> (r: String)
    ensures
        r@ == header_text(),
{
    String::from_str(
        "# Changelog\nAll notable changes to this project will be documented in this file. See [conventional commits](https://www.conventionalcommits.org/) for commit guidelines.\n\n- - -\n",
    )
}

/// The document footer: a closing separator marker and an attribution line.
pub fn footer() -> (r: String)
    ensures
        r@ == footer_text(),
{
    String::from_str(
        "- - -\n\nThis changelog was generated by [cocogitto](https://github.com/oknozor/cocogitto).",
    )
}

/// The whole document for replace mode: header, fragment, footer.
pub fn replaced(fragment: &str) -> (r: String)
    ensures
        r@ == replaced_text(fragment@),
{
    let mut out = header();
    out.append(fragment);
    let f = footer();
    out.append(f.as_str());
    out
}

/// The updated document content for one write call.
///
/// Replace mode ignores `content` and composes a whole fresh document.
/// Prepend and append modes splice `fragment` in right after the first,
/// respectively last, separator marker of `content`, and fail with
/// `MissingSeparator` exactly when `content` holds no marker at all.
pub fn updated_changelog(content: &str, fragment: &str, mode: &WriterMode) -> (r: Result<
    String,
    WriteError,
>)
    ensures
        match mode {
            WriterMode::Replace => match r {
                Ok(out) => out@ == replaced_text(fragment@),
                Err(_) => false,
            },
            WriterMode::Prepend => match r {
                Ok(out) => exists|i: int|
                    is_first_marker(content@, i) && out@ == spliced(content@, fragment@, i),
                Err(e) => e == WriteError::MissingSeparator && !has_marker(content@),
            },
            WriterMode::Append => match r {
                Ok(out) => exists|i: int|
                    is_last_marker(content@, i) && out@ == spliced(content@, fragment@, i),
                Err(e) => e == WriteError::MissingSeparator && !has_marker(content@),
            },
        },
        r is Ok <==> (mode is Replace || has_marker(content@)),
{
    match mode {
        WriterMode::Replace => Ok(replaced(fragment)),
        WriterMode::Prepend => match find_first_marker(content) {
            Some(i) => Ok(splice_after(content, fragment, i)),
            None => Err(WriteError::MissingSeparator),
        },
        WriterMode::Append => match find_last_marker(content) {
            Some(i) => Ok(splice_after(content, fragment, i)),
            None => Err(WriteError::MissingSeparator),
        },
    }
}

} // verus!
