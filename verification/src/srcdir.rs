//! Which source directory a cloud build uploads.

use vstd::prelude::*;
use vstd::string::*;
use crate::path::{has_parent, parent, parent_path};
use crate::text::{chars_of, find_char, position_of, same_text, string_of, trim_range, trimmed};

verus! {

/// One of the lines of `s` from `from` on is `text`, apart from white space
/// around it.
pub open spec fn has_line(s: Seq<char>, from: int, text: Seq<char>) -> bool
    decreases s.len() - from,
{
    let end = position_of(s, '\n', from);
    if from < 0 || from > s.len() || end < from {
        false
    } else {
        trimmed(s.subrange(from, end)) == text || (end < s.len() && has_line(s, end + 1, text))
    }
}

/// A manifest that declares a workspace, and not a single member of one.
pub open spec fn declares_workspace(manifest: Seq<char>) -> bool {
    has_line(manifest, 0, "[workspace]"@)
}

/// Tells from the text of a directory's `Cargo.toml`, where it can be read,
/// whether the directory is the root of a workspace.
pub fn is_workspace_root(manifest: Option<&str>) -> (r: bool)
    ensures
        r == (manifest is Some && declares_workspace(manifest->Some_0@)),
{
    match manifest {
        None => false,
        Some(text) => {
            let chars = chars_of(text);
            let mut from: usize = 0;
            loop
                invariant
                    manifest == Some(text),
                    chars@ == text@,
                    from <= chars@.len(),
                    declares_workspace(text@) == has_line(text@, from as int, "[workspace]"@),
                decreases chars@.len() - from,
            {
                let end: usize = find_char(&chars, '\n', from);
                let (a, b): (usize, usize) = trim_range(&chars, from, end);
                let line = string_of(&chars, a, b);
                if same_text(line.as_str(), "[workspace]") {
                    return true;
                }
                if end >= chars.len() {
                    return false;
                }
                from = end + 1;
            }
        },
    }
}

/// The directory to upload: the one asked for, else the working directory
/// `cwd` if its manifest makes it the root of a workspace, else the one that
/// the program was built from.
pub fn resolve_src_dir(
    explicit: Option<String>,
    cwd: &str,
    cwd_manifest: Option<&str>,
    compile_time_fallback: &str,
) -> (r: String)
    ensures
        r@ == match explicit {
            Some(dir) => dir@,
            None => if cwd_manifest is Some && declares_workspace(cwd_manifest->Some_0@) {
                cwd@
            } else {
                compile_time_fallback@
            },
        },
{
    match explicit {
        Some(dir) => dir,
        None => if is_workspace_root(cwd_manifest) {
            String::from_str(cwd)
        } else {
            String::from_str(compile_time_fallback)
        },
    }
}

/// Two directories up from `dir`, or `dir` where there are not that many.
pub open spec fn two_up(dir: Seq<char>) -> Seq<char> {
    if has_parent(dir) && has_parent(parent_path(dir)) {
        parent_path(parent_path(dir))
    } else {
        dir
    }
}

/// The root of the workspace, from the directory of the program's own manifest.
pub fn rust_src_dir(manifest_dir: &str) -> (r: String)
    ensures
        r@ == two_up(manifest_dir@),
{
    match parent(manifest_dir) {
        Some(first) => match parent(first.as_str()) {
            Some(second) => second,
            None => String::from_str(manifest_dir),
        },
        None => String::from_str(manifest_dir),
    }
}

/// A change in the working tree is worth a warning: `git status --porcelain`
/// succeeded and listed something. What is uploaded is the last commit.
pub fn worth_warning(succeeded: bool, listing: &Vec<u8>) -> (r: bool)
    ensures
        r == (succeeded && listing@.len() > 0),
{
    succeeded && listing.len() > 0
}

} // verus!
