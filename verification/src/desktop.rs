//! The text side of the desktop shell's file commands: the title a
//! document gets from the path it was saved to or opened from, and the
//! file names offered in the save and export dialogs. Showing dialogs and
//! touching the disk is the application's job.

use vstd::prelude::*;
use vstd::string::StringExecFns;

verus! {

/// The stem (the file name without its extension) that
/// `std::path::Path::file_stem` finds in `path`, as text; `None` when the
/// path has no file name.
pub uninterp spec fn path_file_stem(path: Seq<char>) -> Option<Seq<char>>;

/// Calls `std::path::Path::new(path).file_stem()` and turns the stem into
/// text. The contract claims only that the result is the named
/// `path_file_stem` of the path, a function of the path alone for the
/// platform the program is built for; how the path is split into
/// components and the extension cut off is std's business and is not
/// stated.
#[verifier::external_body]
fn file_stem_of(path: &str) -> (stem: Option<String>)
    ensures
        match stem {
            Some(s) => path_file_stem(path@) == Some(s@),
            None => path_file_stem(path@) is None,
        },
{
    match std::path::Path::new(path).file_stem() {
        Some(stem) => match stem.to_str() {
            Some(text) => Some(text.to_string()),
            None => None,
        },
        None => None,
    }
}

/// The title shown for a document whose path has the stem `stem`:
/// the stem itself, or "Untitled" when there is none.
pub open spec fn title_for(stem: Option<Seq<char>>) -> Seq<char> {
    match stem {
        Some(s) => s,
        None => "Untitled"@,
    }
}

/// The title for a path whose stem is `stem`.
pub fn title_from_stem(stem: Option<String>) -> (title: String)
    ensures
        title@ == title_for(
            match stem {
                Some(s) => Some(s@),
                None => None,
            },
        ),
{
    match stem {
        Some(s) => s,
        None => {
            proof {
                reveal_strlit("Untitled");
            }
            String::from_str("Untitled")
        },
    }
}

/// Derives a document title (no extension, no directory) from a path, the
/// way the toolbar shows it.
pub fn filename_from_path(path: &str) -> (title: String)
    ensures
        title@ == title_for(path_file_stem(path@)),
{
    title_from_stem(file_stem_of(path))
}

/// `name.extension`.
pub open spec fn with_extension(name: Seq<char>, extension: Seq<char>) -> Seq<char> {
    name + "."@ + extension
}

/// The file name offered when saving a document called `name`: design
/// documents carry the "apollo" extension.
pub fn document_file_name(name: &str) -> (file_name: String)
    ensures
        file_name@ == with_extension(name@, "apollo"@),
{
    export_file_name(name, "apollo")
}

/// The file name offered when exporting `name` as `extension`.
pub fn export_file_name(name: &str, extension: &str) -> (file_name: String)
    ensures
        file_name@ == with_extension(name@, extension@),
{
    let mut file_name = String::from_str(name);
    proof {
        reveal_strlit(".");
    }
    file_name.append(".");
    file_name.append(extension);
    file_name
}

} // verus!
