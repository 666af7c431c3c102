//! The playground's web server: which media type each of its assets is
//! served as.
use vstd::prelude::*;

verus! {

/// The extension of the file that a path names, as `Path::extension` finds
/// it: the part of the file name after its last dot.
pub uninterp spec fn path_extension(path: Seq<char>) -> Option<Seq<char>>;

/// `std::path::Path::extension` on a path given as text; an extension of a
/// UTF-8 path is UTF-8 too.
#[verifier::external_body]
fn extension(path: &str) -> (r: Option<String>)
    ensures
        r is Some <==> path_extension(path@) is Some,
        r matches Some(e) ==> path_extension(path@) == Some(e@),
{
    std::path::Path::new(path).extension().and_then(|e| e.to_str()).map(|e| e.to_string())
}

/// The media type for a file extension, for the kinds of file that the
/// playground serves.
pub open spec fn mime_of(ext: Option<Seq<char>>) -> Option<Seq<char>> {
    match ext {
        Some(e) => if e == "html"@ {
            Some("text/html"@)
        } else if e == "js"@ {
            Some("text/javascript"@)
        } else if e == "png"@ {
            Some("image/png"@)
        } else if e == "wasm"@ {
            Some("application/wasm"@)
        } else {
            None
        },
        None => None,
    }
}

/// The media type for a file extension.
pub fn mime_for_extension(ext: Option<&str>) -> (r: Option<&'static str>)
    ensures
        (match r {
            Some(m) => Some(m@),
            None => None,
        }) == mime_of(match ext {
            Some(e) => Some(e@),
            None => None,
        }),
{
    let e = match ext {
        Some(e) => e.to_owned(),
        None => return None,
    };
    if e == String::from_str("html") {
        Some("text/html")
    } else if e == String::from_str("js") {
        Some("text/javascript")
    } else if e == String::from_str("png") {
        Some("image/png")
    } else if e == String::from_str("wasm") {
        Some("application/wasm")
    } else {
        None
    }
}

/// The media type to serve a file as, from the extension of its path.
pub fn guess_mime(path: &str) -> (r: Option<&'static str>)
    ensures
        (match r {
            Some(m) => Some(m@),
            None => None,
        }) == mime_of(path_extension(path@)),
{
    match extension(path) {
        Some(e) => mime_for_extension(Some(e.as_str())),
        None => None,
    }
}

} // verus!
