//! The name of the file a run writes to, where it is given none.

use crate::page_url::{Url, UrlView};
use crate::text::{chars_of, slashes, string_of, stripped, trim_slashes};
use vstd::prelude::*;
use vstd::string::StringExecFns;

verus! {

/// What stands for the host of a URL that has none.
pub const FALLBACK_HOST: &'static str = "output";

/// What parts host and path in a file name.
pub const JOINT: &'static str = "_";

/// The extension of a Markdown file.
pub const EXTENSION: &'static str = ".md";

/// The longest name that the sanitizer hands back.
pub const NAME_LIMIT: usize = 255;

/// The name a URL suggests: its host, then the path without the slashes
/// around it, if anything is left of it.
pub open spec fn file_stem(url: UrlView) -> Seq<char> {
    let host = match url.host {
        Some(host) => host,
        None => FALLBACK_HOST@,
    };
    let path = stripped(url.path, slashes());
    if path.len() == 0 {
        host
    } else {
        host + JOINT@ + path
    }
}

/// A character that no file name may hold: a separator or wildcard of a
/// file system, or a control character.
pub open spec fn is_reserved(c: char) -> bool {
    let n = c as u32;
    ||| c == '/'
    ||| c == '?'
    ||| c == '<'
    ||| c == '>'
    ||| c == '\\'
    ||| c == ':'
    ||| c == '*'
    ||| c == '|'
    ||| c == '"'
    ||| n <= 0x1f
    ||| 0x80 <= n <= 0x9f
}

/// The text can be a file name: it is short enough and holds no reserved
/// character.
pub open spec fn is_clean(name: Seq<char>) -> bool {
    &&& name.len() <= NAME_LIMIT
    &&& forall|i: int| 0 <= i < name.len() ==> !is_reserved(#[trigger] name[i])
}

/// What `sanitize_filename::sanitize_with_options` makes of `name`, with
/// the rules for Windows where `windows` is set, and the options otherwise as
/// `sanitize_filename::sanitize` has them.
pub uninterp spec fn sanitized(name: Seq<char>, windows: bool) -> Seq<char>;

/// Calls `sanitize_filename::sanitize_with_options` with the options that
/// `sanitize_filename::sanitize` takes, but for the flag of the system,
/// which is `windows`. The result is a function of `name` and the flag. It
/// is what is left of the name once the reserved characters are taken out
/// and the rest is cut to 255 bytes.
#[verifier::external_body]
fn sanitize(name: &str, windows: bool) -> (out: String)
    ensures
        out@ == sanitized(name@, windows),
        is_clean(out@),
{
    let mut options = ::sanitize_filename::Options::default();
    options.windows = windows;
    ::sanitize_filename::sanitize_with_options(name, options)
}

/// The name that `first` suggests, as it stands before it is sanitized.
pub fn filename_stem(first: &Url) -> (out: String)
    ensures
        out@ == file_stem(first@),
{
    let mut out = String::new();
    match first.host_str() {
        Some(host) => out.append(host),
        None => out.append(FALLBACK_HOST),
    }
    let path = trim_slashes(&chars_of(first.path()));
    if path.len() > 0 {
        let path = string_of(&path);
        out.append(JOINT);
        out.append(path.as_str());
    }
    proof {
        let host = match first@.host {
            Some(host) => host,
            None => FALLBACK_HOST@,
        };
        if path.len() > 0 {
            assert(out@ =~= host + JOINT@ + path@);
        } else {
            assert(out@ =~= host);
        }
    }
    out
}

/// The file name made of a sanitized name: the name with the extension of a
/// Markdown file.
pub fn with_extension(name: &str) -> (out: String)
    ensures
        out@ == name@ + EXTENSION@,
{
    let mut out = String::new();
    out.append(name);
    out.append(EXTENSION);
    assert(out@ =~= name@ + EXTENSION@);
    out
}

/// The name of the output file for a run that starts at `first`:
/// [`file_stem`] as the sanitizer leaves it, with the extension of a
/// Markdown file. `windows` says whether the name must also go by the
/// rules of Windows, as it must where the run is on that system.
pub fn gen_filename(first: &Url, windows: bool) -> (out: String)
    ensures
        out@ == sanitized(file_stem(first@), windows) + EXTENSION@,
        is_clean(sanitized(file_stem(first@), windows)),
{
    let stem = filename_stem(first);
    let name = sanitize(stem.as_str(), windows);
    with_extension(name.as_str())
}

} // verus!
