//! The app a clipboard entry came from, and icons as `data:` URLs.

use vstd::prelude::*;
use crate::db::opt_view;
use crate::text::same_text;
use base64::Engine;

verus! {

/// This application's own bundle id; its own copies have no source app.
pub const OWN_BUNDLE_ID: &'static str = "com.user.clipstack";

/// The prefix of a PNG `data:` URL.
pub const PNG_DATA_URL_PREFIX: &'static str = "data:image/png;base64,";

/// The source app from what the system reports about the frontmost app:
/// its bundle id and display name (the bundle id when the name is missing
/// or empty); none when there is no bundle id or it is this application.
pub open spec fn resolve_frontmost_spec(
    bundle: Option<Seq<char>>,
    name: Option<Seq<char>>,
) -> Option<(Seq<char>, Seq<char>)> {
    match bundle {
        None => None,
        Some(b) => if b == OWN_BUNDLE_ID@ {
            None
        } else {
            match name {
                Some(n) => if n.len() > 0 {
                    Some((b, n))
                } else {
                    Some((b, b))
                },
                None => Some((b, b)),
            }
        },
    }
}

pub open spec fn pair_view(p: Option<(String, String)>) -> Option<(Seq<char>, Seq<char>)> {
    match p {
        Some((a, b)) => Some((a@, b@)),
        None => None,
    }
}

/// The source app from the frontmost app's bundle id and localized name.
pub fn resolve_frontmost(bundle: Option<String>, name: Option<String>) -> (r: Option<(String, String)>)
    ensures
        pair_view(r) == resolve_frontmost_spec(opt_view(bundle), opt_view(name)),
{
    match bundle {
        None => None,
        Some(b) => {
            if same_text(b.as_str(), OWN_BUNDLE_ID) {
                return None;
            }
            let n = match name {
                Some(n) => if n.as_str().is_empty() {
                    b.clone()
                } else {
                    n
                },
                None => b.clone(),
            };
            Some((b, n))
        },
    }
}

/// The frontmost app. This platform offers no query for it.
pub fn frontmost_app() -> (r: Option<(String, String)>)
    ensures
        r is None,
{
    None
}

/// The 64-pixel icon of the app with the given bundle id. This platform
/// offers no icon lookup.
pub fn icon_for(bundle_id: &str) -> (r: Option<String>)
    ensures
        r is None,
{
    None
}

/// What `base64::engine::general_purpose::STANDARD.encode` gives for some bytes.
pub uninterp spec fn base64_standard(bytes: Seq<u8>) -> Seq<char>;

/// `base64::engine::general_purpose::STANDARD.encode`: standard alphabet
/// with padding. The contract names the text and gives its length, four
/// characters for each started group of three bytes; the crate panics when
/// that length overflows `usize`.
#[verifier::external_body]
fn encode_base64(bytes: &[u8]) -> (r: String)
    requires
        4 * ((bytes@.len() + 2) / 3) <= usize::MAX,
    ensures
        r@ == base64_standard(bytes@),
        r@.len() == 4 * ((bytes@.len() + 2) / 3),
{
    base64::engine::general_purpose::STANDARD.encode(bytes)
}

/// A PNG image as a `data:` URL.
pub fn png_data_url(png: &[u8]) -> (r: String)
    requires
        4 * ((png@.len() + 2) / 3) <= usize::MAX,
    ensures
        r@ == PNG_DATA_URL_PREFIX@ + base64_standard(png@),
{
    let mut s = PNG_DATA_URL_PREFIX.to_owned();
    let b = encode_base64(png);
    let cs = crate::text::chars_of(b.as_str());
    crate::text::push_chars(&mut s, cs.as_slice());
    s
}

} // verus!
