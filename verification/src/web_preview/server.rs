//! What the preview server answers to a request; the server loop itself
//! runs outside the library.
use crate::text::{chars_eq, chars_of, slice_of, starts_with, starts_with_exec, string_of};
use crate::web_preview::renderer::{error_page, page, render_error_page, render_page};
use crate::web_preview::types::PreviewData;
use vstd::prelude::*;

verus! {

/// Where a request goes.
#[derive(Debug, Clone, PartialEq, Eq)]
pub enum Route {
    /// `/`: the preview page.
    Page,
    /// `/favicon.ico`: an empty answer.
    Favicon,
    /// `/media/…`: a static file, by its path below the media root.
    Media(String),
    /// Anything else.
    NotFound,
}

/// Routes a request URL.
pub fn route_request(url: &str) -> (r: Route)
    ensures
        url@ == "/"@ ==> r == Route::Page,
        url@ == "/favicon.ico"@ ==> r == Route::Favicon,
        url@ != "/"@ && url@ != "/favicon.ico"@ && starts_with(url@, "/media/"@) ==> (r matches Route::Media(p) && p@ == url@.subrange(7, url@.len() as int)),
        url@ != "/"@ && url@ != "/favicon.ico"@ && !starts_with(url@, "/media/"@) ==> r == Route::NotFound,
{
    let u = chars_of(url);
    let prefix = chars_of("/media/");
    proof {
        reveal_strlit("/media/");
        reveal_strlit("/");
        reveal_strlit("/favicon.ico");
        assert("/favicon.ico"@.len() != "/"@.len());
    }
    if chars_eq(&u, &chars_of("/")) {
        Route::Page
    } else if chars_eq(&u, &chars_of("/favicon.ico")) {
        Route::Favicon
    } else if starts_with_exec(&u, &prefix) {
        let rest = slice_of(&u, 7, u.len());
        Route::Media(string_of(&rest))
    } else {
        Route::NotFound
    }
}

/// The page answered at `/` and its status: the preview page with 200
/// when the cards were loaded, the error page with 500 when loading failed.
pub fn page_response(refreshed: &Result<PreviewData, String>) -> (r: (String, u16))
    ensures
        match refreshed {
            Ok(data) => r.0@ == page(*data) && r.1 == 200,
            Err(e) => r.0@ == error_page(e@) && r.1 == 500,
        },
{
    match refreshed {
        Ok(data) => (render_page(data), 200),
        Err(e) => (render_error_page(e.as_str()), 500),
    }
}

} // verus!
