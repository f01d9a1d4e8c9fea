use vstd::prelude::*;

use crate::text::{replace_all, replace_spec, str_eq};

verus! {

/// Decision for the index page: an unauthenticated visitor is redirected to
/// the login page under the base path; otherwise the page is served.
pub fn index(authenticated: bool, base_path: &str) -> (r: Option<String>)
    ensures
        match r {
            Some(target) => !authenticated && target@ == base_path@ + "/login"@,
            None => authenticated,
        },
{
    if !authenticated {
        let mut target = String::from_str(base_path);
        target.append("/login");
        Some(target)
    } else {
        None
    }
}

/// Decision for the login page: an authenticated visitor is redirected to the
/// index, which lives at the base path, or at `/` when no base path is set.
pub fn login_page(authenticated: bool, base_path: &str) -> (r: Option<String>)
    ensures
        match r {
            Some(target) => authenticated && (if base_path@.len() == 0 {
                target@ == "/"@
            } else {
                target@ == base_path@
            }),
            None => !authenticated,
        },
{
    if authenticated {
        if base_path.unicode_len() == 0 {
            Some(String::from_str("/"))
        } else {
            Some(String::from_str(base_path))
        }
    } else {
        None
    }
}

/// The two fixed assets the static route serves.
#[derive(Clone, Copy, PartialEq, Eq, Structural, Debug)]
pub enum StaticAsset {
    AppJs,
    OutputCss,
}

pub open spec fn static_spec(path: Seq<char>) -> Option<StaticAsset> {
    if path == "app.js"@ {
        Some(StaticAsset::AppJs)
    } else if path == "output.css"@ {
        Some(StaticAsset::OutputCss)
    } else {
        None
    }
}

/// Route decision for the static path: the two fixed assets by literal path
/// match; anything else is not found.
pub fn static_file(path: &str) -> (r: Option<StaticAsset>)
    ensures
        r == static_spec(path@),
{
    if str_eq(path, "app.js") {
        Some(StaticAsset::AppJs)
    } else if str_eq(path, "output.css") {
        Some(StaticAsset::OutputCss)
    } else {
        None
    }
}

impl StaticAsset {
    /// The content type the asset is served with.
    pub fn content_type(&self) -> (r: &'static str)
        ensures
            *self is AppJs ==> r@ == "application/javascript"@,
            *self is OutputCss ==> r@ == "text/css"@,
    {
        match self {
            StaticAsset::AppJs => "application/javascript",
            StaticAsset::OutputCss => "text/css",
        }
    }
}

/// The text injected for `<head>`: the tag itself followed by a script that
/// records the base path for the client.
pub open spec fn head_replacement(bp: Seq<char>) -> Seq<char> {
    "<head>\n    <script>window.BASE_PATH = \""@ + bp + "\";</script>"@
}

pub open spec fn href_replacement(bp: Seq<char>) -> Seq<char> {
    "href=\""@ + bp + "/static/"@
}

pub open spec fn src_replacement(bp: Seq<char>) -> Seq<char> {
    "src=\""@ + bp + "/static/"@
}

/// What rewriting a served page yields: a script tag recording the base path
/// is injected after `<head>`, and both static-asset reference forms gain the
/// base path prefix.
pub open spec fn inject_spec(html: Seq<char>, bp: Seq<char>) -> Seq<char> {
    replace_spec(
        replace_spec(
            replace_spec(html, "<head>"@, head_replacement(bp)),
            "href=\"/static/"@,
            href_replacement(bp),
        ),
        "src=\"/static/"@,
        src_replacement(bp),
    )
}

/// Rewrites a served HTML page for deployment under a base path.
pub fn inject_base_path(html: &str, base_path: &str) -> (r: String)
    ensures
        r@ == inject_spec(html@, base_path@),
{
    proof {
        reveal_strlit("<head>");
        reveal_strlit("href=\"/static/");
        reveal_strlit("src=\"/static/");
    }
    let mut head_rep = String::from_str("<head>\n    <script>window.BASE_PATH = \"");
    head_rep.append(base_path);
    head_rep.append("\";</script>");
    let step1 = replace_all(html, "<head>", head_rep.as_str());
    let mut href_rep = String::from_str("href=\"");
    href_rep.append(base_path);
    href_rep.append("/static/");
    let step2 = replace_all(step1.as_str(), "href=\"/static/", href_rep.as_str());
    let mut src_rep = String::from_str("src=\"");
    src_rep.append(base_path);
    src_rep.append("/static/");
    replace_all(step2.as_str(), "src=\"/static/", src_rep.as_str())
}

} // verus!
