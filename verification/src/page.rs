//! What a build hands back, the page's sidecar asset, and the final
//! minification step of the rendered page.

use vstd::prelude::*;
use vstd::string::StringSliceAdditionalSpecFns;
use vstd::utf8::{valid_utf8, decode_utf8};

use crate::util::{owned, concat3};
use crate::sidecar::{content_hash, content_hash_of};

verus! {

broadcast use vstd::string::group_string_axioms;

/// The page file the builder writes into the project root.
pub const OUTPUT_FILE: &'static str = "index.html";

/// One file published next to the page.
pub struct Asset {
    pub name: String,
    pub content: String,
}

/// The result of a build.
pub struct Build {
    pub html: String,
    pub warnings: Vec<String>,
    pub cards: usize,
    pub categories: usize,
    pub lineage_entries: usize,
    pub edges: usize,
    pub assets: Vec<Asset>,
}

/// The sidecar that carries the page script: `app.<content hash>.js`.
pub fn script_asset(script: &str) -> (a: Asset)
    ensures
        a.name@ == "app."@ + content_hash_of(script.spec_bytes()) + ".js"@,
        a.content@ == script@,
{
    let hash = content_hash(script.as_bytes());
    Asset { name: concat3("app.", hash.as_str(), ".js"), content: owned(script) }
}

/// What `minify_html::minify` makes of a page's bytes, with the three
/// options this library sets (`keep_comments`, `minify_css`, `minify_js`)
/// as given and every other option at its default.
pub uninterp spec fn minify_html_output(html: Seq<u8>, keep_comments: bool, minify_css: bool, minify_js: bool) -> Seq<u8>;

/// `minify_html::minify` on the page's bytes, with a configuration that is
/// the default but for the three options given.
///
/// `minify_js` must be off: with it on, the JS minifier that minify-html
/// runs on classic (non-module) inline scripts panics on some scripts (a
/// top-level `if` whose body is one statement, such as
/// `<script>if(a){b()}</script>`). With it off, an inline script's text is
/// only trimmed, and CSS that fails to parse is kept as it was.
#[verifier::external_body]
fn minify_bytes(html: &str, keep_comments: bool, minify_css: bool, minify_js: bool) -> (r: Vec<u8>)
    requires
        !minify_js,
    ensures
        r@ == minify_html_output(html.spec_bytes(), keep_comments, minify_css, minify_js),
{
    let cfg = minify_html::Cfg { keep_comments, minify_css, minify_js, ..minify_html::Cfg::default() };
    minify_html::minify(html.as_bytes(), &cfg)
}

/// `String::from_utf8`: a string exactly when the bytes are valid UTF-8.
#[verifier::external_body]
fn utf8_string(bytes: Vec<u8>) -> (r: Option<String>)
    ensures
        r is Some <==> valid_utf8(bytes@),
        r matches Some(s) ==> s@ == decode_utf8(bytes@),
{
    String::from_utf8(bytes).ok()
}

/// Minified bytes end with a newline: one is added unless already there.
pub open spec fn with_final_newline(bytes: Seq<u8>) -> Seq<u8> {
    if bytes.len() > 0 && bytes.last() == 10u8 {
        bytes
    } else {
        bytes.push(10u8)
    }
}

/// The page ends with exactly the newline the minifier left or one added:
/// the bytes come back unchanged or with one `\n` appended, end with a
/// newline, and finishing them again changes nothing.
pub proof fn lemma_final_newline(bytes: Seq<u8>)
    ensures
        with_final_newline(bytes) == bytes || with_final_newline(bytes) == bytes.push(10u8),
        with_final_newline(bytes).len() > 0 && with_final_newline(bytes).last() == 10u8,
        with_final_newline(bytes).len() <= bytes.len() + 1,
        with_final_newline(with_final_newline(bytes)) == with_final_newline(bytes),
{
}

/// Turn the minifier's bytes into the page text: end them with a newline
/// (the page stays a POSIX text file) and decode them; `None` when they
/// are not UTF-8.
pub fn finish_minified(bytes: Vec<u8>) -> (r: Option<String>)
    ensures
        r is Some <==> valid_utf8(with_final_newline(bytes@)),
        r matches Some(s) ==> s@ == decode_utf8(with_final_newline(bytes@)),
{
    let mut out = bytes;
    let n = out.len();
    if !(n > 0 && out[n - 1] == 10u8) {
        out.push(10u8);
    }
    utf8_string(out)
}

/// Minify the rendered page, keeping comments (the leading parse guide
/// documents the file) and minifying its CSS, and end it with a newline.
/// Inline scripts are kept as written (only trimmed): the JS minifier
/// panics on some classic scripts, and this library does not panic.
/// `None` when the minifier's output is not UTF-8.
pub fn minify(html: &str) -> (r: Option<String>)
    ensures
        r is Some <==> valid_utf8(with_final_newline(minify_html_output(html.spec_bytes(), true, true, false))),
        r matches Some(s) ==> s@ == decode_utf8(with_final_newline(minify_html_output(html.spec_bytes(), true, true, false))),
{
    finish_minified(minify_bytes(html, true, true, false))
}

} // verus!
