use vstd::prelude::*;

use crate::errors::Error;
use crate::locator::{spec_join_segs, spec_new, spec_url, Locator};
use crate::node::links_views;
use crate::strutil::{has_http_prefix, spec_has_http_prefix, str_views};

use markdown_ppp::ast_transform::{Query, Transform};

verus! {

/// Whether markdown content parses. Parsing depends on the content alone.
pub uninterp spec fn md_parses(content: Seq<char>) -> bool;

/// The link destinations of parsed markdown content, in document order.
/// They depend on the content alone.
pub uninterp spec fn md_link_dests(content: Seq<char>) -> Seq<Seq<char>>;

/// The HTML rendering of markdown content after its link destinations have
/// been rewritten against the locator segments `loc`. It depends on the
/// content and the segments alone.
pub uninterp spec fn md_html(content: Seq<char>, loc: Seq<Seq<char>>) -> Seq<char>;

/// The rewriting of one link destination: an absolute web link is kept
/// verbatim, every other destination is joined onto `loc` and replaced by
/// the resulting site URL.
pub open spec fn spec_rewrite_dest(dest: Seq<char>, loc: Seq<Seq<char>>) -> Seq<char> {
    if spec_has_http_prefix(dest) {
        dest
    } else {
        spec_url(spec_join_segs(loc, spec_new(dest)))
    }
}

/// Rewrites one link destination relative to `loc`, as `spec_rewrite_dest`
/// describes.
pub fn rewrite_internal_link(link: String, loc: &Locator) -> (r: String)
    ensures
        r@ == spec_rewrite_dest(link@, loc@),
{
    if has_http_prefix(link.as_str()) {
        link
    } else {
        loc.join(&Locator::new(link.as_str())).url()
    }
}

/// Relies on markdown_ppp's `parse_markdown` and `find_all_links`: whether
/// the content parses, and which link destinations it holds, depend on the
/// content alone.
#[verifier::external_body]
fn md_parse_links(content: &str) -> (r: Option<Vec<String>>)
    ensures
        r is Some <==> md_parses(content@),
        r matches Some(v) ==> str_views(v@) == md_link_dests(content@),
{
    let state = markdown_ppp::parser::MarkdownParserState::default();
    let doc = match markdown_ppp::parser::parse_markdown(state, content) {
        Ok(d) => d,
        Err(_) => return None,
    };
    let mut dests: Vec<String> = Vec::new();
    for link in doc.find_all_links() {
        dests.push(link.destination.clone());
    }
    Some(dests)
}

/// Relies on markdown_ppp's `parse_markdown`, `transform_link_urls` and
/// `render_html`: the HTML depends on the content and on what the rewriting
/// closure returns, and the closure only calls the verified
/// `rewrite_internal_link` on the cloned locator.
#[verifier::external_body]
fn md_render(content: &str, loc: &Locator) -> (r: Option<String>)
    ensures
        r is Some <==> md_parses(content@),
        r matches Some(h) ==> h@ == md_html(content@, loc@),
{
    let state = markdown_ppp::parser::MarkdownParserState::default();
    let doc = match markdown_ppp::parser::parse_markdown(state, content) {
        Ok(d) => d,
        Err(_) => return None,
    };
    let l = loc.clone();
    let doc = doc.transform_link_urls(move |u| rewrite_internal_link(u, &l));
    let config = markdown_ppp::html_printer::config::Config::default();
    Some(markdown_ppp::html_printer::render_html(&doc, config))
}

/// Converts markdown content to HTML, rewriting relative link destinations
/// against `loc`. Fails exactly when the content does not parse.
pub fn markdown_to_html(content: String, loc: &Locator) -> (r: Result<String, Error>)
    ensures
        r is Ok <==> md_parses(content@),
        r matches Ok(h) ==> h@ == md_html(content@, loc@),
        r is Err ==> r == Err::<String, Error>(Error::MarkdownConversion),
{
    match md_render(content.as_str(), loc) {
        Some(h) => Ok(h),
        None => Err(Error::MarkdownConversion),
    }
}

/// The locators of the internal links among the destinations `dests`, each
/// joined onto `loc`; absolute web links contribute nothing.
pub open spec fn spec_internal_links(dests: Seq<Seq<char>>, loc: Seq<Seq<char>>) -> Seq<
    Seq<Seq<char>>,
>
    decreases dests.len(),
{
    if dests.len() == 0 {
        Seq::empty()
    } else if spec_has_http_prefix(dests[0]) {
        spec_internal_links(dests.drop_first(), loc)
    } else {
        seq![spec_join_segs(loc, spec_new(dests[0]))] + spec_internal_links(
            dests.drop_first(),
            loc,
        )
    }
}

/// The locators that markdown content links to internally, relative to
/// `loc`. Fails exactly when the content does not parse.
pub fn internal_links(content: &str, loc: &Locator) -> (r: Result<Vec<Locator>, Error>)
    ensures
        r is Ok <==> md_parses(content@),
        r matches Ok(v) ==> links_views(v@) == spec_internal_links(md_link_dests(content@), loc@),
        r is Err ==> r == Err::<Vec<Locator>, Error>(Error::MarkdownConversion),
{
    let dests = match md_parse_links(content) {
        Some(d) => d,
        None => {
            return Err(Error::MarkdownConversion);
        },
    };
    let ghost all = str_views(dests@);
    let n = dests.len();
    let mut links: Vec<Locator> = Vec::new();
    let mut i: usize = 0;
    proof {
        assert(all.skip(0) =~= all);
        assert(links_views(links@) + spec_internal_links(all, loc@) =~= spec_internal_links(
            all,
            loc@,
        ));
    }
    while i < n
        invariant
            i <= n,
            n == dests@.len(),
            all == str_views(dests@),
            links_views(links@) + spec_internal_links(all.skip(i as int), loc@)
                == spec_internal_links(all, loc@),
        decreases n - i,
    {
        let ghost rest = all.skip(i as int);
        proof {
            assert(rest.drop_first() =~= all.skip(i + 1));
        }
        let d = &dests[i];
        if !has_http_prefix(d.as_str()) {
            let link = loc.join(&Locator::new(d.as_str()));
            links.push(link);
            proof {
                assert(links_views(links@) + spec_internal_links(all.skip(i + 1), loc@)
                    =~= spec_internal_links(all, loc@));
            }
        }
        i += 1;
    }
    proof {
        assert(all.skip(n as int) =~= Seq::<Seq<char>>::empty());
        assert(links_views(links@) =~= spec_internal_links(all, loc@));
    }
    Ok(links)
}

} // verus!
