use mdsite::locator::Locator;
use mdsite::markdown::{internal_links, markdown_to_html, rewrite_internal_link};

#[test]
fn conversion_produces_html_not_markdown() {
    let html = markdown_to_html("# A heading".to_string(), &Locator::root()).unwrap();
    assert_ne!(html, "# A heading");
    assert!(html.contains("heading"));
    assert!(html.contains("<h1"));
}

#[test]
fn relative_links_are_rewritten_against_the_locator() {
    let loc = Locator::from_url("/guide");
    let html = markdown_to_html("see [other](../intro)".to_string(), &loc).unwrap();
    assert!(html.contains("\"/intro\""));
    assert!(!html.contains("\"../intro\""));
}

#[test]
fn absolute_web_links_are_kept() {
    let loc = Locator::from_url("/guide");
    let html =
        markdown_to_html("see [site](https://example.org/x)".to_string(), &loc).unwrap();
    assert!(html.contains("https://example.org/x"));
}

#[test]
fn rewrite_internal_link_joins_and_normalizes() {
    let loc = Locator::from_url("/guide");
    assert_eq!(rewrite_internal_link("../intro".to_string(), &loc), "/intro");
    assert_eq!(rewrite_internal_link("setup".to_string(), &loc), "/guide/setup");
    assert_eq!(
        rewrite_internal_link("http://example.org".to_string(), &loc),
        "http://example.org"
    );
}

#[test]
fn over_deep_nesting_fails_as_a_conversion_error() {
    // The parser refuses nesting beyond its depth limit; the engine turns
    // that into its conversion error.
    let deep = ">".repeat(64) + " quoted";
    let r = markdown_to_html(deep, &Locator::root());
    assert_eq!(r.unwrap_err(), mdsite::errors::Error::MarkdownConversion);
}

#[test]
fn internal_links_lists_non_web_targets() {
    let loc = Locator::from_url("/guide");
    let links =
        internal_links("a [x](setup) and [w](https://example.org)", &loc).unwrap();
    assert_eq!(links.len(), 1);
    assert_eq!(links[0], Locator::from_url("/guide/setup"));
}
