use mdsite::locator::Locator;

#[test]
fn new_strips_order_prefixes_and_extension() {
    let l = Locator::new("1_guide/2_setup.md");
    assert_eq!(l.url(), "/guide/setup");
}

#[test]
fn new_keeps_plain_segments() {
    let l = Locator::new("a/b");
    assert_eq!(l.url(), "/a/b");
}

#[test]
fn new_drops_empty_parts() {
    let l = Locator::new("//a///b/");
    assert_eq!(l.url(), "/a/b");
}

#[test]
fn root_is_slash() {
    assert_eq!(Locator::root().url(), "/");
}

#[test]
fn index_segment_contributes_nothing_to_url() {
    let l = Locator::new("1_guide/index.md");
    assert_eq!(l.url(), "/guide");
    assert_eq!(l, Locator::new("1_guide"));
}

#[test]
fn url_round_trip() {
    let l = Locator::new("1_guide/2_setup.md");
    assert_eq!(Locator::from_url(&l.url()), l);
}

#[test]
fn url_round_trip_root() {
    let l = Locator::root();
    assert_eq!(Locator::from_url(&l.url()), l);
}

#[test]
fn url_round_trip_with_index_segment() {
    let l = Locator::new("1_guide/index.md");
    assert_eq!(Locator::from_url(&l.url()), l);
}

#[test]
fn join_parent_pops_segment() {
    assert_eq!(Locator::new("a/b").join(&Locator::new("..")), Locator::new("a"));
}

#[test]
fn join_dot_is_noop() {
    assert_eq!(Locator::new("a/b").join(&Locator::new(".")), Locator::new("a/b"));
}

#[test]
fn join_parent_at_root_stays_root() {
    assert_eq!(Locator::root().join(&Locator::new("..")), Locator::root());
}

#[test]
fn join_appends_verbatim() {
    assert_eq!(Locator::new("a").join(&Locator::new("b/c")), Locator::new("a/b/c"));
}

#[test]
fn parent_of_root_is_root() {
    assert_eq!(Locator::root().parent(), Locator::root());
}

#[test]
fn parent_drops_last_segment() {
    assert_eq!(Locator::new("a/b").parent(), Locator::new("a"));
}

#[test]
fn from_content_path_strips_root_and_prefixes() {
    let l = Locator::from_content_path("0_content/1_guide/2_setup.md", "0_content").unwrap();
    assert_eq!(l.url(), "/guide/setup");
}

#[test]
fn from_content_path_allows_index_file() {
    let l = Locator::from_content_path("0_content/1_guide/index.md", "0_content").unwrap();
    assert_eq!(l.url(), "/guide");
}

#[test]
fn from_content_path_rejects_unseparated_name() {
    let r = Locator::from_content_path("0_content/guide.md", "0_content");
    assert_eq!(r.unwrap_err(), mdsite::errors::Error::NamingConvention);
}

#[test]
fn from_content_path_rejects_foreign_path() {
    let r = Locator::from_content_path("elsewhere/1_guide.md", "0_content");
    assert_eq!(r.unwrap_err(), mdsite::errors::Error::LocatorResolution);
}

#[test]
fn public_path_appends_generated_file_name() {
    let l = Locator::new("1_guide/2_setup.md");
    assert_eq!(l.public_path("public"), "public/guide/setup/index.html");
    assert_eq!(l.public_dir("public"), "public/guide/setup");
}

#[test]
fn public_path_of_root() {
    assert_eq!(Locator::root().public_path("public"), "public/index.html");
}

#[test]
fn static_path_joins_static_root() {
    let l = Locator::from_url("/style.css");
    assert_eq!(l.static_path("static"), "static/style.css");
}

#[test]
fn equality_ignores_index_segments_only() {
    assert_eq!(Locator::new("1_guide/index.md"), Locator::new("3_guide"));
    assert_ne!(Locator::new("1_guide"), Locator::new("1_other"));
}

#[test]
fn equality_is_over_the_normalized_url() {
    // A lone empty derived segment leaves the URL at "/", so a locator
    // built from such a name equals the root: equality goes by the
    // normalized URL string, not by the segment list.
    assert_eq!(Locator::new("1_.md").url(), "/");
    assert_eq!(Locator::new("1_.md"), Locator::root());
    // A trailing empty segment keeps its slash, so these differ.
    assert_ne!(Locator::new("1_a/2_.md"), Locator::new("1_a"));
}

#[test]
fn error_messages_name_the_kind() {
    assert_eq!(
        mdsite::errors::Error::NamingConvention.message(),
        "name lacks the required order separator or title"
    );
}
