use mdsite::link_checker::{check_links, check_links_root};
use mdsite::locator::Locator;
use mdsite::node::{Page, ThreadNode};
use mdsite::reader::FsNode;
use mdsite::render::{get_root, read_files};
use mdsite::search::render_index;
use mdsite::store::Store;
use mdsite::watcher::handle_remove;

fn file(name: &str, content: &str) -> FsNode {
    FsNode::File { name: name.to_string(), content: content.to_string() }
}

fn dir(name: &str, entries: Vec<FsNode>) -> FsNode {
    FsNode::Dir { name: name.to_string(), entries }
}

fn demo_store() -> Store {
    let mut store = Store::new();
    let entries = vec![
        file("index.md", "root body"),
        dir("1_guide", vec![file("index.md", "guide body"), file("1_setup.md", "setup body")]),
    ];
    read_files(&mut store, "0_content", &entries).unwrap();
    store
}

#[test]
fn search_index_has_one_entry_per_page() {
    let store = demo_store();
    let index = render_index(&store);
    assert_eq!(index.len(), store.len());
    let mut urls: Vec<String> = index.iter().map(|p| p.url.clone()).collect();
    urls.sort();
    assert_eq!(urls, vec!["/", "/guide", "/guide/setup"]);
    let setup = index.iter().find(|p| p.url == "/guide/setup").unwrap();
    assert_eq!(setup.title, "setup");
    assert!(setup.html.contains("setup body"));
}

#[test]
fn search_index_drops_removed_pages() {
    // Deleting the setup page while serving removes its locator from the
    // search index output.
    let mut store = demo_store();
    handle_remove(&mut store, "0_content/1_guide/1_setup.md", "0_content").unwrap();
    let index = render_index(&store);
    assert!(index.iter().all(|p| p.url != "/guide/setup"));
    assert!(store.get(&Locator::from_url("/guide/setup")).is_none());
}

#[test]
fn snapshot_copies_the_whole_tree() {
    let store = demo_store();
    let root = get_root(&store).unwrap();
    assert_eq!(root.body.title, "content");
    assert_eq!(root.children.len(), 1);
}

#[test]
fn get_root_of_an_empty_store_is_an_io_error() {
    let store = Store::new();
    assert_eq!(get_root(&store).unwrap_err(), mdsite::errors::Error::IO);
}

#[test]
fn a_page_is_not_a_section() {
    let page = Page {
        title: "p".to_string(),
        loc: Locator::from_url("/p"),
        content: String::new(),
        links: Vec::new(),
    };
    let node = ThreadNode::Page(page);
    assert_eq!(node.get_section().unwrap_err(), mdsite::errors::Error::WrongKind);
}

#[test]
fn dead_links_are_reported() {
    let store = demo_store();
    let page = Page {
        title: "p".to_string(),
        loc: Locator::from_url("/guide"),
        content: String::new(),
        links: vec![Locator::from_url("/guide/setup"), Locator::from_url("/missing")],
    };
    let dead = check_links(&page, &store);
    assert_eq!(dead.len(), 1);
    assert_eq!(dead[0], Locator::from_url("/missing"));
}

#[test]
fn live_internal_links_check_clean() {
    let mut store = Store::new();
    let entries = vec![
        file("index.md", "go to [setup](guide/setup)"),
        dir("1_guide", vec![file("index.md", "guide"), file("1_setup.md", "setup")]),
    ];
    read_files(&mut store, "0_content", &entries).unwrap();
    let dead = check_links_root(&store).unwrap();
    assert_eq!(dead.len(), 0);
    match store.get(&Locator::root()).unwrap() {
        ThreadNode::Section(sec) => {
            assert_eq!(sec.body.links.len(), 1);
            assert_eq!(sec.body.links[0], Locator::from_url("/guide/setup"));
        },
        ThreadNode::Page(_) => panic!("expected a section"),
    }
}
