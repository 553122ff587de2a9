use mdsite::locator::Locator;
use mdsite::reader::FsNode;
use mdsite::render::read_files;
use mdsite::search::render_index;
use mdsite::store::Store;
use mdsite::watcher::{handle_event, WatchEvent};

fn file(name: &str, content: &str) -> FsNode {
    FsNode::File { name: name.to_string(), content: content.to_string() }
}

fn dir(name: &str, entries: Vec<FsNode>) -> FsNode {
    FsNode::Dir { name: name.to_string(), entries }
}

#[test]
fn end_to_end_locators_and_output_paths() {
    // A content tree with a root index, and one guide subdirectory holding
    // its own index and a setup page, yields the locators /, /guide and
    // /guide/setup, and the matching generated file paths.
    let entries = vec![
        file("index.md", "# welcome"),
        dir("1_guide", vec![file("index.md", "# guide"), file("1_setup.md", "# setup")]),
    ];
    let mut store = Store::new();
    read_files(&mut store, "0_content", &entries).unwrap();

    let root = Locator::root();
    let guide = Locator::from_url("/guide");
    let setup = Locator::from_url("/guide/setup");
    assert!(store.get(&root).is_some());
    assert!(store.get(&guide).is_some());
    assert!(store.get(&setup).is_some());
    assert_eq!(store.len(), 3);

    assert_eq!(root.public_path("public"), "public/index.html");
    assert_eq!(guide.public_path("public"), "public/guide/index.html");
    assert_eq!(setup.public_path("public"), "public/guide/setup/index.html");
}

#[test]
fn end_to_end_removal_while_serving() {
    // Deleting the setup file removes /guide/setup from lookups and from
    // the search index, and the remove batch reports one effective change,
    // worth one reload notification.
    let entries = vec![
        file("index.md", "# welcome"),
        dir("1_guide", vec![file("index.md", "# guide"), file("1_setup.md", "# setup")]),
    ];
    let mut store = Store::new();
    read_files(&mut store, "0_content", &entries).unwrap();
    assert!(store.get(&Locator::from_url("/guide/setup")).is_some());

    let remove = WatchEvent::Remove { paths: vec!["0_content/1_guide/1_setup.md".to_string()] };
    let effective = handle_event(&mut store, &remove, "0_content");
    assert!(effective);

    assert!(store.get(&Locator::from_url("/guide/setup")).is_none());
    let index = render_index(&store);
    assert!(index.iter().all(|p| p.url != "/guide/setup"));
}
