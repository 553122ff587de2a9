use mdsite::locator::Locator;
use mdsite::node::ThreadNode;
use mdsite::reader::FsNode;
use mdsite::render::read_files;
use mdsite::store::Store;
use mdsite::watcher::{
    create_read_target, handle_create, handle_event, handle_modify, handle_remove, Creation,
    FileChange, WatchEvent,
};

fn file(name: &str, content: &str) -> FsNode {
    FsNode::File { name: name.to_string(), content: content.to_string() }
}

fn dir(name: &str, entries: Vec<FsNode>) -> FsNode {
    FsNode::Dir { name: name.to_string(), entries }
}

fn demo_entries() -> Vec<FsNode> {
    vec![
        file("index.md", "root body"),
        dir("1_guide", vec![file("index.md", "guide body"), file("1_setup.md", "setup body")]),
    ]
}

fn demo_store() -> Store {
    let mut store = Store::new();
    read_files(&mut store, "0_content", &demo_entries()).unwrap();
    store
}

fn content_of(store: &Store, url: &str) -> String {
    match store.get(&Locator::from_url(url)).unwrap() {
        ThreadNode::Section(sec) => sec.body.content.clone(),
        ThreadNode::Page(p) => p.content.clone(),
    }
}

#[test]
fn create_read_target_is_the_parent_directory() {
    assert_eq!(create_read_target("0_content/1_guide/2_new.md").unwrap(), "0_content/1_guide");
}

#[test]
fn create_read_target_of_index_is_the_grandparent() {
    assert_eq!(create_read_target("0_content/1_guide/index.md").unwrap(), "0_content");
}

#[test]
fn create_read_target_without_parent_is_none() {
    assert!(create_read_target("lonefile.md").is_none());
}

#[test]
fn modify_replaces_only_the_content() {
    // Modify isolation: the node at the locator has new content, the set of
    // locators is unchanged, and no other node's content changed.
    let mut store = demo_store();
    let root_before = content_of(&store, "/");
    let guide_before = content_of(&store, "/guide");
    let setup_before = content_of(&store, "/guide/setup");
    let n_before = store.len();

    let changed = handle_modify(
        &mut store,
        "0_content/1_guide/1_setup.md",
        "0_content",
        "fresh text",
    )
    .unwrap();
    assert!(changed);
    assert_eq!(store.len(), n_before);
    assert_eq!(content_of(&store, "/"), root_before);
    assert_eq!(content_of(&store, "/guide"), guide_before);
    let setup_after = content_of(&store, "/guide/setup");
    assert_ne!(setup_after, setup_before);
}

#[test]
fn modify_of_unknown_path_changes_nothing() {
    let mut store = demo_store();
    let n_before = store.len();
    let changed =
        handle_modify(&mut store, "0_content/9_ghost.md", "0_content", "text").unwrap();
    assert!(!changed);
    assert_eq!(store.len(), n_before);
}

#[test]
fn remove_drops_the_entry_and_the_parent_child() {
    // Remove propagation: the store no longer contains the locator, and the
    // parent's child list no longer holds a child equal to it.
    let mut store = demo_store();
    assert!(store.get(&Locator::from_url("/guide/setup")).is_some());
    let guide_children_before = match store.get(&Locator::from_url("/guide")).unwrap() {
        ThreadNode::Section(sec) => sec.children.len(),
        ThreadNode::Page(_) => panic!("expected a section"),
    };

    handle_remove(&mut store, "0_content/1_guide/1_setup.md", "0_content").unwrap();

    assert!(store.get(&Locator::from_url("/guide/setup")).is_none());
    let guide_children_after = match store.get(&Locator::from_url("/guide")).unwrap() {
        ThreadNode::Section(sec) => sec.children.len(),
        ThreadNode::Page(_) => panic!("expected a section"),
    };
    assert_eq!(guide_children_after, guide_children_before - 1);
}

#[test]
fn create_rebuilds_the_parent_section() {
    // Create propagation: after a create event for a new file under the
    // guide directory, the store holds the new locator with the right
    // title, and the guide's child list holds exactly one matching child.
    let mut store = demo_store();
    let new_guide_listing = vec![
        file("index.md", "guide body"),
        file("1_setup.md", "setup body"),
        file("2_extras.md", "extras body"),
    ];
    let ok = handle_create(
        &mut store,
        "0_content/1_guide/2_extras.md",
        "0_content",
        "1_guide",
        &new_guide_listing,
        false,
    )
    .unwrap();
    assert!(ok);

    let extras = store.get(&Locator::from_url("/guide/extras")).unwrap();
    match extras {
        ThreadNode::Page(p) => assert_eq!(p.title, "extras"),
        ThreadNode::Section(_) => panic!("expected a page"),
    }
    match store.get(&Locator::from_url("/guide")).unwrap() {
        ThreadNode::Section(sec) => {
            assert_eq!(sec.children.len(), 2);
            let matching = sec
                .children
                .iter()
                .filter(|cid| match store.node(**cid) {
                    ThreadNode::Page(p) => p.loc == Locator::from_url("/guide/extras"),
                    ThreadNode::Section(s2) => {
                        s2.body.loc == Locator::from_url("/guide/extras")
                    },
                })
                .count();
            assert_eq!(matching, 1);
        },
        ThreadNode::Page(_) => panic!("expected a section"),
    }
}

#[test]
fn creating_an_index_file_rebuilds_the_grandparent() {
    // A new index file turns its directory into a section; the logical
    // parent to rebuild is the directory above it, here the content root.
    let mut store = demo_store();
    let new_root_listing = vec![
        file("index.md", "root body"),
        dir("1_guide", vec![file("index.md", "guide body"), file("1_setup.md", "setup body")]),
        dir("2_new", vec![file("index.md", "new section body")]),
    ];
    let ok = handle_create(
        &mut store,
        "0_content/2_new/index.md",
        "0_content",
        "0_content",
        &new_root_listing,
        true,
    )
    .unwrap();
    assert!(ok);
    match store.get(&Locator::from_url("/new")).unwrap() {
        ThreadNode::Section(sec) => assert_eq!(sec.body.title, "new"),
        ThreadNode::Page(_) => panic!("expected a section"),
    }
    match store.get(&Locator::root()).unwrap() {
        ThreadNode::Section(sec) => assert_eq!(sec.children.len(), 2),
        ThreadNode::Page(_) => panic!("expected a section"),
    }
}

#[test]
fn handle_event_reports_effective_batches() {
    let mut store = demo_store();
    let modify = WatchEvent::Modify {
        changes: vec![FileChange {
            path: "0_content/1_guide/1_setup.md".to_string(),
            text: "changed".to_string(),
        }],
    };
    assert!(handle_event(&mut store, &modify, "0_content"));
    assert!(!handle_event(&mut store, &WatchEvent::Other, "0_content"));

    let remove = WatchEvent::Remove { paths: vec!["0_content/1_guide/1_setup.md".to_string()] };
    assert!(handle_event(&mut store, &remove, "0_content"));
    assert!(store.get(&Locator::from_url("/guide/setup")).is_none());

    let create = WatchEvent::Create {
        creations: vec![Creation {
            path: "0_content/1_guide/1_setup.md".to_string(),
            dir_name: "1_guide".to_string(),
            dir_entries: vec![
                file("index.md", "guide body"),
                file("1_setup.md", "setup body"),
            ],
            dir_at_root: false,
        }],
    };
    assert!(handle_event(&mut store, &create, "0_content"));
    assert!(store.get(&Locator::from_url("/guide/setup")).is_some());
}
