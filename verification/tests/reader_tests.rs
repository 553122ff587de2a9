use mdsite::locator::Locator;
use mdsite::node::ThreadNode;
use mdsite::reader::{file_order_index, file_title, get_stem, ordered_entries, read, FsNode};
use mdsite::render::read_files;
use mdsite::store::Store;

fn file(name: &str, content: &str) -> FsNode {
    FsNode::File { name: name.to_string(), content: content.to_string() }
}

fn dir(name: &str, entries: Vec<FsNode>) -> FsNode {
    FsNode::Dir { name: name.to_string(), entries }
}

#[test]
fn stem_drops_the_extension() {
    assert_eq!(get_stem("2_setup.md").unwrap(), "2_setup");
    assert_eq!(get_stem("archive.tar.gz").unwrap(), "archive.tar");
    assert_eq!(get_stem("noext").unwrap(), "noext");
    assert_eq!(get_stem(".hidden").unwrap(), ".hidden");
    assert!(get_stem("").is_err());
}

#[test]
fn order_index_reads_the_numeric_prefix() {
    assert_eq!(file_order_index("3_foo.md").unwrap(), 3);
    assert_eq!(file_order_index("12_a_b.md").unwrap(), 12);
    assert!(file_order_index("foo.md").is_err());
    assert!(file_order_index("x_foo.md").is_err());
}

#[test]
fn title_joins_words_with_spaces() {
    assert_eq!(file_title("1_getting_started.md").unwrap(), "getting started");
    assert_eq!(file_title("2_setup.md").unwrap(), "setup");
    assert!(file_title("3.md").is_err());
    assert!(file_title("nounderscore").is_err());
}

#[test]
fn ordered_entries_sorts_by_index_and_skips_bad_names() {
    let entries = vec![
        file("index.md", "i"),
        file("9_last.md", "l"),
        file("oops.md", "x"),
        file("5_.md", "untitled"),
        file("1_first.md", "f"),
    ];
    let ordered = ordered_entries(&entries);
    assert_eq!(ordered, vec![4usize, 1usize]);
}

#[test]
fn ordered_entries_keeps_ties_in_enumeration_order() {
    let entries = vec![file("1_b.md", "b"), file("1_a.md", "a"), file("0_z.md", "z")];
    let ordered = ordered_entries(&entries);
    assert_eq!(ordered, vec![2usize, 0usize, 1usize]);
}

#[test]
fn read_builds_sections_and_registers_children() {
    let entries = vec![
        file("index.md", "# root"),
        dir("1_guide", vec![file("index.md", "# guide"), file("1_setup.md", "# setup")]),
    ];
    let mut store = Store::new();
    let id = read("0_content", &entries, &Locator::root(), true, &mut store).unwrap();
    // children were registered; the top section is left to the caller
    assert_eq!(store.len(), 2);
    let guide = store.get(&Locator::from_url("/guide")).unwrap();
    match guide {
        ThreadNode::Section(sec) => {
            assert_eq!(sec.body.title, "guide");
            assert_eq!(sec.children.len(), 1);
        },
        ThreadNode::Page(_) => panic!("expected a section"),
    }
    let setup = store.get(&Locator::from_url("/guide/setup")).unwrap();
    match setup {
        ThreadNode::Page(p) => assert_eq!(p.title, "setup"),
        ThreadNode::Section(_) => panic!("expected a page"),
    }
    let _ = id;
}

#[test]
fn read_fails_without_index_file() {
    let entries = vec![file("1_a.md", "a")];
    let mut store = Store::new();
    let r = read("0_content", &entries, &Locator::root(), true, &mut store);
    assert_eq!(r.unwrap_err(), mdsite::errors::Error::IO);
}

#[test]
fn untitled_entries_are_skipped_not_fatal() {
    // "3.md" has a readable order index but yields no title: it is skipped
    // with a warning, like any entry that breaks the naming convention,
    // and never aborts the read.
    let entries = vec![file("index.md", "i"), file("3.md", "x"), file("1_kept.md", "k")];
    let mut store = Store::new();
    read_files(&mut store, "0_content", &entries).unwrap();
    assert_eq!(store.len(), 2);
    assert!(store.get(&Locator::from_url("/kept")).is_some());
}

#[test]
fn read_files_registers_one_entry_per_node() {
    // Uniqueness: the number of store entries equals the number of nodes
    // reachable from the root: the root, the guide section, and two pages.
    let entries = vec![
        file("index.md", "# root"),
        file("1_intro.md", "hello"),
        dir("2_guide", vec![file("index.md", "# guide"), file("1_setup.md", "# setup")]),
    ];
    let mut store = Store::new();
    read_files(&mut store, "0_content", &entries).unwrap();
    assert_eq!(store.len(), 4);
    assert!(store.get(&Locator::root()).is_some());
    assert!(store.get(&Locator::from_url("/intro")).is_some());
    assert!(store.get(&Locator::from_url("/guide")).is_some());
    assert!(store.get(&Locator::from_url("/guide/setup")).is_some());
}
