use vstd::prelude::*;

use crate::errors::Error;
use crate::locator::{
    index_seg, spec_from_content, spec_parent, spec_url, Locator,
};
use crate::markdown::{
    internal_links, markdown_to_html, md_html, md_link_dests, md_parses, spec_internal_links,
};
use crate::node::{links_views, node_body, node_key, page_like, Page, ThreadNode, ThreadSection};
use crate::reader::{
    built_matches, find_last_char, get_stem, read, reg_keys, spec_last_index, spec_ordered,
    spec_own_loc, spec_read_result, spec_stem, FsNode,
};
use crate::store::{
    entry_keys, lemma_keep_children_gone, lemma_remove_key_all_differ, lemma_remove_key_gone,
    spec_keep_children, spec_lookup, spec_remove_key, Store,
};
use crate::strutil::str_eq;

verus! {

/// One changed file of a modify batch: the path and the file's new text.
#[derive(Debug)]
pub struct FileChange {
    pub path: String,
    pub text: String,
}

/// One created file of a create batch: the path, and a fresh snapshot of
/// the directory that has to be rebuilt — the one `create_read_target`
/// names — together with its name and whether it is the content root.
#[derive(Debug)]
pub struct Creation {
    pub path: String,
    pub dir_name: String,
    pub dir_entries: Vec<FsNode>,
    pub dir_at_root: bool,
}

/// A debounced filesystem event, with the data the store mutations need
/// already read off the disk.
#[derive(Debug)]
pub enum WatchEvent {
    Modify { changes: Vec<FileChange> },
    Create { creations: Vec<Creation> },
    Remove { paths: Vec<String> },
    Other,
}

/// The name part of a slash-separated path.
pub open spec fn spec_file_part(p: Seq<char>) -> Seq<char> {
    if p.contains('/') {
        p.skip(spec_last_index(p, '/') + 1)
    } else {
        p
    }
}

/// The directory part of a slash-separated path.
pub open spec fn spec_dir_part(p: Seq<char>) -> Seq<char> {
    p.take(spec_last_index(p, '/'))
}

/// The directory a create event rebuilds: the created file's directory,
/// or, when the created file is an index file, the directory above it —
/// the new section's logical parent.
pub open spec fn spec_create_target(p: Seq<char>) -> Option<Seq<char>> {
    if !p.contains('/') {
        None
    } else {
        let d1 = spec_dir_part(p);
        if spec_stem(spec_file_part(p)) == index_seg() {
            if d1.contains('/') {
                Some(spec_dir_part(d1))
            } else {
                None
            }
        } else {
            Some(d1)
        }
    }
}

/// Whether the created file is an index file, so that the rebuilt section
/// is its grandparent directory's rather than its own directory's.
pub open spec fn spec_created_index(p: Seq<char>) -> bool {
    spec_stem(spec_file_part(p)) == index_seg()
}

/// Whether the file at `path` is an index file, read off its name's stem.
pub fn created_is_index(path: &str) -> (r: bool)
    ensures
        r == spec_created_index(path@),
{
    let n = path.unicode_len();
    let fname = match find_last_char(path, '/') {
        Some(i) => path.substring_char(i + 1, n),
        None => path,
    };
    proof {
        assert(fname@ == spec_file_part(path@));
        reveal_strlit("index");
        assert("index"@ =~= index_seg());
        if fname@.len() == 0 {
            assert(spec_last_index(fname@, '.') == -1);
            assert(spec_stem(fname@) == fname@);
            assert(index_seg().len() == 5);
        }
    }
    match get_stem(fname) {
        Ok(stem) => str_eq(stem.as_str(), "index"),
        Err(_) => false,
    }
}

/// The on-disk directory a create event for `path` has to re-read, or
/// `None` when the path has no such parent.
pub fn create_read_target(path: &str) -> (r: Option<String>)
    ensures
        match r {
            Some(d) => spec_create_target(path@) == Some(d@),
            None => spec_create_target(path@) is None,
        },
{
    let is_index = created_is_index(path);
    let i = match find_last_char(path, '/') {
        Some(i) => i,
        None => {
            return None;
        },
    };
    let d1 = path.substring_char(0, i);
    proof {
        assert(d1@ == spec_dir_part(path@));
    }
    if is_index {
        match find_last_char(d1, '/') {
            Some(i2) => Some(d1.substring_char(0, i2).to_owned()),
            None => None,
        }
    } else {
        Some(d1.to_owned())
    }
}

/// What a modify event leaves behind: only the node at `id` changed, and
/// of it only the content and links, recomputed from `text` against the
/// node's own locator; every other node and every index entry is
/// untouched.
pub open spec fn modify_applied(s0: Store, s1: Store, id: int, text: Seq<char>) -> bool {
    let n0 = s0.nodes_seq()[id];
    let n1 = s1.nodes_seq()[id];
    &&& s1.entries() == s0.entries()
    &&& s1.nodes_seq().len() == s0.nodes_seq().len()
    &&& (forall|j: int|
        0 <= j && j < s1.nodes_seq().len() && j != id ==> s1.nodes_seq()[j] == s0.nodes_seq()[j])
    &&& (n1 is Section <==> n0 is Section)
    &&& node_body(n1).title == node_body(n0).title
    &&& node_body(n1).loc == node_body(n0).loc
    &&& node_body(n1).content@ == md_html(text, node_body(n0).loc@)
    &&& links_views(node_body(n1).links@) == spec_internal_links(
        md_link_dests(text),
        node_body(n0).loc@,
    )
    &&& (n0 is Section ==> n1->Section_0.children == n0->Section_0.children)
}

/// Applies one modify event: resolves the path, recomputes the node's
/// content from the new text against the node's own locator, and replaces
/// only that node's content and links.
///
/// Returns `Ok(true)` when a node changed, `Ok(false)` when the path
/// resolves to no stored node, and the resolution or conversion error
/// otherwise; in the last two cases the store is untouched. No other
/// node, and no index entry, ever changes: the modify event is isolated.
pub fn handle_modify(store: &mut Store, path: &str, content_root: &str, text: &str) -> (r: Result<
    bool,
    Error,
>)
    requires
        old(store).wf(),
    ensures
        final(store).wf(),
        final(store).entries() == old(store).entries(),
        final(store).nodes_seq().len() == old(store).nodes_seq().len(),
        match r {
            Ok(b) => {
                if b {
                    spec_from_content(path@, content_root@) matches Ok(segs) && (old(
                        store,
                    ).lookup(spec_url(segs)) matches Some(id) && md_parses(text@)
                        && modify_applied(*old(store), *final(store), id, text@))
                } else {
                    final(store).nodes_seq() == old(store).nodes_seq() && (spec_from_content(
                        path@,
                        content_root@,
                    ) matches Ok(segs) && old(store).lookup(spec_url(segs)) is None)
                }
            },
            Err(e) => final(store).nodes_seq() == old(store).nodes_seq() && (spec_from_content(
                path@,
                content_root@,
            ) == Err::<Seq<Seq<char>>, Error>(e) || (e == Error::MarkdownConversion && !md_parses(
                text@,
            ) && spec_from_content(path@, content_root@) is Ok)),
        },
{
    let loc = match Locator::from_content_path(path, content_root) {
        Ok(l) => l,
        Err(e) => {
            return Err(e);
        },
    };
    let id = match store.get_id(&loc) {
        Some(id) => id,
        None => {
            return Ok(false);
        },
    };
    let nloc = store.node(id).body().loc.clone();
    let html = match markdown_to_html(text.to_owned(), &nloc) {
        Ok(h) => h,
        Err(e) => {
            return Err(e);
        },
    };
    let links = match internal_links(text, &nloc) {
        Ok(ls) => ls,
        Err(_) => {
            proof {
                assert(false);
            }
            return Err(Error::MarkdownConversion);
        },
    };
    store.set_content(id, html, links);
    Ok(true)
}

/// What a remove event for the locator segments `segs` leaves behind: the
/// locator's index entries are gone, and when the locator's parent still
/// maps to a section, that section's child list keeps exactly the
/// children whose locators differ from the removed one; nothing else
/// changes.
pub open spec fn remove_applied(s0: Store, s1: Store, segs: Seq<Seq<char>>) -> bool {
    let k = spec_url(segs);
    let entries1 = spec_remove_key(s0.entries(), k);
    &&& s1.entries() == entries1
    &&& s1.lookup(k) is None
    &&& (forall|j: int|
        0 <= j && j < s1.entries().len() ==> (#[trigger] s1.entries()[j]).0 != k)
    &&& s1.nodes_seq().len() == s0.nodes_seq().len()
    &&& match spec_lookup(entries1, spec_url(spec_parent(segs))) {
        None => s1.nodes_seq() == s0.nodes_seq(),
        Some(pid) => {
            &&& s0.nodes_seq()[pid] is Section
            &&& (forall|j: int|
                0 <= j && j < s1.nodes_seq().len() && j != pid ==> s1.nodes_seq()[j]
                    == s0.nodes_seq()[j])
            &&& s1.nodes_seq()[pid] is Section
            &&& s1.nodes_seq()[pid]->Section_0.body == s0.nodes_seq()[pid]->Section_0.body
            &&& s1.nodes_seq()[pid]->Section_0.children@ == spec_keep_children(
                s0.nodes_seq(),
                s0.nodes_seq()[pid]->Section_0.children@,
                k,
            )
            &&& (forall|j: int|
                0 <= j && j < s1.nodes_seq()[pid]->Section_0.children@.len() ==> node_key(
                    s1.nodes_seq()[(#[trigger] s1.nodes_seq()[pid]->Section_0.children@[j]) as int],
                ) != k)
        },
    }
}

/// What a remove event that stopped at a leaf-page parent leaves behind:
/// the locator's index entries are gone, every node untouched, and the
/// locator's parent indeed maps to a leaf page — the one situation in
/// which the structural half of the removal cannot go on.
pub open spec fn remove_entries_only(s0: Store, s1: Store, segs: Seq<Seq<char>>) -> bool {
    &&& s1.nodes_seq() == s0.nodes_seq()
    &&& s1.entries() == spec_remove_key(s0.entries(), spec_url(segs))
    &&& (spec_lookup(s1.entries(), spec_url(spec_parent(segs))) matches Some(pid)
        && s0.nodes_seq()[pid] is Page)
}

/// Applies one remove event: drops the path's index entries, then, when
/// the locator's parent maps to a section, removes every child equal to
/// the removed locator from that section's child list.
///
/// Afterwards the store no longer contains the locator, and the parent's
/// child list holds no child equal to it. Fails when the path does not
/// resolve, leaving the store untouched; it also fails when the parent
/// node is a leaf page, though by then the index entries are already
/// gone.
pub fn handle_remove(store: &mut Store, path: &str, content_root: &str) -> (r: Result<bool, Error>)
    requires
        old(store).wf(),
    ensures
        final(store).wf(),
        final(store).nodes_seq().len() == old(store).nodes_seq().len(),
        match r {
            Ok(b) => b && (spec_from_content(path@, content_root@) matches Ok(segs)
                && remove_applied(*old(store), *final(store), segs)),
            Err(e) => if spec_from_content(path@, content_root@) is Err {
                spec_from_content(path@, content_root@) == Err::<Seq<Seq<char>>, Error>(e)
                    && final(store).nodes_seq() == old(store).nodes_seq() && final(store).entries()
                    == old(store).entries()
            } else {
                e == Error::WrongKind && (spec_from_content(path@, content_root@) matches Ok(
                    segs,
                ) && remove_entries_only(*old(store), *final(store), segs))
            },
        },
{
    let loc = match Locator::from_content_path(path, content_root) {
        Ok(l) => l,
        Err(e) => {
            return Err(e);
        },
    };
    let ghost k = spec_url(loc@);
    store.remove(&loc);
    proof {
        lemma_remove_key_gone(old(store).entries(), k);
        lemma_remove_key_all_differ(old(store).entries(), k);
    }
    let parent_loc = loc.parent();
    let pid = match store.get_id(&parent_loc) {
        Some(pid) => pid,
        None => {
            return Ok(true);
        },
    };
    let is_section = match store.node(pid) {
        ThreadNode::Section(_) => true,
        ThreadNode::Page(_) => false,
    };
    if !is_section {
        return Err(Error::WrongKind);
    }
    let ghost nodes_mid = store.nodes_seq();
    store.remove_child(pid, &loc);
    proof {
        lemma_keep_children_gone(
            nodes_mid,
            nodes_mid[pid as int]->Section_0.children@,
            k,
        );
        let nodes_end = store.nodes_seq();
        let ch = nodes_end[pid as int]->Section_0.children@;
        assert forall|j: int| 0 <= j < ch.len() implies node_key(
            nodes_end[(#[trigger] ch[j]) as int],
        ) != k by {
            assert(node_key(nodes_mid[ch[j] as int]) != k);
            if ch[j] != pid {
                assert(nodes_end[ch[j] as int] == nodes_mid[ch[j] as int]);
            } else {
                assert(node_body(nodes_end[pid as int]) == node_body(nodes_mid[pid as int]));
            }
        }
    }
    Ok(true)
}

/// What a create event leaves behind: a freshly built subtree for the
/// rebuilt directory stands in the arena at some new identifier `nid`,
/// and when the target locator maps to a stored section, that section now
/// carries the fresh subtree's children and page; every other old node is
/// untouched.
/// Whether `s1` only extends `s0`: every old node and every old index
/// entry is still in place.
pub open spec fn store_extends(s0: Store, s1: Store) -> bool {
    &&& s0.nodes_seq().len() <= s1.nodes_seq().len()
    &&& (forall|j: int|
        0 <= j && j < s0.nodes_seq().len() ==> s1.nodes_seq()[j] == s0.nodes_seq()[j])
    &&& s0.entries().len() <= s1.entries().len()
    &&& s1.entries().take(s0.entries().len() as int) == s0.entries()
}

/// What a create event leaves behind, for some fresh subtree identifier.
pub open spec fn create_event_applied(
    s0: Store,
    s1: Store,
    segs: Seq<Seq<char>>,
    created_index: bool,
    dir_name: Seq<char>,
    dir_entries: Vec<FsNode>,
    dir_at_root: bool,
) -> bool {
    exists|nid: int|
        #[trigger] create_applied(
            s0,
            s1,
            segs,
            created_index,
            dir_name,
            dir_entries,
            dir_at_root,
            nid,
        )
}

pub open spec fn create_applied(
    s0: Store,
    s1: Store,
    segs: Seq<Seq<char>>,
    created_index: bool,
    dir_name: Seq<char>,
    dir_entries: Vec<FsNode>,
    dir_at_root: bool,
    nid: int,
) -> bool {
    let target = if created_index {
        spec_parent(spec_parent(segs))
    } else {
        spec_parent(segs)
    };
    let k = spec_url(target);
    {
            &&& s0.nodes_seq().len() <= nid < s1.nodes_seq().len()
            &&& built_matches(
                s1.nodes_seq(),
                nid,
                dir_name,
                dir_entries@,
                spec_own_loc(spec_parent(target), dir_name, dir_at_root),
            )
            &&& s1.entries().take(s0.entries().len() as int) == s0.entries()
            &&& entry_keys(s1.entries()) == entry_keys(s0.entries()) + reg_keys(
                dir_entries@,
                spec_ordered(dir_entries@),
                spec_own_loc(spec_parent(target), dir_name, dir_at_root),
            )
            &&& match spec_lookup(s1.entries(), k) {
                None => forall|j: int|
                    0 <= j && j < s0.nodes_seq().len() ==> s1.nodes_seq()[j] == s0.nodes_seq()[j],
                Some(pid) => (pid < s0.nodes_seq().len() && s0.nodes_seq()[pid] is Section) ==> {
                    &&& s1.nodes_seq()[pid] is Section
                    &&& s1.nodes_seq()[pid]->Section_0.children@
                        == s1.nodes_seq()[nid]->Section_0.children@
                    &&& page_like(
                        s1.nodes_seq()[nid]->Section_0.body,
                        s1.nodes_seq()[pid]->Section_0.body,
                    )
                    &&& (forall|j: int|
                        0 <= j && j < s0.nodes_seq().len() && j != pid ==> s1.nodes_seq()[j]
                            == s0.nodes_seq()[j])
                },
            }
    }
}

/// Applies one create event: resolves the created path, rebuilds the
/// logical parent directory from the snapshot the event carries, and
/// replaces the stored parent section's children wholesale with the fresh
/// subtree, re-registering every rebuilt node. When the parent locator
/// maps to no stored section the rebuilt nodes stay registered but no
/// child list changes, as in a full initial read still in progress.
#[verifier::rlimit(50)]
pub fn handle_create(
    store: &mut Store,
    path: &str,
    content_root: &str,
    dir_name: &str,
    dir_entries: &Vec<FsNode>,
    dir_at_root: bool,
) -> (r: Result<bool, Error>)
    requires
        old(store).wf(),
    ensures
        final(store).wf(),
        old(store).nodes_seq().len() <= final(store).nodes_seq().len(),
        match r {
            Ok(b) => b && spec_read_result(dir_name@, dir_entries@) == Ok::<(), Error>(())
                && (spec_from_content(path@, content_root@) matches Ok(segs)
                && create_event_applied(
                *old(store),
                *final(store),
                segs,
                spec_created_index(path@),
                dir_name@,
                *dir_entries,
                dir_at_root,
            )),
            Err(e) => store_extends(*old(store), *final(store)) && (if spec_from_content(
                path@,
                content_root@,
            ) is Err {
                spec_from_content(path@, content_root@) == Err::<Seq<Seq<char>>, Error>(e)
                    && final(store).nodes_seq() == old(store).nodes_seq() && final(store).entries()
                    == old(store).entries()
            } else if spec_read_result(dir_name@, dir_entries@) is Err {
                spec_read_result(dir_name@, dir_entries@) == Err::<(), Error>(e)
            } else {
                e == Error::WrongKind && (spec_from_content(path@, content_root@) matches Ok(
                    segs,
                ) && create_blocked(*final(store), segs, spec_created_index(path@)))
            }),
        },
{
    let loc = match Locator::from_content_path(path, content_root) {
        Ok(l) => l,
        Err(e) => {
            proof {
                assert(store.entries().take(store.entries().len() as int) =~= store.entries());
            }
            return Err(e);
        },
    };
    let is_index = created_is_index(path);
    let target_loc = if is_index {
        loc.parent().parent()
    } else {
        loc.parent()
    };
    let base_loc = target_loc.parent();
    let ghost segs = loc@;
    let ghost target = if spec_created_index(path@) {
        spec_parent(spec_parent(segs))
    } else {
        spec_parent(segs)
    };
    proof {
        assert(target_loc@ == target);
        assert(base_loc@ == spec_parent(target));
    }
    let nid = match read(dir_name, dir_entries, &base_loc, dir_at_root, store) {
        Ok(id) => id,
        Err(e) => {
            return Err(e);
        },
    };
    let ghost nodes_after_read = store.nodes_seq();
    let pid = match store.get_id(&target_loc) {
        Some(pid) => pid,
        None => {
            proof {
                assert(built_matches(
                    store.nodes_seq(),
                    nid as int,
                    dir_name@,
                    dir_entries@,
                    spec_own_loc(spec_parent(target), dir_name@, dir_at_root),
                ));
                assert(create_applied(
                    *old(store),
                    *store,
                    segs,
                    spec_created_index(path@),
                    dir_name@,
                    *dir_entries,
                    dir_at_root,
                    nid as int,
                ));
                assert(create_event_applied(
                    *old(store),
                    *store,
                    segs,
                    spec_created_index(path@),
                    dir_name@,
                    *dir_entries,
                    dir_at_root,
                ));
            }
            return Ok(true);
        },
    };
    let is_section = match store.node(pid) {
        ThreadNode::Section(_) => true,
        ThreadNode::Page(_) => false,
    };
    if !is_section {
        return Err(Error::WrongKind);
    }
    let fresh = match store.node(nid) {
        ThreadNode::Section(sec) => ThreadSection {
            children: copy_ids(&sec.children),
            body: sec.body.clone(),
        },
        ThreadNode::Page(_) => {
            proof {
                assert(false);
            }
            ThreadSection::new(
                Page {
                    title: String::new(),
                    loc: Locator::root(),
                    content: String::new(),
                    links: Vec::new(),
                },
            )
        },
    };
    if pid < nid {
        proof {
            assert(crate::store::node_wf(
                store.nodes_seq()[nid as int],
                nid as int,
                store.nodes_seq().len() as int,
            ));
        }
        store.set_section(pid, fresh);
        proof {
            crate::reader::lemma_built_frame(
                nodes_after_read,
                store.nodes_seq(),
                nid as int,
                dir_name@,
                dir_entries@,
                spec_own_loc(spec_parent(target), dir_name@, dir_at_root),
            );
            assert(create_applied(
                *old(store),
                *store,
                segs,
                spec_created_index(path@),
                dir_name@,
                *dir_entries,
                dir_at_root,
                nid as int,
            ));
            assert(create_event_applied(
                *old(store),
                *store,
                segs,
                spec_created_index(path@),
                dir_name@,
                *dir_entries,
                dir_at_root,
            ));
        }
        Ok(true)
    } else {
        proof {
            assert(built_matches(
                store.nodes_seq(),
                nid as int,
                dir_name@,
                dir_entries@,
                spec_own_loc(spec_parent(target), dir_name@, dir_at_root),
            ));
            assert(create_applied(
                *old(store),
                *store,
                segs,
                spec_created_index(path@),
                dir_name@,
                *dir_entries,
                dir_at_root,
                nid as int,
            ));
            assert(create_event_applied(
                *old(store),
                *store,
                segs,
                spec_created_index(path@),
                dir_name@,
                *dir_entries,
                dir_at_root,
            ));
        }
        Ok(true)
    }
}

/// Why one modify path leaves the store untouched: the path does not
/// resolve, the locator is not stored, or the new text does not parse.
pub open spec fn modify_skip_reason(s0: Store, ch: FileChange, root: Seq<char>) -> bool {
    ||| spec_from_content(ch.path@, root) is Err
    ||| (spec_from_content(ch.path@, root) matches Ok(segs) && s0.lookup(spec_url(segs)) is None)
    ||| !md_parses(ch.text@)
}

/// What handling one modify path may leave behind: the isolated update of
/// the resolved node, or — only on an unresolved path, an unknown locator
/// or a conversion failure — the store unchanged.
pub open spec fn modify_step(s0: Store, s1: Store, ch: FileChange, root: Seq<char>) -> bool {
    ||| (spec_from_content(ch.path@, root) matches Ok(segs) && (s0.lookup(spec_url(segs))
        matches Some(id) && md_parses(ch.text@) && modify_applied(s0, s1, id, ch.text@)))
    ||| (s1.nodes_seq() == s0.nodes_seq() && s1.entries() == s0.entries() && modify_skip_reason(
        s0,
        ch,
        root,
    ))
}

/// The chained effect of a modify batch, path by path in delivery order.
pub open spec fn modify_batch(
    s0: Store,
    s1: Store,
    changes: Seq<FileChange>,
    root: Seq<char>,
) -> bool
    decreases changes.len(),
{
    if changes.len() == 0 {
        s1 == s0
    } else {
        exists|mid: Store|
            #[trigger] modify_step(s0, mid, changes[0], root) && modify_batch(
                mid,
                s1,
                changes.drop_first(),
                root,
            )
    }
}

proof fn lemma_modify_batch_snoc(
    s0: Store,
    mid: Store,
    s1: Store,
    changes: Seq<FileChange>,
    ch: FileChange,
    root: Seq<char>,
)
    requires
        modify_batch(s0, mid, changes, root),
        modify_step(mid, s1, ch, root),
    ensures
        modify_batch(s0, s1, changes.push(ch), root),
    decreases changes.len(),
{
    assert(changes.push(ch)[0] == if changes.len() == 0 {
        ch
    } else {
        changes[0]
    });
    if changes.len() == 0 {
        assert(changes.push(ch).drop_first() =~= Seq::<FileChange>::empty());
        assert(modify_step(s0, s1, ch, root));
        assert(modify_batch(s1, s1, Seq::<FileChange>::empty(), root));
    } else {
        let m2 = choose|m2: Store|
            #[trigger] modify_step(s0, m2, changes[0], root) && modify_batch(
                m2,
                mid,
                changes.drop_first(),
                root,
            );
        lemma_modify_batch_snoc(m2, mid, s1, changes.drop_first(), ch, root);
        assert(changes.push(ch).drop_first() =~= changes.drop_first().push(ch));
        assert(modify_step(s0, m2, changes.push(ch)[0], root));
    }
}

/// What handling one remove path may leave behind: the full removal, the
/// index entries alone gone when the parent node is a leaf page, or — only
/// on an unresolved path — the store unchanged.
pub open spec fn remove_step(s0: Store, s1: Store, path: String, root: Seq<char>) -> bool {
    ||| (spec_from_content(path@, root) matches Ok(segs) && remove_applied(s0, s1, segs))
    ||| (spec_from_content(path@, root) matches Ok(segs) && remove_entries_only(s0, s1, segs))
    ||| (spec_from_content(path@, root) is Err && s1.nodes_seq() == s0.nodes_seq()
        && s1.entries() == s0.entries())
}

/// The chained effect of a remove batch, path by path in delivery order.
pub open spec fn remove_batch(s0: Store, s1: Store, paths: Seq<String>, root: Seq<char>) -> bool
    decreases paths.len(),
{
    if paths.len() == 0 {
        s1 == s0
    } else {
        exists|mid: Store|
            #[trigger] remove_step(s0, mid, paths[0], root) && remove_batch(
                mid,
                s1,
                paths.drop_first(),
                root,
            )
    }
}

proof fn lemma_remove_batch_snoc(
    s0: Store,
    mid: Store,
    s1: Store,
    paths: Seq<String>,
    p: String,
    root: Seq<char>,
)
    requires
        remove_batch(s0, mid, paths, root),
        remove_step(mid, s1, p, root),
    ensures
        remove_batch(s0, s1, paths.push(p), root),
    decreases paths.len(),
{
    assert(paths.push(p)[0] == if paths.len() == 0 {
        p
    } else {
        paths[0]
    });
    if paths.len() == 0 {
        assert(paths.push(p).drop_first() =~= Seq::<String>::empty());
        assert(remove_step(s0, s1, p, root));
        assert(remove_batch(s1, s1, Seq::<String>::empty(), root));
    } else {
        let m2 = choose|m2: Store|
            #[trigger] remove_step(s0, m2, paths[0], root) && remove_batch(
                m2,
                mid,
                paths.drop_first(),
                root,
            );
        lemma_remove_batch_snoc(m2, mid, s1, paths.drop_first(), p, root);
        assert(paths.push(p).drop_first() =~= paths.drop_first().push(p));
        assert(remove_step(s0, m2, paths.push(p)[0], root));
    }
}

/// Whether the create event's target locator maps to a stored node that
/// is a leaf page, so that no child list can be replaced.
pub open spec fn create_blocked(s1: Store, segs: Seq<Seq<char>>, created_index: bool) -> bool {
    let target = if created_index {
        spec_parent(spec_parent(segs))
    } else {
        spec_parent(segs)
    };
    spec_lookup(s1.entries(), spec_url(target)) matches Some(pid) && s1.nodes_seq()[pid] is Page
}

/// What handling one creation may leave behind: the rebuilt subtree
/// swapped in, or — only when the path does not resolve, the rebuild
/// fails, or the target node is a leaf page — a store that at most grew.
pub open spec fn create_step(s0: Store, s1: Store, cr: Creation, root: Seq<char>) -> bool {
    ||| (spec_from_content(cr.path@, root) matches Ok(segs) && create_event_applied(
        s0,
        s1,
        segs,
        spec_created_index(cr.path@),
        cr.dir_name@,
        cr.dir_entries,
        cr.dir_at_root,
    ))
    ||| (spec_from_content(cr.path@, root) is Err && s1.nodes_seq() == s0.nodes_seq()
        && s1.entries() == s0.entries())
    ||| (store_extends(s0, s1) && spec_read_result(cr.dir_name@, cr.dir_entries@) is Err)
    ||| (store_extends(s0, s1) && (spec_from_content(cr.path@, root) matches Ok(segs)
        && create_blocked(s1, segs, spec_created_index(cr.path@))))
}

/// The chained effect of a create batch, path by path in delivery order.
pub open spec fn create_batch(s0: Store, s1: Store, crs: Seq<Creation>, root: Seq<char>) -> bool
    decreases crs.len(),
{
    if crs.len() == 0 {
        s1 == s0
    } else {
        exists|mid: Store|
            #[trigger] create_step(s0, mid, crs[0], root) && create_batch(
                mid,
                s1,
                crs.drop_first(),
                root,
            )
    }
}

proof fn lemma_create_batch_snoc(
    s0: Store,
    mid: Store,
    s1: Store,
    crs: Seq<Creation>,
    cr: Creation,
    root: Seq<char>,
)
    requires
        create_batch(s0, mid, crs, root),
        create_step(mid, s1, cr, root),
    ensures
        create_batch(s0, s1, crs.push(cr), root),
    decreases crs.len(),
{
    assert(crs.push(cr)[0] == if crs.len() == 0 {
        cr
    } else {
        crs[0]
    });
    if crs.len() == 0 {
        assert(crs.push(cr).drop_first() =~= Seq::<Creation>::empty());
        assert(create_step(s0, s1, cr, root));
        assert(create_batch(s1, s1, Seq::<Creation>::empty(), root));
    } else {
        let m2 = choose|m2: Store|
            #[trigger] create_step(s0, m2, crs[0], root) && create_batch(
                m2,
                mid,
                crs.drop_first(),
                root,
            );
        lemma_create_batch_snoc(m2, mid, s1, crs.drop_first(), cr, root);
        assert(crs.push(cr).drop_first() =~= crs.drop_first().push(cr));
        assert(create_step(s0, m2, crs.push(cr)[0], root));
    }
}

/// Copies a list of node identifiers.
fn copy_ids(v: &Vec<usize>) -> (r: Vec<usize>)
    ensures
        r@ == v@,
{
    let n = v.len();
    let mut out: Vec<usize> = Vec::new();
    let mut i: usize = 0;
    while i < n
        invariant
            i <= n,
            n == v@.len(),
            out@ == v@.take(i as int),
        decreases n - i,
    {
        out.push(v[i]);
        proof {
            assert(out@ =~= v@.take(i + 1));
        }
        i += 1;
    }
    proof {
        assert(v@.take(n as int) =~= v@);
    }
    out
}

/// Applies one debounced event batch to the store. Every path of the
/// batch is handled in delivery order; a path whose handling fails is
/// skipped, never fatal — the watcher loop must outlive any single event.
/// Returns whether the event was a content event, so that the caller can
/// publish one reload notification per effective batch.
pub fn handle_event(store: &mut Store, event: &WatchEvent, content_root: &str) -> (r: bool)
    requires
        old(store).wf(),
    ensures
        final(store).wf(),
        r == !(event is Other),
        event is Other ==> *final(store) == *old(store),
        *event matches WatchEvent::Modify { changes } ==> modify_batch(
            *old(store),
            *final(store),
            changes@,
            content_root@,
        ),
        *event matches WatchEvent::Create { creations } ==> create_batch(
            *old(store),
            *final(store),
            creations@,
            content_root@,
        ),
        *event matches WatchEvent::Remove { paths } ==> remove_batch(
            *old(store),
            *final(store),
            paths@,
            content_root@,
        ),
{
    match event {
        WatchEvent::Modify { changes } => {
            let n = changes.len();
            let mut i: usize = 0;
            proof {
                assert(changes@.take(0) =~= Seq::<FileChange>::empty());
            }
            while i < n
                invariant
                    i <= n,
                    store.wf(),
                    n == changes@.len(),
                    modify_batch(*old(store), *store, changes@.take(i as int), content_root@),
                decreases n - i,
            {
                let ghost pre = *store;
                let ch = &changes[i];
                let _r = handle_modify(store, ch.path.as_str(), content_root, ch.text.as_str());
                proof {
                    assert(modify_step(pre, *store, changes@[i as int], content_root@));
                    lemma_modify_batch_snoc(
                        *old(store),
                        pre,
                        *store,
                        changes@.take(i as int),
                        changes@[i as int],
                        content_root@,
                    );
                    assert(changes@.take(i + 1) =~= changes@.take(i as int).push(
                        changes@[i as int],
                    ));
                }
                i += 1;
            }
            proof {
                assert(changes@.take(n as int) =~= changes@);
            }
            true
        },
        WatchEvent::Create { creations } => {
            let n = creations.len();
            let mut i: usize = 0;
            proof {
                assert(creations@.take(0) =~= Seq::<Creation>::empty());
            }
            while i < n
                invariant
                    i <= n,
                    store.wf(),
                    n == creations@.len(),
                    create_batch(*old(store), *store, creations@.take(i as int), content_root@),
                decreases n - i,
            {
                let ghost pre = *store;
                let cr = &creations[i];
                let _r = handle_create(
                    store,
                    cr.path.as_str(),
                    content_root,
                    cr.dir_name.as_str(),
                    &cr.dir_entries,
                    cr.dir_at_root,
                );
                proof {
                    assert(create_step(pre, *store, creations@[i as int], content_root@));
                    lemma_create_batch_snoc(
                        *old(store),
                        pre,
                        *store,
                        creations@.take(i as int),
                        creations@[i as int],
                        content_root@,
                    );
                    assert(creations@.take(i + 1) =~= creations@.take(i as int).push(
                        creations@[i as int],
                    ));
                }
                i += 1;
            }
            proof {
                assert(creations@.take(n as int) =~= creations@);
            }
            true
        },
        WatchEvent::Remove { paths } => {
            let n = paths.len();
            let mut i: usize = 0;
            proof {
                assert(paths@.take(0) =~= Seq::<String>::empty());
            }
            while i < n
                invariant
                    i <= n,
                    store.wf(),
                    n == paths@.len(),
                    remove_batch(*old(store), *store, paths@.take(i as int), content_root@),
                decreases n - i,
            {
                let ghost pre = *store;
                let _r = handle_remove(store, paths[i].as_str(), content_root);
                proof {
                    assert(remove_step(pre, *store, paths@[i as int], content_root@));
                    lemma_remove_batch_snoc(
                        *old(store),
                        pre,
                        *store,
                        paths@.take(i as int),
                        paths@[i as int],
                        content_root@,
                    );
                    assert(paths@.take(i + 1) =~= paths@.take(i as int).push(paths@[i as int]));
                }
                i += 1;
            }
            proof {
                assert(paths@.take(n as int) =~= paths@);
            }
            true
        },
        WatchEvent::Other => false,
    }
}

} // verus!
