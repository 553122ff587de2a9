use vstd::prelude::*;

use crate::errors::Error;
use crate::locator::{spec_url, Locator};
use crate::node::{links_views, Node, Page, Section};
use crate::store::{snapshot_matches, Store};

verus! {

/// The dead ones among the link targets `links`: those whose normalized
/// URLs the store does not hold.
pub open spec fn spec_dead_links(links: Seq<Seq<Seq<char>>>, store: Store) -> Seq<Seq<Seq<char>>>
    decreases links.len(),
{
    if links.len() == 0 {
        Seq::empty()
    } else if store.contains_key(spec_url(links[0])) {
        spec_dead_links(links.drop_first(), store)
    } else {
        seq![links[0]] + spec_dead_links(links.drop_first(), store)
    }
}

/// The dead links over a whole snapshot section: the body page's dead
/// links, then every child's, in order.
pub open spec fn spec_section_dead(sec: Section, store: Store) -> Seq<Seq<Seq<char>>>
    decreases sec,
{
    spec_dead_links(links_views(sec.body.links@), store) + spec_nodes_dead(sec.children@, store)
}

/// The dead links over a list of snapshot nodes, in order.
pub open spec fn spec_nodes_dead(ns: Seq<Node>, store: Store) -> Seq<Seq<Seq<char>>>
    decreases ns,
{
    if ns.len() == 0 {
        Seq::empty()
    } else {
        (match ns[0] {
            Node::Section(sec) => spec_section_dead(sec, store),
            Node::Page(p) => spec_dead_links(links_views(p.links@), store),
        }) + spec_nodes_dead(ns.drop_first(), store)
    }
}

/// The dead links of one page: every link locator the store does not hold,
/// in the page's link order.
pub fn check_links(page: &Page, store: &Store) -> (r: Vec<Locator>)
    requires
        store.wf(),
    ensures
        links_views(r@) == spec_dead_links(links_views(page.links@), *store),
{
    let ghost all = links_views(page.links@);
    let n = page.links.len();
    let mut out: Vec<Locator> = Vec::new();
    let mut i: usize = 0;
    proof {
        assert(all.skip(0) =~= all);
        assert(links_views(out@) + spec_dead_links(all, *store) =~= spec_dead_links(all, *store));
    }
    while i < n
        invariant
            i <= n,
            n == page.links@.len(),
            store.wf(),
            all == links_views(page.links@),
            links_views(out@) + spec_dead_links(all.skip(i as int), *store) == spec_dead_links(
                all,
                *store,
            ),
        decreases n - i,
    {
        let ghost rest = all.skip(i as int);
        proof {
            assert(rest.drop_first() =~= all.skip(i + 1));
            assert(rest[0] == all[i as int]);
        }
        let link = &page.links[i];
        let found = match store.get_id(link) {
            Some(_) => true,
            None => false,
        };
        if !found {
            out.push(link.clone());
            proof {
                assert(links_views(out@) + spec_dead_links(all.skip(i + 1), *store)
                    =~= spec_dead_links(all, *store));
            }
        }
        i += 1;
    }
    proof {
        assert(all.skip(n as int) =~= Seq::<Seq<Seq<char>>>::empty());
        assert(links_views(out@) =~= spec_dead_links(all, *store));
    }
    out
}

/// The dead links over a snapshot section and everything below it.
pub fn check_links_section(section: &Section, store: &Store) -> (r: Vec<Locator>)
    requires
        store.wf(),
    ensures
        links_views(r@) == spec_section_dead(*section, *store),
    decreases *section,
{
    let mut out = check_links(&section.body, store);
    let ghost all = section.children@;
    let n = section.children.len();
    let mut i: usize = 0;
    proof {
        assert(all.skip(0) =~= all);
        assert(links_views(out@) + spec_nodes_dead(all, *store) =~= spec_section_dead(
            *section,
            *store,
        ));
    }
    while i < n
        invariant
            i <= n,
            n == section.children@.len(),
            store.wf(),
            all == section.children@,
            links_views(out@) + spec_nodes_dead(all.skip(i as int), *store) == spec_section_dead(
                *section,
                *store,
            ),
        decreases n - i,
    {
        let ghost rest = all.skip(i as int);
        let ghost pre = links_views(out@);
        proof {
            assert(rest.drop_first() =~= all.skip(i + 1));
            assert(rest[0] == all[i as int]);
        }
        let mut dead = match &section.children[i] {
            Node::Section(sec) => check_links_section(sec, store),
            Node::Page(p) => check_links(p, store),
        };
        let ghost dv = links_views(dead@);
        out.append(&mut dead);
        proof {
            assert(links_views(out@) =~= pre + dv);
            assert((pre + dv) + spec_nodes_dead(all.skip(i + 1), *store) =~= spec_section_dead(
                *section,
                *store,
            ));
        }
        i += 1;
    }
    proof {
        assert(all.skip(n as int) =~= Seq::<Node>::empty());
        assert(links_views(out@) =~= spec_section_dead(*section, *store));
    }
    out
}

/// Whether `v` is the dead-link list of some faithful snapshot of the
/// store's root section.
pub open spec fn root_dead_links(store: Store, v: Seq<Locator>) -> bool {
    exists|s: Section|
        {
            &&& #[trigger] snapshot_matches(
                store.nodes_seq(),
                store.lookup(spec_url(Seq::<Seq<char>>::empty()))->Some_0,
                Node::Section(s),
            )
            &&& links_views(v) == spec_section_dead(s, store)
        }
}

/// The dead links of the whole stored tree, checked over a snapshot of the
/// root section. Fails exactly as taking the snapshot does: with `IO` when
/// no root has been read, and `WrongKind` when the root node is a page.
pub fn check_links_root(store: &Store) -> (r: Result<Vec<Locator>, Error>)
    requires
        store.wf(),
    ensures
        match r {
            Ok(v) => store.lookup(spec_url(Seq::<Seq<char>>::empty())) matches Some(id)
                && store.nodes_seq()[id] is Section && root_dead_links(*store, v@),
            Err(e) => (e == Error::IO && store.lookup(spec_url(Seq::<Seq<char>>::empty())) is None) || (e
                == Error::WrongKind && (store.lookup(spec_url(Seq::<Seq<char>>::empty())) matches Some(id)
                && store.nodes_seq()[id] is Page)),
        },
{
    let root = match store.get_root() {
        Ok(s) => s,
        Err(e) => {
            return Err(e);
        },
    };
    let dead = check_links_section(&root, store);
    proof {
        assert(snapshot_matches(
            store.nodes_seq(),
            store.lookup(spec_url(Seq::<Seq<char>>::empty()))->Some_0,
            Node::Section(root),
        ));
        assert(root_dead_links(*store, dead@));
    }
    Ok(dead)
}

} // verus!
