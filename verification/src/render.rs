use vstd::prelude::*;

use crate::errors::Error;
use crate::locator::{spec_url, Locator};
use crate::node::Section;
use crate::reader::{
    built_matches, fs_count_idx, read, reg_keys, spec_ordered, spec_read_result, FsNode,
};
use crate::store::{entry_keys, lemma_lookup_push, snapshot_matches, Store};

verus! {

/// The snapshot of the whole tree: the root section, fully copied out of
/// the store for rendering.
pub fn get_root(store: &Store) -> (r: Result<Section, Error>)
    requires
        store.wf(),
    ensures
        match r {
            Ok(s) => store.lookup(spec_url(Seq::<Seq<char>>::empty())) matches Some(id)
                && store.nodes_seq()[id] is Section && snapshot_matches(
                store.nodes_seq(),
                id,
                crate::node::Node::Section(s),
            ),
            Err(e) => (e == Error::IO && store.lookup(spec_url(Seq::<Seq<char>>::empty())) is None) || (e
                == Error::WrongKind && (store.lookup(spec_url(Seq::<Seq<char>>::empty())) matches Some(id)
                && store.nodes_seq()[id] is Page)),
        },
{
    store.get_root()
}

/// Reads the whole content directory into the store and registers the root
/// section under the root locator.
///
/// On success the store holds one index entry per node of the built tree,
/// each keyed by that node's own locator: the subtree's keys in
/// registration order, then the root's. Starting from an empty store this
/// makes the entry count equal to the number of nodes reachable from the
/// root — the store's uniqueness law — and fixes the key set itself.
pub fn read_files(store: &mut Store, root_name: &str, entries: &Vec<FsNode>) -> (r: Result<
    (),
    Error,
>)
    requires
        old(store).wf(),
    ensures
        final(store).wf(),
        old(store).nodes_seq().len() <= final(store).nodes_seq().len(),
        forall|j: int|
            0 <= j < old(store).nodes_seq().len() ==> final(store).nodes_seq()[j] == old(
                store,
            ).nodes_seq()[j],
        match r {
            Ok(u) => spec_read_result(root_name@, entries@) == Ok::<(), Error>(()) && (
            final(store).lookup(spec_url(Seq::<Seq<char>>::empty())) matches Some(id) && built_matches(
                final(store).nodes_seq(),
                id,
                root_name@,
                entries@,
                Seq::<Seq<char>>::empty(),
            )) && final(store).entry_count() == old(store).entry_count() + 1 + fs_count_idx(
                entries@,
                spec_ordered(entries@),
            ) && entry_keys(final(store).entries()) == entry_keys(old(store).entries())
                + reg_keys(entries@, spec_ordered(entries@), Seq::<Seq<char>>::empty()).push(
                spec_url(Seq::<Seq<char>>::empty()),
            ),
            Err(e) => spec_read_result(root_name@, entries@) == Err::<(), Error>(e),
        },
{
    let base = Locator::root();
    let id = match read(root_name, entries, &base, true, store) {
        Ok(id) => id,
        Err(e) => {
            return Err(e);
        },
    };
    let ghost mid_entries = store.entries();
    let root_loc = Locator::root();
    store.insert(&root_loc, id);
    proof {
        assert(spec_url(root_loc@) == spec_url(
            Seq::<Seq<char>>::empty(),
        ));
        lemma_lookup_push(
            mid_entries,
            spec_url(Seq::<Seq<char>>::empty()),
            id as int,
            spec_url(Seq::<Seq<char>>::empty()),
        );
        assert(entry_keys(store.entries()) =~= entry_keys(mid_entries).push(
            spec_url(Seq::<Seq<char>>::empty()),
        ));
    }
    Ok(())
}

} // verus!
