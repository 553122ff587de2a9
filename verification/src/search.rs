use vstd::prelude::*;

use crate::locator::spec_url;
use crate::node::node_body;
use crate::store::Store;

verus! {

/// One entry of the client-side search index: a page's HTML, site URL and
/// title.
#[derive(Debug)]
pub struct Page {
    pub html: String,
    pub url: String,
    pub title: String,
}

/// Whether the search entry `p` describes the store entry at position `i`:
/// the URL of the entry's key, and the title and content of its node's
/// page.
pub open spec fn index_entry_matches(store: Store, i: int, p: Page) -> bool {
    let key = store.entries()[i].0;
    let body = node_body(store.nodes_seq()[store.entries()[i].1]);
    &&& p.url@ == key
    &&& p.title@ == body.title@
    &&& p.html@ == body.content@
}

/// The search index: one entry per store index entry, in index order, each
/// carrying the page's URL, title and HTML.
pub fn render_index(store: &Store) -> (r: Vec<Page>)
    requires
        store.wf(),
    ensures
        r@.len() == store.entry_count(),
        forall|i: int| 0 <= i < r@.len() ==> index_entry_matches(*store, i, #[trigger] r@[i]),
{
    let n = store.len();
    let mut out: Vec<Page> = Vec::new();
    let mut i: usize = 0;
    while i < n
        invariant
            i <= n,
            n == store.entry_count(),
            store.wf(),
            out@.len() == i,
            forall|j: int| 0 <= j < i ==> index_entry_matches(*store, j, #[trigger] out@[j]),
        decreases n - i,
    {
        let key = store.entry_key(i);
        let url = key.url();
        let id = store.entry_id(i);
        let body = store.node(id).body();
        out.push(Page { html: body.content.clone(), url, title: body.title.clone() });
        i += 1;
    }
    out
}

/// When no two index entries share a key, no two search entries share a
/// URL: each page appears exactly once.
pub proof fn lemma_index_urls_unique(store: Store, r: Seq<Page>)
    requires
        r.len() == store.entry_count(),
        forall|i: int| 0 <= i < r.len() ==> index_entry_matches(store, i, #[trigger] r[i]),
        forall|i: int, j: int|
            0 <= i < j < store.entries().len() ==> (#[trigger] store.entries()[i]).0 != (
            #[trigger] store.entries()[j]).0,
    ensures
        forall|i: int, j: int| 0 <= i < j < r.len() ==> (#[trigger] r[i]).url@ != (
        #[trigger] r[j]).url@,
{
    assert forall|i: int, j: int| 0 <= i < j < r.len() implies (#[trigger] r[i]).url@ != (
    #[trigger] r[j]).url@ by {
        assert(index_entry_matches(store, i, r[i]));
        assert(index_entry_matches(store, j, r[j]));
    }
}

/// When no index entry carries the key `k` — as after a removal — no
/// search entry carries `k` as its URL.
pub proof fn lemma_index_omits_key(store: Store, r: Seq<Page>, k: Seq<char>)
    requires
        r.len() == store.entry_count(),
        forall|i: int| 0 <= i < r.len() ==> index_entry_matches(store, i, #[trigger] r[i]),
        forall|j: int| 0 <= j < store.entries().len() ==> (#[trigger] store.entries()[j]).0 != k,
    ensures
        forall|i: int| 0 <= i < r.len() ==> (#[trigger] r[i]).url@ != k,
{
    assert forall|i: int| 0 <= i < r.len() implies (#[trigger] r[i]).url@ != k by {
        assert(index_entry_matches(store, i, r[i]));
        assert(store.entries()[i].0 != k);
    }
}

} // verus!
