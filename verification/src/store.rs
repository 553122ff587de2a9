use vstd::prelude::*;

use crate::errors::Error;
use crate::locator::{spec_url, Locator};
use crate::node::{node_body, node_key, page_like, Node, Page, Section, ThreadNode, ThreadSection};

verus! {

/// One lookup entry: a locator key and the identifier of its node.
#[derive(Debug)]
pub struct StoreEntry {
    pub key: Locator,
    pub id: usize,
}

/// Whether one arena node is well formed at position `id` in an arena of
/// `len` nodes: a section's children all lie strictly between its own
/// identifier and the arena's length. Child identifiers growing along every
/// edge is what makes the tree finite.
pub open spec fn node_wf(n: ThreadNode, id: int, len: int) -> bool {
    match n {
        ThreadNode::Section(sec) => forall|c: int|
            0 <= c < sec.children@.len() ==> id < #[trigger] sec.children@[c] < len,
        ThreadNode::Page(_) => true,
    }
}

/// Whether every node of an arena is well formed at its position.
pub open spec fn nodes_wf(nodes: Seq<ThreadNode>) -> bool {
    forall|j: int| 0 <= j < nodes.len() ==> node_wf(#[trigger] nodes[j], j, nodes.len() as int)
}

/// The node identifier a key maps to: the latest entry with that key wins,
/// as in a map where inserting overwrites.
pub open spec fn spec_lookup(entries: Seq<(Seq<char>, int)>, k: Seq<char>) -> Option<int>
    decreases entries.len(),
{
    if entries.len() == 0 {
        None
    } else if entries.last().0 == k {
        Some(entries.last().1)
    } else {
        spec_lookup(entries.drop_last(), k)
    }
}

/// The entries with key `k` removed.
pub open spec fn spec_remove_key(entries: Seq<(Seq<char>, int)>, k: Seq<char>) -> Seq<
    (Seq<char>, int),
>
    decreases entries.len(),
{
    if entries.len() == 0 {
        Seq::empty()
    } else if entries[0].0 == k {
        spec_remove_key(entries.drop_first(), k)
    } else {
        seq![entries[0]] + spec_remove_key(entries.drop_first(), k)
    }
}

/// The children kept when removing the child whose page has key `k`:
/// every child whose node's normalized URL differs from `k`.
pub open spec fn spec_keep_children(
    nodes: Seq<ThreadNode>,
    children: Seq<usize>,
    k: Seq<char>,
) -> Seq<usize>
    decreases children.len(),
{
    if children.len() == 0 {
        Seq::empty()
    } else if node_key(nodes[children[0] as int]) == k {
        spec_keep_children(nodes, children.drop_first(), k)
    } else {
        seq![children[0]] + spec_keep_children(nodes, children.drop_first(), k)
    }
}

/// Whether `snap` is a faithful full copy of the subtree rooted at `id`.
pub open spec fn snapshot_matches(nodes: Seq<ThreadNode>, id: int, snap: Node) -> bool
    decreases nodes.len() - id
        when 0 <= id < nodes.len() && nodes_wf(nodes)
{
    match nodes[id] {
        ThreadNode::Page(p) => snap matches Node::Page(q) && page_like(p, q),
        ThreadNode::Section(sec) => snap matches Node::Section(s) && page_like(sec.body, s.body)
            && s.children@.len() == sec.children@.len() && (forall|c: int|
            0 <= c < sec.children@.len() ==> snapshot_matches(
                nodes,
                sec.children@[c] as int,
                #[trigger] s.children@[c],
            )),
    }
}

/// The shared content store: an arena of tree nodes and a locator-keyed
/// lookup index into it.
///
/// The arena never reuses an identifier, so removing a node only drops its
/// index entry and its parent's child link; the slot itself stays behind,
/// unreachable. The index may hold several entries for one key; the latest
/// entry wins on lookup, so inserting acts as overwriting.
#[derive(Debug)]
pub struct Store {
    nodes: Vec<ThreadNode>,
    index: Vec<StoreEntry>,
}

impl Store {
    /// The node arena.
    pub closed spec fn nodes_seq(self) -> Seq<ThreadNode> {
        self.nodes@
    }

    /// The lookup entries, oldest first: each a key locator's normalized URL
    /// and a node identifier.
    pub closed spec fn entries(self) -> Seq<(Seq<char>, int)> {
        self.index@.map_values(|e: StoreEntry| (spec_url(e.key@), e.id as int))
    }

    /// The identifier a normalized key maps to.
    pub open spec fn lookup(self, k: Seq<char>) -> Option<int> {
        spec_lookup(self.entries(), k)
    }

    /// Whether a normalized key is present.
    pub open spec fn contains_key(self, k: Seq<char>) -> bool {
        self.lookup(k) is Some
    }

    /// The number of index entries.
    pub open spec fn entry_count(self) -> nat {
        self.entries().len()
    }

    /// Well-formedness: every index entry points into the arena, and every
    /// section's children lie strictly between its identifier and the
    /// arena's length.
    pub open spec fn wf(self) -> bool {
        &&& forall|i: int|
            0 <= i < self.entries().len() ==> 0 <= (#[trigger] self.entries()[i]).1
                < self.nodes_seq().len()
        &&& nodes_wf(self.nodes_seq())
    }

    /// When the entries stay and the arena does not shrink, the index
    /// bounds of well-formedness carry over.
    proof fn lemma_entries_bound(s0: Store, s1: Store)
        requires
            s0.wf(),
            s1.entries() == s0.entries(),
            s1.nodes_seq().len() >= s0.nodes_seq().len(),
        ensures
            forall|i: int|
                0 <= i < s1.entries().len() ==> 0 <= (#[trigger] s1.entries()[i]).1
                    < s1.nodes_seq().len(),
    {
        assert forall|i: int| 0 <= i < s1.entries().len() implies 0 <= (
        #[trigger] s1.entries()[i]).1 < s1.nodes_seq().len() by {
            assert(0 <= (#[trigger] s0.entries()[i]).1 < s0.nodes_seq().len());
        }
    }

    /// An empty store.
    pub fn new() -> (r: Store)
        ensures
            r.wf(),
            r.nodes_seq() == Seq::<ThreadNode>::empty(),
            r.entries() == Seq::<(Seq<char>, int)>::empty(),
    {
        let r = Store { nodes: Vec::new(), index: Vec::new() };
        proof {
            assert(r.entries() =~= Seq::<(Seq<char>, int)>::empty());
        }
        r
    }

    /// Adds a node to the arena without indexing it, returning its fresh
    /// identifier. A section enters with no children; they are attached
    /// later through `set_children`.
    pub fn add_node(&mut self, node: ThreadNode) -> (id: usize)
        requires
            old(self).wf(),
            match node {
                ThreadNode::Section(sec) => sec.children@.len() == 0,
                ThreadNode::Page(_) => true,
            },
        ensures
            final(self).wf(),
            id as int == old(self).nodes_seq().len(),
            final(self).nodes_seq() == old(self).nodes_seq().push(node),
            final(self).entries() == old(self).entries(),
    {
        let id = self.nodes.len();
        self.nodes.push(node);
        proof {
            let nodes = self.nodes@;
            assert forall|j: int| 0 <= j < nodes.len() implies node_wf(
                #[trigger] nodes[j],
                j,
                nodes.len() as int,
            ) by {
                if j < nodes.len() - 1 {
                    assert(node_wf(old(self).nodes@[j], j, old(self).nodes@.len() as int));
                }
            }
            Self::lemma_entries_bound(*old(self), *self);
        }
        id
    }

    /// Attaches children to the section at `id`. Every child identifier
    /// must be fresher than the section's own.
    pub fn set_children(&mut self, id: usize, children: Vec<usize>)
        requires
            old(self).wf(),
            (id as int) < old(self).nodes_seq().len(),
            old(self).nodes_seq()[id as int] is Section,
            forall|c: int|
                0 <= c < children@.len() ==> id < #[trigger] children@[c] < old(
                    self,
                ).nodes_seq().len(),
        ensures
            final(self).wf(),
            final(self).entries() == old(self).entries(),
            final(self).nodes_seq() == old(self).nodes_seq().update(
                id as int,
                ThreadNode::Section(
                    ThreadSection {
                        children,
                        body: old(self).nodes_seq()[id as int]->Section_0.body,
                    },
                ),
            ),
    {
        match &mut self.nodes[id] {
            ThreadNode::Section(sec) => {
                sec.children = children;
            },
            ThreadNode::Page(_) => {
                proof {
                    assert(false);
                }
            },
        }
        proof {
            assert(self.nodes@ =~= old(self).nodes@.update(
                id as int,
                ThreadNode::Section(
                    ThreadSection {
                        children,
                        body: old(self).nodes_seq()[id as int]->Section_0.body,
                    },
                ),
            ));
            let nodes = self.nodes@;
            assert forall|j: int| 0 <= j < nodes.len() implies node_wf(
                #[trigger] nodes[j],
                j,
                nodes.len() as int,
            ) by {
                assert(node_wf(old(self).nodes@[j], j, old(self).nodes@.len() as int));
            }
            Self::lemma_entries_bound(*old(self), *self);
        }
    }

    /// Replaces the section at `id` wholesale. Every child identifier of
    /// the new section must be fresher than `id`.
    pub fn set_section(&mut self, id: usize, section: ThreadSection)
        requires
            old(self).wf(),
            (id as int) < old(self).nodes_seq().len(),
            old(self).nodes_seq()[id as int] is Section,
            forall|c: int|
                0 <= c < section.children@.len() ==> id < #[trigger] section.children@[c] < old(
                    self,
                ).nodes_seq().len(),
        ensures
            final(self).wf(),
            final(self).entries() == old(self).entries(),
            final(self).nodes_seq() == old(self).nodes_seq().update(
                id as int,
                ThreadNode::Section(section),
            ),
    {
        self.nodes[id] = ThreadNode::Section(section);
        proof {
            let nodes = self.nodes@;
            assert forall|j: int| 0 <= j < nodes.len() implies node_wf(
                #[trigger] nodes[j],
                j,
                nodes.len() as int,
            ) by {
                assert(node_wf(old(self).nodes@[j], j, old(self).nodes@.len() as int));
            }
            Self::lemma_entries_bound(*old(self), *self);
        }
    }

    /// Replaces the content and links of the page carried by the node at
    /// `id`, leaving its title, locator and children untouched. This is the
    /// single-node mutation of a modify event.
    pub fn set_content(&mut self, id: usize, content: String, links: Vec<Locator>)
        requires
            old(self).wf(),
            (id as int) < old(self).nodes_seq().len(),
        ensures
            final(self).wf(),
            final(self).entries() == old(self).entries(),
            final(self).nodes_seq().len() == old(self).nodes_seq().len(),
            forall|j: int|
                0 <= j < final(self).nodes_seq().len() && j != id ==> final(self).nodes_seq()[j] == old(
                    self,
                ).nodes_seq()[j],
            content_updated(
                old(self).nodes_seq()[id as int],
                final(self).nodes_seq()[id as int],
                content,
                links,
            ),
    {
        match &mut self.nodes[id] {
            ThreadNode::Section(sec) => {
                sec.body.content = content;
                sec.body.links = links;
            },
            ThreadNode::Page(p) => {
                p.content = content;
                p.links = links;
            },
        }
        proof {
            let nodes = self.nodes@;
            assert forall|j: int| 0 <= j < nodes.len() implies node_wf(
                #[trigger] nodes[j],
                j,
                nodes.len() as int,
            ) by {
                assert(node_wf(old(self).nodes@[j], j, old(self).nodes@.len() as int));
            }
            Self::lemma_entries_bound(*old(self), *self);
        }
    }

    /// Appends an index entry for `loc` pointing at `id`. An older entry
    /// with the same key is superseded, since the latest entry wins.
    pub fn insert(&mut self, loc: &Locator, id: usize)
        requires
            old(self).wf(),
            (id as int) < old(self).nodes_seq().len(),
        ensures
            final(self).wf(),
            final(self).nodes_seq() == old(self).nodes_seq(),
            final(self).entries() == old(self).entries().push((spec_url(loc@), id as int)),
    {
        self.index.push(StoreEntry { key: loc.clone(), id });
        proof {
            assert(self.entries() =~= old(self).entries().push((spec_url(loc@), id as int)));
        }
    }

    /// The identifier of the node `loc` maps to, if any.
    pub fn get_id(&self, loc: &Locator) -> (r: Option<usize>)
        requires
            self.wf(),
        ensures
            match r {
                Some(id) => self.lookup(spec_url(loc@)) == Some(id as int) && (id as int)
                    < self.nodes_seq().len(),
                None => self.lookup(spec_url(loc@)) is None,
            },
    {
        let ghost k = spec_url(loc@);
        let ghost all = self.entries();
        let mut i: usize = self.index.len();
        proof {
            assert(all.take(i as int) =~= all);
        }
        while i > 0
            invariant
                i <= self.index@.len(),
                self.wf(),
                all == self.entries(),
                spec_lookup(all, k) == spec_lookup(all.take(i as int), k),
                k == spec_url(loc@),
            decreases i,
        {
            i -= 1;
            let ghost pre = all.take(i + 1);
            proof {
                assert(pre.last() == all[i as int]);
                assert(pre.drop_last() =~= all.take(i as int));
                assert(all[i as int] == (
                    spec_url(self.index@[i as int].key@),
                    self.index@[i as int].id as int,
                ));
            }
            if self.index[i].key == *loc {
                proof {
                    assert(spec_lookup(pre, k) == Some(pre.last().1));
                    assert(0 <= (#[trigger] self.entries()[i as int]).1
                        < self.nodes_seq().len());
                }
                return Some(self.index[i].id);
            }
        }
        proof {
            assert(all.take(0) =~= Seq::<(Seq<char>, int)>::empty());
        }
        None
    }

    /// A borrow of the node `loc` maps to, if any.
    pub fn get(&self, loc: &Locator) -> (r: Option<&ThreadNode>)
        requires
            self.wf(),
        ensures
            match r {
                Some(n) => self.lookup(spec_url(loc@)) matches Some(id) && *n
                    == self.nodes_seq()[id],
                None => self.lookup(spec_url(loc@)) is None,
            },
    {
        match self.get_id(loc) {
            Some(id) => Some(&self.nodes[id]),
            None => None,
        }
    }

    /// A borrow of the node at `id`.
    pub fn node(&self, id: usize) -> (r: &ThreadNode)
        requires
            self.wf(),
            (id as int) < self.nodes_seq().len(),
        ensures
            *r == self.nodes_seq()[id as int],
    {
        &self.nodes[id]
    }

    /// The number of index entries.
    pub fn len(&self) -> (r: usize)
        ensures
            r == self.entry_count(),
    {
        self.index.len()
    }

    /// The key locator of the index entry at position `i`.
    pub fn entry_key(&self, i: usize) -> (r: &Locator)
        requires
            (i as int) < self.entry_count(),
        ensures
            spec_url(r@) == self.entries()[i as int].0,
    {
        &self.index[i].key
    }

    /// The node identifier of the index entry at position `i`.
    pub fn entry_id(&self, i: usize) -> (r: usize)
        requires
            self.wf(),
            (i as int) < self.entry_count(),
        ensures
            r as int == self.entries()[i as int].1,
            (r as int) < self.nodes_seq().len(),
    {
        proof {
            assert(0 <= (#[trigger] self.entries()[i as int]).1 < self.nodes_seq().len());
        }
        self.index[i].id
    }

    /// Drops every index entry for `loc`. The node itself stays in the
    /// arena, unreachable once its parent link is gone.
    pub fn remove(&mut self, loc: &Locator)
        requires
            old(self).wf(),
        ensures
            final(self).wf(),
            final(self).nodes_seq() == old(self).nodes_seq(),
            final(self).entries() == spec_remove_key(old(self).entries(), spec_url(loc@)),
    {
        let ghost k = spec_url(loc@);
        let ghost all = self.entries();
        let n = self.index.len();
        let mut kept: Vec<StoreEntry> = Vec::new();
        let mut i: usize = 0;
        proof {
            assert(all.skip(0) =~= all);
            assert(kept@.map_values(|e: StoreEntry| (spec_url(e.key@), e.id as int))
                + spec_remove_key(all, k) =~= spec_remove_key(all, k));
        }
        while i < n
            invariant
                i <= n,
                n == self.index@.len(),
                self.wf(),
                all == self.entries(),
                k == spec_url(loc@),
                self == old(self),
                kept@.map_values(|e: StoreEntry| (spec_url(e.key@), e.id as int))
                    + spec_remove_key(all.skip(i as int), k) == spec_remove_key(all, k),
                forall|j: int| 0 <= j < kept@.len() ==> (#[trigger] kept@[j]).id
                    < self.nodes_seq().len(),
            decreases n - i,
        {
            let ghost rest = all.skip(i as int);
            proof {
                assert(rest.drop_first() =~= all.skip(i + 1));
                assert(rest[0] == all[i as int]);
                assert(all[i as int] == (
                    spec_url(self.index@[i as int].key@),
                    self.index@[i as int].id as int,
                ));
                assert(0 <= (#[trigger] self.entries()[i as int]).1 < self.nodes_seq().len());
            }
            let e = &self.index[i];
            if !(e.key == *loc) {
                kept.push(StoreEntry { key: e.key.clone(), id: e.id });
                proof {
                    assert(kept@.map_values(|e2: StoreEntry| (spec_url(e2.key@), e2.id as int))
                        + spec_remove_key(all.skip(i + 1), k) =~= spec_remove_key(all, k));
                }
            }
            i += 1;
        }
        proof {
            assert(all.skip(n as int) =~= Seq::<(Seq<char>, int)>::empty());
        }
        self.index = kept;
        proof {
            assert(self.entries() =~= spec_remove_key(all, k));
            assert forall|j: int| 0 <= j < self.entries().len() implies 0 <= (
            #[trigger] self.entries()[j]).1 < self.nodes_seq().len() by {
                assert(self.entries()[j].1 == kept@[j].id as int);
            }
        }
    }

    /// Removes from the section at `parent_id` every child whose node's
    /// locator equals `loc`, by locator equality.
    pub fn remove_child(&mut self, parent_id: usize, loc: &Locator)
        requires
            old(self).wf(),
            (parent_id as int) < old(self).nodes_seq().len(),
            old(self).nodes_seq()[parent_id as int] is Section,
        ensures
            final(self).wf(),
            final(self).entries() == old(self).entries(),
            final(self).nodes_seq().len() == old(self).nodes_seq().len(),
            forall|j: int|
                0 <= j < final(self).nodes_seq().len() && j != parent_id ==> final(self).nodes_seq()[j] == old(
                    self,
                ).nodes_seq()[j],
            final(self).nodes_seq()[parent_id as int] is Section,
            final(self).nodes_seq()[parent_id as int]->Section_0.body == old(
                self,
            ).nodes_seq()[parent_id as int]->Section_0.body,
            final(self).nodes_seq()[parent_id as int]->Section_0.children@ == spec_keep_children(
                old(self).nodes_seq(),
                old(self).nodes_seq()[parent_id as int]->Section_0.children@,
                spec_url(loc@),
            ),
    {
        let ghost k = spec_url(loc@);
        let ghost nodes0 = self.nodes_seq();
        let old_children: Vec<usize> = match &self.nodes[parent_id] {
            ThreadNode::Section(sec) => sec.children.clone(),
            ThreadNode::Page(_) => {
                proof {
                    assert(false);
                }
                Vec::new()
            },
        };
        let ghost ch = nodes0[parent_id as int]->Section_0.children@;
        proof {
            assert(old_children@ =~= ch);
            assert(node_wf(nodes0[parent_id as int], parent_id as int, nodes0.len() as int));
        }
        let m = old_children.len();
        let mut kept: Vec<usize> = Vec::new();
        let mut i: usize = 0;
        proof {
            assert(ch.skip(0) =~= ch);
            assert(kept@ + spec_keep_children(nodes0, ch, k) =~= spec_keep_children(
                nodes0,
                ch,
                k,
            ));
        }
        while i < m
            invariant
                i <= m,
                m == old_children@.len(),
                old_children@ == ch,
                nodes0 == self.nodes_seq(),
                self == old(self),
                self.wf(),
                k == spec_url(loc@),
                forall|c: int|
                    0 <= c < ch.len() ==> parent_id < #[trigger] ch[c] < nodes0.len(),
                kept@ + spec_keep_children(nodes0, ch.skip(i as int), k) == spec_keep_children(
                    nodes0,
                    ch,
                    k,
                ),
                forall|j: int|
                    0 <= j < kept@.len() ==> parent_id < #[trigger] kept@[j] < nodes0.len(),
            decreases m - i,
        {
            let ghost rest = ch.skip(i as int);
            proof {
                assert(rest.drop_first() =~= ch.skip(i + 1));
                assert(rest[0] == ch[i as int]);
            }
            let cid = old_children[i];
            let keep = {
                let child = &self.nodes[cid];
                !(child.body().loc == *loc)
            };
            if keep {
                kept.push(cid);
                proof {
                    assert(kept@ + spec_keep_children(nodes0, ch.skip(i + 1), k)
                        =~= spec_keep_children(nodes0, ch, k));
                }
            }
            i += 1;
        }
        proof {
            assert(ch.skip(m as int) =~= Seq::<usize>::empty());
            assert(kept@ =~= spec_keep_children(nodes0, ch, k));
        }
        match &mut self.nodes[parent_id] {
            ThreadNode::Section(sec) => {
                sec.children = kept;
            },
            ThreadNode::Page(_) => {
                proof {
                    assert(false);
                }
            },
        }
        proof {
            let nodes = self.nodes@;
            assert forall|j: int| 0 <= j < nodes.len() implies node_wf(
                #[trigger] nodes[j],
                j,
                nodes.len() as int,
            ) by {
                assert(node_wf(old(self).nodes@[j], j, old(self).nodes@.len() as int));
            }
            Self::lemma_entries_bound(*old(self), *self);
        }
    }

    /// A full copy of the subtree rooted at `id`, detached from the store.
    pub fn snapshot_node(&self, id: usize) -> (r: Node)
        requires
            self.wf(),
            (id as int) < self.nodes_seq().len(),
        ensures
            snapshot_matches(self.nodes_seq(), id as int, r),
        decreases self.nodes_seq().len() - id,
    {
        match &self.nodes[id] {
            ThreadNode::Page(p) => Node::Page(p.clone()),
            ThreadNode::Section(sec) => {
                proof {
                    assert(node_wf(
                        self.nodes_seq()[id as int],
                        id as int,
                        self.nodes_seq().len() as int,
                    ));
                }
                let m = sec.children.len();
                let mut children: Vec<Node> = Vec::new();
                let mut c: usize = 0;
                while c < m
                    invariant
                        c <= m,
                        m == sec.children@.len(),
                        self.wf(),
                        (id as int) < self.nodes_seq().len(),
                        self.nodes_seq()[id as int] == ThreadNode::Section(*sec),
                        forall|j: int|
                            0 <= j < m ==> id < #[trigger] sec.children@[j]
                                < self.nodes_seq().len(),
                        children@.len() == c,
                        forall|j: int|
                            0 <= j < c ==> snapshot_matches(
                                self.nodes_seq(),
                                sec.children@[j] as int,
                                #[trigger] children@[j],
                            ),
                    decreases m - c,
                {
                    let cid = sec.children[c];
                    let child = self.snapshot_node(cid);
                    children.push(child);
                    c += 1;
                }
                Node::Section(Section { children, body: sec.body.clone() })
            },
        }
    }

    /// The snapshot of the whole tree: the section the root locator maps
    /// to, fully copied. Fails with `IO` when no root has been read yet and
    /// with `WrongKind` when the root node is not a section.
    pub fn get_root(&self) -> (r: Result<Section, Error>)
        requires
            self.wf(),
        ensures
            match r {
                Ok(s) => self.lookup(spec_url(Seq::<Seq<char>>::empty())) matches Some(id)
                    && self.nodes_seq()[id] is Section && snapshot_matches(
                    self.nodes_seq(),
                    id,
                    Node::Section(s),
                ),
                Err(e) => (e == Error::IO && self.lookup(spec_url(Seq::<Seq<char>>::empty())) is None) || (
                e == Error::WrongKind && (self.lookup(spec_url(Seq::<Seq<char>>::empty())) matches Some(id)
                    && self.nodes_seq()[id] is Page)),
            },
    {
        let root = Locator::root();
        match self.get_id(&root) {
            None => Err(Error::IO),
            Some(id) => {
                let is_section = match &self.nodes[id] {
                    ThreadNode::Section(_) => true,
                    ThreadNode::Page(_) => false,
                };
                if !is_section {
                    return Err(Error::WrongKind);
                }
                match self.snapshot_node(id) {
                    Node::Section(s) => Ok(s),
                    Node::Page(_) => {
                        proof {
                            assert(false);
                        }
                        Err(Error::WrongKind)
                    },
                }
            },
        }
    }
}

/// Whether `n1` is `n0` with the carried page's content and links replaced
/// and everything else kept.
pub open spec fn content_updated(
    n0: ThreadNode,
    n1: ThreadNode,
    content: String,
    links: Vec<Locator>,
) -> bool {
    &&& (n0 matches ThreadNode::Section(s0) ==> n1 matches ThreadNode::Section(s1) && s1.children
        == s0.children && page_content_updated(s0.body, s1.body, content, links))
    &&& (n0 matches ThreadNode::Page(p0) ==> n1 matches ThreadNode::Page(p1)
        && page_content_updated(p0, p1, content, links))
}

/// Whether `p1` is `p0` with content and links replaced.
pub open spec fn page_content_updated(
    p0: Page,
    p1: Page,
    content: String,
    links: Vec<Locator>,
) -> bool {
    &&& p1.title == p0.title
    &&& p1.loc == p0.loc
    &&& p1.content == content
    &&& p1.links == links
}

/// The keys of a list of index entries, in entry order.
pub open spec fn entry_keys(es: Seq<(Seq<char>, int)>) -> Seq<Seq<char>> {
    es.map_values(|e: (Seq<char>, int)| e.0)
}

/// A key maps to something exactly when it occurs among the entry keys.
pub proof fn lemma_lookup_some_iff_key(entries: Seq<(Seq<char>, int)>, k: Seq<char>)
    ensures
        spec_lookup(entries, k) is Some <==> entry_keys(entries).contains(k),
    decreases entries.len(),
{
    if entries.len() > 0 {
        lemma_lookup_some_iff_key(entries.drop_last(), k);
        assert(entry_keys(entries.drop_last()) =~= entry_keys(entries).drop_last());
        if entries.last().0 == k {
            assert(entry_keys(entries).last() == k);
            assert(entry_keys(entries).contains(k));
        } else {
            if entry_keys(entries).contains(k) {
                let w = choose|w: int|
                    0 <= w < entry_keys(entries).len() && entry_keys(entries)[w] == k;
                assert(w < entries.len() - 1);
                assert(entry_keys(entries).drop_last()[w] == k);
                assert(entry_keys(entries.drop_last()).contains(k));
            }
            if entry_keys(entries).drop_last().contains(k) {
                let w = choose|w: int|
                    0 <= w < entry_keys(entries).drop_last().len() && entry_keys(
                        entries,
                    ).drop_last()[w] == k;
                assert(entry_keys(entries)[w] == k);
            }
        }
    }
}

/// After removing a key, no remaining entry carries it.
pub proof fn lemma_remove_key_all_differ(entries: Seq<(Seq<char>, int)>, k: Seq<char>)
    ensures
        forall|j: int|
            0 <= j < spec_remove_key(entries, k).len() ==> (#[trigger] spec_remove_key(
                entries,
                k,
            )[j]).0 != k,
    decreases entries.len(),
{
    if entries.len() > 0 {
        lemma_remove_key_all_differ(entries.drop_first(), k);
        let pre = spec_remove_key(entries.drop_first(), k);
        let cur = spec_remove_key(entries, k);
        if entries[0].0 != k {
            assert(cur == seq![entries[0]] + pre);
            assert forall|j: int| 0 <= j < cur.len() implies (#[trigger] cur[j]).0 != k by {
                if j > 0 {
                    assert(cur[j] == pre[j - 1]);
                }
            }
        }
    }
}

/// No kept child carries the removed key: removal by locator equality is
/// complete.
pub proof fn lemma_keep_children_gone(
    nodes: Seq<ThreadNode>,
    children: Seq<usize>,
    k: Seq<char>,
)
    ensures
        forall|j: int|
            0 <= j < spec_keep_children(nodes, children, k).len() ==> node_key(
                nodes[(#[trigger] spec_keep_children(nodes, children, k)[j]) as int],
            ) != k,
    decreases children.len(),
{
    if children.len() > 0 {
        lemma_keep_children_gone(nodes, children.drop_first(), k);
        let pre = spec_keep_children(nodes, children.drop_first(), k);
        let cur = spec_keep_children(nodes, children, k);
        if node_key(nodes[children[0] as int]) != k {
            assert(cur == seq![children[0]] + pre);
            assert forall|j: int| 0 <= j < cur.len() implies node_key(
                nodes[(#[trigger] cur[j]) as int],
            ) != k by {
                if j > 0 {
                    assert(cur[j] == pre[j - 1]);
                }
            }
        }
    }
}

/// Looking up the key just inserted yields the new identifier; any other
/// key is unaffected.
pub proof fn lemma_lookup_push(entries: Seq<(Seq<char>, int)>, k: Seq<char>, id: int, k2: Seq<char>)
    ensures
        spec_lookup(entries.push((k, id)), k2) == if k2 == k {
            Some(id)
        } else {
            spec_lookup(entries, k2)
        },
{
    let e = entries.push((k, id));
    assert(e.last() == (k, id));
    assert(e.drop_last() =~= entries);
}

/// Removing a key then appending entries: `spec_remove_key` distributes
/// over concatenation.
pub proof fn lemma_remove_key_push(entries: Seq<(Seq<char>, int)>, k: Seq<char>, e: (Seq<char>, int))
    ensures
        spec_remove_key(entries.push(e), k) == if e.0 == k {
            spec_remove_key(entries, k)
        } else {
            spec_remove_key(entries, k).push(e)
        },
    decreases entries.len(),
{
    if entries.len() == 0 {
        assert(entries.push(e).drop_first() =~= Seq::<(Seq<char>, int)>::empty());
        assert(entries.push(e)[0] == e);
        assert(spec_remove_key(Seq::<(Seq<char>, int)>::empty(), k)
            == Seq::<(Seq<char>, int)>::empty());
        if e.0 == k {
            assert(spec_remove_key(entries.push(e), k) =~= spec_remove_key(entries, k));
        } else {
            assert(spec_remove_key(entries.push(e), k) =~= spec_remove_key(entries, k).push(e));
        }
    } else {
        lemma_remove_key_push(entries.drop_first(), k, e);
        assert(entries.push(e).drop_first() =~= entries.drop_first().push(e));
        assert(entries.push(e)[0] == entries[0]);
        if e.0 == k {
            assert(spec_remove_key(entries.push(e), k) =~= spec_remove_key(entries, k));
        } else {
            assert(spec_remove_key(entries.push(e), k) =~= spec_remove_key(entries, k).push(e));
        }
    }
}

/// After removing a key, looking it up finds nothing.
pub proof fn lemma_remove_key_gone(entries: Seq<(Seq<char>, int)>, k: Seq<char>)
    ensures
        spec_lookup(spec_remove_key(entries, k), k) is None,
    decreases entries.len(),
{
    if entries.len() > 0 {
        let e0 = entries.drop_last();
        let e = entries.last();
        assert(entries =~= e0.push(e));
        lemma_remove_key_push(e0, k, e);
        lemma_remove_key_gone(e0, k);
        if e.0 != k {
            let r = spec_remove_key(e0, k).push(e);
            assert(r.last() == e);
            assert(r.drop_last() =~= spec_remove_key(e0, k));
        }
    }
}

/// Removing one key leaves every other key's lookup unchanged.
pub proof fn lemma_remove_key_other(
    entries: Seq<(Seq<char>, int)>,
    k: Seq<char>,
    k2: Seq<char>,
)
    requires
        k2 != k,
    ensures
        spec_lookup(spec_remove_key(entries, k), k2) == spec_lookup(entries, k2),
    decreases entries.len(),
{
    if entries.len() > 0 {
        let e0 = entries.drop_last();
        let e = entries.last();
        assert(entries =~= e0.push(e));
        lemma_remove_key_push(e0, k, e);
        lemma_remove_key_other(e0, k, k2);
        assert(entries.drop_last() == e0);
        if e.0 != k {
            let r = spec_remove_key(e0, k).push(e);
            assert(r.last() == e);
            assert(r.drop_last() =~= spec_remove_key(e0, k));
        } else {
            assert(e.0 == k && e.0 != k2);
        }
    }
}

} // verus!
