use vstd::prelude::*;

use crate::errors::Error;
use crate::locator::Locator;

verus! {

/// The views of a sequence of locators.
pub open spec fn links_views(ls: Seq<Locator>) -> Seq<Seq<Seq<char>>> {
    ls.map_values(|l: Locator| l@)
}

/// A single content unit: a title, its locator, the rendered HTML body and
/// the locators of its internal links.
#[derive(Debug)]
pub struct Page {
    pub title: String,
    pub loc: Locator,
    pub content: String,
    pub links: Vec<Locator>,
}

/// Whether two pages carry the same title, locator, content and links.
pub open spec fn page_like(a: Page, b: Page) -> bool {
    &&& a.title@ == b.title@
    &&& a.loc@ == b.loc@
    &&& a.content@ == b.content@
    &&& links_views(a.links@) == links_views(b.links@)
}

impl Clone for Page {
    fn clone(&self) -> (r: Self)
        ensures
            page_like(*self, r),
    {
        Page {
            title: self.title.clone(),
            loc: self.loc.clone(),
            content: self.content.clone(),
            links: clone_locators(&self.links),
        }
    }
}

/// Copies a locator list, keeping every view.
pub fn clone_locators(ls: &Vec<Locator>) -> (r: Vec<Locator>)
    ensures
        links_views(r@) == links_views(ls@),
{
    let n = ls.len();
    let mut out: Vec<Locator> = Vec::new();
    let mut i: usize = 0;
    while i < n
        invariant
            i <= n,
            n == ls@.len(),
            out@.len() == i,
            forall|j: int| 0 <= j < i ==> (#[trigger] out@[j])@ == ls@[j]@,
        decreases n - i,
    {
        out.push(ls[i].clone());
        i += 1;
    }
    proof {
        assert(links_views(out@) =~= links_views(ls@));
    }
    out
}

/// A node of the shared tree: a section with the identifiers of its child
/// nodes plus its own index page, or a leaf page. Child identifiers point
/// into the store's node arena and are always greater than the section's own
/// identifier, which the store's well-formedness keeps.
#[derive(Debug)]
pub enum ThreadNode {
    Section(ThreadSection),
    Page(Page),
}

/// A section of the shared tree: ordered child node identifiers plus the
/// section's own index page.
#[derive(Debug)]
pub struct ThreadSection {
    pub children: Vec<usize>,
    pub body: Page,
}

impl ThreadSection {
    /// A section with no children yet.
    pub fn new(body: Page) -> (r: ThreadSection)
        ensures
            r.children@ == Seq::<usize>::empty(),
            r.body == body,
    {
        ThreadSection { children: Vec::new(), body }
    }
}

impl ThreadNode {
    /// The page carried by this node: a section's own index page, or the
    /// leaf page itself.
    pub fn body(&self) -> (r: &Page)
        ensures
            *r == node_body(*self),
    {
        match self {
            ThreadNode::Section(sec) => &sec.body,
            ThreadNode::Page(p) => p,
        }
    }

    /// This node's section, or a `WrongKind` error on a leaf page.
    pub fn get_section(&self) -> (r: Result<&ThreadSection, Error>)
        ensures
            match r {
                Ok(s) => *self matches ThreadNode::Section(sec) && *s == sec,
                Err(e) => e == Error::WrongKind && self is Page,
            },
    {
        match self {
            ThreadNode::Section(sec) => Ok(sec),
            ThreadNode::Page(_) => Err(Error::WrongKind),
        }
    }

    /// A mutable borrow of this node's section, or a `WrongKind` error on a
    /// leaf page.
    pub fn get_section_mut(&mut self) -> (r: Result<&mut ThreadSection, Error>)
        ensures
            match r {
                Ok(s) => *old(self) matches ThreadNode::Section(sec) && *s == sec && *final(self)
                    == ThreadNode::Section(*final(s)),
                Err(e) => e == Error::WrongKind && *old(self) is Page && *final(self) == *old(
                    self,
                ),
            },
    {
        match self {
            ThreadNode::Section(sec) => Ok(sec),
            ThreadNode::Page(_) => Err(Error::WrongKind),
        }
    }
}

/// The page a node carries: a section's index page, or the leaf page.
pub open spec fn node_body(n: ThreadNode) -> Page {
    match n {
        ThreadNode::Section(sec) => sec.body,
        ThreadNode::Page(p) => p,
    }
}

/// The normalized URL of the page a node carries: the key under which the
/// store indexes the node.
pub open spec fn node_key(n: ThreadNode) -> Seq<char> {
    crate::locator::spec_url(node_body(n).loc@)
}

/// A snapshot node: a fully copied section tree or page, detached from the
/// store.
#[derive(Debug)]
pub enum Node {
    Section(Section),
    Page(Page),
}

/// A snapshot section: fully copied child nodes plus the section's own page.
#[derive(Debug)]
pub struct Section {
    pub children: Vec<Node>,
    pub body: Page,
}

} // verus!
