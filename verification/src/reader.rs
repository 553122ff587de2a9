use vstd::prelude::*;

use crate::errors::Error;
use crate::locator::{index_md_seg, spec_join_segs, spec_new, Locator};
use crate::markdown::{
    internal_links, markdown_to_html, md_html, md_link_dests, md_parses, spec_internal_links,
};
use crate::node::{links_views, Page, ThreadNode, ThreadSection};
use crate::store::{entry_keys, nodes_wf, node_wf, Store};
use crate::strutil::{
    before_first, join_sep, lemma_split_nonempty, spec_before_first, spec_join, spec_parse_u32,
    spec_split, split_str, str_eq, str_views, parse_u32,
};

verus! {

/// A pure snapshot of one directory entry: a file with its text, or a
/// directory with its entries.
#[derive(Debug)]
pub enum FsNode {
    File { name: String, content: String },
    Dir { name: String, entries: Vec<FsNode> },
}

/// The on-disk name of an entry.
pub open spec fn fs_name(e: FsNode) -> Seq<char> {
    match e {
        FsNode::File { name, .. } => name@,
        FsNode::Dir { name, .. } => name@,
    }
}

/// The index of the last occurrence of `c` in `s`, or `-1`.
pub open spec fn spec_last_index(s: Seq<char>, c: char) -> int
    decreases s.len(),
{
    if s.len() == 0 {
        -1
    } else if s.last() == c {
        s.len() - 1
    } else {
        spec_last_index(s.drop_last(), c)
    }
}

pub proof fn lemma_last_index_hit(s: Seq<char>, c: char, j: int)
    requires
        0 <= j < s.len(),
        s[j] == c,
        forall|m: int| j < m < s.len() ==> s[m] != c,
    ensures
        spec_last_index(s, c) == j,
    decreases s.len(),
{
    if j < s.len() - 1 {
        assert(s.last() != c);
        let d = s.drop_last();
        assert forall|m: int| j < m < d.len() implies d[m] != c by {
            assert(d[m] == s[m]);
        }
        lemma_last_index_hit(d, c, j);
    }
}

pub proof fn lemma_last_index_none(s: Seq<char>, c: char)
    requires
        forall|m: int| 0 <= m < s.len() ==> s[m] != c,
    ensures
        spec_last_index(s, c) == -1,
    decreases s.len(),
{
    if s.len() > 0 {
        let d = s.drop_last();
        assert forall|m: int| 0 <= m < d.len() implies d[m] != c by {
            assert(d[m] == s[m]);
        }
        lemma_last_index_none(d, c);
    }
}

/// The index of the last occurrence of `c` in `s`, if any.
pub fn find_last_char(s: &str, c: char) -> (r: Option<usize>)
    ensures
        match r {
            Some(i) => i < s@.len() && s@[i as int] == c && spec_last_index(s@, c) == i as int,
            None => spec_last_index(s@, c) == -1 && !s@.contains(c),
        },
{
    let n = s.unicode_len();
    let mut i: usize = n;
    while i > 0
        invariant
            i <= n,
            n == s@.len(),
            forall|m: int| i <= m < n ==> s@[m] != c,
        decreases i,
    {
        i -= 1;
        if s.get_char(i) == c {
            proof {
                lemma_last_index_hit(s@, c, i as int);
            }
            return Some(i);
        }
    }
    proof {
        lemma_last_index_none(s@, c);
        if s@.contains(c) {
            let w = choose|m: int| 0 <= m < s@.len() && s@[m] == c;
            assert(s@[w] != c);
        }
    }
    None
}

/// The stem of an on-disk name: everything before the last dot, except that
/// a lone leading dot starts no extension.
pub open spec fn spec_stem(s: Seq<char>) -> Seq<char> {
    let li = spec_last_index(s, '.');
    if li > 0 {
        s.take(li)
    } else {
        s
    }
}

/// The stem of `name`, or a `NamingConvention` error on an empty name.
pub fn get_stem(name: &str) -> (r: Result<String, Error>)
    ensures
        match r {
            Ok(s) => name@.len() > 0 && s@ == spec_stem(name@),
            Err(e) => name@.len() == 0 && e == Error::NamingConvention,
        },
{
    let n = name.unicode_len();
    if n == 0 {
        return Err(Error::NamingConvention);
    }
    let mut i: usize = n;
    while i > 0
        invariant
            i <= n,
            n == name@.len(),
            forall|m: int| i <= m < n ==> name@[m] != '.',
        decreases i,
    {
        i -= 1;
        if name.get_char(i) == '.' {
            proof {
                lemma_last_index_hit(name@, '.', i as int);
            }
            if i > 0 {
                return Ok(name.substring_char(0, i).to_owned());
            } else {
                return Ok(name.to_owned());
            }
        }
    }
    proof {
        lemma_last_index_none(name@, '.');
    }
    Ok(name.to_owned())
}

/// The title derived from an on-disk name: the parts of the stem after the
/// first underscore, joined with spaces.
pub open spec fn spec_title(name: Seq<char>) -> Seq<char> {
    spec_join(spec_split(spec_stem(name), '_').drop_first(), ' ')
}

/// Whether a name yields a title: it is nonempty and something follows the
/// first underscore of its stem.
pub open spec fn title_ok(name: Seq<char>) -> bool {
    name.len() > 0 && spec_title(name).len() > 0
}

/// The title of an on-disk name: the stem's leading order prefix dropped,
/// the remaining parts joined with spaces. Fails when nothing is left.
pub fn file_title(name: &str) -> (r: Result<String, Error>)
    ensures
        match r {
            Ok(t) => title_ok(name@) && t@ == spec_title(name@),
            Err(e) => !title_ok(name@) && e == Error::NamingConvention,
        },
{
    let stem = match get_stem(name) {
        Ok(s) => s,
        Err(e) => {
            return Err(e);
        },
    };
    let parts = split_str(stem.as_str(), '_');
    proof {
        lemma_split_nonempty(stem@, '_');
        reveal_strlit(" ");
        assert(" "@ =~= seq![' ']);
        assert(str_views(parts@).skip(1) =~= str_views(parts@).drop_first());
    }
    let title = join_sep(&parts, 1, ' ', " ");
    if title.unicode_len() == 0 {
        return Err(Error::NamingConvention);
    }
    Ok(title)
}

/// The order index encoded in an on-disk name: the part of the stem before
/// the first underscore, read as a decimal integer.
pub open spec fn spec_order_of(name: Seq<char>) -> Option<u32> {
    if name.len() == 0 {
        None
    } else {
        spec_parse_u32(spec_before_first(spec_stem(name), '_'))
    }
}

/// The order index at the start of an on-disk name.
pub fn file_order_index(name: &str) -> (r: Result<u32, Error>)
    ensures
        match r {
            Ok(v) => spec_order_of(name@) == Some(v),
            Err(e) => spec_order_of(name@) is None && e == Error::NamingConvention,
        },
{
    let stem = match get_stem(name) {
        Ok(s) => s,
        Err(_) => {
            return Err(Error::NamingConvention);
        },
    };
    let pre = before_first(stem.as_str(), '_');
    match parse_u32(pre.as_str()) {
        Some(v) => Ok(v),
        None => Err(Error::NamingConvention),
    }
}

/// Whether a directory entry takes part in the tree: it is not the index
/// file, its name starts with a readable order index, and its name yields
/// a title. An entry that breaks the naming convention in either way is
/// skipped, never fatal.
pub open spec fn entry_kept(e: FsNode) -> bool {
    fs_name(e) != index_md_seg() && spec_order_of(fs_name(e)) is Some && title_ok(fs_name(e))
}

/// The order index of a kept entry.
pub open spec fn entry_order(e: FsNode) -> u32 {
    spec_order_of(fs_name(e))->Some_0
}

/// The indices of the kept entries among the first `n`, in enumeration
/// order.
pub open spec fn spec_kept_idx(entries: Seq<FsNode>, n: int) -> Seq<usize>
    decreases n,
{
    if n <= 0 {
        Seq::empty()
    } else if entry_kept(entries[n - 1]) {
        spec_kept_idx(entries, n - 1).push((n - 1) as usize)
    } else {
        spec_kept_idx(entries, n - 1)
    }
}

/// Stable insertion of index `x` into the sorted index list `s`: `x` goes
/// after every element whose order does not exceed its own.
pub open spec fn spec_insert_idx(entries: Seq<FsNode>, s: Seq<usize>, x: usize) -> Seq<usize>
    decreases s.len(),
{
    if s.len() == 0 {
        seq![x]
    } else if entry_order(entries[s.last() as int]) <= entry_order(entries[x as int]) {
        s.push(x)
    } else {
        spec_insert_idx(entries, s.drop_last(), x).push(s.last())
    }
}

/// Stable insertion sort of an index list by entry order.
pub open spec fn spec_sort_idx(entries: Seq<FsNode>, s: Seq<usize>) -> Seq<usize>
    decreases s.len(),
{
    if s.len() == 0 {
        Seq::empty()
    } else {
        spec_insert_idx(entries, spec_sort_idx(entries, s.drop_last()), s.last())
    }
}

/// The kept entries of a directory in display order: filtered by the
/// naming convention, stably sorted by order index, ties kept in
/// enumeration order.
pub open spec fn spec_ordered(entries: Seq<FsNode>) -> Seq<usize> {
    spec_sort_idx(entries, spec_kept_idx(entries, entries.len() as int))
}

/// Every index the ordering produces points at a kept entry.
pub open spec fn idx_valid(entries: Seq<FsNode>, s: Seq<usize>) -> bool {
    forall|j: int| 0 <= j < s.len() ==> (#[trigger] s[j]) < entries.len() && entry_kept(
        entries[s[j] as int],
    )
}

pub proof fn lemma_kept_idx_valid(entries: Seq<FsNode>, n: int)
    requires
        n <= entries.len(),
        n <= usize::MAX,
    ensures
        idx_valid(entries, spec_kept_idx(entries, n)),
    decreases n,
{
    if n > 0 {
        lemma_kept_idx_valid(entries, n - 1);
        let pre = spec_kept_idx(entries, n - 1);
        let cur = spec_kept_idx(entries, n);
        if entry_kept(entries[n - 1]) {
            assert(cur == pre.push((n - 1) as usize));
            assert forall|j: int| 0 <= j < cur.len() implies (#[trigger] cur[j]) < entries.len()
                && entry_kept(entries[cur[j] as int]) by {
                if j < pre.len() {
                    assert(cur[j] == pre[j]);
                } else {
                    assert(cur[j] == (n - 1) as usize);
                }
            }
        } else {
            assert(cur == pre);
        }
    }
}

pub proof fn lemma_insert_idx_valid(entries: Seq<FsNode>, s: Seq<usize>, x: usize)
    requires
        idx_valid(entries, s),
        (x as int) < entries.len(),
        entry_kept(entries[x as int]),
    ensures
        idx_valid(entries, spec_insert_idx(entries, s, x)),
    decreases s.len(),
{
    if s.len() == 0 {
    } else if entry_order(entries[s.last() as int]) <= entry_order(entries[x as int]) {
    } else {
        assert(idx_valid(entries, s.drop_last()));
        lemma_insert_idx_valid(entries, s.drop_last(), x);
    }
}

pub proof fn lemma_sort_idx_valid(entries: Seq<FsNode>, s: Seq<usize>)
    requires
        idx_valid(entries, s),
    ensures
        idx_valid(entries, spec_sort_idx(entries, s)),
    decreases s.len(),
{
    if s.len() > 0 {
        assert(idx_valid(entries, s.drop_last()));
        lemma_sort_idx_valid(entries, s.drop_last());
        lemma_insert_idx_valid(entries, spec_sort_idx(entries, s.drop_last()), s.last());
    }
}

pub proof fn lemma_ordered_valid(entries: Seq<FsNode>)
    requires
        entries.len() <= usize::MAX,
    ensures
        idx_valid(entries, spec_ordered(entries)),
{
    lemma_kept_idx_valid(entries, entries.len() as int);
    lemma_sort_idx_valid(entries, spec_kept_idx(entries, entries.len() as int));
}

/// Inserting at the position found by scanning from the end yields the
/// stable-insertion result.
proof fn lemma_insert_idx_at(entries: Seq<FsNode>, s: Seq<usize>, x: usize, j: int)
    requires
        0 <= j <= s.len(),
        forall|m: int| j <= m < s.len() ==> entry_order(entries[(#[trigger] s[m]) as int])
            > entry_order(entries[x as int]),
        j > 0 ==> entry_order(entries[s[j - 1] as int]) <= entry_order(entries[x as int]),
    ensures
        spec_insert_idx(entries, s, x) == s.take(j) + seq![x] + s.skip(j),
    decreases s.len() - j,
{
    if j == s.len() {
        if s.len() == 0 {
            assert(spec_insert_idx(entries, s, x) =~= s.take(j) + seq![x] + s.skip(j));
        } else {
            assert(spec_insert_idx(entries, s, x) == s.push(x));
            assert(s.push(x) =~= s.take(j) + seq![x] + s.skip(j));
        }
    } else {
        assert(entry_order(entries[s.last() as int]) > entry_order(entries[x as int]));
        let d = s.drop_last();
        assert forall|m: int| j <= m < d.len() implies entry_order(
            entries[(#[trigger] d[m]) as int],
        ) > entry_order(entries[x as int]) by {
            assert(d[m] == s[m]);
        }
        lemma_insert_idx_at(entries, d, x, j);
        assert(spec_insert_idx(entries, s, x) == spec_insert_idx(entries, d, x).push(s.last()));
        assert((d.take(j) + seq![x] + d.skip(j)).push(s.last()) =~= s.take(j) + seq![x] + s.skip(
            j,
        ));
    }
}

/// The order index of a kept entry, read off its name.
fn order_of_kept(entries: &Vec<FsNode>, x: usize) -> (r: u32)
    requires
        (x as int) < entries@.len(),
        entry_kept(entries@[x as int]),
    ensures
        r == entry_order(entries@[x as int]),
{
    match file_order_index(name_of(&entries[x]).as_str()) {
        Ok(v) => v,
        Err(_) => {
            proof {
                assert(false);
            }
            0
        },
    }
}

/// The position where stable insertion puts the entry at index `x`: after
/// every element whose order does not exceed `x`'s.
fn insert_pos(entries: &Vec<FsNode>, sorted: &Vec<usize>, x: usize) -> (j: usize)
    requires
        idx_valid(entries@, sorted@),
        (x as int) < entries@.len(),
        entry_kept(entries@[x as int]),
    ensures
        j <= sorted@.len(),
        forall|mm: int|
            j <= mm < sorted@.len() ==> entry_order(entries@[(#[trigger] sorted@[mm]) as int])
                > entry_order(entries@[x as int]),
        j > 0 ==> entry_order(entries@[sorted@[j - 1] as int]) <= entry_order(
            entries@[x as int],
        ),
{
    let kx = order_of_kept(entries, x);
    let mut j: usize = sorted.len();
    while j > 0
        invariant
            j <= sorted@.len(),
            idx_valid(entries@, sorted@),
            (x as int) < entries@.len(),
            entry_kept(entries@[x as int]),
            kx == entry_order(entries@[x as int]),
            forall|mm: int|
                j <= mm < sorted@.len() ==> entry_order(entries@[(#[trigger] sorted@[mm]) as int])
                    > entry_order(entries@[x as int]),
        decreases j,
    {
        let prev = sorted[j - 1];
        let kp = order_of_kept(entries, prev);
        if kp <= kx {
            return j;
        }
        j -= 1;
    }
    0
}

/// The name of an entry.
pub fn name_of(e: &FsNode) -> (r: &String)
    ensures
        r@ == fs_name(*e),
{
    match e {
        FsNode::File { name, .. } => name,
        FsNode::Dir { name, .. } => name,
    }
}

/// The kept entries of a directory listing, as indices into it, stably
/// sorted by order index; entries that break the naming convention are
/// skipped.
pub fn ordered_entries(entries: &Vec<FsNode>) -> (r: Vec<usize>)
    ensures
        r@ == spec_ordered(entries@),
        idx_valid(entries@, r@),
{
    let n = entries.len();
    let mut kept: Vec<usize> = Vec::new();
    let mut i: usize = 0;
    while i < n
        invariant
            i <= n,
            n == entries@.len(),
            kept@ == spec_kept_idx(entries@, i as int),
            idx_valid(entries@, kept@),
        decreases n - i,
    {
        proof {
            reveal_strlit("index.md");
            assert("index.md"@ =~= index_md_seg());
        }
        let e = &entries[i];
        let is_index = str_eq(name_of(e).as_str(), "index.md");
        let keep = if is_index {
            false
        } else {
            let order_ok = match file_order_index(name_of(e).as_str()) {
                Ok(_) => true,
                Err(_) => false,
            };
            let title_found = match file_title(name_of(e).as_str()) {
                Ok(_) => true,
                Err(_) => false,
            };
            order_ok && title_found
        };
        if keep {
            kept.push(i);
        }
        proof {
            assert(kept@ == spec_kept_idx(entries@, i + 1));
        }
        i += 1;
    }
    let m = kept.len();
    let mut sorted: Vec<usize> = Vec::new();
    let mut c: usize = 0;
    proof {
        assert(kept@.take(0) =~= Seq::<usize>::empty());
    }
    while c < m
        invariant
            c <= m,
            m == kept@.len(),
            kept@ == spec_kept_idx(entries@, entries@.len() as int),
            idx_valid(entries@, kept@),
            sorted@ == spec_sort_idx(entries@, kept@.take(c as int)),
            idx_valid(entries@, sorted@),
        decreases m - c,
    {
        let x = kept[c];
        let j = insert_pos(entries, &sorted, x);
        let ghost sorted_before = sorted@;
        sorted.insert(j, x);
        proof {
            lemma_insert_idx_at(entries@, sorted_before, x, j as int);
            assert(sorted@ =~= sorted_before.take(j as int) + seq![x] + sorted_before.skip(
                j as int,
            ));
            assert(kept@.take(c + 1).drop_last() =~= kept@.take(c as int));
            assert(kept@.take(c + 1).last() == kept@[c as int]);
            lemma_insert_idx_valid(entries@, sorted_before, x);
        }
        c += 1;
    }
    proof {
        assert(kept@.take(m as int) =~= kept@);
    }
    sorted
}

/// Whether an entry is the directory's index file.
pub open spec fn is_index_file(e: FsNode) -> bool {
    e matches FsNode::File { name, content } && name@ == index_md_seg()
}

/// The position of the first index file at or after `i`, or `-1`.
pub open spec fn spec_index_of(entries: Seq<FsNode>, i: int) -> int
    decreases entries.len() - i,
{
    if i < 0 || i >= entries.len() {
        -1
    } else if is_index_file(entries[i]) {
        i
    } else {
        spec_index_of(entries, i + 1)
    }
}

/// The text of the directory's index file.
pub open spec fn spec_index_content(entries: Seq<FsNode>) -> Seq<char> {
    match entries[spec_index_of(entries, 0)] {
        FsNode::File { name, content } => content@,
        FsNode::Dir { name, entries } => Seq::empty(),
    }
}

/// The first index file of a directory listing.
fn find_index(entries: &Vec<FsNode>) -> (r: Option<usize>)
    ensures
        match r {
            Some(i) => i < entries@.len() && spec_index_of(entries@, 0) == i as int
                && is_index_file(entries@[i as int]),
            None => spec_index_of(entries@, 0) == -1,
        },
{
    let n = entries.len();
    let mut i: usize = 0;
    while i < n
        invariant
            i <= n,
            n == entries@.len(),
            spec_index_of(entries@, 0) == spec_index_of(entries@, i as int),
        decreases n - i,
    {
        proof {
            reveal_strlit("index.md");
            assert("index.md"@ =~= index_md_seg());
        }
        let found = match &entries[i] {
            FsNode::File { name, content } => str_eq(name.as_str(), "index.md"),
            FsNode::Dir { .. } => false,
        };
        if found {
            return Some(i);
        }
        i += 1;
    }
    None
}

/// The outcome of reading one directory: the fatal error that stops the
/// build, or success. A directory fails on a missing title, a missing
/// index file, index content that does not parse, or the first failing
/// child, in that order.
pub open spec fn spec_read_result(name: Seq<char>, entries: Seq<FsNode>) -> Result<(), Error>
    decreases entries, 1int, 0int,
{
    if !title_ok(name) {
        Err(Error::NamingConvention)
    } else if spec_index_of(entries, 0) < 0 {
        Err(Error::IO)
    } else if !md_parses(spec_index_content(entries)) {
        Err(Error::MarkdownConversion)
    } else {
        spec_children_result(entries, spec_ordered(entries))
    }
}

/// The first failing child among `idxs`, in display order.
pub open spec fn spec_children_result(entries: Seq<FsNode>, idxs: Seq<usize>) -> Result<
    (),
    Error,
>
    decreases entries, 0int, idxs.len(),
{
    if idxs.len() == 0 {
        Ok(())
    } else if idxs[0] >= entries.len() {
        Ok(())
    } else {
        match spec_entry_result(entries[idxs[0] as int]) {
            Err(e) => Err(e),
            Ok(u) => spec_children_result(entries, idxs.drop_first()),
        }
    }
}

/// The outcome of turning one kept entry into a node: a file fails only on
/// content that does not parse, since a kept entry always yields a title;
/// a directory is read recursively.
pub open spec fn spec_entry_result(e: FsNode) -> Result<(), Error>
    decreases e, 2int, 0int,
{
    match e {
        FsNode::File { name, content } => if !md_parses(content@) {
            Err(Error::MarkdownConversion)
        } else {
            Ok(())
        },
        FsNode::Dir { name, entries } => spec_read_result(name@, entries@),
    }
}

/// The locator segments of the section read from a directory: the base
/// unchanged at the content root, otherwise the base extended by the
/// directory's title segment.
pub open spec fn spec_own_loc(loc: Seq<Seq<char>>, name: Seq<char>, at_root: bool) -> Seq<
    Seq<char>,
> {
    if at_root {
        loc
    } else {
        spec_join_segs(loc, spec_new(spec_title(name)))
    }
}

/// The number of store nodes a directory read produces below the section
/// itself: one per kept entry, recursively.
pub open spec fn fs_count_idx(entries: Seq<FsNode>, idxs: Seq<usize>) -> nat
    decreases entries, idxs.len(),
{
    if idxs.len() == 0 {
        0
    } else if idxs.last() >= entries.len() {
        fs_count_idx(entries, idxs.drop_last())
    } else {
        fs_count_idx(entries, idxs.drop_last()) + fs_total(entries[idxs.last() as int])
    }
}

/// The number of store nodes one entry produces, itself included.
pub open spec fn fs_total(e: FsNode) -> nat
    decreases e, 1int,
{
    match e {
        FsNode::File { name, content } => 1,
        FsNode::Dir { name, entries } => 1 + fs_count_idx(entries@, spec_ordered(entries@)),
    }
}

/// Whether the node at `id` is the faithfully built section of the
/// directory `name` with listing `entries` at location `own_loc`: its page
/// carries the directory's title, location, converted index content and
/// links, and its children correspond one to one, in display order, to the
/// kept entries.
pub open spec fn built_matches(
    nodes: Seq<ThreadNode>,
    id: int,
    name: Seq<char>,
    entries: Seq<FsNode>,
    own_loc: Seq<Seq<char>>,
) -> bool
    decreases nodes.len() - id, 0int
        when 0 <= id < nodes.len() && nodes_wf(nodes)
{
    &&& nodes[id] is Section
    &&& {
        let sec = nodes[id]->Section_0;
        let ordered = spec_ordered(entries);
        &&& sec.body.title@ == spec_title(name)
        &&& sec.body.loc@ == own_loc
        &&& sec.body.content@ == md_html(spec_index_content(entries), own_loc)
        &&& links_views(sec.body.links@) == spec_internal_links(
            md_link_dests(spec_index_content(entries)),
            own_loc,
        )
        &&& sec.children@.len() == ordered.len()
        &&& forall|c: int|
            0 <= c < ordered.len() ==> child_built(
                nodes,
                (#[trigger] sec.children@[c]) as int,
                entries[ordered[c] as int],
                own_loc,
            )
    }
}

/// Whether the node at `cid` is the faithfully built node of the kept
/// entry `e` under a section at `own_loc`.
pub open spec fn child_built(
    nodes: Seq<ThreadNode>,
    cid: int,
    e: FsNode,
    own_loc: Seq<Seq<char>>,
) -> bool
    decreases nodes.len() - cid, 1int
        when 0 <= cid < nodes.len() && nodes_wf(nodes)
{
    match e {
        FsNode::File { name, content } => nodes[cid] matches ThreadNode::Page(p) && p.title@
            == spec_title(name@) && p.loc@ == spec_join_segs(own_loc, spec_new(spec_title(name@)))
            && p.content@ == md_html(content@, own_loc) && links_views(p.links@)
            == spec_internal_links(md_link_dests(content@), own_loc),
        FsNode::Dir { name, entries } => built_matches(
            nodes,
            cid,
            name@,
            entries@,
            spec_join_segs(own_loc, spec_new(spec_title(name@))),
        ),
    }
}

/// A built subtree stays built when the arena grows and no slot from its
/// root on changes.
pub proof fn lemma_built_frame(
    nodes1: Seq<ThreadNode>,
    nodes2: Seq<ThreadNode>,
    id: int,
    name: Seq<char>,
    entries: Seq<FsNode>,
    own_loc: Seq<Seq<char>>,
)
    requires
        nodes_wf(nodes1),
        nodes_wf(nodes2),
        0 <= id < nodes1.len(),
        nodes1.len() <= nodes2.len(),
        forall|j: int| id <= j < nodes1.len() ==> nodes2[j] == nodes1[j],
        built_matches(nodes1, id, name, entries, own_loc),
    ensures
        built_matches(nodes2, id, name, entries, own_loc),
    decreases nodes1.len() - id, 0int,
{
    assert(nodes2[id] == nodes1[id]);
    let sec = nodes1[id]->Section_0;
    let ordered = spec_ordered(entries);
    assert(node_wf(nodes1[id], id, nodes1.len() as int));
    assert forall|c: int| 0 <= c < ordered.len() implies child_built(
        nodes2,
        (#[trigger] sec.children@[c]) as int,
        entries[ordered[c] as int],
        own_loc,
    ) by {
        assert(child_built(nodes1, sec.children@[c] as int, entries[ordered[c] as int], own_loc));
        lemma_child_frame(nodes1, nodes2, sec.children@[c] as int, entries[ordered[c] as int],
            own_loc);
    }
}

/// A built child node stays built when the arena grows and no slot from it
/// on changes.
pub proof fn lemma_child_frame(
    nodes1: Seq<ThreadNode>,
    nodes2: Seq<ThreadNode>,
    cid: int,
    e: FsNode,
    own_loc: Seq<Seq<char>>,
)
    requires
        nodes_wf(nodes1),
        nodes_wf(nodes2),
        0 <= cid < nodes1.len(),
        nodes1.len() <= nodes2.len(),
        forall|j: int| cid <= j < nodes1.len() ==> nodes2[j] == nodes1[j],
        child_built(nodes1, cid, e, own_loc),
    ensures
        child_built(nodes2, cid, e, own_loc),
    decreases nodes1.len() - cid, 1int,
{
    assert(nodes2[cid] == nodes1[cid]);
    match e {
        FsNode::File { name, content } => {
        },
        FsNode::Dir { name, entries } => {
            lemma_built_frame(nodes1, nodes2, cid, name@, entries@,
                spec_join_segs(own_loc, spec_new(spec_title(name@))));
        },
    }
}

/// Turns one content file into a page: the content converted against the
/// containing section's locator `loc`, the title and locator derived from
/// the name.
pub fn read_page(name: &str, content: &str, loc: &Locator) -> (r: Result<Page, Error>)
    ensures
        match r {
            Ok(p) => md_parses(content@) && title_ok(name@) && p.title@ == spec_title(name@)
                && p.loc@ == spec_join_segs(loc@, spec_new(spec_title(name@))) && p.content@
                == md_html(content@, loc@) && links_views(p.links@) == spec_internal_links(
                md_link_dests(content@),
                loc@,
            ),
            Err(e) => if !md_parses(content@) {
                e == Error::MarkdownConversion
            } else {
                !title_ok(name@) && e == Error::NamingConvention
            },
        },
{
    let html = match markdown_to_html(content.to_owned(), loc) {
        Ok(h) => h,
        Err(e) => {
            return Err(e);
        },
    };
    let links = match internal_links(content, loc) {
        Ok(ls) => ls,
        Err(_) => {
            proof {
                assert(false);
            }
            return Err(Error::MarkdownConversion);
        },
    };
    let title = match file_title(name) {
        Ok(t) => t,
        Err(e) => {
            return Err(e);
        },
    };
    let ploc = loc.join(&Locator::new(title.as_str()));
    Ok(Page { title, loc: ploc, content: html, links })
}

/// The normalized URL a kept entry's node carries under a section at
/// `own_loc`: the key the store indexes it by.
pub open spec fn child_loc_url(e: FsNode, own_loc: Seq<Seq<char>>) -> Seq<char> {
    crate::locator::spec_url(spec_join_segs(own_loc, spec_new(spec_title(fs_name(e)))))
}

/// Create propagation, sharpened: in a built section, when the kept entry
/// at display position `c` is the only one whose derived locator equals its
/// own, then exactly one child of the section carries that locator.
pub proof fn lemma_unique_child(
    nodes: Seq<ThreadNode>,
    id: int,
    name: Seq<char>,
    entries: Seq<FsNode>,
    own_loc: Seq<Seq<char>>,
    c: int,
)
    requires
        nodes_wf(nodes),
        0 <= id < nodes.len(),
        built_matches(nodes, id, name, entries, own_loc),
        0 <= c < spec_ordered(entries).len(),
        forall|c2: int|
            0 <= c2 < spec_ordered(entries).len() && c2 != c ==> child_loc_url(
                entries[(#[trigger] spec_ordered(entries)[c2]) as int],
                own_loc,
            ) != child_loc_url(entries[spec_ordered(entries)[c] as int], own_loc),
    ensures
        forall|c2: int|
            0 <= c2 < spec_ordered(entries).len() ==> (crate::node::node_key(
                nodes[(#[trigger] nodes[id]->Section_0.children@[c2]) as int],
            ) == child_loc_url(entries[spec_ordered(entries)[c] as int], own_loc) <==> c2 == c),
{
    let sec = nodes[id]->Section_0;
    let ordered = spec_ordered(entries);
    let key = child_loc_url(entries[ordered[c] as int], own_loc);
    assert forall|c2: int| 0 <= c2 < ordered.len() implies (crate::node::node_key(
        nodes[(#[trigger] sec.children@[c2]) as int],
    ) == key <==> c2 == c) by {
        assert(child_built(nodes, sec.children@[c2] as int, entries[ordered[c2] as int], own_loc));
        let cn = nodes[sec.children@[c2] as int];
        match entries[ordered[c2] as int] {
            FsNode::File { name: fname, content } => {
                assert(crate::node::node_body(cn).loc@ == spec_join_segs(
                    own_loc,
                    spec_new(spec_title(fname@)),
                ));
            },
            FsNode::Dir { name: dname, entries: de } => {
                assert(crate::node::node_body(cn).loc@ == spec_join_segs(
                    own_loc,
                    spec_new(spec_title(dname@)),
                ));
            },
        }
        assert(crate::node::node_key(cn) == child_loc_url(entries[ordered[c2] as int], own_loc));
    }
}

/// The index keys a directory read appends, in registration order: for
/// each kept entry in display order, a subdirectory's own registrations
/// first, then the entry's key — every built node registered under its
/// own locator.
pub open spec fn reg_keys(
    entries: Seq<FsNode>,
    idxs: Seq<usize>,
    own_loc: Seq<Seq<char>>,
) -> Seq<Seq<char>>
    decreases entries, 0int, idxs.len(),
{
    if idxs.len() == 0 {
        Seq::empty()
    } else if idxs[0] >= entries.len() {
        reg_keys(entries, idxs.drop_first(), own_loc)
    } else {
        entry_reg_keys(entries[idxs[0] as int], own_loc) + reg_keys(
            entries,
            idxs.drop_first(),
            own_loc,
        )
    }
}

/// The index keys one kept entry's build registers: a file registers its
/// own key; a directory registers its subtree's keys, then its own.
pub open spec fn entry_reg_keys(e: FsNode, own_loc: Seq<Seq<char>>) -> Seq<Seq<char>>
    decreases e, 1int, 0int,
{
    match e {
        FsNode::File { name, content } => seq![child_loc_url(e, own_loc)],
        FsNode::Dir { name, entries } => reg_keys(
            entries@,
            spec_ordered(entries@),
            spec_join_segs(own_loc, spec_new(spec_title(name@))),
        ) + seq![child_loc_url(e, own_loc)],
    }
}

proof fn lemma_reg_keys_snoc(
    entries: Seq<FsNode>,
    idxs: Seq<usize>,
    x: usize,
    own_loc: Seq<Seq<char>>,
)
    requires
        (x as int) < entries.len(),
    ensures
        reg_keys(entries, idxs.push(x), own_loc) == reg_keys(entries, idxs, own_loc)
            + entry_reg_keys(entries[x as int], own_loc),
    decreases idxs.len(),
{
    assert(idxs.push(x)[0] == if idxs.len() == 0 {
        x
    } else {
        idxs[0]
    });
    if idxs.len() == 0 {
        assert(idxs.push(x).drop_first() =~= Seq::<usize>::empty());
        assert(reg_keys(entries, Seq::<usize>::empty(), own_loc) == Seq::<Seq<char>>::empty());
        assert(reg_keys(entries, idxs.push(x), own_loc) == entry_reg_keys(
            entries[x as int],
            own_loc,
        ) + reg_keys(entries, idxs.push(x).drop_first(), own_loc));
        assert(reg_keys(entries, idxs.push(x), own_loc) =~= reg_keys(entries, idxs, own_loc)
            + entry_reg_keys(entries[x as int], own_loc));
    } else {
        lemma_reg_keys_snoc(entries, idxs.drop_first(), x, own_loc);
        assert(idxs.push(x).drop_first() =~= idxs.drop_first().push(x));
        if idxs[0] >= entries.len() {
            assert(reg_keys(entries, idxs.push(x), own_loc) == reg_keys(
                entries,
                idxs.drop_first().push(x),
                own_loc,
            ));
        } else {
            assert(reg_keys(entries, idxs.push(x), own_loc) == entry_reg_keys(
                entries[idxs[0] as int],
                own_loc,
            ) + reg_keys(entries, idxs.drop_first().push(x), own_loc));
        }
        assert(reg_keys(entries, idxs.push(x), own_loc) =~= reg_keys(entries, idxs, own_loc)
            + entry_reg_keys(entries[x as int], own_loc));
    }
}

/// Reads one directory into the store: builds the section's own page from
/// the index file, then every kept entry in display order, registering
/// each child node under its own locator as it is produced. Returns the
/// identifier of the section node, which the caller registers or attaches.
///
/// Entries that break the naming convention are skipped; a missing index
/// file, unparseable content or a missing title of the directory itself is
/// fatal, exactly as `spec_read_result` says.
pub fn read(name: &str, entries: &Vec<FsNode>, loc: &Locator, at_root: bool, store: &mut Store)
    -> (r: Result<usize, Error>)
    requires
        old(store).wf(),
    ensures
        final(store).wf(),
        old(store).nodes_seq().len() <= final(store).nodes_seq().len(),
        forall|j: int|
            0 <= j < old(store).nodes_seq().len() ==> final(store).nodes_seq()[j] == old(
                store,
            ).nodes_seq()[j],
        old(store).entries().len() <= final(store).entries().len(),
        final(store).entries().take(old(store).entries().len() as int) == old(store).entries(),
        match r {
            Ok(id) => spec_read_result(name@, entries@) == Ok::<(), Error>(()) && old(
                store,
            ).nodes_seq().len() <= id as int && (id as int) < final(store).nodes_seq().len()
                && built_matches(
                final(store).nodes_seq(),
                id as int,
                name@,
                entries@,
                spec_own_loc(loc@, name@, at_root),
            ) && final(store).entries().len() == old(store).entries().len() + fs_count_idx(
                entries@,
                spec_ordered(entries@),
            ) && entry_keys(final(store).entries()) == entry_keys(old(store).entries())
                + reg_keys(entries@, spec_ordered(entries@), spec_own_loc(loc@, name@, at_root)),
            Err(e) => spec_read_result(name@, entries@) == Err::<(), Error>(e),
        },
    decreases entries@,
{
    let ghost nodes0 = old(store).nodes_seq();
    let ghost entries0 = old(store).entries();
    let ghost own = spec_own_loc(loc@, name@, at_root);
    let title = match file_title(name) {
        Ok(t) => t,
        Err(e) => {
            return Err(e);
        },
    };
    let own_loc = if at_root {
        loc.clone()
    } else {
        loc.join(&Locator::new(title.as_str()))
    };
    proof {
        assert(own_loc@ == own);
    }
    let index_content: String = match find_index(entries) {
        Some(i) => match &entries[i] {
            FsNode::File { name: n2, content } => content.clone(),
            FsNode::Dir { .. } => {
                proof {
                    assert(false);
                }
                String::new()
            },
        },
        None => {
            return Err(Error::IO);
        },
    };
    proof {
        assert(index_content@ == spec_index_content(entries@));
    }
    let html = match markdown_to_html(index_content.clone(), &own_loc) {
        Ok(h) => h,
        Err(e) => {
            return Err(e);
        },
    };
    let links = match internal_links(index_content.as_str(), &own_loc) {
        Ok(ls) => ls,
        Err(_) => {
            proof {
                assert(false);
            }
            return Err(Error::MarkdownConversion);
        },
    };
    let body = Page { title, loc: own_loc.clone(), content: html, links };
    let sec_id = store.add_node(ThreadNode::Section(ThreadSection::new(body)));
    let ordered = ordered_entries(entries);
    let ghost ord = spec_ordered(entries@);
    let en = entries.len();
    proof {
        assert(entries@.len() == en as int);
        lemma_ordered_valid(entries@);
        assert(ord.skip(0) =~= ord);
        assert(store.entries().take(entries0.len() as int) =~= entries0);
        assert(ord.take(0) =~= Seq::<usize>::empty());
        assert(entry_keys(store.entries()) =~= entry_keys(entries0) + reg_keys(
            entries@,
            ord.take(0),
            own,
        ));
    }
    let m = ordered.len();
    let mut children: Vec<usize> = Vec::new();
    let mut c: usize = 0;
    while c < m
        invariant
            c <= m,
            m == ord.len(),
            ordered@ == ord,
            ord == spec_ordered(entries@),
            idx_valid(entries@, ord),
            store.wf(),
            nodes0 == old(store).nodes_seq(),
            entries0 == old(store).entries(),
            nodes0.len() < store.nodes_seq().len(),
            (sec_id as int) == nodes0.len(),
            forall|j: int| 0 <= j < nodes0.len() ==> store.nodes_seq()[j] == nodes0[j],
            store.nodes_seq()[sec_id as int] is Section,
            store.nodes_seq()[sec_id as int]->Section_0.children@ == Seq::<usize>::empty(),
            store.nodes_seq()[sec_id as int]->Section_0.body.title@ == spec_title(name@),
            store.nodes_seq()[sec_id as int]->Section_0.body.loc@ == own,
            store.nodes_seq()[sec_id as int]->Section_0.body.content@ == md_html(
                spec_index_content(entries@),
                own,
            ),
            links_views(store.nodes_seq()[sec_id as int]->Section_0.body.links@)
                == spec_internal_links(md_link_dests(spec_index_content(entries@)), own),
            children@.len() == c,
            forall|j: int|
                0 <= j < c ==> sec_id < (#[trigger] children@[j]) < store.nodes_seq().len(),
            forall|j: int|
                0 <= j < c ==> child_built(
                    store.nodes_seq(),
                    (#[trigger] children@[j]) as int,
                    entries@[ord[j] as int],
                    own,
                ),
            store.entries().len() == entries0.len() + fs_count_idx(entries@, ord.take(c as int)),
            entry_keys(store.entries()) == entry_keys(entries0) + reg_keys(
                entries@,
                ord.take(c as int),
                own,
            ),
            store.entries().take(entries0.len() as int) == entries0,
            spec_children_result(entries@, ord) == spec_children_result(
                entries@,
                ord.skip(c as int),
            ),
            title_ok(name@),
            spec_index_of(entries@, 0) >= 0,
            md_parses(spec_index_content(entries@)),
            own == spec_own_loc(loc@, name@, at_root),
            own_loc@ == own,
        decreases m - c,
    {
        let ghost rest = ord.skip(c as int);
        let ghost nodes_pre = store.nodes_seq();
        proof {
            assert(rest.drop_first() =~= ord.skip(c + 1));
            assert(rest[0] == ord[c as int]);
        }
        let ei = ordered[c];
        let cid: usize = match &entries[ei] {
            FsNode::File { name: fname, content } => {
                let page = match read_page(fname.as_str(), content.as_str(), &own_loc) {
                    Ok(p) => p,
                    Err(e) => {
                        proof {
                            assert(entry_kept(entries@[ei as int]));
                            assert(title_ok(fname@));
                            assert(spec_entry_result(entries@[ei as int]) == Err::<(), Error>(e));
                            assert(spec_children_result(entries@, rest) == Err::<(), Error>(e));
                        }
                        return Err(e);
                    },
                };
                let ploc = page.loc.clone();
                let ghost entries_pre = store.entries();
                let pid = store.add_node(ThreadNode::Page(page));
                store.insert(&ploc, pid);
                proof {
                    assert(store.entries().take(entries0.len() as int) =~= entries0);
                    assert(ord.take(c + 1).drop_last() =~= ord.take(c as int));
                    assert(ord.take(c + 1).last() == ord[c as int]);
                    assert(fs_total(entries@[ei as int]) == 1);
                    assert(fs_count_idx(entries@, ord.take(c + 1)) == fs_count_idx(
                        entries@,
                        ord.take(c as int),
                    ) + 1);
                    assert(ord.take(c + 1) =~= ord.take(c as int).push(ord[c as int]));
                    lemma_reg_keys_snoc(entries@, ord.take(c as int), ord[c as int], own);
                    assert(entry_keys(store.entries()) =~= entry_keys(entries_pre).push(
                        crate::locator::spec_url(ploc@),
                    ));
                    assert(crate::locator::spec_url(ploc@) == child_loc_url(
                        entries@[ei as int],
                        own,
                    ));
                    assert(entry_reg_keys(entries@[ei as int], own) =~= seq![
                        child_loc_url(entries@[ei as int], own),
                    ]);
                    assert(entry_keys(store.entries()) =~= entry_keys(entries0) + reg_keys(
                        entries@,
                        ord.take(c + 1),
                        own,
                    ));
                }
                pid
            },
            FsNode::Dir { name: dname, entries: dentries } => {
                let did = match read(dname.as_str(), dentries, &own_loc, false, store) {
                    Ok(d) => d,
                    Err(e) => {
                        proof {
                            assert(spec_entry_result(entries@[ei as int]) == Err::<(), Error>(e));
                            assert(spec_children_result(entries@, rest) == Err::<(), Error>(e));
                            assert(store.entries().take(entries0.len() as int) =~= entries0);
                        }
                        return Err(e);
                    },
                };
                let dloc = store.node(did).body().loc.clone();
                let ghost entries_pre = store.entries();
                store.insert(&dloc, did);
                proof {
                    assert(store.entries().take(entries0.len() as int) =~= entries0);
                    assert(ord.take(c + 1).drop_last() =~= ord.take(c as int));
                    assert(ord.take(c + 1).last() == ord[c as int]);
                    assert(fs_total(entries@[ei as int]) == 1 + fs_count_idx(
                        dentries@,
                        spec_ordered(dentries@),
                    ));
                    assert(fs_count_idx(entries@, ord.take(c + 1)) == fs_count_idx(
                        entries@,
                        ord.take(c as int),
                    ) + fs_total(entries@[ei as int]));
                    assert(ord.take(c + 1) =~= ord.take(c as int).push(ord[c as int]));
                    lemma_reg_keys_snoc(entries@, ord.take(c as int), ord[c as int], own);
                    let child_own = spec_join_segs(own, spec_new(spec_title(dname@)));
                    assert(entry_keys(store.entries()) =~= entry_keys(entries_pre).push(
                        crate::locator::spec_url(dloc@),
                    ));
                    assert(dloc@ == child_own);
                    assert(crate::locator::spec_url(dloc@) == child_loc_url(
                        entries@[ei as int],
                        own,
                    ));
                    assert(entry_reg_keys(entries@[ei as int], own) =~= reg_keys(
                        dentries@,
                        spec_ordered(dentries@),
                        child_own,
                    ) + seq![child_loc_url(entries@[ei as int], own)]);
                    assert(entry_keys(store.entries()) =~= entry_keys(entries0) + reg_keys(
                        entries@,
                        ord.take(c + 1),
                        own,
                    ));
                }
                did
            },
        };
        children.push(cid);
        proof {
            let nodes_now = store.nodes_seq();
            assert forall|j: int| 0 <= j < c + 1 implies child_built(
                nodes_now,
                (#[trigger] children@[j]) as int,
                entries@[ord[j] as int],
                own,
            ) by {
                if j < c {
                    lemma_child_frame(
                        nodes_pre,
                        nodes_now,
                        children@[j] as int,
                        entries@[ord[j] as int],
                        own,
                    );
                }
            }
        }
        c += 1;
    }
    let ghost nodes_pre_set = store.nodes_seq();
    let ghost children_final = children@;
    store.set_children(sec_id, children);
    proof {
        let nodes_now = store.nodes_seq();
        assert(ord.take(m as int) =~= ord);
        assert(ord.skip(m as int) =~= Seq::<usize>::empty());
        assert(nodes_now[sec_id as int]->Section_0.children@ == children_final);
        assert forall|j: int| 0 <= j < m implies child_built(
            nodes_now,
            (#[trigger] children_final[j]) as int,
            entries@[ord[j] as int],
            own,
        ) by {
            lemma_child_frame(
                nodes_pre_set,
                nodes_now,
                children_final[j] as int,
                entries@[ord[j] as int],
                own,
            );
        }
        assert(built_matches(nodes_now, sec_id as int, name@, entries@, own));
        assert(store.entries().take(entries0.len() as int) =~= entries0);
    }
    Ok(sec_id)
}

} // verus!
