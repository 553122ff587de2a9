use vstd::prelude::*;

use crate::errors::Error;
use crate::strutil::{
    after_first, find_char, join_sep, remove_md, spec_after_first, spec_join, spec_remove_md,
    spec_split, split_str, str_eq, str_views, strip_prefix_str,
};

verus! {

/// The characters of the index segment, which never contributes to a URL.
pub open spec fn index_seg() -> Seq<char> {
    seq!['i', 'n', 'd', 'e', 'x']
}

/// The characters of the index file name.
pub open spec fn index_md_seg() -> Seq<char> {
    seq!['i', 'n', 'd', 'e', 'x', '.', 'm', 'd']
}

/// The characters of the generated page file name.
pub open spec fn index_html_seg() -> Seq<char> {
    seq!['i', 'n', 'd', 'e', 'x', '.', 'h', 't', 'm', 'l']
}

/// The normalized form of a segment list: every index segment removed.
pub open spec fn spec_norm(segs: Seq<Seq<char>>) -> Seq<Seq<char>>
    decreases segs.len(),
{
    if segs.len() == 0 {
        Seq::empty()
    } else if segs[0] == index_seg() {
        spec_norm(segs.drop_first())
    } else {
        seq![segs[0]] + spec_norm(segs.drop_first())
    }
}

/// A raw name turned into a locator segment: the part after the first
/// underscore (when one occurs), with the content-file extension removed.
pub open spec fn spec_segment(c: Seq<char>) -> Seq<char> {
    spec_remove_md(
        if c.contains('_') {
            spec_after_first(c, '_')
        } else {
            c
        },
    )
}

/// The segment list built from a raw slash-separated string: empty parts
/// dropped, every other part turned into a segment.
pub open spec fn spec_new_segs(parts: Seq<Seq<char>>) -> Seq<Seq<char>>
    decreases parts.len(),
{
    if parts.len() == 0 {
        Seq::empty()
    } else if parts[0].len() == 0 {
        spec_new_segs(parts.drop_first())
    } else {
        seq![spec_segment(parts[0])] + spec_new_segs(parts.drop_first())
    }
}

/// The segment list parsed from a URL: split at slashes, empty parts dropped.
pub open spec fn spec_nonempty(parts: Seq<Seq<char>>) -> Seq<Seq<char>>
    decreases parts.len(),
{
    if parts.len() == 0 {
        Seq::empty()
    } else if parts[0].len() == 0 {
        spec_nonempty(parts.drop_first())
    } else {
        seq![parts[0]] + spec_nonempty(parts.drop_first())
    }
}

/// The segment list of `Locator::new` on a raw string.
pub open spec fn spec_new(base: Seq<char>) -> Seq<Seq<char>> {
    spec_new_segs(spec_split(base, '/'))
}

/// The segment list of `Locator::from_url` on a URL string.
pub open spec fn spec_from_url(url: Seq<char>) -> Seq<Seq<char>> {
    spec_nonempty(spec_split(url, '/'))
}

/// Joining `other` onto `base`: `..` pops the last segment (a no-op on the
/// root), `.` changes nothing, every other segment is appended verbatim.
pub open spec fn spec_join_segs(base: Seq<Seq<char>>, other: Seq<Seq<char>>) -> Seq<Seq<char>>
    decreases other.len(),
{
    if other.len() == 0 {
        base
    } else {
        let seg = other[0];
        let base2 = if seg == seq!['.', '.'] {
            spec_parent(base)
        } else if seg == seq!['.'] {
            base
        } else {
            base.push(seg)
        };
        spec_join_segs(base2, other.drop_first())
    }
}

/// The parent of a segment list: the last segment removed, a no-op on the root.
pub open spec fn spec_parent(segs: Seq<Seq<char>>) -> Seq<Seq<char>> {
    if segs.len() == 0 {
        segs
    } else {
        segs.drop_last()
    }
}

/// The site URL of a segment list: a leading slash, then the normalized
/// segments joined with slashes.
pub open spec fn spec_url(segs: Seq<Seq<char>>) -> Seq<char> {
    seq!['/'] + spec_join(spec_norm(segs), '/')
}

/// Whether a segment may appear in a URL and be read back: nonempty and
/// free of slashes.
pub open spec fn url_safe_seg(c: Seq<char>) -> bool {
    c.len() > 0 && !c.contains('/')
}

/// An ordered sequence of normalized path segments identifying a logical
/// site location, independent of on-disk order prefixes and file extensions.
///
/// Two locators are equal exactly when their normalized URL strings are
/// equal — the segments with every literal `index` segment removed, joined
/// with slashes behind a leading slash. A locator that ends in an `index`
/// segment therefore equals its own parent directory's locator.
#[derive(Debug)]
pub struct Locator {
    components: Vec<String>,
}

impl View for Locator {
    type V = Seq<Seq<char>>;

    closed spec fn view(&self) -> Seq<Seq<char>> {
        str_views(self.components@)
    }
}

impl Clone for Locator {
    fn clone(&self) -> (r: Self)
        ensures
            r@ == self@,
    {
        let n = self.components.len();
        let mut components: Vec<String> = Vec::new();
        let mut i: usize = 0;
        while i < n
            invariant
                i <= n,
                n == self.components@.len(),
                components@ == self.components@.take(i as int),
            decreases n - i,
        {
            components.push(self.components[i].clone());
            proof {
                assert(components@ =~= self.components@.take(i + 1));
            }
            i += 1;
        }
        proof {
            assert(self.components@.take(n as int) =~= self.components@);
        }
        Locator { components }
    }
}

impl PartialEq for Locator {
    fn eq(&self, other: &Self) -> (r: bool) {
        let a = self.url();
        let b = other.url();
        a == b
    }
}

impl Eq for Locator {

}

impl vstd::std_specs::cmp::PartialEqSpecImpl for Locator {
    open spec fn obeys_eq_spec() -> bool {
        true
    }

    open spec fn eq_spec(&self, other: &Locator) -> bool {
        spec_url(self@) == spec_url(other@)
    }
}

impl Locator {
    /// Builds a locator from a raw slash-separated string, dropping empty
    /// parts, stripping order prefixes and the content-file extension.
    pub fn new(base: &str) -> (r: Self)
        ensures
            r@ == spec_new(base@),
    {
        let parts = split_str(base, '/');
        let n = parts.len();
        let mut components: Vec<String> = Vec::new();
        let mut i: usize = 0;
        proof {
            assert(str_views(parts@).skip(0) =~= str_views(parts@));
            assert(str_views(components@) + spec_new_segs(str_views(parts@)) =~= spec_new_segs(
                str_views(parts@),
            ));
        }
        while i < n
            invariant
                i <= n,
                n == parts@.len(),
                str_views(parts@) == spec_split(base@, '/'),
                str_views(components@) + spec_new_segs(str_views(parts@).skip(i as int))
                    == spec_new_segs(str_views(parts@)),
            decreases n - i,
        {
            let ghost rest = str_views(parts@).skip(i as int);
            proof {
                assert(rest.drop_first() =~= str_views(parts@).skip(i + 1));
            }
            let part = &parts[i];
            if part.unicode_len() > 0 {
                let seg = segment_of(part.as_str());
                components.push(seg);
                proof {
                    assert(str_views(components@) + spec_new_segs(str_views(parts@).skip(i + 1))
                        =~= spec_new_segs(str_views(parts@)));
                }
            }
            i += 1;
        }
        proof {
            assert(str_views(parts@).skip(n as int) =~= Seq::<Seq<char>>::empty());
            assert(str_views(components@) =~= spec_new_segs(str_views(parts@)));
        }
        Locator { components }
    }

    /// Builds a locator from a URL string: the slash-separated nonempty parts,
    /// kept verbatim.
    pub fn from_url(url: &str) -> (r: Self)
        ensures
            r@ == spec_from_url(url@),
    {
        let parts = split_str(url, '/');
        let n = parts.len();
        let mut components: Vec<String> = Vec::new();
        let mut i: usize = 0;
        proof {
            assert(str_views(parts@).skip(0) =~= str_views(parts@));
            assert(str_views(components@) + spec_nonempty(str_views(parts@)) =~= spec_nonempty(
                str_views(parts@),
            ));
        }
        while i < n
            invariant
                i <= n,
                n == parts@.len(),
                str_views(parts@) == spec_split(url@, '/'),
                str_views(components@) + spec_nonempty(str_views(parts@).skip(i as int))
                    == spec_nonempty(str_views(parts@)),
            decreases n - i,
        {
            let ghost rest = str_views(parts@).skip(i as int);
            proof {
                assert(rest.drop_first() =~= str_views(parts@).skip(i + 1));
            }
            let part = &parts[i];
            if part.unicode_len() > 0 {
                components.push(part.clone());
                proof {
                    assert(str_views(components@) + spec_nonempty(str_views(parts@).skip(i + 1))
                        =~= spec_nonempty(str_views(parts@)));
                }
            }
            i += 1;
        }
        proof {
            assert(str_views(parts@).skip(n as int) =~= Seq::<Seq<char>>::empty());
            assert(str_views(components@) =~= spec_nonempty(str_views(parts@)));
        }
        Locator { components }
    }

    /// The root locator: the empty segment list.
    pub fn root() -> (r: Self)
        ensures
            r@ == Seq::<Seq<char>>::empty(),
    {
        let components: Vec<String> = Vec::new();
        proof {
            assert(str_views(components@) =~= Seq::<Seq<char>>::empty());
        }
        Locator { components }
    }

    /// Appends `other`'s segments: `..` pops a segment, `.` is skipped, any
    /// other segment is appended verbatim.
    pub fn join(&self, other: &Locator) -> (r: Self)
        ensures
            r@ == spec_join_segs(self@, other@),
    {
        let mut result = self.clone();
        let n = other.components.len();
        let mut i: usize = 0;
        proof {
            assert(str_views(other.components@).skip(0) =~= other@);
        }
        while i < n
            invariant
                i <= n,
                n == other.components@.len(),
                spec_join_segs(self@, other@) == spec_join_segs(
                    result@,
                    str_views(other.components@).skip(i as int),
                ),
            decreases n - i,
        {
            let ghost rest = str_views(other.components@).skip(i as int);
            let ghost before = result@;
            proof {
                reveal_strlit("..");
                reveal_strlit(".");
                assert(rest.drop_first() =~= str_views(other.components@).skip(i + 1));
                assert(".."@ =~= seq!['.', '.']);
                assert("."@ =~= seq!['.']);
            }
            let c = &other.components[i];
            if str_eq(c.as_str(), "..") {
                result.components.pop();
                proof {
                    if before.len() == 0 {
                        assert(result@ =~= spec_parent(before));
                    } else {
                        assert(result@ =~= before.drop_last());
                    }
                }
            } else if str_eq(c.as_str(), ".") {
            } else {
                result.components.push(c.clone());
                proof {
                    assert(result@ =~= before.push(c@));
                }
            }
            i += 1;
        }
        proof {
            assert(str_views(other.components@).skip(n as int) =~= Seq::<Seq<char>>::empty());
        }
        result
    }

    /// The locator with the last segment removed; the root stays the root.
    pub fn parent(&self) -> (r: Self)
        ensures
            r@ == spec_parent(self@),
    {
        let mut result = self.clone();
        let ghost before = result@;
        result.components.pop();
        proof {
            if before.len() > 0 {
                assert(str_views(result.components@) =~= str_views(self.components@).drop_last());
            }
        }
        result
    }

    /// The site URL: a leading slash, then the normalized segments joined
    /// with slashes.
    pub fn url(&self) -> (r: String)
        ensures
            r@ == spec_url(self@),
    {
        let joined = self.join_components();
        let mut out = String::new();
        let ghost empty = out@;
        out.append("/");
        out.append(joined.as_str());
        proof {
            reveal_strlit("/");
            assert("/"@ =~= seq!['/']);
            assert(empty + "/"@ =~= seq!['/']);
        }
        out
    }

    /// The normalized segments joined with slashes, without a leading slash.
    fn join_components(&self) -> (r: String)
        ensures
            r@ == spec_join(spec_norm(self@), '/'),
    {
        let normed = self.norm_components();
        proof {
            reveal_strlit("/");
            assert("/"@ =~= seq!['/']);
            assert(str_views(normed@).skip(0) =~= str_views(normed@));
        }
        join_sep(&normed, 0, '/', "/")
    }

    /// The component list with every literal index segment removed.
    fn norm_components(&self) -> (r: Vec<String>)
        ensures
            str_views(r@) == spec_norm(self@),
    {
        let n = self.components.len();
        let mut out: Vec<String> = Vec::new();
        let mut i: usize = 0;
        proof {
            assert(str_views(self.components@).skip(0) =~= str_views(self.components@));
            assert(str_views(out@) + spec_norm(self@) =~= spec_norm(self@));
        }
        while i < n
            invariant
                i <= n,
                n == self.components@.len(),
                str_views(out@) + spec_norm(str_views(self.components@).skip(i as int))
                    == spec_norm(self@),
            decreases n - i,
        {
            let ghost rest = str_views(self.components@).skip(i as int);
            proof {
                reveal_strlit("index");
                assert("index"@ =~= index_seg());
                assert(rest.drop_first() =~= str_views(self.components@).skip(i + 1));
            }
            let c = &self.components[i];
            if !str_eq(c.as_str(), "index") {
                out.push(c.clone());
                proof {
                    assert(str_views(out@) + spec_norm(str_views(self.components@).skip(i + 1))
                        =~= spec_norm(self@));
                }
            }
            i += 1;
        }
        proof {
            assert(str_views(self.components@).skip(n as int) =~= Seq::<Seq<char>>::empty());
            assert(str_views(out@) =~= spec_norm(self@));
        }
        out
    }
}

/// Whether a path component obeys the on-disk naming convention: it carries
/// an order separator, or it is the literal index file name.
pub open spec fn content_seg_ok(c: Seq<char>) -> bool {
    c.contains('_') || c == index_md_seg()
}

/// The segment list derived from the slash-separated components of a path
/// relative to the content root: empty components dropped, every other
/// component checked against the naming convention and turned into a segment.
pub open spec fn spec_content_list(parts: Seq<Seq<char>>) -> Result<Seq<Seq<char>>, Error>
    decreases parts.len(),
{
    if parts.len() == 0 {
        Ok(Seq::empty())
    } else if parts[0].len() == 0 {
        spec_content_list(parts.drop_first())
    } else if !content_seg_ok(parts[0]) {
        Err(Error::NamingConvention)
    } else {
        match spec_content_list(parts.drop_first()) {
            Ok(rest) => Ok(seq![spec_segment(parts[0])] + rest),
            Err(e) => Err(e),
        }
    }
}

/// Whether `path` starts with `root`, read textually.
pub open spec fn spec_prefix_ok(path: Seq<char>, root: Seq<char>) -> bool {
    path.len() >= root.len() && path.take(root.len() as int) == root
}

/// The result of `Locator::from_content_path`: the path expressed relative
/// to the content root and read under the naming convention.
pub open spec fn spec_from_content(path: Seq<char>, root: Seq<char>) -> Result<
    Seq<Seq<char>>,
    Error,
> {
    if !spec_prefix_ok(path, root) {
        Err(Error::LocatorResolution)
    } else {
        spec_content_list(spec_split(path.skip(root.len() as int), '/'))
    }
}

impl Locator {
    /// Derives a locator from an on-disk path under `content_root`.
    ///
    /// Fails with `LocatorResolution` when `path` does not start with
    /// `content_root`, and with `NamingConvention` when a nonempty component
    /// neither carries an underscore separator nor is the literal index file.
    pub fn from_content_path(path: &str, content_root: &str) -> (r: Result<Self, Error>)
        ensures
            match r {
                Ok(l) => spec_from_content(path@, content_root@) == Ok::<Seq<Seq<char>>, Error>(
                    l@,
                ),
                Err(e) => spec_from_content(path@, content_root@) == Err::<Seq<Seq<char>>, Error>(
                    e,
                ),
            },
    {
        let rel = match strip_prefix_str(path, content_root) {
            None => {
                return Err(Error::LocatorResolution);
            },
            Some(t) => t,
        };
        let parts = split_str(rel.as_str(), '/');
        let ghost all = str_views(parts@);
        let n = parts.len();
        let mut components: Vec<String> = Vec::new();
        let mut i: usize = 0;
        proof {
            assert(all.skip(0) =~= all);
            if spec_content_list(all) is Ok {
                let v = spec_content_list(all)->Ok_0;
                assert(str_views(components@) + v =~= v);
            }
        }
        while i < n
            invariant
                i <= n,
                n == parts@.len(),
                all == str_views(parts@),
                spec_from_content(path@, content_root@) == spec_content_list(all),
                match spec_content_list(all.skip(i as int)) {
                    Ok(rest) => spec_content_list(all) == Ok::<Seq<Seq<char>>, Error>(
                        str_views(components@) + rest,
                    ),
                    Err(e) => spec_content_list(all) == Err::<Seq<Seq<char>>, Error>(e),
                },
            decreases n - i,
        {
            let ghost rest = all.skip(i as int);
            proof {
                reveal_strlit("index.md");
                assert("index.md"@ =~= index_md_seg());
                assert(rest.drop_first() =~= all.skip(i + 1));
            }
            let part = &parts[i];
            if part.unicode_len() > 0 {
                let part_ok = match find_char(part.as_str(), '_') {
                    Some(_) => true,
                    None => str_eq(part.as_str(), "index.md"),
                };
                if !part_ok {
                    proof {
                        assert(!content_seg_ok(rest[0]));
                        assert(spec_content_list(rest) == Err::<Seq<Seq<char>>, Error>(
                            Error::NamingConvention,
                        ));
                    }
                    return Err(Error::NamingConvention);
                }
                let seg = segment_of(part.as_str());
                components.push(seg);
                proof {
                    if spec_content_list(all.skip(i + 1)) is Ok {
                        let r2 = spec_content_list(all.skip(i + 1))->Ok_0;
                        assert(spec_content_list(rest) == Ok::<Seq<Seq<char>>, Error>(
                            seq![spec_segment(rest[0])] + r2,
                        ));
                        if spec_content_list(all) is Ok {
                            let v = spec_content_list(all)->Ok_0;
                            assert(v =~= str_views(components@) + r2);
                        }
                    }
                }
            }
            i += 1;
        }
        proof {
            assert(all.skip(n as int) =~= Seq::<Seq<char>>::empty());
            if spec_content_list(all) is Ok {
                let v = spec_content_list(all)->Ok_0;
                assert(v =~= str_views(components@));
            }
        }
        Ok(Locator { components })
    }
}

/// The generated-output file path of a segment list under a public root:
/// the public root's segments, the locator's segments and the generated page
/// file name, normalized and joined with slashes.
pub open spec fn spec_public_path(segs: Seq<Seq<char>>, public: Seq<char>) -> Seq<char> {
    spec_join(spec_norm(spec_join_segs(spec_new(public), segs).push(index_html_seg())), '/')
}

/// The generated-output directory of a segment list under a public root.
pub open spec fn spec_public_dir(segs: Seq<Seq<char>>, public: Seq<char>) -> Seq<char> {
    spec_join(spec_norm(spec_join_segs(spec_new(public), segs)), '/')
}

/// The static-asset path of a segment list under a static root.
pub open spec fn spec_static_path(segs: Seq<Seq<char>>, static_dir: Seq<char>) -> Seq<char> {
    static_dir + seq!['/'] + spec_join(spec_norm(segs), '/')
}

impl Locator {
    /// The file path of the generated page for this locator under the
    /// public root `public`.
    pub fn public_path(&self, public: &str) -> (r: String)
        ensures
            r@ == spec_public_path(self@, public@),
    {
        let base = Locator::new(public);
        let mut joined = base.join(self);
        joined.components.push(String::from_str("index.html"));
        proof {
            reveal_strlit("index.html");
            assert("index.html"@ =~= index_html_seg());
            assert(joined@ =~= spec_join_segs(spec_new(public@), self@).push(index_html_seg()));
        }
        joined.join_components()
    }

    /// The directory of the generated page for this locator under the
    /// public root `public`.
    pub fn public_dir(&self, public: &str) -> (r: String)
        ensures
            r@ == spec_public_dir(self@, public@),
    {
        let base = Locator::new(public);
        let joined = base.join(self);
        joined.join_components()
    }

    /// The on-disk path of the static asset this locator names, under the
    /// static root `static_dir`.
    pub fn static_path(&self, static_dir: &str) -> (r: String)
        ensures
            r@ == spec_static_path(self@, static_dir@),
    {
        let mut out = static_dir.to_owned();
        out.append("/");
        let jc = self.join_components();
        out.append(jc.as_str());
        proof {
            reveal_strlit("/");
            assert("/"@ =~= seq!['/']);
        }
        out
    }
}

/// A raw name turned into a segment, as `spec_segment` describes.
fn segment_of(c: &str) -> (r: String)
    ensures
        r@ == spec_segment(c@),
{
    let stripped = match after_first(c, '_') {
        Some(t) => t,
        None => c.to_owned(),
    };
    remove_md(stripped.as_str())
}

// ------------------------------------------------------------------
// Laws of the locator algebra
// ------------------------------------------------------------------

/// Joining a lone `.` segment changes nothing.
pub proof fn lemma_join_dot(base: Seq<Seq<char>>)
    ensures
        spec_join_segs(base, seq![seq!['.']]) == base,
{
    let other = seq![seq!['.']];
    assert(other[0] =~= seq!['.']);
    assert(other[0].len() == 1);
    assert(other[0] != seq!['.', '.']);
    assert(other.drop_first() =~= Seq::<Seq<char>>::empty());
    assert(spec_join_segs(base, Seq::<Seq<char>>::empty()) == base);
}

/// Joining a lone `..` segment pops the last segment; the root stays the root.
pub proof fn lemma_join_parent(base: Seq<Seq<char>>)
    ensures
        spec_join_segs(base, seq![seq!['.', '.']]) == spec_parent(base),
{
    let other = seq![seq!['.', '.']];
    assert(other[0] =~= seq!['.', '.']);
    assert(other.drop_first() =~= Seq::<Seq<char>>::empty());
    assert(spec_join_segs(spec_parent(base), Seq::<Seq<char>>::empty()) == spec_parent(base));
}

/// No normalized segment list contains an index segment.
pub proof fn lemma_norm_no_index(segs: Seq<Seq<char>>)
    ensures
        forall|k: int| 0 <= k < spec_norm(segs).len() ==> #[trigger] spec_norm(segs)[k]
            != index_seg(),
    decreases segs.len(),
{
    if segs.len() > 0 {
        lemma_norm_no_index(segs.drop_first());
        let nd = spec_norm(segs.drop_first());
        if segs[0] != index_seg() {
            assert forall|k: int| 0 <= k < spec_norm(segs).len() implies #[trigger] spec_norm(
                segs,
            )[k] != index_seg() by {
                if k > 0 {
                    assert(spec_norm(segs)[k] == nd[k - 1]);
                }
            }
        }
    }
}

/// Normalization keeps a segment list without index segments unchanged.
pub proof fn lemma_norm_all_kept(segs: Seq<Seq<char>>)
    requires
        forall|k: int| 0 <= k < segs.len() ==> #[trigger] segs[k] != index_seg(),
    ensures
        spec_norm(segs) == segs,
    decreases segs.len(),
{
    if segs.len() > 0 {
        lemma_norm_all_kept(segs.drop_first());
        assert(spec_norm(segs) =~= segs);
    } else {
        assert(spec_norm(segs) =~= segs);
    }
}

/// Normalization is idempotent.
pub proof fn lemma_norm_idempotent(segs: Seq<Seq<char>>)
    ensures
        spec_norm(spec_norm(segs)) == spec_norm(segs),
{
    lemma_norm_no_index(segs);
    lemma_norm_all_kept(spec_norm(segs));
}

/// Dropping empty parts keeps a list of nonempty parts unchanged.
pub proof fn lemma_nonempty_all_kept(parts: Seq<Seq<char>>)
    requires
        forall|k: int| 0 <= k < parts.len() ==> #[trigger] parts[k].len() > 0,
    ensures
        spec_nonempty(parts) == parts,
    decreases parts.len(),
{
    if parts.len() > 0 {
        lemma_nonempty_all_kept(parts.drop_first());
        assert(spec_nonempty(parts) =~= parts);
    } else {
        assert(spec_nonempty(parts) =~= parts);
    }
}

/// The round-trip law: reading a locator's URL back yields a locator with
/// the same normalized segments, whenever every normalized segment is
/// nonempty and slash-free. Since locator equality compares normalized
/// segments, `Locator::from_url` on `url()` returns an equal locator.
pub proof fn lemma_url_roundtrip(segs: Seq<Seq<char>>)
    requires
        forall|k: int| 0 <= k < spec_norm(segs).len() ==> url_safe_seg(
            #[trigger] spec_norm(segs)[k],
        ),
    ensures
        spec_norm(spec_from_url(spec_url(segs))) == spec_norm(segs),
{
    let nm = spec_norm(segs);
    let j = spec_join(nm, '/');
    let u = spec_url(segs);
    assert(u[0] == '/');
    assert(u.drop_first() =~= j);
    crate::strutil::lemma_split_join(nm, '/');
    if nm.len() == 0 {
        let e = Seq::<char>::empty();
        assert(j =~= e);
        assert(u =~= seq!['/']);
        assert(u.drop_first() =~= e);
        assert(spec_split(e, '/') == seq![e]);
        assert(spec_split(u, '/') == seq![e] + spec_split(e, '/'));
        let two = seq![e] + seq![e];
        assert(two.drop_first() =~= seq![e]);
        assert(seq![e].drop_first() =~= Seq::<Seq<char>>::empty());
        assert(two[0].len() == 0 && seq![e][0].len() == 0);
        assert(spec_nonempty(seq![e]) == spec_nonempty(Seq::<Seq<char>>::empty()));
        assert(spec_from_url(u) =~= Seq::<Seq<char>>::empty());
        assert(spec_norm(spec_from_url(u)) =~= nm);
    } else {
        assert(spec_split(j, '/') == nm);
        assert(spec_split(u, '/') == seq![Seq::<char>::empty()] + nm);
        assert((seq![Seq::<char>::empty()] + nm).drop_first() =~= nm);
        assert(spec_from_url(u) == spec_nonempty(nm));
        lemma_nonempty_all_kept(nm);
        lemma_norm_idempotent(segs);
    }
}

/// The round trip at the locator level: whenever `m` was built by
/// `from_url` from `l`'s URL, the two locators are equal under locator
/// equality, which compares normalized URL strings.
pub proof fn lemma_from_url_eq(l: Locator, m: Locator)
    requires
        forall|k: int| 0 <= k < spec_norm(l@).len() ==> url_safe_seg(#[trigger] spec_norm(l@)[k]),
        m@ == spec_from_url(spec_url(l@)),
    ensures
        vstd::std_specs::cmp::PartialEqSpec::eq_spec(&m, &l),
{
    lemma_url_roundtrip(l@);
    lemma_norm_idempotent(spec_from_url(spec_url(l@)));
}

} // verus!
