use vstd::prelude::*;

verus! {

/// The views of a sequence of strings.
pub open spec fn str_views(v: Seq<String>) -> Seq<Seq<char>> {
    v.map_values(|s: String| s@)
}

/// Splitting a character sequence at every occurrence of `sep`.
///
/// The empty sequence splits into one empty part, and every separator adds
/// one part, so the result always has at least one element.
pub open spec fn spec_split(s: Seq<char>, sep: char) -> Seq<Seq<char>>
    decreases s.len(),
{
    if s.len() == 0 {
        seq![Seq::<char>::empty()]
    } else if s[0] == sep {
        seq![Seq::<char>::empty()] + spec_split(s.drop_first(), sep)
    } else {
        let rest = spec_split(s.drop_first(), sep);
        seq![seq![s[0]] + rest[0]] + rest.drop_first()
    }
}

pub proof fn lemma_split_nonempty(s: Seq<char>, sep: char)
    ensures
        spec_split(s, sep).len() >= 1,
    decreases s.len(),
{
    if s.len() > 0 && s[0] != sep {
        lemma_split_nonempty(s.drop_first(), sep);
    }
}

pub proof fn lemma_split_no_sep(s: Seq<char>, sep: char)
    requires
        !s.contains(sep),
    ensures
        spec_split(s, sep) == seq![s],
    decreases s.len(),
{
    if s.len() == 0 {
        assert(s =~= Seq::<char>::empty());
        assert(spec_split(s, sep) =~= seq![s]);
    } else {
        assert(s[0] != sep);
        let d = s.drop_first();
        assert forall|j: int| 0 <= j < d.len() implies d[j] != sep by {
            assert(d[j] == s[j + 1]);
        }
        assert(!d.contains(sep));
        lemma_split_no_sep(d, sep);
        assert(seq![s[0]] + d =~= s);
        assert(spec_split(s, sep) =~= seq![s]);
    }
}

/// The index of the first occurrence of `sep` in `s`.
pub open spec fn spec_first_index(s: Seq<char>, sep: char) -> int
    decreases s.len(),
{
    if s.len() == 0 {
        0
    } else if s[0] == sep {
        0
    } else {
        1 + spec_first_index(s.drop_first(), sep)
    }
}

pub proof fn lemma_first_index(s: Seq<char>, sep: char, i: int)
    requires
        0 <= i < s.len(),
        s[i] == sep,
        forall|j: int| 0 <= j < i ==> s[j] != sep,
    ensures
        spec_first_index(s, sep) == i,
    decreases i,
{
    if i > 0 {
        let d = s.drop_first();
        assert forall|j: int| 0 <= j < i - 1 implies d[j] != sep by {
            assert(d[j] == s[j + 1]);
        }
        lemma_first_index(d, sep, i - 1);
    }
}

/// Splitting at the first separator occurrence: the part before it, then the
/// split of the part after it.
pub proof fn lemma_split_at_first(s: Seq<char>, sep: char, i: int)
    requires
        0 <= i < s.len(),
        s[i] == sep,
        forall|j: int| 0 <= j < i ==> s[j] != sep,
    ensures
        spec_split(s, sep) == seq![s.take(i)] + spec_split(s.skip(i + 1), sep),
    decreases i,
{
    if i == 0 {
        assert(s.take(0) =~= Seq::<char>::empty());
        assert(s.skip(1) =~= s.drop_first());
        assert(spec_split(s, sep) =~= seq![s.take(0)] + spec_split(s.skip(1), sep));
    } else {
        let d = s.drop_first();
        assert forall|j: int| 0 <= j < i - 1 implies d[j] != sep by {
            assert(d[j] == s[j + 1]);
        }
        assert(d[i - 1] == sep);
        lemma_split_at_first(d, sep, i - 1);
        let r = spec_split(d, sep);
        assert(r[0] == d.take(i - 1));
        assert(seq![s[0]] + d.take(i - 1) =~= s.take(i));
        assert(d.skip(i) =~= s.skip(i + 1));
        assert(r.drop_first() =~= spec_split(s.skip(i + 1), sep));
        assert(spec_split(s, sep) =~= seq![s.take(i)] + spec_split(s.skip(i + 1), sep));
    }
}

/// Joining parts with a separator character.
pub open spec fn spec_join(parts: Seq<Seq<char>>, sep: char) -> Seq<char>
    decreases parts.len(),
{
    if parts.len() == 0 {
        Seq::empty()
    } else if parts.len() == 1 {
        parts[0]
    } else {
        parts[0] + seq![sep] + spec_join(parts.drop_first(), sep)
    }
}

pub proof fn lemma_join_push(parts: Seq<Seq<char>>, sep: char, p: Seq<char>)
    requires
        parts.len() >= 1,
    ensures
        spec_join(parts.push(p), sep) == spec_join(parts, sep) + seq![sep] + p,
    decreases parts.len(),
{
    if parts.len() == 1 {
        let q = parts.push(p);
        assert(q.drop_first() =~= seq![p]);
        assert(q[0] == parts[0]);
        assert(spec_join(seq![p], sep) == p);
        assert(spec_join(q, sep) == q[0] + seq![sep] + spec_join(q.drop_first(), sep));
    } else {
        lemma_join_push(parts.drop_first(), sep, p);
        assert(parts.push(p).drop_first() =~= parts.drop_first().push(p));
        assert(spec_join(parts.push(p), sep) =~= spec_join(parts, sep) + seq![sep] + p);
    }
}

/// Splitting a join of nonempty, separator-free parts recovers the parts.
pub proof fn lemma_split_join(parts: Seq<Seq<char>>, sep: char)
    requires
        forall|k: int| 0 <= k < parts.len() ==> parts[k].len() > 0 && !parts[k].contains(sep),
    ensures
        spec_split(spec_join(parts, sep), sep) == if parts.len() == 0 {
            seq![Seq::<char>::empty()]
        } else {
            parts
        },
    decreases parts.len(),
{
    if parts.len() == 0 {
        assert(spec_join(parts, sep) =~= Seq::<char>::empty());
    } else if parts.len() == 1 {
        lemma_split_no_sep(parts[0], sep);
        assert(spec_split(spec_join(parts, sep), sep) =~= parts);
    } else {
        let p0 = parts[0];
        let j = spec_join(parts, sep);
        let rest = spec_join(parts.drop_first(), sep);
        assert(j == p0 + seq![sep] + rest);
        let n = p0.len() as int;
        assert(j[n] == sep);
        assert forall|k: int| 0 <= k < n implies j[k] != sep by {
            assert(j[k] == p0[k]);
            if p0[k] == sep {
                assert(p0.contains(sep));
            }
        }
        lemma_split_at_first(j, sep, n);
        assert(j.take(n) =~= p0);
        assert(j.skip(n + 1) =~= rest);
        lemma_split_join(parts.drop_first(), sep);
        assert(parts.drop_first().len() >= 1);
        assert(spec_split(j, sep) =~= seq![p0] + parts.drop_first());
        assert(seq![p0] + parts.drop_first() =~= parts);
    }
}

// ------------------------------------------------------------------
// Executable counterparts
// ------------------------------------------------------------------

/// Equality of two string slices, decided character by character.
pub fn str_eq(a: &str, b: &str) -> (r: bool)
    ensures
        r == (a@ == b@),
{
    let na = a.unicode_len();
    let nb = b.unicode_len();
    if na != nb {
        return false;
    }
    let mut i: usize = 0;
    while i < na
        invariant
            i <= na,
            na == a@.len(),
            na == b@.len(),
            forall|j: int| 0 <= j < i ==> a@[j] == b@[j],
        decreases na - i,
    {
        if a.get_char(i) != b.get_char(i) {
            return false;
        }
        i += 1;
    }
    proof {
        assert(a@ =~= b@);
    }
    true
}

/// The index of the first occurrence of `sep` in `s`, if any.
pub fn find_char(s: &str, sep: char) -> (r: Option<usize>)
    ensures
        match r {
            Some(i) => i < s@.len() && s@[i as int] == sep && i == spec_first_index(s@, sep)
                && (forall|j: int| 0 <= j < i ==> s@[j] != sep) && s@.contains(sep),
            None => !s@.contains(sep),
        },
{
    let n = s.unicode_len();
    let mut i: usize = 0;
    while i < n
        invariant
            i <= n,
            n == s@.len(),
            forall|j: int| 0 <= j < i ==> s@[j] != sep,
        decreases n - i,
    {
        if s.get_char(i) == sep {
            proof {
                lemma_first_index(s@, sep, i as int);
            }
            return Some(i);
        }
        i += 1;
    }
    proof {
        if s@.contains(sep) {
            let w = choose|k: int| 0 <= k < s@.len() && s@[k] == sep;
            assert(s@[w] != sep);
        }
    }
    None
}

/// Splits `s` at every occurrence of `sep`.
pub fn split_str(s: &str, sep: char) -> (r: Vec<String>)
    ensures
        str_views(r@) == spec_split(s@, sep),
    decreases s@.len(),
{
    match find_char(s, sep) {
        None => {
            let mut r: Vec<String> = Vec::new();
            r.push(s.to_owned());
            proof {
                lemma_split_no_sep(s@, sep);
                assert(str_views(r@) =~= seq![s@]);
            }
            r
        },
        Some(i) => {
            let n = s.unicode_len();
            let head = s.substring_char(0, i).to_owned();
            let tail = s.substring_char(i + 1, n);
            let mut r = split_str(tail, sep);
            r.insert(0, head);
            proof {
                lemma_split_at_first(s@, sep, i as int);
                assert(s@.subrange(0, i as int) =~= s@.take(i as int));
                assert(s@.subrange(i + 1, n as int) =~= s@.skip(i + 1));
                assert(str_views(r@) =~= spec_split(s@, sep));
            }
            r
        },
    }
}

/// Joins `parts[start..]` with the separator `sep`; `sep_str` is the same
/// separator as a string slice.
pub fn join_sep(parts: &Vec<String>, start: usize, sep: char, sep_str: &str) -> (r: String)
    requires
        start <= parts@.len(),
        sep_str@ == seq![sep],
    ensures
        r@ == spec_join(str_views(parts@).skip(start as int), sep),
{
    let mut out = String::new();
    let n = parts.len();
    let mut i: usize = start;
    while i < n
        invariant
            start <= i <= n,
            n == parts@.len(),
            sep_str@ == seq![sep],
            out@ == spec_join(str_views(parts@).subrange(start as int, i as int), sep),
        decreases n - i,
    {
        let ghost pre = str_views(parts@).subrange(start as int, i as int);
        if i > start {
            out.append(sep_str);
        }
        out.append(parts[i].as_str());
        proof {
            let post = str_views(parts@).subrange(start as int, i + 1);
            assert(post =~= pre.push(parts@[i as int]@));
            if i > start {
                lemma_join_push(pre, sep, parts@[i as int]@);
            } else {
                assert(post =~= seq![parts@[i as int]@]);
            }
        }
        i += 1;
    }
    proof {
        assert(str_views(parts@).subrange(start as int, n as int) =~= str_views(parts@).skip(
            start as int,
        ));
    }
    out
}

/// The part of `s` after the first occurrence of `sep`.
pub open spec fn spec_after_first(s: Seq<char>, sep: char) -> Seq<char> {
    s.skip(spec_first_index(s, sep) + 1)
}

/// The part of `s` before the first occurrence of `sep`, or all of `s`
/// when `sep` does not occur.
pub open spec fn spec_before_first(s: Seq<char>, sep: char) -> Seq<char> {
    if s.contains(sep) {
        s.take(spec_first_index(s, sep))
    } else {
        s
    }
}

/// The part of `s` after the first `sep`, or `None` when `sep` does not occur.
pub fn after_first(s: &str, sep: char) -> (r: Option<String>)
    ensures
        match r {
            Some(t) => s@.contains(sep) && t@ == spec_after_first(s@, sep),
            None => !s@.contains(sep),
        },
{
    match find_char(s, sep) {
        None => None,
        Some(i) => {
            let n = s.unicode_len();
            Some(s.substring_char(i + 1, n).to_owned())
        },
    }
}

/// The part of `s` before the first `sep`, or all of `s` when `sep` does not occur.
pub fn before_first(s: &str, sep: char) -> (r: String)
    ensures
        r@ == spec_before_first(s@, sep),
{
    match find_char(s, sep) {
        None => s.to_owned(),
        Some(i) => s.substring_char(0, i).to_owned(),
    }
}

/// The character sequence of the content-file extension.
pub open spec fn md_suffix() -> Seq<char> {
    seq!['.', 'm', 'd']
}

/// `s` with every occurrence of the content-file extension removed, scanning
/// from the left over non-overlapping occurrences.
pub open spec fn spec_remove_md(s: Seq<char>) -> Seq<char>
    decreases s.len(),
{
    if s.len() < 3 {
        s
    } else if s.take(3) == md_suffix() {
        spec_remove_md(s.skip(3))
    } else {
        seq![s[0]] + spec_remove_md(s.drop_first())
    }
}

/// Removes every occurrence of the content-file extension from `s`.
pub fn remove_md(s: &str) -> (r: String)
    ensures
        r@ == spec_remove_md(s@),
{
    let n = s.unicode_len();
    let mut out = String::new();
    let mut i: usize = 0;
    proof {
        assert(s@.skip(0) =~= s@);
        assert(out@ + spec_remove_md(s@) =~= spec_remove_md(s@));
    }
    while i < n
        invariant
            i <= n,
            n == s@.len(),
            out@ + spec_remove_md(s@.skip(i as int)) == spec_remove_md(s@),
        decreases n - i,
    {
        let ghost t = s@.skip(i as int);
        if n - i >= 3 && s.get_char(i) == '.' && s.get_char(i + 1) == 'm' && s.get_char(i + 2)
            == 'd' {
            proof {
                assert(t.take(3) =~= md_suffix());
                assert(t.skip(3) =~= s@.skip(i + 3));
            }
            i += 3;
        } else {
            let c = s.substring_char(i, i + 1);
            out.append(c);
            proof {
                if t.len() >= 3 && t.take(3) == md_suffix() {
                    assert(t[0] == '.' && t[1] == 'm' && t[2] == 'd');
                    assert(false);
                }
                assert(c@ =~= seq![s@[i as int]]);
                assert(t.drop_first() =~= s@.skip(i + 1));
                assert(out@ + spec_remove_md(s@.skip(i + 1)) =~= spec_remove_md(s@));
            }
            i += 1;
        }
    }
    proof {
        assert(s@.skip(n as int) =~= Seq::<char>::empty());
        assert(out@ =~= spec_remove_md(s@));
    }
    out
}

/// Whether `c` is a decimal digit.
pub open spec fn is_digit(c: char) -> bool {
    48 <= c as u32 <= 57
}

pub open spec fn all_digits(s: Seq<char>) -> bool {
    forall|k: int| 0 <= k < s.len() ==> is_digit(s[k])
}

/// The value of a decimal digit sequence.
pub open spec fn spec_digits_val(s: Seq<char>) -> int
    decreases s.len(),
{
    if s.len() == 0 {
        0
    } else {
        spec_digits_val(s.drop_last()) * 10 + (s.last() as u32 - 48)
    }
}

pub proof fn lemma_digits_val_nonneg(s: Seq<char>)
    requires
        all_digits(s),
    ensures
        spec_digits_val(s) >= 0,
    decreases s.len(),
{
    if s.len() > 0 {
        assert(all_digits(s.drop_last()));
        lemma_digits_val_nonneg(s.drop_last());
    }
}

pub proof fn lemma_digits_val_prefix(s: Seq<char>, i: int)
    requires
        0 <= i <= s.len(),
        all_digits(s),
    ensures
        spec_digits_val(s.take(i)) <= spec_digits_val(s),
    decreases s.len() - i,
{
    if i < s.len() {
        assert(all_digits(s.take(i)));
        lemma_digits_val_nonneg(s.take(i));
        assert(s.take(i + 1).drop_last() =~= s.take(i));
        assert(s.take(i + 1).last() == s[i]);
        lemma_digits_val_prefix(s, i + 1);
    } else {
        assert(s.take(i) =~= s);
    }
}

/// The digit part of a decimal integer literal: `s` without an optional
/// leading plus sign.
pub open spec fn spec_digit_part(s: Seq<char>) -> Seq<char> {
    if s.len() >= 1 && s[0] == '+' {
        s.drop_first()
    } else {
        s
    }
}

/// The numeric value of `s` read as an unsigned decimal integer: an optional
/// leading plus sign, then at least one digit, with the value within range.
pub open spec fn spec_parse_u32(s: Seq<char>) -> Option<u32> {
    let digits = spec_digit_part(s);
    if digits.len() >= 1 && all_digits(digits) && spec_digits_val(digits) <= u32::MAX {
        Some(spec_digits_val(digits) as u32)
    } else {
        None
    }
}

/// Reads `s` as an unsigned decimal integer.
pub fn parse_u32(s: &str) -> (r: Option<u32>)
    ensures
        r == spec_parse_u32(s@),
{
    let n = s.unicode_len();
    let mut start: usize = 0;
    if n >= 1 && s.get_char(0) == '+' {
        start = 1;
    }
    let ghost digits = spec_digit_part(s@);
    proof {
        assert(digits =~= s@.skip(start as int));
    }
    if n == start {
        return None;
    }
    let mut acc: u64 = 0;
    let mut i: usize = start;
    while i < n
        invariant
            start <= i <= n,
            n == s@.len(),
            digits == spec_digit_part(s@),
            digits =~= s@.skip(start as int),
            all_digits(digits.take(i - start)),
            acc == spec_digits_val(digits.take(i - start)),
            acc <= u32::MAX as u64,
        decreases n - i,
    {
        let c = s.get_char(i);
        let cv = c as u32;
        if cv < 48 || cv > 57 {
            proof {
                assert(digits[i - start] == s@[i as int]);
                assert(!is_digit(digits[i - start]));
                assert(!all_digits(digits));
                assert(spec_parse_u32(s@) is None);
            }
            return None;
        }
        let d = (cv - 48) as u64;
        acc = acc * 10 + d;
        proof {
            let k = i - start;
            assert(digits[k as int] == s@[i as int]);
            assert(digits.take(k + 1).drop_last() =~= digits.take(k as int));
            assert(digits.take(k + 1).last() == digits[k as int]);
            assert(all_digits(digits.take(k + 1)));
            assert(acc == spec_digits_val(digits.take(k + 1)));
        }
        if acc > u32::MAX as u64 {
            proof {
                if all_digits(digits) && spec_digits_val(digits) <= u32::MAX {
                    lemma_digits_val_prefix(digits, i - start + 1);
                    assert(false);
                }
                assert(spec_parse_u32(s@) is None);
            }
            return None;
        }
        i += 1;
    }
    proof {
        assert(digits.take(n - start) =~= digits);
    }
    Some(acc as u32)
}

/// Whether `s` begins with the four characters of an absolute web link scheme.
pub open spec fn spec_has_http_prefix(s: Seq<char>) -> bool {
    s.len() >= 4 && s[0] == 'h' && s[1] == 't' && s[2] == 't' && s[3] == 'p'
}

pub fn has_http_prefix(s: &str) -> (r: bool)
    ensures
        r == spec_has_http_prefix(s@),
{
    let n = s.unicode_len();
    n >= 4 && s.get_char(0) == 'h' && s.get_char(1) == 't' && s.get_char(2) == 't' && s.get_char(3)
        == 'p'
}

/// Removes `prefix` from the front of `s`, or `None` when `s` does not
/// start with `prefix`.
pub fn strip_prefix_str(s: &str, prefix: &str) -> (r: Option<String>)
    ensures
        match r {
            Some(t) => s@.len() >= prefix@.len() && s@.take(prefix@.len() as int) == prefix@ && t@
                == s@.skip(prefix@.len() as int),
            None => !(s@.len() >= prefix@.len() && s@.take(prefix@.len() as int) == prefix@),
        },
{
    let n = s.unicode_len();
    let np = prefix.unicode_len();
    if n < np {
        proof {
            if s@.take(np as int) == prefix@ {
                assert(s@.take(np as int).len() == np);
            }
        }
        return None;
    }
    let mut i: usize = 0;
    while i < np
        invariant
            i <= np <= n,
            n == s@.len(),
            np == prefix@.len(),
            forall|j: int| 0 <= j < i ==> s@[j] == prefix@[j],
        decreases np - i,
    {
        if s.get_char(i) != prefix.get_char(i) {
            proof {
                if s@.take(np as int) == prefix@ {
                    assert(s@.take(np as int)[i as int] == prefix@[i as int]);
                }
            }
            return None;
        }
        i += 1;
    }
    proof {
        assert(s@.take(np as int) =~= prefix@);
    }
    Some(s.substring_char(np, n).to_owned())
}

} // verus!
