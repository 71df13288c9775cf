//! Record names: the canonical name, the occurrence suffix that tells
//! repeated names apart, terminator names, and the text operations they use.
use vstd::prelude::*;
use crate::text::{chars_of, string_of};

verus! {

pub open spec fn matches_at(s: Seq<char>, i: int, p: Seq<char>) -> bool {
    0 <= i && i + p.len() <= s.len() && s.subrange(i, i + p.len()) == p
}

pub open spec fn starts_with(s: Seq<char>, p: Seq<char>) -> bool {
    matches_at(s, 0, p)
}

pub open spec fn ends_with(s: Seq<char>, p: Seq<char>) -> bool {
    p.len() <= s.len() && matches_at(s, s.len() - p.len(), p)
}

pub open spec fn contains(s: Seq<char>, p: Seq<char>) -> bool {
    exists|i: int| 0 <= i <= s.len() - p.len() && matches_at(s, i, p)
}

/// Every non-overlapping occurrence of `p` replaced by `r`, scanning from
/// the left.
pub open spec fn replace_all(s: Seq<char>, p: Seq<char>, r: Seq<char>) -> Seq<char>
    decreases s.len(),
{
    if s.len() == 0 {
        s
    } else if p.len() > 0 && starts_with(s, p) {
        r + replace_all(s.subrange(p.len() as int, s.len() as int), p, r)
    } else {
        seq![s[0]] + replace_all(s.drop_first(), p, r)
    }
}

/// Position of the last `'_'` in `s`, or -1.
pub open spec fn last_sep(s: Seq<char>) -> int
    decreases s.len(),
{
    if s.len() == 0 {
        -1
    } else if s.last() == '_' {
        s.len() - 1
    } else {
        last_sep(s.drop_last())
    }
}

/// The name without its last underscore-delimited segment.
pub open spec fn canonical(s: Seq<char>) -> Seq<char> {
    if last_sep(s) < 0 {
        s
    } else {
        s.subrange(0, last_sep(s))
    }
}

/// The last underscore-delimited segment.
pub open spec fn last_segment(s: Seq<char>) -> Seq<char> {
    s.subrange(last_sep(s) + 1, s.len() as int)
}

pub open spec fn digit_char(d: nat) -> char {
    ((d % 10) + 48) as char
}

/// Decimal digits of `n`.
pub open spec fn decimal(n: nat) -> Seq<char>
    decreases n,
{
    if n < 10 {
        seq![digit_char(n)]
    } else {
        decimal(n / 10).push(digit_char(n % 10))
    }
}

/// A name with its occurrence index appended.
pub open spec fn decorated(base: Seq<char>, k: nat) -> Seq<char> {
    base + seq!['_'] + decimal(k)
}

pub proof fn lemma_last_sep_bounds(s: Seq<char>)
    ensures
        -1 <= last_sep(s) < s.len(),
        last_sep(s) >= 0 ==> s[last_sep(s)] == '_',
        forall|i: int| last_sep(s) < i < s.len() ==> s[i] != '_',
    decreases s.len(),
{
    if s.len() > 0 && s.last() != '_' {
        lemma_last_sep_bounds(s.drop_last());
        assert forall|i: int| last_sep(s) < i < s.len() implies s[i] != '_' by {
            if i < s.len() - 1 {
                assert(s[i] == s.drop_last()[i]);
            }
        }
    }
}

proof fn lemma_last_sep_no_sep_suffix(a: Seq<char>, d: Seq<char>)
    requires
        forall|i: int| 0 <= i < d.len() ==> d[i] != '_',
    ensures
        last_sep(a + d) == last_sep(a),
    decreases d.len(),
{
    if d.len() > 0 {
        assert((a + d).drop_last() =~= a + d.drop_last());
        lemma_last_sep_no_sep_suffix(a, d.drop_last());
    } else {
        assert(a + d =~= a);
    }
}

proof fn lemma_decimal_no_sep(n: nat)
    ensures
        forall|i: int| 0 <= i < decimal(n).len() ==> decimal(n)[i] != '_',
    decreases n,
{
    if n >= 10 {
        lemma_decimal_no_sep(n / 10);
        let d = decimal(n / 10);
        assert forall|i: int| 0 <= i < decimal(n).len() implies decimal(n)[i] != '_' by {
            if i < d.len() {
                assert(decimal(n)[i] == d[i]);
            } else {
                assert(decimal(n)[i] == digit_char(n % 10));
            }
        }
    } else {
        assert(decimal(n)[0] == digit_char(n));
    }
}

/// Stripping the occurrence index from a decorated canonical name gives the
/// canonical name back, for every occurrence index.
pub proof fn lemma_canonical_of_decorated(name: Seq<char>, k: nat)
    ensures
        canonical(decorated(canonical(name), k)) == canonical(name),
{
    let c = canonical(name);
    lemma_decimal_no_sep(k);
    lemma_last_sep_no_sep_suffix(c + seq!['_'], decimal(k));
    let cs = c + seq!['_'];
    assert(cs.drop_last() =~= c);
    assert(decorated(c, k) =~= cs + decimal(k));
    assert(decorated(c, k).subrange(0, c.len() as int) =~= c);
}

/// Index of the last `'_'`, if any.
pub fn last_sep_index(v: &[char]) -> (r: Option<usize>)
    ensures
        r matches Some(k) ==> k == last_sep(v@),
        r is None <==> last_sep(v@) < 0,
{
    let mut i: usize = v.len();
    assert(v@.subrange(0, i as int) =~= v@);
    while i > 0
        invariant
            i <= v@.len(),
            last_sep(v@) == last_sep(v@.subrange(0, i as int)),
        decreases i,
    {
        let ghost s = v@.subrange(0, i as int);
        if v[i - 1] == '_' {
            return Some(i - 1);
        }
        assert(s.drop_last() =~= v@.subrange(0, i - 1));
        i = i - 1;
    }
    None
}

/// The canonical name of a decorated name: all but its last
/// underscore-delimited segment.
pub fn canonical_chars(v: &[char]) -> (r: Vec<char>)
    ensures
        r@ == canonical(v@),
{
    proof {
        lemma_last_sep_bounds(v@);
    }
    match last_sep_index(v) {
        None => vstd::slice::slice_to_vec(v),
        Some(k) => vstd::slice::slice_to_vec(vstd::slice::slice_subrange(v, 0, k)),
    }
}

pub fn canonical_name(name: &str) -> (r: String)
    ensures
        r@ == canonical(name@),
{
    let v = chars_of(name);
    let c = canonical_chars(v.as_slice());
    string_of(c.as_slice())
}

/// Appends the decimal digits of `n`.
pub fn push_decimal(out: &mut Vec<char>, n: usize)
    ensures
        final(out)@ == old(out)@ + decimal(n as nat),
    decreases n,
{
    if n >= 10 {
        push_decimal(out, n / 10);
    }
    let d: u8 = (n % 10) as u8;
    out.push((d + 48u8) as char);
    assert(out@ =~= old(out)@ + decimal(n as nat));
}

pub fn matches_at_exec(s: &[char], i: usize, p: &[char]) -> (r: bool)
    ensures
        r == matches_at(s@, i as int, p@),
{
    if i > s.len() || p.len() > s.len() - i {
        return false;
    }
    let n = s.len();
    let mut k: usize = 0;
    while k < p.len()
        invariant
            n == s@.len(),
            i + p@.len() <= s@.len(),
            k <= p@.len(),
            forall|j: int| 0 <= j < k ==> s@[i + j] == p@[j],
        decreases p@.len() - k,
    {
        if s[i + k] != p[k] {
            assert(s@.subrange(i as int, i + p@.len())[k as int] != p@[k as int]);
            return false;
        }
        k = k + 1;
    }
    assert(s@.subrange(i as int, i + p@.len()) =~= p@);
    true
}

pub fn starts_with_exec(s: &[char], p: &[char]) -> (r: bool)
    ensures
        r == starts_with(s@, p@),
{
    matches_at_exec(s, 0, p)
}

pub fn ends_with_exec(s: &[char], p: &[char]) -> (r: bool)
    ensures
        r == ends_with(s@, p@),
{
    if p.len() > s.len() {
        return false;
    }
    matches_at_exec(s, s.len() - p.len(), p)
}

pub fn contains_exec(s: &[char], p: &[char]) -> (r: bool)
    ensures
        r == contains(s@, p@),
{
    if p.len() > s.len() {
        return false;
    }
    if p.len() == 0 {
        assert(matches_at(s@, 0, p@)) by {
            assert(s@.subrange(0, 0) =~= p@);
        }
        return true;
    }
    let n = s.len();
    let mut i: usize = 0;
    while i <= s.len() - p.len()
        invariant
            n == s@.len(),
            0 < p@.len() <= s@.len(),
            i <= s@.len() - p@.len() + 1,
            forall|j: int| 0 <= j < i ==> !matches_at(s@, j, p@),
        decreases s@.len() - p@.len() + 1 - i,
    {
        if matches_at_exec(s, i, p) {
            return true;
        }
        i = i + 1;
    }
    false
}

pub fn replace_all_exec(s: &[char], p: &[char], r: &[char]) -> (out: Vec<char>)
    requires
        p@.len() > 0,
    ensures
        out@ == replace_all(s@, p@, r@),
{
    let mut out: Vec<char> = Vec::new();
    let mut i: usize = 0;
    assert(s@.subrange(0, s@.len() as int) =~= s@);
    while i < s.len()
        invariant
            i <= s@.len(),
            p@.len() > 0,
            out@ + replace_all(s@.subrange(i as int, s@.len() as int), p@, r@) == replace_all(
                s@,
                p@,
                r@,
            ),
        decreases s@.len() - i,
    {
        let ghost rest = s@.subrange(i as int, s@.len() as int);
        if matches_at_exec(s, i, p) {
            assert(rest.subrange(0, p@.len() as int) =~= s@.subrange(i as int, i + p@.len()));
            assert(rest.subrange(p@.len() as int, rest.len() as int) =~= s@.subrange(
                i + p@.len(),
                s@.len() as int,
            ));
            let ghost before = out@;
            let mut k: usize = 0;
            while k < r.len()
                invariant
                    k <= r@.len(),
                    out@ == before + r@.subrange(0, k as int),
                decreases r@.len() - k,
            {
                out.push(r[k]);
                k = k + 1;
                assert(out@ =~= before + r@.subrange(0, k as int));
            }
            assert(r@.subrange(0, r@.len() as int) =~= r@);
            assert(out@ + replace_all(s@.subrange(i + p@.len(), s@.len() as int), p@, r@) =~= before
                + (r@ + replace_all(rest.subrange(p@.len() as int, rest.len() as int), p@, r@)));
            i = i + p.len();
        } else {
            assert(!starts_with(rest, p@)) by {
                if rest.len() >= p@.len() {
                    assert(rest.subrange(0, p@.len() as int) =~= s@.subrange(
                        i as int,
                        i + p@.len(),
                    ));
                }
            }
            assert(rest.drop_first() =~= s@.subrange(i + 1, s@.len() as int));
            let ghost before = out@;
            out.push(s[i]);
            assert(out@ + replace_all(s@.subrange(i + 1, s@.len() as int), p@, r@) =~= before + (
            seq![rest[0]] + replace_all(rest.drop_first(), p@, r@)));
            i = i + 1;
        }
    }
    assert(out@ + replace_all(s@.subrange(i as int, s@.len() as int), p@, r@) =~= out@);
    out
}

} // verus!
