//! The mathematical model of the matrix: a set of ordered pairs `(i, j)` with
//! `i < j`, and the laws that relate its operations.

use vstd::prelude::*;
use vstd::set_lib::{lemma_int_range, set_int_range};

verus! {

/// `(i, j)` names an entry above the diagonal of a matrix over `0..size`.
pub open spec fn valid_pair(size: int, i: int, j: int) -> bool {
    0 <= i < j < size
}

/// A pair of machine indices as a pair of integers.
pub open spec fn pair_int(p: (usize, usize)) -> (int, int) {
    (p.0 as int, p.1 as int)
}

/// The entries set in a matrix over `0..size` whose bit set holds `bits`,
/// where entry `(i, j)` sits at position `size * i + j`.
pub open spec fn ones_in(size: int, bits: Seq<bool>) -> Set<(int, int)> {
    Set::new(|p: (int, int)| valid_pair(size, p.0, p.1) && bits[size * p.0 + p.1])
}

/// The entries `s` after entry `(i, j)` is written with `value`.
pub open spec fn with_entry(s: Set<(int, int)>, i: int, j: int, value: bool) -> Set<(int, int)> {
    if value {
        s.insert((i, j))
    } else {
        s.remove((i, j))
    }
}

/// The entries `s` after each pair of `ones` is set, first to last.
pub open spec fn with_ones(s: Set<(int, int)>, ones: Seq<(usize, usize)>) -> Set<(int, int)>
    decreases ones.len(),
{
    if ones.len() == 0 {
        s
    } else {
        let p = ones.last();
        with_entry(with_ones(s, ones.drop_last()), p.0 as int, p.1 as int, true)
    }
}

/// `a` comes before `b` row by row, and within a row by column.
pub open spec fn lex_lt(a: (int, int), b: (int, int)) -> bool {
    a.0 < b.0 || (a.0 == b.0 && a.1 < b.1)
}

/// The entries of `ones_in(size, bits)` at or after `(i, j)`, row by row.
pub open spec fn ones_from(size: int, bits: Seq<bool>, i: int, j: int) -> Set<(int, int)> {
    Set::new(|p: (int, int)| ones_in(size, bits).contains(p) && !lex_lt(p, (i, j)))
}

/// `p` belongs to `s` and comes before every other pair of it.
pub open spec fn is_least_pair(s: Set<(int, int)>, p: (int, int)) -> bool {
    s.contains(p) && forall|q: (int, int)| #[trigger] s.contains(q) && q != p ==> lex_lt(p, q)
}

/// `x` belongs to `s` and is below every other element of it.
pub open spec fn is_least(s: Set<int>, x: int) -> bool {
    s.contains(x) && forall|y: int| #[trigger] s.contains(y) && y != x ==> x < y
}

/// Each pair of `s` comes strictly before the next, row by row.
pub open spec fn ascending_pairs(s: Seq<(usize, usize)>) -> bool {
    forall|k: int, l: int| 0 <= k < l < s.len() ==> lex_lt(pair_int(#[trigger] s[k]), pair_int(#[trigger] s[l]))
}

/// Each element of `s` is strictly below the next.
pub open spec fn ascending(s: Seq<usize>) -> bool {
    forall|k: int, l: int| 0 <= k < l < s.len() ==> #[trigger] s[k] < #[trigger] s[l]
}

/// The vertices `v >= from` for which the entry `(u, v)` is in `s`.
pub open spec fn row_from(s: Set<(int, int)>, u: int, from: int) -> Set<int> {
    Set::new(|v: int| from <= v && s.contains((u, v)))
}

/// The pairs listed in `s`, as integers.
pub open spec fn pairs_of(s: Seq<(usize, usize)>) -> Set<(int, int)> {
    s.map_values(|p: (usize, usize)| pair_int(p)).to_set()
}

/// The vertices listed in `s`, as integers.
pub open spec fn vertices_of(s: Seq<usize>) -> Set<int> {
    s.map_values(|v: usize| v as int).to_set()
}

/// Setting an entry makes it read as set, and clearing it afterwards makes
/// it read as clear.
pub proof fn lemma_set_then_get(s: Set<(int, int)>, i: int, j: int)
    ensures
        with_entry(s, i, j, true).contains((i, j)),
        !with_entry(with_entry(s, i, j, true), i, j, false).contains((i, j)),
{
}

/// Writing an entry leaves every other entry as it was.
pub proof fn lemma_set_keeps_others(s: Set<(int, int)>, i: int, j: int, value: bool, p: (int, int))
    requires
        p != (i, j),
    ensures
        with_entry(s, i, j, value).contains(p) == s.contains(p),
{
}

/// Building from a list of pairs is building from all but the last, then
/// setting the last.
pub proof fn lemma_with_ones_push(s: Set<(int, int)>, ones: Seq<(usize, usize)>, p: (usize, usize))
    ensures
        with_ones(s, ones.push(p)) == with_entry(with_ones(s, ones), p.0 as int, p.1 as int, true),
{
    assert(ones.push(p).drop_last() =~= ones);
}

/// A matrix built from a list of pairs has exactly the listed pairs set,
/// whatever their order and however often each is listed.
pub proof fn lemma_with_ones_contents(ones: Seq<(usize, usize)>)
    ensures
        with_ones(Set::empty(), ones) == pairs_of(ones),
    decreases ones.len(),
{
    if ones.len() == 0 {
        assert(pairs_of(ones) =~= Set::<(int, int)>::empty());
    } else {
        let f = |p: (usize, usize)| pair_int(p);
        let rest = ones.drop_last();
        lemma_with_ones_contents(rest);
        assert(ones =~= rest.push(ones.last()));
        assert(ones.map_values(f) =~= rest.map_values(f).push(pair_int(ones.last())));
        rest.map_values(f).lemma_push_to_set_commute(pair_int(ones.last()));
    }
}

/// The position `k` of `s` is listed in `pairs_of(s)`.
proof fn lemma_pairs_of_index(s: Seq<(usize, usize)>, k: int)
    requires
        0 <= k < s.len(),
    ensures
        pairs_of(s).contains(pair_int(s[k])),
{
    let f = |p: (usize, usize)| pair_int(p);
    assert(s.map_values(f)[k] == pair_int(s[k]));
}

/// A pair of `pairs_of(s)` stands at some position of `s`.
proof fn lemma_pairs_of_member(s: Seq<(usize, usize)>, q: (int, int)) -> (k: int)
    requires
        pairs_of(s).contains(q),
    ensures
        0 <= k < s.len(),
        pair_int(s[k]) == q,
{
    let f = |p: (usize, usize)| pair_int(p);
    choose|k: int| 0 <= k < s.map_values(f).len() && s.map_values(f)[k] == q
}

/// Two row-by-row ascending lists of the same pairs are the same list: the
/// traversal of a set of entries has a single possible outcome.
pub proof fn lemma_ascending_pairs_unique(a: Seq<(usize, usize)>, b: Seq<(usize, usize)>)
    requires
        ascending_pairs(a),
        ascending_pairs(b),
        pairs_of(a) == pairs_of(b),
    ensures
        a == b,
    decreases a.len(),
{
    if a.len() == 0 {
        if b.len() > 0 {
            lemma_pairs_of_index(b, 0);
            let k = lemma_pairs_of_member(a, pair_int(b[0]));
        }
        assert(a =~= b);
    } else {
        lemma_pairs_of_index(a, 0);
        let k = lemma_pairs_of_member(b, pair_int(a[0]));
        lemma_pairs_of_index(b, 0);
        let m = lemma_pairs_of_member(a, pair_int(b[0]));
        assert(a[0] == b[0]) by {
            if k > 0 && m > 0 {
                assert(lex_lt(pair_int(b[0]), pair_int(b[k])));
                assert(lex_lt(pair_int(a[0]), pair_int(a[m])));
            }
        }
        let (ta, tb) = (a.drop_first(), b.drop_first());
        assert forall|q: (int, int)| pairs_of(ta).contains(q) implies pairs_of(tb).contains(q) by {
            let x = lemma_pairs_of_member(ta, q);
            lemma_pairs_of_index(a, x + 1);
            let y = lemma_pairs_of_member(b, q);
            if y == 0 {
                assert(lex_lt(pair_int(a[0]), pair_int(a[x + 1])));
            } else {
                lemma_pairs_of_index(tb, y - 1);
            }
        }
        assert forall|q: (int, int)| pairs_of(tb).contains(q) implies pairs_of(ta).contains(q) by {
            let x = lemma_pairs_of_member(tb, q);
            lemma_pairs_of_index(b, x + 1);
            let y = lemma_pairs_of_member(a, q);
            if y == 0 {
                assert(lex_lt(pair_int(b[0]), pair_int(b[x + 1])));
            } else {
                lemma_pairs_of_index(ta, y - 1);
            }
        }
        assert(pairs_of(ta) =~= pairs_of(tb));
        lemma_ascending_pairs_unique(ta, tb);
        assert(a =~= b) by {
            assert forall|i: int| 0 <= i < a.len() implies a[i] == b[i] by {
                if i > 0 {
                    assert(a[i] == ta[i - 1]);
                    assert(b[i] == tb[i - 1]);
                }
            }
        }
    }
}

/// The position `k` of `s` is listed in `vertices_of(s)`.
proof fn lemma_vertices_of_index(s: Seq<usize>, k: int)
    requires
        0 <= k < s.len(),
    ensures
        vertices_of(s).contains(s[k] as int),
{
    let f = |v: usize| v as int;
    assert(s.map_values(f)[k] == s[k] as int);
}

/// A vertex of `vertices_of(s)` stands at some position of `s`.
proof fn lemma_vertices_of_member(s: Seq<usize>, w: int) -> (k: int)
    requires
        vertices_of(s).contains(w),
    ensures
        0 <= k < s.len(),
        s[k] as int == w,
{
    let f = |v: usize| v as int;
    choose|k: int| 0 <= k < s.map_values(f).len() && s.map_values(f)[k] == w
}

/// Two ascending lists of the same vertices are the same list: the traversal
/// of a set of neighbours has a single possible outcome.
pub proof fn lemma_ascending_unique(a: Seq<usize>, b: Seq<usize>)
    requires
        ascending(a),
        ascending(b),
        vertices_of(a) == vertices_of(b),
    ensures
        a == b,
    decreases a.len(),
{
    if a.len() == 0 {
        if b.len() > 0 {
            lemma_vertices_of_index(b, 0);
            let k = lemma_vertices_of_member(a, b[0] as int);
        }
        assert(a =~= b);
    } else {
        lemma_vertices_of_index(a, 0);
        let k = lemma_vertices_of_member(b, a[0] as int);
        lemma_vertices_of_index(b, 0);
        let m = lemma_vertices_of_member(a, b[0] as int);
        assert(a[0] == b[0]) by {
            if k > 0 && m > 0 {
                assert(b[0] < b[k]);
                assert(a[0] < a[m]);
            }
        }
        let (ta, tb) = (a.drop_first(), b.drop_first());
        assert forall|w: int| vertices_of(ta).contains(w) implies vertices_of(tb).contains(w) by {
            let x = lemma_vertices_of_member(ta, w);
            lemma_vertices_of_index(a, x + 1);
            let y = lemma_vertices_of_member(b, w);
            if y == 0 {
                assert(a[0] < a[x + 1]);
            } else {
                lemma_vertices_of_index(tb, y - 1);
            }
        }
        assert forall|w: int| vertices_of(tb).contains(w) implies vertices_of(ta).contains(w) by {
            let x = lemma_vertices_of_member(tb, w);
            lemma_vertices_of_index(b, x + 1);
            let y = lemma_vertices_of_member(a, w);
            if y == 0 {
                assert(b[0] < b[x + 1]);
            } else {
                lemma_vertices_of_index(ta, y - 1);
            }
        }
        assert(vertices_of(ta) =~= vertices_of(tb));
        lemma_ascending_unique(ta, tb);
        assert(a =~= b) by {
            assert forall|i: int| 0 <= i < a.len() implies a[i] == b[i] by {
                if i > 0 {
                    assert(a[i] == ta[i - 1]);
                    assert(b[i] == tb[i - 1]);
                }
            }
        }
    }
}

/// The square of pairs over `0..n`.
pub open spec fn square(n: int) -> Set<(int, int)> {
    Set::new(|p: (int, int)| 0 <= p.0 < n && 0 <= p.1 < n)
}

/// The square over `0..n` is a finite set.
pub proof fn lemma_square_finite(n: int)
    requires
        n >= 0,
    ensures
        square(n).finite(),
    decreases n,
{
    if n == 0 {
        assert(square(0) =~= Set::<(int, int)>::empty());
    } else {
        lemma_square_finite(n - 1);
        lemma_int_range(0, n);
        let r = set_int_range(0, n);
        let row = r.map(|b: int| (n - 1, b));
        let col = r.map(|a: int| (a, n - 1));
        r.lemma_map_finite(|b: int| (n - 1, b));
        r.lemma_map_finite(|a: int| (a, n - 1));
        assert forall|p: (int, int)| #[trigger] square(n).contains(p) implies square(n - 1).union(row).union(col).contains(p) by {
            if p.0 == n - 1 {
                assert(r.contains(p.1));
                assert(row.contains(p));
            } else if p.1 == n - 1 {
                assert(r.contains(p.0));
                assert(col.contains(p));
            }
        }
        assert(square(n) =~= square(n - 1).union(row).union(col));
    }
}

/// The entries of a matrix over `0..size` at or after any place form a finite set.
pub proof fn lemma_ones_from_finite(size: int, bits: Seq<bool>, i: int, j: int)
    requires
        size >= 0,
    ensures
        ones_from(size, bits, i, j).finite(),
{
    lemma_square_finite(size);
    assert(ones_from(size, bits, i, j).subset_of(square(size)));
    vstd::set_lib::lemma_set_subset_finite(square(size), ones_from(size, bits, i, j));
}

} // verus!
