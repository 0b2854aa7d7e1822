//! The matrix, its index mapping, and its two traversals.

use crate::bitset::bits_of;
use crate::model::{
    ascending, ascending_pairs, is_least, is_least_pair, lemma_ones_from_finite, lex_lt, ones_from,
    ones_in, pair_int, pairs_of, row_from, valid_pair, vertices_of, with_entry, with_ones,
};
use fixedbitset::FixedBitSet;
use vstd::prelude::*;
use vstd::set_lib::{lemma_int_range, lemma_set_subset_finite, set_int_range};

verus! {

/// The position in the bit set of the entry `(i, j)` of a matrix over
/// `0..size`, laid out row by row over the full square.
pub fn get_index_from_row_column(i: usize, j: usize, size: usize) -> (r: usize)
    requires
        valid_pair(size as int, i as int, j as int),
        size * i + j <= usize::MAX,
    ensures
        r == size * i + j,
        r < size * size,
{
    proof {
        lemma_index_in_square(size as int, i as int, j as int);
    }
    size * i + j
}

/// The position of a valid entry lies inside the `size * size` square.
proof fn lemma_index_in_square(size: int, i: int, j: int)
    requires
        valid_pair(size, i, j),
    ensures
        0 <= size * i + j < size * size,
{
    assert(size * i <= size * (size - 1)) by (nonlinear_arith)
        requires
            0 <= i < size,
    ;
    assert(0 <= size * i) by (nonlinear_arith)
        requires
            0 <= i, 0 <= size,
    ;
    assert(size * (size - 1) + size == size * size) by (nonlinear_arith);
}

/// The entries set in a matrix over `0..size` kept in a bit set, visited row
/// by row and within a row by column.
pub struct EdgesIterator<'a> {
    size: usize,
    bitset: &'a FixedBitSet,
    i: usize,
    j: usize,
}

impl<'a> EdgesIterator<'a> {
    /// The bit set covers the `size * size` square, and the place `(i, j)`
    /// to look at next lies above the diagonal while rows are left.
    #[verifier::type_invariant]
    spec fn inv(self) -> bool {
        &&& self.size * self.size <= usize::MAX
        &&& bits_of(*self.bitset).len() >= self.size * self.size
        &&& self.i <= self.size
        &&& self.i < self.size ==> self.i < self.j <= self.size
    }

    /// The entries still to be visited.
    pub closed spec fn remaining(&self) -> Set<(int, int)> {
        ones_from(self.size as int, bits_of(*self.bitset), self.i as int, self.j as int)
    }

    /// A traversal of all the entries set in the matrix over `0..size` whose
    /// entry `(i, j)` is the flag at position `size * i + j` of `bitset`.
    pub fn new(size: usize, bitset: &'a FixedBitSet) -> (r: Self)
        requires
            size * size <= usize::MAX,
            bits_of(*bitset).len() >= size * size,
        ensures
            r.remaining() == ones_in(size as int, bits_of(*bitset)),
    {
        let r = Self { size, bitset, i: 0, j: 1 };
        assert(r.remaining() =~= ones_in(size as int, bits_of(*bitset)));
        r
    }

    /// The first entry still to be visited, which is then passed; `None`
    /// once none is left.
    pub fn next(&mut self) -> (r: Option<(usize, usize)>)
        ensures
            r.is_none() <==> old(self).remaining() == Set::<(int, int)>::empty(),
            r.is_some() ==> is_least_pair(old(self).remaining(), pair_int(r.unwrap())),
            r.is_some() ==> final(self).remaining() == old(self).remaining().remove(pair_int(r.unwrap())),
            r.is_none() ==> final(self).remaining() == old(self).remaining(),
    {
        proof {
            use_type_invariant(&*self);
            lemma_square_bound(self.size as int);
        }
        let size = self.size;
        let bitset = self.bitset;
        let ghost bits = bits_of(*bitset);
        let mut i = self.i;
        let mut j = self.j;
        while i < size
            invariant
                size * size <= usize::MAX,
                size < usize::MAX,
                bits.len() >= size * size,
                bits == bits_of(*bitset),
                i <= size,
                i < size ==> i < j <= size,
                ones_from(size as int, bits, i as int, j as int) == old(self).remaining(),
            decreases size - i,
        {
            while j < size
                invariant
                    size * size <= usize::MAX,
                    bits.len() >= size * size,
                    bits == bits_of(*bitset),
                    i < j <= size,
                    ones_from(size as int, bits, i as int, j as int) == old(self).remaining(),
                decreases size - j,
            {
                proof {
                    lemma_index_in_square(size as int, i as int, j as int);
                }
                let index = get_index_from_row_column(i, j, size);
                let current = j;
                j += 1;
                if bitset.contains(index) {
                    proof {
                        let p = (i as int, current as int);
                        let before = ones_from(size as int, bits, i as int, current as int);
                        assert(before.contains(p));
                        assert(ones_from(size as int, bits, i as int, j as int) =~= before.remove(p));
                    }
                    *self = EdgesIterator { size, bitset, i, j };
                    return Some((i, current));
                }
                assert(ones_from(size as int, bits, i as int, j as int) =~= ones_from(
                    size as int,
                    bits,
                    i as int,
                    current as int,
                ));
            }
            assert(ones_from(size as int, bits, i + 1, i + 2) =~= ones_from(
                size as int,
                bits,
                i as int,
                j as int,
            ));
            i += 1;
            j = i + 1;
        }
        assert(ones_from(size as int, bits, i as int, j as int) =~= Set::<(int, int)>::empty());
        *self = EdgesIterator { size, bitset, i, j };
        None
    }

    /// The entries still to be visited, in the order of the traversal.
    pub fn collect(self) -> (r: Vec<(usize, usize)>)
        ensures
            ascending_pairs(r@),
            pairs_of(r@) == self.remaining(),
    {
        let mut it = self;
        let mut out: Vec<(usize, usize)> = Vec::new();
        proof {
            use_type_invariant(&it);
            lemma_ones_from_finite(it.size as int, bits_of(*it.bitset), it.i as int, it.j as int);
        }
        loop
            invariant
                it.remaining().finite(),
                ascending_pairs(out@),
                pairs_of(out@).union(it.remaining()) == self.remaining(),
                pairs_of(out@).disjoint(it.remaining()),
                forall|k: int, q: (int, int)| 0 <= k < out@.len() && #[trigger] it.remaining().contains(q)
                    ==> lex_lt(pair_int(#[trigger] out@[k]), q),
            decreases it.remaining().len(),
        {
            let ghost seen = out@;
            match it.next() {
                Some(p) => {
                    out.push(p);
                    proof {
                        let f = |p: (usize, usize)| pair_int(p);
                        assert(out@.map_values(f) =~= seen.map_values(f).push(pair_int(p)));
                        seen.map_values(f).lemma_push_to_set_commute(pair_int(p));
                        assert(out@.map_values(f).to_set().union(it.remaining()) =~= self.remaining());
                        assert(out@.map_values(f).to_set().disjoint(it.remaining()));
                    }
                },
                None => {
                    proof {
                        assert(pairs_of(out@) =~= self.remaining());
                    }
                    return out;
                },
            }
        }
    }
}

/// The neighbours of one vertex `u` that are above it, `v > u` with the
/// entry `(u, v)` set, in increasing order.
pub struct NeighboursIterator<'a> {
    adjacency_matrix: &'a StrictlyUpperTriangularMatrix,
    left_vertex: usize,
    right_vertex: usize,
}

impl<'a> NeighboursIterator<'a> {
    /// The next vertex to look at lies past `u`, and at most at the end.
    #[verifier::type_invariant]
    spec fn inv(self) -> bool {
        &&& self.adjacency_matrix.wf()
        &&& self.left_vertex < self.right_vertex <= self.adjacency_matrix.size()
    }

    /// The neighbours still to be visited.
    pub closed spec fn remaining(&self) -> Set<int> {
        row_from(self.adjacency_matrix@, self.left_vertex as int, self.right_vertex as int)
    }

    /// The smallest neighbour still to be visited, which is then passed;
    /// `None` once none is left.
    pub fn next(&mut self) -> (r: Option<usize>)
        ensures
            r.is_none() <==> old(self).remaining() == Set::<int>::empty(),
            r.is_some() ==> is_least(old(self).remaining(), r.unwrap() as int),
            r.is_some() ==> final(self).remaining() == old(self).remaining().remove(r.unwrap() as int),
            r.is_none() ==> final(self).remaining() == old(self).remaining(),
    {
        proof {
            use_type_invariant(&*self);
        }
        let matrix = self.adjacency_matrix;
        let u = self.left_vertex;
        let mut v = self.right_vertex;
        while v < matrix.size()
            invariant
                matrix.wf(),
                u < v <= matrix.size(),
                row_from(matrix@, u as int, v as int) == old(self).remaining(),
            decreases matrix.size() - v,
        {
            if matrix.get(u, v) {
                let result = v;
                v += 1;
                proof {
                    let before = row_from(matrix@, u as int, result as int);
                    assert(before.contains(result as int));
                    assert(row_from(matrix@, u as int, v as int) =~= before.remove(result as int));
                }
                *self = NeighboursIterator { adjacency_matrix: matrix, left_vertex: u, right_vertex: v };
                return Some(result);
            }
            v += 1;
            assert(row_from(matrix@, u as int, v as int) =~= row_from(matrix@, u as int, v - 1));
        }
        proof {
            matrix.lemma_view_valid();
            assert(row_from(matrix@, u as int, v as int) =~= Set::<int>::empty());
        }
        *self = NeighboursIterator { adjacency_matrix: matrix, left_vertex: u, right_vertex: v };
        None
    }

    /// The neighbours still to be visited, in increasing order.
    pub fn collect(self) -> (r: Vec<usize>)
        ensures
            ascending(r@),
            vertices_of(r@) == self.remaining(),
    {
        let mut it = self;
        let mut out: Vec<usize> = Vec::new();
        proof {
            use_type_invariant(&it);
            let n = it.adjacency_matrix.size() as int;
            it.adjacency_matrix.lemma_view_valid();
            lemma_int_range(0, n);
            assert(it.remaining().subset_of(set_int_range(0, n)));
            lemma_set_subset_finite(set_int_range(0, n), it.remaining());
        }
        loop
            invariant
                it.remaining().finite(),
                ascending(out@),
                vertices_of(out@).union(it.remaining()) == self.remaining(),
                vertices_of(out@).disjoint(it.remaining()),
                forall|k: int, w: int| 0 <= k < out@.len() && #[trigger] it.remaining().contains(w)
                    ==> #[trigger] out@[k] < w,
            decreases it.remaining().len(),
        {
            let ghost seen = out@;
            match it.next() {
                Some(v) => {
                    out.push(v);
                    proof {
                        let f = |v: usize| v as int;
                        assert(out@.map_values(f) =~= seen.map_values(f).push(v as int));
                        seen.map_values(f).lemma_push_to_set_commute(v as int);
                        assert(out@.map_values(f).to_set().union(it.remaining()) =~= self.remaining());
                        assert(out@.map_values(f).to_set().disjoint(it.remaining()));
                    }
                },
                None => {
                    proof {
                        assert(vertices_of(out@) =~= self.remaining());
                    }
                    return out;
                },
            }
        }
    }
}

/// A square whose cells can be numbered in a `usize` has a side below
/// `usize::MAX`.
proof fn lemma_square_bound(size: int)
    requires
        0 <= size,
        size * size <= usize::MAX,
    ensures
        size < usize::MAX,
{
    if size >= 2 {
        assert(2 * size <= size * size) by (nonlinear_arith)
            requires
                size >= 2,
        ;
    }
}

/// A symmetric relation without self-loops over the vertices `0..size`,
/// stored as the entries `(i, j)` with `i < j`.
pub struct StrictlyUpperTriangularMatrix {
    size: usize,
    matrix: FixedBitSet,
}

impl Clone for StrictlyUpperTriangularMatrix {
    /// A copy with the same vertices and entries.
    fn clone(&self) -> (r: Self)
        ensures
            self.wf() ==> r.wf(),
            r.size() == self.size(),
            r@ == self@,
    {
        Self { size: self.size, matrix: self.matrix.clone() }
    }
}

impl View for StrictlyUpperTriangularMatrix {
    type V = Set<(int, int)>;

    /// The entries that are set.
    closed spec fn view(&self) -> Set<(int, int)> {
        ones_in(self.size as int, bits_of(self.matrix))
    }
}

impl StrictlyUpperTriangularMatrix {
    /// Well-formed: the bit set covers the whole `size * size` square, whose
    /// positions fit in a `usize`.
    pub closed spec fn wf(&self) -> bool {
        &&& self.size * self.size <= usize::MAX
        &&& bits_of(self.matrix).len() == self.size * self.size
    }

    /// The number of vertices.
    pub closed spec fn spec_size(&self) -> usize {
        self.size
    }

    /// A matrix over `0..size` with no entry set.
    pub fn zeroed(size: usize) -> (r: Self)
        requires
            size * size <= usize::MAX,
        ensures
            r.wf(),
            r.size() == size,
            r@ == Set::<(int, int)>::empty(),
    {
        let capacity = size * size;
        let r = Self { size, matrix: FixedBitSet::with_capacity(capacity) };
        assert forall|p: (int, int)| !r@.contains(p) by {
            if valid_pair(size as int, p.0, p.1) {
                lemma_index_in_square(size as int, p.0, p.1);
            }
        }
        assert(r@ =~= Set::<(int, int)>::empty());
        r
    }

    /// A matrix over `0..size` with the entries of `ones` set, one after the
    /// other.
    pub fn from_ones(size: usize, ones: &[(usize, usize)]) -> (r: Self)
        requires
            size * size <= usize::MAX,
            forall|k: int| 0 <= k < ones@.len() ==> valid_pair(size as int, #[trigger] ones@[k].0 as int, ones@[k].1 as int),
        ensures
            r.wf(),
            r.size() == size,
            r@ == with_ones(Set::empty(), ones@),
    {
        let mut result = Self::zeroed(size);
        let mut k: usize = 0;
        while k < ones.len()
            invariant
                k <= ones@.len(),
                result.wf(),
                result.size() == size,
                forall|m: int| 0 <= m < ones@.len() ==> valid_pair(size as int, #[trigger] ones@[m].0 as int, ones@[m].1 as int),
                result@ == with_ones(Set::empty(), ones@.subrange(0, k as int)),
            decreases ones.len() - k,
        {
            let (i, j) = ones[k];
            result.set(i, j, true);
            assert(ones@.subrange(0, k + 1).drop_last() =~= ones@.subrange(0, k as int));
            k += 1;
        }
        assert(ones@.subrange(0, k as int) =~= ones@);
        result
    }

    /// Every entry that is set lies above the diagonal.
    pub proof fn lemma_view_valid(&self)
        ensures
            forall|p: (int, int)| #[trigger] self@.contains(p) ==> valid_pair(self.size() as int, p.0, p.1),
    {
    }

    /// The number of vertices.
    #[verifier::when_used_as_spec(spec_size)]
    pub fn size(&self) -> (r: usize)
        ensures
            r == self.size(),
    {
        self.size
    }

    /// The position in the bit set of the entry `(i, j)`.
    fn index_from_row_column(&self, i: usize, j: usize) -> (r: usize)
        requires
            self.wf(),
            valid_pair(self.size() as int, i as int, j as int),
        ensures
            r == self.size() * i + j,
            r < bits_of(self.matrix).len(),
    {
        proof {
            lemma_index_in_square(self.size as int, i as int, j as int);
        }
        get_index_from_row_column(i, j, self.size())
    }

    /// Whether the entry `(i, j)` is set.
    pub fn get(&self, i: usize, j: usize) -> (r: bool)
        requires
            self.wf(),
            valid_pair(self.size() as int, i as int, j as int),
        ensures
            r == self@.contains((i as int, j as int)),
    {
        let index = self.index_from_row_column(i, j);
        self.matrix.contains(index)
    }

    /// Writes `value` at the entry `(i, j)`, and returns what it held before.
    pub fn set(&mut self, i: usize, j: usize, value: bool) -> (r: bool)
        requires
            old(self).wf(),
            valid_pair(old(self).size() as int, i as int, j as int),
        ensures
            final(self).wf(),
            r == old(self)@.contains((i as int, j as int)),
            final(self).size() == old(self).size(),
            final(self)@ == with_entry(old(self)@, i as int, j as int, value),
    {
        let index = self.index_from_row_column(i, j);
        let current = self.matrix.contains(index);
        self.matrix.set(index, value);
        proof {
            let n = self.size as int;
            assert forall|p: (int, int)| valid_pair(n, p.0, p.1) implies {
                &&& 0 <= n * p.0 + p.1 < n * n
                &&& p != (i as int, j as int) ==> n * p.0 + p.1 != index
            } by {
                lemma_index_in_square(n, p.0, p.1);
                if n * p.0 + p.1 == index {
                    lemma_index_injective(n, p.0, p.1, i as int, j as int);
                }
            }
            assert(self@ =~= with_entry(old(self)@, i as int, j as int, value));
        }
        current
    }

    /// A traversal of the entries that are set, row by row.
    pub fn iter_ones(&self) -> (r: EdgesIterator<'_>)
        requires
            self.wf(),
        ensures
            r.remaining() == self@,
    {
        EdgesIterator::new(self.size, &self.matrix)
    }

    /// A traversal of the neighbours `v > u` of `u`, in increasing order.
    /// Neighbours below `u` are not visited: they are the `i < u` with
    /// `get(i, u)`.
    pub fn iter_neighbours(&self, u: usize) -> (r: NeighboursIterator<'_>)
        requires
            self.wf(),
            u < self.size(),
        ensures
            r.remaining() == row_from(self@, u as int, u + 1),
    {
        NeighboursIterator { adjacency_matrix: self, left_vertex: u, right_vertex: u + 1 }
    }
}

/// Two distinct valid entries sit at distinct positions.
proof fn lemma_index_injective(size: int, i1: int, j1: int, i2: int, j2: int)
    requires
        valid_pair(size, i1, j1),
        valid_pair(size, i2, j2),
        size * i1 + j1 == size * i2 + j2,
    ensures
        i1 == i2 && j1 == j2,
{
    if i1 < i2 {
        assert(size * i1 + size <= size * i2) by (nonlinear_arith)
            requires
                i1 < i2, 0 <= size,
        ;
    } else if i2 < i1 {
        assert(size * i2 + size <= size * i1) by (nonlinear_arith)
            requires
                i2 < i1, 0 <= size,
        ;
    }
}

} // verus!
