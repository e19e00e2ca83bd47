//! The weighted graph and its adjacency view.

use vstd::prelude::*;
use crate::error::GraphError;
use crate::weight::{
    is_present, magnitude_below, weight_is_present, weight_magnitude_below, ZERO_BITS,
};

verus! {

/// An edge, by the vertex it leaves and the vertex it enters. The two
/// directions of an undirected edge are two edges.
pub type Edge = (usize, usize);

/// An undirected weighted graph on the vertices `0 .. order`, held as a dense
/// row-major matrix of weights. A weight that is zero means "no edge".
#[derive(Debug)]
pub struct WeightedGraph {
    order: usize,
    cells: Vec<u64>,
}

/// Every row of `matrix` is as long as the matrix has rows.
pub open spec fn is_square(matrix: Seq<Vec<u64>>) -> bool {
    forall|i: int| 0 <= i < matrix.len() ==> (#[trigger] matrix[i]).len() == matrix.len()
}

/// The rows of `matrix` as sequences.
pub open spec fn matrix_rows(matrix: Seq<Vec<u64>>) -> Seq<Seq<u64>> {
    Seq::new(matrix.len(), |i: int| matrix[i]@)
}

/// The place of `(u, v)` in a row-major matrix with rows of length `order`.
spec fn cell(order: int, u: int, v: int) -> int {
    u * order + v
}

/// The places of the first `rows` rows lie below `rows * order`.
proof fn lemma_cell_in_bounds(order: int, rows: int, u: int, v: int)
    requires
        0 <= u < rows,
        0 <= v < order,
    ensures
        0 <= cell(order, u, v) < rows * order,
{
    assert(u * order >= 0) by (nonlinear_arith)
        requires
            u >= 0,
            order >= 0,
    ;
    assert(u * order + order <= rows * order) by (nonlinear_arith)
        requires
            u + 1 <= rows,
            order >= 0,
    ;
}

impl View for WeightedGraph {
    type V = Seq<Seq<u64>>;

    /// The weight matrix, row by row.
    closed spec fn view(&self) -> Seq<Seq<u64>> {
        Seq::new(
            self.order as nat,
            |u: int|
                Seq::new(
                    self.order as nat,
                    |v: int| self.cells@[cell(self.order as int, u, v)],
                ),
        )
    }
}

impl WeightedGraph {
    /// There is a cell for every pair of vertices.
    #[verifier::type_invariant]
    spec fn inv(&self) -> bool {
        self.cells@.len() == self.order * self.order
    }

    /// The matrix is square. Holds of every graph that the constructor returned.
    pub open spec fn wf(&self) -> bool {
        forall|u: int| 0 <= u < self@.len() ==> (#[trigger] self@[u]).len() == self@.len()
    }

    /// The number of vertices.
    pub open spec fn order(&self) -> nat {
        self@.len()
    }

    /// The weight in row `u`, column `v`.
    pub open spec fn weight(&self, u: int, v: int) -> u64 {
        self@[u][v]
    }

    /// `u` and `v` are vertices and the weight of `(u, v)` is not zero.
    pub open spec fn adjacent(&self, u: int, v: int) -> bool {
        &&& 0 <= u < self.order()
        &&& 0 <= v < self.order()
        &&& is_present(self.weight(u, v))
    }

    /// Adjacency does not depend on the direction of an edge.
    pub open spec fn is_undirected(&self) -> bool {
        forall|u: int, v: int| self.adjacent(u, v) == self.adjacent(v, u)
    }

    /// Builds the graph of a weight matrix, which must be square.
    pub fn new_from_vec(weighted_adjacency_matrix: Vec<Vec<u64>>) -> (r: Result<Self, GraphError>)
        ensures
            is_square(weighted_adjacency_matrix@) ==> r is Ok && r->Ok_0@ == matrix_rows(
                weighted_adjacency_matrix@,
            ) && r->Ok_0.wf(),
            !is_square(weighted_adjacency_matrix@) ==> r == Err::<Self, GraphError>(
                GraphError::InvalidGraph,
            ),
    {
        let matrix = &weighted_adjacency_matrix;
        let order: usize = matrix.len();
        let mut cells: Vec<u64> = Vec::new();
        let mut u: usize = 0;
        while u < order
            invariant
                matrix@ == weighted_adjacency_matrix@,
                order == matrix.len(),
                0 <= u <= order,
                cells@.len() == u * order,
                forall|i: int| 0 <= i < u ==> (#[trigger] matrix@[i]).len() == order,
                forall|i: int, j: int|
                    0 <= i < u && 0 <= j < order ==> cells@[#[trigger] cell(order as int, i, j)]
                        == matrix@[i]@[j],
            decreases order - u,
        {
            let row = &matrix[u];
            if row.len() != order {
                return Err(GraphError::InvalidGraph);
            }
            let mut v: usize = 0;
            while v < order
                invariant
                    matrix@ == weighted_adjacency_matrix@,
                    order == matrix.len(),
                    0 <= u < order,
                    0 <= v <= order,
                    row == &matrix@[u as int],
                    row.len() == order,
                    cells@.len() == u * order + v,
                    forall|i: int| 0 <= i < u ==> (#[trigger] matrix@[i]).len() == order,
                    forall|i: int, j: int|
                        0 <= i < u && 0 <= j < order ==> cells@[#[trigger] cell(order as int, i, j)]
                            == matrix@[i]@[j],
                    forall|j: int|
                        0 <= j < v ==> cells@[#[trigger] cell(order as int, u as int, j)]
                            == row@[j],
                decreases order - v,
            {
                proof {
                    assert forall|i: int, j: int|
                        0 <= i < u && 0 <= j < order implies #[trigger] cell(order as int, i, j)
                        < cells@.len() by {
                        lemma_cell_in_bounds(order as int, u as int, i, j);
                    }
                }
                cells.push(row[v]);
                v += 1;
            }
            proof {
                assert((u + 1) * order == u * order + order) by (nonlinear_arith);
            }
            u += 1;
        }
        let g = WeightedGraph { order, cells };
        proof {
            assert(g@ =~~= matrix_rows(matrix@));
        }
        Ok(g)
    }

    /// The number of vertices.
    pub fn num_vertices(&self) -> (n: usize)
        ensures
            n == self.order(),
            self.wf(),
    {
        self.order
    }

    /// The weight of `(u, v)`.
    pub fn weight_at(&self, u: usize, v: usize) -> (w: u64)
        requires
            u < self.order(),
            v < self.order(),
        ensures
            w == self.weight(u as int, v as int),
    {
        proof {
            assert(self.cells.len() == self.cells@.len());
            use_type_invariant(self);
            lemma_cell_in_bounds(self.order as int, self.order as int, u as int, v as int);
            let place = cell(self.order as int, u as int, v as int);
            assert(0 <= u * self.order <= place) by (nonlinear_arith)
                requires
                    place == u * self.order + v,
                    u >= 0,
                    v >= 0,
                    self.order >= 0,
            ;
        }
        self.cells[u * self.order + v]
    }

    /// Whether `(u, v)` is an edge. Pairs outside the matrix are no edges.
    pub fn has_edge(&self, u: usize, v: usize) -> (r: bool)
        ensures
            r == self.adjacent(u as int, v as int),
    {
        if u < self.order && v < self.order {
            weight_is_present(self.weight_at(u, v))
        } else {
            false
        }
    }

    /// Removes every edge whose weight is smaller in magnitude than `thresh`:
    /// such a weight becomes positive zero, every other weight stays.
    pub fn sparsify_matrix(&mut self, thresh: u64)
        ensures
            final(self).order() == old(self).order(),
            final(self).wf(),
            forall|u: int, v: int|
                0 <= u < old(self).order() && 0 <= v < old(self).order() ==> #[trigger] final(self)
                    .weight(u, v) == (if magnitude_below(old(self).weight(u, v), thresh) {
                    ZERO_BITS
                } else {
                    old(self).weight(u, v)
                }),
    {
        proof {
            use_type_invariant(&*self);
        }
        let total: usize = self.cells.len();
        let mut k: usize = 0;
        while k < total
            invariant
                total == self.cells@.len(),
                total == old(self).cells@.len(),
                self.order == old(self).order,
                self.cells@.len() == self.order * self.order,
                0 <= k <= total,
                forall|i: int|
                    0 <= i < k ==> #[trigger] self.cells@[i] == (if magnitude_below(
                        old(self).cells@[i],
                        thresh,
                    ) {
                        ZERO_BITS
                    } else {
                        old(self).cells@[i]
                    }),
                forall|i: int| k <= i < total ==> #[trigger] self.cells@[i] == old(self).cells@[i],
            decreases total - k,
        {
            if weight_magnitude_below(self.cells[k], thresh) {
                self.cells[k] = ZERO_BITS;
            }
            k += 1;
        }
        proof {
            let order = old(self).order();
            assert forall|u: int, v: int|
                0 <= u < order && 0 <= v < order implies #[trigger] self.weight(u, v) == (
            if magnitude_below(old(self).weight(u, v), thresh) {
                ZERO_BITS
            } else {
                old(self).weight(u, v)
            }) by {
                lemma_cell_in_bounds(self.order as int, self.order as int, u, v);
            }
        }
    }
}

} // verus!
