//! Adjacency views of graphs: unweighted and weighted neighbour lists.

use vstd::prelude::*;

verus! {

/// A finite directed graph given by adjacency.
pub trait Graph {
    /// The number of vertices.
    spec fn size(&self) -> nat;

    /// The neighbours of vertex `v`.
    spec fn adj_spec(&self, v: int) -> Seq<usize>;

    fn len(&self) -> (r: usize)
        ensures
            r as nat == self.size(),
    ;

    fn adj(&self, v: usize) -> (r: Vec<usize>)
        requires
            (v as nat) < self.size(),
        ensures
            r@ == self.adj_spec(v as int),
    ;
}

impl Graph for Vec<Vec<usize>> {
    open spec fn size(&self) -> nat {
        self@.len()
    }

    open spec fn adj_spec(&self, v: int) -> Seq<usize> {
        self@[v]@
    }

    fn len(&self) -> (r: usize) {
        self.len()
    }

    fn adj(&self, v: usize) -> (r: Vec<usize>) {
        let row = &self[v];
        let mut out: Vec<usize> = Vec::new();
        let mut j: usize = 0;
        while j < row.len()
            invariant
                j <= row@.len(),
                out@.len() == j as int,
                forall|t: int| 0 <= t < j as int ==> out@[t] == row@[t],
            decreases row@.len() - j,
        {
            out.push(row[j]);
            j = j + 1;
        }
        proof {
            assert(out@ =~= row@);
        }
        out
    }
}

/// A graph whose edges carry weights.
pub trait WGraph: Graph {
    type W;

    /// The neighbours of vertex `v` with their edge weights.
    spec fn adj_w_spec(&self, v: int) -> Seq<(usize, Self::W)>;

    fn adj_w(&self, v: usize) -> (r: Vec<(usize, Self::W)>)
        requires
            (v as nat) < self.size(),
        ensures
            r@ == self.adj_w_spec(v as int),
    ;
}

impl WGraph for Vec<Vec<usize>> {
    type W = usize;

    open spec fn adj_w_spec(&self, v: int) -> Seq<(usize, usize)> {
        self@[v]@.map_values(|u: usize| (u, 1usize))
    }

    fn adj_w(&self, v: usize) -> (r: Vec<(usize, usize)>) {
        let row = &self[v];
        let mut out: Vec<(usize, usize)> = Vec::new();
        let mut j: usize = 0;
        while j < row.len()
            invariant
                j <= row@.len(),
                out@.len() == j as int,
                forall|t: int| 0 <= t < j as int ==> out@[t] == (row@[t], 1usize),
            decreases row@.len() - j,
        {
            out.push((row[j], 1));
            j = j + 1;
        }
        proof {
            assert(out@ =~= row@.map_values(|u: usize| (u, 1usize)));
        }
        out
    }
}

impl<W> Graph for Vec<Vec<(usize, W)>> {
    open spec fn size(&self) -> nat {
        self@.len()
    }

    open spec fn adj_spec(&self, v: int) -> Seq<usize> {
        self@[v]@.map_values(|p: (usize, W)| p.0)
    }

    fn len(&self) -> (r: usize) {
        self.len()
    }

    fn adj(&self, v: usize) -> (r: Vec<usize>) {
        let row = &self[v];
        let mut out: Vec<usize> = Vec::new();
        let mut j: usize = 0;
        while j < row.len()
            invariant
                j <= row@.len(),
                out@.len() == j as int,
                forall|t: int| 0 <= t < j as int ==> out@[t] == row@[t].0,
            decreases row@.len() - j,
        {
            out.push(row[j].0);
            j = j + 1;
        }
        proof {
            assert(out@ =~= row@.map_values(|p: (usize, W)| p.0));
        }
        out
    }
}

impl<W: Copy> WGraph for Vec<Vec<(usize, W)>> {
    type W = W;

    open spec fn adj_w_spec(&self, v: int) -> Seq<(usize, W)> {
        self@[v]@
    }

    fn adj_w(&self, v: usize) -> (r: Vec<(usize, W)>) {
        let row = &self[v];
        let mut out: Vec<(usize, W)> = Vec::new();
        let mut j: usize = 0;
        while j < row.len()
            invariant
                j <= row@.len(),
                out@.len() == j as int,
                forall|t: int| 0 <= t < j as int ==> out@[t] == row@[t],
            decreases row@.len() - j,
        {
            out.push(row[j]);
            j = j + 1;
        }
        proof {
            assert(out@ =~= row@);
        }
        out
    }
}

} // verus!
