use vstd::prelude::*;

verus! {

/// The undirected edge between pegs `i` and `j`, smaller index first.
pub open spec fn edge(i: int, j: int) -> (int, int) {
    if i < j { (i, j) } else { (j, i) }
}

/// The set of undirected peg pairs already used, for pegs `0..n`. Pair `(a, b)`
/// with `a < b` is kept at row `a`, column `b`.
pub struct EdgeSet {
    n: usize,
    rows: Vec<Vec<bool>>,
}

impl EdgeSet {
    /// Number of pegs.
    pub closed spec fn peg_count(&self) -> nat {
        self.n as nat
    }

    pub closed spec fn wf(&self) -> bool {
        &&& self.rows@.len() == self.n
        &&& forall|a: int| 0 <= a < self.n ==> (#[trigger] self.rows@[a])@.len() == self.n
    }

    /// The used pairs, each with its smaller index first.
    pub closed spec fn view(&self) -> Set<(int, int)> {
        Set::new(|e: (int, int)| 0 <= e.0 < e.1 < self.n && self.rows@[e.0]@[e.1])
    }

    /// No pair used yet, among `n` pegs.
    pub fn new(n: usize) -> (r: EdgeSet)
        ensures
            r.wf(),
            r.peg_count() == n,
            r@ == Set::<(int, int)>::empty(),
    {
        let mut rows: Vec<Vec<bool>> = Vec::new();
        let mut a: usize = 0;
        while a < n
            invariant
                a <= n,
                rows@.len() == a,
                forall|k: int| 0 <= k < a ==> (#[trigger] rows@[k])@.len() == n,
                forall|k: int, b: int| 0 <= k < a && 0 <= b < n ==> !(#[trigger] rows@[k]@[b]),
            decreases n - a,
        {
            let mut row: Vec<bool> = Vec::new();
            let mut b: usize = 0;
            while b < n
                invariant
                    b <= n,
                    row@.len() == b,
                    forall|c: int| 0 <= c < b ==> !(#[trigger] row@[c]),
                decreases n - b,
            {
                row.push(false);
                b = b + 1;
            }
            rows.push(row);
            a = a + 1;
        }
        let r = EdgeSet { n, rows };
        assert(r@ =~= Set::<(int, int)>::empty());
        r
    }

    /// Whether the pair `{i, j}` is used.
    pub fn contains(&self, i: usize, j: usize) -> (r: bool)
        requires
            self.wf(),
            i < self.peg_count(),
            j < self.peg_count(),
            i != j,
        ensures
            r == self@.contains(edge(i as int, j as int)),
    {
        if i < j {
            self.rows[i][j]
        } else {
            self.rows[j][i]
        }
    }

    /// Marks the pair `{i, j}` as used.
    pub fn insert(&mut self, i: usize, j: usize)
        requires
            old(self).wf(),
            i < old(self).peg_count(),
            j < old(self).peg_count(),
            i != j,
        ensures
            final(self).wf(),
            final(self).peg_count() == old(self).peg_count(),
            final(self)@ == old(self)@.insert(edge(i as int, j as int)),
    {
        let (a, b) = if i < j { (i, j) } else { (j, i) };
        let mut row = self.rows[a].clone();
        assert(row@ =~= old(self).rows@[a as int]@);
        row.set(b, true);
        self.rows.set(a, row);
        assert(self@ =~= old(self)@.insert(edge(i as int, j as int)));
    }
}

} // verus!
