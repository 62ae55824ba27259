use vstd::prelude::*;

use crate::edges::{edge, EdgeSet};
use crate::error::StringArtError;
use crate::raster::{
    calculate_line_intensity, line_sum, point_on_canvas, raster_dims, segment, subtract_along,
    subtract_line, Raster,
};

verus! {

/// A thread: its start and end point on the canvas.
pub type Segment = ((i32, i32), (i32, i32));

/// The residual summed along the thread from peg `from` to peg `to`.
pub open spec fn score(cells: Seq<u8>, w: nat, pegs: Seq<(i32, i32)>, from: int, to: int) -> int {
    line_sum(cells, w, segment(pegs[from], pegs[to]))
}

/// Peg `j` may follow peg `cur`: it is another peg, and their edge is unused.
pub open spec fn legal(used: Set<(int, int)>, cur: int, j: int) -> bool {
    j != cur && !used.contains(edge(cur, j))
}

/// The best peg to follow `cur` among pegs `0..k`: the legal one of highest
/// score, the smallest index among equal scores; `None` if none is legal.
pub open spec fn best_upto(
    cells: Seq<u8>,
    w: nat,
    pegs: Seq<(i32, i32)>,
    used: Set<(int, int)>,
    cur: int,
    k: int,
) -> Option<int>
    decreases k,
{
    if k <= 0 {
        None
    } else {
        let prev = best_upto(cells, w, pegs, used, cur, k - 1);
        let j = k - 1;
        let better = match prev {
            None => true,
            Some(b) => score(cells, w, pegs, cur, j) > score(cells, w, pegs, cur, b),
        };
        if legal(used, cur, j) && better {
            Some(j)
        } else {
            prev
        }
    }
}

/// The greedy walk of `n` threads from peg `cur`, as pairs of peg indices, on
/// the residual `cells` with the edges `used` taken; or the peg from which no
/// unused edge was left.
pub open spec fn walk(
    cells: Seq<u8>,
    w: nat,
    pegs: Seq<(i32, i32)>,
    used: Set<(int, int)>,
    cur: int,
    n: nat,
    weight: u8,
) -> Result<Seq<(int, int)>, int>
    decreases n,
{
    if n == 0 {
        Ok(Seq::empty())
    } else {
        match best_upto(cells, w, pegs, used, cur, pegs.len() as int) {
            None => Err(cur),
            Some(j) => prepend(
                seq![(cur, j)],
                walk(
                    subtract_along(cells, w, segment(pegs[cur], pegs[j]), weight),
                    w,
                    pegs,
                    used.insert(edge(cur, j)),
                    j,
                    (n - 1) as nat,
                    weight,
                ),
            ),
        }
    }
}

/// `s` put in front of a successful walk; a failure stays as it is.
pub open spec fn prepend(s: Seq<(int, int)>, r: Result<Seq<(int, int)>, int>) -> Result<
    Seq<(int, int)>,
    int,
> {
    match r {
        Ok(rest) => Ok(s + rest),
        Err(p) => Err(p),
    }
}

/// Each peg lies on a `w` by `h` canvas.
pub open spec fn pegs_on_canvas(pegs: Seq<(i32, i32)>, w: nat, h: nat) -> bool {
    forall|i: int| 0 <= i < pegs.len() ==> point_on_canvas(w, h, #[trigger] pegs[i])
}

/// The threads of a walk given by peg indices, as canvas points.
pub open spec fn segments_of(pegs: Seq<(i32, i32)>, steps: Seq<(int, int)>) -> Seq<Segment> {
    steps.map_values(|s: (int, int)| (pegs[s.0], pegs[s.1]))
}

/// `r` is what a run of `n` threads from peg `start` gives on the residual
/// `cells` of width `w`: the threads of the greedy walk, or the peg at which
/// the walk ran out of edges.
pub open spec fn walk_outcome(
    r: Result<Vec<Segment>, StringArtError>,
    cells: Seq<u8>,
    w: nat,
    pegs: Seq<(i32, i32)>,
    start: int,
    n: nat,
    weight: u8,
) -> bool {
    match walk(cells, w, pegs, Set::empty(), start, n, weight) {
        Ok(steps) => match r {
            Ok(segs) => segs@ == segments_of(pegs, steps),
            Err(_) => false,
        },
        Err(p) => match r {
            Err(StringArtError::ExhaustedPeg(q)) => q == p,
            _ => false,
        },
    }
}

/// The peg chosen among `0..k` is one of them, and legal.
proof fn lemma_best_legal(
    cells: Seq<u8>,
    w: nat,
    pegs: Seq<(i32, i32)>,
    used: Set<(int, int)>,
    cur: int,
    k: int,
)
    ensures
        match best_upto(cells, w, pegs, used, cur, k) {
            Some(b) => 0 <= b < k && legal(used, cur, b),
            None => true,
        },
    decreases k,
{
    if k > 0 {
        lemma_best_legal(cells, w, pegs, used, cur, k - 1);
    }
}

proof fn lemma_prepend(s: Seq<(int, int)>, x: (int, int), r: Result<Seq<(int, int)>, int>)
    ensures
        prepend(s, prepend(seq![x], r)) == prepend(s.push(x), r),
{
    match r {
        Ok(rest) => {
            assert(s + (seq![x] + rest) =~= s.push(x) + rest);
        },
        Err(p) => {},
    }
}

/// Runs the greedy walk: `num_lines` times, from the current peg (first
/// `start`), scores every legal next peg in ascending order, takes the first of
/// highest score, takes `weight` off the residual along that thread, marks the
/// edge used and moves on. Fails with the current peg when it has no unused
/// edge left.
pub fn generate_walk(
    field: &mut Raster,
    pegs: &Vec<(i32, i32)>,
    start: usize,
    num_lines: usize,
    weight: u8,
) -> (r: Result<Vec<Segment>, StringArtError>)
    requires
        old(field).wf(),
        start < pegs@.len(),
        pegs_on_canvas(pegs@, old(field).width(), old(field).height()),
    ensures
        walk_outcome(
            r,
            old(field).cells(),
            old(field).width(),
            pegs@,
            start as int,
            num_lines as nat,
            weight,
        ),
        final(field).wf(),
        raster_dims(*final(field)) == raster_dims(*old(field)),
        final(field).cells().len() == old(field).cells().len(),
        forall|i: int|
            0 <= i < old(field).cells().len() ==> #[trigger] final(field).cells()[i]
                <= old(field).cells()[i],
{
    let ghost w = field.width();
    let ghost h = field.height();
    let ghost total = walk(field.cells(), w, pegs@, Set::empty(), start as int, num_lines as nat, weight);
    let n = pegs.len();
    let mut edges = EdgeSet::new(n);
    let mut out: Vec<Segment> = Vec::new();
    let ghost mut steps: Seq<(int, int)> = Seq::empty();
    let mut cur: usize = start;
    let mut it: usize = 0;
    assert(steps + Seq::<(int, int)>::empty() =~= Seq::<(int, int)>::empty());
    while it < num_lines
        invariant
            it <= num_lines,
            cur < n,
            n == pegs@.len(),
            field.wf(),
            field.width() == w && field.height() == h,
            raster_dims(*field) == raster_dims(*old(field)),
            w == old(field).width() && h == old(field).height(),
            field.cells().len() == old(field).cells().len(),
            forall|i: int|
                0 <= i < old(field).cells().len() ==> #[trigger] field.cells()[i]
                    <= old(field).cells()[i],
            pegs_on_canvas(pegs@, w, h),
            edges.wf(),
            edges.peg_count() == n,
            out@ == segments_of(pegs@, steps),
            total == walk(old(field).cells(), w, pegs@, Set::empty(), start as int, num_lines as nat, weight),
            total == prepend(
                steps,
                walk(field.cells(), w, pegs@, edges@, cur as int, (num_lines - it) as nat, weight),
            ),
        decreases num_lines - it,
    {
        let ghost cells = field.cells();
        let ghost used = edges@;
        let mut best: Option<(usize, u64)> = None;
        let mut j: usize = 0;
        while j < n
            invariant
                j <= n,
                cur < n,
                n == pegs@.len(),
                field.wf(),
                field.width() == w && field.height() == h && field.cells() == cells,
                pegs_on_canvas(pegs@, w, h),
                edges.wf(),
                edges.peg_count() == n,
                edges@ == used,
                match best {
                    None => best_upto(cells, w, pegs@, used, cur as int, j as int) is None,
                    Some((b, bs)) => b < n && best_upto(cells, w, pegs@, used, cur as int, j as int)
                        == Some(b as int) && bs == score(cells, w, pegs@, cur as int, b as int),
                },
            decreases n - j,
        {
            if j != cur && !edges.contains(cur, j) {
                let sc = calculate_line_intensity(field, pegs[cur], pegs[j]);
                let better = match best {
                    None => true,
                    Some((_, bs)) => sc > bs,
                };
                if better {
                    best = Some((j, sc));
                }
            }
            j = j + 1;
        }
        match best {
            None => {
                return Err(StringArtError::ExhaustedPeg(cur));
            },
            Some((b, _)) => {
                let ghost rest = walk(
                    subtract_along(cells, w, segment(pegs@[cur as int], pegs@[b as int]), weight),
                    w,
                    pegs@,
                    used.insert(edge(cur as int, b as int)),
                    b as int,
                    (num_lines - it - 1) as nat,
                    weight,
                );
                proof {
                    lemma_prepend(steps, (cur as int, b as int), rest);
                    lemma_best_legal(cells, w, pegs@, used, cur as int, n as int);
                }
                subtract_line(field, pegs[cur], pegs[b], weight);
                assert(forall|i: int|
                    0 <= i < old(field).cells().len() ==> field.cells()[i] <= cells[i]);
                edges.insert(cur, b);
                out.push((pegs[cur], pegs[b]));
                proof {
                    steps = steps.push((cur as int, b as int));
                    assert(out@ =~= segments_of(pegs@, steps));
                }
                cur = b;
                it = it + 1;
            },
        }
    }
    assert(steps + Seq::<(int, int)>::empty() =~= steps);
    Ok(out)
}

/// A walk of `n` threads that succeeds has `n` of them; the first leaves
/// peg `cur`, and each one after leaves the peg where the one before ended.
pub proof fn lemma_walk_chain(
    cells: Seq<u8>,
    w: nat,
    pegs: Seq<(i32, i32)>,
    used: Set<(int, int)>,
    cur: int,
    n: nat,
    weight: u8,
)
    ensures
        match walk(cells, w, pegs, used, cur, n, weight) {
            Ok(steps) => {
                &&& steps.len() == n
                &&& steps.len() > 0 ==> steps[0].0 == cur
                &&& forall|k: int| 0 <= k < steps.len() - 1 ==> (#[trigger] steps[k]).1 == steps[k + 1].0
            },
            Err(_) => true,
        },
    decreases n,
{
    if n > 0 {
        match best_upto(cells, w, pegs, used, cur, pegs.len() as int) {
            None => {},
            Some(j) => {
                let next = subtract_along(cells, w, segment(pegs[cur], pegs[j]), weight);
                let used2 = used.insert(edge(cur, j));
                lemma_walk_chain(next, w, pegs, used2, j, (n - 1) as nat, weight);
                match walk(next, w, pegs, used2, j, (n - 1) as nat, weight) {
                    Ok(rest) => {
                        let steps = seq![(cur, j)] + rest;
                        assert forall|k: int| 0 <= k < steps.len() - 1 implies (#[trigger] steps[k]).1
                            == steps[k + 1].0 by {
                            if k > 0 {
                                assert(steps[k] == rest[k - 1]);
                                assert(steps[k + 1] == rest[k]);
                                let m = k - 1;
                                assert(rest[m].1 == rest[m + 1].0);
                            }
                        }
                    },
                    Err(_) => {},
                }
            },
        }
    }
}

/// A walk that succeeds never takes an edge that was already used, never joins
/// a peg to itself, and takes no edge twice.
pub proof fn lemma_walk_edges(
    cells: Seq<u8>,
    w: nat,
    pegs: Seq<(i32, i32)>,
    used: Set<(int, int)>,
    cur: int,
    n: nat,
    weight: u8,
)
    ensures
        match walk(cells, w, pegs, used, cur, n, weight) {
            Ok(steps) => {
                &&& forall|k: int|
                    0 <= k < steps.len() ==> (#[trigger] steps[k]).0 != steps[k].1 && !used.contains(
                        edge(steps[k].0, steps[k].1),
                    )
                &&& forall|k1: int, k2: int|
                    0 <= k1 < k2 < steps.len() ==> edge((#[trigger] steps[k1]).0, steps[k1].1) != edge(
                        (#[trigger] steps[k2]).0,
                        steps[k2].1,
                    )
            },
            Err(_) => true,
        },
    decreases n,
{
    if n > 0 {
        lemma_best_legal(cells, w, pegs, used, cur, pegs.len() as int);
        match best_upto(cells, w, pegs, used, cur, pegs.len() as int) {
            None => {},
            Some(j) => {
                let next = subtract_along(cells, w, segment(pegs[cur], pegs[j]), weight);
                let e = edge(cur, j);
                let used2 = used.insert(e);
                lemma_walk_edges(next, w, pegs, used2, j, (n - 1) as nat, weight);
                match walk(next, w, pegs, used2, j, (n - 1) as nat, weight) {
                    Ok(rest) => {
                        let steps = seq![(cur, j)] + rest;
                        assert(steps[0] == (cur, j));
                        assert forall|k: int| 0 < k < steps.len() implies steps[k] == rest[k - 1] by {}
                        assert forall|k: int|
                            0 <= k < steps.len() implies (#[trigger] steps[k]).0 != steps[k].1
                                && !used.contains(edge(steps[k].0, steps[k].1)) by {
                            if k > 0 {
                                assert(steps[k] == rest[k - 1]);
                            }
                        }
                        assert forall|k1: int, k2: int|
                            0 <= k1 < k2 < steps.len() implies edge((#[trigger] steps[k1]).0, steps[k1].1)
                                != edge((#[trigger] steps[k2]).0, steps[k2].1) by {
                            assert(steps[k2] == rest[k2 - 1]);
                            if k1 > 0 {
                                assert(steps[k1] == rest[k1 - 1]);
                            } else {
                                assert(!used2.contains(edge(rest[k2 - 1].0, rest[k2 - 1].1)));
                            }
                        }
                    },
                    Err(_) => {},
                }
            },
        }
    }
}

/// Determinism: two runs on the same residual, pegs, start peg, thread count
/// and weight give the same threads, or both fail at the same peg.
pub proof fn law_deterministic(
    r1: Result<Vec<Segment>, StringArtError>,
    r2: Result<Vec<Segment>, StringArtError>,
    cells: Seq<u8>,
    w: nat,
    pegs: Seq<(i32, i32)>,
    start: int,
    n: nat,
    weight: u8,
)
    requires
        walk_outcome(r1, cells, w, pegs, start, n, weight),
        walk_outcome(r2, cells, w, pegs, start, n, weight),
    ensures
        match r1 {
            Ok(a) => match r2 {
                Ok(b) => a@ == b@,
                Err(_) => false,
            },
            Err(StringArtError::ExhaustedPeg(p)) => match r2 {
                Err(StringArtError::ExhaustedPeg(q)) => p == q,
                _ => false,
            },
            Err(_) => false,
        },
{
}

/// Edge uniqueness: the walk of a successful run takes no undirected peg pair
/// twice, and never joins a peg to itself.
pub proof fn law_edges_unique(
    cells: Seq<u8>,
    w: nat,
    pegs: Seq<(i32, i32)>,
    start: int,
    n: nat,
    weight: u8,
)
    ensures
        match walk(cells, w, pegs, Set::empty(), start, n, weight) {
            Ok(steps) => {
                &&& forall|k: int| 0 <= k < steps.len() ==> (#[trigger] steps[k]).0 != steps[k].1
                &&& forall|k1: int, k2: int|
                    0 <= k1 < k2 < steps.len() ==> edge((#[trigger] steps[k1]).0, steps[k1].1) != edge(
                        (#[trigger] steps[k2]).0,
                        steps[k2].1,
                    )
            },
            Err(_) => true,
        },
{
    lemma_walk_edges(cells, w, pegs, Set::empty(), start, n, weight);
}

/// Walk continuity: a successful run gives `n` threads; the first starts at
/// the start peg, and each thread starts where the one before it ended.
pub proof fn law_continuity(
    r: Result<Vec<Segment>, StringArtError>,
    cells: Seq<u8>,
    w: nat,
    pegs: Seq<(i32, i32)>,
    start: int,
    n: nat,
    weight: u8,
)
    requires
        walk_outcome(r, cells, w, pegs, start, n, weight),
    ensures
        match r {
            Ok(segs) => {
                &&& segs@.len() == n
                &&& segs@.len() > 0 ==> segs@[0].0 == pegs[start]
                &&& forall|k: int| 0 <= k < segs@.len() - 1 ==> (#[trigger] segs@[k]).1 == segs@[k + 1].0
            },
            Err(_) => true,
        },
{
    lemma_walk_chain(cells, w, pegs, Set::empty(), start, n, weight);
    match r {
        Ok(segs) => {
            let steps = walk(cells, w, pegs, Set::empty(), start, n, weight)->Ok_0;
            assert forall|k: int| 0 <= k < segs@.len() - 1 implies (#[trigger] segs@[k]).1
                == segs@[k + 1].0 by {
                assert(steps[k].1 == steps[k + 1].0);
            }
        },
        Err(_) => {},
    }
}

} // verus!
