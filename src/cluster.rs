use vstd::prelude::*;

use crate::geometry::{adjacent4, PixelCoord};
use crate::raster::{grid_shape, BoundaryMask};

verus! {

/// Why no principal cluster could be chosen.
#[derive(Clone, Copy, Debug, PartialEq, Eq, Structural)]
pub enum ClusterError {
    /// The mask has no pixel set.
    NoBoundaryFound,
}

/// Every member of `s` is set in `m`.
pub open spec fn all_on(m: BoundaryMask, s: Seq<PixelCoord>) -> bool {
    forall|i: int| 0 <= i < s.len() ==> m.is_on(#[trigger] s[i])
}

/// Every set 4-neighbour of a member is a member too.
pub open spec fn closed_in(m: BoundaryMask, s: Seq<PixelCoord>) -> bool {
    forall|i: int, q: PixelCoord|
        0 <= i < s.len() && #[trigger] adjacent4(s[i], q) && m.is_on(q) ==> s.contains(q)
}

/// Member `i` of `s` is 4-adjacent to an earlier member.
pub open spec fn has_earlier_neighbour(s: Seq<PixelCoord>, i: int) -> bool {
    exists|j: int| 0 <= j && j < i && #[trigger] adjacent4(s[i], s[j])
}

/// Each member after the first is 4-adjacent to an earlier member, so all members
/// are reachable from the first through 4-adjacent steps inside `s`.
pub open spec fn linked(s: Seq<PixelCoord>) -> bool {
    forall|i: int| 0 < i && i < s.len() ==> #[trigger] has_earlier_neighbour(s, i)
}

/// `s` lists, once each, the pixels of one 4-connected component of the set pixels of `m`.
pub open spec fn is_component(m: BoundaryMask, s: Seq<PixelCoord>) -> bool {
    &&& s.len() > 0
    &&& all_on(m, s)
    &&& s.no_duplicates()
    &&& closed_in(m, s)
    &&& linked(s)
}

/// `a` comes before `b` in a row-by-row scan.
pub open spec fn scan_before(a: PixelCoord, b: PixelCoord) -> bool {
    a.y < b.y || (a.y == b.y && a.x < b.x)
}

/// No member of `s` comes before its first member in a row-by-row scan.
pub open spec fn starts_first(s: Seq<PixelCoord>) -> bool {
    forall|i: int| 0 <= i < s.len() ==> !scan_before(#[trigger] s[i], s[0])
}

/// Every set pixel that comes before `b` in a scan has been placed.
spec fn placed_before(m: BoundaryMask, loc: Map<PixelCoord, (int, int)>, b: PixelCoord) -> bool {
    forall|p: PixelCoord| #[trigger] m.is_on(p) && scan_before(p, b) ==> loc.dom().contains(p)
}

/// The views of a list of pixel vectors.
pub open spec fn seqs_of(v: Seq<Vec<PixelCoord>>) -> Seq<Seq<PixelCoord>> {
    v.map_values(|c: Vec<PixelCoord>| c@)
}

/// `cs` lists every 4-connected component of the set pixels of `m`, each once.
pub open spec fn is_partition(m: BoundaryMask, cs: Seq<Seq<PixelCoord>>) -> bool {
    &&& forall|k: int| 0 <= k < cs.len() ==> is_component(m, #[trigger] cs[k])
    &&& forall|k1: int, k2: int, i1: int, i2: int|
        0 <= k1 < cs.len() && 0 <= k2 < cs.len() && 0 <= i1 < cs[k1].len() && 0 <= i2
            < cs[k2].len() && #[trigger] cs[k1][i1] == #[trigger] cs[k2][i2] ==> k1 == k2
    &&& forall|p: PixelCoord|
        #[trigger] m.is_on(p) ==> exists|k: int| 0 <= k < cs.len() && #[trigger] cs[k].contains(p)
}

/// Number of `true` entries in a row.
spec fn count_row(s: Seq<bool>) -> nat
    decreases s.len(),
{
    if s.len() == 0 {
        0
    } else {
        count_row(s.drop_last()) + if s.last() {
            1nat
        } else {
            0nat
        }
    }
}

/// Number of `true` entries in a grid.
spec fn count_grid(g: Seq<Vec<bool>>) -> nat
    decreases g.len(),
{
    if g.len() == 0 {
        0
    } else {
        count_grid(g.drop_last()) + count_row(g.last()@)
    }
}

proof fn lemma_count_row_update(s: Seq<bool>, i: int)
    requires
        0 <= i < s.len(),
        !s[i],
    ensures
        count_row(s.update(i, true)) == count_row(s) + 1,
    decreases s.len(),
{
    let t = s.update(i, true);
    if i < s.len() - 1 {
        assert(t.drop_last() =~= s.drop_last().update(i, true));
        lemma_count_row_update(s.drop_last(), i);
    } else {
        assert(t.drop_last() =~= s.drop_last());
    }
}

proof fn lemma_count_row_bound(s: Seq<bool>)
    ensures
        count_row(s) <= s.len(),
    decreases s.len(),
{
    if s.len() > 0 {
        lemma_count_row_bound(s.drop_last());
    }
}

proof fn lemma_count_grid_update(g: Seq<Vec<bool>>, y: int, r: Vec<bool>)
    requires
        0 <= y < g.len(),
    ensures
        count_grid(g.update(y, r)) + count_row(g[y]@) == count_grid(g) + count_row(r@),
    decreases g.len(),
{
    let h = g.update(y, r);
    if y < g.len() - 1 {
        assert(h.drop_last() =~= g.drop_last().update(y, r));
        lemma_count_grid_update(g.drop_last(), y, r);
    } else {
        assert(h.drop_last() =~= g.drop_last());
    }
}

proof fn lemma_count_grid_bound(g: Seq<Vec<bool>>, w: usize)
    requires
        forall|y: int| 0 <= y < g.len() ==> (#[trigger] g[y])@.len() == w,
    ensures
        count_grid(g) <= g.len() * w,
    decreases g.len(),
{
    if g.len() > 0 {
        lemma_count_grid_bound(g.drop_last(), w);
        lemma_count_row_bound(g.last()@);
        assert((g.len() - 1) * w + w == g.len() * w) by (nonlinear_arith);
    }
}

/// The bookkeeping of a component search: `vis` marks exactly the pixels that `loc`
/// places, and `loc` gives each placed pixel its component and position in `cs`.
spec fn labelled(
    m: BoundaryMask,
    vis: Seq<Vec<bool>>,
    cs: Seq<Seq<PixelCoord>>,
    loc: Map<PixelCoord, (int, int)>,
) -> bool {
    &&& grid_shape(vis, m.width, m.height)
    &&& forall|p: PixelCoord|
        #![trigger vis[p.y as int]@[p.x as int]]
        #![trigger loc.dom().contains(p)]
        m.in_bounds(p) ==> (vis[p.y as int]@[p.x as int] <==> loc.dom().contains(p))
    &&& forall|p: PixelCoord|
        #[trigger] loc.dom().contains(p) ==> {
            &&& 0 <= loc[p].0 < cs.len()
            &&& 0 <= loc[p].1 < cs[loc[p].0].len()
            &&& cs[loc[p].0][loc[p].1] == p
        }
    &&& forall|k: int, i: int|
        0 <= k < cs.len() && 0 <= i < cs[k].len() ==> {
            &&& loc.dom().contains(#[trigger] cs[k][i])
            &&& loc[cs[k][i]] == (k, i)
            &&& m.is_on(cs[k][i])
        }
}

/// Every set 4-neighbour of the first `n` members of component `k` is placed in `k`.
spec fn closed_upto(
    m: BoundaryMask,
    cs: Seq<Seq<PixelCoord>>,
    loc: Map<PixelCoord, (int, int)>,
    k: int,
    n: int,
) -> bool {
    forall|i: int, q: PixelCoord|
        0 <= i < n && #[trigger] adjacent4(cs[k][i], q) && m.is_on(q) ==> loc.dom().contains(q)
            && loc[q].0 == k
}

spec fn all_closed(m: BoundaryMask, cs: Seq<Seq<PixelCoord>>, loc: Map<PixelCoord, (int, int)>, n: int) -> bool {
    forall|k: int| 0 <= k < n ==> #[trigger] closed_upto(m, cs, loc, k, cs[k].len() as int)
}


proof fn lemma_linked_push(s: Seq<PixelCoord>, q: PixelCoord, h: int)
    requires
        linked(s),
        0 <= h < s.len(),
        adjacent4(s[h], q),
    ensures
        linked(s.push(q)),
{
    let t = s.push(q);
    assert forall|i: int| 0 < i && i < t.len() implies #[trigger] has_earlier_neighbour(t, i) by {
        if i < s.len() {
            assert(has_earlier_neighbour(s, i));
            let j = choose|j: int| 0 <= j && j < i && #[trigger] adjacent4(s[i], s[j]);
            assert(t[i] == s[i] && t[j] == s[j]);
            assert(adjacent4(t[i], t[j]));
        } else {
            assert(t[h] == s[h] && t[i] == q);
            assert(adjacent4(t[i], t[h]));
        }
    }
}

/// Marks `q` and appends it to the component being grown, when `q` is set and not yet
/// marked. `q` is a 4-neighbour of the member at position `h`.
fn try_visit(
    m: &BoundaryMask,
    visited: &mut Vec<Vec<bool>>,
    cur: &mut Vec<PixelCoord>,
    q: PixelCoord,
    h: usize,
    Ghost(cs): Ghost<Seq<Seq<PixelCoord>>>,
    Ghost(loc): Ghost<Map<PixelCoord, (int, int)>>,
) -> (r: Ghost<Map<PixelCoord, (int, int)>>)
    requires
        m.wf(),
        labelled(*m, old(visited)@, cs.push(old(cur)@), loc),
        all_closed(*m, cs.push(old(cur)@), loc, cs.len() as int),
        h < old(cur)@.len(),
        adjacent4(old(cur)@[h as int], q),
        placed_before(*m, loc, old(cur)@[0]),
        starts_first(old(cur)@),
    ensures
        labelled(*m, final(visited)@, cs.push(final(cur)@), r@),
        starts_first(final(cur)@),
        all_closed(*m, cs.push(final(cur)@), r@, cs.len() as int),
        forall|p: PixelCoord| #[trigger]
            loc.dom().contains(p) ==> r@.dom().contains(p) && r@[p] == loc[p],
        m.is_on(q) ==> r@.dom().contains(q) && r@[q].0 == cs.len(),
        final(cur)@ == old(cur)@ || final(cur)@ == old(cur)@.push(q),
        linked(old(cur)@) ==> linked(final(cur)@),
        count_grid(final(visited)@) + old(cur)@.len() == count_grid(old(visited)@) + final(cur)@.len(),
{
    let ghost cs1 = cs.push(cur@);
    if m.get(q) {
        if visited[q.y][q.x] {
            proof {
                let (k, i) = loc[q];
                if k < cs.len() {
                    assert(cs1[k][i] == q);
                    assert(closed_upto(*m, cs1, loc, k, cs1[k].len() as int));
                    assert(adjacent4(cs1[k][i], cur@[h as int]));
                    assert(cs1[cs.len() as int][h as int] == cur@[h as int]);
                }
            }
            return Ghost(loc);
        }
        let ghost old_vis = visited@;
        proof {
            lemma_count_row_update(visited@[q.y as int]@, q.x as int);
        }
        visited[q.y][q.x] = true;
        proof {
            assert(visited@[q.y as int]@ =~= old_vis[q.y as int]@.update(q.x as int, true));
            assert(visited@ =~= old_vis.update(q.y as int, visited@[q.y as int]));
            lemma_count_grid_update(old_vis, q.y as int, visited@[q.y as int]);
        }
        let ghost old_cur = cur@;
        cur.push(q);
        let ghost l = loc.insert(q, (cs.len() as int, old_cur.len() as int));
        proof {
            let cs2 = cs.push(cur@);
            assert forall|k: int, i: int| 0 <= k < cs2.len() && 0 <= i < cs2[k].len()
                implies l.dom().contains(#[trigger] cs2[k][i]) && l[cs2[k][i]] == (k, i)
                && m.is_on(cs2[k][i]) by {
                if k < cs.len() {
                    assert(cs2[k] == cs1[k]);
                } else if i < old_cur.len() {
                    assert(cs2[k][i] == cs1[k][i]);
                }
            }
            assert forall|k: int| 0 <= k < cs.len() implies #[trigger] closed_upto(
                *m,
                cs2,
                l,
                k,
                cs2[k].len() as int,
            ) by {
                assert(cs2[k] == cs1[k]);
                assert(closed_upto(*m, cs1, loc, k, cs1[k].len() as int));
            }
            assert(labelled(*m, visited@, cs2, l));
            assert(!scan_before(q, old_cur[0]));
            assert forall|i: int| 0 <= i < cur@.len() implies !scan_before(#[trigger] cur@[i], cur@[0]) by {
                if i < old_cur.len() {
                    assert(cur@[i] == old_cur[i]);
                }
            }
            if linked(old_cur) {
                lemma_linked_push(old_cur, q, h as int);
                assert(cur@ =~= old_cur.push(q));
            }
        }
        Ghost(l)
    } else {
        Ghost(loc)
    }
}


/// Takes in the unmarked set 4-neighbours of the member at position `head`.
fn visit_neighbours(
    m: &BoundaryMask,
    visited: &mut Vec<Vec<bool>>,
    cur: &mut Vec<PixelCoord>,
    head: usize,
    Ghost(cs): Ghost<Seq<Seq<PixelCoord>>>,
    Ghost(loc0): Ghost<Map<PixelCoord, (int, int)>>,
) -> (r: Ghost<Map<PixelCoord, (int, int)>>)
    requires
        m.wf(),
        labelled(*m, old(visited)@, cs.push(old(cur)@), loc0),
        all_closed(*m, cs.push(old(cur)@), loc0, cs.len() as int),
        closed_upto(*m, cs.push(old(cur)@), loc0, cs.len() as int, head as int),
        head < old(cur)@.len(),
        linked(old(cur)@),
        placed_before(*m, loc0, old(cur)@[0]),
        starts_first(old(cur)@),
    ensures
        starts_first(final(cur)@),
        labelled(*m, final(visited)@, cs.push(final(cur)@), r@),
        all_closed(*m, cs.push(final(cur)@), r@, cs.len() as int),
        closed_upto(*m, cs.push(final(cur)@), r@, cs.len() as int, head + 1),
        linked(final(cur)@),
        final(cur)@.len() >= old(cur)@.len(),
        final(cur)@.subrange(0, old(cur)@.len() as int) == old(cur)@,
        forall|p: PixelCoord| #[trigger]
            loc0.dom().contains(p) ==> r@.dom().contains(p) && r@[p] == loc0[p],
        count_grid(final(visited)@) + old(cur)@.len() == count_grid(old(visited)@) + final(cur)@.len(),
{
    let ghost cur_a = cur@;
    let ghost mut loc = loc0;
    let p = cur[head];
    proof {
        assert(cs.push(cur@)[cs.len() as int][head as int] == p);
        assert(m.is_on(p));
    }
    if p.x > 0 {
        let Ghost(l) = try_visit(m, visited, cur, PixelCoord { x: p.x - 1, y: p.y }, head, Ghost(cs), Ghost(loc));
        proof { loc = l; }
    }
    let Ghost(l) = try_visit(m, visited, cur, PixelCoord { x: p.x + 1, y: p.y }, head, Ghost(cs), Ghost(loc));
    proof { loc = l; }
    if p.y > 0 {
        let Ghost(l) = try_visit(m, visited, cur, PixelCoord { x: p.x, y: p.y - 1 }, head, Ghost(cs), Ghost(loc));
        proof { loc = l; }
    }
    let Ghost(l) = try_visit(m, visited, cur, PixelCoord { x: p.x, y: p.y + 1 }, head, Ghost(cs), Ghost(loc));
    proof {
        loc = l;
        let k = cs.len() as int;
        let csa = cs.push(cur_a);
        let csb = cs.push(cur@);
        assert(cur_a =~= cur@.subrange(0, cur_a.len() as int));
        assert forall|i: int, q: PixelCoord|
            0 <= i < head + 1 && #[trigger] adjacent4(csb[k][i], q) && m.is_on(q)
            implies loc.dom().contains(q) && loc[q].0 == k by {
            assert(csb[k][i] == csa[k][i]);
            if i < head {
                assert(closed_upto(*m, csa, loc0, k, head as int));
            } else {
                assert(csb[k][i] == p);
            }
        }
    }
    Ghost(loc)
}

/// Grows the component of `seed` by a breadth-first search over set 4-neighbours,
/// marking each pixel as it is taken in.
fn grow(
    m: &BoundaryMask,
    visited: &mut Vec<Vec<bool>>,
    seed: PixelCoord,
    Ghost(cs): Ghost<Seq<Seq<PixelCoord>>>,
    Ghost(loc0): Ghost<Map<PixelCoord, (int, int)>>,
) -> (r: (Vec<PixelCoord>, Ghost<Map<PixelCoord, (int, int)>>))
    requires
        m.wf(),
        labelled(*m, old(visited)@, cs, loc0),
        all_closed(*m, cs, loc0, cs.len() as int),
        m.is_on(seed),
        !loc0.dom().contains(seed),
        placed_before(*m, loc0, seed),
    ensures
        starts_first(r.0@),
        labelled(*m, final(visited)@, cs.push(r.0@), r.1@),
        all_closed(*m, cs.push(r.0@), r.1@, cs.len() + 1int),
        r.0@.len() > 0,
        r.0@[0] == seed,
        linked(r.0@),
        forall|p: PixelCoord| #[trigger]
            loc0.dom().contains(p) ==> r.1@.dom().contains(p) && r.1@[p] == loc0[p],
{
    let mut cur: Vec<PixelCoord> = Vec::new();
    let ghost old_vis = visited@;
    proof {
        lemma_count_row_update(visited@[seed.y as int]@, seed.x as int);
    }
    visited[seed.y][seed.x] = true;
    proof {
        assert(visited@[seed.y as int]@ =~= old_vis[seed.y as int]@.update(seed.x as int, true));
        assert(visited@ =~= old_vis.update(seed.y as int, visited@[seed.y as int]));
        lemma_count_grid_update(old_vis, seed.y as int, visited@[seed.y as int]);
    }
    cur.push(seed);
    let ghost mut loc = loc0.insert(seed, (cs.len() as int, 0int));
    proof {
        let cs2 = cs.push(cur@);
        assert forall|k: int, i: int| 0 <= k < cs2.len() && 0 <= i < cs2[k].len()
            implies loc.dom().contains(#[trigger] cs2[k][i]) && loc[cs2[k][i]] == (k, i)
            && m.is_on(cs2[k][i]) by {
            if k < cs.len() {
                assert(cs2[k] == cs[k]);
            }
        }
        assert forall|k: int| 0 <= k < cs.len() implies #[trigger] closed_upto(
            *m,
            cs2,
            loc,
            k,
            cs2[k].len() as int,
        ) by {
            assert(cs2[k] == cs[k]);
            assert(closed_upto(*m, cs, loc0, k, cs[k].len() as int));
        }
        assert(labelled(*m, visited@, cs2, loc));
    }
    let mut head: usize = 0;
    while head < cur.len()
        invariant
            m.wf(),
            labelled(*m, visited@, cs.push(cur@), loc),
            all_closed(*m, cs.push(cur@), loc, cs.len() as int),
            closed_upto(*m, cs.push(cur@), loc, cs.len() as int, head as int),
            head <= cur@.len(),
            cur@.len() > 0,
            cur@[0] == seed,
            linked(cur@),
            placed_before(*m, loc, seed),
            starts_first(cur@),
            forall|p: PixelCoord| #[trigger]
                loc0.dom().contains(p) ==> loc.dom().contains(p) && loc[p] == loc0[p],
        decreases 2 * (m.height * m.width - count_grid(visited@)) + cur@.len() - head,
    {
        proof {
            lemma_count_grid_bound(visited@, m.width);
        }
        let Ghost(l) = visit_neighbours(m, visited, &mut cur, head, Ghost(cs), Ghost(loc));
        proof {
            loc = l;
            lemma_count_grid_bound(visited@, m.width);
        }
        head = head + 1;
    }
    (cur, Ghost(loc))
}

/// What the scan in `components` has built, read as the list of components.
proof fn lemma_partition(
    m: BoundaryMask,
    vis: Seq<Vec<bool>>,
    cs: Seq<Seq<PixelCoord>>,
    loc: Map<PixelCoord, (int, int)>,
)
    requires
        labelled(m, vis, cs, loc),
        all_closed(m, cs, loc, cs.len() as int),
        forall|k: int| 0 <= k < cs.len() ==> (#[trigger] cs[k]).len() > 0 && linked(cs[k]),
        forall|p: PixelCoord| #[trigger] m.is_on(p) ==> loc.dom().contains(p),
    ensures
        is_partition(m, cs),
{
    assert forall|k: int| 0 <= k < cs.len() implies is_component(m, #[trigger] cs[k]) by {
        let s = cs[k];
        assert forall|i: int| 0 <= i < s.len() implies m.is_on(#[trigger] s[i]) by {
            assert(s[i] == cs[k][i]);
        }
        assert forall|i: int, j: int| 0 <= i < s.len() && 0 <= j < s.len() && i != j
            implies s[i] != s[j] by {
            assert(loc[cs[k][i]] == (k, i));
            assert(loc[cs[k][j]] == (k, j));
        }
        assert forall|i: int, q: PixelCoord|
            0 <= i < s.len() && #[trigger] adjacent4(s[i], q) && m.is_on(q) implies s.contains(q) by {
            assert(closed_upto(m, cs, loc, k, cs[k].len() as int));
            assert(adjacent4(cs[k][i], q));
            assert(s[loc[q].1] == q);
        }
    }
    assert forall|k1: int, k2: int, i1: int, i2: int|
        0 <= k1 < cs.len() && 0 <= k2 < cs.len() && 0 <= i1 < cs[k1].len() && 0 <= i2
            < cs[k2].len() && #[trigger] cs[k1][i1] == #[trigger] cs[k2][i2] implies k1 == k2 by {
        assert(loc[cs[k1][i1]] == (k1, i1));
        assert(loc[cs[k2][i2]] == (k2, i2));
    }
    assert forall|p: PixelCoord| #[trigger] m.is_on(p) implies exists|k: int|
        0 <= k < cs.len() && #[trigger] cs[k].contains(p) by {
        let k = loc[p].0;
        assert(cs[k][loc[p].1] == p);
        assert(cs[k].contains(p));
    }
}

/// Splits the set pixels of `m` into their 4-connected components, in the order in
/// which a row-by-row scan first meets them.
pub fn components(m: &BoundaryMask) -> (r: Vec<Vec<PixelCoord>>)
    requires
        m.wf(),
    ensures
        is_partition(*m, seqs_of(r@)),
        forall|k: int| 0 <= k < r@.len() ==> starts_first(#[trigger] r@[k]@),
        forall|k1: int, k2: int|
            0 <= k1 < k2 < r@.len() ==> scan_before(#[trigger] r@[k1]@[0], #[trigger] r@[k2]@[0]),
{
    let mut visited: Vec<Vec<bool>> = Vec::new();
    let mut y: usize = 0;
    while y < m.height
        invariant
            m.wf(),
            y <= m.height,
            grid_shape(visited@, m.width, y),
            forall|j: int, i: int| 0 <= j < y && 0 <= i < m.width ==> !#[trigger] visited@[j]@[i],
        decreases m.height - y,
    {
        let mut row: Vec<bool> = Vec::new();
        let mut x: usize = 0;
        while x < m.width
            invariant
                x <= m.width,
                row@.len() == x,
                forall|i: int| 0 <= i < x ==> !#[trigger] row@[i],
            decreases m.width - x,
        {
            row.push(false);
            x = x + 1;
        }
        visited.push(row);
        y = y + 1;
    }
    let mut comps: Vec<Vec<PixelCoord>> = Vec::new();
    let ghost mut loc: Map<PixelCoord, (int, int)> = Map::empty();
    proof {
        assert(seqs_of(comps@) =~= Seq::<Seq<PixelCoord>>::empty());
    }
    y = 0;
    while y < m.height
        invariant
            m.wf(),
            y <= m.height,
            labelled(*m, visited@, seqs_of(comps@), loc),
            all_closed(*m, seqs_of(comps@), loc, comps@.len() as int),
            forall|k: int| 0 <= k < comps@.len() ==> (#[trigger] comps@[k])@.len() > 0 && linked(comps@[k]@),
            forall|p: PixelCoord| #[trigger] m.is_on(p) && p.y < y ==> loc.dom().contains(p),
            forall|k: int| 0 <= k < comps@.len() ==> starts_first(#[trigger] comps@[k]@),
            forall|k: int| 0 <= k < comps@.len() ==> (#[trigger] comps@[k])@[0].y < y,
            forall|k1: int, k2: int|
                0 <= k1 < k2 < comps@.len() ==> scan_before(#[trigger] comps@[k1]@[0], #[trigger] comps@[k2]@[0]),
        decreases m.height - y,
    {
        let mut x: usize = 0;
        while x < m.width
            invariant
                m.wf(),
                y < m.height,
                x <= m.width,
                labelled(*m, visited@, seqs_of(comps@), loc),
                all_closed(*m, seqs_of(comps@), loc, comps@.len() as int),
                forall|k: int| 0 <= k < comps@.len() ==> (#[trigger] comps@[k])@.len() > 0 && linked(comps@[k]@),
                forall|p: PixelCoord| #[trigger] m.is_on(p) && (p.y < y || (p.y == y && p.x < x)) ==> loc.dom().contains(p),
                forall|k: int| 0 <= k < comps@.len() ==> starts_first(#[trigger] comps@[k]@),
                forall|k: int| 0 <= k < comps@.len() ==> scan_before(#[trigger] comps@[k]@[0], PixelCoord { x, y }),
                forall|k1: int, k2: int|
                    0 <= k1 < k2 < comps@.len() ==> scan_before(#[trigger] comps@[k1]@[0], #[trigger] comps@[k2]@[0]),
            decreases m.width - x,
        {
            let p = PixelCoord { x, y };
            if m.rows[y][x] && !visited[y][x] {
                let ghost cs = seqs_of(comps@);
                let (c, Ghost(l)) = grow(m, &mut visited, p, Ghost(cs), Ghost(loc));
                let ghost old_comps = comps@;
                comps.push(c);
                proof {
                    assert(seqs_of(comps@) =~= cs.push(c@));
                    loc = l;
                    assert(cs.push(c@)[cs.len() as int][0] == p);
                    assert(loc.dom().contains(p));
                    assert forall|k: int| 0 <= k < comps@.len() implies (#[trigger] comps@[k])@.len() > 0 && linked(comps@[k]@)
                        && starts_first(comps@[k]@) && scan_before(comps@[k]@[0], PixelCoord { x: (x + 1) as usize, y }) by {
                        if k < old_comps.len() {
                            assert(comps@[k] == old_comps[k]);
                        }
                    }
                    assert forall|k1: int, k2: int|
                        0 <= k1 < k2 < comps@.len() implies scan_before(#[trigger] comps@[k1]@[0], #[trigger] comps@[k2]@[0]) by {
                        assert(comps@[k1] == old_comps[k1]);
                        if k2 < old_comps.len() {
                            assert(comps@[k2] == old_comps[k2]);
                        }
                    }
                }
            }
            proof {
                if m.is_on(p) {
                    assert(visited@[p.y as int]@[p.x as int]);
                    assert(loc.dom().contains(p));
                }
            }
            x = x + 1;
        }
        y = y + 1;
    }
    proof {
        let cs = seqs_of(comps@);
        assert forall|k: int| 0 <= k < cs.len() implies (#[trigger] cs[k]).len() > 0 && linked(cs[k]) by {
            assert(cs[k] == comps@[k]@);
        }
        lemma_partition(*m, visited@, cs, loc);
    }
    comps
}


proof fn lemma_members_within(m: BoundaryMask, s: Seq<PixelCoord>, t: Seq<PixelCoord>, n: int)
    requires
        is_component(m, s),
        closed_in(m, t),
        t.contains(s[0]),
        0 < n <= s.len(),
    ensures
        forall|i: int| 0 <= i < n ==> t.contains(#[trigger] s[i]),
    decreases n,
{
    if n > 1 {
        lemma_members_within(m, s, t, n - 1);
        let i = n - 1;
        assert(has_earlier_neighbour(s, i));
        let j = choose|j: int| 0 <= j && j < i && #[trigger] adjacent4(s[i], s[j]);
        assert(t.contains(s[j]));
        let jt = choose|jt: int| 0 <= jt < t.len() && t[jt] == s[j];
        assert(adjacent4(t[jt], s[i]));
        assert(m.is_on(s[i]));
    }
}

/// Every component of `m` fits inside one entry of a full list of its components.
proof fn lemma_component_within(m: BoundaryMask, cs: Seq<Seq<PixelCoord>>, s: Seq<PixelCoord>) -> (k: int)
    requires
        is_partition(m, cs),
        is_component(m, s),
    ensures
        0 <= k < cs.len(),
        s.len() <= cs[k].len(),
        forall|i: int| 0 <= i < s.len() ==> cs[k].contains(#[trigger] s[i]),
{
    broadcast use vstd::seq_lib::seq_to_set_is_finite;

    assert(m.is_on(s[0]));
    let k = choose|k: int| 0 <= k < cs.len() && #[trigger] cs[k].contains(s[0]);
    let t = cs[k];
    assert(is_component(m, t));
    lemma_members_within(m, s, t, s.len() as int);
    assert(s.to_set().subset_of(t.to_set()));
    s.unique_seq_to_set();
    t.unique_seq_to_set();
    vstd::set_lib::lemma_len_subset(s.to_set(), t.to_set());
    k
}

/// Position of the longest entry of `comps`; on a tie, the earliest of the longest.
/// `None` when `comps` is empty.
pub fn principal_index(comps: &Vec<Vec<PixelCoord>>) -> (r: Option<usize>)
    ensures
        r is None <==> comps@.len() == 0,
        r matches Some(b) ==> {
            &&& b < comps@.len()
            &&& forall|k: int| 0 <= k < comps@.len() ==> (#[trigger] comps@[k])@.len() <= comps@[b as int]@.len()
            &&& forall|k: int| 0 <= k < b ==> (#[trigger] comps@[k])@.len() < comps@[b as int]@.len()
        },
{
    if comps.len() == 0 {
        return None;
    }
    let mut best: usize = 0;
    let mut i: usize = 1;
    while i < comps.len()
        invariant
            comps@.len() > 0,
            best < i <= comps@.len(),
            forall|k: int| 0 <= k < i ==> (#[trigger] comps@[k])@.len() <= comps@[best as int]@.len(),
            forall|k: int| 0 <= k < best ==> (#[trigger] comps@[k])@.len() < comps@[best as int]@.len(),
        decreases comps@.len() - i,
    {
        if comps[i].len() > comps[best].len() {
            best = i;
        }
        i = i + 1;
    }
    Some(best)
}

/// The 4-connected component of the set pixels of `m` with the most pixels; among
/// components of equal size, the one that a row-by-row scan meets first.
pub fn find_principal_cluster(m: &BoundaryMask) -> (r: Result<Vec<PixelCoord>, ClusterError>)
    requires
        m.wf(),
    ensures
        r is Err <==> forall|p: PixelCoord| !#[trigger] m.is_on(p),
        r matches Err(e) ==> e == ClusterError::NoBoundaryFound,
        r matches Ok(c) ==> {
            &&& is_component(*m, c@)
            &&& forall|s: Seq<PixelCoord>| #[trigger] is_component(*m, s) ==> s.len() <= c@.len()
            &&& forall|s: Seq<PixelCoord>, i: int|
                #[trigger] is_component(*m, s) && s.len() == c@.len() && 0 <= i < s.len()
                    ==> !scan_before(#[trigger] s[i], c@[0])
        },
{
    let mut comps = components(m);
    let ghost cs = seqs_of(comps@);
    match principal_index(&comps) {
        None => {
            proof {
                assert forall|p: PixelCoord| !#[trigger] m.is_on(p) by {
                    if m.is_on(p) {
                        let k = choose|k: int| 0 <= k < cs.len() && #[trigger] cs[k].contains(p);
                    }
                }
            }
            Err(ClusterError::NoBoundaryFound)
        },
        Some(best) => {
            let ghost before = comps@;
            let c = comps.remove(best);
            proof {
                assert(cs[best as int] == c@);
                assert(is_component(*m, cs[best as int]));
                assert(m.is_on(c@[0]));
                assert forall|s: Seq<PixelCoord>| #[trigger] is_component(*m, s) implies s.len() <= c@.len() by {
                    let k = lemma_component_within(*m, cs, s);
                    assert(cs[k] == before[k]@);
                }
                assert forall|s: Seq<PixelCoord>, i: int|
                    #[trigger] is_component(*m, s) && s.len() == c@.len() && 0 <= i < s.len()
                    implies !scan_before(#[trigger] s[i], c@[0]) by {
                    let k = lemma_component_within(*m, cs, s);
                    assert(cs[k] == before[k]@);
                    assert(cs[k].contains(s[i]));
                    let j = choose|j: int| 0 <= j < cs[k].len() && cs[k][j] == s[i];
                    assert(starts_first(before[k]@));
                    assert(!scan_before(before[k]@[j], before[k]@[0]));
                    if k != best {
                        assert(!(k < best));
                        assert(scan_before(before[best as int]@[0], before[k]@[0]));
                    }
                }
            }
            Ok(c)
        },
    }
}

} // verus!
