use vstd::prelude::*;

use crate::geometry::PixelCoord;

verus! {

/// One of the four cardinal directions.
#[derive(Clone, Copy, Debug, PartialEq, Eq, Structural)]
pub enum Direction {
    West,
    East,
    North,
    South,
}

/// One representative pixel of a cluster for each cardinal direction.
#[derive(Clone, Copy, Debug, PartialEq, Eq, Structural)]
pub struct ExtremalSet {
    pub west: PixelCoord,
    pub east: PixelCoord,
    pub north: PixelCoord,
    pub south: PixelCoord,
}

/// How far `p` lies in direction `d`: larger is further.
pub open spec fn reach(p: PixelCoord, d: Direction) -> int {
    match d {
        Direction::West => -(p.x as int),
        Direction::East => p.x as int,
        Direction::North => -(p.y as int),
        Direction::South => p.y as int,
    }
}

/// The greatest reach in direction `d` over a non-empty `s`.
pub open spec fn best_reach(s: Seq<PixelCoord>, d: Direction) -> int
    decreases s.len(),
{
    if s.len() <= 1 {
        reach(s[0], d)
    } else {
        let a = best_reach(s.drop_last(), d);
        let b = reach(s.last(), d);
        if a >= b {
            a
        } else {
            b
        }
    }
}

/// The members of `s` whose reach in direction `d` is `v`, in their order in `s`.
pub open spec fn ties(s: Seq<PixelCoord>, d: Direction, v: int) -> Seq<PixelCoord>
    decreases s.len(),
{
    if s.len() == 0 {
        Seq::empty()
    } else {
        let t = ties(s.drop_last(), d, v);
        if reach(s.last(), d) == v {
            t.push(s.last())
        } else {
            t
        }
    }
}

/// The middle entry (index `len / 2`) of the members of `s` that reach furthest in
/// direction `d`.
pub open spec fn extreme_of(s: Seq<PixelCoord>, d: Direction) -> PixelCoord {
    let t = ties(s, d, best_reach(s, d));
    t[(t.len() / 2) as int]
}

proof fn lemma_best_reach(s: Seq<PixelCoord>, d: Direction)
    requires
        s.len() > 0,
    ensures
        forall|i: int| 0 <= i < s.len() ==> reach(#[trigger] s[i], d) <= best_reach(s, d),
        exists|i: int| 0 <= i < s.len() && reach(#[trigger] s[i], d) == best_reach(s, d),
    decreases s.len(),
{
    if s.len() > 1 {
        let u = s.drop_last();
        lemma_best_reach(u, d);
        assert forall|i: int| 0 <= i < s.len() implies reach(#[trigger] s[i], d) <= best_reach(s, d) by {
            if i < u.len() {
                assert(s[i] == u[i]);
            }
        }
        if best_reach(u, d) >= reach(s.last(), d) {
            let i = choose|i: int| 0 <= i < u.len() && reach(#[trigger] u[i], d) == best_reach(u, d);
            assert(s[i] == u[i]);
        } else {
            assert(s[s.len() - 1] == s.last());
        }
    } else {
        assert(reach(s[0], d) == best_reach(s, d));
    }
}

proof fn lemma_ties_members(s: Seq<PixelCoord>, d: Direction, v: int)
    ensures
        ties(s, d, v).len() <= s.len(),
        forall|j: int|
            0 <= j < ties(s, d, v).len() ==> s.contains(#[trigger] ties(s, d, v)[j]) && reach(
                ties(s, d, v)[j],
                d,
            ) == v,
        (exists|i: int| 0 <= i < s.len() && reach(#[trigger] s[i], d) == v) ==> ties(s, d, v).len() > 0,
    decreases s.len(),
{
    if s.len() > 0 {
        let u = s.drop_last();
        lemma_ties_members(u, d, v);
        let t = ties(s, d, v);
        assert forall|j: int| 0 <= j < t.len() implies s.contains(#[trigger] t[j]) && reach(t[j], d) == v by {
            if j < ties(u, d, v).len() {
                assert(t[j] == ties(u, d, v)[j]);
                let k = choose|k: int| 0 <= k < u.len() && u[k] == t[j];
                assert(s[k] == u[k]);
            } else {
                assert(s[s.len() - 1] == s.last());
            }
        }
        if exists|i: int| 0 <= i < s.len() && reach(#[trigger] s[i], d) == v {
            let i = choose|i: int| 0 <= i < s.len() && reach(#[trigger] s[i], d) == v;
            if i < u.len() {
                assert(u[i] == s[i]);
            }
        }
    }
}

proof fn lemma_ties_none(s: Seq<PixelCoord>, d: Direction, v: int)
    requires
        forall|i: int| 0 <= i < s.len() ==> reach(#[trigger] s[i], d) < v,
    ensures
        ties(s, d, v) == Seq::<PixelCoord>::empty(),
    decreases s.len(),
{
    if s.len() > 0 {
        let u = s.drop_last();
        assert forall|i: int| 0 <= i < u.len() implies reach(#[trigger] u[i], d) < v by {
            assert(u[i] == s[i]);
        }
        lemma_ties_none(u, d, v);
        assert(reach(s[s.len() - 1], d) < v);
    }
}

/// The representative of `s` is one of its members.
pub proof fn lemma_extreme_of_member(s: Seq<PixelCoord>, d: Direction)
    requires
        s.len() > 0,
    ensures
        s.contains(extreme_of(s, d)),
{
    lemma_best_reach(s, d);
    lemma_ties_members(s, d, best_reach(s, d));
}

/// The coordinate that direction `d` compares.
fn coordinate(p: PixelCoord, d: Direction) -> (r: usize)
    ensures
        r as int == match d {
            Direction::West | Direction::East => p.x as int,
            Direction::North | Direction::South => p.y as int,
        },
{
    match d {
        Direction::West | Direction::East => p.x,
        Direction::North | Direction::South => p.y,
    }
}

/// Scans `cluster` once, keeping the pixels that reach furthest in direction `d` so
/// far in the order met, and returns the middle one of those left at the end.
pub fn extreme_point(cluster: &Vec<PixelCoord>, d: Direction) -> (r: PixelCoord)
    requires
        cluster@.len() > 0,
    ensures
        r == extreme_of(cluster@, d),
        cluster@.contains(r),
{
    let s = cluster;
    let smaller = d == Direction::West || d == Direction::North;
    let mut best: usize = coordinate(s[0], d);
    let mut cand: Vec<PixelCoord> = Vec::new();
    cand.push(s[0]);
    proof {
        let p1 = s@.take(1);
        assert(p1.drop_last() =~= Seq::<PixelCoord>::empty());
        assert(p1.last() == s@[0]);
        assert(best_reach(p1, d) == reach(s@[0], d));
        assert(ties(p1.drop_last(), d, reach(s@[0], d)) =~= Seq::<PixelCoord>::empty());
        assert(ties(p1, d, best_reach(p1, d)) =~= seq![s@[0]]);
    }
    let mut i: usize = 1;
    while i < s.len()
        invariant
            1 <= i <= s@.len(),
            smaller == (d == Direction::West || d == Direction::North),
            best_reach(s@.take(i as int), d) == if smaller {
                -(best as int)
            } else {
                best as int
            },
            cand@ == ties(s@.take(i as int), d, best_reach(s@.take(i as int), d)),
        decreases s@.len() - i,
    {
        let p = s[i];
        let c = coordinate(p, d);
        let ghost pre = s@.take(i as int);
        let ghost post = s@.take(i + 1);
        proof {
            assert(post.drop_last() =~= pre);
            assert(post.last() == p);
            lemma_best_reach(pre, d);
        }
        if (smaller && c < best) || (!smaller && c > best) {
            best = c;
            cand = Vec::new();
            cand.push(p);
            proof {
                lemma_ties_none(pre, d, reach(p, d));
                assert(ties(post, d, reach(p, d)) =~= seq![p]);
            }
        } else if c == best {
            cand.push(p);
        }
        i = i + 1;
    }
    proof {
        assert(s@.take(s@.len() as int) =~= s@);
        lemma_best_reach(s@, d);
        lemma_ties_members(s@, d, best_reach(s@, d));
        lemma_extreme_of_member(s@, d);
    }
    cand[cand.len() / 2]
}

/// The representative pixel of `cluster` in each of the four directions.
pub fn extremes(cluster: &Vec<PixelCoord>) -> (r: ExtremalSet)
    requires
        cluster@.len() > 0,
    ensures
        r.west == extreme_of(cluster@, Direction::West),
        r.east == extreme_of(cluster@, Direction::East),
        r.north == extreme_of(cluster@, Direction::North),
        r.south == extreme_of(cluster@, Direction::South),
        cluster@.contains(r.west),
        cluster@.contains(r.east),
        cluster@.contains(r.north),
        cluster@.contains(r.south),
{
    ExtremalSet {
        west: extreme_point(cluster, Direction::West),
        east: extreme_point(cluster, Direction::East),
        north: extreme_point(cluster, Direction::North),
        south: extreme_point(cluster, Direction::South),
    }
}

} // verus!
