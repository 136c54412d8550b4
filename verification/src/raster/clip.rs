//! Clipping a triangle to the frustum, plane by plane.
//!
//! Which side of a plane a vertex lies on, and where an edge crosses it, is
//! arithmetic in clip space. Which vertices the clipped polygon then has, and how
//! it falls into triangles, is decided here.
use vstd::prelude::*;

verus! {

/// A triangle clipped against six planes has at most 9 vertices; 12 is slack.
pub const MAX_POLY: usize = 12;

/// 9 vertices fan out into 7 triangles; 8 is slack.
pub const MAX_OUTPUT_TRIANGLES: usize = 8;

/// One vertex of a clipped polygon.
#[derive(Clone, Copy, Debug, PartialEq, Eq, Structural)]
pub enum Cut {
    /// A vertex of the polygon before.
    Keep(usize),
    /// The point where the edge between two of its vertices crosses the plane.
    Cross { from: usize, to: usize },
}

/// The vertex before another, around the polygon.
pub open spec fn before(i: int, len: int) -> int {
    if i == 0 {
        len - 1
    } else {
        i - 1
    }
}

/// What a vertex contributes: the crossing of the edge that leads to it, and
/// itself.
pub open spec fn cuts_at(inside: Seq<bool>, i: int) -> Seq<Cut> {
    let prev = before(i, inside.len() as int);
    (if inside[prev] != inside[i] {
        seq![Cut::Cross { from: prev as usize, to: i as usize }]
    } else {
        seq![]
    }) + (if inside[i] {
        seq![Cut::Keep(i as usize)]
    } else {
        seq![]
    })
}

/// What the first `n` vertices contribute.
pub open spec fn cuts_through(inside: Seq<bool>, n: int) -> Seq<Cut>
    decreases n,
{
    if n <= 0 {
        seq![]
    } else {
        cuts_through(inside, n - 1) + cuts_at(inside, n - 1)
    }
}

/// The polygon that is left of another: no more vertices than it has room for.
pub open spec fn clipped(inside: Seq<bool>) -> Seq<Cut> {
    let all = cuts_through(inside, inside.len() as int);
    if inside.len() < 3 {
        seq![]
    } else if all.len() <= MAX_POLY {
        all
    } else {
        all.take(MAX_POLY as int)
    }
}

/// Clips a polygon against one plane: `inside` says of each vertex whether it lies
/// on the inner side. A polygon of fewer than three vertices is none.
pub fn clip_polygon(inside: &[bool]) -> (r: Vec<Cut>)
    ensures
        r@ == clipped(inside@),
        r@.len() <= MAX_POLY,
{
    let mut r: Vec<Cut> = Vec::new();
    if inside.len() < 3 {
        assert(r@ =~= clipped(inside@));
        return r;
    }
    let ghost all = inside@;
    let mut i: usize = 0;
    let ghost mut full = Seq::<Cut>::empty();
    while i < inside.len()
        invariant
            all == inside@,
            all.len() >= 3,
            i <= inside@.len(),
            full == cuts_through(all, i as int),
            r@.len() <= MAX_POLY,
            r@ == if full.len() <= MAX_POLY {
                full
            } else {
                full.take(MAX_POLY as int)
            },
        decreases inside@.len() - i,
    {
        let prev: usize = if i == 0 {
            inside.len() - 1
        } else {
            i - 1
        };
        let ghost held = full;
        let (was, is) = (inside[prev], inside[i]);
        if was != is {
            if r.len() < MAX_POLY {
                r.push(Cut::Cross { from: prev, to: i });
            }
            proof {
                full = full.push(Cut::Cross { from: prev, to: i });
                assert(r@ =~= if full.len() <= MAX_POLY {
                    full
                } else {
                    full.take(MAX_POLY as int)
                });
            }
        }
        if is {
            if r.len() < MAX_POLY {
                r.push(Cut::Keep(i));
            }
            proof {
                full = full.push(Cut::Keep(i));
                assert(r@ =~= if full.len() <= MAX_POLY {
                    full
                } else {
                    full.take(MAX_POLY as int)
                });
            }
        }
        assert(full =~= held + cuts_at(all, i as int));
        i += 1;
    }
    r
}

/// How many vertices of the first `n` lie inside.
pub open spec fn kept(inside: Seq<bool>, n: int) -> int
    decreases n,
{
    if n <= 0 {
        0
    } else {
        kept(inside, n - 1) + if inside[n - 1] {
            1int
        } else {
            0
        }
    }
}

/// How many edges to the first `n` vertices cross the plane.
pub open spec fn crossings(inside: Seq<bool>, n: int) -> int
    decreases n,
{
    if n <= 0 {
        0
    } else {
        crossings(inside, n - 1) + if inside[before(n - 1, inside.len() as int)] != inside[n - 1] {
            1int
        } else {
            0
        }
    }
}

proof fn lemma_cut_count(inside: Seq<bool>, n: int)
    requires
        0 <= n <= inside.len(),
    ensures
        cuts_through(inside, n).len() == kept(inside, n) + crossings(inside, n),
        0 <= kept(inside, n) <= n,
        0 <= crossings(inside, n) <= n,
    decreases n,
{
    if n > 0 {
        lemma_cut_count(inside, n - 1);
    }
}

proof fn lemma_some_outside(inside: Seq<bool>, n: int)
    requires
        0 <= n <= inside.len(),
        kept(inside, n) == n,
    ensures
        forall|i: int| 0 <= i < n ==> inside[i],
    decreases n,
{
    if n > 0 {
        lemma_cut_count(inside, n - 1);
        lemma_some_outside(inside, n - 1);
    }
}

proof fn lemma_no_crossing(inside: Seq<bool>, n: int)
    requires
        0 <= n <= inside.len(),
        forall|i: int| 0 <= i < inside.len() ==> inside[i],
    ensures
        crossings(inside, n) == 0,
    decreases n,
{
    if n > 0 {
        lemma_no_crossing(inside, n - 1);
    }
}

/// A plane crosses the outline of a convex polygon at most twice, and then it
/// adds at most one vertex.
pub proof fn law_a_plane_adds_at_most_one_vertex(inside: Seq<bool>)
    requires
        3 <= inside.len() < MAX_POLY,
        crossings(inside, inside.len() as int) <= 2,
    ensures
        clipped(inside).len() <= inside.len() + 1,
        clipped(inside) == cuts_through(inside, inside.len() as int),
{
    let n = inside.len() as int;
    lemma_cut_count(inside, n);
    if kept(inside, n) == n {
        lemma_some_outside(inside, n);
        lemma_no_crossing(inside, n);
    }
}

/// A polygon on the inner side of a plane is left as it is, and one on the outer
/// side is gone.
pub proof fn law_a_plane_keeps_what_is_inside(inside: Seq<bool>)
    requires
        3 <= inside.len() <= MAX_POLY,
    ensures
        (forall|i: int| 0 <= i < inside.len() ==> inside[i]) ==> clipped(inside) == Seq::new(
            inside.len(),
            |i: int| Cut::Keep(i as usize),
        ),
        (forall|i: int| 0 <= i < inside.len() ==> !inside[i]) ==> clipped(inside).len() == 0,
{
    let n = inside.len() as int;
    if forall|i: int| 0 <= i < inside.len() ==> inside[i] {
        lemma_all_kept(inside, n);
    }
    if forall|i: int| 0 <= i < inside.len() ==> !inside[i] {
        lemma_none_kept(inside, n);
    }
}

proof fn lemma_all_kept(inside: Seq<bool>, n: int)
    requires
        0 <= n <= inside.len(),
        forall|i: int| 0 <= i < inside.len() ==> inside[i],
    ensures
        cuts_through(inside, n) == Seq::new(n as nat, |i: int| Cut::Keep(i as usize)),
    decreases n,
{
    if n > 0 {
        lemma_all_kept(inside, n - 1);
        assert(cuts_at(inside, n - 1) =~= seq![Cut::Keep((n - 1) as usize)]);
        assert(cuts_through(inside, n) =~= Seq::new(n as nat, |i: int| Cut::Keep(i as usize)));
    } else {
        assert(cuts_through(inside, n) =~= Seq::new(n as nat, |i: int| Cut::Keep(i as usize)));
    }
}

proof fn lemma_none_kept(inside: Seq<bool>, n: int)
    requires
        0 <= n <= inside.len(),
        forall|i: int| 0 <= i < inside.len() ==> !inside[i],
    ensures
        cuts_through(inside, n) =~= seq![],
    decreases n,
{
    if n > 0 {
        lemma_none_kept(inside, n - 1);
    }
}

/// How many triangles a polygon falls into.
pub open spec fn fan_len(len: int) -> int {
    if len < 3 {
        0
    } else if len - 2 < MAX_OUTPUT_TRIANGLES {
        len - 2
    } else {
        MAX_OUTPUT_TRIANGLES as int
    }
}

/// The triangles of a convex polygon of `len` vertices: each has the first vertex,
/// and two that follow each other.
pub fn fan(len: usize) -> (r: Vec<(usize, usize, usize)>)
    ensures
        r@ == Seq::new(
            fan_len(len as int) as nat,
            |i: int| (0usize, (i + 1) as usize, (i + 2) as usize),
        ),
{
    let mut r: Vec<(usize, usize, usize)> = Vec::new();
    let mut i: usize = 0;
    while i < MAX_OUTPUT_TRIANGLES && len >= 3 && i < len - 2
        invariant
            i <= MAX_OUTPUT_TRIANGLES,
            i <= fan_len(len as int),
            r@ == Seq::new(i as nat, |k: int| (0usize, (k + 1) as usize, (k + 2) as usize)),
        decreases MAX_OUTPUT_TRIANGLES - i,
    {
        r.push((0, i + 1, i + 2));
        i += 1;
        assert(r@ =~= Seq::new(i as nat, |k: int| (0usize, (k + 1) as usize, (k + 2) as usize)));
    }
    r
}

/// A triangle that six planes each cross at most twice has at most nine vertices
/// and seven triangles: neither limit is ever met.
pub proof fn law_a_clipped_triangle_fits_its_limits(planes: int, len: int)
    requires
        0 <= planes <= 6,
        0 <= len <= 3 + planes,
    ensures
        len <= 9 < MAX_POLY,
        fan_len(len) <= 7 < MAX_OUTPUT_TRIANGLES,
        len >= 3 ==> fan_len(len) == len - 2,
{
}

/// Where a cut stands on the polygon: at the vertex it keeps, or on the edge to the
/// vertex it leads to.
pub open spec fn place_of(cut: Cut) -> int {
    match cut {
        Cut::Keep(i) => i as int,
        Cut::Cross { from, to } => to as int,
    }
}

/// The vertex that follows another round the outline.
pub open spec fn after(i: int, len: int) -> int {
    if i + 1 < len {
        i + 1
    } else {
        0
    }
}

/// What is left of a polygon are its inside vertices and the points where its outline
/// crosses the plane: every one of them, nothing else, and in the order of the outline.
pub proof fn law_a_cut_polygon_is_its_inside_and_its_crossings(inside: Seq<bool>)
    requires
        3 <= inside.len() <= usize::MAX,
        cuts_through(inside, inside.len() as int).len() <= MAX_POLY,
    ensures
        ({
            let n = inside.len() as int;
            let cuts = clipped(inside);
            &&& forall|i: int|
                0 <= i < n ==> (#[trigger] cuts.contains(Cut::Keep(i as usize)) <==> inside[i])
            &&& forall|i: int|
                0 <= i < n ==> (#[trigger] cuts.contains(
                    Cut::Cross { from: i as usize, to: after(i, n) as usize },
                ) <==> inside[i] != inside[after(i, n)])
            &&& forall|k: int|
                0 <= k < cuts.len() ==> match #[trigger] cuts[k] {
                    Cut::Keep(i) => i < n,
                    Cut::Cross { from, to } => from < n && to == if from + 1 < n {
                        from + 1
                    } else {
                        0
                    },
                }
            &&& forall|k: int, l: int|
                0 <= k < l < cuts.len() ==> {
                    ||| place_of(#[trigger] cuts[k]) < place_of(#[trigger] cuts[l])
                    ||| place_of(cuts[k]) == place_of(cuts[l]) && cuts[k] is Cross && cuts[l] is Keep
                }
        }),
{
    let n = inside.len() as int;
    let cuts = clipped(inside);
    lemma_cuts(inside, n);
    assert forall|i: int| 0 <= i < n implies (#[trigger] cuts.contains(Cut::Keep(i as usize))
        <==> inside[i]) by {
        lemma_has_cuts(inside, n, i);
        if cuts.contains(Cut::Keep(i as usize)) {
            let k = choose|k: int| 0 <= k < cuts.len() && cuts[k] == Cut::Keep(i as usize);
            assert(is_cut(inside, cuts[k], n));
        }
    }
    assert forall|i: int| 0 <= i < n implies (#[trigger] cuts.contains(
        Cut::Cross { from: i as usize, to: after(i, n) as usize },
    ) <==> inside[i] != inside[after(i, n)]) by {
        let j = after(i, n);
        lemma_has_cuts(inside, n, j);
        assert(before(j, n) == i);
        let cut = Cut::Cross { from: i as usize, to: j as usize };
        if cuts.contains(cut) {
            let k = choose|k: int| 0 <= k < cuts.len() && cuts[k] == cut;
            assert(is_cut(inside, cuts[k], n));
        }
    }
    assert forall|k: int| 0 <= k < cuts.len() implies match #[trigger] cuts[k] {
        Cut::Keep(i) => i < n,
        Cut::Cross { from, to } => from < n && to == if from + 1 < n {
            from + 1
        } else {
            0
        },
    } by {
        assert(is_cut(inside, cuts[k], n));
    }
}

spec fn is_cut(inside: Seq<bool>, cut: Cut, n: int) -> bool {
    match cut {
        Cut::Keep(i) => i < n && inside[i as int],
        Cut::Cross { from, to } => to < n && from == before(to as int, inside.len() as int)
            && inside[from as int] != inside[to as int],
    }
}

proof fn lemma_cuts(inside: Seq<bool>, n: int)
    requires
        0 <= n <= inside.len() <= usize::MAX,
        inside.len() > 0,
    ensures
        ({
            let cuts = cuts_through(inside, n);
            &&& forall|k: int| 0 <= k < cuts.len() ==> is_cut(inside, #[trigger] cuts[k], n)
            &&& forall|k: int, l: int|
                0 <= k < l < cuts.len() ==> {
                    ||| place_of(#[trigger] cuts[k]) < place_of(#[trigger] cuts[l])
                    ||| place_of(cuts[k]) == place_of(cuts[l]) && cuts[k] is Cross && cuts[l] is Keep
                }
        }),
    decreases n,
{
    if n > 0 {
        lemma_cuts(inside, n - 1);
        let first = cuts_through(inside, n - 1);
        let more = cuts_at(inside, n - 1);
        let cuts = cuts_through(inside, n);
        assert(cuts == first + more);
        assert forall|k: int| 0 <= k < cuts.len() implies is_cut(inside, #[trigger] cuts[k], n) by {
            if k < first.len() {
                assert(cuts[k] == first[k]);
                assert(is_cut(inside, first[k], n - 1));
            } else {
                assert(cuts[k] == more[k - first.len()]);
            }
        }
        assert forall|k: int, l: int| 0 <= k < l < cuts.len() implies {
            ||| place_of(#[trigger] cuts[k]) < place_of(#[trigger] cuts[l])
            ||| place_of(cuts[k]) == place_of(cuts[l]) && cuts[k] is Cross && cuts[l] is Keep
        } by {
            if l < first.len() {
                assert(cuts[k] == first[k] && cuts[l] == first[l]);
            } else {
                assert(cuts[l] == more[l - first.len()]);
                if k < first.len() {
                    assert(cuts[k] == first[k]);
                    assert(is_cut(inside, first[k], n - 1));
                } else {
                    assert(cuts[k] == more[k - first.len()]);
                }
            }
        }
    }
}

proof fn lemma_has_cuts(inside: Seq<bool>, n: int, i: int)
    requires
        0 <= i < n <= inside.len(),
    ensures
        inside[i] ==> cuts_through(inside, n).contains(Cut::Keep(i as usize)),
        inside[before(i, inside.len() as int)] != inside[i] ==> cuts_through(inside, n).contains(
            Cut::Cross { from: before(i, inside.len() as int) as usize, to: i as usize },
        ),
    decreases n,
{
    let first = cuts_through(inside, n - 1);
    let more = cuts_at(inside, n - 1);
    let cuts = cuts_through(inside, n);
    assert(cuts == first + more);
    let keep = Cut::Keep(i as usize);
    let cross = Cut::Cross { from: before(i, inside.len() as int) as usize, to: i as usize };
    if i < n - 1 {
        lemma_has_cuts(inside, n - 1, i);
        if inside[i] {
            let k = choose|k: int| 0 <= k < first.len() && first[k] == keep;
            assert(cuts[k] == keep);
        }
        if inside[before(i, inside.len() as int)] != inside[i] {
            let k = choose|k: int| 0 <= k < first.len() && first[k] == cross;
            assert(cuts[k] == cross);
        }
    } else {
        if inside[before(i, inside.len() as int)] != inside[i] {
            assert(more[0] == cross);
            assert(cuts[first.len() as int] == cross);
        }
        if inside[i] {
            assert(more[more.len() - 1] == keep);
            assert(cuts[cuts.len() - 1] == keep);
        }
    }
}

} // verus!
