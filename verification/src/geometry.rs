//! Hits, the pairing of rays with objects, and the choice of the nearest hit.

use vstd::prelude::*;

verus! {

/// A unit surface normal in 1/255ths: each component of the normal, multiplied
/// by 255 and truncated toward zero.
///
/// A component of a unit vector lies in `[-1, 1]`, so a faithful value lies in
/// `[-255, 255]`; anything outside is numerical error and is clamped when the
/// normal becomes a colour.
#[derive(Clone, Copy, Debug, PartialEq, Eq, Structural)]
pub struct ScaledNormal {
    pub x: i64,
    pub y: i64,
    pub z: i64,
}

/// What the renderer reads of an intersection between a ray and a surface.
///
/// `t` stands for the ray parameter of the intersection: any integer image of
/// it that keeps its order and its sign (a hit with `t < 0` lies behind the
/// ray's origin). `surface_normal` is the outward unit normal at the hit.
#[derive(Clone, Copy, Debug, PartialEq, Eq, Structural)]
pub struct Hit {
    pub t: i64,
    pub surface_normal: ScaledNormal,
}

/// The row and the column of a position in a table laid out row by row.
pub proof fn lemma_row_major_index(row: int, col: int, cols: int)
    requires
        0 <= row,
        0 <= col < cols,
    ensures
        0 <= row * cols + col,
        (row * cols + col) / cols == row,
        (row * cols + col) % cols == col,
        row * cols + cols == (row + 1) * cols,
{
    assert(0 <= row * cols) by (nonlinear_arith)
        requires
            0 <= row,
            0 < cols,
    ;
    vstd::arithmetic::div_mod::lemma_fundamental_div_mod_converse(row * cols + col, cols, row, col);
    assert(row * cols + cols == (row + 1) * cols) by (nonlinear_arith);
}

/// Tests every ray against every object, ray by ray: the entry at
/// `i * objects.len() + j` is what `intersect` gave for object `j` and ray `i`.
pub fn compute_object_intersections<R, O, F>(rays: &Vec<R>, objects: &Vec<O>, intersect: F) -> (hits: Vec<Option<Hit>>)
    where F: Fn(&O, &R) -> Option<Hit>
    requires
        forall|i: int, j: int| 0 <= i < rays.len() && 0 <= j < objects.len()
            ==> call_requires(intersect, (&objects[j], &rays[i])),
    ensures
        hits.len() == rays.len() * objects.len(),
        forall|i: int, j: int| 0 <= i < rays.len() && 0 <= j < objects.len()
            ==> call_ensures(intersect, (&objects[j], &rays[i]), #[trigger] hits[i * objects.len() + j]),
{
    let mut hits: Vec<Option<Hit>> = Vec::new();
    let ghost cols: int = objects.len() as int;
    let mut i: usize = 0;
    while i < rays.len()
        invariant
            i <= rays.len(),
            cols == objects.len(),
            hits.len() == i * cols,
            forall|a: int, b: int| 0 <= a < rays.len() && 0 <= b < objects.len()
                ==> call_requires(intersect, (&objects[b], &rays[a])),
            forall|k: int| 0 <= k < hits.len()
                ==> call_ensures(intersect, (&objects[k % cols], &rays[k / cols]), #[trigger] hits[k]),
        decreases rays.len() - i,
    {
        let mut j: usize = 0;
        while j < objects.len()
            invariant
                i < rays.len(),
                j <= objects.len(),
                cols == objects.len(),
                hits.len() == i * cols + j,
                forall|a: int, b: int| 0 <= a < rays.len() && 0 <= b < objects.len()
                    ==> call_requires(intersect, (&objects[b], &rays[a])),
                forall|k: int| 0 <= k < hits.len()
                    ==> call_ensures(intersect, (&objects[k % cols], &rays[k / cols]), #[trigger] hits[k]),
            decreases objects.len() - j,
        {
            let result = intersect(&objects[j], &rays[i]);
            proof {
                lemma_row_major_index(i as int, j as int, cols);
            }
            hits.push(result);
            j = j + 1;
        }
        proof {
            assert(i * cols + cols == (i + 1) * cols) by (nonlinear_arith);
        }
        i = i + 1;
    }
    assert forall|a: int, b: int| 0 <= a < rays.len() && 0 <= b < objects.len() implies call_ensures(
        intersect,
        (&objects[b], &rays[a]),
        #[trigger] hits[a * objects.len() + b],
    ) by {
        lemma_row_major_index(a, b, cols);
        assert((a + 1) * cols <= rays.len() * cols) by (nonlinear_arith)
            requires
                a + 1 <= rays.len(),
                0 <= cols,
        ;
    }
    hits
}

/// Whether a hit result counts for its ray: there is a hit, and it lies in
/// front of the ray's origin.
pub open spec fn in_front(hit: Option<Hit>) -> bool {
    hit is Some && hit.unwrap().t >= 0
}

/// Whether position `j` holds the nearest hit among the positions from `lo`
/// up to `hi`: it counts, no hit there that counts is nearer, and none
/// before it is as near.
pub open spec fn is_nearest_in(hits: Seq<Option<Hit>>, lo: int, hi: int, j: int) -> bool {
    &&& lo <= j < hi
    &&& in_front(hits[j])
    &&& forall|k: int| lo <= k < hi && in_front(#[trigger] hits[k]) ==> hits[j].unwrap().t <= hits[k].unwrap().t
    &&& forall|k: int| lo <= k < j && in_front(#[trigger] hits[k]) ==> hits[j].unwrap().t < hits[k].unwrap().t
}

/// Whether `chosen` is the right choice among the positions from `lo` up to
/// `hi`: nothing where no hit counts, else the nearest hit, the first of them
/// where several are equally near.
pub open spec fn is_choice_in(hits: Seq<Option<Hit>>, lo: int, hi: int, chosen: Option<Hit>) -> bool {
    match chosen {
        None => forall|k: int| lo <= k < hi ==> !in_front(#[trigger] hits[k]),
        Some(h) => exists|j: int| #[trigger] is_nearest_in(hits, lo, hi, j) && hits[j] == Some(h),
    }
}

/// The choice among given hit results is settled by them: two right choices
/// are the same.
pub proof fn lemma_choice_is_unique(hits: Seq<Option<Hit>>, lo: int, hi: int, first: Option<Hit>, second: Option<Hit>)
    requires
        is_choice_in(hits, lo, hi, first),
        is_choice_in(hits, lo, hi, second),
    ensures
        first == second,
{
    if first is Some && second is Some {
        let i = choose|i: int| #[trigger] is_nearest_in(hits, lo, hi, i) && hits[i] == first;
        let j = choose|j: int| #[trigger] is_nearest_in(hits, lo, hi, j) && hits[j] == second;
        assert(in_front(hits[i]) && in_front(hits[j]));
        if i < j {
            assert(hits[j].unwrap().t < hits[i].unwrap().t);
            assert(hits[i].unwrap().t <= hits[j].unwrap().t);
        } else if j < i {
            assert(hits[i].unwrap().t < hits[j].unwrap().t);
            assert(hits[j].unwrap().t <= hits[i].unwrap().t);
        }
    } else if first is Some {
        let i = choose|i: int| #[trigger] is_nearest_in(hits, lo, hi, i) && hits[i] == first;
        assert(in_front(hits[i]));
    } else if second is Some {
        let j = choose|j: int| #[trigger] is_nearest_in(hits, lo, hi, j) && hits[j] == second;
        assert(in_front(hits[j]));
    }
}

/// Where no result of a ray counts, because the ray meets nothing or meets
/// it only behind the camera, nothing is chosen for it.
pub proof fn lemma_no_hit_no_choice(hits: Seq<Option<Hit>>, lo: int, hi: int, chosen: Option<Hit>)
    requires
        is_choice_in(hits, lo, hi, chosen),
        forall|k: int| lo <= k < hi ==> !in_front(#[trigger] hits[k]),
    ensures
        chosen is None,
{
    if chosen is Some {
        let j = choose|j: int| #[trigger] is_nearest_in(hits, lo, hi, j) && hits[j] == chosen;
        assert(in_front(hits[j]));
    }
}

/// With one object in the scene the choice for a ray is that object's hit
/// where it lies in front of the camera, and nothing else.
pub proof fn lemma_choice_of_one(hits: Seq<Option<Hit>>, at: int, chosen: Option<Hit>)
    requires
        is_choice_in(hits, at, at + 1, chosen),
    ensures
        chosen == if in_front(hits[at]) {
            hits[at]
        } else {
            None
        },
{
    if chosen is Some {
        let j = choose|j: int| #[trigger] is_nearest_in(hits, at, at + 1, j) && hits[j] == chosen;
        assert(j == at);
    } else {
        assert(!in_front(hits[at]));
    }
}

/// Chooses the nearest hit of one ray among the results from `lo` up to `hi`.
fn nearest_in_row(hits: &Vec<Option<Hit>>, lo: usize, hi: usize) -> (chosen: Option<Hit>)
    requires
        lo <= hi <= hits.len(),
    ensures
        is_choice_in(hits@, lo as int, hi as int, chosen),
{
    let mut best: Option<Hit> = None;
    let ghost mut at: int = lo as int;
    let mut k: usize = lo;
    while k < hi
        invariant
            lo <= k <= hi <= hits.len(),
            best is None ==> forall|m: int| lo <= m < k ==> !in_front(#[trigger] hits@[m]),
            best is Some ==> is_nearest_in(hits@, lo as int, k as int, at) && hits@[at] == best,
        decreases hi - k,
    {
        match &hits[k] {
            Some(h) => {
                if h.t >= 0 {
                    let nearer = match &best {
                        None => true,
                        Some(b) => h.t < b.t,
                    };
                    if nearer {
                        best = Some(*h);
                        proof {
                            at = k as int;
                        }
                    }
                }
            },
            None => {},
        }
        k = k + 1;
    }
    best
}

/// Chooses, for each ray, the nearest of its hits.
///
/// `hits` holds `n_objects` results for each of `n_rays` rays, ray by ray, as
/// `compute_object_intersections` lays them out. A hit with a negative `t`
/// lies behind the camera and never counts. Of the others the one with the
/// least `t` is chosen; among equals, the object that comes first.
///
/// Returns `None` exactly when `hits` is not of that shape.
pub fn closest_hits(hits: &Vec<Option<Hit>>, n_rays: usize, n_objects: usize) -> (nearest: Option<Vec<Option<Hit>>>)
    ensures
        nearest is Some <==> hits.len() == n_rays * n_objects,
        nearest matches Some(chosen) ==> {
            &&& chosen.len() == n_rays
            &&& forall|i: int| 0 <= i < n_rays ==> is_choice_in(hits@, i * n_objects, i * n_objects + n_objects, #[trigger] chosen[i])
        },
{
    if !has_shape(hits.len(), n_rays, n_objects) {
        return None;
    }
    let mut chosen: Vec<Option<Hit>> = Vec::new();
    let mut lo: usize = 0;
    let mut i: usize = 0;
    while i < n_rays
        invariant
            i <= n_rays,
            hits.len() == n_rays * n_objects,
            lo == i * n_objects,
            chosen.len() == i,
            forall|a: int| 0 <= a < i ==> is_choice_in(hits@, a * n_objects, a * n_objects + n_objects, #[trigger] chosen[a]),
        decreases n_rays - i,
    {
        proof {
            assert(i * n_objects + n_objects == (i + 1) * n_objects) by (nonlinear_arith);
            assert((i + 1) * n_objects <= n_rays * n_objects) by (nonlinear_arith)
                requires
                    i + 1 <= n_rays,
                    0 <= n_objects,
            ;
        }
        let hi: usize = lo + n_objects;
        let best = nearest_in_row(hits, lo, hi);
        chosen.push(best);
        lo = hi;
        i = i + 1;
    }
    Some(chosen)
}

/// Whether a list of `len` results holds `cols` results for each of `rows` rays.
fn has_shape(len: usize, rows: usize, cols: usize) -> (fits: bool)
    ensures
        fits <==> len == rows * cols,
{
    if cols == 0 {
        len == 0
    } else {
        proof {
            vstd::arithmetic::div_mod::lemma_fundamental_div_mod(len as int, cols as int);
            if len == rows * cols {
                vstd::arithmetic::div_mod::lemma_fundamental_div_mod_converse(len as int, cols as int, rows as int, 0);
            }
            assert(cols * (len / cols) == (len / cols) * cols) by (nonlinear_arith);
        }
        len % cols == 0 && len / cols == rows
    }
}

} // verus!
