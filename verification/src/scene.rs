//! The nearest hit of a ray in a scene, whatever shapes, hits and distances
//! are made of.

use vstd::prelude::*;

verus! {

/// What a sweep over a scene holds between two shapes: the bound below which
/// a hit still counts, and the nearest hit so far.
pub type Held<H, T> = (T, Option<H>);

/// Whether one shape can take a sweep from `before` to `after`. Where `hit`
/// finds nothing of the shape between `t_min` and the bound, nothing changes. Where it
/// finds a hit, that hit is held from then on, and its distance, as
/// `distance` gives it, is the new bound.
pub open spec fn sweep_step<S, H, T, F, D>(
    shape: S,
    t_min: T,
    hit: &F,
    distance: &D,
    before: Held<H, T>,
    after: Held<H, T>,
) -> bool where F: Fn(&S, T, T) -> Option<H>, D: Fn(&H) -> T {
    ||| call_ensures(*hit, (&shape, t_min, before.0), None::<H>) && after == before
    ||| after.1 matches Some(found) && call_ensures(*hit, (&shape, t_min, before.0), Some(found))
        && call_ensures(*distance, (&found,), after.0)
}

/// Whether `states` is a sweep over `world` for hits above `t_min` that
/// starts with the bound `t_max` and no hit: one state before the first shape, and one after each
/// shape.
pub open spec fn sweep<S, H, T, F, D>(
    world: Seq<S>,
    t_min: T,
    t_max: T,
    hit: &F,
    distance: &D,
    states: Seq<Held<H, T>>,
) -> bool where F: Fn(&S, T, T) -> Option<H>, D: Fn(&H) -> T {
    &&& states.len() == world.len() + 1
    &&& states[0] == (t_max, None::<H>)
    &&& forall|i: int|
        0 <= i < world.len() ==> sweep_step(
            world[i],
            t_min,
            hit,
            distance,
            states[i],
            #[trigger] states[i + 1],
        )
}

/// Whether `nearest` can come of a sweep over `world` for hits between `t_min`
/// and `t_max`.
pub open spec fn swept<S, H, T, F, D>(
    world: Seq<S>,
    t_min: T,
    t_max: T,
    hit: &F,
    distance: &D,
    nearest: Option<H>,
) -> bool where F: Fn(&S, T, T) -> Option<H>, D: Fn(&H) -> T {
    exists|states: Seq<Held<H, T>>| #[trigger]
        sweep(world, t_min, t_max, hit, distance, states) && states.last().1 == nearest
}

/// Whether `nearest` is an answer of `hit` for a shape of `world`: the hit
/// that some shape gave when it was asked; or none, where every shape had
/// nothing to give when it was asked for a hit between `t_min` and `t_max`.
pub open spec fn answered<S, H, T, F, D>(
    world: Seq<S>,
    t_min: T,
    t_max: T,
    hit: &F,
    distance: &D,
    nearest: Option<H>,
) -> bool where F: Fn(&S, T, T) -> Option<H>, D: Fn(&H) -> T {
    match nearest {
        Some(found) => exists|i: int, bound: T|
            0 <= i < world.len() && #[trigger] call_ensures(
                *hit,
                (&world[i], t_min, bound),
                Some(found),
            ),
        None => forall|i: int|
            0 <= i < world.len() ==> call_ensures(
                *hit,
                (&#[trigger] world[i], t_min, t_max),
                None::<H>,
            ),
    }
}

/// After `k` shapes a sweep holds an answer of `hit` for one of them, and
/// the bound is still `t_max` where it holds none.
proof fn lemma_sweep_answered<S, H, T, F, D>(
    world: Seq<S>,
    t_min: T,
    t_max: T,
    hit: &F,
    distance: &D,
    states: Seq<Held<H, T>>,
    k: int,
) where F: Fn(&S, T, T) -> Option<H>, D: Fn(&H) -> T
    requires
        sweep(world, t_min, t_max, hit, distance, states),
        0 <= k <= world.len(),
    ensures
        answered(world.take(k), t_min, t_max, hit, distance, states[k].1),
        states[k].1 is None ==> states[k].0 == t_max,
    decreases k,
{
    if k > 0 {
        lemma_sweep_answered(world, t_min, t_max, hit, distance, states, k - 1);
        let before = states[k - 1];
        let after = states[k - 1 + 1];
        let shape = world[k - 1];
        let shorter = world.take(k - 1);
        let longer = world.take(k);
        assert(sweep_step(shape, t_min, hit, distance, before, after));
        assert(longer[k - 1] == shape);
        assert forall|i: int| 0 <= i < k - 1 implies shorter[i] == longer[i] by {}
        match after.1 {
            Some(found) => {
                if call_ensures(*hit, (&shape, t_min, before.0), Some(found)) {
                    assert(call_ensures(*hit, (&longer[k - 1], t_min, before.0), Some(found)));
                } else {
                    let (i, bound) = choose|i: int, bound: T|
                        0 <= i < shorter.len() && #[trigger] call_ensures(
                            *hit,
                            (&shorter[i], t_min, bound),
                            Some(found),
                        );
                    assert(call_ensures(*hit, (&longer[i], t_min, bound), Some(found)));
                }
            },
            None => {
                assert forall|i: int| 0 <= i < longer.len() implies call_ensures(
                    *hit,
                    (&#[trigger] longer[i], t_min, t_max),
                    None::<H>,
                ) by {
                    if i < k - 1 {
                        assert(call_ensures(*hit, (&shorter[i], t_min, t_max), None::<H>));
                    }
                }
            },
        }
    }
}

/// What a sweep returns is an answer of `hit` for a shape of the scene.
pub proof fn lemma_swept_answered<S, H, T, F, D>(
    world: Seq<S>,
    t_min: T,
    t_max: T,
    hit: &F,
    distance: &D,
    nearest: Option<H>,
) where F: Fn(&S, T, T) -> Option<H>, D: Fn(&H) -> T
    requires
        swept(world, t_min, t_max, hit, distance, nearest),
    ensures
        answered(world, t_min, t_max, hit, distance, nearest),
{
    let states = choose|states: Seq<Held<H, T>>| #[trigger]
        sweep(world, t_min, t_max, hit, distance, states) && states.last().1 == nearest;
    lemma_sweep_answered(world, t_min, t_max, hit, distance, states, world.len() as int);
    assert(world.take(world.len() as int) =~= world);
}

/// The nearest hit in `world` between `t_min` and `t_max`. Each shape in
/// turn is asked by `hit` for a hit between `t_min` and the bound, which is
/// `t_max` at first and the distance of the latest hit after that, so that a
/// later shape takes the place of an earlier one only with a hit that is
/// nearer. What is returned is a hit that `hit` gave for a shape of the
/// scene; nothing is returned only where `hit` had nothing to give for any
/// shape.
pub fn hit_world<S, H, T, F, D>(
    world: &[S],
    t_min: T,
    t_max: T,
    hit: &F,
    distance: &D,
) -> (nearest: Option<H>) where T: Copy, F: Fn(&S, T, T) -> Option<H>, D: Fn(&H) -> T
    requires
        forall|shape: S, bound: T| call_requires(*hit, (&shape, t_min, bound)),
        forall|found: H| call_requires(*distance, (&found,)),
    ensures
        swept(world@, t_min, t_max, hit, distance, nearest),
        answered(world@, t_min, t_max, hit, distance, nearest),
{
    let mut closest = t_max;
    let mut nearest: Option<H> = None;
    let ghost mut states: Seq<Held<H, T>> = seq![(t_max, None::<H>)];
    let n = world.len();
    let mut i: usize = 0;
    while i < n
        invariant
            i <= n == world@.len(),
            states.len() == i + 1,
            states[0] == (t_max, None::<H>),
            states.last() == (closest, nearest),
            forall|k: int|
                0 <= k < i ==> sweep_step(
                    world@[k],
                    t_min,
                    hit,
                    distance,
                    states[k],
                    #[trigger] states[k + 1],
                ),
            forall|shape: S, bound: T| call_requires(*hit, (&shape, t_min, bound)),
            forall|found: H| call_requires(*distance, (&found,)),
        decreases n - i,
    {
        let ghost before = (closest, nearest);
        match hit(&world[i], t_min, closest) {
            Some(found) => {
                closest = distance(&found);
                nearest = Some(found);
            },
            None => {},
        }
        proof {
            let after = (closest, nearest);
            assert(sweep_step(world@[i as int], t_min, hit, distance, before, after));
            let longer = states.push(after);
            assert forall|k: int| 0 <= k < i + 1 implies sweep_step(
                world@[k],
                t_min,
                hit,
                distance,
                longer[k],
                #[trigger] longer[k + 1],
            ) by {
                if k < i {
                    assert(longer[k] == states[k]);
                    assert(longer[k + 1] == states[k + 1]);
                }
            }
            states = longer;
        }
        i = i + 1;
    }
    proof {
        assert(sweep(world@, t_min, t_max, hit, distance, states));
        lemma_swept_answered(world@, t_min, t_max, hit, distance, nearest);
    }
    nearest
}

/// Whether `below` orders distances: nothing is below itself, what is below
/// something is below all that this is below, and of two distances that
/// differ one is below the other.
pub open spec fn orders<T>(below: spec_fn(T, T) -> bool) -> bool {
    &&& forall|a: T| !#[trigger] below(a, a)
    &&& forall|a: T, b: T, c: T| #[trigger] below(a, b) && #[trigger] below(b, c) ==> below(a, c)
    &&& forall|a: T, b: T| #[trigger] below(a, b) || a == b || below(b, a)
}

/// What a shape that has the hit `candidate` above the lower bound, or none,
/// answers when it is asked for a hit below `bound`.
pub open spec fn offered<H, T>(
    candidate: Option<H>,
    dist: spec_fn(H) -> T,
    below: spec_fn(T, T) -> bool,
    bound: T,
) -> Option<H> {
    match candidate {
        Some(found) => if below(dist(found), bound) {
            Some(found)
        } else {
            None
        },
        None => None,
    }
}

/// Whether `hit` and `distance` answer as `candidate`, `dist` and `below`
/// say: a shape has at most one hit to offer above `t_min`, and offers it
/// where it lies below the bound.
pub open spec fn answers_as<S, H, T, F, D>(
    t_min: T,
    hit: &F,
    distance: &D,
    candidate: spec_fn(S) -> Option<H>,
    dist: spec_fn(H) -> T,
    below: spec_fn(T, T) -> bool,
) -> bool where F: Fn(&S, T, T) -> Option<H>, D: Fn(&H) -> T {
    &&& forall|shape: S|
        (#[trigger] candidate(shape)) matches Some(found) ==> below(t_min, dist(found))
    &&& forall|shape: S, bound: T, got: Option<H>| #[trigger]
        call_ensures(*hit, (&shape, t_min, bound), got) ==> got == offered(
            candidate(shape),
            dist,
            below,
            bound,
        )
    &&& forall|found: H, t: T| #[trigger] call_ensures(*distance, (&found,), t) ==> t == dist(found)
}

/// Whether `nearest` is the nearest of the hits that the first `n` shapes
/// of `world` have to offer between `t_min` and `t_max`, and of several
/// equally near the one of the earliest shape; or none, where no shape has
/// one to offer.
pub open spec fn nearest_of<S, H, T>(
    world: Seq<S>,
    n: int,
    t_min: T,
    t_max: T,
    candidate: spec_fn(S) -> Option<H>,
    dist: spec_fn(H) -> T,
    below: spec_fn(T, T) -> bool,
    nearest: Option<H>,
) -> bool {
    match nearest {
        None => forall|j: int|
            0 <= j < n ==> ((#[trigger] candidate(world[j])) matches Some(other) ==> !below(
                dist(other),
                t_max,
            )),
        Some(found) => {
            &&& below(t_min, dist(found))
            &&& below(dist(found), t_max)
            &&& exists|i: int|
                {
                    &&& 0 <= i < n
                    &&& #[trigger] candidate(world[i]) == Some(found)
                    &&& forall|j: int|
                        0 <= j < n ==> ((#[trigger] candidate(world[j])) matches Some(other) ==> {
                            &&& !below(dist(other), dist(found))
                            &&& j < i ==> dist(other) != dist(found)
                        })
                }
        },
    }
}

/// After `k` shapes a sweep holds the nearest hit of those shapes, and the
/// bound is the distance of that hit, or still `t_max` where there is none.
proof fn lemma_sweep_prefix<S, H, T, F, D>(
    world: Seq<S>,
    t_min: T,
    t_max: T,
    hit: &F,
    distance: &D,
    states: Seq<Held<H, T>>,
    candidate: spec_fn(S) -> Option<H>,
    dist: spec_fn(H) -> T,
    below: spec_fn(T, T) -> bool,
    k: int,
) where F: Fn(&S, T, T) -> Option<H>, D: Fn(&H) -> T
    requires
        sweep(world, t_min, t_max, hit, distance, states),
        orders(below),
        answers_as(t_min, hit, distance, candidate, dist, below),
        0 <= k <= world.len(),
    ensures
        nearest_of(world, k, t_min, t_max, candidate, dist, below, states[k].1),
        states[k].0 == match states[k].1 {
            Some(found) => dist(found),
            None => t_max,
        },
    decreases k,
{
    if k > 0 {
        lemma_sweep_prefix(
            world,
            t_min,
            t_max,
            hit,
            distance,
            states,
            candidate,
            dist,
            below,
            k - 1,
        );
        let before = states[k - 1];
        let after = states[k - 1 + 1];
        let shape = world[k - 1];
        assert(sweep_step(shape, t_min, hit, distance, before, after));
        let got = offered(candidate(shape), dist, below, before.0);
        if call_ensures(*hit, (&shape, t_min, before.0), None::<H>) && after == before {
            assert(got is None);
            match before.1 {
                None => {},
                Some(found) => {
                    let i = choose|i: int|
                        {
                            &&& 0 <= i < k - 1
                            &&& #[trigger] candidate(world[i]) == Some(found)
                            &&& forall|j: int|
                                0 <= j < k - 1 ==> ((#[trigger] candidate(world[j])) matches Some(
                                    other,
                                ) ==> {
                                    &&& !below(dist(other), dist(found))
                                    &&& j < i ==> dist(other) != dist(found)
                                })
                        };
                    assert(candidate(world[i]) == Some(found));
                },
            }
        } else {
            let found = after.1->0;
            assert(call_ensures(*hit, (&shape, t_min, before.0), Some(found)));
            assert(call_ensures(*distance, (&found,), after.0));
            assert(got == Some(found));
            assert(candidate(shape) == Some(found));
            assert(below(dist(found), before.0));
            assert(below(dist(found), t_max));
            assert forall|j: int| 0 <= j < k implies ((#[trigger] candidate(world[j])) matches Some(
                other,
            ) ==> {
                &&& !below(dist(other), dist(found))
                &&& j < k - 1 ==> dist(other) != dist(found)
            }) by {
                if j < k - 1 {
                    if let Some(other) = candidate(world[j]) {
                        match before.1 {
                            None => {
                                assert(!below(dist(other), t_max));
                            },
                            Some(held) => {
                                assert(!below(dist(other), dist(held)));
                            },
                        }
                    }
                }
            }
            assert(candidate(world[k - 1]) == Some(found));
        }
    }
}

/// The hit that [`hit_world`] returns is the nearest one in the scene: where
/// every shape has at most one hit to offer above `t_min` and offers it
/// below any bound above its distance, the hit returned lies between `t_min`
/// and `t_max` and is the hit of a shape of the scene, no shape has one to
/// offer that is nearer, and of several equally near the one of the earliest
/// shape is returned. Nothing is returned only where no shape has a hit to
/// offer below `t_max`.
pub proof fn lemma_hit_world_nearest<S, H, T, F, D>(
    world: Seq<S>,
    t_min: T,
    t_max: T,
    hit: &F,
    distance: &D,
    nearest: Option<H>,
    candidate: spec_fn(S) -> Option<H>,
    dist: spec_fn(H) -> T,
    below: spec_fn(T, T) -> bool,
) where F: Fn(&S, T, T) -> Option<H>, D: Fn(&H) -> T
    requires
        swept(world, t_min, t_max, hit, distance, nearest),
        orders(below),
        answers_as(t_min, hit, distance, candidate, dist, below),
    ensures
        nearest_of(world, world.len() as int, t_min, t_max, candidate, dist, below, nearest),
{
    let states = choose|states: Seq<Held<H, T>>| #[trigger]
        sweep(world, t_min, t_max, hit, distance, states) && states.last().1 == nearest;
    lemma_sweep_prefix(
        world,
        t_min,
        t_max,
        hit,
        distance,
        states,
        candidate,
        dist,
        below,
        world.len() as int,
    );
}

/// The order of the scene does not show in the distance of the hit that
/// [`hit_world`] returns: two scenes of the same shapes give hits equally
/// far, or both none.
pub proof fn lemma_hit_world_any_order<S, H, T, F, D>(
    a: Seq<S>,
    b: Seq<S>,
    t_min: T,
    t_max: T,
    hit: &F,
    distance: &D,
    nearest_a: Option<H>,
    nearest_b: Option<H>,
    candidate: spec_fn(S) -> Option<H>,
    dist: spec_fn(H) -> T,
    below: spec_fn(T, T) -> bool,
) where F: Fn(&S, T, T) -> Option<H>, D: Fn(&H) -> T
    requires
        a.to_multiset() == b.to_multiset(),
        swept(a, t_min, t_max, hit, distance, nearest_a),
        swept(b, t_min, t_max, hit, distance, nearest_b),
        orders(below),
        answers_as(t_min, hit, distance, candidate, dist, below),
    ensures
        match (nearest_a, nearest_b) {
            (Some(in_a), Some(in_b)) => dist(in_a) == dist(in_b),
            (None, None) => true,
            _ => false,
        },
{
    lemma_hit_world_nearest(a, t_min, t_max, hit, distance, nearest_a, candidate, dist, below);
    lemma_hit_world_nearest(b, t_min, t_max, hit, distance, nearest_b, candidate, dist, below);
    lemma_nearest_shared(a, b, t_min, t_max, nearest_a, nearest_b, candidate, dist, below);
    lemma_nearest_shared(b, a, t_min, t_max, nearest_b, nearest_a, candidate, dist, below);
}

/// Whether `found` is the one hit in `world` at its distance: whatever a
/// shape has to offer that is equally far is `found` itself.
pub open spec fn alone_at<S, H, T>(
    world: Seq<S>,
    candidate: spec_fn(S) -> Option<H>,
    dist: spec_fn(H) -> T,
    found: H,
) -> bool {
    forall|j: int|
        0 <= j < world.len() ==> ((#[trigger] candidate(world[j])) matches Some(other) ==> (dist(
            other,
        ) == dist(found) ==> other == found))
}

/// The order of the scene does not show in the hit that [`hit_world`]
/// returns, where no other hit lies as far as the nearest: two scenes of the
/// same shapes then give the very same hit.
pub proof fn lemma_hit_world_same_hit<S, H, T, F, D>(
    a: Seq<S>,
    b: Seq<S>,
    t_min: T,
    t_max: T,
    hit: &F,
    distance: &D,
    nearest_a: Option<H>,
    nearest_b: Option<H>,
    candidate: spec_fn(S) -> Option<H>,
    dist: spec_fn(H) -> T,
    below: spec_fn(T, T) -> bool,
) where F: Fn(&S, T, T) -> Option<H>, D: Fn(&H) -> T
    requires
        a.to_multiset() == b.to_multiset(),
        swept(a, t_min, t_max, hit, distance, nearest_a),
        swept(b, t_min, t_max, hit, distance, nearest_b),
        orders(below),
        answers_as(t_min, hit, distance, candidate, dist, below),
        nearest_a matches Some(in_a) ==> alone_at(a, candidate, dist, in_a),
    ensures
        nearest_a == nearest_b,
{
    lemma_hit_world_any_order(
        a,
        b,
        t_min,
        t_max,
        hit,
        distance,
        nearest_a,
        nearest_b,
        candidate,
        dist,
        below,
    );
    lemma_hit_world_nearest(b, t_min, t_max, hit, distance, nearest_b, candidate, dist, below);
    if let Some(in_b) = nearest_b {
        let j = choose|j: int|
            {
                &&& 0 <= j < b.len()
                &&& #[trigger] candidate(b[j]) == Some(in_b)
                &&& forall|k: int|
                    0 <= k < b.len() ==> ((#[trigger] candidate(b[k])) matches Some(other) ==> {
                        &&& !below(dist(other), dist(in_b))
                        &&& k < j ==> dist(other) != dist(in_b)
                    })
            };
        vstd::seq_lib::to_multiset_contains(a, b[j]);
        vstd::seq_lib::to_multiset_contains(b, b[j]);
        assert(b.contains(b[j]));
        assert(a.contains(b[j]));
        let i = choose|i: int| 0 <= i < a.len() && a[i] == b[j];
        assert(candidate(a[i]) == Some(in_b));
    }
}

/// A hit that is the nearest of one scene is no nearer than the nearest of
/// another scene that holds the same shapes, which then has one too.
proof fn lemma_nearest_shared<S, H, T>(
    a: Seq<S>,
    b: Seq<S>,
    t_min: T,
    t_max: T,
    nearest_a: Option<H>,
    nearest_b: Option<H>,
    candidate: spec_fn(S) -> Option<H>,
    dist: spec_fn(H) -> T,
    below: spec_fn(T, T) -> bool,
)
    requires
        a.to_multiset() == b.to_multiset(),
        nearest_of(a, a.len() as int, t_min, t_max, candidate, dist, below, nearest_a),
        nearest_of(b, b.len() as int, t_min, t_max, candidate, dist, below, nearest_b),
        orders(below),
    ensures
        nearest_a matches Some(in_a) ==> (nearest_b matches Some(in_b) && !below(
            dist(in_a),
            dist(in_b),
        )),
{
    if let Some(in_a) = nearest_a {
        let i = choose|i: int|
            {
                &&& 0 <= i < a.len()
                &&& #[trigger] candidate(a[i]) == Some(in_a)
                &&& forall|j: int|
                    0 <= j < a.len() ==> ((#[trigger] candidate(a[j])) matches Some(other) ==> {
                        &&& !below(dist(other), dist(in_a))
                        &&& j < i ==> dist(other) != dist(in_a)
                    })
            };
        vstd::seq_lib::to_multiset_contains(a, a[i]);
        vstd::seq_lib::to_multiset_contains(b, a[i]);
        assert(a.contains(a[i]));
        assert(b.contains(a[i]));
        let j = choose|j: int| 0 <= j < b.len() && b[j] == a[i];
        assert(candidate(b[j]) == Some(in_a));
    }
}

/// Whether `hit` and `distance` each give one answer only for what they are
/// asked.
pub open spec fn repeatable<S, H, T, F, D>(hit: &F, distance: &D) -> bool where
    F: Fn(&S, T, T) -> Option<H>,
    D: Fn(&H) -> T,
 {
    &&& forall|shape: S, low: T, bound: T, one: Option<H>, other: Option<H>|
        #![trigger
            call_ensures(*hit, (&shape, low, bound), one),
            call_ensures(*hit, (&shape, low, bound), other),
        ]
        call_ensures(*hit, (&shape, low, bound), one) && call_ensures(
            *hit,
            (&shape, low, bound),
            other,
        ) ==> one == other
    &&& forall|found: H, one: T, other: T|
        #![trigger
            call_ensures(*distance, (&found,), one),
            call_ensures(*distance, (&found,), other),
        ]
        call_ensures(*distance, (&found,), one) && call_ensures(*distance, (&found,), other)
            ==> one == other
}

/// Two sweeps over one scene hold the same after each shape, where `hit` and
/// `distance` give one answer only.
proof fn lemma_sweep_again<S, H, T, F, D>(
    world: Seq<S>,
    t_min: T,
    t_max: T,
    hit: &F,
    distance: &D,
    one: Seq<Held<H, T>>,
    other: Seq<Held<H, T>>,
    k: int,
) where F: Fn(&S, T, T) -> Option<H>, D: Fn(&H) -> T
    requires
        repeatable(hit, distance),
        sweep(world, t_min, t_max, hit, distance, one),
        sweep(world, t_min, t_max, hit, distance, other),
        0 <= k <= world.len(),
    ensures
        one[k] == other[k],
    decreases k,
{
    if k > 0 {
        lemma_sweep_again(world, t_min, t_max, hit, distance, one, other, k - 1);
        let shape = world[k - 1];
        let before = one[k - 1];
        assert(sweep_step(shape, t_min, hit, distance, before, one[k - 1 + 1]));
        assert(sweep_step(shape, t_min, hit, distance, before, other[k - 1 + 1]));
        if call_ensures(*hit, (&shape, t_min, before.0), None::<H>) {
            assert forall|found: H|
                !call_ensures(*hit, (&shape, t_min, before.0), Some(found)) by {
                if call_ensures(*hit, (&shape, t_min, before.0), Some(found)) {
                    assert(Some(found) == None::<H>);
                }
            }
        } else {
            let found = one[k].1->0;
            let again = other[k].1->0;
            assert(Some(found) == Some(again));
        }
    }
}

/// Looking for the nearest hit again gives the same hit, where `hit` and
/// `distance` give one answer only.
pub proof fn lemma_swept_again<S, H, T, F, D>(
    world: Seq<S>,
    t_min: T,
    t_max: T,
    hit: &F,
    distance: &D,
    one: Option<H>,
    other: Option<H>,
) where F: Fn(&S, T, T) -> Option<H>, D: Fn(&H) -> T
    requires
        repeatable(hit, distance),
        swept(world, t_min, t_max, hit, distance, one),
        swept(world, t_min, t_max, hit, distance, other),
    ensures
        one == other,
{
    let first = choose|states: Seq<Held<H, T>>| #[trigger]
        sweep(world, t_min, t_max, hit, distance, states) && states.last().1 == one;
    let second = choose|states: Seq<Held<H, T>>| #[trigger]
        sweep(world, t_min, t_max, hit, distance, states) && states.last().1 == other;
    lemma_sweep_again(world, t_min, t_max, hit, distance, first, second, world.len() as int);
}

} // verus!
