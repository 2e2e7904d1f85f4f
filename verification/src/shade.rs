//! How a ray is followed from bounce to bounce, whatever rays and colors are
//! made of.

use vstd::prelude::*;

verus! {

/// Whether `color` can come of following `ray` for at most `depth` bounces.
///
/// With no bounce left the ray is absorbed, and the color is `black`. Else
/// `bounce` says whether the ray meets a surface. Where it meets none, the
/// color is what `sky` gives for the ray. Where it meets one, `bounce` gives
/// the ray that leaves the surface, which is followed with one bounce fewer,
/// and the color is what `halve` makes of the color that comes of it.
pub open spec fn traced<R, C, B, S, H>(
    ray: R,
    depth: u16,
    bounce: &B,
    sky: &S,
    halve: &H,
    black: C,
    color: C,
) -> bool where B: Fn(&R) -> Option<R>, S: Fn(&R) -> C, H: Fn(C) -> C
    decreases depth,
{
    if depth == 0 {
        color == black
    } else {
        ||| call_ensures(*bounce, (&ray,), None::<R>) && call_ensures(*sky, (&ray,), color)
        ||| exists|next: R, inner: C|
            #![trigger
                call_ensures(*bounce, (&ray,), Some(next)),
                call_ensures(*halve, (inner,), color),
            ]
            {
                &&& call_ensures(*bounce, (&ray,), Some(next))
                &&& traced(next, (depth - 1) as u16, bounce, sky, halve, black, inner)
                &&& call_ensures(*halve, (inner,), color)
            }
    }
}

/// The color that comes of following `ray` for at most `depth` bounces. A
/// ray that has no bounce left is absorbed, whatever it would meet; one that
/// has a bounce left and can meet nothing gets what `sky` gives for it.
pub fn ray_color<R, C, B, S, H>(
    ray: R,
    depth: u16,
    bounce: &B,
    sky: &S,
    halve: &H,
    black: C,
) -> (color: C) where B: Fn(&R) -> Option<R>, S: Fn(&R) -> C, H: Fn(C) -> C
    requires
        forall|r: R| call_requires(*bounce, (&r,)),
        forall|r: R| call_requires(*sky, (&r,)),
        forall|c: C| call_requires(*halve, (c,)),
    ensures
        traced(ray, depth, bounce, sky, halve, black, color),
        depth == 0 ==> color == black,
        depth > 0 && (forall|next: R| !call_ensures(*bounce, (&ray,), Some(next)))
            ==> call_ensures(*sky, (&ray,), color),
    decreases depth,
{
    if depth == 0 {
        return black;
    }
    match bounce(&ray) {
        Some(next) => {
            let ghost left = next;
            let inner = ray_color(next, depth - 1, bounce, sky, halve, black);
            let ghost came = inner;
            let color = halve(inner);
            assert(call_ensures(*bounce, (&ray,), Some(left)));
            assert(call_ensures(*halve, (came,), color));
            color
        },
        None => sky(&ray),
    }
}

/// Whether `bounce`, `sky` and `halve` each give one answer only for what
/// they are asked, as they do when every draw of chance is fixed.
pub open spec fn repeatable<R, C, B, S, H>(bounce: &B, sky: &S, halve: &H) -> bool where
    B: Fn(&R) -> Option<R>,
    S: Fn(&R) -> C,
    H: Fn(C) -> C,
 {
    &&& forall|ray: R, one: Option<R>, other: Option<R>|
        #![trigger call_ensures(*bounce, (&ray,), one), call_ensures(*bounce, (&ray,), other)]
        call_ensures(*bounce, (&ray,), one) && call_ensures(*bounce, (&ray,), other) ==> one
            == other
    &&& forall|ray: R, one: C, other: C|
        #![trigger call_ensures(*sky, (&ray,), one), call_ensures(*sky, (&ray,), other)]
        call_ensures(*sky, (&ray,), one) && call_ensures(*sky, (&ray,), other) ==> one == other
    &&& forall|color: C, one: C, other: C|
        #![trigger call_ensures(*halve, (color,), one), call_ensures(*halve, (color,), other)]
        call_ensures(*halve, (color,), one) && call_ensures(*halve, (color,), other) ==> one
            == other
}

/// Following a ray again gives the same color, where every draw of chance
/// is fixed.
pub proof fn lemma_traced_again<R, C, B, S, H>(
    ray: R,
    depth: u16,
    bounce: &B,
    sky: &S,
    halve: &H,
    black: C,
    one: C,
    other: C,
) where B: Fn(&R) -> Option<R>, S: Fn(&R) -> C, H: Fn(C) -> C
    requires
        repeatable(bounce, sky, halve),
        traced(ray, depth, bounce, sky, halve, black, one),
        traced(ray, depth, bounce, sky, halve, black, other),
    ensures
        one == other,
    decreases depth,
{
    if depth > 0 {
        let less = (depth - 1) as u16;
        if call_ensures(*bounce, (&ray,), None::<R>) {
            assert forall|next: R| !call_ensures(*bounce, (&ray,), Some(next)) by {
                if call_ensures(*bounce, (&ray,), Some(next)) {
                    assert(Some(next) == None::<R>);
                }
            }
            assert(call_ensures(*sky, (&ray,), one));
            assert(call_ensures(*sky, (&ray,), other));
        } else {
            let (next1, inner1) = choose|next: R, inner: C|
                #![trigger
                    call_ensures(*bounce, (&ray,), Some(next)),
                    call_ensures(*halve, (inner,), one),
                ]
                {
                    &&& call_ensures(*bounce, (&ray,), Some(next))
                    &&& traced(next, less, bounce, sky, halve, black, inner)
                    &&& call_ensures(*halve, (inner,), one)
                };
            let (next2, inner2) = choose|next: R, inner: C|
                #![trigger
                    call_ensures(*bounce, (&ray,), Some(next)),
                    call_ensures(*halve, (inner,), other),
                ]
                {
                    &&& call_ensures(*bounce, (&ray,), Some(next))
                    &&& traced(next, less, bounce, sky, halve, black, inner)
                    &&& call_ensures(*halve, (inner,), other)
                };
            assert(Some(next1) == Some(next2));
            lemma_traced_again(next1, less, bounce, sky, halve, black, inner1, inner2);
        }
    }
}

} // verus!
