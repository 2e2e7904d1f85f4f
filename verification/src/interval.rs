//! The search interval of a ray: which of the distances at which a ray
//! meets a shape counts as a hit.

use std::cmp::Ordering;
use vstd::prelude::*;
use vstd::std_specs::cmp::PartialOrdSpec;

verus! {

/// Whether `root` lies strictly between `t_min` and `t_max`, over the order
/// that `partial_cmp` gives.
pub open spec fn strictly_inside<T: PartialOrd>(t_min: T, root: T, t_max: T) -> bool {
    &&& t_min.partial_cmp_spec(&root) == Some(Ordering::Less)
    &&& root.partial_cmp_spec(&t_max) == Some(Ordering::Less)
}

/// The first of `roots` that lies strictly between `t_min` and `t_max`, if
/// one does.
pub open spec fn first_inside_spec<T: PartialOrd>(roots: Seq<T>, t_min: T, t_max: T) -> Option<T>
    decreases roots.len(),
{
    if roots.len() == 0 {
        None
    } else if strictly_inside(t_min, roots[0], t_max) {
        Some(roots[0])
    } else {
        first_inside_spec(roots.drop_first(), t_min, t_max)
    }
}

/// Whether `answer` can come of asking whether `root` lies strictly between
/// `t_min` and `t_max`, over what `<` answers: `t_min < root` is asked
/// first, and `root < t_max` only where that holds.
pub open spec fn tested_inside<T: PartialOrd>(t_min: T, root: T, t_max: T, answer: bool) -> bool {
    exists|above: bool|
        {
            &&& #[trigger] call_ensures(T::lt, (&t_min, &root), above)
            &&& above ==> call_ensures(T::lt, (&root, &t_max), answer)
            &&& !above ==> !answer
        }
}

/// The first of `roots` that lies strictly between `t_min` and `t_max`, if
/// one does. Given the roots in ascending order, this is the nearest.
pub fn first_inside<T: PartialOrd + Copy>(roots: &[T], t_min: T, t_max: T) -> (found: Option<T>)
    ensures
        T::obeys_partial_cmp_spec() ==> found == first_inside_spec(roots@, t_min, t_max),
        match found {
            Some(root) => exists|i: int|
                {
                    &&& 0 <= i < roots@.len()
                    &&& root == #[trigger] roots@[i]
                    &&& tested_inside(t_min, root, t_max, true)
                    &&& forall|j: int|
                        0 <= j < i ==> tested_inside(t_min, #[trigger] roots@[j], t_max, false)
                },
            None => forall|j: int|
                0 <= j < roots@.len() ==> tested_inside(t_min, #[trigger] roots@[j], t_max, false),
        },
{
    let n = roots.len();
    let ghost mut rest = roots@;
    let mut i: usize = 0;
    while i < n
        invariant
            i <= n == roots@.len(),
            rest.len() == n - i,
            forall|j: int| 0 <= j < rest.len() ==> rest[j] == roots@[i + j],
            forall|j: int| 0 <= j < i ==> tested_inside(t_min, #[trigger] roots@[j], t_max, false),
            T::obeys_partial_cmp_spec() ==> first_inside_spec(roots@, t_min, t_max)
                == first_inside_spec(rest, t_min, t_max),
        decreases n - i,
    {
        let root = roots[i];
        assert(rest[0] == root);
        if t_min < root && root < t_max {
            assert(tested_inside(t_min, root, t_max, true));
            return Some(root);
        }
        assert(tested_inside(t_min, root, t_max, false));
        proof {
            rest = rest.drop_first();
        }
        i = i + 1;
    }
    None
}

} // verus!
