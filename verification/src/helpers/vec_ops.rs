//! Reified operations on one or two vectors, as sent across the UI's
//! channels: swapping, pushing, removing, mapping, and predicate-directed
//! moves between an inactive (left) and an active (right) list.

use crate::helpers::basics::Side;
use crate::helpers::traits::{seq_swapped, Mover, MoverMatcher, VecMoveError};
use vstd::pervasive::VecAdditionalExecFns;
use vstd::prelude::*;

verus! {

/// Failure cases when running a vector operation.
#[derive(Debug, Clone, Copy, PartialEq, Eq, Structural)]
pub enum RunError {
    IndexOutOfBounds,
    TryReserveError,
    NotFound,
    VecMoveError(VecMoveError),
}

/// A single operation on one vector.  `F` tests an entry, `G` maps one.
pub enum VecOp<T, F, G> {
    /// Swaps the entries at the two indices.
    Swap(usize, usize),
    /// Appends an entry.
    Push(T),
    /// Removes the entry at the index.
    Remove(usize),
    /// Replaces every entry by the image under the function.
    ForEachMut(G),
    /// Moves the first entry matching the predicate one place up.
    MoveUp(F),
    /// Moves the first entry matching the predicate one place down.
    MoveDown(F),
}

/// Whether the closures of `op` may be called on any entry of `s`.
pub open spec fn vec_op_callable<T, F: Fn(&T) -> bool, G: Fn(&T) -> T>(
    op: VecOp<T, F, G>,
    s: Seq<T>,
) -> bool {
    match op {
        VecOp::ForEachMut(g) => forall|k: int| 0 <= k < s.len() ==> call_requires(g, (&s[k],)),
        VecOp::MoveUp(f) => forall|k: int| 0 <= k < s.len() ==> call_requires(f, (&s[k],)),
        VecOp::MoveDown(f) => forall|k: int| 0 <= k < s.len() ==> call_requires(f, (&s[k],)),
        _ => true,
    }
}

/// What running `op` guarantees: the relation between the vector before
/// (`s0`) and after (`s1`), and the result.
pub open spec fn vec_op_post<T, F: Fn(&T) -> bool, G: Fn(&T) -> T>(
    op: VecOp<T, F, G>,
    s0: Seq<T>,
    s1: Seq<T>,
    r: Result<(), RunError>,
) -> bool {
    match op {
        VecOp::Swap(a, b) => if a < s0.len() && b < s0.len() {
            r == Ok::<(), RunError>(()) && s1 == seq_swapped(s0, a as int, b as int)
        } else {
            r == Err::<(), RunError>(RunError::IndexOutOfBounds) && s1 == s0
        },
        VecOp::Push(item) => r == Ok::<(), RunError>(()) && s1 == s0.push(item),
        VecOp::Remove(index) => if index < s0.len() {
            r == Ok::<(), RunError>(()) && s1 == s0.remove(index as int)
        } else {
            r == Err::<(), RunError>(RunError::IndexOutOfBounds) && s1 == s0
        },
        VecOp::ForEachMut(g) => r == Ok::<(), RunError>(()) && s1.len() == s0.len() && forall|
            k: int,
        | 0 <= k < s0.len() ==> call_ensures(g, (&s0[k],), #[trigger] s1[k]),
        VecOp::MoveUp(f) => match r {
            Ok(()) => exists|idx: int|
                {
                    &&& 0 < idx < s0.len()
                    &&& call_ensures(f, (&s0[idx],), true)
                    &&& s1 == seq_swapped(s0, idx, idx - 1)
                },
            Err(e) => s1 == s0 && (e == RunError::VecMoveError(VecMoveError::NoMatch) || e
                == RunError::VecMoveError(VecMoveError::IndexOutOfBounds)) && (e
                == RunError::VecMoveError(VecMoveError::NoMatch) ==> forall|j: int|
                0 <= j < s0.len() ==> call_ensures(f, (&s0[j],), false)) && (e
                == RunError::VecMoveError(VecMoveError::IndexOutOfBounds) ==> s0.len() > 0
                && call_ensures(f, (&s0[0],), true)),
        },
        VecOp::MoveDown(f) => match r {
            Ok(()) => exists|idx: int|
                {
                    &&& 0 <= idx && idx + 1 < s0.len()
                    &&& call_ensures(f, (&s0[idx],), true)
                    &&& s1 == seq_swapped(s0, idx, idx + 1)
                },
            Err(e) => s1 == s0 && (e == RunError::VecMoveError(VecMoveError::NoMatch) || e
                == RunError::VecMoveError(VecMoveError::IndexOutOfBounds)) && (e
                == RunError::VecMoveError(VecMoveError::NoMatch) ==> forall|j: int|
                0 <= j < s0.len() ==> call_ensures(f, (&s0[j],), false)) && (e
                == RunError::VecMoveError(VecMoveError::IndexOutOfBounds) ==> s0.len() > 0
                && call_ensures(f, (&s0[s0.len() - 1],), true)),
        },
    }
}

impl<T, F: Fn(&T) -> bool, G: Fn(&T) -> T> VecOp<T, F, G> {
    /// Runs the operation on `vec`.
    pub fn run(self, vec: &mut Vec<T>) -> (r: Result<(), RunError>)
        requires
            vec_op_callable(self, old(vec)@),
        ensures
            vec_op_post(self, old(vec)@, final(vec)@, r),
    {
        match self {
            VecOp::Swap(a, b) => {
                if a >= vec.len() || b >= vec.len() {
                    return Err(RunError::IndexOutOfBounds);
                }
                crate::helpers::traits::vec_swap(vec, a, b);
                Ok(())
            },
            VecOp::Push(item) => {
                vec.push(item);
                Ok(())
            },
            VecOp::Remove(index) => {
                if index >= vec.len() {
                    return Err(RunError::IndexOutOfBounds);
                }
                vec.remove(index);
                Ok(())
            },
            VecOp::ForEachMut(g) => {
                run_for_each(vec, &g);
                Ok(())
            },
            VecOp::MoveUp(f) => {
                match vec.move_match_up(f) {
                    Ok(()) => Ok(()),
                    Err(e) => Err(RunError::VecMoveError(e)),
                }
            },
            VecOp::MoveDown(f) => {
                match vec.move_match_down(f) {
                    Ok(()) => Ok(()),
                    Err(e) => Err(RunError::VecMoveError(e)),
                }
            },
        }
    }
}

/// An operation on the pair of mod lists (left: inactive, right: active).
pub enum MultiVecOp<T, F, G> {
    /// Runs a single-vector operation on the chosen side.
    SingleOp(Side, VecOp<T, F, G>),
    /// Moves the first entry matching the predicate from the chosen side to
    /// the other side.
    MoveFrom(Side, F),
    /// Moves the first entry matching the predicate to the other side,
    /// searching the left side first.
    Swap(F),
    /// Replaces every entry of both sides by its image under the function.
    ForEachMut(G),
    /// Moves the first matching entry one place up, searching left first.
    MoveUp(F),
    /// Moves the first matching entry one place down, searching left first.
    MoveDown(F),
}

/// Whether the closures of `op` may be called on any entry of either list.
pub open spec fn multi_op_callable<T, F: Fn(&T) -> bool, G: Fn(&T) -> T>(
    op: MultiVecOp<T, F, G>,
    left: Seq<T>,
    right: Seq<T>,
) -> bool {
    match op {
        MultiVecOp::SingleOp(side, inner) => (side is Left ==> vec_op_callable(inner, left)) && (
        side is Right ==> vec_op_callable(inner, right)),
        MultiVecOp::MoveFrom(side, f) => (side is Left ==> forall|k: int|
            0 <= k < left.len() ==> call_requires(f, (&left[k],))) && (side is Right ==> forall|
            k: int,
        | 0 <= k < right.len() ==> call_requires(f, (&right[k],))),
        MultiVecOp::Swap(f) => (forall|k: int|
            0 <= k < left.len() ==> call_requires(f, (&left[k],))) && (forall|k: int|
            0 <= k < right.len() ==> call_requires(f, (&right[k],))),
        MultiVecOp::ForEachMut(g) => (forall|k: int|
            0 <= k < left.len() ==> call_requires(g, (&left[k],))) && (forall|k: int|
            0 <= k < right.len() ==> call_requires(g, (&right[k],))),
        MultiVecOp::MoveUp(f) => (forall|k: int|
            0 <= k < left.len() ==> call_requires(f, (&left[k],))) && (forall|k: int|
            0 <= k < right.len() ==> call_requires(f, (&right[k],))),
        MultiVecOp::MoveDown(f) => (forall|k: int|
            0 <= k < left.len() ==> call_requires(f, (&left[k],))) && (forall|k: int|
            0 <= k < right.len() ==> call_requires(f, (&right[k],))),
    }
}

impl<T, F: Fn(&T) -> bool, G: Fn(&T) -> T> MultiVecOp<T, F, G> {
    /// Runs the operation on the two lists.
    pub fn run(self, left: &mut Vec<T>, right: &mut Vec<T>) -> (r: Result<(), RunError>)
        requires
            multi_op_callable(self, old(left)@, old(right)@),
        ensures
            match self {
                MultiVecOp::SingleOp(side, inner) => if side is Left {
                    final(right)@ == old(right)@ && vec_op_post(inner, old(left)@, final(left)@, r)
                } else {
                    final(left)@ == old(left)@ && vec_op_post(inner, old(right)@, final(right)@, r)
                },
                MultiVecOp::MoveFrom(side, f) => match r {
                    Ok(()) => (side is Left ==> exists|idx: int|
                        {
                            &&& 0 <= idx < old(left)@.len()
                            &&& #[trigger] call_ensures(f, (&old(left)@[idx],), true)
                            &&& final(left)@ == old(left)@.remove(idx)
                            &&& final(right)@ == old(right)@.push(old(left)@[idx])
                        }) && (side is Right ==> exists|idx: int|
                        {
                            &&& 0 <= idx < old(right)@.len()
                            &&& #[trigger] call_ensures(f, (&old(right)@[idx],), true)
                            &&& final(right)@ == old(right)@.remove(idx)
                            &&& final(left)@ == old(left)@.push(old(right)@[idx])
                        }),
                    Err(e) => e == RunError::NotFound && final(left)@ == old(left)@ && final(right)@ == old(right)@,
                },
                MultiVecOp::Swap(f) => match r {
                    Ok(()) => (exists|idx: int|
                        {
                            &&& 0 <= idx < old(left)@.len()
                            &&& call_ensures(f, (&old(left)@[idx],), true)
                            &&& final(left)@ == old(left)@.remove(idx)
                            &&& final(right)@ == old(right)@.push(old(left)@[idx])
                        }) || (exists|idx: int|
                        {
                            &&& 0 <= idx < old(right)@.len()
                            &&& call_ensures(f, (&old(right)@[idx],), true)
                            &&& final(right)@ == old(right)@.remove(idx)
                            &&& final(left)@ == old(left)@.push(old(right)@[idx])
                            &&& (forall|j: int|
                                0 <= j < old(left)@.len() ==> call_ensures(
                                    f,
                                    (&old(left)@[j],),
                                    false,
                                ))
                        }),
                    Err(e) => e == RunError::NotFound && final(left)@ == old(left)@ && final(right)@ == old(right)@,
                },
                MultiVecOp::ForEachMut(g) => r == Ok::<(), RunError>(()) && final(left)@.len()
                    == old(left)@.len() && final(right)@.len() == old(right)@.len() && (forall|
                    k: int,
                |
                    0 <= k < old(left)@.len() ==> call_ensures(
                        g,
                        (&old(left)@[k],),
                        #[trigger] final(left)@[k],
                    )) && (forall|k: int|
                    0 <= k < old(right)@.len() ==> call_ensures(
                        g,
                        (&old(right)@[k],),
                        #[trigger] final(right)@[k],
                    )),
                MultiVecOp::MoveUp(f) => match r {
                    Ok(()) => (exists|idx: int|
                        {
                            &&& 0 < idx < old(left)@.len()
                            &&& call_ensures(f, (&old(left)@[idx],), true)
                            &&& final(left)@ == seq_swapped(old(left)@, idx, idx - 1)
                            &&& final(right)@ == old(right)@
                        }) || (exists|idx: int|
                        {
                            &&& 0 < idx < old(right)@.len()
                            &&& call_ensures(f, (&old(right)@[idx],), true)
                            &&& final(right)@ == seq_swapped(old(right)@, idx, idx - 1)
                            &&& final(left)@ == old(left)@
                        }),
                    Err(e) => final(left)@ == old(left)@ && final(right)@ == old(right)@ && (e
                        == RunError::VecMoveError(VecMoveError::NoMatch) ==> (forall|j: int|
                        0 <= j < old(left)@.len() ==> call_ensures(f, (&old(left)@[j],), false))
                        && (forall|j: int|
                        0 <= j < old(right)@.len() ==> call_ensures(
                            f,
                            (&old(right)@[j],),
                            false,
                        ))),
                },
                MultiVecOp::MoveDown(f) => match r {
                    Ok(()) => (exists|idx: int|
                        {
                            &&& 0 <= idx && idx + 1 < old(left)@.len()
                            &&& call_ensures(f, (&old(left)@[idx],), true)
                            &&& final(left)@ == seq_swapped(old(left)@, idx, idx + 1)
                            &&& final(right)@ == old(right)@
                        }) || (exists|idx: int|
                        {
                            &&& 0 <= idx && idx + 1 < old(right)@.len()
                            &&& call_ensures(f, (&old(right)@[idx],), true)
                            &&& final(right)@ == seq_swapped(old(right)@, idx, idx + 1)
                            &&& final(left)@ == old(left)@
                        }),
                    Err(e) => final(left)@ == old(left)@ && final(right)@ == old(right)@ && (e
                        == RunError::VecMoveError(VecMoveError::NoMatch) ==> (forall|j: int|
                        0 <= j < old(left)@.len() ==> call_ensures(f, (&old(left)@[j],), false))
                        && (forall|j: int|
                        0 <= j < old(right)@.len() ==> call_ensures(
                            f,
                            (&old(right)@[j],),
                            false,
                        ))),
                },
            },
    {
        match self {
            MultiVecOp::SingleOp(Side::Left, op) => op.run(left),
            MultiVecOp::SingleOp(Side::Right, op) => op.run(right),
            MultiVecOp::MoveFrom(Side::Left, predicate) => {
                proof {
                    assert forall|k: int| 0 <= k < left@.len() implies call_requires(
                        predicate,
                        (&left@[k],),
                    ) by {}
                }
                match crate::helpers::traits::position_of(left, &predicate) {
                    Some(i) => {
                        let item = left.remove(i);
                        right.push(item);
                        Ok(())
                    },
                    None => Err(RunError::NotFound),
                }
            },
            MultiVecOp::MoveFrom(Side::Right, predicate) => {
                proof {
                    assert forall|k: int| 0 <= k < right@.len() implies call_requires(
                        predicate,
                        (&right@[k],),
                    ) by {}
                }
                match crate::helpers::traits::position_of(right, &predicate) {
                    Some(i) => {
                        let item = right.remove(i);
                        left.push(item);
                        Ok(())
                    },
                    None => Err(RunError::NotFound),
                }
            },
            MultiVecOp::Swap(predicate) => {
                proof {
                    assert forall|k: int| 0 <= k < left@.len() implies call_requires(
                        predicate,
                        (&left@[k],),
                    ) by {}
                    assert forall|k: int| 0 <= k < right@.len() implies call_requires(
                        predicate,
                        (&right@[k],),
                    ) by {}
                }
                match crate::helpers::traits::position_of(left, &predicate) {
                    Some(i) => {
                        let item = left.remove(i);
                        right.push(item);
                        Ok(())
                    },
                    None => {
                        match crate::helpers::traits::position_of(right, &predicate) {
                            Some(i) => {
                                let item = right.remove(i);
                                left.push(item);
                                Ok(())
                            },
                            None => Err(RunError::NotFound),
                        }
                    },
                }
            },
            MultiVecOp::ForEachMut(g) => {
                run_for_each(left, &g);
                run_for_each(right, &g);
                Ok(())
            },
            MultiVecOp::MoveUp(predicate) => {
                match crate::helpers::traits::position_of(left, &predicate) {
                    Some(i) => match left.move_up(i) {
                        Ok(()) => Ok(()),
                        Err(e) => Err(RunError::VecMoveError(e)),
                    },
                    None => match crate::helpers::traits::position_of(right, &predicate) {
                        Some(i) => match right.move_up(i) {
                            Ok(()) => Ok(()),
                            Err(e) => Err(RunError::VecMoveError(e)),
                        },
                        None => Err(RunError::VecMoveError(VecMoveError::NoMatch)),
                    },
                }
            },
            MultiVecOp::MoveDown(predicate) => {
                match crate::helpers::traits::position_of(left, &predicate) {
                    Some(i) => match left.move_down(i) {
                        Ok(()) => Ok(()),
                        Err(e) => Err(RunError::VecMoveError(e)),
                    },
                    None => match crate::helpers::traits::position_of(right, &predicate) {
                        Some(i) => match right.move_down(i) {
                            Ok(()) => Ok(()),
                            Err(e) => Err(RunError::VecMoveError(e)),
                        },
                        None => Err(RunError::VecMoveError(VecMoveError::NoMatch)),
                    },
                }
            },
        }
    }
}

/// Replaces every entry of `vec` by its image under `g`.
fn run_for_each<T, G: Fn(&T) -> T>(vec: &mut Vec<T>, g: &G)
    requires
        forall|k: int| 0 <= k < old(vec)@.len() ==> call_requires(*g, (&old(vec)@[k],)),
    ensures
        final(vec)@.len() == old(vec)@.len(),
        forall|k: int|
            0 <= k < old(vec)@.len() ==> call_ensures(
                *g,
                (&old(vec)@[k],),
                #[trigger] final(vec)@[k],
            ),
{
    let ghost s0 = vec@;
    let mut k: usize = 0;
    while k < vec.len()
        invariant
            k <= vec@.len(),
            vec@.len() == s0.len(),
            forall|j: int| 0 <= j < s0.len() ==> call_requires(*g, (&s0[j],)),
            forall|j: int| k <= j < s0.len() ==> vec@[j] == s0[j],
            forall|j: int| 0 <= j < k ==> call_ensures(*g, (&s0[j],), #[trigger] vec@[j]),
        decreases vec@.len() - k,
    {
        proof {
            assert(vec@[k as int] == s0[k as int]);
        }
        let image = g(&vec[k]);
        vec.set(k, image);
        k = k + 1;
    }
}

} // verus!
