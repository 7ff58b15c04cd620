//! Reordering operations for vectors: moving entries up and down by index,
//! by distance, or by predicate.

use vstd::prelude::*;

verus! {

/// Failure cases for the vector-reordering helpers.
#[derive(Debug, Clone, Copy, PartialEq, Eq, Structural)]
pub enum VecMoveError {
    IndexOutOfBounds,
    NoMatch,
}

/// The sequence with the entries at `i` and `j` exchanged.
pub open spec fn seq_swapped<T>(s: Seq<T>, i: int, j: int) -> Seq<T> {
    s.update(i, s[j]).update(j, s[i])
}

/// The sequence with the entry at `i` moved up to `i - n`, shifting the
/// entries in between down by one.
pub open spec fn seq_rot_up<T>(s: Seq<T>, i: int, n: int) -> Seq<T> {
    Seq::new(
        s.len(),
        |k: int|
            if k < i - n || k > i {
                s[k]
            } else if k == i - n {
                s[i]
            } else {
                s[k - 1]
            },
    )
}

/// The sequence with the entry at `i` moved down to `i + n`, shifting the
/// entries in between up by one.
pub open spec fn seq_rot_down<T>(s: Seq<T>, i: int, n: int) -> Seq<T> {
    Seq::new(
        s.len(),
        |k: int|
            if k < i || k > i + n {
                s[k]
            } else if k == i + n {
                s[i]
            } else {
                s[k + 1]
            },
    )
}

/// Moving single entries of a sequence-like container up or down.
pub trait Mover<T>: Sized {
    spec fn mseq(&self) -> Seq<T>;

    /// Swaps the entries at `i` and `i - 1`; out-of-range indices are
    /// rejected instead of panicking.
    fn move_up(&mut self, i: usize) -> (r: Result<(), VecMoveError>)
        ensures
            if 1 <= i < old(self).mseq().len() {
                r == Ok::<(), VecMoveError>(()) && final(self).mseq() == seq_swapped(
                    old(self).mseq(),
                    i as int,
                    i - 1,
                )
            } else {
                r == Err::<(), VecMoveError>(VecMoveError::IndexOutOfBounds) && final(self).mseq()
                    == old(self).mseq()
            },
    ;

    /// Swaps the entries at `i` and `i + 1`; out-of-range indices are
    /// rejected instead of panicking.
    fn move_down(&mut self, i: usize) -> (r: Result<(), VecMoveError>)
        ensures
            if i + 1 < old(self).mseq().len() {
                r == Ok::<(), VecMoveError>(()) && final(self).mseq() == seq_swapped(
                    old(self).mseq(),
                    i as int,
                    i + 1,
                )
            } else {
                r == Err::<(), VecMoveError>(VecMoveError::IndexOutOfBounds) && final(self).mseq()
                    == old(self).mseq()
            },
    ;

    /// Moves the entry at `i` up by `n` places.
    fn move_up_n(&mut self, i: usize, n: usize) -> (r: Result<(), VecMoveError>)
        ensures
            if i < old(self).mseq().len() && n <= i {
                r == Ok::<(), VecMoveError>(()) && final(self).mseq() == seq_rot_up(
                    old(self).mseq(),
                    i as int,
                    n as int,
                )
            } else {
                r == Err::<(), VecMoveError>(VecMoveError::IndexOutOfBounds) && final(self).mseq()
                    == old(self).mseq()
            },
    ;

    /// Moves the entry at `i` down by `n` places.
    fn move_down_n(&mut self, i: usize, n: usize) -> (r: Result<(), VecMoveError>)
        ensures
            if i + n < old(self).mseq().len() {
                r == Ok::<(), VecMoveError>(()) && final(self).mseq() == seq_rot_down(
                    old(self).mseq(),
                    i as int,
                    n as int,
                )
            } else {
                r == Err::<(), VecMoveError>(VecMoveError::IndexOutOfBounds) && final(self).mseq()
                    == old(self).mseq()
            },
    ;
}

/// Moving the first predicate-matching entry of a container up or down.
pub trait MoverMatcher<T>: Mover<T> {
    /// Moves the first entry matching `predicate` one place up.
    fn move_match_up<F: Fn(&T) -> bool>(&mut self, predicate: F) -> (r: Result<(), VecMoveError>)
        requires
            forall|k: int|
                0 <= k < old(self).mseq().len() ==> call_requires(
                    predicate,
                    (&old(self).mseq()[k],),
                ),
        ensures
            match r {
                Ok(()) => exists|idx: int|
                    {
                        &&& 0 < idx < old(self).mseq().len()
                        &&& call_ensures(predicate, (&old(self).mseq()[idx],), true)
                        &&& (forall|j: int|
                            0 <= j < idx ==> call_ensures(
                                predicate,
                                (&old(self).mseq()[j],),
                                false,
                            ))
                        &&& final(self).mseq() == seq_swapped(old(self).mseq(), idx, idx - 1)
                    },
                Err(e) => final(self).mseq() == old(self).mseq() && (e == VecMoveError::NoMatch
                    ==> forall|j: int|
                    0 <= j < old(self).mseq().len() ==> call_ensures(
                        predicate,
                        (&old(self).mseq()[j],),
                        false,
                    )) && (e == VecMoveError::IndexOutOfBounds ==> old(self).mseq().len() > 0
                    && call_ensures(predicate, (&old(self).mseq()[0],), true)),
            },
    ;

    /// Moves the first entry matching `predicate` one place down.
    fn move_match_down<F: Fn(&T) -> bool>(&mut self, predicate: F) -> (r: Result<(), VecMoveError>)
        requires
            forall|k: int|
                0 <= k < old(self).mseq().len() ==> call_requires(
                    predicate,
                    (&old(self).mseq()[k],),
                ),
        ensures
            match r {
                Ok(()) => exists|idx: int|
                    {
                        &&& 0 <= idx && idx + 1 < old(self).mseq().len()
                        &&& call_ensures(predicate, (&old(self).mseq()[idx],), true)
                        &&& (forall|j: int|
                            0 <= j < idx ==> call_ensures(
                                predicate,
                                (&old(self).mseq()[j],),
                                false,
                            ))
                        &&& final(self).mseq() == seq_swapped(old(self).mseq(), idx, idx + 1)
                    },
                Err(e) => final(self).mseq() == old(self).mseq() && (e == VecMoveError::NoMatch
                    ==> forall|j: int|
                    0 <= j < old(self).mseq().len() ==> call_ensures(
                        predicate,
                        (&old(self).mseq()[j],),
                        false,
                    )) && (e == VecMoveError::IndexOutOfBounds ==> old(self).mseq().len() > 0
                    && call_ensures(
                    predicate,
                    (&old(self).mseq()[old(self).mseq().len() - 1],),
                    true,
                )),
            },
    ;
}

/// Exchanges the entries of `v` at `a` and `b`.
pub fn vec_swap<T>(v: &mut Vec<T>, a: usize, b: usize)
    requires
        a < old(v).len(),
        b < old(v).len(),
    ensures
        final(v)@ == seq_swapped(old(v)@, a as int, b as int),
{
    if a < b {
        let y = v.remove(b);
        let x = v.remove(a);
        v.insert(a, y);
        v.insert(b, x);
        assert(v@ =~= seq_swapped(old(v)@, a as int, b as int));
    } else if b < a {
        let y = v.remove(a);
        let x = v.remove(b);
        v.insert(b, y);
        v.insert(a, x);
        assert(v@ =~= seq_swapped(old(v)@, a as int, b as int));
    } else {
        assert(v@ =~= seq_swapped(old(v)@, a as int, b as int));
    }
}

/// Finds the first index whose entry satisfies `f`.
pub fn position_of<T, F: Fn(&T) -> bool>(v: &Vec<T>, f: &F) -> (r: Option<usize>)
    requires
        forall|k: int| 0 <= k < v@.len() ==> call_requires(*f, (&v@[k],)),
    ensures
        match r {
            Some(i) => i < v@.len() && call_ensures(*f, (&v@[i as int],), true) && forall|j: int|
                0 <= j < i ==> call_ensures(*f, (&v@[j],), false),
            None => forall|j: int| 0 <= j < v@.len() ==> call_ensures(*f, (&v@[j],), false),
        },
{
    let mut i: usize = 0;
    while i < v.len()
        invariant
            i <= v.len(),
            forall|k: int| 0 <= k < v@.len() ==> call_requires(*f, (&v@[k],)),
            forall|j: int| 0 <= j < i ==> call_ensures(*f, (&v@[j],), false),
        decreases v.len() - i,
    {
        if f(&v[i]) {
            return Some(i);
        }
        i = i + 1;
    }
    None
}

impl<T> Mover<T> for Vec<T> {
    open spec fn mseq(&self) -> Seq<T> {
        self@
    }

    fn move_up(&mut self, i: usize) -> (r: Result<(), VecMoveError>) {
        if i == 0 || i >= self.len() {
            return Err(VecMoveError::IndexOutOfBounds);
        }
        vec_swap(self, i, i - 1);
        Ok(())
    }

    fn move_down(&mut self, i: usize) -> (r: Result<(), VecMoveError>) {
        if self.len() == 0 || i >= self.len() - 1 {
            return Err(VecMoveError::IndexOutOfBounds);
        }
        vec_swap(self, i, i + 1);
        Ok(())
    }

    fn move_up_n(&mut self, i: usize, n: usize) -> (r: Result<(), VecMoveError>) {
        if i >= self.len() || n > i {
            return Err(VecMoveError::IndexOutOfBounds);
        }
        let ghost s0 = self@;
        let mut j: usize = 0;
        proof {
            assert(self@ =~= seq_rot_up(s0, i as int, 0));
        }
        while j < n
            invariant
                j <= n,
                n <= i,
                i < self@.len(),
                self@.len() == s0.len(),
                self@ == seq_rot_up(s0, i as int, j as int),
            decreases n - j,
        {
            let ghost pre = self@;
            vec_swap(self, i - j, i - j - 1);
            proof {
                assert(self@ =~= seq_rot_up(s0, i as int, j + 1));
            }
            j = j + 1;
        }
        Ok(())
    }

    fn move_down_n(&mut self, i: usize, n: usize) -> (r: Result<(), VecMoveError>) {
        if i >= self.len() || n >= self.len() - i {
            return Err(VecMoveError::IndexOutOfBounds);
        }
        let len = self.len();
        let ghost s0 = self@;
        let mut j: usize = 0;
        proof {
            assert(self@ =~= seq_rot_down(s0, i as int, 0));
        }
        while j < n
            invariant
                j <= n,
                i + n < len,
                len == self@.len(),
                self@.len() == s0.len(),
                self@ == seq_rot_down(s0, i as int, j as int),
            decreases n - j,
        {
            let ghost pre = self@;
            vec_swap(self, i + j, i + j + 1);
            proof {
                assert(self@ =~= seq_rot_down(s0, i as int, j + 1));
            }
            j = j + 1;
        }
        Ok(())
    }
}

impl<T> MoverMatcher<T> for Vec<T> {
    fn move_match_up<F: Fn(&T) -> bool>(&mut self, predicate: F) -> (r: Result<(), VecMoveError>) {
        proof {
            assert forall|k: int| 0 <= k < self@.len() implies call_requires(
                predicate,
                (&self@[k],),
            ) by {
                assert(call_requires(predicate, (&old(self).mseq()[k],)));
            }
        }
        let i = match position_of(self, &predicate) {
            Some(i) => i,
            None => {
                return Err(VecMoveError::NoMatch);
            },
        };
        self.move_up(i)
    }

    fn move_match_down<F: Fn(&T) -> bool>(&mut self, predicate: F) -> (r: Result<
        (),
        VecMoveError,
    >) {
        proof {
            assert forall|k: int| 0 <= k < self@.len() implies call_requires(
                predicate,
                (&self@[k],),
            ) by {
                assert(call_requires(predicate, (&old(self).mseq()[k],)));
            }
        }
        let i = match position_of(self, &predicate) {
            Some(i) => i,
            None => {
                return Err(VecMoveError::NoMatch);
            },
        };
        self.move_down(i)
    }
}

} // verus!
