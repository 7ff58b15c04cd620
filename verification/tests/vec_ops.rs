use rimrs::helpers::vec_ops::{MultiVecOp, RunError, VecOp};
use rimrs::helpers::Side;

type Pred<T> = fn(&T) -> bool;
type Mapper<T> = fn(&T) -> T;
type IntOp = VecOp<i32, Pred<i32>, Mapper<i32>>;
type StrOp<'a> = VecOp<&'a str, Pred<&'a str>, Mapper<&'a str>>;
type IntMulti = MultiVecOp<i32, Pred<i32>, Mapper<i32>>;
type StrMulti<'a> = MultiVecOp<&'a str, Pred<&'a str>, Mapper<&'a str>>;

#[test]
fn swap() {
    let mut a = vec![1, 2, 3];
    let op: IntOp = VecOp::Swap(0, 2);
    op.run(&mut a).unwrap();
    assert_eq!(a, vec![3, 2, 1]);
}

#[test]
fn swap_out_of_bounds() {
    let mut a = vec![1, 2, 3];
    let op: IntOp = VecOp::Swap(0, 3);
    let err = op.run(&mut a).unwrap_err();
    assert_eq!(err, RunError::IndexOutOfBounds);
}

#[test]
fn push() {
    let mut a = vec![1, 2, 3];
    let op: IntOp = VecOp::Push(4);
    op.run(&mut a).unwrap();
    assert_eq!(a, vec![1, 2, 3, 4]);
}

#[test]
fn remove() {
    let mut a = vec!["a", "b", "c"];
    let op: StrOp = VecOp::Remove(1);
    op.run(&mut a).unwrap();
    assert_eq!(a, vec!["a", "c"]);
}

#[test]
fn for_each_mut_single() {
    let mut a = vec![4, 1, 13];
    let op: IntOp = VecOp::ForEachMut(|x: &i32| *x + 2);
    op.run(&mut a).unwrap();
    assert_eq!(a, vec![6, 3, 15]);
}

#[test]
fn single_op_left() {
    let mut a = vec!["a", "b", "c"];
    let mut b = vec!["d", "e"];
    let op: StrMulti = MultiVecOp::SingleOp(Side::Left, VecOp::Remove(1));
    op.run(&mut a, &mut b).unwrap();
    assert_eq!(a, vec!["a", "c"]);
}

#[test]
fn single_op_right() {
    let mut a = vec!["a", "b", "c"];
    let mut b = vec!["d", "e"];
    let op: StrMulti = MultiVecOp::SingleOp(Side::Right, VecOp::Remove(1));
    op.run(&mut a, &mut b).unwrap();
    assert_eq!(b, vec!["d"]);
}

#[test]
fn move_from_left() {
    let mut a = vec!["a", "b", "c"];
    let mut b = vec!["d", "e"];
    let op: StrMulti = MultiVecOp::MoveFrom(Side::Left, |s: &&str| *s == "b");
    op.run(&mut a, &mut b).unwrap();
    assert_eq!(a, vec!["a", "c"]);
    assert_eq!(b, vec!["d", "e", "b"]);
}

#[test]
fn move_from_right() {
    let mut a = vec!["a", "b", "c"];
    let mut b = vec!["d", "e"];
    let op: StrMulti = MultiVecOp::MoveFrom(Side::Right, |s: &&str| *s == "e");
    op.run(&mut a, &mut b).unwrap();
    assert_eq!(a, vec!["a", "b", "c", "e"]);
    assert_eq!(b, vec!["d"]);
}

#[test]
fn move_from_failing() {
    let mut a = vec!["a", "b", "c"];
    let mut b = vec!["d", "e"];
    let op: StrMulti = MultiVecOp::MoveFrom(Side::Left, |s: &&str| *s == "e");
    let err = op.run(&mut a, &mut b).unwrap_err();
    assert_eq!(err, RunError::NotFound);
}

#[test]
fn swap_from_left() {
    let mut a = vec!["a", "b", "c"];
    let mut b = vec!["d", "e"];
    let op: StrMulti = MultiVecOp::Swap(|s: &&str| *s == "c");
    op.run(&mut a, &mut b).unwrap();
    assert_eq!(a, vec!["a", "b"]);
    assert_eq!(b, vec!["d", "e", "c"]);
}

#[test]
fn swap_from_right() {
    let mut a = vec!["a", "b", "c"];
    let mut b = vec!["d", "e", "g", "h"];
    let op: StrMulti = MultiVecOp::Swap(|s: &&str| *s == "g");
    op.run(&mut a, &mut b).unwrap();
    assert_eq!(a, vec!["a", "b", "c", "g"]);
    assert_eq!(b, vec!["d", "e", "h"]);
}

#[test]
fn swap_not_found() {
    let mut a = vec!["a", "b", "c"];
    let mut b = vec!["d", "e"];
    let op: StrMulti = MultiVecOp::Swap(|s: &&str| *s == "lol");
    let err = op.run(&mut a, &mut b).unwrap_err();
    assert_eq!(err, RunError::NotFound);
}

#[test]
fn swap_with_predicate_from_factory() {
    fn matches<'a, T: PartialEq>(val: &'a T) -> Box<dyn Fn(&'_ T) -> bool + 'a> {
        Box::new(move |x: &T| x == val)
    }
    let matches_12 = matches(&12);

    let mut a = vec![5, 32, 23, 9];
    let mut b = vec![9, 7, 12, 19];

    let op: MultiVecOp<i32, Box<dyn Fn(&i32) -> bool + '_>, Mapper<i32>> = MultiVecOp::Swap(
        matches_12,
    );
    op.run(&mut a, &mut b).unwrap();
    assert_eq!(a, vec![5, 32, 23, 9, 12]);
    assert_eq!(b, vec![9, 7, 19]);
}

#[test]
fn swap_with_fn_predicate() {
    fn matches_12(x: &i32) -> bool {
        *x == 12
    }

    let mut a = vec![5, 32, 23, 9];
    let mut b = vec![9, 7, 12, 19];

    let op: IntMulti = MultiVecOp::Swap(matches_12);
    op.run(&mut a, &mut b).unwrap();
    assert_eq!(a, vec![5, 32, 23, 9, 12]);
    assert_eq!(b, vec![9, 7, 19]);
}

#[test]
fn for_each_mut_multi() {
    let mut a = vec![5, 32, 23, 9];
    let mut b = vec![9, 7, 12, 19];

    let op: IntMulti = MultiVecOp::ForEachMut(|x: &i32| *x * 2);
    op.run(&mut a, &mut b).unwrap();
    assert_eq!(a, vec![10, 64, 46, 18]);
    assert_eq!(b, vec![18, 14, 24, 38]);
}

#[test]
fn move_up_multi() {
    let mut a = vec!["a", "b", "c"];
    let mut b = vec!["d", "e", "f"];
    let op: StrMulti = MultiVecOp::MoveUp(|item: &&str| *item == "b");
    op.run(&mut a, &mut b).unwrap();
    assert_eq!(a, vec!["b", "a", "c"]);
    assert_eq!(b, vec!["d", "e", "f"]);
}

#[test]
fn move_down_multi_exclref() {
    let mut a = vec!["a", "b", "c"];
    let mut b = vec!["d", "e", "f"];
    let op: StrMulti = MultiVecOp::MoveDown(|item: &&str| *item == "e");
    op.run(&mut a, &mut b).unwrap();
    assert_eq!(a, vec!["a", "b", "c"]);
    assert_eq!(b, vec!["d", "f", "e"]);
}
