//! Counting predicates over homogeneous tuples of up to four elements.
use vstd::prelude::*;
use vstd::std_specs::cmp::PartialEqSpec;

verus! {

/// Number of elements of `s` on which `pred` may return `true`.
pub open spec fn num_true<T, F: Fn(T) -> bool>(s: Seq<T>, pred: F) -> nat
    decreases s.len(),
{
    if s.len() == 0 {
        0
    } else {
        num_true(s.drop_last(), pred) + if call_ensures(pred, (s.last(),), true) {
            1nat
        } else {
            0nat
        }
    }
}

/// Number of elements of `s` on which `pred` may return `false`.
pub open spec fn num_false<T, F: Fn(T) -> bool>(s: Seq<T>, pred: F) -> nat
    decreases s.len(),
{
    if s.len() == 0 {
        0
    } else {
        num_false(s.drop_last(), pred) + if call_ensures(pred, (s.last(),), false) {
            1nat
        } else {
            0nat
        }
    }
}

/// Number of elements of `s` that satisfy `c`.
pub open spec fn num_sat<T>(s: Seq<T>, c: spec_fn(T) -> bool) -> nat
    decreases s.len(),
{
    if s.len() == 0 {
        0
    } else {
        num_sat(s.drop_last(), c) + if c(s.last()) {
            1nat
        } else {
            0nat
        }
    }
}

/// Number of elements of `s` equal to `value`, by `T`'s own equality.
pub open spec fn num_eq<T: PartialEq>(s: Seq<T>, value: T) -> nat {
    num_sat(s, equal_to(value))
}

/// Equality with `value`, by `T`'s own equality.
pub open spec fn equal_to<T: PartialEq>(value: T) -> spec_fn(T) -> bool {
    |x: T| x.eq_spec(&value)
}

/// Equality with `a` or with `b`.
pub open spec fn equal_to_either<T: PartialEq>(a: T, b: T) -> spec_fn(T) -> bool {
    |x: T| x.eq_spec(&a) || x.eq_spec(&b)
}

/// Number of elements of `s` equal to `a` or to `b`.
pub open spec fn num_either<T: PartialEq>(s: Seq<T>, a: T, b: T) -> nat {
    num_sat(s, equal_to_either(a, b))
}

/// A `pred` whose answers follow `c` counts as `c` does.
proof fn lemma_pred_follows<T, F: Fn(T) -> bool>(s: Seq<T>, pred: F, c: spec_fn(T) -> bool)
    requires
        forall|x: T, b: bool| call_ensures(pred, (x,), b) ==> b == c(x),
    ensures
        num_true(s, pred) <= num_sat(s, c),
        num_false(s, pred) + num_sat(s, c) <= s.len(),
    decreases s.len(),
{
    if s.len() > 0 {
        lemma_pred_follows(s.drop_last(), pred, c);
    }
}

/// What `at_least_k(pred)` promises: `true` only when `k` elements satisfy
/// `pred`, `false` only when fewer than `k` can.
pub open spec fn at_least_result<T, F: Fn(T) -> bool>(s: Seq<T>, pred: F, k: nat, r: bool) -> bool {
    &&& r ==> num_true(s, pred) >= k
    &&& !r ==> num_false(s, pred) + k > s.len()
}

pub open spec fn total_pred<T, F: Fn(T) -> bool>(pred: F) -> bool {
    forall|x: T| call_requires(pred, (x,))
}

/// Number of `true` values among `bs`.
pub open spec fn count_true(bs: Seq<bool>) -> nat
    decreases bs.len(),
{
    if bs.len() == 0 {
        0
    } else {
        count_true(bs.drop_last()) + if bs.last() {
            1nat
        } else {
            0nat
        }
    }
}

/// The values `bs` are answers of `pred` on the elements `s`, one each.
pub open spec fn answers<T, F: Fn(T) -> bool>(s: Seq<T>, pred: F, bs: Seq<bool>) -> bool {
    &&& bs.len() == s.len()
    &&& forall|i: int| 0 <= i < s.len() ==> call_ensures(pred, (#[trigger] s[i],), bs[i])
}

proof fn lemma_answers_count<T, F: Fn(T) -> bool>(s: Seq<T>, pred: F, bs: Seq<bool>)
    requires
        answers(s, pred, bs),
    ensures
        num_true(s, pred) >= count_true(bs),
        num_false(s, pred) + count_true(bs) >= s.len(),
    decreases s.len(),
{
    if s.len() > 0 {
        let (s0, b0) = (s.drop_last(), bs.drop_last());
        assert(answers(s0, pred, b0)) by {
            assert forall|i: int| 0 <= i < s0.len() implies call_ensures(
                pred,
                (#[trigger] s0[i],),
                b0[i],
            ) by {
                assert(s0[i] == s[i]);
            }
        }
        lemma_answers_count(s0, pred, b0);
        assert(call_ensures(pred, (s[s.len() - 1],), bs[s.len() - 1]));
    }
}

/// Decides `at_least_k` from the answers `bs` of `pred` on the elements.
fn decide(bs: &Vec<bool>, k: usize) -> (r: bool)
    requires
        bs@.len() <= 4,
    ensures
        r == (count_true(bs@) >= k),
{
    let mut n: usize = 0;
    let mut i: usize = 0;
    while i < bs.len()
        invariant
            i <= bs@.len() <= 4,
            n == count_true(bs@.subrange(0, i as int)),
            n <= i,
        decreases bs@.len() - i,
    {
        assert(bs@.subrange(0, i as int + 1).drop_last() == bs@.subrange(0, i as int));
        if bs[i] {
            n = n + 1;
        }
        i = i + 1;
    }
    assert(bs@.subrange(0, bs@.len() as int) == bs@);
    n >= k
}

fn answer_all<T: Copy, F: Fn(T) -> bool>(elems: Vec<T>, pred: &F) -> (bs: Vec<bool>)
    requires
        total_pred::<T, F>(*pred),
        elems@.len() <= 4,
    ensures
        answers(elems@, *pred, bs@),
{
    let mut bs: Vec<bool> = Vec::new();
    let mut i: usize = 0;
    while i < elems.len()
        invariant
            i <= elems@.len() <= 4,
            total_pred::<T, F>(*pred),
            answers(elems@.subrange(0, i as int), *pred, bs@),
        decreases elems@.len() - i,
    {
        let b = pred(elems[i]);
        bs.push(b);
        i = i + 1;
        assert forall|j: int| 0 <= j < i implies call_ensures(
            *pred,
            (#[trigger] elems@.subrange(0, i as int)[j],),
            bs@[j],
        ) by {
            if j < i - 1 {
                assert(elems@.subrange(0, i as int)[j] == elems@.subrange(0, i - 1)[j]);
            }
        }
    }
    assert(elems@.subrange(0, elems@.len() as int) == elems@);
    bs
}

/// Asks `pred` of every element and tells whether at least `k` said `true`.
fn at_least_of<T: Copy, F: Fn(T) -> bool>(elems: Vec<T>, pred: F, k: usize) -> (r: bool)
    requires
        total_pred::<T, F>(pred),
        elems@.len() <= 4,
    ensures
        at_least_result(elems@, pred, k as nat, r),
{
    let ghost s = elems@;
    let bs = answer_all(elems, &pred);
    proof {
        lemma_answers_count(s, pred, bs@);
    }
    decide(&bs, k)
}

fn single<T>(a: T) -> (v: Vec<T>)
    ensures
        v@ == seq![a],
{
    let mut v = Vec::new();
    v.push(a);
    assert(v@ =~= seq![a]);
    v
}

/// When `pred` answers as `c` does, the answer of `at_least_k` is exact.
proof fn lemma_pred_decides<T, F: Fn(T) -> bool>(
    s: Seq<T>,
    pred: F,
    c: spec_fn(T) -> bool,
    k: nat,
    r: bool,
)
    requires
        forall|x: T, b: bool| call_ensures(pred, (x,), b) ==> b == c(x),
        at_least_result(s, pred, k, r),
    ensures
        r == (num_sat(s, c) >= k),
{
    lemma_pred_follows(s, pred, c);
}

/// Predicates that count how many elements of a tuple satisfy a condition.
pub trait TupleMath<T>: Sized {
    /// The elements of the tuple, in order.
    spec fn elems(&self) -> Seq<T>;

    /// Whether at least one element satisfies `pred`.
    fn at_least_1<F: Fn(T) -> bool>(&self, pred: F) -> (r: bool)
        requires
            total_pred(pred),
        ensures
            at_least_result(self.elems(), pred, 1, r),
    ;

    /// Whether at least two elements satisfy `pred`.
    fn at_least_2<F: Fn(T) -> bool>(&self, pred: F) -> (r: bool)
        requires
            total_pred(pred),
        ensures
            at_least_result(self.elems(), pred, 2, r),
    ;

    /// Whether at least three elements satisfy `pred`.
    fn at_least_3<F: Fn(T) -> bool>(&self, pred: F) -> (r: bool)
        requires
            total_pred(pred),
        ensures
            at_least_result(self.elems(), pred, 3, r),
    ;

    /// Whether at least four elements satisfy `pred`.
    fn at_least_4<F: Fn(T) -> bool>(&self, pred: F) -> (r: bool)
        requires
            total_pred(pred),
        ensures
            at_least_result(self.elems(), pred, 4, r),
    ;
}

impl<T: Copy> TupleMath<T> for () {
    open spec fn elems(&self) -> Seq<T> {
        seq![]
    }

    fn at_least_1<F: Fn(T) -> bool>(&self, pred: F) -> (r: bool) {
        false
    }

    fn at_least_2<F: Fn(T) -> bool>(&self, pred: F) -> (r: bool) {
        false
    }

    fn at_least_3<F: Fn(T) -> bool>(&self, pred: F) -> (r: bool) {
        false
    }

    fn at_least_4<F: Fn(T) -> bool>(&self, pred: F) -> (r: bool) {
        false
    }
}

impl<T: Copy> TupleMath<T> for (T,) {
    open spec fn elems(&self) -> Seq<T> {
        seq![self.0]
    }

    fn at_least_1<F: Fn(T) -> bool>(&self, pred: F) -> (r: bool) {
        at_least_of(single(self.0), pred, 1)
    }

    fn at_least_2<F: Fn(T) -> bool>(&self, pred: F) -> (r: bool) {
        at_least_of(single(self.0), pred, 2)
    }

    fn at_least_3<F: Fn(T) -> bool>(&self, pred: F) -> (r: bool) {
        at_least_of(single(self.0), pred, 3)
    }

    fn at_least_4<F: Fn(T) -> bool>(&self, pred: F) -> (r: bool) {
        at_least_of(single(self.0), pred, 4)
    }
}

impl<T: Copy> TupleMath<T> for (T, T) {
    open spec fn elems(&self) -> Seq<T> {
        seq![self.0, self.1]
    }

    fn at_least_1<F: Fn(T) -> bool>(&self, pred: F) -> (r: bool) {
        at_least_of(vec![self.0, self.1], pred, 1)
    }

    fn at_least_2<F: Fn(T) -> bool>(&self, pred: F) -> (r: bool) {
        at_least_of(vec![self.0, self.1], pred, 2)
    }

    fn at_least_3<F: Fn(T) -> bool>(&self, pred: F) -> (r: bool) {
        at_least_of(vec![self.0, self.1], pred, 3)
    }

    fn at_least_4<F: Fn(T) -> bool>(&self, pred: F) -> (r: bool) {
        at_least_of(vec![self.0, self.1], pred, 4)
    }
}

impl<T: Copy> TupleMath<T> for (T, T, T) {
    open spec fn elems(&self) -> Seq<T> {
        seq![self.0, self.1, self.2]
    }

    fn at_least_1<F: Fn(T) -> bool>(&self, pred: F) -> (r: bool) {
        at_least_of(vec![self.0, self.1, self.2], pred, 1)
    }

    fn at_least_2<F: Fn(T) -> bool>(&self, pred: F) -> (r: bool) {
        at_least_of(vec![self.0, self.1, self.2], pred, 2)
    }

    fn at_least_3<F: Fn(T) -> bool>(&self, pred: F) -> (r: bool) {
        at_least_of(vec![self.0, self.1, self.2], pred, 3)
    }

    fn at_least_4<F: Fn(T) -> bool>(&self, pred: F) -> (r: bool) {
        at_least_of(vec![self.0, self.1, self.2], pred, 4)
    }
}

impl<T: Copy> TupleMath<T> for (T, T, T, T) {
    open spec fn elems(&self) -> Seq<T> {
        seq![self.0, self.1, self.2, self.3]
    }

    fn at_least_1<F: Fn(T) -> bool>(&self, pred: F) -> (r: bool) {
        at_least_of(vec![self.0, self.1, self.2, self.3], pred, 1)
    }

    fn at_least_2<F: Fn(T) -> bool>(&self, pred: F) -> (r: bool) {
        at_least_of(vec![self.0, self.1, self.2, self.3], pred, 2)
    }

    fn at_least_3<F: Fn(T) -> bool>(&self, pred: F) -> (r: bool) {
        at_least_of(vec![self.0, self.1, self.2, self.3], pred, 3)
    }

    fn at_least_4<F: Fn(T) -> bool>(&self, pred: F) -> (r: bool) {
        at_least_of(vec![self.0, self.1, self.2, self.3], pred, 4)
    }
}

/// Counting predicates where the condition is equality with given values.
pub trait TupleMathEq<T: Copy + Eq>: TupleMath<T> {

    /// Whether at least one element equals `value`.
    fn at_least_1_eq(&self, value: T) -> (r: bool)
        ensures
            T::obeys_eq_spec() ==> r == (num_eq(self.elems(), value) >= 1),
    {
        let pred = |v: T| -> (b: bool)
            ensures
                T::obeys_eq_spec() ==> b == v.eq_spec(&value),
            { v == value };
        let r = self.at_least_1(pred);
        proof {
            if T::obeys_eq_spec() {
                lemma_pred_decides(self.elems(), pred, equal_to(value), 1, r);
            }
        }
        r
    }

    /// Whether at least two elements equal `value`.
    fn at_least_2_eq(&self, value: T) -> (r: bool)
        ensures
            T::obeys_eq_spec() ==> r == (num_eq(self.elems(), value) >= 2),
    {
        let pred = |v: T| -> (b: bool)
            ensures
                T::obeys_eq_spec() ==> b == v.eq_spec(&value),
            { v == value };
        let r = self.at_least_2(pred);
        proof {
            if T::obeys_eq_spec() {
                lemma_pred_decides(self.elems(), pred, equal_to(value), 2, r);
            }
        }
        r
    }

    /// Whether at least three elements equal `value`.
    fn at_least_3_eq(&self, value: T) -> (r: bool)
        ensures
            T::obeys_eq_spec() ==> r == (num_eq(self.elems(), value) >= 3),
    {
        let pred = |v: T| -> (b: bool)
            ensures
                T::obeys_eq_spec() ==> b == v.eq_spec(&value),
            { v == value };
        let r = self.at_least_3(pred);
        proof {
            if T::obeys_eq_spec() {
                lemma_pred_decides(self.elems(), pred, equal_to(value), 3, r);
            }
        }
        r
    }

    /// Whether at least four elements equal `value`.
    fn at_least_4_eq(&self, value: T) -> (r: bool)
        ensures
            T::obeys_eq_spec() ==> r == (num_eq(self.elems(), value) >= 4),
    {
        let pred = |v: T| -> (b: bool)
            ensures
                T::obeys_eq_spec() ==> b == v.eq_spec(&value),
            { v == value };
        let r = self.at_least_4(pred);
        proof {
            if T::obeys_eq_spec() {
                lemma_pred_decides(self.elems(), pred, equal_to(value), 4, r);
            }
        }
        r
    }

    /// Whether at least one element equals `value1` or `value2`.
    fn at_least_1_is_either_or(&self, value1: T, value2: T) -> (r: bool)
        ensures
            T::obeys_eq_spec() ==> r == (num_either(self.elems(), value1, value2) >= 1),
    {
        let pred = |v: T| -> (b: bool)
            ensures
                T::obeys_eq_spec() ==> b == (v.eq_spec(&value1) || v.eq_spec(&value2)),
            { v == value1 || v == value2 };
        let r = self.at_least_1(pred);
        proof {
            if T::obeys_eq_spec() {
                lemma_pred_decides(self.elems(), pred, equal_to_either(value1, value2), 1, r);
            }
        }
        r
    }

    /// Whether at least two elements equal `value1` or `value2`.
    fn at_least_2_is_either_or(&self, value1: T, value2: T) -> (r: bool)
        ensures
            T::obeys_eq_spec() ==> r == (num_either(self.elems(), value1, value2) >= 2),
    {
        let pred = |v: T| -> (b: bool)
            ensures
                T::obeys_eq_spec() ==> b == (v.eq_spec(&value1) || v.eq_spec(&value2)),
            { v == value1 || v == value2 };
        let r = self.at_least_2(pred);
        proof {
            if T::obeys_eq_spec() {
                lemma_pred_decides(self.elems(), pred, equal_to_either(value1, value2), 2, r);
            }
        }
        r
    }

    /// Whether at least three elements equal `value1` or `value2`.
    fn at_least_3_is_either_or(&self, value1: T, value2: T) -> (r: bool)
        ensures
            T::obeys_eq_spec() ==> r == (num_either(self.elems(), value1, value2) >= 3),
    {
        let pred = |v: T| -> (b: bool)
            ensures
                T::obeys_eq_spec() ==> b == (v.eq_spec(&value1) || v.eq_spec(&value2)),
            { v == value1 || v == value2 };
        let r = self.at_least_3(pred);
        proof {
            if T::obeys_eq_spec() {
                lemma_pred_decides(self.elems(), pred, equal_to_either(value1, value2), 3, r);
            }
        }
        r
    }

    /// Whether at least four elements equal `value1` or `value2`.
    fn at_least_4_is_either_or(&self, value1: T, value2: T) -> (r: bool)
        ensures
            T::obeys_eq_spec() ==> r == (num_either(self.elems(), value1, value2) >= 4),
    {
        let pred = |v: T| -> (b: bool)
            ensures
                T::obeys_eq_spec() ==> b == (v.eq_spec(&value1) || v.eq_spec(&value2)),
            { v == value1 || v == value2 };
        let r = self.at_least_4(pred);
        proof {
            if T::obeys_eq_spec() {
                lemma_pred_decides(self.elems(), pred, equal_to_either(value1, value2), 4, r);
            }
        }
        r
    }
}

impl<T: Copy + Eq> TupleMathEq<T> for () {}

impl<T: Copy + Eq> TupleMathEq<T> for (T,) {}

impl<T: Copy + Eq> TupleMathEq<T> for (T, T) {}

impl<T: Copy + Eq> TupleMathEq<T> for (T, T, T) {}

impl<T: Copy + Eq> TupleMathEq<T> for (T, T, T, T) {}

} // verus!
