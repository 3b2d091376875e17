//! Atomic predicates over the element type.
//!
//! A pattern tests single elements through values of the `Predicate` trait.
//! Every predicate has a mathematical meaning, `holds`, and an executable
//! test that is required to agree with it.

use std::rc::Rc;
use vstd::prelude::*;
use vstd::std_specs::cmp::PartialEqSpec;

verus! {

/// A pure test on one element.
pub trait Predicate<T> {
    /// The predicate can be evaluated on every element and always answers the same.
    spec fn wf(&self) -> bool;

    /// What the predicate says of `x`.
    spec fn holds(&self, x: T) -> bool;

    /// Evaluates the predicate on `x`.
    fn test(&self, x: &T) -> (r: bool)
        requires
            self.wf(),
        ensures
            r == self.holds(*x),
    ;
}

/// A shared, immutable predicate.
pub type Pred<T> = Rc<Box<dyn Predicate<T>>>;

/// The meaning of a shared predicate as a mathematical function.
pub open spec fn pred_fn<T>(p: Pred<T>) -> spec_fn(T) -> bool {
    |x: T| p.holds(x)
}

/// The meaning of the negation of a shared predicate.
pub open spec fn neg_fn<T>(p: Pred<T>) -> spec_fn(T) -> bool {
    |x: T| !p.holds(x)
}

/// `f` accepts every element and cannot answer both ways on the same one.
pub open spec fn pure_fn<T, F: Fn(&T) -> bool>(f: F) -> bool {
    &&& forall|x: T| call_requires(f, (&x,))
    &&& forall|x: T| !(call_ensures(f, (&x,), true) && call_ensures(f, (&x,), false))
}

/// A predicate given by a function or closure.
///
/// The function must accept every element and be deterministic; the
/// predicate holds of `x` when the function cannot answer `false` on it.
pub struct FnPredicate<F> {
    pub f: F,
}

impl<T, F: Fn(&T) -> bool> Predicate<T> for FnPredicate<F> {
    open spec fn wf(&self) -> bool {
        pure_fn::<T, F>(self.f)
    }

    open spec fn holds(&self, x: T) -> bool {
        !call_ensures(self.f, (&x,), false)
    }

    fn test(&self, x: &T) -> (r: bool) {
        (self.f)(x)
    }
}

/// The negation of another predicate.
#[verifier::reject_recursive_types(T)]
pub struct NotPredicate<T> {
    pub inner: Pred<T>,
}

impl<T> Predicate<T> for NotPredicate<T> {
    open spec fn wf(&self) -> bool {
        self.inner.wf()
    }

    open spec fn holds(&self, x: T) -> bool {
        !self.inner.holds(x)
    }

    fn test(&self, x: &T) -> (r: bool) {
        !self.inner.test(x)
    }
}

/// Equality with a fixed value.
pub struct EqualTo<T> {
    pub value: T,
}

impl<T: PartialEq> Predicate<T> for EqualTo<T> {
    open spec fn wf(&self) -> bool {
        T::obeys_eq_spec()
    }

    open spec fn holds(&self, x: T) -> bool {
        x.eq_spec(&self.value)
    }

    fn test(&self, x: &T) -> (r: bool) {
        *x == self.value
    }
}

/// The predicate that holds of every element.
pub struct Always;

impl<T> Predicate<T> for Always {
    open spec fn wf(&self) -> bool {
        true
    }

    open spec fn holds(&self, x: T) -> bool {
        true
    }

    fn test(&self, x: &T) -> (r: bool) {
        true
    }
}

/// Wraps a function as a shared predicate.
pub fn pred_from_fn<T: 'static, F: Fn(&T) -> bool + 'static>(f: F) -> (p: Pred<T>)
    ensures
        p.wf() == pure_fn::<T, F>(f),
        forall|x: T| p.holds(x) == !call_ensures(f, (&x,), false),
{
    let b: Box<dyn Predicate<T>> = Box::new(FnPredicate { f });
    let p = Rc::new(b);
    assert(p.wf() == pure_fn::<T, F>(f));
    assert(forall|x: T| p.holds(x) == !call_ensures(f, (&x,), false));
    p
}

/// The shared predicate that negates `inner`.
pub fn pred_not<T: 'static>(inner: Pred<T>) -> (p: Pred<T>)
    ensures
        p.wf() == inner.wf(),
        pred_fn(p) == neg_fn(inner),
{
    let b: Box<dyn Predicate<T>> = Box::new(NotPredicate { inner });
    let p = Rc::new(b);
    assert(pred_fn(p) =~= neg_fn(inner));
    p
}

/// The shared predicate "equal to `value`".
pub fn pred_equal_to<T: PartialEq + 'static>(value: T) -> (p: Pred<T>)
    ensures
        p.wf() == T::obeys_eq_spec(),
        forall|x: T| p.holds(x) == x.eq_spec(&value),
{
    let b: Box<dyn Predicate<T>> = Box::new(EqualTo { value });
    let p = Rc::new(b);
    assert(p.wf() == T::obeys_eq_spec());
    assert(forall|x: T| p.holds(x) == x.eq_spec(&value));
    p
}

/// The shared predicate that holds of everything.
pub fn pred_always<T: 'static>() -> (p: Pred<T>)
    ensures
        p.wf(),
        forall|x: T| p.holds(x),
{
    let b: Box<dyn Predicate<T>> = Box::new(Always);
    let p = Rc::new(b);
    assert(p.wf());
    assert(forall|x: T| p.holds(x));
    p
}

/// `Rc::clone`: a second handle to the same allocation, so the value behind
/// the new handle is the value behind the old one.
#[verifier::external_body]
pub(crate) fn rc_clone<V>(p: &Rc<V>) -> (r: Rc<V>)
    ensures
        r == *p,
{
    Rc::clone(p)
}

} // verus!

