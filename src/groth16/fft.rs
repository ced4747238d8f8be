//! A polynomial held as its values at a list of indices, so that sums are
//! taken point by point.
use crate::field::z251::{FieldError, Z251};
use vstd::prelude::*;

verus! {

/// One sample: the index it is taken at and the value there.
pub struct Points<P> {
    pub degree: P,
    pub y: P,
}

/// A polynomial as an ordered list of samples.
pub struct PointWise<P> {
    pub points: Vec<Points<P>>,
}

impl<P> View for PointWise<P> {
    type V = Seq<(P, P)>;

    open spec fn view(&self) -> Seq<(P, P)> {
        Seq::new(self.points@.len(), |i: int| (self.points@[i].degree, self.points@[i].y))
    }
}

impl<P> From<(P, P)> for Points<P> {
    fn from(pair: (P, P)) -> (r: Points<P>)
        ensures
            r.degree == pair.0,
            r.y == pair.1,
    {
        let (degree, y) = pair;
        Points { degree, y }
    }
}

impl<P> vstd::std_specs::convert::FromSpecImpl<(P, P)> for Points<P> {
    open spec fn obeys_from_spec() -> bool {
        true
    }

    open spec fn from_spec(pair: (P, P)) -> Points<P> {
        Points { degree: pair.0, y: pair.1 }
    }
}

impl<P> From<Vec<(P, P)>> for PointWise<P> {
    fn from(object: Vec<(P, P)>) -> (r: PointWise<P>)
        ensures
            r@ == object@,
    {
        let ghost orig = object@;
        let mut object = object;
        // pop from the back into `rev`, then pop `rev` to restore the order
        let mut rev: Vec<(P, P)> = Vec::new();
        while object.len() > 0
            invariant
                object@.len() + rev@.len() == orig.len(),
                object@ == orig.take(object@.len() as int),
                forall|i: int| 0 <= i < rev@.len() ==> #[trigger] rev@[i] == orig[orig.len() - 1 - i],
            decreases object@.len(),
        {
            let ghost k = object@.len();
            let p = object.pop().unwrap();
            rev.push(p);
            assert(object@ =~= orig.take(k - 1));
        }
        let mut points: Vec<Points<P>> = Vec::new();
        while rev.len() > 0
            invariant
                points@.len() + rev@.len() == orig.len(),
                forall|i: int| 0 <= i < rev@.len() ==> #[trigger] rev@[i] == orig[orig.len() - 1 - i],
                forall|i: int|
                    0 <= i < points@.len() ==> (#[trigger] points@[i]).degree == orig[i].0
                        && points@[i].y == orig[i].1,
            decreases rev@.len(),
        {
            let (degree, y) = rev.pop().unwrap();
            points.push(Points { degree, y });
        }
        let r = PointWise { points };
        assert(r@ =~= orig);
        r
    }
}

impl<P> vstd::std_specs::convert::FromSpecImpl<Vec<(P, P)>> for PointWise<P> {
    open spec fn obeys_from_spec() -> bool {
        false
    }

    open spec fn from_spec(object: Vec<(P, P)>) -> PointWise<P> {
        arbitrary()
    }
}

/// The two sample lists are taken at the same indices in the same order.
pub open spec fn same_indices(a: Seq<(Z251, Z251)>, b: Seq<(Z251, Z251)>) -> bool {
    &&& a.len() == b.len()
    &&& forall|i: int| 0 <= i < a.len() ==> (#[trigger] a[i]).0 == b[i].0
}

impl PointWise<Z251> {
    /// Point-wise sum. Fails with `MalformedInput` unless both operands are
    /// sampled at the same ordered indices.
    pub fn add(self, rhs: PointWise<Z251>) -> (r: Result<PointWise<Z251>, FieldError>)
        ensures
            !same_indices(self@, rhs@) <==> r == Err::<PointWise<Z251>, FieldError>(
                FieldError::MalformedInput,
            ),
            same_indices(self@, rhs@) ==> r is Ok,
            r is Ok ==> r->Ok_0@.len() == self@.len() && forall|i: int|
                0 <= i < self@.len() ==> #[trigger] r->Ok_0@[i] == (
                    self@[i].0,
                    Z251::of(self@[i].1.val() + rhs@[i].1.val()),
                ),
    {
        let n = self.points.len();
        if n != rhs.points.len() {
            return Err(FieldError::MalformedInput);
        }
        let mut out: Vec<Points<Z251>> = Vec::new();
        let mut i: usize = 0;
        while i < n
            invariant
                i <= n,
                n == self@.len(),
                n == rhs@.len(),
                out@.len() == i,
                forall|k: int| 0 <= k < i ==> (#[trigger] self@[k]).0 == rhs@[k].0,
                forall|k: int|
                    0 <= k < i ==> (#[trigger] out@[k]).degree == self@[k].0 && out@[k].y
                        == Z251::of(self@[k].1.val() + rhs@[k].1.val()),
            decreases n - i,
        {
            let a = &self.points[i];
            let b = &rhs.points[i];
            if a.degree != b.degree {
                assert(self@[i as int].0 == a.degree && rhs@[i as int].0 == b.degree);
                return Err(FieldError::MalformedInput);
            }
            out.push(Points { degree: a.degree, y: a.y.add(b.y) });
            i = i + 1;
        }
        let r = PointWise { points: out };
        assert forall|k: int| 0 <= k < n implies #[trigger] r@[k] == (
            self@[k].0,
            Z251::of(self@[k].1.val() + rhs@[k].1.val()),
        ) by {
            assert(r@[k] == (out@[k].degree, out@[k].y));
        }
        Ok(r)
    }
}

} // verus!
