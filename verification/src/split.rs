use vstd::prelude::*;

verus! {

/// Splitting a tuple into a left and a right half, used to combine
/// per-storage masks through a balanced binary tree instead of a linear
/// chain, bounding intersection depth logarithmically.
pub trait Split: Sized {
    type Left;

    type Right;

    /// The two halves of the tuple.
    spec fn split_spec(self) -> (Self::Left, Self::Right);

    fn split(self) -> (r: (Self::Left, Self::Right))
        ensures
            r == self.split_spec(),
    ;
}

impl<T0, T1> Split for (T0, T1) {
    type Left = (T0,);

    type Right = (T1,);

    open spec fn split_spec(self) -> ((T0,), (T1,)) {
        ((self.0,), (self.1,))
    }

    fn split(self) -> (r: ((T0,), (T1,))) {
        let (a, b) = self;
        ((a,), (b,))
    }
}

impl<T0, T1, T2> Split for (T0, T1, T2) {
    type Left = (T0,);

    type Right = (T1, T2);

    open spec fn split_spec(self) -> ((T0,), (T1, T2)) {
        ((self.0,), (self.1, self.2))
    }

    fn split(self) -> (r: ((T0,), (T1, T2))) {
        let (a, b, c) = self;
        ((a,), (b, c))
    }
}

impl<T0, T1, T2, T3> Split for (T0, T1, T2, T3) {
    type Left = (T0, T1);

    type Right = (T2, T3);

    open spec fn split_spec(self) -> ((T0, T1), (T2, T3)) {
        ((self.0, self.1), (self.2, self.3))
    }

    fn split(self) -> (r: ((T0, T1), (T2, T3))) {
        let (a, b, c, d) = self;
        ((a, b), (c, d))
    }
}

} // verus!
