//! A field that holds nothing, one value, or a list of values.

use vstd::prelude::*;

verus! {

/// Nothing, one value, or many values.
#[derive(Debug, Clone)]
pub enum Many<T> {
    NoOne,
    One(T),
    Many(Vec<T>),
}

impl<T> View for Many<T> {
    type V = Seq<T>;

    open spec fn view(&self) -> Seq<T> {
        match self {
            Many::NoOne => Seq::empty(),
            Many::One(v) => seq![*v],
            Many::Many(v) => v@,
        }
    }
}

impl<T> Many<T> {
    pub fn is_empty(&self) -> (r: bool)
        ensures
            r == (self@.len() == 0),
    {
        match self {
            Many::NoOne => true,
            Many::One(_) => false,
            Many::Many(vec) => vec.len() == 0,
        }
    }

    /// References to the values, in order.
    pub fn iter(&self) -> (r: Vec<&T>)
        ensures
            r@.len() == self@.len(),
            forall|i: int| 0 <= i < r@.len() ==> *#[trigger] r@[i] == self@[i],
    {
        let mut r: Vec<&T> = Vec::new();
        match self {
            Many::NoOne => {},
            Many::One(v) => {
                r.push(v);
            },
            Many::Many(vec) => {
                let mut i: usize = 0;
                while i < vec.len()
                    invariant
                        i <= vec@.len(),
                        r@.len() == i,
                        forall|j: int| 0 <= j < i ==> *#[trigger] r@[j] == vec@[j],
                    decreases vec@.len() - i,
                {
                    r.push(&vec[i]);
                    i = i + 1;
                }
            },
        }
        r
    }

    /// The values as a vector, in order.
    pub fn into_vec(self) -> (r: Vec<T>)
        ensures
            r@ == self@,
    {
        match self {
            Many::NoOne => Vec::new(),
            Many::One(v) => {
                let mut r = Vec::new();
                r.push(v);
                r
            },
            Many::Many(vec) => vec,
        }
    }
}

impl<T> Default for Many<T> {
    fn default() -> (r: Many<T>)
        ensures
            r@.len() == 0,
    {
        Many::NoOne
    }
}

} // verus!
