//! A value that is either one item or a non-empty list of items.
use vstd::prelude::*;

verus! {

/// Either one value, or a non-empty list of values.
#[derive(Clone, PartialEq, Eq, Debug)]
pub enum OneOrMany<T> {
    One(T),
    Many(Many<T>),
}

/// A non-empty list of values.
#[derive(Clone, PartialEq, Eq, Debug)]
pub struct Many<T>(Vec<T>);

impl<T> OneOrMany<T> {
    /// The values held, in order.
    pub closed spec fn items(&self) -> Seq<T> {
        match self {
            OneOrMany::One(x) => seq![*x],
            OneOrMany::Many(Many(v)) => v@,
        }
    }

    /// Whether this holds a list.
    pub closed spec fn is_many(&self) -> bool {
        self is Many
    }

    /// Well-formedness: a list is never empty.
    pub closed spec fn wf(&self) -> bool {
        match self {
            OneOrMany::One(_) => true,
            OneOrMany::Many(Many(v)) => v@.len() > 0,
        }
    }

    /// A well-formed value holds at least one item.
    pub proof fn lemma_wf_not_empty(&self)
        requires
            self.wf(),
        ensures
            self.items().len() > 0,
    {
    }

    /// Inserting keeps the first item: after `insert`, `first` is the item that was first before.
    pub proof fn law_insert_keeps_first(before: Self, after: Self, value: T)
        requires
            before.wf(),
            after.wf(),
            after.items() == before.items().push(value),
        ensures
            after.items()[0] == before.items()[0],
            after.items().len() == before.items().len() + 1,
    {
    }

    /// Holds one value.
    pub fn one(value: T) -> (r: Self)
        ensures
            r.wf(),
            !r.is_many(),
            r.items() == seq![value],
    {
        OneOrMany::One(value)
    }

    /// Holds a non-empty list of values.
    pub fn many(values: Vec<T>) -> (r: Self)
        requires
            values@.len() > 0,
        ensures
            r.wf(),
            r.is_many(),
            r.items() == values@,
    {
        OneOrMany::Many(Many(values))
    }

    /// The length of the list, or 0 for a single value.
    pub fn len(&self) -> (r: usize)
        ensures
            r == if self.is_many() { self.items().len() } else { 0 },
    {
        match self {
            OneOrMany::One(_) => 0,
            OneOrMany::Many(Many(vec)) => vec.len(),
        }
    }

    /// Adds a value at the end; a single value becomes a list of two.
    pub fn insert(&mut self, value: T)
        requires
            old(self).wf(),
        ensures
            final(self).wf(),
            final(self).is_many(),
            final(self).items() == old(self).items().push(value),
    {
        let mut this = OneOrMany::Many(Many(Vec::new()));
        std::mem::swap(&mut this, self);
        match this {
            OneOrMany::Many(Many(vec)) => {
                let mut vec = vec;
                vec.push(value);
                *self = OneOrMany::Many(Many(vec));
            },
            OneOrMany::One(existing) => {
                let mut vec: Vec<T> = Vec::new();
                vec.push(existing);
                vec.push(value);
                assert(vec@ =~= seq![existing].push(value));
                *self = OneOrMany::Many(Many(vec));
            },
        }
    }

    /// The first value.
    pub fn first(&self) -> (r: &T)
        requires
            self.wf(),
        ensures
            *r == self.items()[0],
    {
        match self {
            OneOrMany::One(x) => x,
            OneOrMany::Many(Many(vec)) => &vec[0],
        }
    }

    /// The first value, to be changed in place.
    pub fn first_mut(&mut self) -> (r: &mut T)
        requires
            old(self).wf(),
        ensures
            *r == old(self).items()[0],
            final(self).wf(),
            final(self).is_many() == old(self).is_many(),
            final(self).items() == old(self).items().update(0, *final(r)),
    {
        match self {
            OneOrMany::One(x) => x,
            OneOrMany::Many(Many(vec)) => &mut vec[0],
        }
    }

    /// The first value, taking ownership.
    pub fn take_first(self) -> (r: T)
        requires
            self.wf(),
        ensures
            r == self.items()[0],
    {
        match self {
            OneOrMany::One(x) => x,
            OneOrMany::Many(Many(vec)) => {
                let mut vec = vec;
                vec.remove(0)
            },
        }
    }

    /// All values, in order.
    pub fn into_vec(self) -> (r: Vec<T>)
        ensures
            r@ == self.items(),
    {
        match self {
            OneOrMany::One(x) => {
                let mut v: Vec<T> = Vec::new();
                v.push(x);
                assert(v@ =~= seq![x]);
                v
            },
            OneOrMany::Many(Many(vec)) => vec,
        }
    }

    /// References to all values, in order.
    pub fn iter(&self) -> (r: Vec<&T>)
        ensures
            r@.len() == self.items().len(),
            forall|i: int| 0 <= i < r@.len() ==> *(#[trigger] r@[i]) == self.items()[i],
    {
        let mut out: Vec<&T> = Vec::new();
        match self {
            OneOrMany::One(x) => {
                out.push(x);
            },
            OneOrMany::Many(Many(vec)) => {
                let mut i: usize = 0;
                while i < vec.len()
                    invariant
                        i <= vec@.len(),
                        out@.len() == i,
                        forall|j: int| 0 <= j < i ==> *(#[trigger] out@[j]) == vec@[j],
                    decreases vec@.len() - i,
                {
                    out.push(&vec[i]);
                    i = i + 1;
                }
            },
        }
        out
    }
}

} // verus!
