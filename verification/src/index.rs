//! Typed indices, vectors indexed by them, and ranges of them.

use std::marker::PhantomData;
use vstd::prelude::*;

verus! {

/// An index into one particular kind of table.
pub trait TypedIx: Copy {
    /// The position that the index denotes.
    spec fn pos(self) -> int;

    fn new(n: u32) -> (r: Self)
        ensures
            r.pos() == n,
    ;

    fn get(self) -> (r: u32)
        ensures
            r == self.pos(),
    ;
}

/// Names a basic block.
#[derive(Clone, Copy, PartialEq, Eq, Structural, Hash, Debug)]
pub struct BlockIx {
    pub ix: u32,
}

/// Names an instruction of the function being allocated.
#[derive(Clone, Copy, PartialEq, Eq, Structural, Hash, Debug)]
pub struct InstIx {
    pub ix: u32,
}

/// Names a `RangeFrag` in the fragment environment.
#[derive(Clone, Copy, PartialEq, Eq, Structural, Hash, Debug)]
pub struct RangeFragIx {
    pub ix: u32,
}

/// Names a `VirtualRange` in the virtual-range environment.
#[derive(Clone, Copy, PartialEq, Eq, Structural, Hash, Debug)]
pub struct VirtualRangeIx {
    pub ix: u32,
}

/// Names a `RealRange` in the real-range environment.
#[derive(Clone, Copy, PartialEq, Eq, Structural, Hash, Debug)]
pub struct RealRangeIx {
    pub ix: u32,
}

impl TypedIx for BlockIx {
    open spec fn pos(self) -> int {
        self.ix as int
    }

    fn new(n: u32) -> (r: Self) {
        BlockIx { ix: n }
    }

    fn get(self) -> (r: u32) {
        self.ix
    }
}

impl TypedIx for InstIx {
    open spec fn pos(self) -> int {
        self.ix as int
    }

    fn new(n: u32) -> (r: Self) {
        InstIx { ix: n }
    }

    fn get(self) -> (r: u32) {
        self.ix
    }
}

impl TypedIx for RangeFragIx {
    open spec fn pos(self) -> int {
        self.ix as int
    }

    fn new(n: u32) -> (r: Self) {
        RangeFragIx { ix: n }
    }

    fn get(self) -> (r: u32) {
        self.ix
    }
}

impl TypedIx for VirtualRangeIx {
    open spec fn pos(self) -> int {
        self.ix as int
    }

    fn new(n: u32) -> (r: Self) {
        VirtualRangeIx { ix: n }
    }

    fn get(self) -> (r: u32) {
        self.ix
    }
}

impl TypedIx for RealRangeIx {
    open spec fn pos(self) -> int {
        self.ix as int
    }

    fn new(n: u32) -> (r: Self) {
        RealRangeIx { ix: n }
    }

    fn get(self) -> (r: u32) {
        self.ix
    }
}

impl InstIx {
    /// The index that stands for "no instruction of the source function".
    pub open spec fn spec_invalid() -> InstIx {
        InstIx { ix: u32::MAX }
    }

    pub fn invalid_value() -> (r: InstIx)
        ensures
            r == InstIx::spec_invalid(),
    {
        InstIx { ix: u32::MAX }
    }
}

/// A vector that is indexed by `I` alone.
#[verifier::reject_recursive_types(I)]
pub struct TypedIxVec<I: TypedIx, T> {
    pub vector: Vec<T>,
    pub index_type: PhantomData<I>,
}

impl<I: TypedIx, T> View for TypedIxVec<I, T> {
    type V = Seq<T>;

    open spec fn view(&self) -> Seq<T> {
        self.vector@
    }
}

impl<I: TypedIx, T> TypedIxVec<I, T> {
    pub fn new() -> (r: Self)
        ensures
            r@ == Seq::<T>::empty(),
    {
        TypedIxVec { vector: Vec::new(), index_type: PhantomData }
    }

    pub fn from_vec(vector: Vec<T>) -> (r: Self)
        ensures
            r@ == vector@,
    {
        TypedIxVec { vector, index_type: PhantomData }
    }

    /// The number of entries; an index type cannot name more than `u32::MAX` of them.
    pub fn len(&self) -> (r: u32)
        requires
            self@.len() <= u32::MAX,
        ensures
            r == self@.len(),
    {
        self.vector.len() as u32
    }

    pub fn push(&mut self, item: T)
        ensures
            final(self)@ == old(self)@.push(item),
    {
        self.vector.push(item);
    }

    pub fn at(&self, i: I) -> (r: &T)
        requires
            0 <= i.pos() < self@.len(),
        ensures
            *r == self@[i.pos()],
    {
        &self.vector[i.get() as usize]
    }

    pub fn at_mut(&mut self, i: I) -> (r: &mut T)
        requires
            0 <= i.pos() < old(self)@.len(),
        ensures
            *r == old(self)@[i.pos()],
            final(self)@ == old(self)@.update(i.pos(), *final(r)),
    {
        &mut self.vector[i.get() as usize]
    }
}

/// The indices `first`, `first + 1`, .. of which there are `len`.
#[derive(Debug)]
pub struct IxRange<I> {
    pub first: I,
    pub len: u32,
}

impl<I: TypedIx> IxRange<I> {
    /// One past the last position.
    pub open spec fn end(self) -> int {
        self.first.pos() + self.len
    }

    pub fn new(first: I, len: u32) -> (r: Self)
        ensures
            r.first == first,
            r.len == len,
    {
        IxRange { first, len }
    }

    pub fn start(&self) -> (r: I)
        ensures
            r == self.first,
    {
        self.first
    }

    pub fn len(&self) -> (r: u32)
        ensures
            r == self.len,
    {
        self.len
    }

    pub fn last(&self) -> (r: I)
        requires
            self.len > 0,
            self.end() <= u32::MAX + 1,
        ensures
            r.pos() == self.end() - 1,
    {
        I::new(self.first.get() + (self.len - 1))
    }
}

} // verus!
