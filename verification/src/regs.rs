//! Registers, register classes, sets of registers, and the register universe.

use vstd::prelude::*;

verus! {

/// The number of register classes.
pub const NUM_REG_CLASSES: usize = 5;

/// A class of registers. Registers of different classes never stand in for one another.
#[derive(Clone, Copy, PartialEq, Eq, Structural, Hash, Debug)]
pub enum RegClass {
    I32,
    F32,
    I64,
    F64,
    V128,
}

impl RegClass {
    /// The position of the class in tables that have one entry for each class.
    pub open spec fn rank(self) -> int {
        match self {
            RegClass::I32 => 0,
            RegClass::F32 => 1,
            RegClass::I64 => 2,
            RegClass::F64 => 3,
            RegClass::V128 => 4,
        }
    }

    pub fn rc_to_usize(self) -> (r: usize)
        ensures
            r == self.rank(),
            r < NUM_REG_CLASSES,
    {
        match self {
            RegClass::I32 => 0,
            RegClass::F32 => 1,
            RegClass::I64 => 2,
            RegClass::F64 => 3,
            RegClass::V128 => 4,
        }
    }
}

/// A virtual register: what the client's code names and the allocator replaces.
#[derive(Clone, Copy, PartialEq, Eq, Structural, Hash, Debug)]
pub struct VirtualReg {
    pub class: RegClass,
    pub index: u32,
}

/// A real register. `index` is its position in the register universe, `enc` its hardware encoding.
#[derive(Clone, Copy, PartialEq, Eq, Structural, Hash, Debug)]
pub struct RealReg {
    pub class: RegClass,
    pub enc: u8,
    pub index: u8,
}

/// A register of either kind.
#[derive(Clone, Copy, PartialEq, Eq, Structural, Hash, Debug)]
pub enum Reg {
    Virtual(VirtualReg),
    Real(RealReg),
}

/// A register that the holder may write to.
#[derive(PartialEq, Eq, Hash, Debug)]
pub struct Writable<R> {
    pub reg: R,
}

impl<R: Copy> Clone for Writable<R> {
    fn clone(&self) -> (r: Self)
        ensures
            r == *self,
    {
        *self
    }
}

impl<R: Copy> Copy for Writable<R> {

}

impl VirtualReg {
    pub fn get_class(self) -> (r: RegClass)
        ensures
            r == self.class,
    {
        self.class
    }

    pub fn to_reg(self) -> (r: Reg)
        ensures
            r == Reg::Virtual(self),
    {
        Reg::Virtual(self)
    }
}

impl RealReg {
    pub fn get_index(self) -> (r: usize)
        ensures
            r == self.index,
    {
        self.index as usize
    }
}

impl Writable<RealReg> {
    pub fn from_reg(reg: RealReg) -> (r: Self)
        ensures
            r.reg == reg,
    {
        Writable { reg }
    }

    pub fn to_reg(&self) -> (r: RealReg)
        ensures
            r == self.reg,
    {
        self.reg
    }
}

/// A set of registers.
#[derive(Debug)]
pub struct RegSet {
    pub elems: Vec<Reg>,
}

impl View for RegSet {
    type V = Set<Reg>;

    open spec fn view(&self) -> Set<Reg> {
        self.elems@.to_set()
    }
}

impl RegSet {
    pub fn empty() -> (r: Self)
        ensures
            r@ == Set::<Reg>::empty(),
    {
        let r = RegSet { elems: Vec::new() };
        assert(r@ =~= Set::<Reg>::empty());
        r
    }

    pub fn contains(&self, reg: Reg) -> (r: bool)
        ensures
            r == self@.contains(reg),
    {
        let mut i: usize = 0;
        while i < self.elems.len()
            invariant
                i <= self.elems@.len(),
                forall|j: int| 0 <= j < i ==> self.elems@[j] != reg,
            decreases self.elems@.len() - i,
        {
            if self.elems[i] == reg {
                assert(self.elems@.contains(reg));
                return true;
            }
            i += 1;
        }
        false
    }

    pub fn insert(&mut self, reg: Reg)
        ensures
            final(self)@ == old(self)@.insert(reg),
    {
        if !self.contains(reg) {
            let ghost before = self.elems@;
            self.elems.push(reg);
            proof {
                before.lemma_push_to_set_commute(reg);
            }
        }
        assert(self@ =~= old(self)@.insert(reg));
    }
}

/// A set of real registers.
#[derive(Debug)]
pub struct RealRegSet {
    pub elems: Vec<RealReg>,
}

impl View for RealRegSet {
    type V = Set<RealReg>;

    open spec fn view(&self) -> Set<RealReg> {
        self.elems@.to_set()
    }
}

impl RealRegSet {
    pub fn empty() -> (r: Self)
        ensures
            r@ == Set::<RealReg>::empty(),
    {
        let r = RealRegSet { elems: Vec::new() };
        assert(r@ =~= Set::<RealReg>::empty());
        r
    }

    pub fn contains(&self, reg: RealReg) -> (r: bool)
        ensures
            r == self@.contains(reg),
    {
        let mut i: usize = 0;
        while i < self.elems.len()
            invariant
                i <= self.elems@.len(),
                forall|j: int| 0 <= j < i ==> self.elems@[j] != reg,
            decreases self.elems@.len() - i,
        {
            if self.elems[i] == reg {
                assert(self.elems@.contains(reg));
                return true;
            }
            i += 1;
        }
        false
    }

    pub fn insert(&mut self, reg: RealReg)
        ensures
            final(self)@ == old(self)@.insert(reg),
    {
        if !self.contains(reg) {
            let ghost before = self.elems@;
            self.elems.push(reg);
            proof {
                before.lemma_push_to_set_commute(reg);
            }
        }
        assert(self@ =~= old(self)@.insert(reg));
    }
}

/// The real registers of the machine. The first `allocable` of `regs` are at the allocator's
/// disposal; of these, the ones of each class form the (inclusive) range that
/// `allocable_by_class` gives for it, where the class has any at all.
pub struct RealRegUniverse {
    pub regs: Vec<(RealReg, String)>,
    pub allocable: usize,
    pub allocable_by_class: [Option<(usize, usize)>; 5],
}

impl RealRegUniverse {
    /// The real registers, in the order of the universe.
    pub open spec fn reg_seq(&self) -> Seq<RealReg> {
        self.regs@.map_values(|r: (RealReg, String)| r.0)
    }

    /// The registers at the allocator's disposal that a class may use, by position: an inclusive
    /// range, or nothing if the class has none.
    pub open spec fn class_range(&self, class: RegClass) -> Option<(usize, usize)> {
        self.allocable_by_class@[class.rank()]
    }

    /// The allocable registers are registers of the universe, and those of each class are
    /// allocable.
    pub open spec fn wf(&self) -> bool {
        &&& self.allocable <= self.regs@.len()
        &&& forall|class: RegClass|
            (#[trigger] self.class_range(class)) matches Some((first, last)) ==> first <= last
                ==> last < self.allocable
    }
}

} // verus!
