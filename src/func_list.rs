//! A compact list of unary functions, two bits per entry in one `u64`.
//!
//! Each pair of bits encodes one function: `01` square root, `10` factorial,
//! `11` summation; `00` marks a free slot.
use vstd::prelude::*;
use crate::func::Func;

verus! {

/// Most functions one list holds: 64 bits at two bits each.
pub const MAX_FUNCS: usize = 32;

/// Bit `i` of `data`.
pub open spec fn bit_at(data: u64, i: u64) -> bool {
    (data >> i) & 1u64 == 1u64
}

/// The function a pair of bits encodes, if any.
pub open spec fn decode(first: bool, second: bool) -> Option<Func> {
    if !first && second {
        Some(Func::SquareRoot)
    } else if first && !second {
        Some(Func::Factorial)
    } else if first && second {
        Some(Func::Summation)
    } else {
        None
    }
}

/// An ordered list of functions, innermost first.
#[derive(Clone, Copy, Debug)]
pub struct FuncList {
    data: u64,
    len: usize,
}

impl FuncList {
    /// The function stored in slot `i`, if the slot holds one.
    pub closed spec fn slot(self, i: int) -> Option<Func> {
        decode(bit_at(self.data, (2 * i) as u64), bit_at(self.data, (2 * i + 1) as u64))
    }

    #[verifier::type_invariant]
    closed spec fn inv(self) -> bool {
        &&& self.len <= MAX_FUNCS
        &&& forall|i: int| 0 <= i < self.len ==> (#[trigger] self.slot(i)) is Some
    }
}

impl View for FuncList {
    type V = Seq<Func>;

    closed spec fn view(&self) -> Seq<Func> {
        Seq::new(self.len as nat, |i: int| self.slot(i)->0)
    }
}

impl FuncList {
    /// The empty list.
    pub fn new() -> (r: FuncList)
        ensures
            r@ == Seq::<Func>::empty(),
    {
        let r = FuncList { data: 0, len: 0 };
        assert(r@ =~= Seq::<Func>::empty());
        r
    }

    pub fn len(&self) -> (r: usize)
        ensures
            r == self@.len(),
            r <= MAX_FUNCS,
    {
        proof {
            use_type_invariant(self);
        }
        self.len
    }

    fn get_bit(&self, bit_index: usize) -> (r: bool)
        requires
            bit_index < 64,
        ensures
            r == bit_at(self.data, bit_index as u64),
    {
        let mut mask: u64 = 1;
        mask = mask << bit_index;
        let d = self.data;
        let b = bit_index as u64;
        assert((d & (1u64 << b) != 0) == ((d >> b) & 1u64 == 1u64)) by (bit_vector)
            requires
                b < 64,
        ;
        self.data & mask != 0
    }

    fn get_bits(&self, index: usize) -> (r: (bool, bool))
        requires
            index < MAX_FUNCS,
        ensures
            r == (bit_at(self.data, (2 * index) as u64), bit_at(self.data, (2 * index + 1) as u64)),
    {
        (self.get_bit(index * 2), self.get_bit(index * 2 + 1))
    }

    /// Sets one bit past the live entries.
    fn set_bit(&mut self, bit_index: usize, bit: bool)
        requires
            2 * old(self).len <= bit_index < 64,
        ensures
            final(self).len == old(self).len,
            forall|j: u64|
                j < 64 ==> #[trigger] bit_at(final(self).data, j) == if j == bit_index as u64 {
                    bit
                } else {
                    bit_at(old(self).data, j)
                },
    {
        proof {
            use_type_invariant(&*self);
        }
        let ghost before = *self;
        let mut mask: u64 = 1;
        mask = mask << bit_index;
        let d = self.data;
        let b = bit_index as u64;
        let new_data = if bit {
            d | mask
        } else {
            d & !mask
        };
        assert(forall|j: u64|
            j < 64 ==> (((new_data >> j) & 1u64 == 1u64) == if j == b {
                bit
            } else {
                (d >> j) & 1u64 == 1u64
            })) by (bit_vector)
            requires
                b < 64,
                mask == 1u64 << b,
                new_data == if bit {
                    d | mask
                } else {
                    d & !mask
                },
        ;
        let ghost updated = FuncList { data: new_data, len: self.len };
        assert forall|i: int| 0 <= i < self.len implies updated.slot(i) is Some by {
            assert(bit_at(new_data, (2 * i) as u64) == bit_at(d, (2 * i) as u64));
            assert(bit_at(new_data, (2 * i + 1) as u64) == bit_at(d, (2 * i + 1) as u64));
            assert(before.slot(i) is Some);
        }
        *self = FuncList { data: new_data, len: self.len };
    }

    /// Writes the two bits of slot `index`, past the live entries.
    fn set_bits(&mut self, index: usize, first: bool, second: bool)
        requires
            old(self).len <= index < MAX_FUNCS,
        ensures
            final(self).len == old(self).len,
            bit_at(final(self).data, (2 * index) as u64) == first,
            bit_at(final(self).data, (2 * index + 1) as u64) == second,
            forall|j: u64|
                j < 64 && j != 2 * index && j != 2 * index + 1 ==> #[trigger] bit_at(
                    final(self).data,
                    j,
                ) == bit_at(old(self).data, j),
    {
        self.set_bit(index * 2, first);
        self.set_bit(index * 2 + 1, second);
    }

    /// Appends `func` as the new outermost function.
    pub fn push(&mut self, func: Func)
        requires
            old(self)@.len() < MAX_FUNCS,
        ensures
            final(self)@ == old(self)@.push(func),
    {
        proof {
            use_type_invariant(&*self);
        }
        let ghost before = *self;
        let index = self.len;
        match func {
            Func::SquareRoot => self.set_bits(index, false, true),
            Func::Factorial => self.set_bits(index, true, false),
            Func::Summation => self.set_bits(index, true, true),
        }
        assert forall|i: int| 0 <= i < index implies self.slot(i) == before.slot(i) by {
            assert(bit_at(self.data, (2 * i) as u64) == bit_at(before.data, (2 * i) as u64));
            assert(bit_at(self.data, (2 * i + 1) as u64) == bit_at(
                before.data,
                (2 * i + 1) as u64,
            ));
        }
        assert(self.slot(index as int) == Some(func));
        let ghost grown = FuncList { data: self.data, len: (index + 1) as usize };
        assert forall|i: int| 0 <= i < index + 1 implies grown.slot(i) is Some by {
            if i < index {
                assert(before.slot(i) is Some);
            }
        }
        *self = FuncList { data: self.data, len: index + 1 };
        assert(self@ =~= before@.push(func));
    }

    /// The function at `index`, counting from the innermost.
    pub fn get(&self, index: usize) -> (r: Func)
        requires
            index < self@.len(),
        ensures
            r == self@[index as int],
    {
        proof {
            use_type_invariant(self);
        }
        let (first, second) = self.get_bits(index);
        assert(self.slot(index as int) is Some);
        if first {
            if second {
                Func::Summation
            } else {
                Func::Factorial
            }
        } else {
            Func::SquareRoot
        }
    }

    /// Removes and returns the outermost function.
    pub fn pop(&mut self) -> (r: Func)
        requires
            old(self)@.len() > 0,
        ensures
            r == old(self)@.last(),
            final(self)@ == old(self)@.drop_last(),
    {
        proof {
            use_type_invariant(&*self);
        }
        let ghost before = *self;
        let func = self.get(self.len - 1);
        let ghost shrunk = FuncList { data: self.data, len: (self.len - 1) as usize };
        assert forall|i: int| 0 <= i < self.len - 1 implies shrunk.slot(i) is Some by {
            assert(before.slot(i) is Some);
        }
        *self = FuncList { data: self.data, len: self.len - 1 };
        assert(self@ =~= before@.drop_last());
        func
    }

    /// The same functions in the opposite order.
    pub fn reverse(&self) -> (r: FuncList)
        ensures
            r@ == self@.reverse(),
    {
        proof {
            use_type_invariant(self);
        }
        let mut new = FuncList::new();
        let mut i: usize = 0;
        while i < self.len
            invariant
                0 <= i <= self@.len(),
                self@.len() <= MAX_FUNCS,
                self.len == self@.len(),
                new@ == self@.reverse().take(i as int),
            decreases self@.len() - i,
        {
            let back_i = self.len - i - 1;
            new.push(self.get(back_i));
            i = i + 1;
            assert(new@ =~= self@.reverse().take(i as int));
        }
        assert(self@.reverse().take(i as int) =~= self@.reverse());
        new
    }

    /// This list followed by `other`: `other`'s functions apply after these.
    pub fn join(&self, other: &FuncList) -> (r: FuncList)
        requires
            self@.len() + other@.len() <= MAX_FUNCS,
        ensures
            r@ == self@ + other@,
    {
        proof {
            use_type_invariant(other);
        }
        let mut new = *self;
        let mut i: usize = 0;
        while i < other.len
            invariant
                0 <= i <= other@.len(),
                other.len == other@.len(),
                self@.len() + other@.len() <= MAX_FUNCS,
                new@ == self@ + other@.take(i as int),
            decreases other@.len() - i,
        {
            new.push(other.get(i));
            i = i + 1;
            assert(new@ =~= self@ + other@.take(i as int));
        }
        assert(other@.take(i as int) =~= other@);
        new
    }

    /// The functions in order, innermost first.
    pub fn iter(&self) -> (r: Vec<Func>)
        ensures
            r@ == self@,
    {
        proof {
            use_type_invariant(self);
        }
        let mut out: Vec<Func> = Vec::new();
        let mut i: usize = 0;
        while i < self.len
            invariant
                0 <= i <= self@.len(),
                self.len == self@.len(),
                out@ == self@.take(i as int),
            decreases self@.len() - i,
        {
            out.push(self.get(i));
            i = i + 1;
            assert(out@ =~= self@.take(i as int));
        }
        assert(self@.take(i as int) =~= self@);
        out
    }
}

} // verus!
