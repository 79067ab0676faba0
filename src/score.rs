//! The score of an expression: more numbers, more power and root operations and
//! more functions score higher.
use vstd::prelude::*;
use crate::func::Func;
use crate::func_list::{FuncList, MAX_FUNCS};
use crate::operation::Operation;

verus! {

/// Square roots stacked in a row past this many stop adding to the score.
pub const MAX_CONSECUTIVE_SQUARE_ROOT: u8 = 4;

/// How many numbers a full puzzle gives; using them all earns a bonus point.
pub const ALL_NUMS: u8 = 5;

/// How many of `fs` count toward the score when `run` square roots directly
/// precede them: a square root counts only while its run is at most
/// `MAX_CONSECUTIVE_SQUARE_ROOT` long, any other function always counts.
pub open spec fn counted_funcs(fs: Seq<Func>, run: nat) -> nat
    decreases fs.len(),
{
    if fs.len() == 0 {
        0
    } else if fs[0] == Func::SquareRoot {
        (if run + 1 <= MAX_CONSECUTIVE_SQUARE_ROOT {
            1nat
        } else {
            0nat
        }) + counted_funcs(fs.drop_first(), run + 1)
    } else {
        1 + counted_funcs(fs.drop_first(), 0)
    }
}

pub proof fn lemma_counted_funcs_bound(fs: Seq<Func>, run: nat)
    ensures
        counted_funcs(fs, run) <= fs.len(),
    decreases fs.len(),
{
    if fs.len() > 0 {
        if fs[0] == Func::SquareRoot {
            lemma_counted_funcs_bound(fs.drop_first(), run + 1);
        } else {
            lemma_counted_funcs_bound(fs.drop_first(), 0);
        }
    }
}

/// Functions whose contribution is not settled yet: a run of square roots can
/// continue across the join of two lists.
#[derive(Clone, Copy, Debug)]
pub struct PendingFuncScore {
    pub func_list: FuncList,
}

/// The parts of an expression's score.
#[derive(Clone, Copy, Debug)]
pub struct Score {
    pub nums: u8,
    pub pending_funcs: PendingFuncScore,
    pub funcs: u8,
    pub power_ops: u8,
    pub root_ops: u8,
}

impl Score {
    /// The functions still pending.
    pub open spec fn pending(self) -> Seq<Func> {
        self.pending_funcs.func_list@
    }

    /// The scalar a settled score orders by.
    pub open spec fn value(self) -> nat {
        (self.nums + self.funcs + self.power_ops + self.root_ops + (if self.nums == ALL_NUMS {
            1int
        } else {
            0int
        })) as nat
    }

    /// The score of an expression over `nums` numbers and nothing else.
    pub fn from_nums(nums: usize) -> (r: Self)
        requires
            nums <= u8::MAX,
        ensures
            r.nums == nums,
            r.pending() == Seq::<Func>::empty(),
            r.funcs == 0,
            r.power_ops == 0,
            r.root_ops == 0,
    {
        Self {
            nums: nums as u8,
            pending_funcs: PendingFuncScore { func_list: FuncList::new() },
            funcs: 0,
            power_ops: 0,
            root_ops: 0,
        }
    }

    /// Settles the pending functions into the function count.
    pub fn resolve(self) -> (r: Self)
        requires
            self.funcs + self.pending().len() <= u8::MAX,
        ensures
            r.funcs == self.funcs + counted_funcs(self.pending(), 0),
            r.pending() == Seq::<Func>::empty(),
            r.nums == self.nums,
            r.power_ops == self.power_ops,
            r.root_ops == self.root_ops,
    {
        let mut r = self;
        let fs = self.pending_funcs.func_list.iter();
        let ghost all = self.pending();
        let mut run: u8 = 0;
        let mut i: usize = 0;
        proof {
            lemma_counted_funcs_bound(all, 0);
            assert(all.skip(0) =~= all);
        }
        while i < fs.len()
            invariant
                fs@ == all,
                0 <= i <= all.len(),
                run <= i,
                r.nums == self.nums,
                r.power_ops == self.power_ops,
                r.root_ops == self.root_ops,
                self.funcs + all.len() <= u8::MAX,
                r.funcs + counted_funcs(all.skip(i as int), run as nat) == self.funcs
                    + counted_funcs(all, 0),
                r.funcs <= self.funcs + i,
            decreases all.len() - i,
        {
            let ghost rest = all.skip(i as int);
            assert(rest.drop_first() =~= all.skip(i + 1));
            assert(rest[0] == all[i as int]);
            match fs[i] {
                Func::SquareRoot => {
                    run = run + 1;
                    if run <= MAX_CONSECUTIVE_SQUARE_ROOT {
                        r.funcs = r.funcs + 1;
                    }
                },
                Func::Factorial => {
                    run = 0;
                    r.funcs = r.funcs + 1;
                },
                Func::Summation => {
                    run = 0;
                    r.funcs = r.funcs + 1;
                },
            }
            i = i + 1;
        }
        assert(all.skip(i as int) =~= Seq::<Func>::empty());
        r.pending_funcs = PendingFuncScore { func_list: FuncList::new() };
        r
    }

    /// The scalar this score orders by, with the bonus point for using every
    /// number.
    pub fn score(&self) -> (r: u8)
        requires
            self.pending() == Seq::<Func>::empty(),
            self.value() <= u8::MAX,
        ensures
            r == self.value(),
    {
        let base_score = self.nums + self.funcs + self.power_ops + self.root_ops;
        let num_bonus: u8 = if self.nums == ALL_NUMS {
            1
        } else {
            0
        };
        base_score + num_bonus
    }

    /// Adds `funcs` after the pending functions.
    pub fn add_funcs_list(self, funcs: FuncList) -> (r: Self)
        requires
            self.pending().len() + funcs@.len() <= MAX_FUNCS,
        ensures
            r.pending() == self.pending() + funcs@,
            r.nums == self.nums,
            r.funcs == self.funcs,
            r.power_ops == self.power_ops,
            r.root_ops == self.root_ops,
    {
        let mut r = self;
        r.pending_funcs = PendingFuncScore { func_list: self.pending_funcs.func_list.join(&funcs) };
        r
    }

    /// Counts one more use of `op` where it is a power or a root.
    pub fn add_op(self, op: Operation) -> (r: Self)
        requires
            self.power_ops < u8::MAX,
            self.root_ops < u8::MAX,
        ensures
            r.nums == self.nums,
            r.pending() == self.pending(),
            r.funcs == self.funcs,
            r.power_ops == self.power_ops + (if op == Operation::Power || op
                == Operation::PowerSwitch {
                1int
            } else {
                0int
            }),
            r.root_ops == self.root_ops + (if op == Operation::Root || op == Operation::RootSwitch {
                1int
            } else {
                0int
            }),
    {
        let mut r = self;
        match op {
            Operation::Power => r.power_ops = r.power_ops + 1,
            Operation::PowerSwitch => r.power_ops = r.power_ops + 1,
            Operation::Root => r.root_ops = r.root_ops + 1,
            Operation::RootSwitch => r.root_ops = r.root_ops + 1,
            _ => {},
        }
        r
    }

    /// The score of two parts together; the pending functions of `other` follow
    /// those of `self`.
    pub fn combine(self, other: Score) -> (r: Score)
        requires
            self.nums + other.nums <= u8::MAX,
            self.funcs + other.funcs <= u8::MAX,
            self.power_ops + other.power_ops <= u8::MAX,
            self.root_ops + other.root_ops <= u8::MAX,
            self.pending().len() + other.pending().len() <= MAX_FUNCS,
        ensures
            r.nums == self.nums + other.nums,
            r.funcs == self.funcs + other.funcs,
            r.power_ops == self.power_ops + other.power_ops,
            r.root_ops == self.root_ops + other.root_ops,
            r.pending() == self.pending() + other.pending(),
    {
        Score {
            nums: self.nums + other.nums,
            pending_funcs: PendingFuncScore {
                func_list: self.pending_funcs.func_list.join(&other.pending_funcs.func_list),
            },
            funcs: self.funcs + other.funcs,
            power_ops: self.power_ops + other.power_ops,
            root_ops: self.root_ops + other.root_ops,
        }
    }
}

} // verus!
