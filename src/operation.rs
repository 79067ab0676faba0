//! The binary operations that join two sub-expressions.
use vstd::prelude::*;

verus! {

/// A binary operation. The `...Switch` forms take their operands in the
/// opposite order, so a tree never needs a separate argument-order flag:
/// `SubtractSwitch` on `(l, r)` is `r - l`.
#[derive(PartialEq, Eq, Structural, Clone, Copy, Debug)]
pub enum Operation {
    Add,
    Multiply,
    Subtract,
    SubtractSwitch,
    Divide,
    DivideSwitch,
    Power,
    PowerSwitch,
    Root,
    RootSwitch,
}

/// Every operation, in the order the search tries them.
pub open spec fn all_operations() -> Seq<Operation> {
    seq![
        Operation::Add,
        Operation::Multiply,
        Operation::Subtract,
        Operation::SubtractSwitch,
        Operation::Divide,
        Operation::DivideSwitch,
        Operation::Power,
        Operation::PowerSwitch,
        Operation::Root,
        Operation::RootSwitch,
    ]
}

impl Operation {
    /// Power and root operations count toward the score; the others do not.
    pub open spec fn weight(self) -> nat {
        match self {
            Operation::Power | Operation::PowerSwitch | Operation::Root | Operation::RootSwitch => 1,
            _ => 0,
        }
    }

    /// Whether the operation takes its operands in the opposite order.
    pub open spec fn switched(self) -> bool {
        match self {
            Operation::SubtractSwitch | Operation::DivideSwitch | Operation::PowerSwitch
            | Operation::RootSwitch => true,
            _ => false,
        }
    }

    /// The operation that gives the same result with its operands exchanged.
    pub open spec fn mirrored(self) -> Operation {
        match self {
            Operation::Add => Operation::Add,
            Operation::Multiply => Operation::Multiply,
            Operation::Subtract => Operation::SubtractSwitch,
            Operation::SubtractSwitch => Operation::Subtract,
            Operation::Divide => Operation::DivideSwitch,
            Operation::DivideSwitch => Operation::Divide,
            Operation::Power => Operation::PowerSwitch,
            Operation::PowerSwitch => Operation::Power,
            Operation::Root => Operation::RootSwitch,
            Operation::RootSwitch => Operation::Root,
        }
    }

    pub fn score(&self) -> (r: u32)
        ensures
            r == self.weight(),
    {
        match self {
            Operation::Power | Operation::Root | Operation::PowerSwitch | Operation::RootSwitch => 1,
            _ => 0,
        }
    }

    pub fn is_switched(&self) -> (r: bool)
        ensures
            r == self.switched(),
    {
        match self {
            Operation::SubtractSwitch | Operation::DivideSwitch | Operation::PowerSwitch
            | Operation::RootSwitch => true,
            _ => false,
        }
    }

    /// The symbol shown between the operands.
    pub fn symbol(&self) -> (r: String)
        ensures
            r@ == operation_symbol(*self),
    {
        match self {
            Operation::Add => String::from_str("+"),
            Operation::Multiply => String::from_str("*"),
            Operation::Subtract | Operation::SubtractSwitch => String::from_str("-"),
            Operation::Divide | Operation::DivideSwitch => String::from_str("/"),
            Operation::Power | Operation::PowerSwitch => String::from_str("^"),
            Operation::Root | Operation::RootSwitch => String::from_str("√"),
        }
    }

    /// Every operation, in the order the search tries them.
    pub fn all() -> (r: Vec<Operation>)
        ensures
            r@ == all_operations(),
    {
        vec![
            Operation::Add,
            Operation::Multiply,
            Operation::Subtract,
            Operation::SubtractSwitch,
            Operation::Divide,
            Operation::DivideSwitch,
            Operation::Power,
            Operation::PowerSwitch,
            Operation::Root,
            Operation::RootSwitch,
        ]
    }
}

pub open spec fn operation_symbol(op: Operation) -> Seq<char> {
    match op {
        Operation::Add => "+"@,
        Operation::Multiply => "*"@,
        Operation::Subtract | Operation::SubtractSwitch => "-"@,
        Operation::Divide | Operation::DivideSwitch => "/"@,
        Operation::Power | Operation::PowerSwitch => "^"@,
        Operation::Root | Operation::RootSwitch => "√"@,
    }
}

/// Every operation has its mirror among the operations the search tries, with
/// the same symbol and the same weight, and the mirror of the mirror is the
/// operation itself: a shape that fixes the order of two operands loses no
/// expression, since the other order is reached through the mirrored operation.
pub proof fn lemma_mirror_closed(op: Operation)
    ensures
        all_operations().contains(op.mirrored()),
        op.mirrored().mirrored() == op,
        operation_symbol(op.mirrored()) == operation_symbol(op),
        op.mirrored().weight() == op.weight(),
        op.mirrored().switched() == (op.switched() != (op != Operation::Add && op
            != Operation::Multiply)),
{
    let ops = all_operations();
    match op.mirrored() {
        Operation::Add => assert(ops[0] == Operation::Add),
        Operation::Multiply => assert(ops[1] == Operation::Multiply),
        Operation::Subtract => assert(ops[2] == Operation::Subtract),
        Operation::SubtractSwitch => assert(ops[3] == Operation::SubtractSwitch),
        Operation::Divide => assert(ops[4] == Operation::Divide),
        Operation::DivideSwitch => assert(ops[5] == Operation::DivideSwitch),
        Operation::Power => assert(ops[6] == Operation::Power),
        Operation::PowerSwitch => assert(ops[7] == Operation::PowerSwitch),
        Operation::Root => assert(ops[8] == Operation::Root),
        Operation::RootSwitch => assert(ops[9] == Operation::RootSwitch),
    }
}

} // verus!
