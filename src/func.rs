//! The unary functions that can be stacked on any value of an expression.
use vstd::prelude::*;

verus! {

/// A unary post-function applied to the value of an expression node.
#[derive(PartialEq, Eq, Structural, Clone, Copy, Debug)]
pub enum Func {
    SquareRoot,
    Factorial,
    Summation,
}

/// The unary functions under their other name.
pub type Function = Func;

/// Largest argument the factorial table covers: 18! exceeds the magnitude bound.
pub const MAX_FACTORIAL_ARG: u64 = 17;

/// `n!` as a mathematical integer.
pub open spec fn fact(n: nat) -> nat
    decreases n,
{
    if n == 0 {
        1
    } else {
        n * fact((n - 1) as nat)
    }
}

/// The factorials `0!` through `17!`, in order.
pub open spec fn factorial_table() -> Seq<u64> {
    seq![
        1u64, 1, 2, 6, 24, 120, 720, 5040, 40320, 362880, 3628800, 39916800, 479001600,
        6227020800, 87178291200, 1307674368000, 20922789888000, 355687428096000,
    ]
}

/// `n!` where the table covers `n`; `None` past it.
pub open spec fn factorial_spec(n: nat) -> Option<nat> {
    if n <= MAX_FACTORIAL_ARG {
        Some(fact(n))
    } else {
        None
    }
}

/// The first argument from `from` on, within the table, whose factorial is `m`.
pub open spec fn factorial_search(m: nat, from: nat) -> Option<nat>
    decreases MAX_FACTORIAL_ARG + 1 - from,
{
    if from > MAX_FACTORIAL_ARG {
        None
    } else if fact(from) == m {
        Some(from)
    } else {
        factorial_search(m, from + 1)
    }
}

/// The smallest argument whose factorial is `m` (`0! == 1! == 1` gives 0).
pub open spec fn factorial_inverse_spec(m: nat) -> Option<nat> {
    factorial_search(m, 0)
}

proof fn lemma_table_is_factorials()
    ensures
        factorial_table().len() == MAX_FACTORIAL_ARG + 1,
        forall|n: int| 0 <= n <= MAX_FACTORIAL_ARG ==> factorial_table()[n] == fact(n as nat),
{
    assert(fact(0) == 1) by {
        reveal_with_fuel(fact, 1);
    }
    assert(fact(1) == 1) by {
        reveal_with_fuel(fact, 1);
    }
    assert(fact(2) == 2) by {
        reveal_with_fuel(fact, 1);
    }
    assert(fact(3) == 6) by {
        reveal_with_fuel(fact, 1);
    }
    assert(fact(4) == 24) by {
        reveal_with_fuel(fact, 1);
    }
    assert(fact(5) == 120) by {
        reveal_with_fuel(fact, 1);
    }
    assert(fact(6) == 720) by {
        reveal_with_fuel(fact, 1);
    }
    assert(fact(7) == 5040) by {
        reveal_with_fuel(fact, 1);
    }
    assert(fact(8) == 40320) by {
        reveal_with_fuel(fact, 1);
    }
    assert(fact(9) == 362880) by {
        reveal_with_fuel(fact, 1);
    }
    assert(fact(10) == 3628800) by {
        reveal_with_fuel(fact, 1);
    }
    assert(fact(11) == 39916800) by {
        reveal_with_fuel(fact, 1);
    }
    assert(fact(12) == 479001600) by {
        reveal_with_fuel(fact, 1);
    }
    assert(fact(13) == 6227020800) by {
        reveal_with_fuel(fact, 1);
    }
    assert(fact(14) == 87178291200) by {
        reveal_with_fuel(fact, 1);
    }
    assert(fact(15) == 1307674368000) by {
        reveal_with_fuel(fact, 1);
    }
    assert(fact(16) == 20922789888000) by {
        reveal_with_fuel(fact, 1);
    }
    assert(fact(17) == 355687428096000) by {
        reveal_with_fuel(fact, 1);
    }
    assert(factorial_table().len() == 18);
    assert forall|n: int| 0 <= n <= MAX_FACTORIAL_ARG implies factorial_table()[n] == fact(
        n as nat,
    ) by {
        assert(0 <= n <= 17);
    }
}

impl Func {
    /// Whether the function's symbol is written after its argument (`5!`) rather
    /// than before it (`Σ5`).
    pub open spec fn behind(self) -> bool {
        self == Func::Factorial
    }

    pub fn is_behind(&self) -> (r: bool)
        ensures
            r == self.behind(),
    {
        match self {
            Func::SquareRoot => false,
            Func::Factorial => true,
            Func::Summation => false,
        }
    }

    /// The symbol shown for the function.
    pub fn symbol(&self) -> (r: String)
        ensures
            r@ == func_symbol(*self),
    {
        match self {
            Func::SquareRoot => String::from_str("²√"),
            Func::Factorial => String::from_str("!"),
            Func::Summation => String::from_str("Σ"),
        }
    }

    /// Every function, in the order the search tries them.
    pub fn all() -> (r: Vec<Func>)
        ensures
            r@ == seq![Func::SquareRoot, Func::Factorial, Func::Summation],
    {
        vec![Func::SquareRoot, Func::Factorial, Func::Summation]
    }
}

pub open spec fn func_symbol(f: Func) -> Seq<char> {
    match f {
        Func::SquareRoot => "²√"@,
        Func::Factorial => "!"@,
        Func::Summation => "Σ"@,
    }
}

/// `n!` for a whole number `n`, read from the table; `None` past `17!`, which
/// leaves the magnitude bound.
pub fn factorial_of(n: u64) -> (r: Option<u64>)
    ensures
        n <= MAX_FACTORIAL_ARG ==> r == Some(fact(n as nat) as u64),
        n > MAX_FACTORIAL_ARG ==> r is None,
        r matches Some(v) ==> factorial_spec(n as nat) == Some(v as nat),
{
    proof {
        lemma_table_is_factorials();
    }
    let table: [u64; 18] = [
        1, 1, 2, 6, 24, 120, 720, 5040, 40320, 362880, 3628800, 39916800, 479001600,
        6227020800, 87178291200, 1307674368000, 20922789888000, 355687428096000,
    ];
    assert(table@ == factorial_table());
    if n <= MAX_FACTORIAL_ARG {
        Some(table[n as usize])
    } else {
        None
    }
}

proof fn lemma_search_found(m: nat, from: nat, n: nat)
    requires
        factorial_search(m, from) == Some(n),
    ensures
        from <= n <= MAX_FACTORIAL_ARG,
        fact(n) == m,
    decreases MAX_FACTORIAL_ARG + 1 - from,
{
    if from <= MAX_FACTORIAL_ARG && fact(from) != m {
        lemma_search_found(m, from + 1, n);
    }
}

/// The whole number whose factorial is `m`, the smallest where two qualify;
/// `None` where no factorial in the table equals `m`.
pub fn factorial_inverse_of(m: u64) -> (r: Option<u64>)
    ensures
        r matches Some(n) ==> factorial_inverse_spec(m as nat) == Some(n as nat),
        r is None ==> factorial_inverse_spec(m as nat) is None,
{
    proof {
        lemma_table_is_factorials();
    }
    let table: [u64; 18] = [
        1, 1, 2, 6, 24, 120, 720, 5040, 40320, 362880, 3628800, 39916800, 479001600,
        6227020800, 87178291200, 1307674368000, 20922789888000, 355687428096000,
    ];
    assert(table@ == factorial_table());
    let mut i: usize = 0;
    while i < 18
        invariant
            0 <= i <= 18,
            table@ == factorial_table(),
            factorial_search(m as nat, i as nat) == factorial_inverse_spec(m as nat),
        decreases 18 - i,
    {
        proof {
            lemma_table_is_factorials();
        }
        assert(table@[i as int] == fact(i as nat));
        assert(factorial_search(m as nat, i as nat) == if fact(i as nat) == m as nat {
            Some(i as nat)
        } else {
            factorial_search(m as nat, (i + 1) as nat)
        });
        if table[i] == m {
            return Some(i as u64);
        }
        i = i + 1;
    }
    None
}

/// Undoing a factorial and applying it again gives back the value: whenever the
/// inverse is defined at `m`, the factorial of its result is `m`.
pub proof fn lemma_factorial_round_trip(m: nat)
    requires
        factorial_inverse_spec(m) is Some,
    ensures
        factorial_spec(factorial_inverse_spec(m)->0) == Some(m),
{
    lemma_search_found(m, 0, factorial_inverse_spec(m)->0);
}

} // verus!
