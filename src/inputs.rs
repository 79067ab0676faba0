//! Reading a date given as `year-month-day`.
use vstd::prelude::*;

verus! {

/// A date as (year, month, day).
pub type YearMonthDay = (u32, u32, u32);

pub open spec fn is_digit(c: char) -> bool {
    '0' <= c <= '9'
}

/// The value of the decimal digits `s`.
pub open spec fn digits_value(s: Seq<char>) -> nat
    decreases s.len(),
{
    if s.len() == 0 {
        0
    } else {
        digits_value(s.drop_last()) * 10 + (s.last() as nat - '0' as nat) as nat
    }
}

pub open spec fn all_digits(d: Seq<char>) -> bool {
    forall|i: int| 0 <= i < d.len() ==> is_digit(#[trigger] d[i])
}

/// `s` without a leading `+`.
pub open spec fn unsigned_part(s: Seq<char>) -> Seq<char> {
    if s.len() > 0 && s[0] == '+' {
        s.drop_first()
    } else {
        s
    }
}

/// What parsing `s` as an unsigned 32-bit number gives: an optional `+`, then
/// one or more decimal digits whose value fits.
pub open spec fn parse_u32_spec(s: Seq<char>) -> Option<u32> {
    let d = unsigned_part(s);
    if d.len() > 0 && all_digits(d) && digits_value(d) <= u32::MAX {
        Some(digits_value(d) as u32)
    } else {
        None
    }
}

/// `s[from..to]` parsed as an unsigned 32-bit number.
fn parse_u32(s: &Vec<char>, from: usize, to: usize) -> (r: Option<u32>)
    requires
        from <= to <= s@.len(),
    ensures
        r == parse_u32_spec(s@.subrange(from as int, to as int)),
{
    let ghost t = s@.subrange(from as int, to as int);
    let mut start = from;
    if start < to && s[start] == '+' {
        start = start + 1;
    }
    let ghost d = s@.subrange(start as int, to as int);
    assert(d == unsigned_part(t));
    if start == to {
        return None;
    }
    let mut value: u64 = 0;
    let mut i = start;
    while i < to
        invariant
            from <= start <= i <= to <= s@.len(),
            d == s@.subrange(start as int, to as int),
            d == unsigned_part(t),
            t == s@.subrange(from as int, to as int),
            forall|k: int| start <= k < i ==> is_digit(s@[k]),
            value == digits_value(s@.subrange(start as int, i as int)),
            value <= u32::MAX,
        decreases to - i,
    {
        let c = s[i];
        if !('0' <= c && c <= '9') {
            assert(!is_digit(d[i - start]));
            assert(!all_digits(d));
            return None;
        }
        let digit = (c as u32 - '0' as u32) as u64;
        let ghost prefix = s@.subrange(start as int, (i + 1) as int);
        assert(prefix.drop_last() =~= s@.subrange(start as int, i as int));
        value = value * 10 + digit;
        i = i + 1;
        if value > u32::MAX as u64 {
            proof {
                assert(s@.subrange(start as int, i as int) =~= d.subrange(0, i - start));
                if all_digits(d) {
                    lemma_digits_value_grows(d, i - start);
                }
            }
            return None;
        }
    }
    assert(s@.subrange(start as int, i as int) =~= d);
    Some(value as u32)
}

proof fn lemma_digits_value_grows(d: Seq<char>, k: int)
    requires
        0 < k <= d.len(),
        forall|i: int| 0 <= i < d.len() ==> is_digit(d[i]),
    ensures
        digits_value(d.subrange(0, k)) <= digits_value(d),
    decreases d.len() - k,
{
    if k < d.len() {
        lemma_digits_value_grows(d, k + 1);
        assert(d.subrange(0, k + 1).drop_last() =~= d.subrange(0, k));
    } else {
        assert(d.subrange(0, k) =~= d);
    }
}

/// The positions of the `-` separators in `s`, in order.
pub open spec fn dashes(s: Seq<char>) -> Seq<int>
    decreases s.len(),
{
    if s.len() == 0 {
        Seq::empty()
    } else if s.last() == '-' {
        dashes(s.drop_last()).push(s.len() - 1)
    } else {
        dashes(s.drop_last())
    }
}

/// What reading `s` as a date gives: the first three `-`-separated parts,
/// each an unsigned number; any further parts are ignored.
pub open spec fn parse_date_spec(s: Seq<char>) -> Option<YearMonthDay> {
    let ds = dashes(s);
    if ds.len() < 2 {
        None
    } else {
        let end = if ds.len() > 2 {
            ds[2]
        } else {
            s.len() as int
        };
        match (
            parse_u32_spec(s.subrange(0, ds[0])),
            parse_u32_spec(s.subrange(ds[0] + 1, ds[1])),
            parse_u32_spec(s.subrange(ds[1] + 1, end)),
        ) {
            (Some(y), Some(m), Some(d)) => Some((y, m, d)),
            _ => None,
        }
    }
}

proof fn lemma_dashes_bounds(s: Seq<char>)
    ensures
        forall|k: int| 0 <= k < dashes(s).len() ==> 0 <= #[trigger] dashes(s)[k] < s.len() && s[dashes(s)[k]] == '-',
        forall|a: int, b: int| 0 <= a < b < dashes(s).len() ==> dashes(s)[a] < dashes(s)[b],
    decreases s.len(),
{
    if s.len() > 0 {
        let p = s.drop_last();
        lemma_dashes_bounds(p);
        assert(forall|k: int| 0 <= k < p.len() ==> p[k] == s[k]);
        if s.last() == '-' {
            assert(dashes(s) == dashes(p).push(s.len() - 1));
        } else {
            assert(dashes(s) == dashes(p));
        }
    }
}

/// Reads a date written `year-month-day`.
pub fn parse_date(date: &str) -> (r: Option<YearMonthDay>)
    ensures
        r == parse_date_spec(date@),
{
    let n = date.unicode_len();
    let mut chars: Vec<char> = Vec::new();
    let mut dash_at: Vec<usize> = Vec::new();
    let mut i: usize = 0;
    while i < n
        invariant
            n == date@.len(),
            0 <= i <= n,
            chars@ == date@.take(i as int),
            dash_at@.len() == dashes(date@.take(i as int)).len(),
            forall|k: int| 0 <= k < dash_at@.len() ==> dash_at@[k] == dashes(date@.take(i as int))[k],
        decreases n - i,
    {
        let c = date.get_char(i);
        assert(date@.take(i + 1).drop_last() =~= date@.take(i as int));
        if c == '-' {
            dash_at.push(i);
        }
        chars.push(c);
        i = i + 1;
        assert(chars@ =~= date@.take(i as int));
    }
    assert(date@.take(n as int) =~= date@);
    proof {
        lemma_dashes_bounds(date@);
    }
    if dash_at.len() < 2 {
        return None;
    }
    let end = if dash_at.len() > 2 {
        dash_at[2]
    } else {
        n
    };
    let year = parse_u32(&chars, 0, dash_at[0]);
    let month = parse_u32(&chars, dash_at[0] + 1, dash_at[1]);
    let day = parse_u32(&chars, dash_at[1] + 1, end);
    match (year, month, day) {
        (Some(y), Some(m), Some(d)) => Some((y, m, d)),
        _ => None,
    }
}

} // verus!
