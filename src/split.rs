//! Splitting the numbers into a small group and the rest, in every way.
use vstd::prelude::*;

verus! {

/// `c` chooses `k` of the positions `0..n`, in increasing order.
pub open spec fn is_combination(c: Seq<usize>, n: nat, k: nat) -> bool {
    &&& c.len() == k
    &&& forall|i: int| 0 <= i < c.len() ==> c[i] < n
    &&& forall|i: int, j: int| 0 <= i < j < c.len() ==> c[i] < c[j]
}

/// Some entry of `all` holds `c`.
pub open spec fn covers(all: Seq<Vec<usize>>, c: Seq<usize>) -> bool {
    exists|m: int| 0 <= m < all.len() && (#[trigger] all[m])@ == c
}

/// `c` with `d` added to every position.
pub open spec fn shifted(c: Seq<usize>, d: int) -> Seq<usize> {
    c.map_values(|x: usize| (x + d) as usize)
}

/// The views of a list of position lists.
pub open spec fn vec_rows(v: Seq<Vec<usize>>) -> Seq<Seq<usize>> {
    v.map_values(|x: Vec<usize>| x@)
}

/// The choices of `split` of the positions `0..len` whose first position is
/// below `i`, by first position, then in the order of the rest.
pub open spec fn combos_from(len: int, split: int, i: int) -> Seq<Seq<usize>>
    decreases split, i,
{
    if i <= 0 || split <= 1 {
        Seq::empty()
    } else {
        combos_from(len, split, i - 1) + combinations_spec(len - i, split - 1).map_values(
            |x: Seq<usize>| seq![(i - 1) as usize] + shifted(x, i),
        )
    }
}

/// Every choice of `split` of the positions `0..len`, each once: ordered by
/// first position, then by the rest in the same order.
pub open spec fn combinations_spec(len: int, split: int) -> Seq<Seq<usize>>
    decreases split, len - split + 2,
{
    if split <= 1 {
        Seq::new(if len > 0 {
            len as nat
        } else {
            0
        }, |x: int| seq![x as usize])
    } else if len - split + 1 <= 0 {
        Seq::empty()
    } else {
        combos_from(len, split, len - split + 1)
    }
}

/// Every way to choose `split` of the positions `0..len`, each once, ordered
/// by first position, then by the rest in the same order.
pub fn index_combinations(len: usize, split: usize) -> (r: Vec<Vec<usize>>)
    requires
        1 <= split <= len,
    ensures
        vec_rows(r@) == combinations_spec(len as int, split as int),
        vec_rows(r@).no_duplicates(),
        forall|m: int| 0 <= m < r@.len() ==> is_combination((#[trigger] r@[m])@, len as nat, split as nat),
        forall|c: Seq<usize>|
            is_combination(c, len as nat, split as nat) ==> exists|m: int|
                0 <= m < r@.len() && (#[trigger] r@[m])@ == c,
    decreases split,
{
    let mut all: Vec<Vec<usize>> = Vec::new();
    if split == 1 {
        let mut x: usize = 0;
        while x < len
            invariant
                0 <= x <= len,
                all@.len() == x,
                forall|m: int| 0 <= m < x ==> (#[trigger] all@[m])@ == seq![m as usize],
                vec_rows(all@) == Seq::new(x as nat, |m: int| seq![m as usize]),
            decreases len - x,
        {
            let ghost prev = vec_rows(all@);
            let one = vec![x];
            assert(one@ =~= seq![x]);
            all.push(one);
            assert(vec_rows(all@) =~= prev.push(seq![x]));
            x = x + 1;
            assert(vec_rows(all@) =~= Seq::new(x as nat, |m: int| seq![m as usize]));
        }
        assert forall|c: Seq<usize>| is_combination(c, len as nat, split as nat) implies exists|m: int|
            0 <= m < all@.len() && (#[trigger] all@[m])@ == c by {
            let m = c[0] as int;
            assert(all@[m]@ =~= c);
        }
        assert forall|a: int, b: int|
            0 <= a < vec_rows(all@).len() && 0 <= b < vec_rows(all@).len() && a != b implies vec_rows(
            all@,
        )[a] != vec_rows(all@)[b] by {
            assert(vec_rows(all@)[a][0] != vec_rows(all@)[b][0]);
        }
        return all;
    }
    let mut i: usize = 0;
    while i < len - split + 1
        invariant
            2 <= split <= len,
            0 <= i <= len - split + 1,
            vec_rows(all@) == combos_from(len as int, split as int, i as int),
            vec_rows(all@).no_duplicates(),
            forall|m: int| 0 <= m < all@.len() ==> (#[trigger] all@[m])@[0] < i,
            forall|m: int| 0 <= m < all@.len() ==> is_combination((#[trigger] all@[m])@, len as nat, split as nat),
            forall|c: Seq<usize>|
                is_combination(c, len as nat, split as nat) && c[0] < i ==> exists|m: int|
                    0 <= m < all@.len() && (#[trigger] all@[m])@ == c,
        decreases len - split + 1 - i,
    {
        let rest = index_combinations(len - i - 1, split - 1);
        let ghost before = all@;
        let ghost block = combinations_spec((len - i - 1) as int, (split - 1) as int).map_values(
            |x: Seq<usize>| seq![i] + shifted(x, i + 1),
        );
        let mut k: usize = 0;
        while k < rest.len()
            invariant
                2 <= split <= len,
                vec_rows(rest@) == combinations_spec((len - i - 1) as int, (split - 1) as int),
                vec_rows(rest@).no_duplicates(),
                vec_rows(all@).no_duplicates(),
                vec_rows(before) == combos_from(len as int, split as int, i as int),
                forall|m: int| 0 <= m < before.len() ==> (#[trigger] before[m])@[0] < i,
                forall|m: int| before.len() <= m < all@.len() ==> (#[trigger] all@[m])@[0] == i,
                block == combinations_spec((len - i - 1) as int, (split - 1) as int).map_values(
                    |x: Seq<usize>| seq![i] + shifted(x, i + 1),
                ),
                vec_rows(all@) == combos_from(len as int, split as int, i as int) + block.take(k as int),
                0 <= i < len - split + 1,
                0 <= k <= rest@.len(),
                forall|m: int| 0 <= m < rest@.len() ==> is_combination((#[trigger] rest@[m])@, (len - i - 1) as nat, (split - 1) as nat),
                forall|m: int| 0 <= m < all@.len() ==> is_combination((#[trigger] all@[m])@, len as nat, split as nat),
                all@.len() >= before.len(),
                forall|m: int| 0 <= m < before.len() ==> #[trigger] all@[m] == before[m],
                forall|q: int|
                    0 <= q < k ==> covers(all@, seq![i] + shifted((#[trigger] rest@[q])@, i + 1)),
            decreases rest@.len() - k,
        {
            let tail = &rest[k];
            let mut c: Vec<usize> = vec![i];
            let mut t: usize = 0;
            while t < tail.len()
                invariant
                    0 <= t <= tail@.len(),
                    k < rest@.len(),
                    tail@ == rest@[k as int]@,
                    is_combination(tail@, (len - i - 1) as nat, (split - 1) as nat),
                    i < len,
                    c@ == seq![i] + shifted(tail@.take(t as int), i + 1),
                decreases tail@.len() - t,
            {
                c.push(tail[t] + i + 1);
                t = t + 1;
                assert(c@ =~= seq![i] + shifted(tail@.take(t as int), i + 1));
            }
            assert(tail@.take(t as int) =~= tail@);
            assert(is_combination(c@, len as nat, split as nat)) by {
                assert forall|a: int, b: int| 0 <= a < b < c@.len() implies c@[a] < c@[b] by {
                    if a > 0 {
                        assert(tail@[a - 1] < tail@[b - 1]);
                    }
                }
            }
            let ghost prev = all@;
            assert(vec_rows(rest@)[k as int] == rest@[k as int]@);
            assert(block[k as int] == seq![i] + shifted(rest@[k as int]@, i + 1));
            assert(c@ == block[k as int]);
            let ghost prev_rows = vec_rows(all@);
            assert forall|m: int| 0 <= m < prev_rows.len() implies prev_rows[m] != block[k as int] by {
                if m < before.len() {
                    assert(prev_rows[m] == before[m]@);
                    assert(before[m]@[0] < i);
                } else {
                    let q = m - before.len();
                    assert(prev_rows[m] == block[q]);
                    if block[q] == block[k as int] {
                        let x = rest@[q]@;
                        let y = rest@[k as int]@;
                        assert(vec_rows(rest@)[q] == x);
                        assert(is_combination(x, (len - i - 1) as nat, (split - 1) as nat));
                        assert(is_combination(y, (len - i - 1) as nat, (split - 1) as nat));
                        assert(x =~= y) by {
                            assert forall|a: int| 0 <= a < x.len() implies x[a] == y[a] by {
                                assert(block[q][a + 1] == block[k as int][a + 1]);
                            }
                        }
                        assert(vec_rows(rest@)[q] == vec_rows(rest@)[k as int]);
                    }
                }
            }
            all.push(c);
            assert(vec_rows(all@) =~= prev_rows.push(block[k as int]));
            assert(vec_rows(all@) =~= combos_from(len as int, split as int, i as int) + block.take(k + 1));
            assert forall|q: int|
                0 <= q < k + 1 implies covers(all@, seq![i] + shifted((#[trigger] rest@[q])@, i + 1)) by {
                if q == k {
                    assert(all@[all@.len() - 1]@ == seq![i] + shifted(rest@[q]@, i + 1));
                } else {
                    assert(covers(prev, seq![i] + shifted(rest@[q]@, i + 1)));
                    let m = choose|m: int|
                        0 <= m < prev.len() && (#[trigger] prev[m])@ == seq![i] + shifted(rest@[q]@, i + 1);
                    assert(all@[m] == prev[m]);
                }
            }
            k = k + 1;
        }
        assert forall|c: Seq<usize>|
            is_combination(c, len as nat, split as nat) && c[0] < i + 1 implies exists|m: int|
                0 <= m < all@.len() && (#[trigger] all@[m])@ == c by {
            if c[0] < i {
                let m = choose|m: int| 0 <= m < before.len() && (#[trigger] before[m])@ == c;
                assert(all@[m] == before[m]);
            } else {
                let tail = shifted(c.drop_first(), -(i + 1));
                assert(is_combination(tail, (len - i - 1) as nat, (split - 1) as nat)) by {
                    assert forall|a: int| 0 <= a < tail.len() implies tail[a] < len - i - 1 by {
                        assert(c[0] < c[a + 1]);
                    }
                    assert forall|a: int, b: int| 0 <= a < b < tail.len() implies tail[a] < tail[b] by {
                        assert(c[a + 1] < c[b + 1]);
                    }
                }
                let q = choose|q: int| 0 <= q < rest@.len() && (#[trigger] rest@[q])@ == tail;
                assert(seq![i] + shifted(tail, i + 1) =~= c) by {
                    assert forall|a: int| 0 < a < c.len() implies c[a] > i by {
                        assert(c[0] < c[a]);
                    }
                }
                let m = choose|m: int|
                    0 <= m < all@.len() && (#[trigger] all@[m])@ == seq![i] + shifted(rest@[q]@, i + 1);
                assert(all@[m]@ == c);
            }
        }
        assert(block.take(k as int) =~= block);
        assert(combos_from(len as int, split as int, i + 1) == combos_from(len as int, split as int, i as int)
            + block);
        i = i + 1;
    }
    assert forall|c: Seq<usize>| is_combination(c, len as nat, split as nat) implies exists|m: int|
        0 <= m < all@.len() && (#[trigger] all@[m])@ == c by {
        assert(c[0] + split - 1 <= c[split - 1]) by {
            assert forall|a: int| 0 <= a < split implies c[0] + a <= #[trigger] c[a] by {
                lemma_increasing_gap(c, a);
            }
        }
    }
    all
}

proof fn lemma_increasing_gap(c: Seq<usize>, a: int)
    requires
        0 <= a < c.len(),
        forall|i: int, j: int| 0 <= i < j < c.len() ==> c[i] < c[j],
    ensures
        c[0] + a <= c[a],
    decreases a,
{
    if a > 0 {
        lemma_increasing_gap(c, a - 1);
    }
}

/// The first `i` of `nums` parted into those whose positions `chosen` holds
/// and the others, each in their original order.
pub open spec fn parted<T>(nums: Seq<T>, chosen: Seq<usize>, i: int) -> (Seq<T>, Seq<T>)
    decreases i,
{
    if i <= 0 {
        (Seq::empty(), Seq::empty())
    } else {
        let (l, r) = parted(nums, chosen, i - 1);
        if chosen.contains((i - 1) as usize) {
            (l.push(nums[i - 1]), r)
        } else {
            (l, r.push(nums[i - 1]))
        }
    }
}

/// `(left, right)` parts `nums` by some choice of `split` positions.
pub open spec fn is_parting<T>(nums: Seq<T>, split: nat, left: Seq<T>, right: Seq<T>) -> bool {
    exists|c: Seq<usize>|
        is_combination(c, nums.len(), split) && #[trigger] parted(nums, c, nums.len() as int) == (
            left,
            right,
        )
}

/// Every way to part `nums` into `split` of them and the rest, each in their
/// original order: one pair per choice of `split` positions, each choice once,
/// in the order `index_combinations` gives.
pub fn combinations_when_split<T: Copy>(nums: &Vec<T>, split: usize) -> (r: Vec<(Vec<T>, Vec<T>)>)
    requires
        1 <= split <= nums@.len(),
    ensures
        r@.len() == combinations_spec(nums@.len() as int, split as int).len(),
        forall|m: int|
            0 <= m < r@.len() ==> parted(
                nums@,
                combinations_spec(nums@.len() as int, split as int)[m],
                nums@.len() as int,
            ) == ((#[trigger] r@[m]).0@, r@[m].1@),
        forall|m: int|
            0 <= m < r@.len() ==> is_parting(nums@, split as nat, (#[trigger] r@[m]).0@, r@[m].1@),
        forall|c: Seq<usize>|
            is_combination(c, nums@.len(), split as nat) ==> exists|m: int|
                0 <= m < r@.len() && parted(nums@, c, nums@.len() as int) == ((#[trigger] r@[m]).0@, r@[m].1@),
{
    let combos = index_combinations(nums.len(), split);
    let mut out: Vec<(Vec<T>, Vec<T>)> = Vec::new();
    let mut k: usize = 0;
    while k < combos.len()
        invariant
            1 <= split <= nums@.len(),
            0 <= k <= combos@.len(),
            vec_rows(combos@) == combinations_spec(nums@.len() as int, split as int),
            out@.len() == k,
            forall|m: int| 0 <= m < combos@.len() ==> is_combination((#[trigger] combos@[m])@, nums@.len(), split as nat),
            forall|c: Seq<usize>|
                is_combination(c, nums@.len(), split as nat) ==> exists|m: int|
                    0 <= m < combos@.len() && (#[trigger] combos@[m])@ == c,
            forall|m: int|
                0 <= m < k ==> parted(nums@, combos@[m]@, nums@.len() as int) == ((#[trigger] out@[m]).0@, out@[m].1@),
        decreases combos@.len() - k,
    {
        let chosen = &combos[k];
        let mut left: Vec<T> = Vec::new();
        let mut right: Vec<T> = Vec::new();
        let mut i: usize = 0;
        while i < nums.len()
            invariant
                0 <= i <= nums@.len(),
                k < combos@.len(),
                chosen@ == combos@[k as int]@,
                parted(nums@, chosen@, i as int) == (left@, right@),
            decreases nums@.len() - i,
        {
            let mut found = false;
            let mut j: usize = 0;
            while j < chosen.len()
                invariant
                    0 <= j <= chosen@.len(),
                    found == exists|a: int| 0 <= a < j && chosen@[a] == i,
                decreases chosen@.len() - j,
            {
                if chosen[j] == i {
                    found = true;
                }
                j = j + 1;
            }
            assert(found == chosen@.contains(i));
            if found {
                left.push(nums[i]);
            } else {
                right.push(nums[i]);
            }
            i = i + 1;
        }
        out.push((left, right));
        k = k + 1;
    }
    assert forall|m: int| 0 <= m < out@.len() implies parted(
        nums@,
        combinations_spec(nums@.len() as int, split as int)[m],
        nums@.len() as int,
    ) == ((#[trigger] out@[m]).0@, out@[m].1@) by {
        assert(vec_rows(combos@)[m] == combos@[m]@);
    }
    assert forall|m: int| 0 <= m < out@.len() implies is_parting(
        nums@,
        split as nat,
        (#[trigger] out@[m]).0@,
        out@[m].1@,
    ) by {
        assert(is_combination(combos@[m]@, nums@.len(), split as nat));
        assert(parted(nums@, combos@[m]@, nums@.len() as int) == (out@[m].0@, out@[m].1@));
    }
    assert forall|c: Seq<usize>| is_combination(c, nums@.len(), split as nat) implies exists|m: int|
        0 <= m < out@.len() && parted(nums@, c, nums@.len() as int) == ((#[trigger] out@[m]).0@, out@[m].1@) by {
        let m = choose|m: int| 0 <= m < combos@.len() && (#[trigger] combos@[m])@ == c;
        assert(parted(nums@, combos@[m]@, nums@.len() as int) == (out@[m].0@, out@[m].1@));
    }
    out
}

} // verus!
