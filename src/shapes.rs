//! The fixed tree shapes the general search enumerates, per count of numbers.
//! Each shape is a pair of templates: the half built up from numbers, and the
//! half worked back from the goal with its hole where the first half plugs in.
use vstd::prelude::*;

verus! {

pub const UP_5_A: &'static str = r"
   O
  / \
  N O
   / \
   N O
";

pub const DOWN_5_A: &'static str = r"
  H
 / \
 N H
  / \
  N G
";

pub const UP_5_B: &'static str = r"
  O
 / \
 N O
  / \
  N O
";

pub const DOWN_5_B: &'static str = r"
   H
  / \
  O G
 / \
 N N
";

pub const UP_5_C: &'static str = r"
     O
   /   \
   O   O
  / \ / \
  N N N N
";

pub const DOWN_5_C: &'static str = r"
   H
  / \
  N G

";

pub const UP_4_A: &'static str = r"
   O
  / \
  N N
";

pub const DOWN_4_A: &'static str = r"
  H
 / \
 N H
  / \
  N G
";

pub const UP_4_B: &'static str = r"
   O
  / \
  N N
";

pub const DOWN_4_B: &'static str = r"
   H
  / \
  O G
 / \
 N N
";

pub const UP_3: &'static str = r"
      O
     / \
     N N
     ";

pub const DOWN_3: &'static str = r"
      H
     / \
     N G
     ";

pub const UP_2: &'static str = r"
      O
     / \
     N N
     ";

pub const DOWN_2: &'static str = r"
      G
     ";

pub const UP_1: &'static str = r"
      N
     ";

pub const DOWN_1: &'static str = r"
      G
     ";

/// The templates of the shapes for `num_count` numbers, from the most numbers
/// on the goal side to the fewest.
pub open spec fn shape_templates(num_count: nat) -> Seq<(Seq<char>, Seq<char>)> {
    if num_count == 5 {
        seq![(UP_5_A@, DOWN_5_A@), (UP_5_B@, DOWN_5_B@), (UP_5_C@, DOWN_5_C@)]
    } else if num_count == 4 {
        seq![(UP_4_A@, DOWN_4_A@), (UP_4_B@, DOWN_4_B@)]
    } else if num_count == 3 {
        seq![(UP_3@, DOWN_3@)]
    } else if num_count == 2 {
        seq![(UP_2@, DOWN_2@)]
    } else if num_count == 1 {
        seq![(UP_1@, DOWN_1@)]
    } else {
        seq![]
    }
}

/// How many shapes the search has for `num_count` numbers.
pub open spec fn shape_count(num_count: nat) -> nat {
    shape_templates(num_count).len()
}

/// The templates of the shapes for `num_count` numbers.
pub fn tree_shapes(num_count: usize) -> (r: Vec<(&'static str, &'static str)>)
    ensures
        r@.len() == shape_count(num_count as nat),
        forall|i: int|
            0 <= i < r@.len() ==> ((#[trigger] r@[i]).0@, r@[i].1@) == shape_templates(
                num_count as nat,
            )[i],
{
    let r = if num_count == 5 {
        vec![(UP_5_A, DOWN_5_A), (UP_5_B, DOWN_5_B), (UP_5_C, DOWN_5_C)]
    } else if num_count == 4 {
        vec![(UP_4_A, DOWN_4_A), (UP_4_B, DOWN_4_B)]
    } else if num_count == 3 {
        vec![(UP_3, DOWN_3)]
    } else if num_count == 2 {
        vec![(UP_2, DOWN_2)]
    } else if num_count == 1 {
        vec![(UP_1, DOWN_1)]
    } else {
        vec![]
    };
    r
}

} // verus!
