//! Choosing an identifier that is not in use.

use vstd::prelude::*;

verus! {

/// The numbers below `c`.
pub open spec fn below(c: nat) -> Set<u128> {
    Set::new(|x: u128| (x as nat) < c)
}

proof fn lemma_below_len(c: nat)
    requires
        c <= u128::MAX,
    ensures
        below(c).finite(),
        below(c).len() == c,
    decreases c,
{
    if c == 0 {
        assert(below(0) =~= Set::<u128>::empty());
    } else {
        lemma_below_len((c - 1) as nat);
        assert(below(c) =~= below((c - 1) as nat).insert((c - 1) as u128));
    }
}

/// As many numbers as fit below `c` cannot all be among fewer than `c`
/// identifiers.
proof fn lemma_room(used: Seq<u128>, c: nat)
    requires
        c <= u128::MAX,
        forall|x: u128| (x as nat) < c ==> used.contains(x),
    ensures
        c <= used.len(),
{
    lemma_below_len(c);
    used.lemma_cardinality_of_set();
    vstd::seq_lib::seq_to_set_is_finite(used);
    assert(below(c).subset_of(used.to_set()));
    vstd::set_lib::lemma_len_subset(below(c), used.to_set());
}

/// Whether `x` is among `used`.
pub fn is_used(used: &Vec<u128>, x: u128) -> (r: bool)
    ensures
        r == used@.contains(x),
{
    let mut i: usize = 0;
    while i < used.len()
        invariant
            i <= used@.len(),
            forall|j: int| 0 <= j < i ==> used@[j] != x,
        decreases used@.len() - i,
    {
        if used[i] == x {
            return true;
        }
        i += 1;
    }
    false
}

/// An identifier that is not among `used`: `wish` where it is free, else the
/// least number that is.
pub fn unused_id(wish: u128, used: &Vec<u128>) -> (r: u128)
    ensures
        !used@.contains(r),
        !used@.contains(wish) ==> r == wish,
        used@.contains(wish) ==> forall|x: u128| x < r ==> used@.contains(x),
{
    if !is_used(used, wish) {
        return wish;
    }
    let mut c: u128 = 0;
    let n = used.len();
    proof {
        lemma_room(used@, 0);
    }
    while is_used(used, c)
        invariant
            forall|x: u128| x < c ==> used@.contains(x),
            c <= used@.len(),
            used@.len() == n,
        decreases used@.len() - c,
    {
        proof {
            assert forall|x: u128| (x as nat) < (c + 1) as nat implies used@.contains(x) by {
                if x == c {
                } else {
                    assert(x < c);
                }
            }
            lemma_room(used@, (c + 1) as nat);
        }
        c += 1;
    }
    c
}

} // verus!
