//! The path codec: a bijection between positive tree positions and
//! root-to-node step sequences.
//!
//! Position 1 is the root.  Stripping the leading one bit of a position
//! leaves the walk from the root, read from the high end downward: a
//! clear bit steps to the left child (`false`), a set bit to the right
//! child (`true`).  Going the other way, a left step doubles the
//! position and a right step doubles it and adds one.

use vstd::prelude::*;

verus! {

/// The step sequence a position decodes to.
pub open spec fn path_of(p: nat) -> Seq<bool>
    decreases p,
{
    if p <= 1 {
        Seq::empty()
    } else {
        path_of(p / 2).push(p % 2 == 1)
    }
}

/// The position a step sequence leads to, starting from the root at 1.
pub open spec fn pos_of(path: Seq<bool>) -> nat
    decreases path.len(),
{
    if path.len() == 0 {
        1
    } else {
        2 * pos_of(path.drop_last()) + (if path.last() { 1nat } else { 0nat })
    }
}

/// Every step sequence leads to a positive position.
pub proof fn lemma_pos_of_at_least_one(path: Seq<bool>)
    ensures
        pos_of(path) >= 1,
    decreases path.len(),
{
    if path.len() > 0 {
        lemma_pos_of_at_least_one(path.drop_last());
    }
}

/// Decoding a position and walking the steps returns to the position.
pub proof fn lemma_pos_of_path_of(p: nat)
    requires
        p >= 1,
    ensures
        pos_of(path_of(p)) == p,
    decreases p,
{
    if p <= 1 {
        assert(path_of(p) =~= Seq::<bool>::empty());
    } else {
        lemma_pos_of_path_of(p / 2);
        let prefix = path_of(p / 2);
        let b = p % 2 == 1;
        assert(path_of(p) == prefix.push(b));
        assert(prefix.push(b).drop_last() =~= prefix);
        assert(prefix.push(b).last() == b);
        assert(pos_of(path_of(p)) == 2 * (p / 2) + p % 2);
    }
}

/// Walking steps and decoding the reached position returns the steps.
pub proof fn lemma_path_of_pos_of(path: Seq<bool>)
    ensures
        path_of(pos_of(path)) == path,
    decreases path.len(),
{
    if path.len() == 0 {
        assert(path_of(1) =~= path);
    } else {
        let prefix = path.drop_last();
        let b = path.last();
        lemma_path_of_pos_of(prefix);
        lemma_pos_of_at_least_one(prefix);
        let q = pos_of(prefix);
        let p = pos_of(path);
        assert(p == 2 * q + (if b { 1nat } else { 0nat }));
        assert(p / 2 == q);
        assert(p % 2 == (if b { 1int } else { 0int }));
        assert(p > 1);
        assert(path_of(p) == path_of(q).push(b));
        assert(path_of(p) =~= path);
    }
}

/// Positions decode to distinct step sequences.
pub proof fn lemma_path_of_injective(p: nat, q: nat)
    requires
        p >= 1,
        q >= 1,
        p != q,
    ensures
        path_of(p) != path_of(q),
{
    if path_of(p) == path_of(q) {
        lemma_pos_of_path_of(p);
        lemma_pos_of_path_of(q);
    }
}

/// A proper prefix of a step sequence leads at most half as far.
pub proof fn lemma_pos_of_prefix(path: Seq<bool>, j: int)
    requires
        0 <= j < path.len(),
    ensures
        2 * pos_of(path.take(j)) <= pos_of(path),
    decreases path.len(),
{
    if j == path.len() - 1 {
        assert(path.take(j) =~= path.drop_last());
    } else {
        lemma_pos_of_prefix(path.drop_last(), j);
        assert(path.drop_last().take(j) =~= path.take(j));
        lemma_pos_of_at_least_one(path.take(j));
    }
}

/// Prefixes never lead past the full walk's position.
pub proof fn lemma_pos_of_prefix_le(path: Seq<bool>, j: int)
    requires
        0 <= j <= path.len(),
    ensures
        pos_of(path.take(j)) <= pos_of(path),
{
    if j == path.len() {
        assert(path.take(j) =~= path);
    } else {
        lemma_pos_of_prefix(path, j);
        lemma_pos_of_at_least_one(path);
    }
}

/// Compute the step sequence for a position.
pub fn steps_for(p: usize) -> (r: Vec<bool>)
    requires
        p >= 1,
    ensures
        r@ == path_of(p as nat),
    decreases p,
{
    if p <= 1 {
        Vec::new()
    } else {
        let mut r = steps_for(p / 2);
        r.push(p % 2 == 1);
        r
    }
}

/// Walk a step sequence, rebuilding the position it leads to.
pub fn pos_for(steps: &Vec<bool>) -> (r: usize)
    requires
        pos_of(steps@) <= usize::MAX,
    ensures
        r as nat == pos_of(steps@),
{
    let mut r: usize = 1;
    let mut i: usize = 0;
    while i < steps.len()
        invariant
            0 <= i <= steps@.len(),
            r as nat == pos_of(steps@.take(i as int)),
            pos_of(steps@) <= usize::MAX,
        decreases steps@.len() - i,
    {
        proof {
            assert(steps@.take(i + 1).drop_last() =~= steps@.take(i as int));
            assert(steps@.take(i + 1).last() == steps@[i as int]);
            lemma_pos_of_prefix_le(steps@, i + 1);
        }
        r = 2 * r + (if steps[i] { 1 } else { 0 });
        i = i + 1;
    }
    proof {
        assert(steps@.take(steps@.len() as int) =~= steps@);
    }
    r
}

} // verus!
