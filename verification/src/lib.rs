//! A bag of values addressed by generational handles.
//!
//! `IndexBag` stores values in a binary tree of slots and hands back a
//! copyable [`Index`] for each insertion.  An `Index` pairs the slot's
//! tree position with the slot's generation counter, so a handle kept
//! across a removal and a later reuse of the same slot is detected as
//! stale instead of silently resolving to the replacement value.
//!
//! Positions are dense: after `n` insertions with no removal the live
//! positions are exactly `1..=n`, with position 1 the tree root.  A
//! removal leaves its slot allocated but vacant, and a later insertion
//! reuses a vacant slot near the root before it ever grows the tree.

use vstd::prelude::*;

mod codec;
mod tree;
pub mod laws;

use crate::codec::lemma_path_of_injective;
use crate::codec::lemma_path_of_pos_of;
use crate::codec::lemma_pos_of_at_least_one;
use crate::codec::lemma_pos_of_path_of;
use crate::codec::lemma_pos_of_prefix;
use crate::codec::path_of;
use crate::codec::pos_for;
use crate::codec::pos_of;
use crate::codec::steps_for;
use crate::tree::entry_along;
use crate::tree::find_vacant;
use crate::tree::get_at;
use crate::tree::get_mut_at;
use crate::tree::gen_at;
use crate::tree::hit_along;
use crate::tree::lemma_same_except_frame;
use crate::tree::place_at;
use crate::tree::remove_at;
use crate::tree::same_except;
use crate::tree::slot_count;
use crate::tree::subtree_along;
use crate::tree::vacant_count;
use crate::tree::vacant_of;
use crate::tree::wf_node;
use crate::tree::Node;

verus! {

/// The generation a slot carries after it is repopulated: the counter
/// steps by one, returning to zero only at the far end of `usize`.
pub open spec fn next_gen(g: nat) -> nat {
    if g == usize::MAX as nat {
        0
    } else {
        g + 1
    }
}

/// How many entries of a bag's view are allocated but vacant.
pub open spec fn vacant_entries<T>(s: Seq<(Option<T>, nat)>) -> nat
    decreases s.len(),
{
    if s.len() == 0 {
        0
    } else {
        vacant_entries(s.drop_last()) + (if s.last().0 is None {
            1nat
        } else {
            0nat
        })
    }
}

/// A handle is live in a view: its position is allocated, the slot is
/// occupied, and the slot's generation matches the handle's.
pub open spec fn live<T>(s: Seq<(Option<T>, nat)>, p: int, g: nat) -> bool {
    &&& 1 <= p <= s.len()
    &&& s[p - 1].1 == g
    &&& s[p - 1].0 is Some
}

/// What a lookup with position `p` and generation `g` yields on a view:
/// the stored value when the handle is live, nothing otherwise.
pub open spec fn view_get<T>(s: Seq<(Option<T>, nat)>, p: int, g: nat) -> Option<T> {
    if 1 <= p <= s.len() && s[p - 1].1 == g {
        s[p - 1].0
    } else {
        None
    }
}

/// The view a slot tree with high-water mark `h` presents: for each
/// position `1..=h`, the slot's optional value and its generation.
spec fn view_of<T>(root: Node<T>, h: nat) -> Seq<(Option<T>, nat)> {
    Seq::new(
        h,
        |i: int|
            match entry_along(root, path_of((i + 1) as nat)) {
                Some(e) => e,
                None => (None, 0nat),
            },
    )
}

/// The tree backs the high-water mark: vacancy counts are consistent,
/// there are exactly `h` slots, and the allocated positions are exactly
/// `1..=h`.
spec fn tree_ok<T>(root: Node<T>, h: nat) -> bool {
    &&& wf_node(root)
    &&& slot_count(root) == h
    &&& forall|q: nat|
        q >= 1 ==> (#[trigger] entry_along(root, path_of(q)) is Some <==> q <= h)
}

/// Replacing one entry of a view trades its vacancy for the new
/// entry's.
proof fn lemma_vacant_entries_update<T>(s: Seq<(Option<T>, nat)>, i: int, e: (Option<T>, nat))
    requires
        0 <= i < s.len(),
    ensures
        vacant_entries(s.update(i, e)) + (if s[i].0 is None {
            1nat
        } else {
            0nat
        }) == vacant_entries(s) + (if e.0 is None {
            1nat
        } else {
            0nat
        }),
    decreases s.len(),
{
    let s2 = s.update(i, e);
    if i == s.len() - 1 {
        assert(s2.drop_last() =~= s.drop_last());
        assert(s2.last() == e);
    } else {
        assert(s2.drop_last() =~= s.drop_last().update(i, e));
        assert(s2.last() == s.last());
        lemma_vacant_entries_update(s.drop_last(), i, e);
        assert(s.drop_last()[i] == s[i]);
    }
}

/// Appending an entry adds its vacancy to a view's count.
proof fn lemma_vacant_entries_push<T>(s: Seq<(Option<T>, nat)>, e: (Option<T>, nat))
    ensures
        vacant_entries(s.push(e)) == vacant_entries(s) + (if e.0 is None {
            1nat
        } else {
            0nat
        }),
{
    assert(s.push(e).drop_last() =~= s);
    assert(s.push(e).last() == e);
}

/// Every proper prefix of an in-range position's step sequence leads to
/// an already-allocated slot.
proof fn lemma_prefixes_are_slots<T>(root: Node<T>, h: nat, p: nat)
    requires
        tree_ok(root, h),
        1 <= p <= h + 1,
    ensures
        forall|j: int|
            0 <= j < path_of(p).len() ==> #[trigger] subtree_along(
                root,
                path_of(p).subrange(0, j),
            ) is Slot,
{
    assert forall|j: int| 0 <= j < path_of(p).len() implies #[trigger] subtree_along(
        root,
        path_of(p).subrange(0, j),
    ) is Slot by {
        let full = path_of(p);
        let pre = full.subrange(0, j);
        assert(pre =~= full.take(j));
        lemma_pos_of_prefix(full, j);
        lemma_pos_of_path_of(p);
        let q = pos_of(pre);
        lemma_pos_of_at_least_one(pre);
        assert(2 * q <= p);
        assert(p >= 2);
        assert(q <= h);
        lemma_path_of_pos_of(pre);
        assert(entry_along(root, path_of(q)) is Some);
        assert(path_of(q) == pre);
    }
}

/// How a position reads in the view: in range it mirrors the tree's
/// entry, past the high-water mark nothing is allocated.
proof fn lemma_entry_in_view<T>(root: Node<T>, h: nat, p: nat)
    requires
        tree_ok(root, h),
        p >= 1,
    ensures
        p <= h ==> (entry_along(root, path_of(p)) is Some && view_of(root, h)[p as int - 1]
            == entry_along(root, path_of(p)).unwrap()),
        p > h ==> entry_along(root, path_of(p)) is None,
{
    assert(entry_along(root, path_of(p)) is Some <==> p <= h);
}

/// A tree changed at one in-range position alone keeps every position's
/// allocation status and reads as the old view with that entry updated.
proof fn lemma_view_update<T>(o: Node<T>, f: Node<T>, h: nat, p: nat, e: (Option<T>, nat))
    requires
        tree_ok(o, h),
        1 <= p <= h,
        entry_along(f, path_of(p)) == Some(e),
        forall|other: Seq<bool>|
            other != path_of(p) ==> #[trigger] entry_along(f, other) == entry_along(o, other),
    ensures
        forall|q: nat| q >= 1 ==> (#[trigger] entry_along(f, path_of(q)) is Some <==> q <= h),
        view_of(f, h) == view_of(o, h).update(p as int - 1, e),
{
    assert forall|q: nat| q >= 1 implies (#[trigger] entry_along(f, path_of(q)) is Some <==> q
        <= h) by {
        if q != p {
            lemma_path_of_injective(p, q);
            assert(entry_along(f, path_of(q)) == entry_along(o, path_of(q)));
        }
    }
    assert forall|i: int| 0 <= i < h implies view_of(f, h)[i] == view_of(o, h).update(
        p as int - 1,
        e,
    )[i] by {
        if i + 1 != p {
            lemma_path_of_injective(p, (i + 1) as nat);
            assert(entry_along(f, path_of((i + 1) as nat)) == entry_along(
                o,
                path_of((i + 1) as nat),
            ));
        }
    }
    assert(view_of(f, h) =~= view_of(o, h).update(p as int - 1, e));
}

/// A tree grown by one slot at the next position alone reads as the old
/// view with that entry appended.
proof fn lemma_view_push<T>(o: Node<T>, f: Node<T>, h: nat, e: (Option<T>, nat))
    requires
        tree_ok(o, h),
        entry_along(f, path_of(h + 1)) == Some(e),
        forall|other: Seq<bool>|
            other != path_of(h + 1) ==> #[trigger] entry_along(f, other) == entry_along(o, other),
    ensures
        forall|q: nat| q >= 1 ==> (#[trigger] entry_along(f, path_of(q)) is Some <==> q <= h + 1),
        view_of(f, h + 1) == view_of(o, h).push(e),
{
    assert forall|q: nat| q >= 1 implies (#[trigger] entry_along(f, path_of(q)) is Some <==> q <= h
        + 1) by {
        if q != h + 1 {
            lemma_path_of_injective(h + 1, q);
            assert(entry_along(f, path_of(q)) == entry_along(o, path_of(q)));
        }
    }
    assert forall|i: int| 0 <= i < h + 1 implies view_of(f, h + 1)[i] == view_of(o, h).push(e)[i]
        by {
        if i + 1 != h + 1 {
            lemma_path_of_injective(h + 1, (i + 1) as nat);
            assert(entry_along(f, path_of((i + 1) as nat)) == entry_along(
                o,
                path_of((i + 1) as nat),
            ));
        }
    }
    assert(view_of(f, h + 1) =~= view_of(o, h).push(e));
}

/// A handle into an [`IndexBag`]: a tree position paired with the
/// generation the addressed slot had when the handle was issued.
#[derive(Debug, Clone, Copy, PartialEq, Eq, PartialOrd, Ord)]
pub struct Index {
    index: usize,
    generation: usize,
}

impl Index {
    /// The handle's tree position, as a mathematical integer.
    pub closed spec fn pos(self) -> int {
        self.index as int
    }

    /// The handle's recorded generation, as a mathematical integer.
    pub closed spec fn gen(self) -> nat {
        self.generation as nat
    }

    fn new(index: usize, generation: usize) -> (r: Index)
        ensures
            r.pos() == index,
            r.gen() == generation as nat,
    {
        Index { index, generation }
    }
}

impl From<Index> for usize {
    /// The raw integer form of a handle: its position component alone.
    fn from(index: Index) -> (r: usize) {
        index.index
    }
}

impl vstd::std_specs::convert::FromSpecImpl<Index> for usize {
    open spec fn obeys_from_spec() -> bool {
        true
    }

    open spec fn from_spec(v: Index) -> usize {
        v.pos() as usize
    }
}

/// The bag of values.
#[derive(Debug)]
pub struct IndexBag<T> {
    root: Node<T>,
    highest_position: usize,
}

impl<T> View for IndexBag<T> {
    type V = Seq<(Option<T>, nat)>;

    closed spec fn view(&self) -> Seq<(Option<T>, nat)> {
        view_of(self.root, self.highest_position as nat)
    }
}

impl<T> IndexBag<T> {
    /// The tree matches the high-water mark and the per-slot vacancy
    /// bookkeeping counts exactly the vacant entries of the view.
    pub closed spec fn well_formed(self) -> bool {
        &&& tree_ok(self.root, self.highest_position as nat)
        &&& vacant_count(self.root) == vacant_entries(self@)
    }

    /// Create an empty bag.
    pub fn new() -> (r: IndexBag<T>)
        ensures
            r.well_formed(),
            r@ == Seq::<(Option<T>, nat)>::empty(),
    {
        let bag = IndexBag { root: Node::Leaf, highest_position: 0 };
        proof {
            assert(bag@ =~= Seq::<(Option<T>, nat)>::empty());
            assert forall|q: nat| q >= 1 implies !(#[trigger] entry_along(
                bag.root,
                path_of(q),
            ) is Some) by {
                assert(subtree_along(bag.root, path_of(q)) is Leaf);
            }
        }
        bag
    }

    /// The number of positions ever allocated: the high-water mark, not
    /// the number of occupied slots.
    pub fn pool_size(&self) -> (r: usize)
        ensures
            r == self@.len(),
    {
        self.highest_position
    }

    /// The number of allocated but currently vacant slots, all of them
    /// candidates for reuse by the next insertions.
    pub fn unused_indexes(&self) -> (r: usize)
        requires
            self.well_formed(),
        ensures
            r as nat == vacant_entries(self@),
    {
        vacant_of(&self.root)
    }

    /// Insert a value.  A vacant slot is reused when one exists, with
    /// its generation stepped; only otherwise does the pool grow, by
    /// exactly the next position at generation zero.  The returned
    /// handle resolves to the value just stored.
    pub fn insert(&mut self, value: T) -> (r: Index)
        requires
            old(self).well_formed(),
            vacant_entries(old(self)@) == 0 ==> old(self)@.len() < usize::MAX,
        ensures
            final(self).well_formed(),
            1 <= r.pos(),
            view_get(final(self)@, r.pos(), r.gen()) == Some(value),
            final(self)@.len() >= old(self)@.len(),
            vacant_entries(old(self)@) > 0 ==> final(self)@.len() == old(self)@.len(),
            ({
                if vacant_entries(old(self)@) > 0 {
                    &&& r.pos() <= old(self)@.len()
                    &&& old(self)@[r.pos() - 1].0 is None
                    &&& r.gen() == next_gen(old(self)@[r.pos() - 1].1)
                    &&& final(self)@ == old(self)@.update(r.pos() - 1, (Some(value), r.gen()))
                } else {
                    &&& r.pos() == old(self)@.len() + 1
                    &&& r.gen() == 0
                    &&& final(self)@ == old(self)@.push((Some(value), 0nat))
                }
            }),
    {
        let ghost old_root = self.root;
        let ghost h = self.highest_position as nat;
        let vac = vacant_of(&self.root);
        if vac > 0 {
            let steps = find_vacant(&self.root);
            let ghost p = pos_of(steps@);
            proof {
                lemma_pos_of_at_least_one(steps@);
                lemma_path_of_pos_of(steps@);
                assert(path_of(p) == steps@);
                assert(entry_along(old_root, path_of(p)) is Some);
                assert(p <= h);
                assert(steps@.skip(0) =~= steps@);
            }
            let mut root = Node::Leaf;
            std::mem::swap(&mut root, &mut self.root);
            let (new_root, g, fresh) = place_at(root, &steps, 0, value);
            self.root = new_root;
            let pi = pos_for(&steps);
            proof {
                assert(!fresh);
                lemma_entry_in_view(old_root, h, p);
                lemma_view_update(old_root, self.root, h, p, (Some(value), g as nat));
                lemma_vacant_entries_update(
                    view_of(old_root, h),
                    p as int - 1,
                    (Some(value), g as nat),
                );
            }
            Index::new(pi, g)
        } else {
            proof {
                assert(h < usize::MAX as nat);
            }
            let p = self.highest_position + 1;
            let steps = steps_for(p);
            proof {
                lemma_prefixes_are_slots(old_root, h, p as nat);
                lemma_entry_in_view(old_root, h, p as nat);
                assert(subtree_along(old_root, path_of(p as nat)) is Leaf);
                assert(steps@.skip(0) =~= steps@);
            }
            let mut root = Node::Leaf;
            std::mem::swap(&mut root, &mut self.root);
            let (new_root, g, fresh) = place_at(root, &steps, 0, value);
            self.root = new_root;
            self.highest_position = p;
            proof {
                assert(fresh);
                lemma_view_push(old_root, self.root, h, (Some(value), 0nat));
                lemma_vacant_entries_push(view_of(old_root, h), (Some(value), 0nat));
            }
            Index::new(p, 0)
        }
    }

    /// Remove the value a handle addresses and hand it back.  The slot
    /// stays allocated, keeps its generation, and becomes vacant.  A
    /// handle that is not live — never-allocated position, vacant slot,
    /// or stale generation — removes nothing and yields nothing.
    pub fn remove(&mut self, index: Index) -> (r: Option<T>)
        requires
            old(self).well_formed(),
        ensures
            final(self).well_formed(),
            final(self)@.len() == old(self)@.len(),
            r == view_get(old(self)@, index.pos(), index.gen()),
            live(old(self)@, index.pos(), index.gen()) ==> final(self)@ == old(self)@.update(
                index.pos() - 1,
                (Option::<T>::None, index.gen()),
            ),
            !live(old(self)@, index.pos(), index.gen()) ==> final(self)@ == old(self)@,
    {
        let ghost old_root = self.root;
        let ghost h = self.highest_position as nat;
        let ghost p = index.index as nat;
        let ghost g = index.generation as nat;
        if index.index == 0 {
            return None;
        }
        let steps = steps_for(index.index);
        proof {
            assert(steps@.skip(0) =~= steps@);
            lemma_entry_in_view(old_root, h, p);
        }
        let mut root = Node::Leaf;
        std::mem::swap(&mut root, &mut self.root);
        let (new_root, removed) = remove_at(root, &steps, 0, index.generation);
        self.root = new_root;
        proof {
            if hit_along(old_root, steps@, g) {
                lemma_view_update(old_root, self.root, h, p, (Option::<T>::None, g));
                lemma_vacant_entries_update(
                    view_of(old_root, h),
                    p as int - 1,
                    (Option::<T>::None, g),
                );
            } else {
                assert(view_of(self.root, h) =~= view_of(old_root, h));
                assert forall|q: nat| q >= 1 implies (#[trigger] entry_along(
                    self.root,
                    path_of(q),
                ) is Some <==> q <= h) by {
                    assert(entry_along(self.root, path_of(q)) == entry_along(
                        old_root,
                        path_of(q),
                    ));
                }
            }
        }
        removed
    }

    /// Look up the value a handle addresses.  Yields a reference to the
    /// stored value exactly when the handle is live; a vacant slot, a
    /// never-allocated position, or a stale generation yields nothing.
    pub fn get(&self, index: Index) -> (r: Option<&T>)
        requires
            self.well_formed(),
        ensures
            ({
                match r {
                    Some(v) => view_get(self@, index.pos(), index.gen()) == Some(*v),
                    None => view_get(self@, index.pos(), index.gen()) is None,
                }
            }),
    {
        if index.index == 0 {
            return None;
        }
        let steps = steps_for(index.index);
        proof {
            assert(steps@.skip(0) =~= steps@);
            lemma_entry_in_view(self.root, self.highest_position as nat, index.index as nat);
        }
        get_at(&self.root, &steps, 0, index.generation)
    }

    /// Look up the value a handle addresses, mutably.  Yields a
    /// mutable reference to the stored value exactly when the handle is
    /// live; the borrower can change the value, never the slot's
    /// occupancy or generation.
    pub fn get_mut(&mut self, index: Index) -> (r: Option<&mut T>)
        requires
            old(self).well_formed(),
        ensures
            ({
                match r {
                    Some(v) => {
                        &&& view_get(old(self)@, index.pos(), index.gen()) == Some(*v)
                        &&& final(self)@ == old(self)@.update(
                            index.pos() - 1,
                            (Some(*final(v)), index.gen()),
                        )
                        &&& final(self).well_formed()
                    },
                    None => {
                        &&& view_get(old(self)@, index.pos(), index.gen()) is None
                        &&& *final(self) == *old(self)
                    },
                }
            }),
    {
        if index.index == 0 {
            return None;
        }
        let steps = steps_for(index.index);
        let ghost old_root = self.root;
        let ghost h = self.highest_position as nat;
        let ghost p = index.index as nat;
        let ghost g = index.generation as nat;
        proof {
            assert(steps@.skip(0) =~= steps@);
            lemma_entry_in_view(old_root, h, p);
            assert forall|f: Node<T>| #[trigger] same_except(old_root, f, steps@) implies {
                &&& p <= h
                &&& wf_node(f)
                &&& slot_count(f) == h
                &&& (forall|q: nat|
                    q >= 1 ==> (#[trigger] entry_along(f, path_of(q)) is Some <==> q <= h))
                &&& entry_along(f, steps@) is Some
                &&& view_of(f, h) == view_of(old_root, h).update(
                    p as int - 1,
                    entry_along(f, steps@).unwrap(),
                )
                &&& vacant_count(f) == vacant_entries(view_of(f, h))
            } by {
                lemma_same_except_frame(old_root, f, steps@);
                assert(entry_along(old_root, steps@) is Some);
                assert(p <= h);
                lemma_view_update(old_root, f, h, p, entry_along(f, steps@).unwrap());
                lemma_vacant_entries_update(
                    view_of(old_root, h),
                    p as int - 1,
                    entry_along(f, steps@).unwrap(),
                );
            }
        }
        get_mut_at(&mut self.root, &steps, 0, index.generation)
    }

    /// Rebuild a handle for a position from its raw integer form.  The
    /// handle carries the slot's current generation, so it addresses
    /// whatever now lives at that position; an out-of-range position
    /// yields nothing.
    pub fn get_index(&self, index: usize) -> (r: Option<Index>)
        requires
            self.well_formed(),
        ensures
            ({
                if 1 <= index && index as nat <= self@.len() {
                    match r {
                        Some(ix) => ix.pos() == index && ix.gen() == self@[index as int - 1].1,
                        None => false,
                    }
                } else {
                    r is None
                }
            }),
    {
        if index == 0 {
            return None;
        }
        let steps = steps_for(index);
        proof {
            assert(steps@.skip(0) =~= steps@);
            lemma_entry_in_view(self.root, self.highest_position as nat, index as nat);
        }
        match gen_at(&self.root, &steps, 0) {
            Some(g) => Some(Index::new(index, g)),
            None => None,
        }
    }
}

} // verus!
