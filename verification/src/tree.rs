//! The slot tree: a binary tree whose nodes are either unallocated
//! leaves or slots carrying an optional value, a generation counter and
//! a count of the vacant slots in their subtree.

use vstd::prelude::*;

verus! {

/// A tree node: an unallocated leaf, or a slot that owns two subtrees.
#[derive(Debug)]
pub(crate) enum Node<T> {
    Leaf,
    Slot {
        value: Option<T>,
        generation: usize,
        vacant: usize,
        left: Box<Node<T>>,
        right: Box<Node<T>>,
    },
}

/// The subtree a step sequence leads to; walking past a leaf stays at a
/// leaf, so an unreachable address reads as unallocated.
pub(crate) open spec fn subtree_along<T>(n: Node<T>, path: Seq<bool>) -> Node<T>
    decreases path.len(),
{
    if path.len() == 0 {
        n
    } else {
        match n {
            Node::Leaf => Node::Leaf,
            Node::Slot { left, right, .. } => subtree_along(
                if path[0] {
                    *right
                } else {
                    *left
                },
                path.skip(1),
            ),
        }
    }
}

/// The slot contents at a step sequence: `None` where no slot was ever
/// allocated, otherwise the stored value and generation.
pub(crate) open spec fn entry_along<T>(n: Node<T>, path: Seq<bool>) -> Option<(Option<T>, nat)> {
    match subtree_along(n, path) {
        Node::Leaf => None,
        Node::Slot { value, generation, .. } => Some((value, generation as nat)),
    }
}

/// A live entry: an occupied slot whose generation matches the handle.
pub(crate) open spec fn hit_along<T>(n: Node<T>, path: Seq<bool>, gen: nat) -> bool {
    match entry_along(n, path) {
        Some((value, generation)) => value is Some && generation == gen,
        None => false,
    }
}

/// How many slots in the subtree currently hold no value.
pub(crate) open spec fn vacant_count<T>(n: Node<T>) -> nat
    decreases n,
{
    match n {
        Node::Leaf => 0,
        Node::Slot { value, left, right, .. } => (if value is None {
            1nat
        } else {
            0nat
        }) + vacant_count(*left) + vacant_count(*right),
    }
}

/// How many slots the subtree holds in all, occupied or vacant.
pub(crate) open spec fn slot_count<T>(n: Node<T>) -> nat
    decreases n,
{
    match n {
        Node::Leaf => 0,
        Node::Slot { left, right, .. } => 1 + slot_count(*left) + slot_count(*right),
    }
}

/// Every slot's stored vacancy count agrees with its subtree.
pub(crate) open spec fn wf_node<T>(n: Node<T>) -> bool
    decreases n,
{
    match n {
        Node::Leaf => true,
        Node::Slot { value, vacant, left, right, .. } => {
            &&& vacant as nat == (if value is None {
                1nat
            } else {
                0nat
            }) + vacant_count(*left) + vacant_count(*right)
            &&& wf_node(*left)
            &&& wf_node(*right)
        },
    }
}

/// No subtree has more vacant slots than slots.
pub(crate) proof fn lemma_vacant_le_slot<T>(n: Node<T>)
    ensures
        vacant_count(n) <= slot_count(n),
    decreases n,
{
    match n {
        Node::Leaf => {},
        Node::Slot { left, right, .. } => {
            lemma_vacant_le_slot(*left);
            lemma_vacant_le_slot(*right);
        },
    }
}

/// A subtree holding a vacant slot has a positive vacancy count.
pub(crate) proof fn lemma_vacant_entry_counted<T>(n: Node<T>, path: Seq<bool>)
    requires
        match entry_along(n, path) {
            Some((value, _)) => value is None,
            None => false,
        },
    ensures
        vacant_count(n) >= 1,
    decreases path.len(),
{
    match n {
        Node::Leaf => {},
        Node::Slot { left, right, .. } => {
            if path.len() > 0 {
                if path[0] {
                    lemma_vacant_entry_counted(*right, path.skip(1));
                } else {
                    lemma_vacant_entry_counted(*left, path.skip(1));
                }
            }
        },
    }
}

/// A subtree holding an occupied slot has fewer vacant slots than slots.
pub(crate) proof fn lemma_occupied_entry_counted<T>(n: Node<T>, path: Seq<bool>)
    requires
        match entry_along(n, path) {
            Some((value, _)) => value is Some,
            None => false,
        },
    ensures
        vacant_count(n) < slot_count(n),
    decreases path.len(),
{
    match n {
        Node::Leaf => {},
        Node::Slot { left, right, .. } => {
            lemma_vacant_le_slot(*left);
            lemma_vacant_le_slot(*right);
            if path.len() > 0 {
                if path[0] {
                    lemma_occupied_entry_counted(*right, path.skip(1));
                } else {
                    lemma_occupied_entry_counted(*left, path.skip(1));
                }
            }
        },
    }
}

/// Appending one step moves from a subtree to one of its children.
pub(crate) proof fn lemma_subtree_along_push<T>(n: Node<T>, path: Seq<bool>, b: bool)
    ensures
        subtree_along(n, path.push(b)) == (match subtree_along(n, path) {
            Node::Leaf => Node::<T>::Leaf,
            Node::Slot { left, right, .. } => if b {
                *right
            } else {
                *left
            },
        }),
    decreases path.len(),
{
    if path.len() == 0 {
        let single = path.push(b);
        assert(single[0] == b);
        assert(single.skip(1) =~= Seq::<bool>::empty());
        match n {
            Node::Leaf => {
                assert(subtree_along(n, single) == Node::<T>::Leaf);
            },
            Node::Slot { left, right, .. } => {
                let child = if b {
                    *right
                } else {
                    *left
                };
                assert(subtree_along(n, single) == subtree_along(child, single.skip(1)));
                assert(subtree_along(child, single.skip(1)) == child);
            },
        }
    } else {
        match n {
            Node::Leaf => {
                assert(subtree_along(n, path.push(b)) == Node::<T>::Leaf);
            },
            Node::Slot { left, right, .. } => {
                let child = if path[0] {
                    *right
                } else {
                    *left
                };
                assert(path.push(b)[0] == path[0]);
                assert(path.push(b).skip(1) =~= path.skip(1).push(b));
                assert(subtree_along(n, path.push(b)) == subtree_along(
                    child,
                    path.skip(1).push(b),
                ));
                assert(subtree_along(n, path) == subtree_along(child, path.skip(1)));
                lemma_subtree_along_push(child, path.skip(1), b);
            },
        }
    }
}

/// Two step sequences with the same first step and the same remainder
/// are the same sequence.
pub(crate) proof fn lemma_paths_differ_in_tail(a: Seq<bool>, b: Seq<bool>)
    requires
        a.len() > 0,
        b.len() > 0,
        a[0] == b[0],
        a != b,
    ensures
        a.skip(1) != b.skip(1),
{
    if a.skip(1) == b.skip(1) {
        assert(a.skip(1).len() == a.len() - 1);
        assert(b.skip(1).len() == b.len() - 1);
        assert(a.len() == b.len());
        assert forall|i: int| 0 <= i < a.len() implies a[i] == b[i] by {
            if i > 0 {
                assert(a.skip(1)[i - 1] == a[i]);
                assert(b.skip(1)[i - 1] == b[i]);
            }
        }
        assert(a =~= b);
    }
}

/// Read a node's stored vacancy count; a leaf has none.
pub(crate) fn vacant_of<T>(node: &Node<T>) -> (r: usize)
    requires
        wf_node(*node),
    ensures
        r as nat == vacant_count(*node),
{
    match node {
        Node::Leaf => 0,
        Node::Slot { vacant, .. } => *vacant,
    }
}

/// Walk a step sequence and return the addressed value, provided the
/// slot exists, is occupied, and carries the expected generation.
pub(crate) fn get_at<'a, T>(node: &'a Node<T>, path: &Vec<bool>, i: usize, gen: usize) -> (r:
    Option<&'a T>)
    requires
        i <= path@.len(),
    ensures
        ({
            let rest = path@.skip(i as int);
            match r {
                Some(v) => entry_along(*node, rest) == Some((Some(*v), gen as nat)),
                None => !hit_along(*node, rest, gen as nat),
            }
        }),
    decreases path@.len() - i,
{
    let ghost rest = path@.skip(i as int);
    if i == path.len() {
        proof {
            assert(rest =~= Seq::<bool>::empty());
        }
        match node {
            Node::Leaf => None,
            Node::Slot { value, generation, .. } => {
                if *generation == gen {
                    match value {
                        Some(v) => Some(v),
                        None => None,
                    }
                } else {
                    None
                }
            },
        }
    } else {
        match node {
            Node::Leaf => None,
            Node::Slot { left, right, .. } => {
                proof {
                    assert(rest.len() > 0);
                    assert(rest[0] == path@[i as int]);
                    assert(rest.skip(1) =~= path@.skip(i + 1));
                }
                if path[i] {
                    get_at(right, path, i + 1, gen)
                } else {
                    get_at(left, path, i + 1, gen)
                }
            },
        }
    }
}

/// Walk a step sequence and report the addressed slot's generation, if
/// the slot was ever allocated.
pub(crate) fn gen_at<T>(node: &Node<T>, path: &Vec<bool>, i: usize) -> (r: Option<usize>)
    requires
        i <= path@.len(),
    ensures
        ({
            let rest = path@.skip(i as int);
            match r {
                Some(g) => match entry_along(*node, rest) {
                    Some((_, generation)) => generation == g as nat,
                    None => false,
                },
                None => entry_along(*node, rest) is None,
            }
        }),
    decreases path@.len() - i,
{
    let ghost rest = path@.skip(i as int);
    if i == path.len() {
        proof {
            assert(rest =~= Seq::<bool>::empty());
        }
        match node {
            Node::Leaf => None,
            Node::Slot { generation, .. } => Some(*generation),
        }
    } else {
        match node {
            Node::Leaf => None,
            Node::Slot { left, right, .. } => {
                proof {
                    assert(rest[0] == path@[i as int]);
                    assert(rest.skip(1) =~= path@.skip(i + 1));
                }
                if path[i] {
                    gen_at(right, path, i + 1)
                } else {
                    gen_at(left, path, i + 1)
                }
            },
        }
    }
}

/// Place a value at the slot a step sequence addresses, either by
/// materializing the leaf there as a brand-new slot at generation zero,
/// or by repopulating a vacant slot and stepping its generation.  Every
/// slot passed on the way down sees its vacancy count adjusted.
pub(crate) fn place_at<T>(node: Node<T>, path: &Vec<bool>, i: usize, value: T) -> (r: (
    Node<T>,
    usize,
    bool,
))
    requires
        i <= path@.len(),
        wf_node(node),
        forall|j: int|
            i <= j < path@.len() ==> #[trigger] subtree_along(
                node,
                path@.subrange(i as int, j),
            ) is Slot,
        subtree_along(node, path@.skip(i as int)) is Leaf || (match entry_along(
            node,
            path@.skip(i as int),
        ) {
            Some((v, _)) => v is None,
            None => false,
        }),
    ensures
        wf_node(r.0),
        r.2 == (subtree_along(node, path@.skip(i as int)) is Leaf),
        entry_along(r.0, path@.skip(i as int)) == Some((Some(value), r.1 as nat)),
        r.2 ==> r.1 == 0,
        !r.2 ==> (match entry_along(node, path@.skip(i as int)) {
            Some((_, g)) => r.1 as nat == crate::next_gen(g),
            None => false,
        }),
        slot_count(r.0) == slot_count(node) + (if r.2 {
            1nat
        } else {
            0nat
        }),
        vacant_count(node) == vacant_count(r.0) + (if r.2 {
            0nat
        } else {
            1nat
        }),
        forall|other: Seq<bool>|
            other != path@.skip(i as int) ==> #[trigger] entry_along(r.0, other) == entry_along(
                node,
                other,
            ),
    decreases path@.len() - i,
{
    let ghost rest = path@.skip(i as int);
    if i == path.len() {
        proof {
            assert(rest =~= Seq::<bool>::empty());
        }
        match node {
            Node::Leaf => {
                let new_node = Node::Slot {
                    value: Some(value),
                    generation: 0,
                    vacant: 0,
                    left: Box::new(Node::Leaf),
                    right: Box::new(Node::Leaf),
                };
                proof {
                    assert(vacant_count::<T>(Node::Leaf) == 0);
                    assert(slot_count::<T>(Node::Leaf) == 0);
                    assert(wf_node(new_node));
                    assert(subtree_along(new_node, rest) == new_node);
                    assert forall|other: Seq<bool>| other != rest implies #[trigger] entry_along(
                        new_node,
                        other,
                    ) == entry_along(node, other) by {
                        if other.len() == 0 {
                            assert(other =~= rest);
                        } else {
                            assert(subtree_along(new_node, other) == subtree_along(
                                Node::<T>::Leaf,
                                other.skip(1),
                            ));
                            assert(subtree_along(Node::<T>::Leaf, other.skip(1)) is Leaf);
                            assert(subtree_along(node, other) is Leaf);
                        }
                    }
                }
                (new_node, 0, true)
            },
            Node::Slot { value: old_value, generation, vacant, left, right } => {
                let g = if generation == usize::MAX {
                    0
                } else {
                    generation + 1
                };
                let new_node = Node::Slot {
                    value: Some(value),
                    generation: g,
                    vacant: vacant - 1,
                    left,
                    right,
                };
                proof {
                    assert(subtree_along(node, rest) == node);
                    assert(subtree_along(new_node, rest) == new_node);
                    assert(wf_node(new_node));
                    assert forall|other: Seq<bool>| other != rest implies #[trigger] entry_along(
                        new_node,
                        other,
                    ) == entry_along(node, other) by {
                        if other.len() == 0 {
                            assert(other =~= rest);
                        } else {
                            assert(subtree_along(new_node, other) == subtree_along(
                                if other[0] {
                                    subtree_right(new_node)
                                } else {
                                    subtree_left(new_node)
                                },
                                other.skip(1),
                            ));
                            assert(subtree_along(node, other) == subtree_along(
                                if other[0] {
                                    subtree_right(node)
                                } else {
                                    subtree_left(node)
                                },
                                other.skip(1),
                            ));
                        }
                    }
                }
                (new_node, g, false)
            },
        }
    } else {
        proof {
            assert(path@.subrange(i as int, i as int) =~= Seq::<bool>::empty());
            assert(subtree_along(node, path@.subrange(i as int, i as int)) is Slot);
        }
        match node {
            Node::Leaf => {
                proof {
                    assert(false);
                }
                (Node::Leaf, 0, false)
            },
            Node::Slot { value: old_value, generation, vacant, left, right } => {
                let b = path[i];
                proof {
                    let child = if b {
                        *right
                    } else {
                        *left
                    };
                    assert(rest.len() > 0);
                    assert(rest[0] == b);
                    assert(rest.skip(1) =~= path@.skip(i + 1));
                    assert forall|j: int|
                        i + 1 <= j < path@.len() implies #[trigger] subtree_along(
                        child,
                        path@.subrange(i + 1, j),
                    ) is Slot by {
                        assert(subtree_along(node, path@.subrange(i as int, j)) is Slot);
                        assert(path@.subrange(i as int, j)[0] == b);
                        assert(path@.subrange(i as int, j).skip(1) =~= path@.subrange(i + 1, j));
                        assert(subtree_along(node, path@.subrange(i as int, j)) == subtree_along(
                            child,
                            path@.subrange(i as int, j).skip(1),
                        ));
                    }
                    assert(subtree_along(node, rest) == subtree_along(child, path@.skip(i + 1)));
                }
                if b {
                    let (new_right, g, fresh) = place_at(*right, path, i + 1, value);
                    proof {
                        if !fresh {
                            lemma_vacant_entry_counted(*right, path@.skip(i + 1));
                        }
                    }
                    let new_vacant = if fresh {
                        vacant
                    } else {
                        vacant - 1
                    };
                    let new_node = Node::Slot {
                        value: old_value,
                        generation,
                        vacant: new_vacant,
                        left,
                        right: Box::new(new_right),
                    };
                    proof {
                        assert(subtree_along(new_node, rest) == subtree_along(
                            new_right,
                            rest.skip(1),
                        ));
                        assert forall|other: Seq<bool>|
                            other != rest implies #[trigger] entry_along(new_node, other)
                            == entry_along(node, other) by {
                            lemma_place_frame_step(node, new_node, new_right, rest, other, true);
                        }
                    }
                    (new_node, g, fresh)
                } else {
                    let (new_left, g, fresh) = place_at(*left, path, i + 1, value);
                    proof {
                        if !fresh {
                            lemma_vacant_entry_counted(*left, path@.skip(i + 1));
                        }
                    }
                    let new_vacant = if fresh {
                        vacant
                    } else {
                        vacant - 1
                    };
                    let new_node = Node::Slot {
                        value: old_value,
                        generation,
                        vacant: new_vacant,
                        left: Box::new(new_left),
                        right,
                    };
                    proof {
                        assert(subtree_along(new_node, rest) == subtree_along(
                            new_left,
                            rest.skip(1),
                        ));
                        assert forall|other: Seq<bool>|
                            other != rest implies #[trigger] entry_along(new_node, other)
                            == entry_along(node, other) by {
                            lemma_place_frame_step(node, new_node, new_left, rest, other, false);
                        }
                    }
                    (new_node, g, fresh)
                }
            },
        }
    }
}

/// The left child's subtree; a leaf's reads as a leaf.
pub(crate) open spec fn subtree_left<T>(n: Node<T>) -> Node<T> {
    match n {
        Node::Leaf => Node::Leaf,
        Node::Slot { left, .. } => *left,
    }
}

/// The right child's subtree; a leaf's reads as a leaf.
pub(crate) open spec fn subtree_right<T>(n: Node<T>) -> Node<T> {
    match n {
        Node::Leaf => Node::Leaf,
        Node::Slot { right, .. } => *right,
    }
}

/// One step of the frame argument: a slot rebuilt with one child
/// subtree replaced reads unchanged at every address that does not run
/// through the replaced part, provided the new child itself reads
/// unchanged away from the updated remainder.
proof fn lemma_place_frame_step<T>(
    node: Node<T>,
    new_node: Node<T>,
    new_child: Node<T>,
    rest: Seq<bool>,
    other: Seq<bool>,
    b: bool,
)
    requires
        rest.len() > 0,
        rest[0] == b,
        node is Slot,
        new_node is Slot,
        subtree_left(new_node) == (if b {
            subtree_left(node)
        } else {
            new_child
        }),
        subtree_right(new_node) == (if b {
            new_child
        } else {
            subtree_right(node)
        }),
        entry_along(new_node, Seq::<bool>::empty()) == entry_along(node, Seq::<bool>::empty()),
        forall|q: Seq<bool>|
            q != rest.skip(1) ==> #[trigger] entry_along(new_child, q) == entry_along(
                (if b {
                    subtree_right(node)
                } else {
                    subtree_left(node)
                }),
                q,
            ),
        other != rest,
    ensures
        entry_along(new_node, other) == entry_along(node, other),
{
    if other.len() == 0 {
        assert(subtree_along(new_node, other) == new_node);
        assert(subtree_along(node, other) == node);
    } else {
        assert(subtree_along(new_node, other) == subtree_along(
            if other[0] {
                subtree_right(new_node)
            } else {
                subtree_left(new_node)
            },
            other.skip(1),
        ));
        assert(subtree_along(node, other) == subtree_along(
            if other[0] {
                subtree_right(node)
            } else {
                subtree_left(node)
            },
            other.skip(1),
        ));
        if other[0] == b {
            lemma_paths_differ_in_tail(other, rest);
            assert(entry_along(new_child, other.skip(1)) == entry_along(
                (if b {
                    subtree_right(node)
                } else {
                    subtree_left(node)
                }),
                other.skip(1),
            ));
        }
    }
}

/// Clear the slot a step sequence addresses and hand its value back,
/// provided the slot exists, is occupied, and carries the expected
/// generation; the slot keeps its generation, and every slot on the way
/// down gains one vacancy.  Any miss leaves the tree as it was.
pub(crate) fn remove_at<T>(node: Node<T>, path: &Vec<bool>, i: usize, gen: usize) -> (r: (
    Node<T>,
    Option<T>,
))
    requires
        i <= path@.len(),
        wf_node(node),
        slot_count(node) <= usize::MAX,
    ensures
        wf_node(r.0),
        slot_count(r.0) == slot_count(node),
        hit_along(node, path@.skip(i as int), gen as nat) ==> {
            &&& r.1 == (match entry_along(node, path@.skip(i as int)) {
                Some((v, _)) => v,
                None => None,
            })
            &&& r.1 is Some
            &&& entry_along(r.0, path@.skip(i as int)) == Some((Option::<T>::None, gen as nat))
            &&& vacant_count(r.0) == vacant_count(node) + 1
            &&& forall|other: Seq<bool>|
                other != path@.skip(i as int) ==> #[trigger] entry_along(r.0, other)
                    == entry_along(node, other)
        },
        !hit_along(node, path@.skip(i as int), gen as nat) ==> {
            &&& r.1 is None
            &&& vacant_count(r.0) == vacant_count(node)
            &&& forall|other: Seq<bool>| #[trigger] entry_along(r.0, other) == entry_along(
                node,
                other,
            )
        },
    decreases path@.len() - i,
{
    let ghost rest = path@.skip(i as int);
    if i == path.len() {
        proof {
            assert(rest =~= Seq::<bool>::empty());
        }
        match node {
            Node::Leaf => (Node::Leaf, None),
            Node::Slot { value, generation, vacant, left, right } => {
                let ghost old_node = node;
                if generation == gen {
                    match value {
                        Some(v) => {
                            proof {
                                assert(subtree_along(old_node, rest) == old_node);
                                lemma_occupied_entry_counted(old_node, rest);
                            }
                            let new_node = Node::Slot {
                                value: None,
                                generation,
                                vacant: vacant + 1,
                                left,
                                right,
                            };
                            proof {
                                assert(wf_node(new_node));
                                assert(subtree_along(new_node, rest) == new_node);
                                assert forall|other: Seq<bool>|
                                    other != rest implies #[trigger] entry_along(new_node, other)
                                    == entry_along(old_node, other) by {
                                    if other.len() == 0 {
                                        assert(other =~= rest);
                                    } else {
                                        assert(subtree_along(new_node, other) == subtree_along(
                                            if other[0] {
                                                subtree_right(new_node)
                                            } else {
                                                subtree_left(new_node)
                                            },
                                            other.skip(1),
                                        ));
                                        assert(subtree_along(old_node, other) == subtree_along(
                                            if other[0] {
                                                subtree_right(old_node)
                                            } else {
                                                subtree_left(old_node)
                                            },
                                            other.skip(1),
                                        ));
                                    }
                                }
                            }
                            (new_node, Some(v))
                        },
                        None => {
                            let new_node = Node::Slot {
                                value: None,
                                generation,
                                vacant,
                                left,
                                right,
                            };
                            proof {
                                assert(new_node == old_node);
                            }
                            (new_node, None)
                        },
                    }
                } else {
                    let new_node = Node::Slot { value, generation, vacant, left, right };
                    proof {
                        assert(new_node == old_node);
                        assert(subtree_along(old_node, rest) == old_node);
                    }
                    (new_node, None)
                }
            },
        }
    } else {
        match node {
            Node::Leaf => {
                proof {
                    assert(subtree_along(Node::<T>::Leaf, rest) is Leaf);
                }
                (Node::Leaf, None)
            },
            Node::Slot { value, generation, vacant, left, right } => {
                let ghost old_node = node;
                let b = path[i];
                proof {
                    let child = if b {
                        *right
                    } else {
                        *left
                    };
                    assert(rest.len() > 0);
                    assert(rest[0] == b);
                    assert(rest.skip(1) =~= path@.skip(i + 1));
                    assert(subtree_along(old_node, rest) == subtree_along(
                        child,
                        path@.skip(i + 1),
                    ));
                }
                if b {
                    let (new_right, removed) = remove_at(*right, path, i + 1, gen);
                    proof {
                        if removed.is_some() {
                            lemma_occupied_entry_counted(*right, path@.skip(i + 1));
                            lemma_vacant_le_slot(*left);
                        }
                    }
                    let new_vacant = if removed.is_some() {
                        vacant + 1
                    } else {
                        vacant
                    };
                    let new_node = Node::Slot {
                        value,
                        generation,
                        vacant: new_vacant,
                        left,
                        right: Box::new(new_right),
                    };
                    proof {
                        assert(subtree_along(new_node, rest) == subtree_along(
                            new_right,
                            rest.skip(1),
                        ));
                        if hit_along(old_node, rest, gen as nat) {
                            assert forall|other: Seq<bool>|
                                other != rest implies #[trigger] entry_along(new_node, other)
                                == entry_along(old_node, other) by {
                                lemma_place_frame_step(
                                    old_node,
                                    new_node,
                                    new_right,
                                    rest,
                                    other,
                                    true,
                                );
                            }
                        } else {
                            assert forall|other: Seq<bool>| #[trigger] entry_along(new_node, other)
                                == entry_along(old_node, other) by {
                                lemma_remove_miss_frame_step(
                                    old_node,
                                    new_node,
                                    new_right,
                                    other,
                                    true,
                                );
                            }
                        }
                    }
                    (new_node, removed)
                } else {
                    let (new_left, removed) = remove_at(*left, path, i + 1, gen);
                    proof {
                        if removed.is_some() {
                            lemma_occupied_entry_counted(*left, path@.skip(i + 1));
                            lemma_vacant_le_slot(*right);
                        }
                    }
                    let new_vacant = if removed.is_some() {
                        vacant + 1
                    } else {
                        vacant
                    };
                    let new_node = Node::Slot {
                        value,
                        generation,
                        vacant: new_vacant,
                        left: Box::new(new_left),
                        right,
                    };
                    proof {
                        assert(subtree_along(new_node, rest) == subtree_along(
                            new_left,
                            rest.skip(1),
                        ));
                        if hit_along(old_node, rest, gen as nat) {
                            assert forall|other: Seq<bool>|
                                other != rest implies #[trigger] entry_along(new_node, other)
                                == entry_along(old_node, other) by {
                                lemma_place_frame_step(
                                    old_node,
                                    new_node,
                                    new_left,
                                    rest,
                                    other,
                                    false,
                                );
                            }
                        } else {
                            assert forall|other: Seq<bool>| #[trigger] entry_along(new_node, other)
                                == entry_along(old_node, other) by {
                                lemma_remove_miss_frame_step(
                                    old_node,
                                    new_node,
                                    new_left,
                                    other,
                                    false,
                                );
                            }
                        }
                    }
                    (new_node, removed)
                }
            },
        }
    }
}

/// A slot rebuilt with one child subtree replaced reads unchanged at
/// every address when the new child itself reads unchanged everywhere.
proof fn lemma_remove_miss_frame_step<T>(
    node: Node<T>,
    new_node: Node<T>,
    new_child: Node<T>,
    other: Seq<bool>,
    b: bool,
)
    requires
        node is Slot,
        new_node is Slot,
        subtree_left(new_node) == (if b {
            subtree_left(node)
        } else {
            new_child
        }),
        subtree_right(new_node) == (if b {
            new_child
        } else {
            subtree_right(node)
        }),
        entry_along(new_node, Seq::<bool>::empty()) == entry_along(node, Seq::<bool>::empty()),
        forall|q: Seq<bool>|
            #[trigger] entry_along(new_child, q) == entry_along(
                (if b {
                    subtree_right(node)
                } else {
                    subtree_left(node)
                }),
                q,
            ),
    ensures
        entry_along(new_node, other) == entry_along(node, other),
{
    if other.len() == 0 {
        assert(subtree_along(new_node, other) == new_node);
        assert(subtree_along(node, other) == node);
    } else {
        assert(subtree_along(new_node, other) == subtree_along(
            if other[0] {
                subtree_right(new_node)
            } else {
                subtree_left(new_node)
            },
            other.skip(1),
        ));
        assert(subtree_along(node, other) == subtree_along(
            if other[0] {
                subtree_right(node)
            } else {
                subtree_left(node)
            },
            other.skip(1),
        ));
        if other[0] == b {
            assert(entry_along(new_child, other.skip(1)) == entry_along(
                (if b {
                    subtree_right(node)
                } else {
                    subtree_left(node)
                }),
                other.skip(1),
            ));
        }
    }
}

/// One tree reads as another with only the payload of the occupied
/// slot at the given address replaced: same shape, same generations,
/// same vacancy bookkeeping, both occupied there.
pub(crate) open spec fn same_except<T>(o: Node<T>, f: Node<T>, rest: Seq<bool>) -> bool
    decreases rest.len(),
{
    if rest.len() == 0 {
        match (o, f) {
            (
                Node::Slot { value: ov, generation: og, vacant: ovac, left: ol, right: orr },
                Node::Slot { value: fv, generation: fg, vacant: fvac, left: fl, right: fr },
            ) => {
                &&& ov is Some
                &&& fv is Some
                &&& og == fg
                &&& ovac == fvac
                &&& ol == fl
                &&& orr == fr
            },
            _ => false,
        }
    } else {
        match (o, f) {
            (
                Node::Slot { value: ov, generation: og, vacant: ovac, left: ol, right: orr },
                Node::Slot { value: fv, generation: fg, vacant: fvac, left: fl, right: fr },
            ) => {
                &&& ov == fv
                &&& og == fg
                &&& ovac == fvac
                &&& if rest[0] {
                    ol == fl && same_except(*orr, *fr, rest.skip(1))
                } else {
                    orr == fr && same_except(*ol, *fl, rest.skip(1))
                }
            },
            _ => false,
        }
    }
}

/// A payload-only replacement keeps the tree well formed and all its
/// counts, keeps the addressed slot occupied at its generation, and
/// reads unchanged at every other address.
pub(crate) proof fn lemma_same_except_frame<T>(o: Node<T>, f: Node<T>, rest: Seq<bool>)
    requires
        wf_node(o),
        same_except(o, f, rest),
    ensures
        wf_node(f),
        vacant_count(f) == vacant_count(o),
        slot_count(f) == slot_count(o),
        match (entry_along(o, rest), entry_along(f, rest)) {
            (Some((ov, og)), Some((fv, fg))) => ov is Some && fv is Some && og == fg,
            _ => false,
        },
        forall|other: Seq<bool>|
            other != rest ==> #[trigger] entry_along(f, other) == entry_along(o, other),
    decreases rest.len(),
{
    if rest.len() == 0 {
        assert(subtree_along(o, rest) == o);
        assert(subtree_along(f, rest) == f);
        assert forall|other: Seq<bool>| other != rest implies #[trigger] entry_along(f, other)
            == entry_along(o, other) by {
            if other.len() == 0 {
                assert(other =~= rest);
            } else {
                assert(subtree_along(f, other) == subtree_along(
                    if other[0] {
                        subtree_right(f)
                    } else {
                        subtree_left(f)
                    },
                    other.skip(1),
                ));
                assert(subtree_along(o, other) == subtree_along(
                    if other[0] {
                        subtree_right(o)
                    } else {
                        subtree_left(o)
                    },
                    other.skip(1),
                ));
            }
        }
    } else {
        let b = rest[0];
        let oc = if b {
            subtree_right(o)
        } else {
            subtree_left(o)
        };
        let fc = if b {
            subtree_right(f)
        } else {
            subtree_left(f)
        };
        lemma_same_except_frame(oc, fc, rest.skip(1));
        assert(subtree_along(o, rest) == subtree_along(oc, rest.skip(1)));
        assert(subtree_along(f, rest) == subtree_along(fc, rest.skip(1)));
        assert forall|other: Seq<bool>| other != rest implies #[trigger] entry_along(f, other)
            == entry_along(o, other) by {
            lemma_place_frame_step(o, f, fc, rest, other, b);
        }
    }
}

/// Walk a step sequence and lend out the addressed value mutably,
/// provided the slot exists, is occupied, and carries the expected
/// generation.  The borrower can change the value but not the slot\'s
/// occupancy or generation, so the tree\'s shape and counts are kept.
pub(crate) fn get_mut_at<'a, T>(node: &'a mut Node<T>, path: &Vec<bool>, i: usize, gen: usize) -> (r:
    Option<&'a mut T>)
    requires
        i <= path@.len(),
    ensures
        ({
            let rest = path@.skip(i as int);
            match r {
                Some(v) => {
                    &&& entry_along(*old(node), rest) == Some((Some(*v), gen as nat))
                    &&& entry_along(*final(node), rest) == Some((Some(*final(v)), gen as nat))
                    &&& same_except(*old(node), *final(node), rest)
                },
                None => {
                    &&& !hit_along(*old(node), rest, gen as nat)
                    &&& *final(node) == *old(node)
                },
            }
        }),
    decreases path@.len() - i,
{
    let ghost rest = path@.skip(i as int);
    let ghost old_node = *node;
    if i == path.len() {
        proof {
            assert(rest =~= Seq::<bool>::empty());
            assert(subtree_along(old_node, rest) == old_node);
        }
        match node {
            Node::Leaf => None,
            Node::Slot { value, generation, .. } => {
                if *generation == gen {
                    match value {
                        Some(v) => Some(v),
                        None => None,
                    }
                } else {
                    None
                }
            },
        }
    } else {
        match node {
            Node::Leaf => None,
            Node::Slot { left, right, .. } => {
                proof {
                    assert(rest.len() > 0);
                    assert(rest[0] == path@[i as int]);
                    assert(rest.skip(1) =~= path@.skip(i + 1));
                }
                if path[i] {
                    get_mut_at(&mut **right, path, i + 1, gen)
                } else {
                    get_mut_at(&mut **left, path, i + 1, gen)
                }
            },
        }
    }
}

/// Descend towards some vacant slot, preferring the node itself, then
/// the left child's subtree, then the right child's.
pub(crate) fn find_vacant<T>(node: &Node<T>) -> (r: Vec<bool>)
    requires
        wf_node(*node),
        vacant_count(*node) >= 1,
    ensures
        ({
            match entry_along(*node, r@) {
                Some((value, _)) => value is None,
                None => false,
            }
        }),
        forall|j: int|
            0 <= j < r@.len() ==> #[trigger] subtree_along(*node, r@.subrange(0, j)) is Slot,
{
    let mut steps: Vec<bool> = Vec::new();
    let mut cur: &Node<T> = node;
    loop
        invariant
            wf_node(*node),
            wf_node(*cur),
            vacant_count(*cur) >= 1,
            subtree_along(*node, steps@) == *cur,
            forall|j: int|
                0 <= j < steps@.len() ==> #[trigger] subtree_along(
                    *node,
                    steps@.subrange(0, j),
                ) is Slot,
        decreases slot_count(*cur),
    {
        match cur {
            Node::Leaf => {
                proof {
                    assert(false);
                }
                return Vec::new();
            },
            Node::Slot { value, left, right, .. } => {
                if value.is_none() {
                    proof {
                        assert(steps@.skip(0) =~= steps@);
                    }
                    return steps;
                }
                let ghost prev = steps@;
                let go_right = vacant_of(left) == 0;
                proof {
                    lemma_subtree_along_push(*node, steps@, go_right);
                    assert forall|j: int| 0 <= j < prev.len() + 1 implies #[trigger] subtree_along(
                        *node,
                        prev.push(go_right).subrange(0, j),
                    ) is Slot by {
                        if j < prev.len() {
                            assert(prev.push(go_right).subrange(0, j) =~= prev.subrange(0, j));
                        } else {
                            assert(prev.push(go_right).subrange(0, j) =~= prev);
                        }
                    }
                }
                if go_right {
                    steps.push(true);
                    cur = right;
                } else {
                    steps.push(false);
                    cur = left;
                }
            },
        }
    }
}

} // verus!
