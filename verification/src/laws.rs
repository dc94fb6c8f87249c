//! Laws the bag obeys, stated over the view that the public contracts
//! speak of and proved once and for all.

use vstd::prelude::*;

use crate::live;
use crate::next_gen;
use crate::view_get;

verus! {

/// Round trip: in any bag state whose slot at position `p` holds value
/// `v` at generation `g` — the state every insertion leaves behind for
/// its returned handle — a lookup with that handle yields `v`.
pub proof fn lemma_insert_get_round_trip<T>(s: Seq<(Option<T>, nat)>, p: int, v: T, g: nat)
    requires
        1 <= p <= s.len(),
        s[p - 1] == (Some(v), g),
    ensures
        live(s, p, g),
        view_get(s, p, g) == Some(v),
{
}

/// Remove, then miss: once a live handle's slot is cleared — the state
/// a successful removal leaves behind — the same handle no longer
/// resolves, so a second removal and a lookup both come back empty.
pub proof fn lemma_remove_then_miss<T>(s: Seq<(Option<T>, nat)>, p: int, g: nat)
    requires
        live(s, p, g),
    ensures
        !live(s.update(p - 1, (Option::<T>::None, g)), p, g),
        view_get(s.update(p - 1, (Option::<T>::None, g)), p, g) is None,
{
}

/// Generational isolation: repopulating a slot steps its generation to
/// a different one, so a handle minted before the reuse does not
/// resolve to the replacement value.
pub proof fn lemma_stale_handle_misses<T>(s: Seq<(Option<T>, nat)>, p: int, g: nat, v: T)
    requires
        1 <= p <= s.len(),
        s[p - 1].1 == g,
    ensures
        next_gen(g) != g,
        view_get(s.update(p - 1, (Some(v), next_gen(g))), p, g) is None,
        !live(s.update(p - 1, (Some(v), next_gen(g))), p, g),
{
}

} // verus!
