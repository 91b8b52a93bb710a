//! The laws the store obeys, stated over the spec-level model that the
//! operations' contracts use: [`Bowl::org_items`] for what a partition
//! holds, and [`with_state`] for the state-filtered view of a partition.

use vstd::prelude::*;

use crate::lifecycle::State;
use crate::record::MediaTrait;
use crate::store::Bowl;
use crate::store::with_state;

verus! {

/// Round trip: after an insert (the relation `add` establishes between the
/// store before and after), a lookup at the inserted item's coordinates
/// finds exactly that item.
pub proof fn lemma_round_trip<T: MediaTrait>(pre: Bowl<T>, post: Bowl<T>, v: T)
    requires
        post.org_items(v.spec_organization()) == pre.org_items(v.spec_organization()).insert(
            v.spec_uuid(),
            v,
        ),
    ensures
        post.has(v.spec_organization(), v.spec_uuid()),
        post.org_items(v.spec_organization())[v.spec_uuid()] == v,
{
}

/// Replace semantics: after an insert of `v2` at the coordinate both values
/// share, that coordinate holds only `v2`, and unless the two values are
/// equal the replaced value `v1` is stored nowhere in the whole store — so
/// no lookup and no state-filtered enumeration can return it again.
pub proof fn lemma_replace<T: MediaTrait>(pre: Bowl<T>, post: Bowl<T>, v1: T, v2: T)
    requires
        post.inv(),
        v1.spec_uuid() == v2.spec_uuid(),
        v1.spec_organization() == v2.spec_organization(),
        post.org_items(v2.spec_organization()) == pre.org_items(v2.spec_organization()).insert(
            v2.spec_uuid(),
            v2,
        ),
    ensures
        post.org_items(v2.spec_organization())[v2.spec_uuid()] == v2,
        v1 != v2 ==> forall|o: Seq<char>, u: Seq<char>|
            post.has(o, u) ==> #[trigger] post.org_items(o)[u] != v1,
        v1 != v2 ==> forall|o: Seq<char>, u: Seq<char>|
            #[trigger] with_state(post.org_items(o), v1.spec_state()).contains_key(u)
                ==> with_state(post.org_items(o), v1.spec_state())[u] != v1,
{
    if v1 != v2 {
        assert forall|o: Seq<char>, u: Seq<char>| post.has(o, u) implies #[trigger] post.org_items(
            o,
        )[u] != v1 by {
            post.lemma_stored_coordinates(o, u);
            if o == v2.spec_organization() && u == v2.spec_uuid() {
                assert(post.org_items(o)[u] == v2);
            }
        }
        assert forall|o: Seq<char>, u: Seq<char>| #[trigger] with_state(
            post.org_items(o),
            v1.spec_state(),
        ).contains_key(u) implies with_state(post.org_items(o), v1.spec_state())[u] != v1 by {
            assert(post.has(o, u));
            assert(post.org_items(o)[u] != v1);
        }
    }
}

/// Isolation by organization: items stored under two distinct organizations
/// are never the same item, whatever their identifiers — each stored item
/// records the one organization it was filed under.
pub proof fn lemma_org_isolation<T: MediaTrait>(
    b: Bowl<T>,
    o1: Seq<char>,
    o2: Seq<char>,
    u1: Seq<char>,
    u2: Seq<char>,
)
    requires
        b.inv(),
        o1 != o2,
        b.has(o1, u1),
        b.has(o2, u2),
    ensures
        b.org_items(o1)[u1] != b.org_items(o2)[u2],
{
    b.lemma_stored_coordinates(o1, u1);
    b.lemma_stored_coordinates(o2, u2);
}

/// Deletion: removing a coordinate empties exactly that coordinate. Every
/// other coordinate of the same organization is untouched, and removing an
/// absent coordinate changes nothing at all.
pub proof fn lemma_delete_effect<T: MediaTrait>(
    pre: Bowl<T>,
    post: Bowl<T>,
    o: Seq<char>,
    u: Seq<char>,
)
    requires
        post.org_items(o) == pre.org_items(o).remove(u),
    ensures
        !post.has(o, u),
        forall|u2: Seq<char>| u2 != u ==> ((#[trigger] post.has(o, u2)) <==> pre.has(o, u2)),
        forall|u2: Seq<char>|
            u2 != u && pre.has(o, u2) ==> #[trigger] post.org_items(o)[u2] == pre.org_items(o)[u2],
        !pre.has(o, u) ==> post.org_items(o) == pre.org_items(o),
{
    if !pre.has(o, u) {
        assert(pre.org_items(o).remove(u) =~= pre.org_items(o));
    }
}

/// State filter correctness: the state-`s` view of a partition holds
/// exactly the stored items whose lifecycle state equals `s`, each under
/// its own key with its stored value — no more, no less.
pub proof fn lemma_with_state_exact<T: MediaTrait>(m: Map<Seq<char>, T>, s: State, u: Seq<char>)
    ensures
        with_state(m, s).contains_key(u) <==> (m.contains_key(u) && m[u].spec_state() == s),
        with_state(m, s).contains_key(u) ==> with_state(m, s)[u] == m[u],
{
}

/// Updating the state of the item at `u` moves it between state buckets:
/// afterwards it belongs to its new state's bucket and to no other, while
/// every other item keeps its bucket membership and its value.
pub proof fn lemma_update_moves_buckets<T: MediaTrait>(
    m: Map<Seq<char>, T>,
    u: Seq<char>,
    v: T,
    s: State,
    u2: Seq<char>,
)
    ensures
        with_state(m.insert(u, v), v.spec_state()).contains_key(u),
        s != v.spec_state() ==> !with_state(m.insert(u, v), s).contains_key(u),
        u2 != u ==> (with_state(m.insert(u, v), s).contains_key(u2) <==> with_state(
            m,
            s,
        ).contains_key(u2)),
        u2 != u && with_state(m, s).contains_key(u2) ==> with_state(m.insert(u, v), s)[u2]
            == with_state(m, s)[u2],
{
}

/// Empty-partition safety: under an organization whose partition is empty,
/// no identifier is present and every state-filtered view is empty — the
/// read operations find nothing, and none of them can fail.
pub proof fn lemma_empty_org<T: MediaTrait>(b: Bowl<T>, o: Seq<char>, u: Seq<char>, s: State)
    requires
        b.org_items(o) == Map::<Seq<char>, T>::empty(),
    ensures
        !b.has(o, u),
        with_state(b.org_items(o), s) == Map::<Seq<char>, T>::empty(),
{
    assert(with_state(b.org_items(o), s) =~= Map::<Seq<char>, T>::empty());
}

} // verus!
