use vstd::prelude::*;

use crate::lifecycle::State;
use crate::record::MediaTrait;

verus! {

/// True when no two items of `items` share an identifier.
spec fn uuids_distinct<T: MediaTrait>(items: Seq<T>) -> bool {
    forall|i: int, j: int|
        #![trigger items[i].spec_uuid(), items[j].spec_uuid()]
        0 <= i < j < items.len() ==> items[i].spec_uuid() != items[j].spec_uuid()
}

/// The identifier-keyed map holding exactly the items of `items`; a later
/// duplicate identifier wins, mirroring insert-or-replace order.
spec fn items_map<T: MediaTrait>(items: Seq<T>) -> Map<Seq<char>, T>
    decreases items.len(),
{
    if items.len() == 0 {
        Map::empty()
    } else {
        items_map(items.drop_last()).insert(items.last().spec_uuid(), items.last())
    }
}

/// The sub-map of `m` holding exactly the items whose state equals `s`.
pub open spec fn with_state<T: MediaTrait>(m: Map<Seq<char>, T>, s: State) -> Map<Seq<char>, T> {
    Map::new(|u: Seq<char>| m.contains_key(u) && m[u].spec_state() == s, |u: Seq<char>| m[u])
}

/// The effect on organization `org`'s partition of inserting `items` one
/// after the other, each into the partition of its own organization: a later
/// item overwrites an earlier one under the same identifier.
pub open spec fn bulk_insert<T: MediaTrait>(
    m: Map<Seq<char>, T>,
    items: Seq<T>,
    org: Seq<char>,
) -> Map<Seq<char>, T>
    decreases items.len(),
{
    if items.len() == 0 {
        m
    } else {
        let prev = bulk_insert(m, items.drop_last(), org);
        if items.last().spec_organization() == org {
            prev.insert(items.last().spec_uuid(), items.last())
        } else {
            prev
        }
    }
}

/// One organization's partition: the items inserted under one organization
/// name. The name is recorded at insertion time and never moves.
struct OrgPartition<T> {
    name: String,
    items: Vec<T>,
}

/// The store: records of shape `T`, partitioned by organization name, keyed
/// by item identifier. Insertion replaces, lookup never panics, and a
/// missing coordinate is a normal empty result.
pub struct Bowl<T> {
    parts: Vec<OrgPartition<T>>,
}

spec fn names_distinct<T>(parts: Seq<OrgPartition<T>>) -> bool {
    forall|i: int, j: int|
        #![trigger parts[i].name, parts[j].name]
        0 <= i < j < parts.len() ==> parts[i].name@ != parts[j].name@
}

spec fn parts_map<T: MediaTrait>(parts: Seq<OrgPartition<T>>, org: Seq<char>) -> Map<
    Seq<char>,
    T,
>
    decreases parts.len(),
{
    if parts.len() == 0 {
        Map::empty()
    } else if parts.last().name@ == org {
        items_map(parts.last().items@)
    } else {
        parts_map(parts.drop_last(), org)
    }
}

impl<T: MediaTrait> Bowl<T> {
    /// The contents of organization `org`'s partition, as a map from item
    /// identifier to item; empty if the organization was never inserted.
    pub closed spec fn org_items(self, org: Seq<char>) -> Map<Seq<char>, T> {
        parts_map(self.parts@, org)
    }

    /// Whether an item is stored at the coordinate `(org, uuid)`.
    pub open spec fn has(self, org: Seq<char>, uuid: Seq<char>) -> bool {
        self.org_items(org).contains_key(uuid)
    }

    /// Well-formedness: organization names are unique, identifiers are
    /// unique within each partition, and every item sits in the partition
    /// of its own organization.
    pub closed spec fn inv(self) -> bool {
        &&& names_distinct(self.parts@)
        &&& forall|i: int|
            0 <= i < self.parts@.len() ==> uuids_distinct(#[trigger] self.parts@[i].items@)
        &&& forall|i: int, k: int|
            0 <= i < self.parts@.len() && 0 <= k < self.parts@[i].items@.len() ==> (
            #[trigger] self.parts@[i].items@[k]).spec_organization() == self.parts@[i].name@
    }

    /// An empty store: every partition of every organization is empty.
    pub fn new() -> (r: Self)
        ensures
            r.inv(),
            forall|org: Seq<char>| #[trigger] r.org_items(org) == Map::<Seq<char>, T>::empty(),
    {
        Bowl { parts: Vec::new() }
    }

    /// Inserts `value`, or replaces the item that shares its coordinate.
    ///
    /// The partition is chosen by the organization the item itself records,
    /// fixed at insertion time; the `org` argument is accepted for call-site
    /// symmetry with the read operations. A previous item under the same
    /// identifier is overwritten whole, never merged.
    #[allow(unused_variables)]
    pub fn add(&mut self, org: &str, value: T)
        requires
            old(self).inv(),
        ensures
            final(self).inv(),
            final(self).org_items(value.spec_organization()) == old(self).org_items(
                value.spec_organization(),
            ).insert(value.spec_uuid(), value),
            forall|o: Seq<char>|
                o != value.spec_organization() ==> #[trigger] final(self).org_items(o) == old(
                    self,
                ).org_items(o),
    {
        self.insert_item(value);
    }

    /// Point lookup: a view of the item stored at `(org, uuid)`, or `None`
    /// when the organization or the identifier is absent.
    pub fn get<'a>(&'a self, org: &str, uuid: &str) -> (r: Option<&'a T>)
        requires
            self.inv(),
        ensures
            match r {
                Some(v) => self.has(org@, uuid@) && *v == self.org_items(org@)[uuid@],
                None => !self.has(org@, uuid@),
            },
    {
        let oi = find_part(&self.parts, org);
        match oi {
            Some(i) => {
                proof {
                    lemma_parts_map_found(self.parts@, org@, i as int);
                }
                let ki = find_item(&self.parts[i].items, uuid);
                match ki {
                    Some(k) => {
                        proof {
                            lemma_items_map_at(self.parts@[i as int].items@, k as int);
                        }
                        Some(&self.parts[i].items[k])
                    },
                    None => {
                        proof {
                            lemma_items_map_contains(self.parts@[i as int].items@, uuid@);
                        }
                        None
                    },
                }
            },
            None => {
                proof {
                    lemma_parts_map_absent(self.parts@, org@);
                }
                None
            },
        }
    }

    /// Removes and discards the item at `(org, uuid)`; reports whether an
    /// item was actually removed. A missing coordinate is side-effect-free.
    pub fn delete(&mut self, org: &str, uuid: &str) -> (r: bool)
        requires
            old(self).inv(),
        ensures
            final(self).inv(),
            r == old(self).has(org@, uuid@),
            final(self).org_items(org@) == old(self).org_items(org@).remove(uuid@),
            forall|o: Seq<char>|
                o != org@ ==> #[trigger] final(self).org_items(o) == old(self).org_items(o),
    {
        let ghost pre = *old(self);
        let oi = find_part(&self.parts, org);
        match oi {
            Some(i) => {
                let ki = find_item(&self.parts[i].items, uuid);
                match ki {
                    Some(k) => {
                        self.parts[i].items.remove(k);
                        proof {
                            let parts0 = pre.parts@;
                            let items0 = parts0[i as int].items@;
                            let p2 = self.parts@[i as int];
                            assert(self.parts@ =~= parts0.update(i as int, p2));
                            assert(p2.name == parts0[i as int].name);
                            assert(p2.items@ =~= items0.remove(k as int));
                            lemma_items_map_at(items0, k as int);
                            lemma_items_map_remove(items0, k as int);
                            lemma_parts_map_names_distinct_update(parts0, i as int, p2);
                            lemma_parts_map_found(parts0, org@, i as int);
                            lemma_parts_map_found(parts0.update(i as int, p2), org@, i as int);
                            assert(self.org_items(org@) == pre.org_items(org@).remove(uuid@));
                            assert forall|o: Seq<char>| o != org@ implies #[trigger] self.org_items(
                                o,
                            ) == pre.org_items(o) by {
                                lemma_parts_map_update_other(parts0, i as int, p2, o);
                            }
                            assert forall|a: int|
                                0 <= a < self.parts@.len() implies uuids_distinct(
                                #[trigger] self.parts@[a].items@,
                            ) by {
                                if a != i as int {
                                    assert(self.parts@[a] == parts0[a]);
                                    assert(uuids_distinct(parts0[a].items@));
                                }
                            }
                            assert forall|a: int, b: int|
                                0 <= a < self.parts@.len() && 0 <= b
                                    < self.parts@[a].items@.len() implies (
                            #[trigger] self.parts@[a].items@[b]).spec_organization()
                                == self.parts@[a].name@ by {
                                if a == i as int {
                                    if b < k as int {
                                        assert(p2.items@[b] == items0[b]);
                                        assert(parts0[a].items@[b].spec_organization()
                                            == parts0[a].name@);
                                    } else {
                                        assert(p2.items@[b] == items0[b + 1]);
                                        assert(parts0[a].items@[b + 1].spec_organization()
                                            == parts0[a].name@);
                                    }
                                } else {
                                    assert(self.parts@[a] == parts0[a]);
                                    assert(parts0[a].items@[b].spec_organization()
                                        == parts0[a].name@);
                                }
                            }
                            assert(self.inv());
                        }
                        true
                    },
                    None => {
                        proof {
                            lemma_parts_map_found(pre.parts@, org@, i as int);
                            lemma_items_map_contains(pre.parts@[i as int].items@, uuid@);
                            assert(pre.org_items(org@).remove(uuid@) =~= pre.org_items(org@));
                        }
                        false
                    },
                }
            },
            None => {
                proof {
                    lemma_parts_map_absent(self.parts@, org@);
                    assert(pre.org_items(org@).remove(uuid@) =~= pre.org_items(org@));
                }
                false
            },
        }
    }

    /// Replaces the lifecycle state of the item at `(org, uuid)` in place,
    /// leaving its other fields and every other item untouched; a missing
    /// coordinate is a silent no-op.
    pub fn update_state(&mut self, uuid: &str, org: &str, state: State)
        requires
            old(self).inv(),
        ensures
            final(self).inv(),
            forall|o: Seq<char>|
                o != org@ ==> #[trigger] final(self).org_items(o) == old(self).org_items(o),
            !old(self).has(org@, uuid@) ==> final(self).org_items(org@) == old(self).org_items(
                org@,
            ),
            old(self).has(org@, uuid@) ==> ({
                let prev = old(self).org_items(org@)[uuid@];
                let cur = final(self).org_items(org@)[uuid@];
                &&& final(self).has(org@, uuid@)
                &&& final(self).org_items(org@) == old(self).org_items(org@).insert(uuid@, cur)
                &&& cur.spec_state() == state
                &&& cur.spec_uuid() == prev.spec_uuid()
                &&& cur.spec_name() == prev.spec_name()
                &&& cur.spec_organization() == prev.spec_organization()
            }),
    {
        let ghost pre = *old(self);
        let oi = find_part(&self.parts, org);
        match oi {
            Some(i) => {
                let ki = find_item(&self.parts[i].items, uuid);
                match ki {
                    Some(k) => {
                        self.parts[i].items[k].set_state(state);
                        proof {
                            let parts0 = pre.parts@;
                            let items0 = parts0[i as int].items@;
                            let p2 = self.parts@[i as int];
                            let v2 = p2.items@[k as int];
                            assert(self.parts@ =~= parts0.update(i as int, p2));
                            assert(p2.name == parts0[i as int].name);
                            assert(p2.items@ =~= items0.update(k as int, v2));
                            lemma_items_map_at(items0, k as int);
                            lemma_items_map_update(items0, k as int, v2);
                            lemma_parts_map_names_distinct_update(parts0, i as int, p2);
                            lemma_parts_map_found(parts0, org@, i as int);
                            lemma_parts_map_found(parts0.update(i as int, p2), org@, i as int);
                            assert(self.org_items(org@) == pre.org_items(org@).insert(uuid@, v2));
                            assert forall|o: Seq<char>| o != org@ implies #[trigger] self.org_items(
                                o,
                            ) == pre.org_items(o) by {
                                lemma_parts_map_update_other(parts0, i as int, p2, o);
                            }
                            assert forall|a: int|
                                0 <= a < self.parts@.len() implies uuids_distinct(
                                #[trigger] self.parts@[a].items@,
                            ) by {
                                if a != i as int {
                                    assert(self.parts@[a] == parts0[a]);
                                    assert(uuids_distinct(parts0[a].items@));
                                }
                            }
                            assert forall|a: int, b: int|
                                0 <= a < self.parts@.len() && 0 <= b
                                    < self.parts@[a].items@.len() implies (
                            #[trigger] self.parts@[a].items@[b]).spec_organization()
                                == self.parts@[a].name@ by {
                                if a == i as int && b == k as int {
                                    assert(items0[b].spec_organization() == parts0[a].name@);
                                } else if a == i as int {
                                    assert(p2.items@[b] == items0[b]);
                                    assert(parts0[a].items@[b].spec_organization()
                                        == parts0[a].name@);
                                } else {
                                    assert(self.parts@[a] == parts0[a]);
                                    assert(parts0[a].items@[b].spec_organization()
                                        == parts0[a].name@);
                                }
                            }
                            assert(self.inv());
                        }
                    },
                    None => {
                        proof {
                            lemma_parts_map_found(pre.parts@, org@, i as int);
                            lemma_items_map_contains(pre.parts@[i as int].items@, uuid@);
                        }
                    },
                }
            },
            None => {
                proof {
                    lemma_parts_map_absent(self.parts@, org@);
                }
            },
        }
    }

    /// Views of every item of `org`'s partition, in unspecified order:
    /// one entry per stored identifier, each the stored item itself.
    pub fn get_all<'a>(&'a self, org: &str) -> (r: Vec<&'a T>)
        requires
            self.inv(),
        ensures
            r@.len() == self.org_items(org@).dom().len(),
            forall|t: int|
                0 <= t < r@.len() ==> self.has(org@, (#[trigger] r@[t].spec_uuid()))
                    && self.org_items(org@)[r@[t].spec_uuid()] == *r@[t],
            forall|u: Seq<char>|
                #[trigger] self.org_items(org@).contains_key(u) ==> exists|t: int|
                    0 <= t < r@.len() && (#[trigger] r@[t].spec_uuid()) == u,
            forall|t1: int, t2: int|
                #![trigger r@[t1].spec_uuid(), r@[t2].spec_uuid()]
                0 <= t1 < t2 < r@.len() ==> r@[t1].spec_uuid() != r@[t2].spec_uuid(),
    {
        let mut r: Vec<&T> = Vec::new();
        let oi = find_part(&self.parts, org);
        match oi {
            Some(i) => {
                let items = &self.parts[i].items;
                let mut k: usize = 0;
                while k < items.len()
                    invariant
                        k <= items@.len(),
                        r@.len() == k,
                        forall|t: int| 0 <= t < k ==> *(#[trigger] r@[t]) == items@[t],
                    decreases items@.len() - k,
                {
                    r.push(&items[k]);
                    k = k + 1;
                }
                proof {
                    lemma_parts_map_found(self.parts@, org@, i as int);
                    let items0 = self.parts@[i as int].items@;
                    let m = self.org_items(org@);
                    assert(uuids_distinct(items0));
                    lemma_items_map_len(items0);
                    assert forall|t: int|
                        0 <= t < r@.len() implies self.has(org@, (#[trigger] r@[t].spec_uuid()))
                        && m[r@[t].spec_uuid()] == *r@[t] by {
                        lemma_items_map_at(items0, t);
                    }
                    assert forall|u: Seq<char>| #[trigger] m.contains_key(u) implies exists|t: int|
                        0 <= t < r@.len() && (#[trigger] r@[t].spec_uuid()) == u by {
                        lemma_items_map_contains(items0, u);
                        let j = choose|j: int|
                            0 <= j < items0.len() && #[trigger] items0[j].spec_uuid() == u;
                        assert(*r@[j] == items0[j]);
                        assert(r@[j].spec_uuid() == u);
                    }
                }
            },
            None => {
                proof {
                    lemma_parts_map_absent(self.parts@, org@);
                    assert(self.org_items(org@).dom() =~= Set::<Seq<char>>::empty());
                }
            },
        }
        r
    }

    /// Views of every item of `org`'s partition whose lifecycle state equals
    /// `state`, in unspecified order: exactly the state-`s` subset of what
    /// [`Self::get_all`] returns.
    #[verifier::rlimit(30)]
    pub fn filter_by_org_and_state<'a>(&'a self, org: &str, state: &State) -> (r: Vec<&'a T>)
        requires
            self.inv(),
        ensures
            forall|t: int|
                0 <= t < r@.len() ==> with_state(self.org_items(org@), *state).contains_key(
                    (#[trigger] r@[t].spec_uuid()),
                ) && with_state(self.org_items(org@), *state)[r@[t].spec_uuid()] == *r@[t],
            forall|u: Seq<char>|
                #[trigger] with_state(self.org_items(org@), *state).contains_key(u) ==> exists|
                    t: int,
                |
                    0 <= t < r@.len() && (#[trigger] r@[t].spec_uuid()) == u,
            forall|t1: int, t2: int|
                #![trigger r@[t1].spec_uuid(), r@[t2].spec_uuid()]
                0 <= t1 < t2 < r@.len() ==> r@[t1].spec_uuid() != r@[t2].spec_uuid(),
    {
        let mut r: Vec<&T> = Vec::new();
        let oi = find_part(&self.parts, org);
        match oi {
            Some(i) => {
                let items = &self.parts[i].items;
                let mut k: usize = 0;
                while k < items.len()
                    invariant
                        k <= items@.len(),
                        uuids_distinct(items@),
                        forall|t: int| #![trigger r@[t]]
                            0 <= t < r@.len() ==> r@[t].spec_state() == *state && (exists|j: int|
                                0 <= j < k && items@[j] == *r@[t]),
                        forall|j: int| #![trigger items@[j]]
                            0 <= j < k && items@[j].spec_state() == *state ==> (exists|t: int|
                                0 <= t < r@.len() && *r@[t] == items@[j]),
                        forall|t1: int, t2: int|
                            #![trigger r@[t1].spec_uuid(), r@[t2].spec_uuid()]
                            0 <= t1 < t2 < r@.len() ==> r@[t1].spec_uuid() != r@[t2].spec_uuid(),
                    decreases items@.len() - k,
                {
                    let matches_state = *items[k].get_state() == *state;
                    if matches_state {
                        proof {
                            assert forall|t: int| 0 <= t < r@.len() implies (
                            #[trigger] r@[t].spec_uuid()) != items@[k as int].spec_uuid() by {
                                let j = choose|j: int| 0 <= j < k && items@[j] == *r@[t];
                                assert(items@[j].spec_uuid() != items@[k as int].spec_uuid());
                            }
                        }
                        let ghost r0 = r@;
                        r.push(&items[k]);
                        proof {
                            assert(*r@[r@.len() - 1] == items@[k as int]);
                            assert forall|j: int| #![trigger items@[j]]
                                0 <= j < k + 1 && items@[j].spec_state() == *state implies exists|
                                t: int,
                            |
                                0 <= t < r@.len() && *r@[t] == items@[j] by {
                                if j == k as int {
                                    assert(*r@[r@.len() - 1] == items@[j]);
                                } else {
                                    let t = choose|t: int| 0 <= t < r0.len() && *r0[t]
                                        == items@[j];
                                    assert(*r@[t] == items@[j]);
                                }
                            }
                        }
                    } else {
                        proof {
                            assert(items@[k as int].spec_state() != *state);
                        }
                    }
                    k = k + 1;
                }
                proof {
                    lemma_parts_map_found(self.parts@, org@, i as int);
                    let items0 = self.parts@[i as int].items@;
                    let m = self.org_items(org@);
                    let f = with_state(m, *state);
                    assert forall|t: int| 0 <= t < r@.len() implies f.contains_key(
                        (#[trigger] r@[t].spec_uuid()),
                    ) && f[r@[t].spec_uuid()] == *r@[t] by {
                        let j = choose|j: int| 0 <= j < items0.len() && items0[j] == *r@[t];
                        lemma_items_map_at(items0, j);
                    }
                    assert forall|u: Seq<char>| #[trigger] f.contains_key(u) implies exists|t: int|
                        0 <= t < r@.len() && (#[trigger] r@[t].spec_uuid()) == u by {
                        lemma_items_map_contains(items0, u);
                        let j = choose|j: int|
                            0 <= j < items0.len() && #[trigger] items0[j].spec_uuid() == u;
                        lemma_items_map_at(items0, j);
                        assert(items0[j].spec_state() == *state);
                        let t = choose|t: int| 0 <= t < r@.len() && *r@[t] == items0[j];
                        assert(r@[t].spec_uuid() == u);
                    }
                }
            },
            None => {
                proof {
                    lemma_parts_map_absent(self.parts@, org@);
                }
            },
        }
        r
    }

    /// Bulk insert: equivalent to adding each item of `items` in sequence
    /// order, each keyed by its own recorded organization. A later item with
    /// a duplicate coordinate overwrites the earlier one within the same
    /// call, with the same replace semantics as a single insert.
    pub fn extend(&mut self, items: Vec<T>)
        requires
            old(self).inv(),
        ensures
            final(self).inv(),
            forall|o: Seq<char>| #[trigger] final(self).org_items(o) == bulk_insert(
                old(self).org_items(o),
                items@,
                o,
            ),
    {
        let ghost all = items@;
        let ghost pre = *old(self);
        let mut rest = items;
        while rest.len() > 0
            invariant
                self.inv(),
                rest@.len() <= all.len(),
                rest@ == all.subrange(all.len() - rest@.len(), all.len() as int),
                forall|o: Seq<char>| #[trigger] self.org_items(o) == bulk_insert(
                    pre.org_items(o),
                    all.take(all.len() - rest@.len()),
                    o,
                ),
            decreases rest@.len(),
        {
            let ghost done = all.len() - rest@.len();
            let ghost s0 = *self;
            let it = rest.remove(0);
            proof {
                assert(it == all[done]);
                assert(rest@ =~= all.subrange(done + 1, all.len() as int));
            }
            self.insert_item(it);
            proof {
                assert forall|o: Seq<char>| #[trigger] self.org_items(o) == bulk_insert(
                    pre.org_items(o),
                    all.take(done + 1),
                    o,
                ) by {
                    let step = all.take(done + 1);
                    assert(step.drop_last() =~= all.take(done));
                    assert(step.last() == all[done]);
                    if o == it.spec_organization() {
                        assert(self.org_items(o) == s0.org_items(o).insert(it.spec_uuid(), it));
                    } else {
                        assert(self.org_items(o) == s0.org_items(o));
                    }
                }
            }
        }
        proof {
            assert(all.take(all.len() - rest@.len()) =~= all);
        }
    }

    /// Every stored item records exactly the coordinates it is stored
    /// under: its key is its own identifier, and in a well-formed store its
    /// partition is its own organization. In particular, items stored under
    /// distinct organizations, or under distinct identifiers, are never the
    /// same item.
    pub proof fn lemma_stored_coordinates(self, org: Seq<char>, uuid: Seq<char>)
        requires
            self.inv(),
            self.has(org, uuid),
        ensures
            self.org_items(org)[uuid].spec_uuid() == uuid,
            self.org_items(org)[uuid].spec_organization() == org,
    {
        lemma_parts_map_key(self.parts@, org, uuid);
        lemma_parts_map_org(self.parts@, org, uuid);
    }

    fn insert_item(&mut self, value: T)
        requires
            old(self).inv(),
        ensures
            final(self).inv(),
            final(self).org_items(value.spec_organization()) == old(self).org_items(
                value.spec_organization(),
            ).insert(value.spec_uuid(), value),
            forall|o: Seq<char>|
                o != value.spec_organization() ==> #[trigger] final(self).org_items(o) == old(
                    self,
                ).org_items(o),
    {
        let ghost pre = *old(self);
        let ghost vorg = value.spec_organization();
        let ghost vuuid = value.spec_uuid();
        let oi = find_part(&self.parts, value.get_organization());
        match oi {
            Some(i) => {
                let ki = find_item(&self.parts[i].items, value.get_uuid());
                match ki {
                    Some(k) => {
                        self.parts[i].items[k] = value;
                    },
                    None => {
                        self.parts[i].items.push(value);
                    },
                }
                proof {
                    let parts0 = pre.parts@;
                    let items0 = parts0[i as int].items@;
                    let p2 = self.parts@[i as int];
                    assert(self.parts@ =~= parts0.update(i as int, p2));
                    assert(p2.name == parts0[i as int].name);
                    match ki {
                        Some(k) => {
                            assert(p2.items@ =~= items0.update(k as int, value));
                            lemma_items_map_update(items0, k as int, value);
                        },
                        None => {
                            assert(p2.items@ =~= items0.push(value));
                            lemma_items_map_push(items0, value);
                        },
                    }
                    lemma_parts_map_names_distinct_update(parts0, i as int, p2);
                    lemma_parts_map_found(parts0, vorg, i as int);
                    lemma_parts_map_found(parts0.update(i as int, p2), vorg, i as int);
                    assert(self.org_items(vorg) == pre.org_items(vorg).insert(vuuid, value));
                    assert forall|o: Seq<char>| o != vorg implies #[trigger] self.org_items(o)
                        == pre.org_items(o) by {
                        lemma_parts_map_update_other(parts0, i as int, p2, o);
                    }
                    assert forall|a: int|
                        0 <= a < self.parts@.len() implies uuids_distinct(
                        #[trigger] self.parts@[a].items@,
                    ) by {
                        if a != i as int {
                            assert(self.parts@[a] == parts0[a]);
                            assert(uuids_distinct(parts0[a].items@));
                        }
                    }
                    assert forall|a: int, b: int|
                        0 <= a < self.parts@.len() && 0 <= b < self.parts@[a].items@.len() implies (
                    #[trigger] self.parts@[a].items@[b]).spec_organization()
                        == self.parts@[a].name@ by {
                        if a == i as int {
                            if b < items0.len() && p2.items@[b] == items0[b] {
                                assert(parts0[a].items@[b].spec_organization()
                                    == parts0[a].name@);
                            }
                        } else {
                            assert(self.parts@[a] == parts0[a]);
                            assert(parts0[a].items@[b].spec_organization() == parts0[a].name@);
                        }
                    }
                    assert(self.inv());
                }
            },
            None => {
                proof {
                    lemma_parts_map_absent(pre.parts@, vorg);
                }
                let name = value.get_organization().to_owned();
                let mut items: Vec<T> = Vec::new();
                items.push(value);
                self.parts.push(OrgPartition { name, items });
                proof {
                    let parts0 = pre.parts@;
                    let p = self.parts@.last();
                    assert(self.parts@ =~= parts0.push(p));
                    assert(p.name@ == vorg);
                    assert(p.items@ =~= Seq::empty().push(value));
                    assert(p.items@.drop_last() =~= Seq::<T>::empty());
                    assert(items_map(Seq::<T>::empty()) =~= Map::<Seq<char>, T>::empty());
                    assert(p.items@.last() == value);
                    assert(items_map(p.items@) =~= Map::<Seq<char>, T>::empty().insert(
                        vuuid,
                        value,
                    ));
                    assert forall|o: Seq<char>| true implies #[trigger] parts_map(
                        self.parts@,
                        o,
                    ) == (if p.name@ == o {
                        items_map(p.items@)
                    } else {
                        parts_map(parts0, o)
                    }) by {
                        lemma_parts_map_push(parts0, p, o);
                    }
                    assert(self.org_items(vorg) =~= pre.org_items(vorg).insert(vuuid, value));
                    assert forall|a: int, b: int|
                        #![trigger self.parts@[a].name, self.parts@[b].name]
                        0 <= a < b < self.parts@.len() implies self.parts@[a].name@
                        != self.parts@[b].name@ by {
                        if b == parts0.len() {
                            assert(parts0[a].name@ != vorg);
                        } else {
                            assert(parts0[a].name@ != parts0[b].name@);
                        }
                    }
                    assert forall|a: int|
                        0 <= a < self.parts@.len() implies uuids_distinct(
                        #[trigger] self.parts@[a].items@,
                    ) by {
                        if a < parts0.len() {
                            assert(self.parts@[a] == parts0[a]);
                            assert(uuids_distinct(parts0[a].items@));
                        }
                    }
                    assert forall|a: int, b: int|
                        0 <= a < self.parts@.len() && 0 <= b < self.parts@[a].items@.len() implies (
                    #[trigger] self.parts@[a].items@[b]).spec_organization()
                        == self.parts@[a].name@ by {
                        if a < parts0.len() {
                            assert(self.parts@[a] == parts0[a]);
                            assert(parts0[a].items@[b].spec_organization() == parts0[a].name@);
                        }
                    }
                    assert(self.inv());
                }
            },
        }
    }
}

proof fn lemma_distinct_drop_last<T: MediaTrait>(items: Seq<T>)
    requires
        uuids_distinct(items),
        items.len() > 0,
    ensures
        uuids_distinct(items.drop_last()),
{
    let prefix = items.drop_last();
    assert forall|i: int, j: int|
        #![trigger prefix[i].spec_uuid(), prefix[j].spec_uuid()]
        0 <= i < j < prefix.len() implies prefix[i].spec_uuid() != prefix[j].spec_uuid() by {
        assert(items[i].spec_uuid() != items[j].spec_uuid());
    }
}

proof fn lemma_items_map_contains<T: MediaTrait>(items: Seq<T>, u: Seq<char>)
    ensures
        items_map(items).contains_key(u) <==> exists|j: int|
            0 <= j < items.len() && #[trigger] items[j].spec_uuid() == u,
    decreases items.len(),
{
    if items.len() > 0 {
        let prefix = items.drop_last();
        lemma_items_map_contains(prefix, u);
        if items.last().spec_uuid() == u {
            assert(items[items.len() - 1].spec_uuid() == u);
        } else {
            if items_map(items).contains_key(u) {
                let j = choose|j: int| 0 <= j < prefix.len() && #[trigger] prefix[j].spec_uuid()
                    == u;
                assert(items[j].spec_uuid() == u);
            }
            if exists|j: int| 0 <= j < items.len() && #[trigger] items[j].spec_uuid() == u {
                let j = choose|j: int| 0 <= j < items.len() && #[trigger] items[j].spec_uuid()
                    == u;
                assert(j != items.len() - 1);
                assert(prefix[j].spec_uuid() == u);
            }
        }
    }
}

proof fn lemma_items_map_at<T: MediaTrait>(items: Seq<T>, k: int)
    requires
        uuids_distinct(items),
        0 <= k < items.len(),
    ensures
        items_map(items).contains_key(items[k].spec_uuid()),
        items_map(items)[items[k].spec_uuid()] == items[k],
    decreases items.len(),
{
    if k < items.len() - 1 {
        lemma_distinct_drop_last(items);
        lemma_items_map_at(items.drop_last(), k);
        assert(items.drop_last()[k] == items[k]);
        assert(items.last().spec_uuid() != items[k].spec_uuid());
    }
}

proof fn lemma_items_map_update<T: MediaTrait>(items: Seq<T>, k: int, v: T)
    requires
        uuids_distinct(items),
        0 <= k < items.len(),
        v.spec_uuid() == items[k].spec_uuid(),
    ensures
        items_map(items.update(k, v)) == items_map(items).insert(v.spec_uuid(), v),
        uuids_distinct(items.update(k, v)),
    decreases items.len(),
{
    let u = v.spec_uuid();
    let updated = items.update(k, v);
    assert forall|i: int, j: int|
        #![trigger updated[i].spec_uuid(), updated[j].spec_uuid()]
        0 <= i < j < updated.len() implies updated[i].spec_uuid() != updated[j].spec_uuid() by {
        assert(items[i].spec_uuid() != items[j].spec_uuid());
    }
    if k == items.len() - 1 {
        assert(updated.drop_last() =~= items.drop_last());
        assert(updated.last() == v);
        assert(items_map(updated) =~= items_map(items).insert(u, v));
    } else {
        lemma_distinct_drop_last(items);
        lemma_items_map_update(items.drop_last(), k, v);
        assert(updated.drop_last() =~= items.drop_last().update(k, v));
        assert(updated.last() == items.last());
        assert(items.last().spec_uuid() != u);
        assert(items_map(updated) =~= items_map(items).insert(u, v));
    }
}

proof fn lemma_items_map_remove<T: MediaTrait>(items: Seq<T>, k: int)
    requires
        uuids_distinct(items),
        0 <= k < items.len(),
    ensures
        items_map(items.remove(k)) == items_map(items).remove(items[k].spec_uuid()),
        uuids_distinct(items.remove(k)),
    decreases items.len(),
{
    let u = items[k].spec_uuid();
    let shorter = items.remove(k);
    assert forall|i: int, j: int|
        #![trigger shorter[i].spec_uuid(), shorter[j].spec_uuid()]
        0 <= i < j < shorter.len() implies shorter[i].spec_uuid() != shorter[j].spec_uuid() by {
        if j < k {
            assert(items[i].spec_uuid() != items[j].spec_uuid());
        } else if i < k {
            assert(items[i].spec_uuid() != items[j + 1].spec_uuid());
        } else {
            assert(items[i + 1].spec_uuid() != items[j + 1].spec_uuid());
        }
    }
    lemma_distinct_drop_last(items);
    if k == items.len() - 1 {
        assert(shorter =~= items.drop_last());
        lemma_items_map_contains(items.drop_last(), u);
        assert forall|j: int| 0 <= j < items.drop_last().len() implies (
        #[trigger] items.drop_last()[j].spec_uuid()) != u by {
            assert(items[j].spec_uuid() != items[k].spec_uuid());
        }
        assert(!items_map(items.drop_last()).contains_key(u));
        assert(items_map(shorter) =~= items_map(items).remove(u));
    } else {
        lemma_items_map_remove(items.drop_last(), k);
        assert(shorter.drop_last() =~= items.drop_last().remove(k));
        assert(shorter.last() == items.last());
        assert(items.last().spec_uuid() != u);
        assert(items_map(shorter) =~= items_map(items).remove(u));
    }
}

proof fn lemma_items_map_push<T: MediaTrait>(items: Seq<T>, v: T)
    requires
        uuids_distinct(items),
        forall|j: int| 0 <= j < items.len() ==> (#[trigger] items[j].spec_uuid()) != v.spec_uuid(),
    ensures
        items_map(items.push(v)) == items_map(items).insert(v.spec_uuid(), v),
        uuids_distinct(items.push(v)),
{
    let longer = items.push(v);
    assert forall|i: int, j: int|
        #![trigger longer[i].spec_uuid(), longer[j].spec_uuid()]
        0 <= i < j < longer.len() implies longer[i].spec_uuid() != longer[j].spec_uuid() by {
        if j < items.len() {
            assert(items[i].spec_uuid() != items[j].spec_uuid());
        } else {
            assert(items[i].spec_uuid() != v.spec_uuid());
        }
    }
    assert(longer.drop_last() =~= items);
    assert(longer.last() == v);
    assert(items_map(longer) =~= items_map(items).insert(v.spec_uuid(), v));
}

proof fn lemma_items_map_len<T: MediaTrait>(items: Seq<T>)
    requires
        uuids_distinct(items),
    ensures
        items_map(items).dom().finite(),
        items_map(items).dom().len() == items.len(),
    decreases items.len(),
{
    if items.len() == 0 {
        assert(items_map(items).dom() =~= Set::<Seq<char>>::empty());
    } else {
        let u = items.last().spec_uuid();
        lemma_distinct_drop_last(items);
        lemma_items_map_len(items.drop_last());
        lemma_items_map_contains(items.drop_last(), u);
        assert forall|j: int| 0 <= j < items.drop_last().len() implies (
        #[trigger] items.drop_last()[j].spec_uuid()) != u by {
            assert(items[j].spec_uuid() != items[items.len() - 1].spec_uuid());
        }
        assert(!items_map(items.drop_last()).contains_key(u));
        assert(items_map(items).dom() =~= items_map(items.drop_last()).dom().insert(u));
    }
}

/// Every stored item sits at the key given by its own identifier.
proof fn lemma_items_map_key_is_uuid<T: MediaTrait>(items: Seq<T>, u: Seq<char>)
    requires
        items_map(items).contains_key(u),
    ensures
        items_map(items)[u].spec_uuid() == u,
    decreases items.len(),
{
    if items.len() > 0 && items.last().spec_uuid() != u {
        lemma_items_map_key_is_uuid(items.drop_last(), u);
    }
}

proof fn lemma_names_distinct_drop_last<T>(parts: Seq<OrgPartition<T>>)
    requires
        names_distinct(parts),
        parts.len() > 0,
    ensures
        names_distinct(parts.drop_last()),
{
    let prefix = parts.drop_last();
    assert forall|i: int, j: int|
        #![trigger prefix[i].name, prefix[j].name]
        0 <= i < j < prefix.len() implies prefix[i].name@ != prefix[j].name@ by {
        assert(parts[i].name@ != parts[j].name@);
    }
}

proof fn lemma_parts_map_found<T: MediaTrait>(parts: Seq<OrgPartition<T>>, org: Seq<char>, i: int)
    requires
        names_distinct(parts),
        0 <= i < parts.len(),
        parts[i].name@ == org,
    ensures
        parts_map(parts, org) == items_map(parts[i].items@),
    decreases parts.len(),
{
    if i < parts.len() - 1 {
        assert(parts.last().name@ != org);
        lemma_names_distinct_drop_last(parts);
        lemma_parts_map_found(parts.drop_last(), org, i);
        assert(parts.drop_last()[i] == parts[i]);
    }
}

proof fn lemma_parts_map_absent<T: MediaTrait>(parts: Seq<OrgPartition<T>>, org: Seq<char>)
    requires
        forall|j: int| 0 <= j < parts.len() ==> (#[trigger] parts[j].name)@ != org,
    ensures
        parts_map(parts, org) == Map::<Seq<char>, T>::empty(),
    decreases parts.len(),
{
    if parts.len() > 0 {
        assert forall|j: int| 0 <= j < parts.drop_last().len() implies (
        #[trigger] parts.drop_last()[j].name)@ != org by {
            assert(parts[j].name@ != org);
        }
        lemma_parts_map_absent(parts.drop_last(), org);
        assert(parts[parts.len() - 1].name@ != org);
    }
}

proof fn lemma_parts_map_update_other<T: MediaTrait>(
    parts: Seq<OrgPartition<T>>,
    i: int,
    p: OrgPartition<T>,
    org: Seq<char>,
)
    requires
        0 <= i < parts.len(),
        p.name@ == parts[i].name@,
        org != p.name@,
    ensures
        parts_map(parts.update(i, p), org) == parts_map(parts, org),
    decreases parts.len(),
{
    let updated = parts.update(i, p);
    if i == parts.len() - 1 {
        assert(updated.last() == p);
        assert(updated.drop_last() =~= parts.drop_last());
        assert(parts.last().name@ == p.name@);
    } else {
        assert(updated.last() == parts.last());
        if parts.last().name@ != org {
            assert(updated.drop_last() =~= parts.drop_last().update(i, p));
            assert(parts.drop_last()[i] == parts[i]);
            lemma_parts_map_update_other(parts.drop_last(), i, p, org);
        }
    }
}

proof fn lemma_parts_map_names_distinct_update<T>(parts: Seq<OrgPartition<T>>, i: int, p: OrgPartition<T>)
    requires
        names_distinct(parts),
        0 <= i < parts.len(),
        p.name@ == parts[i].name@,
    ensures
        names_distinct(parts.update(i, p)),
{
    let updated = parts.update(i, p);
    assert forall|a: int, b: int|
        #![trigger updated[a].name, updated[b].name]
        0 <= a < b < updated.len() implies updated[a].name@ != updated[b].name@ by {
        assert(parts[a].name@ != parts[b].name@);
    }
}

proof fn lemma_parts_map_push<T: MediaTrait>(
    parts: Seq<OrgPartition<T>>,
    p: OrgPartition<T>,
    org: Seq<char>,
)
    ensures
        p.name@ == org ==> parts_map(parts.push(p), org) == items_map(p.items@),
        p.name@ != org ==> parts_map(parts.push(p), org) == parts_map(parts, org),
{
    let longer = parts.push(p);
    assert(longer.last() == p);
    assert(longer.drop_last() =~= parts);
}

proof fn lemma_items_map_value_is_member<T: MediaTrait>(items: Seq<T>, u: Seq<char>)
    requires
        items_map(items).contains_key(u),
    ensures
        exists|j: int| 0 <= j < items.len() && #[trigger] items[j] == items_map(items)[u],
    decreases items.len(),
{
    if items.len() > 0 {
        if items.last().spec_uuid() == u {
            assert(items[items.len() - 1] == items_map(items)[u]);
        } else {
            lemma_items_map_value_is_member(items.drop_last(), u);
            let j = choose|j: int|
                0 <= j < items.drop_last().len() && #[trigger] items.drop_last()[j]
                    == items_map(items.drop_last())[u];
            assert(items[j] == items_map(items)[u]);
        }
    }
}

proof fn lemma_parts_map_key<T: MediaTrait>(
    parts: Seq<OrgPartition<T>>,
    org: Seq<char>,
    u: Seq<char>,
)
    requires
        parts_map(parts, org).contains_key(u),
    ensures
        parts_map(parts, org)[u].spec_uuid() == u,
    decreases parts.len(),
{
    if parts.len() > 0 {
        if parts.last().name@ == org {
            lemma_items_map_key_is_uuid(parts.last().items@, u);
        } else {
            lemma_parts_map_key(parts.drop_last(), org, u);
        }
    }
}

proof fn lemma_parts_map_org<T: MediaTrait>(
    parts: Seq<OrgPartition<T>>,
    org: Seq<char>,
    u: Seq<char>,
)
    requires
        parts_map(parts, org).contains_key(u),
        forall|i: int, k: int|
            0 <= i < parts.len() && 0 <= k < parts[i].items@.len() ==> (
            #[trigger] parts[i].items@[k]).spec_organization() == parts[i].name@,
    ensures
        parts_map(parts, org)[u].spec_organization() == org,
    decreases parts.len(),
{
    if parts.len() > 0 {
        if parts.last().name@ == org {
            lemma_items_map_value_is_member(parts.last().items@, u);
            let j = choose|j: int|
                0 <= j < parts.last().items@.len() && #[trigger] parts.last().items@[j]
                    == items_map(parts.last().items@)[u];
            assert(parts[parts.len() - 1].items@[j].spec_organization() == parts[parts.len()
                - 1].name@);
        } else {
            let prefix = parts.drop_last();
            assert forall|i: int, k: int|
                0 <= i < prefix.len() && 0 <= k < prefix[i].items@.len() implies (
            #[trigger] prefix[i].items@[k]).spec_organization() == prefix[i].name@ by {
                assert(parts[i].items@[k].spec_organization() == parts[i].name@);
            }
            lemma_parts_map_org(prefix, org, u);
        }
    }
}

impl<T: MediaTrait> Default for Bowl<T> {
    /// A default store is an empty store.
    fn default() -> (r: Self)
        ensures
            r.inv(),
            forall|org: Seq<char>| #[trigger] r.org_items(org) == Map::<Seq<char>, T>::empty(),
    {
        Bowl::new()
    }
}

/// Relies on str's `PartialEq`: two string slices compare equal exactly when
/// their character sequences are equal.
#[verifier::external_body]
fn str_eq(a: &str, b: &str) -> (r: bool)
    ensures
        r == (a@ == b@),
{
    a == b
}

fn find_part<T>(parts: &Vec<OrgPartition<T>>, org: &str) -> (r: Option<usize>)
    ensures
        match r {
            Some(i) => i < parts@.len() && parts@[i as int].name@ == org@,
            None => forall|j: int| 0 <= j < parts@.len() ==> (#[trigger] parts@[j].name)@ != org@,
        },
{
    let mut i: usize = 0;
    while i < parts.len()
        invariant
            i <= parts@.len(),
            forall|j: int| 0 <= j < i ==> (#[trigger] parts@[j].name)@ != org@,
        decreases parts@.len() - i,
    {
        if str_eq(parts[i].name.as_str(), org) {
            return Some(i);
        }
        i = i + 1;
    }
    None
}

fn find_item<T: MediaTrait>(items: &Vec<T>, uuid: &str) -> (r: Option<usize>)
    ensures
        match r {
            Some(k) => k < items@.len() && items@[k as int].spec_uuid() == uuid@,
            None => forall|j: int|
                0 <= j < items@.len() ==> (#[trigger] items@[j].spec_uuid()) != uuid@,
        },
{
    let mut k: usize = 0;
    while k < items.len()
        invariant
            k <= items@.len(),
            forall|j: int| 0 <= j < k ==> (#[trigger] items@[j].spec_uuid()) != uuid@,
        decreases items@.len() - k,
    {
        if str_eq(items[k].get_uuid(), uuid) {
            return Some(k);
        }
        k = k + 1;
    }
    None
}

} // verus!

