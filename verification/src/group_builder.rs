//! Merging groups that were seen one after another into the largest groups
//! that hang together.
use crate::classes::{is_class, lemma_classes};
use crate::forest::{find_set, make_set, new_sets, roots, union_sets};
use crate::text::{split_whitespace, texts, tokens};
use crate::word_groups::{group_texts, WordGroups};
use std::collections::HashMap;
use union_find_rs::prelude::DisjointSets;
use vstd::hash_map::StringHashMap;
use vstd::prelude::*;
use vstd::std_specs::iter::IteratorSpec;
use vstd::string::*;

verus! {

/// Collects members under group identifiers. A member that is seen under a
/// second identifier ties the sets of the two identifiers together.
pub struct GroupBuilder {
    item_set: StringHashMap<usize>,
    items: Vec<String>,
    sets: DisjointSets<usize>,
}

/// The members `members` followed by those of `items` that are not among
/// them, each where it first occurs.
pub open spec fn with_new(members: Seq<Seq<char>>, items: Seq<Seq<char>>) -> Seq<Seq<char>>
    decreases items.len(),
{
    if items.len() == 0 {
        members
    } else if with_new(members, items.drop_last()).contains(items.last()) {
        with_new(members, items.drop_last())
    } else {
        with_new(members, items.drop_last()).push(items.last())
    }
}

/// The members of `with_new` are those of its two arguments.
pub proof fn lemma_with_new(members: Seq<Seq<char>>, items: Seq<Seq<char>>)
    ensures
        forall|m: Seq<char>| #[trigger]
            with_new(members, items).contains(m) <==> members.contains(m) || items.contains(m),
    decreases items.len(),
{
    if items.len() > 0 {
        let head = items.drop_last();
        let inner = with_new(members, head);
        lemma_with_new(members, head);
        assert forall|m: Seq<char>| #[trigger]
            with_new(members, items).contains(m) <==> members.contains(m) || items.contains(
                m,
            ) by {
            if head.contains(m) {
                let k = choose|k: int| 0 <= k < head.len() && head[k] == m;
                assert(items[k] == m);
            }
            if items.contains(m) {
                let k = choose|k: int| 0 <= k < items.len() && items[k] == m;
                if k < head.len() {
                    assert(head[k] == m);
                }
            }
            assert(items[items.len() - 1] == items.last());
            if inner.contains(m) {
                let k = choose|k: int| 0 <= k < inner.len() && inner[k] == m;
                if !inner.contains(items.last()) {
                    assert(inner.push(items.last())[k] == m);
                }
            }
            if !inner.contains(items.last()) {
                assert(inner.push(items.last())[inner.len() as int] == items.last());
                if with_new(members, items).contains(m) {
                    let k = choose|k: int|
                        0 <= k < with_new(members, items).len() && with_new(members, items)[k] == m;
                    if k < inner.len() {
                        assert(inner[k] == m);
                    }
                }
            }
        }
    }
}

/// The words of each group stand in the order in which they stand in
/// `members`, and so do the first words of the groups.
pub open spec fn in_order_seen(groups: Seq<Seq<Seq<char>>>, members: Seq<Seq<char>>) -> bool {
    &&& forall|s: int, j: int, k: int|
        0 <= s < groups.len() && 0 <= j < k < groups[s].len() ==> members.index_of(
            #[trigger] groups[s][j],
        ) < members.index_of(#[trigger] groups[s][k])
    &&& forall|s: int, t: int|
        0 <= s < t < groups.len() ==> members.index_of((#[trigger] groups[s])[0])
            < members.index_of((#[trigger] groups[t])[0])
}

/// The groups `groups` hold every one of `members` once, and nothing else.
pub open spec fn holds_each_once(groups: Seq<Seq<Seq<char>>>, members: Seq<Seq<char>>) -> bool {
    &&& forall|s: int| 0 <= s < groups.len() ==> (#[trigger] groups[s]).len() > 0
    &&& forall|m: Seq<char>|
        members.contains(m) <==> exists|s: int, j: int|
            0 <= s < groups.len() && 0 <= j < groups[s].len() && #[trigger] groups[s][j] == m
    &&& forall|s: int, j: int, t: int, k: int|
        0 <= s < groups.len() && 0 <= j < groups[s].len() && 0 <= t < groups.len() && 0 <= k
            < groups[t].len() && (s != t || j != k) ==> #[trigger] groups[s][j]
            != #[trigger] groups[t][k]
}

impl GroupBuilder {
    /// Every member is recorded once, under an identifier that has a set,
    /// and every set has one representative.
    pub closed spec fn wf(&self) -> bool {
        let r = roots(self.sets);
        &&& texts(self.items@).no_duplicates()
        &&& forall|m: Seq<char>| #[trigger]
            self.item_set@.contains_key(m) <==> texts(self.items@).contains(m)
        &&& forall|m: Seq<char>| #[trigger]
            self.item_set@.contains_key(m) ==> r.contains_key(self.item_set@[m])
        &&& forall|k: usize| #[trigger]
            r.contains_key(k) ==> r.contains_key(r[k]) && r[r[k]] == r[k]
    }

    /// The identifier under which each member was last seen.
    pub closed spec fn group_of(&self) -> Map<Seq<char>, usize> {
        self.item_set@
    }

    /// The identifiers that were seen.
    pub closed spec fn ids(&self) -> Set<usize> {
        roots(self.sets).dom()
    }

    /// The members, in the order in which each was first seen.
    pub closed spec fn members(&self) -> Seq<Seq<char>> {
        texts(self.items@)
    }

    /// The two identifiers are in one set.
    pub closed spec fn same_set(&self, a: usize, b: usize) -> bool {
        &&& roots(self.sets).contains_key(a)
        &&& roots(self.sets).contains_key(b)
        &&& roots(self.sets)[a] == roots(self.sets)[b]
    }

    /// The two identifiers are one, or in one set.
    pub open spec fn alike(&self, a: usize, b: usize) -> bool {
        a == b || self.same_set(a, b)
    }

    /// The two identifiers are alike once `value` has been seen under `set`:
    /// they were alike before, or one was like `set` and the other like the
    /// identifier under which `value` was seen last.
    pub open spec fn alike_after(&self, set: usize, value: Seq<char>, a: usize, b: usize) -> bool {
        ||| self.alike(a, b)
        ||| self.group_of().contains_key(value) && self.alike(a, set) && self.alike(
            b,
            self.group_of()[value],
        )
        ||| self.group_of().contains_key(value) && self.alike(b, set) && self.alike(
            a,
            self.group_of()[value],
        )
    }

    /// The identifier is like `set`, or like an identifier under which one
    /// of `items` was last seen.
    pub open spec fn tied(&self, set: usize, items: Seq<Seq<char>>, a: usize) -> bool {
        ||| self.alike(a, set)
        ||| exists|i: int|
            0 <= i < items.len() && self.group_of().contains_key(#[trigger] items[i])
                && self.alike(a, self.group_of()[items[i]])
    }

    /// The two identifiers are alike once all of `items` have been seen under
    /// `set`: they were alike before, or both were tied to `set` by `items`.
    pub open spec fn alike_after_all(
        &self,
        set: usize,
        items: Seq<Seq<char>>,
        a: usize,
        b: usize,
    ) -> bool {
        self.alike(a, b) || (self.tied(set, items, a) && self.tied(set, items, b))
    }

    /// The two members were seen, under identifiers that are in one set.
    pub open spec fn connected(&self, a: Seq<char>, b: Seq<char>) -> bool {
        &&& self.group_of().contains_key(a)
        &&& self.group_of().contains_key(b)
        &&& self.same_set(self.group_of()[a], self.group_of()[b])
    }

    /// The members stand in `groups`, each once, two of them in one group if
    /// and only if they are connected.
    pub open spec fn grouped_into(&self, groups: Seq<Seq<Seq<char>>>) -> bool {
        &&& holds_each_once(groups, self.members())
        &&& forall|s: int, j: int, t: int, k: int|
            0 <= s < groups.len() && 0 <= j < groups[s].len() && 0 <= t < groups.len() && 0 <= k
                < groups[t].len() ==> (self.connected(
                #[trigger] groups[s][j],
                #[trigger] groups[t][k],
            ) <==> s == t)
    }

    /// The builder has seen the lines `lines`, each under an identifier of
    /// its own: its members are the words of the lines, and two members are
    /// connected if and only if they hang together through the lines.
    pub open spec fn has_seen(&self, lines: Seq<Seq<Seq<char>>>) -> bool {
        &&& self.wf()
        &&& self.members() == seen(lines)
        &&& forall|a: Seq<char>, b: Seq<char>| #[trigger]
            self.connected(a, b) <==> linked(lines, a, b)
    }

    /// The members that were seen are those that have an identifier, and the
    /// identifier of each has a set.
    pub proof fn lemma_members(&self)
        requires
            self.wf(),
        ensures
            self.members().no_duplicates(),
            forall|m: Seq<char>| #[trigger]
                self.group_of().contains_key(m) <==> self.members().contains(m),
            forall|m: Seq<char>| #[trigger]
                self.group_of().contains_key(m) ==> self.ids().contains(self.group_of()[m]),
    {
    }

    /// Being in one set is an equivalence of the identifiers that were seen.
    pub proof fn lemma_same_set(&self, a: usize, b: usize, c: usize)
        ensures
            self.ids().contains(a) <==> self.same_set(a, a),
            self.same_set(a, b) ==> self.same_set(b, a),
            self.same_set(a, b) && self.same_set(b, c) ==> self.same_set(a, c),
            self.same_set(a, b) ==> self.ids().contains(a) && self.ids().contains(b),
    {
    }

    /// A builder that has seen nothing.
    pub fn new() -> (r: Self)
        ensures
            r.wf(),
            r.members().len() == 0,
            r.ids() =~= Set::empty(),
            r.group_of() =~= Map::empty(),
            r.has_seen(Seq::empty()),
    {
        let r = GroupBuilder { item_set: StringHashMap::new(), items: Vec::new(), sets: new_sets() };
        assert(texts(r.items@) =~= Seq::empty());
        assert(r.members() =~= seen(Seq::empty()));
        r
    }

    /// Sees `value` under the identifier `set`. The identifier gets a set of
    /// its own if it has none. If `value` was seen before, the set of `set`
    /// and the set of the identifier it was last seen under become one.
    pub fn add(&mut self, set: usize, value: &str)
        requires
            old(self).wf(),
        ensures
            final(self).wf(),
            final(self).group_of() == old(self).group_of().insert(value@, set),
            final(self).ids() == old(self).ids().insert(set),
            final(self).members() == (if old(self).group_of().contains_key(value@) {
                old(self).members()
            } else {
                old(self).members().push(value@)
            }),
            forall|a: usize, b: usize|
                final(self).ids().contains(a) && final(self).ids().contains(b) ==> (
                #[trigger] final(self).same_set(a, b) <==> old(self).alike_after(
                    set,
                    value@,
                    a,
                    b,
                )),
    {
        let ghost r0 = roots(self.sets);
        let made = make_set(&mut self.sets, set);
        let ghost r1 = roots(self.sets);
        assert(r1.dom() =~= r0.dom().insert(set));
        assert forall|k: usize| #[trigger] r1.contains_key(k) implies r1.contains_key(r1[k])
            && r1[r1[k]] == r1[k] by {
            if k != set {
                assert(r0.contains_key(k));
                assert(r0.contains_key(r0[k]));
            }
        }
        let prev = match self.item_set.get(value) {
            Some(p) => Some(*p),
            None => None,
        };
        self.item_set.insert(String::from_str(value), set);
        match prev {
            Some(prev) => {
                assert(old(self).item_set@.contains_key(value@));
                assert(r0.contains_key(prev));
                let x = find_set(&self.sets, set).unwrap();
                let y = find_set(&self.sets, prev).unwrap();
                assert(r1.contains_key(prev));
                assert(r1[x] == x && r1[y] == y);
                let joined = union_sets(&mut self.sets, x, y);
                let ghost r2 = roots(self.sets);
                assert forall|k: usize| #[trigger] r2.contains_key(k) implies r2.contains_key(
                    r2[k],
                ) && r2[r2[k]] == r2[k] by {
                    assert(r1.contains_key(k));
                    assert(r1.contains_key(r1[k]));
                    assert(r1.contains_key(x));
                    assert(r1.contains_key(y));
                }
                assert(texts(self.items@).contains(value@));
                assert forall|m: Seq<char>| #[trigger]
                    self.item_set@.contains_key(m) <==> texts(self.items@).contains(m) by {
                    if m != value@ {
                        assert(old(self).item_set@.contains_key(m) <==> self.item_set@.contains_key(m));
                    }
                }
                assert forall|m: Seq<char>| #[trigger]
                    self.item_set@.contains_key(m) implies r2.contains_key(self.item_set@[m]) by {
                    if m != value@ {
                        assert(old(self).item_set@.contains_key(m));
                        assert(r0.contains_key(old(self).item_set@[m]));
                    }
                    assert(r1.contains_key(self.item_set@[m]));
                }
                assert forall|a: usize, b: usize|
                    self.ids().contains(a) && self.ids().contains(b) implies (
                #[trigger] self.same_set(a, b) <==> old(self).alike_after(set, value@, a, b)) by {
                    assert(r1.contains_key(a) && r1.contains_key(b));
                    assert(r1.contains_key(r1[a]) && r1.contains_key(r1[b]));
                    assert(r1.contains_key(set) && r1.contains_key(prev));
                    if a != set {
                        assert(r0.contains_key(a));
                        assert(r0.contains_key(r0[a]));
                    }
                    if b != set {
                        assert(r0.contains_key(b));
                        assert(r0.contains_key(r0[b]));
                    }
                    if set != prev && !r0.contains_key(set) {
                        assert(r0.contains_key(r0[prev]));
                    }
                }
            },
            None => {
                self.items.push(String::from_str(value));
                assert(texts(self.items@) =~= texts(old(self).items@).push(value@));
                assert(!texts(old(self).items@).contains(value@));
                assert forall|m: Seq<char>| #[trigger]
                    self.item_set@.contains_key(m) <==> texts(self.items@).contains(m) by {
                    if m == value@ {
                        assert(texts(self.items@)[self.items@.len() - 1] == m);
                    } else {
                        if old(self).item_set@.contains_key(m) {
                            let k = choose|k: int|
                                0 <= k < texts(old(self).items@).len() && texts(old(self).items@)[k]
                                    == m;
                            assert(texts(self.items@)[k] == m);
                        }
                    }
                }
                assert forall|m: Seq<char>| #[trigger]
                    self.item_set@.contains_key(m) implies r1.contains_key(self.item_set@[m]) by {
                    if m != value@ {
                        assert(old(self).item_set@.contains_key(m));
                        assert(r0.contains_key(old(self).item_set@[m]));
                    }
                }
                assert forall|a: usize, b: usize|
                    self.ids().contains(a) && self.ids().contains(b) implies (
                #[trigger] self.same_set(a, b) <==> old(self).alike_after(set, value@, a, b)) by {
                    if a != set {
                        assert(r0.contains_key(a));
                        assert(r0.contains_key(r0[a]));
                    }
                    if b != set {
                        assert(r0.contains_key(b));
                        assert(r0.contains_key(r0[b]));
                    }
                }
            },
        }
    }

    /// Seeing a member again under the identifier it was last seen under
    /// ties nothing new together.
    pub proof fn lemma_add_again(&self, set: usize, value: Seq<char>, a: usize, b: usize)
        requires
            self.wf(),
            self.group_of().contains_key(value),
            self.group_of()[value] == set,
            self.ids().contains(a),
            self.ids().contains(b),
        ensures
            self.alike_after(set, value, a, b) <==> self.same_set(a, b),
    {
    }

    /// Being tied by some items and one more.
    pub proof fn lemma_tied_push(&self, set: usize, items: Seq<Seq<char>>, item: Seq<char>, a: usize)
        ensures
            self.tied(set, items.push(item), a) <==> self.tied(set, items, a) || (
            self.group_of().contains_key(item) && self.alike(a, self.group_of()[item])),
    {
        let more = items.push(item);
        if self.tied(set, items, a) && !self.alike(a, set) {
            let i = choose|i: int|
                0 <= i < items.len() && self.group_of().contains_key(#[trigger] items[i])
                    && self.alike(a, self.group_of()[items[i]]);
            assert(more[i] == items[i]);
        }
        if self.group_of().contains_key(item) && self.alike(a, self.group_of()[item]) {
            assert(more[items.len() as int] == item);
        }
        if self.tied(set, more, a) && !self.alike(a, set) {
            let i = choose|i: int|
                0 <= i < more.len() && self.group_of().contains_key(#[trigger] more[i])
                    && self.alike(a, self.group_of()[more[i]]);
            if i < items.len() {
                assert(items[i] == more[i]);
            }
        }
    }

    /// Sees every one of `items` under the identifier `set`, in their order.
    /// With no item nothing changes. Otherwise the sets of `set` and of the
    /// identifiers under which the items were last seen become one.
    pub fn extend(&mut self, set: usize, items: &Vec<String>)
        requires
            old(self).wf(),
        ensures
            final(self).wf(),
            final(self).ids() == (if items@.len() > 0 {
                old(self).ids().insert(set)
            } else {
                old(self).ids()
            }),
            forall|m: Seq<char>| #[trigger]
                final(self).group_of().contains_key(m) <==> old(self).group_of().contains_key(m)
                    || texts(items@).contains(m),
            forall|m: Seq<char>| #[trigger]
                final(self).group_of().contains_key(m) ==> final(self).group_of()[m] == (if texts(
                    items@,
                ).contains(m) {
                    set
                } else {
                    old(self).group_of()[m]
                }),
            final(self).members() == with_new(old(self).members(), texts(items@)),
            forall|a: usize, b: usize|
                final(self).ids().contains(a) && final(self).ids().contains(b) ==> (
                #[trigger] final(self).same_set(a, b) <==> old(self).alike_after_all(
                    set,
                    texts(items@),
                    a,
                    b,
                )),
            forall|lines: Seq<Seq<Seq<char>>>|
                #[trigger] old(self).has_seen(lines) && !old(self).ids().contains(set)
                    ==> final(self).has_seen(lines.push(texts(items@))),
    {
        let ghost all = texts(items@);
        let n = items.len();
        let mut i: usize = 0;
        proof {
            assert(all.take(0) =~= Seq::<Seq<char>>::empty());
        }
        while i < n
            invariant
                n == items@.len(),
                i <= n,
                all == texts(items@),
                old(self).wf(),
                self.wf(),
                self.ids() == (if i > 0 {
                    old(self).ids().insert(set)
                } else {
                    old(self).ids()
                }),
                forall|m: Seq<char>| #[trigger]
                    self.group_of().contains_key(m) <==> old(self).group_of().contains_key(m)
                        || all.take(i as int).contains(m),
                forall|m: Seq<char>| #[trigger]
                    self.group_of().contains_key(m) ==> self.group_of()[m] == (if all.take(
                        i as int,
                    ).contains(m) {
                        set
                    } else {
                        old(self).group_of()[m]
                    }),
                self.members() == with_new(old(self).members(), all.take(i as int)),
                forall|a: usize, b: usize|
                    self.ids().contains(a) && self.ids().contains(b) ==> (#[trigger] self.same_set(
                        a,
                        b,
                    ) <==> old(self).alike_after_all(set, all.take(i as int), a, b)),
            decreases n - i,
        {
            let ghost cur = *self;
            let ghost seen = all.take(i as int);
            let ghost more = all.take(i + 1);
            let ghost m = all[i as int];
            proof {
                assert(more =~= seen.push(m));
                assert(more.drop_last() =~= seen);
                assert(m == items@[i as int]@);
                lemma_with_new(old(self).members(), seen);
                cur.lemma_members();
                old(self).lemma_members();
            }
            self.add(set, items[i].as_str());
            proof {
                assert forall|x: Seq<char>| more.contains(x) <==> seen.contains(x) || x == m by {
                    if seen.contains(x) {
                        let k = choose|k: int| 0 <= k < seen.len() && seen[k] == x;
                        assert(more[k] == x);
                    }
                    assert(more[i as int] == m);
                    if more.contains(x) {
                        let k = choose|k: int| 0 <= k < more.len() && more[k] == x;
                        if k < i {
                            assert(seen[k] == x);
                        }
                    }
                }
                assert forall|a: usize, b: usize|
                    self.ids().contains(a) && self.ids().contains(b) implies (
                #[trigger] self.same_set(a, b) <==> old(self).alike_after_all(set, more, a, b)) by {
                    old(self).lemma_tied_push(set, seen, m, a);
                    old(self).lemma_tied_push(set, seen, m, b);
                    old(self).lemma_tied_push(set, seen, m, set);
                    assert(self.same_set(a, b) <==> cur.alike_after(set, m, a, b));
                    if cur.group_of().contains_key(m) {
                        let prev = cur.group_of()[m];
                        old(self).lemma_tied_push(set, seen, m, prev);
                        if seen.contains(m) {
                            assert(prev == set);
                            let k = choose|k: int| 0 <= k < seen.len() && seen[k] == m;
                            assert(seen[k] == m);
                        } else {
                            assert(prev == old(self).group_of()[m]);
                        }
                    }
                }
            }
            i += 1;
        }
        proof {
            assert(all.take(n as int) =~= all);
            assert forall|lines: Seq<Seq<Seq<char>>>|
                #[trigger] old(self).has_seen(lines) && !old(self).ids().contains(
                    set,
                ) implies self.has_seen(lines.push(all)) by {
                assert(lines.push(all).drop_last() =~= lines);
                assert forall|a: Seq<char>, b: Seq<char>| #[trigger]
                    self.connected(a, b) <==> linked(lines.push(all), a, b) by {
                    lemma_merge_step(*old(self), *self, set, lines, all, a, b);
                }
            }
        }
    }

    /// The members in groups: two members stand in one group if and only if
    /// they are connected. The groups come in the order in which a member of
    /// each was first seen, and so do the members of each group.
    pub fn into_groups(self) -> (r: Vec<Vec<String>>)
        requires
            self.wf(),
        ensures
            self.grouped_into(group_texts(r@)),
            in_order_seen(group_texts(r@), self.members()),
    {
        let mut groups: Vec<Vec<String>> = Vec::new();
        let mut slots: HashMap<usize, usize> = HashMap::new();
        let ghost keys: Seq<usize> = Seq::empty();
        let ghost origin: Seq<Seq<int>> = Seq::empty();
        let ghost place: Seq<(int, int)> = Seq::empty();
        let ghost root = roots(self.sets);
        let ghost names = texts(self.items@);
        let n = self.items.len();
        let mut i: usize = 0;
        while i < n
            invariant
                self.wf(),
                n == self.items.len(),
                i <= n,
                root == roots(self.sets),
                names == texts(self.items@),
                keys.len() == groups.len(),
                keys.no_duplicates(),
                forall|k: usize| #[trigger] slots@.contains_key(k) <==> keys.contains(k),
                forall|s: int| 0 <= s < keys.len() ==> slots@[#[trigger] keys[s]] == s,
                origin.len() == groups.len(),
                forall|s: int|
                    0 <= s < groups.len() ==> (#[trigger] origin[s]).len() == groups@[s]@.len()
                        && groups@[s]@.len() > 0,
                forall|s: int, j: int|
                    0 <= s < groups.len() && 0 <= j < groups@[s]@.len() ==> {
                        let k = #[trigger] origin[s][j];
                        &&& 0 <= k < i
                        &&& groups@[s]@[j]@ == names[k]
                        &&& root[self.item_set@[names[k]]] == keys[s]
                        &&& place[k] == (s, j)
                    },
                forall|s: int, j: int, k: int|
                    0 <= s < groups.len() && 0 <= j < k < groups@[s]@.len() ==> #[trigger] origin[s][j]
                        < #[trigger] origin[s][k],
                forall|s: int, t: int|
                    0 <= s < t < groups.len() ==> (#[trigger] origin[s])[0] < (#[trigger] origin[t])[0],
                place.len() == i,
                forall|k: int|
                    0 <= k < i ==> {
                        let p = #[trigger] place[k];
                        &&& 0 <= p.0 < groups.len()
                        &&& 0 <= p.1 < groups@[p.0]@.len()
                        &&& origin[p.0][p.1] == k
                    },
            decreases n - i,
        {
            let item = &self.items[i];
            assert(names[i as int] == item@);
            assert(names.contains(item@));
            let id = match self.item_set.get(item.as_str()) {
                Some(id) => *id,
                None => { return groups; },
            };
            let top = find_set(&self.sets, id).unwrap();
            let slot = match slots.get(&top) {
                Some(s) => Some(*s),
                None => None,
            };
            match slot {
                Some(s) => {
                    assert(keys.contains(top));
                    let ghost at = choose|at: int| 0 <= at < keys.len() && keys[at] == top;
                    assert(s == at);
                    let ghost j = groups@[s as int]@.len() as int;
                    groups[s].push(item.clone());
                    proof {
                        origin = origin.update(s as int, origin[s as int].push(i as int));
                        place = place.push((s as int, j));
                    }
                },
                None => {
                    let s = groups.len();
                    let ghost slots_before = slots@;
                    let ghost keys_before = keys;
                    slots.insert(top, s);
                    assert(slots@ == slots_before.insert(top, s));
                    let mut group: Vec<String> = Vec::new();
                    group.push(item.clone());
                    groups.push(group);
                    proof {
                        assert(!keys.contains(top));
                        keys = keys.push(top);
                        origin = origin.push(seq![i as int]);
                        place = place.push((s as int, 0int));
                        assert forall|k: usize| #[trigger] slots@.contains_key(k) <==> keys.contains(
                            k,
                        ) by {
                            if k == top {
                                assert(keys[s as int] == top);
                            } else {
                                assert(slots@.contains_key(k) <==> slots_before.contains_key(k));
                                if keys_before.contains(k) {
                                    let at = choose|at: int|
                                        0 <= at < keys_before.len() && keys_before[at] == k;
                                    assert(keys[at] == k);
                                }
                                if keys.contains(k) {
                                    let at = choose|at: int| 0 <= at < keys.len() && keys[at] == k;
                                    assert(keys_before[at] == k);
                                }
                            }
                        }
                    }
                },
            }
            i += 1;
        }
        proof {
            let out = group_texts(groups@);
            assert forall|s: int| 0 <= s < out.len() implies (#[trigger] out[s]).len() > 0 by {
                assert(origin[s].len() == groups@[s]@.len());
            }
            assert forall|m: Seq<char>|
                self.members().contains(m) <==> exists|s: int, j: int|
                    0 <= s < out.len() && 0 <= j < out[s].len() && #[trigger] out[s][j] == m by {
                if self.members().contains(m) {
                    let k = choose|k: int| 0 <= k < names.len() && names[k] == m;
                    let p = place[k];
                    assert(origin[p.0][p.1] == k);
                    assert(out[p.0][p.1] == m);
                }
                if exists|s: int, j: int|
                    0 <= s < out.len() && 0 <= j < out[s].len() && #[trigger] out[s][j] == m {
                    let (s, j) = choose|s: int, j: int|
                        0 <= s < out.len() && 0 <= j < out[s].len() && #[trigger] out[s][j] == m;
                    let k = origin[s][j];
                    assert(names[k] == m);
                }
            }
            assert forall|s: int, j: int, t: int, k: int|
                0 <= s < out.len() && 0 <= j < out[s].len() && 0 <= t < out.len() && 0 <= k
                    < out[t].len() && (s != t || j != k) implies #[trigger] out[s][j]
                != #[trigger] out[t][k] by {
                let a = origin[s][j];
                let b = origin[t][k];
                assert(place[a] == (s, j));
                assert(place[b] == (t, k));
                assert(names[a] == out[s][j]);
                assert(names[b] == out[t][k]);
            }
            assert forall|s: int, j: int|
                0 <= s < out.len() && 0 <= j < out[s].len() implies names.index_of(
                #[trigger] out[s][j],
            ) == origin[s][j] by {
                let a = origin[s][j];
                assert(names[a] == out[s][j]);
                assert(names.contains(out[s][j]));
            }
            assert(in_order_seen(out, names)) by {
                assert forall|s: int, j: int, k: int|
                    0 <= s < out.len() && 0 <= j < k < out[s].len() implies names.index_of(
                    #[trigger] out[s][j],
                ) < names.index_of(#[trigger] out[s][k]) by {
                    assert(origin[s][j] < origin[s][k]);
                }
                assert forall|s: int, t: int| 0 <= s < t < out.len() implies names.index_of(
                    (#[trigger] out[s])[0],
                ) < names.index_of((#[trigger] out[t])[0]) by {
                    assert(origin[s][0] < origin[t][0]);
                    assert(names.index_of(out[s][0]) == origin[s][0]);
                    assert(names.index_of(out[t][0]) == origin[t][0]);
                }
            }
            assert forall|s: int, j: int, t: int, k: int|
                0 <= s < groups@.len() && 0 <= j < groups@[s]@.len() && 0 <= t < groups@.len() && 0
                    <= k < groups@[t]@.len() implies (self.connected(
                #[trigger] out[s][j],
                #[trigger] out[t][k],
            ) <==> s == t) by {
                let a = origin[s][j];
                let b = origin[t][k];
                assert(names[a] == out[s][j]);
                assert(names[b] == out[t][k]);
                assert(names.contains(names[a]));
                assert(names.contains(names[b]));
                assert(self.item_set@.contains_key(names[a]));
                assert(self.item_set@.contains_key(names[b]));
            }
        }
        groups
    }

    /// Walks the groups that [`GroupBuilder::into_groups`] gives.
    pub fn into_iter(self) -> (r: std::vec::IntoIter<Vec<String>>)
        requires
            self.wf(),
        ensures
            self.grouped_into(group_texts(r.remaining())),
            in_order_seen(group_texts(r.remaining()), self.members()),
    {
        self.into_groups().into_iter()
    }
}

impl Default for GroupBuilder {
    fn default() -> (r: Self)
        ensures
            r.wf(),
            r.members().len() == 0,
    {
        Self::new()
    }
}

/// The two words hang together through `lines`: going through the lines in
/// their order, they hung together before the last line, or each of them
/// touches the last line.
pub open spec fn linked(lines: Seq<Seq<Seq<char>>>, a: Seq<char>, b: Seq<char>) -> bool
    decreases lines.len(), 0int,
{
    if lines.len() == 0 {
        false
    } else {
        linked(lines.drop_last(), a, b) || (touches(lines.drop_last(), lines.last(), a) && touches(
            lines.drop_last(),
            lines.last(),
            b,
        ))
    }
}

/// The word stands in `line`, or hangs together with a word of `line`
/// through the lines `before`.
pub open spec fn touches(before: Seq<Seq<Seq<char>>>, line: Seq<Seq<char>>, a: Seq<char>) -> bool
    decreases before.len(), 1int,
{
    line.contains(a) || exists|i: int| 0 <= i < line.len() && linked(before, a, #[trigger] line[i])
}

/// The words of `lines`, each where it first occurs.
pub open spec fn seen(lines: Seq<Seq<Seq<char>>>) -> Seq<Seq<char>>
    decreases lines.len(),
{
    if lines.len() == 0 {
        Seq::empty()
    } else {
        with_new(seen(lines.drop_last()), lines.last())
    }
}

/// The words of each line of a text.
pub open spec fn line_tokens(lines: Seq<Seq<char>>) -> Seq<Seq<Seq<char>>> {
    lines.map_values(|l: Seq<char>| tokens(l))
}

/// Words that hang together through some lines are words of these lines.
pub proof fn lemma_linked_seen(lines: Seq<Seq<Seq<char>>>, a: Seq<char>, b: Seq<char>)
    requires
        linked(lines, a, b),
    ensures
        seen(lines).contains(a),
        seen(lines).contains(b),
    decreases lines.len(),
{
    let before = lines.drop_last();
    let line = lines.last();
    lemma_with_new(seen(before), line);
    if linked(before, a, b) {
        lemma_linked_seen(before, a, b);
    } else {
        assert(touches(before, line, a));
        assert(touches(before, line, b));
        if !line.contains(a) {
            let i = choose|i: int| 0 <= i < line.len() && linked(before, a, #[trigger] line[i]);
            lemma_linked_seen(before, a, line[i]);
        }
        if !line.contains(b) {
            let i = choose|i: int| 0 <= i < line.len() && linked(before, b, #[trigger] line[i]);
            lemma_linked_seen(before, b, line[i]);
        }
    }
}

/// Builds the groups that the lines of earlier results stand for. Each line
/// is one group of words; groups that share a word become one.
pub fn merge(lines: &Vec<String>) -> (r: WordGroups)
    ensures
        r.wf(),
        r@.no_duplicates(),
        forall|g: Seq<Seq<char>>| #[trigger]
            r@.contains(g) <==> is_class(line_tokens(texts(lines@)), g),
{
    let mut builder = GroupBuilder::new();
    let n = lines.len();
    let mut i: usize = 0;
    let ghost all = line_tokens(texts(lines@));
    proof {
        assert(all.take(0) =~= Seq::<Seq<Seq<char>>>::empty());
    }
    while i < n
        invariant
            n == lines.len(),
            i <= n,
            all == line_tokens(texts(lines@)),
            builder.has_seen(all.take(i as int)),
            forall|k: usize| #[trigger] builder.ids().contains(k) ==> k < i,
        decreases n - i,
    {
        let words = split_whitespace(lines[i].as_str());
        let ghost was = builder;
        let ghost before = all.take(i as int);
        let ghost line = texts(words@);
        proof {
            assert(all.take(i + 1).drop_last() =~= before);
            assert(all.take(i + 1).last() == line);
            assert(all.take(i + 1) =~= before.push(line));
        }
        builder.extend(i, &words);
        proof {
            assert(was.has_seen(before));
        }
        i += 1;
    }
    proof {
        assert(all.take(n as int) =~= all);
    }
    let groups = builder.into_groups();
    proof {
        let held = group_texts(groups@);
        assert forall|s: int, j: int, t: int, k: int|
            0 <= s < held.len() && 0 <= j < held[s].len() && 0 <= t < held.len() && 0 <= k
                < held[t].len() implies (linked(all, #[trigger] held[s][j], #[trigger] held[t][k])
            <==> s == t) by {
            assert(builder.connected(held[s][j], held[t][k]) <==> s == t);
        }
        lemma_classes(all, held);
    }
    WordGroups::from_iter(groups)
}

/// One line more: the members that are connected after the line was seen are
/// those that hang together through the lines up to it.
proof fn lemma_merge_step(
    was: GroupBuilder,
    now: GroupBuilder,
    id: usize,
    before: Seq<Seq<Seq<char>>>,
    line: Seq<Seq<char>>,
    a: Seq<char>,
    b: Seq<char>,
)
    requires
        was.wf(),
        now.wf(),
        !was.ids().contains(id),
        forall|x: Seq<char>, y: Seq<char>| #[trigger]
            was.connected(x, y) <==> linked(before, x, y),
        now.ids() == (if line.len() > 0 {
            was.ids().insert(id)
        } else {
            was.ids()
        }),
        forall|m: Seq<char>| #[trigger]
            now.group_of().contains_key(m) <==> was.group_of().contains_key(m) || line.contains(m),
        forall|m: Seq<char>| #[trigger]
            now.group_of().contains_key(m) ==> now.group_of()[m] == (if line.contains(m) {
                id
            } else {
                was.group_of()[m]
            }),
        forall|x: usize, y: usize|
            now.ids().contains(x) && now.ids().contains(y) ==> (#[trigger] now.same_set(x, y)
                <==> was.alike_after_all(id, line, x, y)),
    ensures
        now.connected(a, b) <==> linked(before.push(line), a, b),
{
    let lines = before.push(line);
    assert(lines.drop_last() =~= before);
    assert(lines.last() == line);
    was.lemma_members();
    now.lemma_members();
    lemma_touch(was, id, before, line, a);
    lemma_touch(was, id, before, line, b);
    if linked(before, a, b) {
        assert(was.connected(a, b));
    }
    if now.group_of().contains_key(a) && now.group_of().contains_key(b) {
        let x = now.group_of()[a];
        let y = now.group_of()[b];
        assert(now.ids().contains(x) && now.ids().contains(y));
        assert(now.same_set(x, y) <==> was.alike_after_all(id, line, x, y));
        if !line.contains(a) && !line.contains(b) {
            assert(was.connected(a, b) <==> was.alike(x, y));
        }
    } else {
        if touches(before, line, a) && touches(before, line, b) {
            if !line.contains(a) {
                let i = choose|i: int| 0 <= i < line.len() && linked(before, a, #[trigger] line[i]);
                assert(was.connected(a, line[i]));
            }
            if !line.contains(b) {
                let i = choose|i: int| 0 <= i < line.len() && linked(before, b, #[trigger] line[i]);
                assert(was.connected(b, line[i]));
            }
        }
    }
}

/// A member touches the new line if and only if its identifier is tied to
/// the identifier of the line.
proof fn lemma_touch(
    was: GroupBuilder,
    id: usize,
    before: Seq<Seq<Seq<char>>>,
    line: Seq<Seq<char>>,
    a: Seq<char>,
)
    requires
        was.wf(),
        !was.ids().contains(id),
        forall|x: Seq<char>, y: Seq<char>| #[trigger]
            was.connected(x, y) <==> linked(before, x, y),
    ensures
        line.contains(a) ==> touches(before, line, a) && was.tied(id, line, id),
        !line.contains(a) && was.group_of().contains_key(a) ==> (touches(before, line, a)
            <==> was.tied(id, line, was.group_of()[a])),
        !line.contains(a) && !was.group_of().contains_key(a) ==> !touches(before, line, a),
{
    was.lemma_members();
    if !line.contains(a) {
        if touches(before, line, a) {
            let i = choose|i: int| 0 <= i < line.len() && linked(before, a, #[trigger] line[i]);
            assert(was.connected(a, line[i]));
        }
        if was.group_of().contains_key(a) {
            let x = was.group_of()[a];
            if was.tied(id, line, x) {
                assert(!was.alike(x, id));
                let i = choose|i: int|
                    0 <= i < line.len() && was.group_of().contains_key(#[trigger] line[i])
                        && was.alike(x, was.group_of()[line[i]]);
                assert(was.connected(a, line[i]));
                assert(linked(before, a, line[i]));
            }
        }
    }
}

} // verus!
