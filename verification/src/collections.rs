//! Ordered collections keyed by text.

use vstd::prelude::*;

use crate::text::is_before;
use crate::text::precedes;
use crate::text::precedes_is_asymmetric;
use crate::text::precedes_is_total;
use crate::text::precedes_is_transitive;
use crate::text::same;

verus! {

/// Whether every text of `keys` comes before all those that follow it; so none occurs twice.
pub open spec fn ascending(keys: Seq<Seq<char>>) -> bool {
    forall|i: int, j: int| 0 <= i < j < keys.len() ==> precedes(keys[i], keys[j])
}

/// In an ascending sequence a text has one place only.
pub proof fn ascending_places_are_unique(keys: Seq<Seq<char>>, i: int, j: int)
    requires
        ascending(keys),
        0 <= i < keys.len(),
        0 <= j < keys.len(),
        keys[i] == keys[j],
    ensures
        i == j,
{
    if i < j {
        precedes_is_asymmetric(keys[i], keys[j]);
    } else if j < i {
        precedes_is_asymmetric(keys[j], keys[i]);
    }
}

/// Two ascending sequences that hold the same texts are the same sequence.
pub proof fn ascending_is_determined_by_contents(a: Seq<Seq<char>>, b: Seq<Seq<char>>)
    requires
        ascending(a),
        ascending(b),
        forall|k: Seq<char>| a.contains(k) == b.contains(k),
    ensures
        a == b,
    decreases a.len(),
{
    if a.len() == 0 {
        if b.len() > 0 {
            assert(b.contains(b[0]));
            assert(a.contains(b[0]));
        }
        assert(a =~= b);
    } else {
        assert(a.contains(a.last()));
        assert(b.contains(a.last()));
        assert(b.len() > 0);
        assert(b.contains(b.last()));
        assert(a.contains(b.last()));
        let i = choose|i: int| 0 <= i < a.len() && a[i] == b.last();
        let j = choose|j: int| 0 <= j < b.len() && b[j] == a.last();
        if a.last() != b.last() {
            precedes_is_asymmetric(a.last(), b.last());
        }
        assert forall|k: Seq<char>| a.drop_last().contains(k) == b.drop_last().contains(k) by {
            if a.drop_last().contains(k) {
                let m = choose|m: int| 0 <= m < a.drop_last().len() && a.drop_last()[m] == k;
                assert(a[m] == k);
                assert(a.contains(k));
                let n = choose|n: int| 0 <= n < b.len() && b[n] == k;
                if n == b.len() - 1 {
                    ascending_places_are_unique(a, m, a.len() - 1);
                }
                assert(b.drop_last()[n] == k);
            }
            if b.drop_last().contains(k) {
                let m = choose|m: int| 0 <= m < b.drop_last().len() && b.drop_last()[m] == k;
                assert(b[m] == k);
                assert(b.contains(k));
                let n = choose|n: int| 0 <= n < a.len() && a[n] == k;
                if n == a.len() - 1 {
                    ascending_places_are_unique(b, m, b.len() - 1);
                }
                assert(a.drop_last()[n] == k);
            }
        }
        ascending_is_determined_by_contents(a.drop_last(), b.drop_last());
        assert(a =~= a.drop_last().push(a.last()));
        assert(b =~= b.drop_last().push(b.last()));
    }
}

/// What a sequence holds after one more text.
pub proof fn contains_push(names: Seq<Seq<char>>, name: Seq<char>, x: Seq<char>)
    ensures
        names.push(name).contains(x) == (names.contains(x) || x == name),
{
    let longer = names.push(name);
    if names.contains(x) {
        let k = choose|k: int| 0 <= k < names.len() && names[k] == x;
        assert(longer[k] == x);
    }
    if x == name {
        assert(longer[names.len() as int] == x);
    }
    if longer.contains(x) && x != name {
        let k = choose|k: int| 0 <= k < longer.len() && longer[k] == x;
        assert(names[k] == x);
    }
}

/// The keys of a sequence of entries.
spec fn keys_of<V>(entries: Seq<(String, V)>) -> Seq<Seq<char>> {
    Seq::new(entries.len(), |i: int| entries[i].0@)
}

/// The values of a sequence of entries.
spec fn values_of<V>(entries: Seq<(String, V)>) -> Seq<V> {
    Seq::new(entries.len(), |i: int| entries[i].1)
}

/// The place of a key among entries in ascending order: where it stands, or where it would go.
fn place_of<V>(entries: &Vec<(String, V)>, key: &str) -> (place: (bool, usize))
    requires
        ascending(keys_of(entries@)),
    ensures
        place.1 <= entries.len(),
        place.0 == keys_of(entries@).contains(key@),
        place.0 ==> place.1 < entries.len() && keys_of(entries@)[place.1 as int] == key@,
        forall|i: int| 0 <= i < place.1 ==> precedes(#[trigger] keys_of(entries@)[i], key@),
        forall|i: int|
            place.1 <= i < entries.len() && !place.0 ==> precedes(key@, #[trigger] keys_of(entries@)[i]),
{
    let ghost all = keys_of(entries@);
    let mut low: usize = 0;
    let mut high: usize = entries.len();
    while low < high
        invariant
            low <= high <= entries.len(),
            all == keys_of(entries@),
            ascending(all),
            forall|i: int| 0 <= i < low ==> precedes(#[trigger] all[i], key@),
            forall|i: int| high <= i < entries.len() ==> precedes(key@, #[trigger] all[i]),
        decreases high - low,
    {
        let middle: usize = low + (high - low) / 2;
        assert(all[middle as int] == entries@[middle as int].0@);
        if same(&entries[middle].0, key) {
            assert forall|i: int| 0 <= i < middle implies precedes(#[trigger] all[i], key@) by {
                assert(precedes(all[i], all[middle as int]));
            }
            return (true, middle);
        }
        if is_before(&entries[middle].0, key) {
            assert forall|i: int| 0 <= i < middle + 1 implies precedes(#[trigger] all[i], key@) by {
                if i < middle {
                    precedes_is_transitive(all[i], all[middle as int], key@);
                }
            }
            low = middle + 1;
        } else {
            proof {
                precedes_is_total(all[middle as int], key@);
            }
            assert forall|i: int| middle <= i < entries.len() implies precedes(key@, #[trigger] all[i]) by {
                if i > middle {
                    precedes_is_transitive(key@, all[middle as int], all[i]);
                }
            }
            high = middle;
        }
    }
    assert(!all.contains(key@)) by {
        if all.contains(key@) {
            let i = choose|i: int| 0 <= i < all.len() && all[i] == key@;
            precedes_is_asymmetric(all[i], key@);
        }
    }
    (false, low)
}

/// Putting a new text at its place keeps a sequence ascending.
proof fn insertion_keeps_ascending(keys: Seq<Seq<char>>, place: int, key: Seq<char>)
    requires
        ascending(keys),
        0 <= place <= keys.len(),
        forall|i: int| 0 <= i < place ==> precedes(#[trigger] keys[i], key),
        forall|i: int| place <= i < keys.len() ==> precedes(key, #[trigger] keys[i]),
    ensures
        ascending(keys.insert(place, key)),
        forall|k: Seq<char>| #[trigger] keys.insert(place, key).contains(k) == (k == key || keys.contains(k)),
{
    let after = keys.insert(place, key);
    assert forall|i: int, j: int| 0 <= i < j < after.len() implies precedes(after[i], after[j]) by {
        if j < place {
            assert(precedes(keys[i], keys[j]));
        } else if i < place && j > place {
            assert(precedes(keys[i], keys[j - 1]));
        } else if i > place {
            assert(precedes(keys[i - 1], keys[j - 1]));
        }
    }
    assert forall|k: Seq<char>| #[trigger] after.contains(k) == (k == key || keys.contains(k)) by {
        if keys.contains(k) {
            let i = choose|i: int| 0 <= i < keys.len() && keys[i] == k;
            if i < place {
                assert(after[i] == k);
            } else {
                assert(after[i + 1] == k);
            }
        }
        if k == key {
            assert(after[place] == k);
        }
        if after.contains(k) && k != key {
            let i = choose|i: int| 0 <= i < after.len() && after[i] == k;
            if i < place {
                assert(keys[i] == k);
            } else {
                assert(keys[i - 1] == k);
            }
        }
    }
}

/// Whether `keys` are the texts of a set, in ascending order.
pub open spec fn lists(keys: Seq<Seq<char>>, all: Set<Seq<char>>) -> bool {
    &&& ascending(keys)
    &&& forall|k: Seq<char>| #[trigger] keys.contains(k) == all.contains(k)
}

/// The texts of a finite set, in ascending order.
pub open spec fn in_order(all: Set<Seq<char>>) -> Seq<Seq<char>> {
    choose|keys: Seq<Seq<char>>| lists(keys, all)
}

/// A sequence that lists a set is the one that lists it in order.
pub proof fn listing_is_in_order(keys: Seq<Seq<char>>, all: Set<Seq<char>>)
    requires
        lists(keys, all),
    ensures
        in_order(all) == keys,
{
    assert(lists(in_order(all), all));
    assert forall|k: Seq<char>| in_order(all).contains(k) == keys.contains(k) by {}
    ascending_is_determined_by_contents(in_order(all), keys);
}

/// Whether a set can be listed in order.
pub open spec fn listable(all: Set<Seq<char>>) -> bool {
    exists|keys: Seq<Seq<char>>| lists(keys, all)
}

/// Ascending texts with one more.
spec fn with_key(keys: Seq<Seq<char>>, key: Seq<char>) -> Seq<Seq<char>>
    decreases keys.len(),
{
    if keys.len() == 0 || precedes(keys.last(), key) {
        keys.push(key)
    } else if keys.last() == key {
        keys
    } else {
        with_key(keys.drop_last(), key).push(keys.last())
    }
}

proof fn with_key_lists(keys: Seq<Seq<char>>, key: Seq<char>)
    requires
        ascending(keys),
    ensures
        ascending(with_key(keys, key)),
        forall|k: Seq<char>| #[trigger] with_key(keys, key).contains(k) == (keys.contains(k) || k == key),
    decreases keys.len(),
{
    if keys.len() == 0 || precedes(keys.last(), key) {
        assert forall|i: int, j: int| 0 <= i < j < keys.push(key).len() implies precedes(
            keys.push(key)[i],
            keys.push(key)[j],
        ) by {
            if j == keys.len() && i < keys.len() - 1 {
                precedes_is_transitive(keys[i], keys.last(), key);
            }
        }
        assert forall|k: Seq<char>| #[trigger] keys.push(key).contains(k) == (keys.contains(k) || k == key) by {
            contains_push(keys, key, k);
        }
    } else if keys.last() == key {
        assert(keys.contains(key));
    } else {
        let rest = keys.drop_last();
        let last = keys.last();
        let inner = with_key(rest, key);
        with_key_lists(rest, key);
        precedes_is_total(last, key);
        assert forall|i: int, j: int| 0 <= i < j < inner.push(last).len() implies precedes(
            inner.push(last)[i],
            inner.push(last)[j],
        ) by {
            if j == inner.len() {
                assert(inner.contains(inner[i]));
                if inner[i] != key {
                    let k = choose|k: int| 0 <= k < rest.len() && rest[k] == inner[i];
                    assert(precedes(keys[k], keys[keys.len() - 1]));
                }
            }
        }
        assert(keys =~= rest.push(last));
        assert forall|k: Seq<char>| #[trigger] inner.push(last).contains(k) == (keys.contains(k) || k == key) by {
            contains_push(inner, last, k);
            contains_push(rest, last, k);
        }
    }
}

/// A set that can be listed can be listed with one text more.
pub proof fn listable_with(all: Set<Seq<char>>, key: Seq<char>)
    requires
        listable(all),
    ensures
        listable(all.insert(key)),
{
    let keys = choose|keys: Seq<Seq<char>>| lists(keys, all);
    with_key_lists(keys, key);
    assert(lists(with_key(keys, key), all.insert(key)));
}

/// The union of a set that can be listed with one that is listed can be listed.
pub proof fn listable_union(all: Set<Seq<char>>, more: Seq<Seq<char>>)
    requires
        listable(all),
    ensures
        listable(all.union(Set::new(|k: Seq<char>| more.contains(k)))),
    decreases more.len(),
{
    let union = all.union(Set::new(|k: Seq<char>| more.contains(k)));
    if more.len() == 0 {
        assert(union =~= all);
    } else {
        let rest = more.drop_last();
        listable_union(all, rest);
        listable_with(all.union(Set::new(|k: Seq<char>| rest.contains(k))), more.last());
        assert(more =~= rest.push(more.last()));
        assert forall|k: Seq<char>| #[trigger] more.contains(k) == (rest.contains(k) || k == more.last()) by {
            contains_push(rest, more.last(), k);
        }
        assert(union =~= all.union(Set::new(|k: Seq<char>| rest.contains(k))).insert(more.last()));
    }
}

/// A map from texts to values, in the order of its keys.
#[derive(Debug)]
pub struct StringMap<V> {
    entries: Vec<(String, V)>,
}

impl<V> View for StringMap<V> {
    type V = Map<Seq<char>, V>;

    open spec fn view(&self) -> Map<Seq<char>, V> {
        Map::new(
            |k: Seq<char>| self.spec_keys().contains(k),
            |k: Seq<char>| self.spec_values()[self.spec_keys().index_of(k)],
        )
    }
}

impl<V> StringMap<V> {
    /// The keys, in ascending order.
    pub closed spec fn spec_keys(&self) -> Seq<Seq<char>> {
        keys_of(self.entries@)
    }

    /// The values, in the order of their keys.
    pub closed spec fn spec_values(&self) -> Seq<V> {
        values_of(self.entries@)
    }

    #[verifier::type_invariant]
    closed spec fn keys_ascend(self) -> bool {
        ascending(keys_of(self.entries@))
    }

    /// What holds of every map: its keys ascend, and each has a value.
    pub open spec fn valid(&self) -> bool {
        &&& ascending(self.spec_keys())
        &&& self.spec_keys().len() == self.spec_values().len()
    }

    /// The value of the key at place `i` is the one at place `i`.
    pub proof fn lookup_at(&self, i: int)
        requires
            self.valid(),
            0 <= i < self.spec_keys().len(),
        ensures
            self@.contains_key(self.spec_keys()[i]),
            self@[self.spec_keys()[i]] == self.spec_values()[i],
    {
        let k = self.spec_keys()[i];
        assert(self.spec_keys().contains(k));
        ascending_places_are_unique(self.spec_keys(), i, self.spec_keys().index_of(k));
    }

    /// The keys of a map are listed in order.
    pub proof fn keys_are_in_order(&self)
        requires
            self.valid(),
        ensures
            in_order(self@.dom()) == self.spec_keys(),
    {
        listing_is_in_order(self.spec_keys(), self@.dom());
    }

    /// The empty map.
    pub fn new() -> (map: Self)
        ensures
            map@ == Map::<Seq<char>, V>::empty(),
            map.valid(),
            map.spec_keys() == Seq::<Seq<char>>::empty(),
    {
        let map = StringMap { entries: Vec::new() };
        assert(map.spec_keys() =~= Seq::<Seq<char>>::empty());
        assert(map@ =~= Map::<Seq<char>, V>::empty());
        map
    }

    /// How many keys there are.
    pub fn len(&self) -> (n: usize)
        ensures
            n == self.spec_keys().len(),
            self.valid(),
    {
        proof {
            use_type_invariant(self);
        }
        self.entries.len()
    }

    /// The key at place `i`.
    pub fn key_at(&self, i: usize) -> (key: &str)
        requires
            i < self.spec_keys().len(),
        ensures
            key@ == self.spec_keys()[i as int],
    {
        &self.entries[i].0
    }

    /// The value of the key at place `i`.
    pub fn value_at(&self, i: usize) -> (value: &V)
        requires
            i < self.spec_keys().len(),
        ensures
            *value == self.spec_values()[i as int],
            *value == self@[self.spec_keys()[i as int]],
            self@.contains_key(self.spec_keys()[i as int]),
    {
        proof {
            use_type_invariant(self);
            self.lookup_at(i as int);
        }
        &self.entries[i].1
    }

    /// The value of `key`, if it has one.
    pub fn get(&self, key: &str) -> (value: Option<&V>)
        ensures
            value is Some == self@.contains_key(key@),
            value matches Some(v) ==> *v == self@[key@],
    {
        proof {
            use_type_invariant(self);
        }
        let place = place_of(&self.entries, key);
        if place.0 {
            proof {
                self.lookup_at(place.1 as int);
            }
            Some(&self.entries[place.1].1)
        } else {
            None
        }
    }

    /// Whether `key` has a value.
    pub fn contains_key(&self, key: &str) -> (r: bool)
        ensures
            r == self@.contains_key(key@),
    {
        proof {
            use_type_invariant(self);
        }
        place_of(&self.entries, key).0
    }

    /// Gives `key` the value `value`, in place of the one it had.
    pub fn insert(&mut self, key: String, value: V)
        ensures
            final(self)@ == old(self)@.insert(key@, value),
            final(self).valid(),
    {
        proof {
            use_type_invariant(&*self);
        }
        let ghost before = *self;
        let ghost k = key@;
        let place = place_of(&self.entries, &key);
        let mut entries: Vec<(String, V)> = Vec::new();
        std::mem::swap(&mut entries, &mut self.entries);
        if place.0 {
            entries[place.1] = (key, value);
            assert(keys_of(entries@) =~= before.spec_keys());
            self.entries = entries;
            proof {
                assert forall|x: Seq<char>| before.spec_keys().contains(x) implies self@[x]
                    == before@.insert(k, value)[x] by {
                    let i = before.spec_keys().index_of(x);
                    self.lookup_at(i);
                    before.lookup_at(i);
                    if x == k {
                        ascending_places_are_unique(before.spec_keys(), i, place.1 as int);
                    }
                }
                assert(self@ =~= before@.insert(k, value));
            }
        } else {
            entries.insert(place.1, (key, value));
            proof {
                insertion_keeps_ascending(before.spec_keys(), place.1 as int, k);
                assert(keys_of(entries@) =~= before.spec_keys().insert(place.1 as int, k));
            }
            self.entries = entries;
            proof {
                assert forall|x: Seq<char>| self.spec_keys().contains(x) implies self@[x]
                    == before@.insert(k, value)[x] by {
                    let i = self.spec_keys().index_of(x);
                    self.lookup_at(i);
                    if i < place.1 {
                        before.lookup_at(i);
                        assert(before.spec_keys()[i] == x);
                        assert(x != k);
                    } else if i > place.1 {
                        before.lookup_at(i - 1);
                        assert(before.spec_keys()[i - 1] == x);
                        assert(x != k);
                    }
                }
                assert(self@ =~= before@.insert(k, value));
            }
        }
    }
}

impl<T> StringMap<Vec<T>> {
    /// The items listed under `key`; none if it has no list.
    pub open spec fn listed(&self, key: Seq<char>) -> Seq<T> {
        if self@.contains_key(key) {
            self@[key]@
        } else {
            Seq::empty()
        }
    }

    /// Adds `item` at the end of the list of `key`.
    pub fn append(&mut self, key: String, item: T)
        ensures
            final(self)@.dom() == old(self)@.dom().insert(key@),
            final(self).listed(key@) == old(self).listed(key@).push(item),
            forall|k: Seq<char>| k != key@ ==> #[trigger] final(self).listed(k) == old(self).listed(k),
            final(self).valid(),
    {
        proof {
            use_type_invariant(&*self);
        }
        let ghost before = *self;
        let ghost k = key@;
        let place = place_of(&self.entries, &key);
        if place.0 {
            let mut entries: Vec<(String, Vec<T>)> = Vec::new();
            std::mem::swap(&mut entries, &mut self.entries);
            entries[place.1].1.push(item);
            assert(keys_of(entries@) =~= before.spec_keys());
            self.entries = entries;
            proof {
                self.lookup_at(place.1 as int);
                before.lookup_at(place.1 as int);
                assert(self@.dom() =~= before@.dom().insert(k));
                assert forall|x: Seq<char>| x != k implies #[trigger] self.listed(x) == before.listed(x) by {
                    if before@.contains_key(x) {
                        let i = before.spec_keys().index_of(x);
                        self.lookup_at(i);
                        before.lookup_at(i);
                    }
                }
            }
        } else {
            let mut list: Vec<T> = Vec::new();
            list.push(item);
            self.insert(key, list);
            assert(self.listed(k) =~= before.listed(k).push(item));
            assert(self@.dom() =~= before@.dom().insert(k));
        }
    }
}

/// A set of texts, in ascending order.
#[derive(Debug)]
pub struct StringSet {
    members: StringMap<()>,
}

impl View for StringSet {
    type V = Set<Seq<char>>;

    closed spec fn view(&self) -> Set<Seq<char>> {
        self.members@.dom()
    }
}

impl StringSet {
    /// The members, in ascending order.
    pub closed spec fn spec_members(&self) -> Seq<Seq<char>> {
        self.members.spec_keys()
    }

    /// What holds of every set: the members ascend, and are those of its view.
    pub open spec fn valid(&self) -> bool {
        &&& ascending(self.spec_members())
        &&& forall|k: Seq<char>| self@.contains(k) == #[trigger] self.spec_members().contains(k)
    }

    /// The empty set.
    pub fn new() -> (set: Self)
        ensures
            set@ == Set::<Seq<char>>::empty(),
            set.valid(),
    {
        let set = StringSet { members: StringMap::new() };
        assert(set@ =~= Set::<Seq<char>>::empty());
        set
    }

    /// How many members there are.
    pub fn len(&self) -> (n: usize)
        ensures
            n == self.spec_members().len(),
            self.valid(),
    {
        self.members.len()
    }

    /// The member at place `i`.
    pub fn at(&self, i: usize) -> (member: &str)
        requires
            i < self.spec_members().len(),
        ensures
            member@ == self.spec_members()[i as int],
            self@.contains(member@),
    {
        assert(self.spec_members().contains(self.spec_members()[i as int]));
        self.members.key_at(i)
    }

    /// Whether `text` is a member.
    pub fn contains(&self, text: &str) -> (r: bool)
        ensures
            r == self@.contains(text@),
    {
        self.members.contains_key(text)
    }

    /// Makes `text` a member, and says whether it was none before.
    pub fn insert(&mut self, text: String) -> (new: bool)
        ensures
            final(self)@ == old(self)@.insert(text@),
            new == !old(self)@.contains(text@),
            final(self).valid(),
    {
        let ghost before = *self;
        let ghost k = text@;
        let new = !self.members.contains_key(&text);
        self.members.insert(text, ());
        assert(self@ =~= before@.insert(k));
        new
    }
}

} // verus!
