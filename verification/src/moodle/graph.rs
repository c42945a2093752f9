//! Reachability among named things.

use vstd::prelude::*;

use crate::collections::StringMap;
use crate::collections::StringSet;
use crate::text::copy;
use crate::text::texts;

verus! {

/// Whether `b` is listed under `a`.
pub open spec fn adjacent(next: &StringMap<Vec<String>>, a: Seq<char>, b: Seq<char>) -> bool {
    texts(next.listed(a)).contains(b)
}

/// Whether each of `chain` leads to the one after it, and none is to be avoided.
pub open spec fn is_chain(
    step: spec_fn(Seq<char>, Seq<char>) -> bool,
    avoided: spec_fn(Seq<char>) -> bool,
    chain: Seq<Seq<char>>,
) -> bool
    decreases chain.len(),
{
    &&& chain.len() > 0
    &&& !avoided(chain.last())
    &&& chain.len() > 1 ==> is_chain(step, avoided, chain.drop_last()) && step(chain[chain.len() - 2], chain.last())
}

/// Whether some chain leads from one of the starts to `name`.
pub open spec fn reached(
    start: spec_fn(Seq<char>) -> bool,
    step: spec_fn(Seq<char>, Seq<char>) -> bool,
    avoided: spec_fn(Seq<char>) -> bool,
    name: Seq<char>,
) -> bool {
    exists|chain: Seq<Seq<char>>| #[trigger]
        is_chain(step, avoided, chain) && start(chain[0]) && chain.last() == name
}

/// A start is reached.
pub proof fn starts_are_reached(
    start: spec_fn(Seq<char>) -> bool,
    step: spec_fn(Seq<char>, Seq<char>) -> bool,
    avoided: spec_fn(Seq<char>) -> bool,
    name: Seq<char>,
)
    requires
        start(name),
        !avoided(name),
    ensures
        reached(start, step, avoided, name),
{
    assert(is_chain(step, avoided, seq![name]));
}

/// What is one step from something reached is reached.
pub proof fn steps_are_reached(
    start: spec_fn(Seq<char>) -> bool,
    step: spec_fn(Seq<char>, Seq<char>) -> bool,
    avoided: spec_fn(Seq<char>) -> bool,
    from: Seq<char>,
    to: Seq<char>,
)
    requires
        reached(start, step, avoided, from),
        step(from, to),
        !avoided(to),
    ensures
        reached(start, step, avoided, to),
{
    let chain = choose|chain: Seq<Seq<char>>| #[trigger]
        is_chain(step, avoided, chain) && start(chain[0]) && chain.last() == from;
    let longer = chain.push(to);
    assert(longer.drop_last() =~= chain);
    assert(is_chain(step, avoided, longer));
}

/// What is to be avoided is not reached.
pub proof fn reached_is_not_avoided(
    start: spec_fn(Seq<char>) -> bool,
    step: spec_fn(Seq<char>, Seq<char>) -> bool,
    avoided: spec_fn(Seq<char>) -> bool,
    name: Seq<char>,
)
    requires
        reached(start, step, avoided, name),
    ensures
        !avoided(name),
{
    let chain = choose|chain: Seq<Seq<char>>| #[trigger]
        is_chain(step, avoided, chain) && start(chain[0]) && chain.last() == name;
    assert(!avoided(chain.last()));
}

/// Nothing outside a set that holds the starts and all steps from its members is reached.
pub proof fn reached_stays_inside(
    start: spec_fn(Seq<char>) -> bool,
    step: spec_fn(Seq<char>, Seq<char>) -> bool,
    avoided: spec_fn(Seq<char>) -> bool,
    inside: Set<Seq<char>>,
    chain: Seq<Seq<char>>,
)
    requires
        is_chain(step, avoided, chain),
        start(chain[0]),
        forall|name: Seq<char>| #[trigger] start(name) && !avoided(name) ==> inside.contains(name),
        forall|from: Seq<char>, to: Seq<char>|
            inside.contains(from) && #[trigger] step(from, to) && !avoided(to) ==> inside.contains(to),
    ensures
        inside.contains(chain.last()),
    decreases chain.len(),
{
    if chain.len() > 1 {
        reached_stays_inside(start, step, avoided, inside, chain.drop_last());
        assert(step(chain[chain.len() - 2], chain.last()));
    }
}

/// All that the first `n` lists hold.
spec fn listed_in(lists: Seq<Vec<String>>, n: nat) -> Seq<Seq<char>>
    decreases n,
{
    if n == 0 || n > lists.len() {
        Seq::empty()
    } else {
        listed_in(lists, (n - 1) as nat) + texts(lists[n - 1]@)
    }
}

proof fn listed_in_holds_all(lists: Seq<Vec<String>>, n: nat, i: int, b: Seq<char>)
    requires
        0 <= i < n <= lists.len(),
        texts(lists[i]@).contains(b),
    ensures
        listed_in(lists, n).contains(b),
    decreases n,
{
    let before = listed_in(lists, (n - 1) as nat);
    let own = texts(lists[n - 1]@);
    if i == n - 1 {
        let k = choose|k: int| 0 <= k < own.len() && own[k] == b;
        assert((before + own)[before.len() + k] == b);
    } else {
        listed_in_holds_all(lists, (n - 1) as nat, i, b);
        let k = choose|k: int| 0 <= k < before.len() && before[k] == b;
        assert((before + own)[k] == b);
    }
}

/// Takes note of `name`, unless it is to be avoided or was found before.
fn visit(found: &mut StringSet, queue: &mut Vec<String>, name: &str, avoiding: &StringSet)
    ensures
        ({
            let new = !avoiding@.contains(name@) && !old(found)@.contains(name@);
            &&& final(found)@ == if new {
                old(found)@.insert(name@)
            } else {
                old(found)@
            }
            &&& texts(final(queue)@) == if new {
                texts(old(queue)@).push(name@)
            } else {
                texts(old(queue)@)
            }
        }),
{
    if !avoiding.contains(name) && !found.contains(name) {
        let ghost before = texts(queue@);
        found.insert(copy(name));
        queue.push(copy(name));
        assert(texts(queue@) =~= before.push(name@));
    }
}

/// What holds while the names led to are being gathered: those found are reached and known, those
/// queued are found, and those found are queued or fully followed.
spec fn gathering(
    start: spec_fn(Seq<char>) -> bool,
    step: spec_fn(Seq<char>, Seq<char>) -> bool,
    avoided: spec_fn(Seq<char>) -> bool,
    universe: Set<Seq<char>>,
    found: Set<Seq<char>>,
    queue: Seq<Seq<char>>,
) -> bool {
    &&& universe.finite()
    &&& found.subset_of(universe)
    &&& forall|name: Seq<char>| #[trigger] found.contains(name) ==> reached(start, step, avoided, name)
    &&& forall|k: int| 0 <= k < queue.len() ==> found.contains(#[trigger] queue[k])
    &&& forall|name: Seq<char>, to: Seq<char>|
        found.contains(name) && #[trigger] step(name, to) && !avoided(to) ==> queue.contains(name) || found.contains(
            to,
        )
}

/// All that the starts lead to by way of `next`, without the names in `avoiding`.
pub fn reach(starts: &Vec<String>, next: &StringMap<Vec<String>>, avoiding: &StringSet) -> (r: StringSet)
    ensures
        forall|name: Seq<char>| #[trigger]
            r@.contains(name) == reached(
                |a: Seq<char>| texts(starts@).contains(a),
                |a: Seq<char>, b: Seq<char>| adjacent(next, a, b),
                |a: Seq<char>| avoiding@.contains(a),
                name,
            ),
{
    let ghost start = |a: Seq<char>| texts(starts@).contains(a);
    let ghost step = |a: Seq<char>, b: Seq<char>| adjacent(next, a, b);
    let ghost avoided = |a: Seq<char>| avoiding@.contains(a);
    let size = next.len();
    let ghost all = texts(starts@) + listed_in(next.spec_values(), size as nat);
    let ghost universe = all.to_set();
    let mut found = StringSet::new();
    let mut queue: Vec<String> = Vec::new();
    let mut i: usize = 0;
    proof {
        vstd::seq_lib::seq_to_set_is_finite(all);
        assert forall|a: Seq<char>, b: Seq<char>| #[trigger] step(a, b) implies universe.contains(b) by {
            let k = next.spec_keys().index_of(a);
            next.lookup_at(k);
            listed_in_holds_all(next.spec_values(), size as nat, k, b);
            let tail = listed_in(next.spec_values(), size as nat);
            let m = choose|m: int| 0 <= m < tail.len() && tail[m] == b;
            assert(all[texts(starts@).len() + m] == b);
        }
    }
    while i < starts.len()
        invariant
            i <= starts.len(),
            start == (|a: Seq<char>| texts(starts@).contains(a)),
            avoided == (|a: Seq<char>| avoiding@.contains(a)),
            universe == all.to_set(),
            all == texts(starts@) + listed_in(next.spec_values(), size as nat),
            gathering(start, step, avoided, universe, found@, texts(queue@)),
            forall|name: Seq<char>| #[trigger] found@.contains(name) ==> texts(queue@).contains(name),
            forall|k: int| 0 <= k < i && !avoided(#[trigger] texts(starts@)[k]) ==> found@.contains(texts(starts@)[k]),
        decreases starts.len() - i,
    {
        let ghost name = starts@[i as int]@;
        let ghost before = texts(queue@);
        let ghost had = found@;
        visit(&mut found, &mut queue, &starts[i], avoiding);
        proof {
            assert(texts(starts@)[i as int] == name);
            assert(all[i as int] == name);
            if !avoided(name) {
                starts_are_reached(start, step, avoided, name);
            }
            if found@ != had {
                assert(before.push(name)[before.len() as int] == name);
                assert forall|n: Seq<char>| #[trigger] found@.contains(n) implies texts(queue@).contains(n) by {
                    if n != name {
                        assert(had.contains(n));
                        let k = choose|k: int| 0 <= k < before.len() && before[k] == n;
                        assert(before.push(name)[k] == n);
                    }
                }
            }
        }
        i += 1;
    }
    assert forall|name: Seq<char>| #[trigger] start(name) && !avoided(name) implies found@.contains(name) by {
        let k = choose|k: int| 0 <= k < texts(starts@).len() && texts(starts@)[k] == name;
        assert(!avoided(texts(starts@)[k]));
    }
    while queue.len() > 0
        invariant
            step == (|a: Seq<char>, b: Seq<char>| adjacent(next, a, b)),
            avoided == (|a: Seq<char>| avoiding@.contains(a)),
            gathering(start, step, avoided, universe, found@, texts(queue@)),
            forall|name: Seq<char>| #[trigger] start(name) && !avoided(name) ==> found@.contains(name),
            forall|a: Seq<char>, b: Seq<char>| #[trigger] step(a, b) ==> universe.contains(b),
        decreases universe.len() - found@.len(), queue.len(),
    {
        let ghost old_queue = texts(queue@);
        let ghost old_found = found@;
        let name = match queue.pop() {
            Some(name) => name,
            None => String::new(),
        };
        let ghost n = name@;
        let ghost popped = texts(queue@);
        proof {
            assert(popped =~= old_queue.drop_last());
            assert(old_queue[old_queue.len() - 1] == n);
            assert(found@.contains(n));
            vstd::set_lib::lemma_len_subset(found@, universe);
        }
        if let Some(list) = next.get(&name) {
            let ghost to_all = texts(list@);
            assert(to_all == texts(next.listed(n)));
            let mut k: usize = 0;
            while k < list.len()
                invariant
                    k <= list.len(),
                    to_all == texts(list@),
                    to_all == texts(next.listed(n)),
                    step == (|a: Seq<char>, b: Seq<char>| adjacent(next, a, b)),
                    avoided == (|a: Seq<char>| avoiding@.contains(a)),
                    universe.finite(),
                    found@.subset_of(universe),
                    old_found.subset_of(found@),
                    found@.contains(n),
                    reached(start, step, avoided, n),
                    found@ == old_found ==> texts(queue@) == popped,
                    forall|a: Seq<char>, b: Seq<char>| #[trigger] step(a, b) ==> universe.contains(b),
                    forall|x: Seq<char>| #[trigger] found@.contains(x) ==> reached(start, step, avoided, x),
                    forall|j: int| 0 <= j < queue.len() ==> found@.contains(#[trigger] texts(queue@)[j]),
                    forall|x: Seq<char>| #[trigger]
                        found@.contains(x) && !old_found.contains(x) ==> texts(queue@).contains(x),
                    forall|x: Seq<char>| #[trigger] popped.contains(x) ==> texts(queue@).contains(x),
                    forall|j: int| 0 <= j < k && !avoided(#[trigger] to_all[j]) ==> found@.contains(to_all[j]),
                decreases list.len() - k,
            {
                let ghost to = list@[k as int]@;
                let ghost before = texts(queue@);
                let ghost had = found@;
                visit(&mut found, &mut queue, &list[k], avoiding);
                proof {
                    assert(to_all[k as int] == to);
                    assert(step(n, to));
                    if !avoided(to) {
                        steps_are_reached(start, step, avoided, n, to);
                    }
                    if found@ != had {
                        let after = texts(queue@);
                        assert(after == before.push(to));
                        assert(after[before.len() as int] == to);
                        assert forall|x: Seq<char>| before.contains(x) implies after.contains(x) by {
                            let j = choose|j: int| 0 <= j < before.len() && before[j] == x;
                            assert(after[j] == x);
                        }
                        assert forall|x: Seq<char>| #[trigger] found@.contains(x) && !old_found.contains(x) implies texts(
                            queue@,
                        ).contains(x) by {
                            if x != to {
                                assert(had.contains(x));
                            }
                        }
                        assert(!old_found.contains(to));
                        assert(found@.contains(to));
                    }
                }
                k += 1;
            }
            assert forall|to: Seq<char>| #[trigger] step(n, to) && !avoided(to) implies found@.contains(to) by {
                let j = choose|j: int| 0 <= j < to_all.len() && to_all[j] == to;
                assert(!avoided(to_all[j]));
            }
        } else {
            assert forall|to: Seq<char>| #[trigger] step(n, to) implies false by {
                assert(texts(next.listed(n)) =~= Seq::<Seq<char>>::empty());
            }
        }
        proof {
            vstd::set_lib::lemma_len_subset(found@, universe);
            vstd::set_lib::lemma_len_subset(old_found, found@);
            assert forall|x: Seq<char>, to: Seq<char>|
                found@.contains(x) && #[trigger] step(x, to) && !avoided(to) implies texts(queue@).contains(x)
                || found@.contains(to) by {
                if x != n && old_found.contains(x) && !old_found.contains(to) {
                    assert(old_queue.contains(x));
                    let j = choose|j: int| 0 <= j < old_queue.len() && old_queue[j] == x;
                    assert(popped[j] == x);
                    assert(popped.contains(x));
                }
            }
            if old_found.len() == found@.len() {
                vstd::set_lib::lemma_subset_equality(old_found, found@);
            }
        }
    }
    proof {
        assert forall|name: Seq<char>| #[trigger] found@.contains(name) == reached(start, step, avoided, name) by {
            if reached(start, step, avoided, name) {
                let chain = choose|chain: Seq<Seq<char>>| #[trigger]
                    is_chain(step, avoided, chain) && start(chain[0]) && chain.last() == name;
                reached_stays_inside(start, step, avoided, found@, chain);
            }
        }
    }
    found
}

} // verus!
