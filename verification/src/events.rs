//! The bookkeeping of the component manager's event registry.
//!
//! The registry keeps, for each event name, the dispatchers of the event
//! streams that subscribed to it, in subscription order. Dispatching an
//! event first drops the dispatchers whose stream has gone away and hands
//! back the live ones; the answers of those dispatchers then decide which
//! responders are waited on. The waiting itself is done by the caller.
use vstd::prelude::*;

verus! {

/// A handle that may have lost its target, such as a weak reference.
pub trait Upgrade {
    type Target;

    /// The target, if it is still alive.
    fn upgrade_handle(&self) -> Option<Self::Target>;
}

/// A routed event: events named `source_name` are to be delivered to
/// `dispatcher`, which was made for the event's scope.
pub struct RoutedEvent<D> {
    pub source_name: String,
    pub dispatcher: D,
}

/// Subscribes to events from multiple tasks and sends events to all of them.
///
/// The names are kept in a vector in which no name occurs twice, each with
/// its dispatchers at the same index. vstd specifies `HashMap` only for keys
/// known to obey its key model (integers, `bool`, boxes of them); for a
/// `String` key that can only be assumed, so the map is kept by hand here.
pub struct EventRegistry<D> {
    names: Vec<String>,
    lists: Vec<Vec<D>>,
}

/// The members of `s` whose flag in `keep` is set, in order.
pub open spec fn select<T>(s: Seq<T>, keep: Seq<bool>) -> Seq<T>
    decreases s.len(),
{
    if s.len() == 0 {
        Seq::empty()
    } else if keep[s.len() - 1] {
        select(s.drop_last(), keep).push(s.last())
    } else {
        select(s.drop_last(), keep)
    }
}

/// The map after one more dispatcher `d` subscribed to events named `name`.
pub open spec fn add_dispatcher<D>(m: Map<Seq<char>, Seq<D>>, name: Seq<char>, d: D) -> Map<
    Seq<char>,
    Seq<D>,
> {
    if m.contains_key(name) {
        m.insert(name, m[name].push(d))
    } else {
        m.insert(name, seq![d])
    }
}

/// The map after every subscription of `subs`, in order.
pub open spec fn add_all<D>(m: Map<Seq<char>, Seq<D>>, subs: Seq<RoutedEvent<D>>) -> Map<
    Seq<char>,
    Seq<D>,
>
    decreases subs.len(),
{
    if subs.len() == 0 {
        m
    } else {
        add_dispatcher(add_all(m, subs.drop_last()), subs.last().source_name@, subs.last().dispatcher)
    }
}

/// How many dispatchers `m` holds for events named `name`.
pub open spec fn count_for<D>(m: Map<Seq<char>, Seq<D>>, name: Seq<char>) -> nat {
    if m.contains_key(name) {
        m[name].len()
    } else {
        0
    }
}

impl<D> View for EventRegistry<D> {
    type V = Map<Seq<char>, Seq<D>>;

    closed spec fn view(&self) -> Map<Seq<char>, Seq<D>> {
        Map::new(
            |k: Seq<char>| exists|i: int| 0 <= i < self.names@.len() && self.names@[i]@ == k,
            |k: Seq<char>|
                self.lists@[choose|i: int| 0 <= i < self.names@.len() && self.names@[i]@ == k]@,
        )
    }
}

impl<D> EventRegistry<D> {
    #[verifier::type_invariant]
    spec fn well_formed(self) -> bool {
        &&& self.names@.len() == self.lists@.len()
        &&& forall|i: int, j: int|
            0 <= i < j < self.names@.len() ==> self.names@[i]@ != self.names@[j]@
    }

    proof fn lemma_view_at(self, i: int)
        requires
            self.well_formed(),
            0 <= i < self.names@.len(),
        ensures
            self@.contains_key(self.names@[i]@),
            self@[self.names@[i]@] == self.lists@[i]@,
    {
        let k = self.names@[i]@;
        assert(self@.dom().contains(k));
        let j = choose|j: int| 0 <= j < self.names@.len() && self.names@[j]@ == k;
        assert(j == i);
    }

    /// `self` and `other` hold the same names, and the same dispatchers for
    /// every name but the one at `i`.
    proof fn lemma_view_changed_at(self, other: Self, i: int)
        requires
            self.well_formed(),
            other.well_formed(),
            0 <= i < self.names@.len(),
            other.names@ == self.names@,
            forall|j: int| 0 <= j < self.lists@.len() && j != i ==> other.lists@[j] == self.lists@[j],
        ensures
            other@ == self@.insert(self.names@[i]@, other.lists@[i]@),
    {
        let k = self.names@[i]@;
        let target = self@.insert(k, other.lists@[i]@);
        assert forall|key: Seq<char>| #[trigger] other@.contains_key(key) <==> target.contains_key(key) by {
            if target.contains_key(key) && key != k {
                let j = choose|j: int| 0 <= j < self.names@.len() && self.names@[j]@ == key;
                assert(other.names@[j]@ == key);
            }
            if other@.contains_key(key) {
                let j = choose|j: int| 0 <= j < other.names@.len() && other.names@[j]@ == key;
                assert(self.names@[j]@ == key);
            }
        }
        assert forall|key: Seq<char>| #[trigger] other@.contains_key(key) implies other@[key] == target[key] by {
            let j = choose|j: int| 0 <= j < other.names@.len() && other.names@[j]@ == key;
            other.lemma_view_at(j);
            self.lemma_view_at(j);
        }
        assert(other@ =~= target);
    }

    /// `other` is `self` with one more name, `name`, holding `list`.
    proof fn lemma_view_pushed(self, other: Self, name: Seq<char>, list: Seq<D>)
        requires
            self.well_formed(),
            other.well_formed(),
            other.names@.len() == self.names@.len() + 1,
            other.names@.drop_last() == self.names@,
            other.lists@.drop_last() == self.lists@,
            other.names@.last()@ == name,
            other.lists@.last()@ == list,
        ensures
            other@ == self@.insert(name, list),
    {
        let n = self.names@.len();
        let target = self@.insert(name, list);
        assert(other.names@[n as int]@ == name);
        assert forall|key: Seq<char>| #[trigger] other@.contains_key(key) <==> target.contains_key(key) by {
            if target.contains_key(key) && key != name {
                let j = choose|j: int| 0 <= j < self.names@.len() && self.names@[j]@ == key;
                assert(other.names@[j]@ == key);
            }
            if other@.contains_key(key) && key != name {
                let j = choose|j: int| 0 <= j < other.names@.len() && other.names@[j]@ == key;
                assert(j != n);
                assert(self.names@[j]@ == key);
            }
        }
        assert forall|key: Seq<char>| #[trigger] other@.contains_key(key) implies other@[key] == target[key] by {
            let j = choose|j: int| 0 <= j < other.names@.len() && other.names@[j]@ == key;
            other.lemma_view_at(j);
            if j < n {
                self.lemma_view_at(j);
            }
        }
        assert(other@ =~= target);
    }

    /// An empty registry.
    pub fn new() -> (r: Self)
        ensures
            r@ == Map::<Seq<char>, Seq<D>>::empty(),
    {
        let r = EventRegistry { names: Vec::new(), lists: Vec::new() };
        assert(r@ =~= Map::<Seq<char>, Seq<D>>::empty());
        r
    }

    fn find(&self, name: &String) -> (r: Option<usize>)
        ensures
            r matches Some(i) ==> i < self.names@.len() && self.names@[i as int]@ == name@,
            r is None ==> forall|i: int| 0 <= i < self.names@.len() ==> self.names@[i]@ != name@,
    {
        let n = self.names.len();
        let mut i: usize = 0;
        while i < n
            invariant
                n == self.names@.len(),
                i <= n,
                forall|j: int| 0 <= j < i ==> self.names@[j]@ != name@,
            decreases n - i,
        {
            if self.names[i] == *name {
                return Some(i);
            }
            i = i + 1;
        }
        None
    }

    /// Adds `dispatcher` to those of events named `name`, after the others.
    pub fn add(&mut self, name: String, dispatcher: D)
        ensures
            final(self)@ == add_dispatcher(old(self)@, name@, dispatcher),
    {
        proof {
            use_type_invariant(&*self);
        }
        let found = self.find(&name);
        let mut taken = EventRegistry::new();
        std::mem::swap(self, &mut taken);
        let ghost before = taken;
        proof {
            use_type_invariant(&taken);
        }
        let EventRegistry { mut names, mut lists } = taken;
        match found {
            Some(i) => {
                let mut list = lists.remove(i);
                list.push(dispatcher);
                lists.insert(i, list);
                let after = EventRegistry { names, lists };
                proof {
                    before.lemma_view_at(i as int);
                    before.lemma_view_changed_at(after, i as int);
                }
                *self = after;
            },
            None => {
                let ghost name_view = name@;
                names.push(name);
                lists.push(vec![dispatcher]);
                let after = EventRegistry { names, lists };
                proof {
                    assert(!before@.contains_key(name_view));
                    assert(after.names@.drop_last() =~= before.names@);
                    assert(after.lists@.drop_last() =~= before.lists@);
                    assert(after.lists@.last()@ =~= seq![dispatcher]);
                    before.lemma_view_pushed(after, name_view, seq![dispatcher]);
                }
                *self = after;
            },
        }
    }

    /// Subscribes each dispatcher of `events` to the events of its name, in
    /// order.
    pub fn subscribe(&mut self, events: Vec<RoutedEvent<D>>)
        ensures
            final(self)@ == add_all(old(self)@, events@),
    {
        let mut events = events;
        let ghost all = events@;
        let mut done: usize = 0;
        let total = events.len();
        while events.len() > 0
            invariant
                total == all.len(),
                done + events@.len() == total,
                events@ == all.skip(done as int),
                self@ == add_all(old(self)@, all.take(done as int)),
            decreases events@.len(),
        {
            let e = events.remove(0);
            proof {
                assert(all.take(done + 1).drop_last() =~= all.take(done as int));
                assert(all[done as int] == e);
            }
            let RoutedEvent { source_name, dispatcher } = e;
            self.add(source_name, dispatcher);
            done = done + 1;
            proof {
                assert(events@ =~= all.skip(done as int));
            }
        }
        proof {
            assert(all.take(total as int) =~= all);
        }
    }

    /// How many dispatchers events named `name` have.
    pub fn dispatchers_per_event_type(&self, name: &String) -> (n: usize)
        ensures
            n == count_for(self@, name@),
    {
        proof {
            use_type_invariant(self);
        }
        match self.find(name) {
            Some(i) => {
                proof {
                    self.lemma_view_at(i as int);
                }
                self.lists[i].len()
            },
            None => 0,
        }
    }

    /// The dispatchers of events named `name`, with no change to the
    /// registry. `None` when no dispatcher ever subscribed to `name`.
    fn dispatchers_of(&self, name: &String) -> (r: Option<&Vec<D>>)
        ensures
            r is None <==> !self@.contains_key(name@),
            r matches Some(list) ==> self@.contains_key(name@) && list@ == self@[name@],
    {
        proof {
            use_type_invariant(self);
        }
        match self.find(name) {
            Some(i) => {
                proof {
                    self.lemma_view_at(i as int);
                }
                Some(&self.lists[i])
            },
            None => None,
        }
    }

    /// Keeps, of the dispatchers of events named `name`, those whose outcome
    /// in `outcomes` is `Some`, in their order, and returns those outcomes'
    /// values in the same order. The name stays registered even when no
    /// dispatcher is kept; no other name changes.
    pub fn retain_live<T>(&mut self, name: &String, outcomes: Vec<Option<T>>) -> (live: Vec<T>)
        requires
            old(self)@.contains_key(name@),
            outcomes@.len() == old(self)@[name@].len(),
        ensures
            final(self)@ == old(self)@.insert(
                name@,
                select(old(self)@[name@], outcomes@.map_values(|o: Option<T>| o is Some)),
            ),
            live@ == somes(outcomes@),
    {
        proof {
            use_type_invariant(&*self);
        }
        let i = match self.find(name) {
            Some(i) => i,
            None => {
                proof {
                    assert(!self@.contains_key(name@));
                }
                return Vec::new();
            },
        };
        let mut taken = EventRegistry::new();
        std::mem::swap(self, &mut taken);
        let ghost before = taken;
        proof {
            use_type_invariant(&taken);
            before.lemma_view_at(i as int);
        }
        let EventRegistry { names, mut lists } = taken;
        let mut list = lists.remove(i);
        let mut outcomes = outcomes;
        let ghost orig = list@;
        let ghost all = outcomes@;
        let ghost keep = all.map_values(|o: Option<T>| o is Some);
        let mut kept: Vec<D> = Vec::new();
        let mut live: Vec<T> = Vec::new();
        let total = list.len();
        let mut done: usize = 0;
        while list.len() > 0
            invariant
                total == orig.len(),
                total == all.len(),
                keep == all.map_values(|o: Option<T>| o is Some),
                done + list@.len() == total,
                list@ == orig.skip(done as int),
                outcomes@ == all.skip(done as int),
                kept@ == select(orig.take(done as int), keep),
                live@ == somes(all.take(done as int)),
            decreases list@.len(),
        {
            let d = list.remove(0);
            let o = outcomes.remove(0);
            proof {
                assert(orig.take(done + 1).drop_last() =~= orig.take(done as int));
                assert(all.take(done + 1).drop_last() =~= all.take(done as int));
                assert(orig[done as int] == d);
                assert(all[done as int] == o);
                lemma_select_prefix(orig.take(done as int), keep, keep);
            }
            match o {
                Some(target) => {
                    live.push(target);
                    kept.push(d);
                },
                None => {},
            }
            done = done + 1;
            proof {
                assert(list@ =~= orig.skip(done as int));
                assert(outcomes@ =~= all.skip(done as int));
            }
        }
        proof {
            assert(orig.take(total as int) =~= orig);
            assert(all.take(total as int) =~= all);
        }
        lists.insert(i, kept);
        let after = EventRegistry { names, lists };
        proof {
            assert(after.lists@ =~= before.lists@.update(i as int, after.lists@[i as int]));
            before.lemma_view_changed_at(after, i as int);
        }
        *self = after;
        live
    }

    /// Drops the dispatchers of events named `name` whose target is gone and
    /// returns the targets of the others, in order. Each dispatcher is asked
    /// for its target once, in order; `outcomes` below are those answers.
    /// `None` when no dispatcher ever subscribed to `name`; then no
    /// dispatcher is asked and the registry is unchanged.
    pub fn take_live_dispatchers(&mut self, name: &String) -> (r: Option<Vec<D::Target>>) where
        D: Upgrade,
        ensures
            r is None <==> !old(self)@.contains_key(name@),
            r is None ==> final(self)@ == old(self)@,
            r matches Some(live) ==> exists|outcomes: Seq<Option<D::Target>>|
                {
                    &&& outcomes.len() == old(self)@[name@].len()
                    &&& forall|k: int|
                        0 <= k < outcomes.len() ==> call_ensures(
                            D::upgrade_handle,
                            (&old(self)@[name@][k],),
                            #[trigger] outcomes[k],
                        )
                    &&& final(self)@ == old(self)@.insert(
                        name@,
                        select(old(self)@[name@], outcomes.map_values(|o: Option<D::Target>| o is Some)),
                    )
                    &&& live@ == somes(outcomes)
                },
    {
        let outcomes = match self.dispatchers_of(name) {
            Some(list) => upgrade_all(list),
            None => {
                return None;
            },
        };
        let ghost answers = outcomes@;
        let live = self.retain_live(name, outcomes);
        assert(answers.len() == old(self)@[name@].len());
        Some(live)
    }
}

/// The values of the `Some` members of `s`, in order.
pub open spec fn somes<T>(s: Seq<Option<T>>) -> Seq<T>
    decreases s.len(),
{
    if s.len() == 0 {
        Seq::empty()
    } else {
        match s.last() {
            Some(x) => somes(s.drop_last()).push(x),
            None => somes(s.drop_last()),
        }
    }
}

/// Asks each handle of `list` for its target, once each, in order.
fn upgrade_all<D: Upgrade>(list: &Vec<D>) -> (outcomes: Vec<Option<D::Target>>)
    ensures
        outcomes@.len() == list@.len(),
        forall|k: int|
            0 <= k < outcomes@.len() ==> call_ensures(D::upgrade_handle, (&list@[k],), #[trigger] outcomes@[k]),
{
    let n = list.len();
    let mut outcomes: Vec<Option<D::Target>> = Vec::new();
    let mut i: usize = 0;
    while i < n
        invariant
            n == list@.len(),
            i <= n,
            outcomes@.len() == i,
            forall|k: int|
                0 <= k < i ==> call_ensures(D::upgrade_handle, (&list@[k],), #[trigger] outcomes@[k]),
        decreases n - i,
    {
        let o = list[i].upgrade_handle();
        outcomes.push(o);
        i = i + 1;
    }
    outcomes
}

/// `select` of `s` depends only on the flags of the members of `s`.
proof fn lemma_select_prefix<T>(s: Seq<T>, k1: Seq<bool>, k2: Seq<bool>)
    requires
        k1.len() >= s.len(),
        k2.len() >= s.len(),
        forall|i: int| 0 <= i < s.len() ==> k1[i] == k2[i],
    ensures
        select(s, k1) == select(s, k2),
    decreases s.len(),
{
    if s.len() > 0 {
        lemma_select_prefix(s.drop_last(), k1, k2);
    }
}

/// The responders to wait on after dispatching: one for each dispatcher
/// that accepted the event. A dispatcher that answered `Ok(None)` found the
/// event outside its scope; one that answered `Err` lost its stream.
pub open spec fn responders_of<R, E>(results: Seq<Result<Option<R>, E>>) -> Seq<R>
    decreases results.len(),
{
    if results.len() == 0 {
        Seq::empty()
    } else {
        match results.last() {
            Ok(Some(r)) => responders_of(results.drop_last()).push(r),
            _ => responders_of(results.drop_last()),
        }
    }
}

/// Picks, from the answers of the dispatchers, the responders to wait on.
pub fn responders<R, E>(results: Vec<Result<Option<R>, E>>) -> (out: Vec<R>)
    ensures
        out@ == responders_of(results@),
{
    let mut results = results;
    let ghost all = results@;
    let total = results.len();
    let mut done: usize = 0;
    let mut out: Vec<R> = Vec::new();
    while results.len() > 0
        invariant
            total == all.len(),
            done + results@.len() == total,
            results@ == all.skip(done as int),
            out@ == responders_of(all.take(done as int)),
        decreases results@.len(),
    {
        let r = results.remove(0);
        proof {
            assert(all.take(done + 1).drop_last() =~= all.take(done as int));
            assert(all[done as int] == r);
        }
        match r {
            Ok(Some(responder)) => {
                out.push(responder);
            },
            _ => {},
        }
        done = done + 1;
        proof {
            assert(results@ =~= all.skip(done as int));
        }
    }
    proof {
        assert(all.take(total as int) =~= all);
    }
    out
}


/// How many of `subs` are for events named `name`.
pub open spec fn subscriptions_named<D>(subs: Seq<RoutedEvent<D>>, name: Seq<char>) -> nat
    decreases subs.len(),
{
    if subs.len() == 0 {
        0
    } else if subs.last().source_name@ == name {
        subscriptions_named(subs.drop_last(), name) + 1
    } else {
        subscriptions_named(subs.drop_last(), name)
    }
}

/// Subscribing adds one dispatcher to an event name for each subscription
/// to it, and changes no other name's dispatchers.
pub proof fn lemma_subscribe_count<D>(m: Map<Seq<char>, Seq<D>>, subs: Seq<RoutedEvent<D>>, name: Seq<char>)
    ensures
        count_for(add_all(m, subs), name) == count_for(m, name) + subscriptions_named(subs, name),
    decreases subs.len(),
{
    if subs.len() > 0 {
        lemma_subscribe_count(m, subs.drop_last(), name);
    }
}

/// Dropping dispatchers never adds any: at most as many stay as there were.
pub proof fn lemma_select_len<T>(s: Seq<T>, keep: Seq<bool>)
    ensures
        select(s, keep).len() <= s.len(),
    decreases s.len(),
{
    if s.len() > 0 {
        lemma_select_len(s.drop_last(), keep);
    }
}

/// As many dispatchers stay as there are live targets handed back.
pub proof fn lemma_kept_count<T, U>(s: Seq<T>, outcomes: Seq<Option<U>>)
    requires
        outcomes.len() == s.len(),
    ensures
        select(s, outcomes.map_values(|o: Option<U>| o is Some)).len() == somes(outcomes).len(),
    decreases s.len(),
{
    if s.len() > 0 {
        let keep = outcomes.map_values(|o: Option<U>| o is Some);
        let front = outcomes.drop_last();
        lemma_kept_count(s.drop_last(), front);
        lemma_select_prefix(s.drop_last(), keep, front.map_values(|o: Option<U>| o is Some));
    }
}

/// When every dispatcher is alive, none is dropped.
pub proof fn lemma_select_all<T>(s: Seq<T>, keep: Seq<bool>)
    requires
        keep.len() == s.len(),
        forall|i: int| 0 <= i < keep.len() ==> keep[i],
    ensures
        select(s, keep) == s,
    decreases s.len(),
{
    if s.len() > 0 {
        lemma_select_prefix(s.drop_last(), keep, keep.drop_last());
        lemma_select_all(s.drop_last(), keep.drop_last());
        assert(s.drop_last().push(s.last()) =~= s);
    }
}


/// The positions `0..n` at which `keep` is set, in increasing order.
pub open spec fn kept_positions(keep: Seq<bool>, n: nat) -> Seq<int> {
    Seq::new(n, |i: int| i).filter(|i: int| keep[i])
}

proof fn lemma_kept_positions_bounds(keep: Seq<bool>, n: nat)
    ensures
        forall|j: int|
            0 <= j < kept_positions(keep, n).len() ==> 0 <= #[trigger] kept_positions(keep, n)[j] < n,
    decreases n,
{
    reveal(Seq::filter);
    if n > 0 {
        let idx = Seq::new(n, |i: int| i);
        assert(idx.drop_last() =~= Seq::new((n - 1) as nat, |i: int| i));
        lemma_kept_positions_bounds(keep, (n - 1) as nat);
        let prev = kept_positions(keep, (n - 1) as nat);
        if keep[n - 1] {
            assert(kept_positions(keep, n) == prev.push(n - 1));
        } else {
            assert(kept_positions(keep, n) == prev);
        }
    }
}

/// Pruning keeps exactly the members at the positions whose flag is set,
/// in their order: the kept list is the old list read at the increasing
/// positions `k` with `keep[k]`.
pub proof fn lemma_select_keeps_flagged<T>(s: Seq<T>, keep: Seq<bool>)
    requires
        keep.len() >= s.len(),
    ensures
        select(s, keep) == kept_positions(keep, s.len()).map_values(|i: int| s[i]),
    decreases s.len(),
{
    reveal(Seq::filter);
    if s.len() > 0 {
        let n = s.len();
        let front = s.drop_last();
        lemma_select_keeps_flagged(front, keep);
        lemma_kept_positions_bounds(keep, (n - 1) as nat);
        let idx = Seq::new(n, |i: int| i);
        assert(idx.drop_last() =~= Seq::new((n - 1) as nat, |i: int| i));
        let prev = kept_positions(keep, (n - 1) as nat);
        assert(prev.map_values(|i: int| front[i]) =~= prev.map_values(|i: int| s[i]));
        if keep[n - 1] {
            assert(kept_positions(keep, n) == prev.push(n - 1));
            assert(kept_positions(keep, n).map_values(|i: int| s[i]) =~= prev.map_values(|i: int| s[i]).push(
                s[n - 1],
            ));
        } else {
            assert(kept_positions(keep, n) == prev);
        }
    }
}

/// One more answer adds its responder, if it has one, after the others.
pub proof fn lemma_responders_push<R, E>(s: Seq<Result<Option<R>, E>>, x: Result<Option<R>, E>)
    ensures
        responders_of(s.push(x)) == (match x {
            Ok(Some(r)) => responders_of(s).push(r),
            _ => responders_of(s),
        }),
{
    assert(s.push(x).drop_last() =~= s);
}

/// The responders are those of the answers that are `Ok(Some(_))`, in order:
/// one for each dispatcher that accepted the event.
pub proof fn lemma_responders_are_accepted<R, E>(s: Seq<Result<Option<R>, E>>)
    ensures
        responders_of(s) == s.filter(|x: Result<Option<R>, E>| x matches Ok(Some(_))).map_values(
            |x: Result<Option<R>, E>| x->Ok_0->Some_0,
        ),
    decreases s.len(),
{
    reveal(Seq::filter);
    if s.len() > 0 {
        lemma_responders_are_accepted(s.drop_last());
        let f = s.drop_last().filter(|x: Result<Option<R>, E>| x matches Ok(Some(_)));
        assert(f.push(s.last()).map_values(|x: Result<Option<R>, E>| x->Ok_0->Some_0) =~= f.map_values(
            |x: Result<Option<R>, E>| x->Ok_0->Some_0,
        ).push(s.last()->Ok_0->Some_0));
    }
}

/// One more outcome adds its target, if it has one, after the others.
pub proof fn lemma_somes_push<T>(s: Seq<Option<T>>, x: Option<T>)
    ensures
        somes(s.push(x)) == (match x {
            Some(t) => somes(s).push(t),
            None => somes(s),
        }),
{
    assert(s.push(x).drop_last() =~= s);
}

/// The live targets are the values of the `Some` outcomes, in order.
pub proof fn lemma_somes_are_present<T>(s: Seq<Option<T>>)
    ensures
        somes(s) == s.filter(|o: Option<T>| o is Some).map_values(|o: Option<T>| o->Some_0),
    decreases s.len(),
{
    reveal(Seq::filter);
    if s.len() > 0 {
        lemma_somes_are_present(s.drop_last());
        let f = s.drop_last().filter(|o: Option<T>| o is Some);
        assert(f.push(s.last()).map_values(|o: Option<T>| o->Some_0) =~= f.map_values(
            |o: Option<T>| o->Some_0,
        ).push(s.last()->Some_0));
    }
}


/// The dispatchers that `m` holds for `name`, none if it has no entry.
pub open spec fn list_for<D>(m: Map<Seq<char>, Seq<D>>, name: Seq<char>) -> Seq<D> {
    if m.contains_key(name) {
        m[name]
    } else {
        Seq::empty()
    }
}

/// After subscribing, the dispatchers of a name are those it had, followed
/// by the dispatchers of the routed events for that name, in order; a name
/// has an entry exactly when it had one or some routed event is for it.
pub proof fn lemma_subscribe_appends<D>(m: Map<Seq<char>, Seq<D>>, subs: Seq<RoutedEvent<D>>, name: Seq<char>)
    ensures
        add_all(m, subs).contains_key(name) <==> (m.contains_key(name) || exists|i: int|
            0 <= i < subs.len() && (#[trigger] subs[i]).source_name@ == name),
        list_for(add_all(m, subs), name) == list_for(m, name) + subs.filter(
            |e: RoutedEvent<D>| e.source_name@ == name,
        ).map_values(|e: RoutedEvent<D>| e.dispatcher),
    decreases subs.len(),
{
    reveal(Seq::filter);
    if subs.len() > 0 {
        let front = subs.drop_last();
        let e = subs.last();
        lemma_subscribe_appends(m, front, name);
        let prev = add_all(m, front);
        let f = front.filter(|e: RoutedEvent<D>| e.source_name@ == name);
        let fm = f.map_values(|e: RoutedEvent<D>| e.dispatcher);
        if exists|i: int| 0 <= i < subs.len() && (#[trigger] subs[i]).source_name@ == name {
            let i = choose|i: int| 0 <= i < subs.len() && (#[trigger] subs[i]).source_name@ == name;
            if i < front.len() {
                assert(front[i] == subs[i]);
            }
        }
        if exists|i: int| 0 <= i < front.len() && (#[trigger] front[i]).source_name@ == name {
            let i = choose|i: int| 0 <= i < front.len() && (#[trigger] front[i]).source_name@ == name;
            assert(subs[i] == front[i]);
        }
        if e.source_name@ == name {
            assert(subs[subs.len() - 1].source_name@ == name);
            assert(f.push(e).map_values(|e: RoutedEvent<D>| e.dispatcher) =~= fm.push(e.dispatcher));
            assert(list_for(add_all(m, subs), name) == list_for(prev, name).push(e.dispatcher));
            assert(list_for(m, name) + fm.push(e.dispatcher) =~= (list_for(m, name) + fm).push(e.dispatcher));
        } else {
            assert(list_for(add_all(m, subs), name) == list_for(prev, name));
        }
    } else {
        assert(subs.filter(|e: RoutedEvent<D>| e.source_name@ == name) =~= Seq::<RoutedEvent<D>>::empty());
        assert(list_for(m, name) + Seq::<D>::empty() =~= list_for(m, name));
    }
}

} // verus!
