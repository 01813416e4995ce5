//! The subset construction: from a fragment to a deterministic table.
//!
//! A deterministic state stands for a set of states of the fragment, closed
//! under the empty input and kept in ascending order. The sets are numbered
//! in the order in which they are found; the set of the start state is
//! number 0.

use crate::char_class::AnyType;
use crate::dfa::engine::{lemma_lookup, lookup, Rules, DFA};
use crate::dfa::utils::AdHocCanAny;
use crate::nfa::{
    alt_spec, ascending, concat_spec, has_state, insert_state, lemma_with_state, with_state, Fragment,
    MacroNfa,
};
use crate::token_trait::TokenTrait;
use crate::wraps::{InputChar, LineStatus, Status};
use vstd::prelude::*;

verus! {

/// Why a fragment has no table.
#[derive(Debug, Clone, Copy, PartialEq, Eq, Structural)]
pub enum CompileError {
    /// No deterministic state holds the accept state of the fragment.
    NoAcceptReachable,
}

/// One pass over the first `n` empty-input edges: the target of every edge
/// whose source is in the set joins the set.
pub open spec fn round(eps: Seq<(usize, usize)>, set: Seq<usize>, n: nat) -> Seq<usize>
    decreases n,
{
    if n == 0 || n > eps.len() {
        set
    } else {
        let acc = round(eps, set, (n - 1) as nat);
        if acc.contains(eps[n - 1].0) {
            with_state(acc, eps[n - 1].1)
        } else {
            acc
        }
    }
}

/// Passes over the empty-input edges until one adds nothing, and at most
/// `fuel` more after the first.
pub open spec fn closure(eps: Seq<(usize, usize)>, set: Seq<usize>, fuel: nat) -> Seq<usize>
    decreases fuel,
{
    let next = round(eps, set, eps.len());
    if fuel == 0 || next.len() == set.len() {
        next
    } else {
        closure(eps, next, (fuel - 1) as nat)
    }
}

/// The set with everything that the empty input reaches from it. A pass
/// that adds something adds a state of the fragment, so one pass for each
/// state is enough.
pub open spec fn closed(f: Fragment, set: Seq<usize>) -> Seq<usize> {
    closure(f.eps, set, f.states.len())
}

/// Whether every state of `s` is a state of `t`.
pub open spec fn within(s: Seq<usize>, t: Seq<usize>) -> bool {
    forall|x: usize| #[trigger] s.contains(x) ==> t.contains(x)
}

/// Whether the empty input leads nowhere out of `set`.
pub open spec fn closed_under(eps: Seq<(usize, usize)>, set: Seq<usize>) -> bool {
    forall|j: int|
        0 <= j < eps.len() && set.contains((#[trigger] eps[j]).0) ==> set.contains(eps[j].1)
}

/// How many of the first `n` of `states` are not in `set`.
pub open spec fn missing(states: Seq<usize>, set: Seq<usize>, n: nat) -> nat
    decreases n,
{
    if n == 0 || n > states.len() {
        0
    } else if set.contains(states[n - 1]) {
        missing(states, set, (n - 1) as nat)
    } else {
        missing(states, set, (n - 1) as nat) + 1
    }
}

/// Whether `x` is reached from a state of `set` over at most `n` edges on
/// the empty input.
pub open spec fn reached(eps: Seq<(usize, usize)>, set: Seq<usize>, x: usize, n: nat) -> bool
    decreases n,
{
    if n == 0 {
        set.contains(x)
    } else {
        reached(eps, set, x, (n - 1) as nat) || exists|j: int|
            0 <= j < eps.len() && (#[trigger] eps[j]).1 == x && reached(
                eps,
                set,
                eps[j].0,
                (n - 1) as nat,
            )
    }
}

/// Whether every state of `s` is reached from `set` on the empty input.
pub open spec fn all_reached(eps: Seq<(usize, usize)>, set: Seq<usize>, s: Seq<usize>) -> bool {
    forall|x: usize| #[trigger] s.contains(x) ==> exists|n: nat| #[trigger] reached(eps, set, x, n)
}

/// A pass adds only states that are reached from the set.
pub proof fn lemma_round_reached(
    eps: Seq<(usize, usize)>,
    set: Seq<usize>,
    from: Seq<usize>,
    n: nat,
)
    requires
        ascending(from),
        n <= eps.len(),
        all_reached(eps, set, from),
    ensures
        all_reached(eps, set, round(eps, from, n)),
    decreases n,
{
    if n > 0 {
        let acc = round(eps, from, (n - 1) as nat);
        let r = round(eps, from, n);
        lemma_round_reached(eps, set, from, (n - 1) as nat);
        lemma_round(eps, from, (n - 1) as nat);
        if acc.contains(eps[n - 1].0) {
            let d = eps[n - 1].1;
            let src = eps[n - 1].0;
            lemma_with_state(acc, d);
            let k = choose|k: nat| #[trigger] reached(eps, set, src, k);
            assert(reached(eps, set, d, k + 1));
            assert forall|x: usize| #[trigger] r.contains(x) implies exists|m: nat| #[trigger]
                reached(eps, set, x, m) by {
                if x != d {
                    assert(acc.contains(x));
                }
            }
        }
    }
}

/// The passes add only states that are reached from the set.
pub proof fn lemma_closure_reached(
    eps: Seq<(usize, usize)>,
    set: Seq<usize>,
    from: Seq<usize>,
    fuel: nat,
)
    requires
        ascending(from),
        all_reached(eps, set, from),
    ensures
        all_reached(eps, set, closure(eps, from, fuel)),
    decreases fuel,
{
    let next = round(eps, from, eps.len());
    lemma_round_reached(eps, set, from, eps.len());
    lemma_round(eps, from, eps.len());
    if !(fuel == 0 || next.len() == from.len()) {
        lemma_closure_reached(eps, set, next, (fuel - 1) as nat);
    }
}

/// A pass keeps the set ascending, loses nothing, adds only targets of
/// edges, and adds the target of every edge whose source was in the set.
pub proof fn lemma_round(eps: Seq<(usize, usize)>, set: Seq<usize>, n: nat)
    requires
        ascending(set),
        n <= eps.len(),
    ensures
        ascending(round(eps, set, n)),
        within(set, round(eps, set, n)),
        forall|x: usize| #[trigger]
            round(eps, set, n).contains(x) ==> set.contains(x) || exists|j: int|
                0 <= j < n && (#[trigger] eps[j]).1 == x,
        forall|j: int|
            0 <= j < n && set.contains((#[trigger] eps[j]).0) ==> round(eps, set, n).contains(
                eps[j].1,
            ),
        round(eps, set, n).len() >= set.len(),
        round(eps, set, n).len() == set.len() ==> round(eps, set, n) == set,
    decreases n,
{
    if n > 0 {
        let acc = round(eps, set, (n - 1) as nat);
        let r = round(eps, set, n);
        let d = eps[n - 1].1;
        lemma_round(eps, set, (n - 1) as nat);
        lemma_with_state(acc, d);
        assert forall|x: usize| #[trigger] r.contains(x) implies set.contains(x) || exists|j: int|
            0 <= j < n && (#[trigger] eps[j]).1 == x by {
            if !acc.contains(x) {
                assert(x == d);
                assert(eps[n - 1].1 == x);
            } else if !set.contains(x) {
                let j = choose|j: int| 0 <= j < n - 1 && (#[trigger] eps[j]).1 == x;
                assert(eps[j].1 == x);
            }
        }
        assert forall|j: int| 0 <= j < n && set.contains((#[trigger] eps[j]).0) implies r.contains(
            eps[j].1,
        ) by {
            if j < n - 1 {
                assert(acc.contains(eps[j].1));
            } else {
                assert(acc.contains(eps[n - 1].0));
            }
        }
    }
}

/// A pass over a set that the empty input does not lead out of changes
/// nothing.
pub proof fn lemma_round_saturated(eps: Seq<(usize, usize)>, set: Seq<usize>, n: nat)
    requires
        ascending(set),
        n <= eps.len(),
        closed_under(eps, set),
    ensures
        round(eps, set, n) == set,
    decreases n,
{
    if n > 0 {
        lemma_round_saturated(eps, set, (n - 1) as nat);
        if set.contains(eps[n - 1].0) {
            lemma_with_state(set, eps[n - 1].1);
        }
    }
}

/// A larger set misses no more states.
pub proof fn lemma_missing_le(states: Seq<usize>, small: Seq<usize>, large: Seq<usize>, n: nat)
    requires
        within(small, large),
        n <= states.len(),
    ensures
        missing(states, large, n) <= missing(states, small, n) <= n,
    decreases n,
{
    if n > 0 {
        lemma_missing_le(states, small, large, (n - 1) as nat);
    }
}

/// A larger set that has a state which the smaller one misses, misses
/// fewer.
pub proof fn lemma_missing_lt(
    states: Seq<usize>,
    small: Seq<usize>,
    large: Seq<usize>,
    n: nat,
    i: int,
)
    requires
        within(small, large),
        0 <= i < n <= states.len(),
        !small.contains(states[i]),
        large.contains(states[i]),
    ensures
        missing(states, large, n) < missing(states, small, n),
    decreases n,
{
    if i == n - 1 {
        lemma_missing_le(states, small, large, (n - 1) as nat);
    } else {
        lemma_missing_lt(states, small, large, (n - 1) as nat, i);
    }
}

/// A set that misses none of the states has them all.
pub proof fn lemma_missing_none(states: Seq<usize>, set: Seq<usize>, n: nat)
    requires
        n <= states.len(),
        missing(states, set, n) == 0,
    ensures
        forall|i: int| 0 <= i < n ==> set.contains(#[trigger] states[i]),
    decreases n,
{
    if n > 0 {
        lemma_missing_none(states, set, (n - 1) as nat);
    }
}

/// With a pass for each state that the set misses, the passes end in a
/// set that the empty input does not lead out of.
pub proof fn lemma_closure(f: Fragment, set: Seq<usize>, fuel: nat)
    requires
        f.wf(),
        ascending(set),
        fuel >= missing(f.states, set, f.states.len()),
    ensures
        ascending(closure(f.eps, set, fuel)),
        within(set, closure(f.eps, set, fuel)),
        closed_under(f.eps, closure(f.eps, set, fuel)),
        forall|x: usize| #[trigger]
            closure(f.eps, set, fuel).contains(x) ==> set.contains(x) || f.states.contains(x),
    decreases fuel,
{
    let eps = f.eps;
    let next = round(eps, set, eps.len());
    lemma_round(eps, set, eps.len());
    assert forall|x: usize| #[trigger] next.contains(x) implies set.contains(x) || f.states.contains(
        x,
    ) by {
        if !set.contains(x) {
            let j = choose|j: int| 0 <= j < eps.len() && (#[trigger] eps[j]).1 == x;
            assert(f.states.contains(eps[j].1));
        }
    }
    if next.len() == set.len() {
        assert(closed_under(eps, set)) by {
            assert forall|j: int| 0 <= j < eps.len() && set.contains((#[trigger] eps[j]).0) implies set.contains(
                eps[j].1,
            ) by {
                assert(next.contains(eps[j].1));
            }
        }
    } else {
        // something was added, so an edge leads out of the set
        if closed_under(eps, set) {
            lemma_round_saturated(eps, set, eps.len());
        }
        let j = choose|j: int|
            0 <= j < eps.len() && set.contains((#[trigger] eps[j]).0) && !set.contains(eps[j].1);
        let d = eps[j].1;
        assert(f.states.contains(d));
        let i = choose|i: int| 0 <= i < f.states.len() && f.states[i] == d;
        assert(next.contains(d));
        lemma_missing_lt(f.states, set, next, f.states.len(), i);
        if fuel > 0 {
            lemma_closure(f, next, (fuel - 1) as nat);
            let c = closure(eps, next, (fuel - 1) as nat);
            assert forall|x: usize| #[trigger] c.contains(x) implies set.contains(x) || f.states.contains(
                x,
            ) by {
                if !f.states.contains(x) {
                    assert(next.contains(x));
                }
            }
        }
    }
}

/// The closure of an ascending set ascends, holds the set, holds besides
/// it only states of the fragment, and is what the empty input reaches from
/// the set: the empty input does not lead out of it, and each of its states
/// is reached from the set.
pub proof fn lemma_closed(f: Fragment, set: Seq<usize>)
    requires
        f.wf(),
        ascending(set),
    ensures
        ascending(closed(f, set)),
        within(set, closed(f, set)),
        closed_under(f.eps, closed(f, set)),
        all_reached(f.eps, set, closed(f, set)),
        forall|x: usize| #[trigger]
            closed(f, set).contains(x) ==> set.contains(x) || f.states.contains(x),
{
    lemma_missing_le(f.states, set, set, f.states.len());
    lemma_closure(f, set, f.states.len());
    assert forall|x: usize| #[trigger] set.contains(x) implies exists|n: nat| #[trigger]
        reached(f.eps, set, x, n) by {
        assert(reached(f.eps, set, x, 0));
    }
    lemma_closure_reached(f.eps, set, set, f.states.len());
}

/// The targets of the first `n` labelled edges that leave `set` on `sym`.
pub open spec fn moved(
    edges: Seq<((usize, InputChar), usize)>,
    set: Seq<usize>,
    sym: InputChar,
    n: nat,
) -> Seq<usize>
    decreases n,
{
    if n == 0 || n > edges.len() {
        Seq::empty()
    } else {
        let acc = moved(edges, set, sym, (n - 1) as nat);
        let e = edges[n - 1];
        if e.0.1 == sym && set.contains(e.0.0) {
            with_state(acc, e.1)
        } else {
            acc
        }
    }
}

/// The set that `sym` leads to from `set`.
pub open spec fn target_set(f: Fragment, set: Seq<usize>, sym: InputChar) -> Seq<usize> {
    closed(f, moved(f.edges, set, sym, f.edges.len()))
}

/// The number of the first of the first `n` sets that equals `t`.
pub open spec fn number_of(sets: Seq<Seq<usize>>, t: Seq<usize>, n: nat) -> Option<nat>
    decreases n,
{
    if n == 0 || n > sets.len() {
        None
    } else {
        match number_of(sets, t, (n - 1) as nat) {
            Some(i) => Some(i),
            None => if sets[n - 1] == t {
                Some((n - 1) as nat)
            } else {
                None
            },
        }
    }
}

/// The sets found and the transitions registered so far.
pub ghost struct Subsets {
    pub sets: Seq<Seq<usize>>,
    pub table: Seq<((Status, InputChar), Status)>,
}

/// What the first `n` labelled edges add for the deterministic state `k`
/// with the members `members`: for each symbol on an edge that leaves a
/// member, once, the transition to the set that the symbol leads to; a set
/// that was not found before gets the next number.
pub open spec fn process(f: Fragment, members: Seq<usize>, k: usize, start: Subsets, n: nat) -> Subsets
    decreases n,
{
    if n == 0 || n > f.edges.len() {
        start
    } else {
        let acc = process(f, members, k, start, (n - 1) as nat);
        let e = f.edges[n - 1];
        if members.contains(e.0.0) && lookup(acc.table, (Status(k), e.0.1)) is None {
            let t = target_set(f, members, e.0.1);
            match number_of(acc.sets, t, acc.sets.len()) {
                Some(i) => Subsets {
                    sets: acc.sets,
                    table: acc.table.push(((Status(k), e.0.1), Status(i as usize))),
                },
                None => Subsets {
                    sets: acc.sets.push(t),
                    table: acc.table.push(((Status(k), e.0.1), Status(acc.sets.len() as usize))),
                },
            }
        } else {
            acc
        }
    }
}

/// The sets and transitions once every set from number `k` on is processed,
/// in the order of the numbers.
pub open spec fn build(f: Fragment, start: Subsets, k: usize) -> Subsets
    decreases usize::MAX - k,
{
    if k >= start.sets.len() || k >= usize::MAX {
        start
    } else {
        build(f, process(f, start.sets[k as int], k, start, f.edges.len()), (k + 1) as usize)
    }
}

/// Whether the sets and transitions are those of a deterministic
/// automaton over sets of states: every set ascends, no set stands twice,
/// every transition joins two of the sets and leads to the set that its
/// symbol leads to, and no state has two transitions on one symbol.
pub open spec fn sound(f: Fragment, s: Subsets) -> bool {
    &&& forall|i: int| 0 <= i < s.sets.len() ==> ascending(#[trigger] s.sets[i])
    &&& forall|i: int, j: int| 0 <= i < j < s.sets.len() ==> s.sets[i] != s.sets[j]
    &&& forall|i: int|
        0 <= i < s.table.len() ==> {
            let e = #[trigger] s.table[i];
            &&& e.0.0.0 < s.sets.len()
            &&& e.1.0 < s.sets.len()
            &&& s.sets[e.1.0 as int] == target_set(f, s.sets[e.0.0.0 as int], e.0.1)
        }
    &&& forall|i: int, j: int| 0 <= i < j < s.table.len() ==> s.table[i].0 != s.table[j].0
}

/// Whether each of the first `done` sets has a transition on every symbol
/// of an edge that leaves one of its states.
pub open spec fn complete(f: Fragment, s: Subsets, done: nat) -> bool {
    forall|k: usize, m: int|
        k < done && k < s.sets.len() && 0 <= m < f.edges.len() && s.sets[k as int].contains(
            f.edges[m].0.0,
        ) ==> #[trigger] lookup(s.table, (Status(k), f.edges[m].0.1)) is Some
}

/// Whether a transition leads to the set of number `j`.
pub open spec fn targeted(table: Seq<((Status, InputChar), Status)>, j: int) -> bool {
    exists|i: int| 0 <= i < table.len() && (#[trigger] table[i]).1.0 == j
}

/// Whether nothing stands among the sets and transitions without need:
/// every set but the first is the target of a transition, and the symbol of
/// every transition is on an edge that leaves a state of its source.
pub open spec fn tight(f: Fragment, s: Subsets) -> bool {
    &&& forall|j: int| 1 <= j < s.sets.len() ==> #[trigger] targeted(s.table, j)
    &&& forall|i: int|
        0 <= i < s.table.len() ==> exists|m: int|
            0 <= m < f.edges.len() && (#[trigger] f.edges[m]).0.1 == (#[trigger] s.table[i]).0.1
                && s.sets[s.table[i].0.0.0 as int].contains(f.edges[m].0.0)
}

/// Processing a state adds nothing without need.
pub proof fn lemma_process_tight(f: Fragment, members: Seq<usize>, k: usize, start: Subsets, n: nat)
    requires
        f.wf(),
        n <= f.edges.len(),
        sound(f, start),
        tight(f, start),
        k < start.sets.len(),
        members == start.sets[k as int],
        process(f, members, k, start, n).sets.len() <= usize::MAX,
    ensures
        tight(f, process(f, members, k, start, n)),
    decreases n,
{
    if n > 0 {
        let acc = process(f, members, k, start, (n - 1) as nat);
        let r = process(f, members, k, start, n);
        let e = f.edges[n - 1];
        assert(acc.sets.len() <= r.sets.len());
        lemma_process(f, members, k, start, (n - 1) as nat);
        lemma_process(f, members, k, start, n);
        lemma_process_tight(f, members, k, start, (n - 1) as nat);
        if members.contains(e.0.0) && lookup(acc.table, (Status(k), e.0.1)) is None {
            let key = (Status(k), e.0.1);
            let t = target_set(f, members, e.0.1);
            lemma_number_of(acc.sets, t, acc.sets.len());
            let id: usize = match number_of(acc.sets, t, acc.sets.len()) {
                Some(i) => i as usize,
                None => acc.sets.len() as usize,
            };
            assert(r.table == acc.table.push((key, Status(id))));
            assert(acc.sets[k as int] == members);
            assert forall|j: int| 1 <= j < r.sets.len() implies #[trigger] targeted(r.table, j) by {
                if j < acc.sets.len() {
                    assert(targeted(acc.table, j));
                    let i = choose|i: int|
                        0 <= i < acc.table.len() && (#[trigger] acc.table[i]).1.0 == j;
                    assert(r.table[i].1.0 == j);
                } else {
                    assert(r.table[acc.table.len() as int].1.0 == j);
                }
            }
            assert forall|i: int| 0 <= i < r.table.len() implies exists|m: int|
                0 <= m < f.edges.len() && (#[trigger] f.edges[m]).0.1 == (#[trigger] r.table[i]).0.1
                    && r.sets[r.table[i].0.0.0 as int].contains(f.edges[m].0.0) by {
                if i < acc.table.len() {
                    assert(r.table[i] == acc.table[i]);
                    let m = choose|m: int|
                        0 <= m < f.edges.len() && (#[trigger] f.edges[m]).0.1 == acc.table[i].0.1
                            && acc.sets[acc.table[i].0.0.0 as int].contains(f.edges[m].0.0);
                    assert(r.sets[acc.table[i].0.0.0 as int] == acc.sets[acc.table[i].0.0.0 as int]);
                    assert(f.edges[m].0.1 == r.table[i].0.1);
                } else {
                    assert(r.table[i] == (key, Status(id)));
                    assert(r.sets[k as int] == members);
                    assert(f.edges[n - 1].0.1 == r.table[i].0.1);
                }
            }
        }
    }
}

/// Processing the states one after the other adds nothing without need.
pub proof fn lemma_build_tight(f: Fragment, start: Subsets, k: usize)
    requires
        f.wf(),
        sound(f, start),
        tight(f, start),
        build(f, start, k).sets.len() <= usize::MAX,
    ensures
        tight(f, build(f, start, k)),
    decreases usize::MAX - k,
{
    if !(k >= start.sets.len() || k >= usize::MAX) {
        let next = process(f, start.sets[k as int], k, start, f.edges.len());
        lemma_build_len(f, next, (k + 1) as usize);
        lemma_process(f, start.sets[k as int], k, start, f.edges.len());
        lemma_process_tight(f, start.sets[k as int], k, start, f.edges.len());
        lemma_build_tight(f, next, (k + 1) as usize);
    }
}

/// Processing a state keeps what is found in the table.
pub proof fn lemma_process_keeps(
    f: Fragment,
    members: Seq<usize>,
    k: usize,
    start: Subsets,
    n: nat,
    key: (Status, InputChar),
)
    requires
        lookup(start.table, key) is Some,
    ensures
        lookup(process(f, members, k, start, n).table, key) == lookup(start.table, key),
    decreases n,
{
    if !(n == 0 || n > f.edges.len()) {
        let acc = process(f, members, k, start, (n - 1) as nat);
        let r = process(f, members, k, start, n);
        lemma_process_keeps(f, members, k, start, (n - 1) as nat, key);
        if r.table != acc.table {
            assert(r.table.drop_last() =~= acc.table);
        }
    }
}

/// Once a state is processed, it has a transition on the symbol of every
/// edge that leaves one of its members.
pub proof fn lemma_process_covers(
    f: Fragment,
    members: Seq<usize>,
    k: usize,
    start: Subsets,
    n: nat,
    m: int,
)
    requires
        0 <= m < n <= f.edges.len(),
        members.contains(f.edges[m].0.0),
    ensures
        lookup(process(f, members, k, start, n).table, (Status(k), f.edges[m].0.1)) is Some,
    decreases n,
{
    let acc = process(f, members, k, start, (n - 1) as nat);
    let r = process(f, members, k, start, n);
    let key = (Status(k), f.edges[m].0.1);
    if m < n - 1 {
        lemma_process_covers(f, members, k, start, (n - 1) as nat, m);
    }
    if r.table != acc.table {
        assert(r.table.drop_last() =~= acc.table);
    }
}

/// Processing the states one after the other leaves every set with its
/// transitions.
pub proof fn lemma_build_complete(f: Fragment, start: Subsets, k: usize)
    requires
        f.wf(),
        sound(f, start),
        complete(f, start, k as nat),
        build(f, start, k).sets.len() <= usize::MAX,
    ensures
        complete(f, build(f, start, k), build(f, start, k).sets.len()),
    decreases usize::MAX - k,
{
    if k >= start.sets.len() || k >= usize::MAX {
    } else {
        let members = start.sets[k as int];
        let next = process(f, members, k, start, f.edges.len());
        lemma_build_len(f, next, (k + 1) as usize);
        lemma_process(f, members, k, start, f.edges.len());
        assert forall|j: usize, m: int|
            j < k + 1 && j < next.sets.len() && 0 <= m < f.edges.len() && next.sets[j as int].contains(
                f.edges[m].0.0,
            ) implies #[trigger] lookup(next.table, (Status(j), f.edges[m].0.1)) is Some by {
            assert(next.sets[j as int] == start.sets[j as int]);
            if j < k {
                lemma_process_keeps(
                    f,
                    members,
                    k,
                    start,
                    f.edges.len(),
                    (Status(j), f.edges[m].0.1),
                );
            } else {
                lemma_process_covers(f, members, k, start, f.edges.len(), m);
            }
        }
        lemma_build_complete(f, next, (k + 1) as usize);
    }
}

/// The targets that were moved to ascend, and they are the targets of the
/// edges that leave the set on the symbol.
pub proof fn lemma_moved(edges: Seq<((usize, InputChar), usize)>, set: Seq<usize>, sym: InputChar, n: nat)
    requires
        n <= edges.len(),
    ensures
        ascending(moved(edges, set, sym, n)),
        forall|x: usize| #[trigger]
            moved(edges, set, sym, n).contains(x) <==> exists|m: int|
                0 <= m < n && (#[trigger] edges[m]).0.1 == sym && set.contains(edges[m].0.0)
                    && edges[m].1 == x,
    decreases n,
{
    let r = moved(edges, set, sym, n);
    if n > 0 {
        let acc = moved(edges, set, sym, (n - 1) as nat);
        let e = edges[n - 1];
        lemma_moved(edges, set, sym, (n - 1) as nat);
        lemma_with_state(acc, e.1);
        assert forall|x: usize| #[trigger] r.contains(x) <==> exists|m: int|
            0 <= m < n && (#[trigger] edges[m]).0.1 == sym && set.contains(edges[m].0.0)
                && edges[m].1 == x by {
            if r.contains(x) {
                if acc.contains(x) {
                    let m = choose|m: int|
                        0 <= m < n - 1 && (#[trigger] edges[m]).0.1 == sym && set.contains(
                            edges[m].0.0,
                        ) && edges[m].1 == x;
                    assert(edges[m].0.1 == sym && edges[m].1 == x);
                } else {
                    assert(edges[n - 1].1 == x);
                }
            }
            if exists|m: int|
                0 <= m < n && (#[trigger] edges[m]).0.1 == sym && set.contains(edges[m].0.0)
                    && edges[m].1 == x {
                let m = choose|m: int|
                    0 <= m < n && (#[trigger] edges[m]).0.1 == sym && set.contains(edges[m].0.0)
                        && edges[m].1 == x;
                if m < n - 1 {
                    assert(acc.contains(x));
                }
            }
        }
    } else {
        assert forall|x: usize| !(#[trigger] r.contains(x)) by {
            if r.contains(x) {
                let i = choose|i: int| 0 <= i < r.len() && r[i] == x;
            }
        }
    }
}

/// Whether no class on a transition is a disjunction.
pub open spec fn plain_classes(table: Seq<((Status, InputChar), Status)>) -> bool {
    forall|j: int|
        0 <= j < table.len() ==> ((#[trigger] table[j]).0.1 matches InputChar::Any(a)
            ==> a.is_disjunct())
}

/// Where no class on a transition is a disjunction, the classifier of a
/// state and its transitions agree: the class that the classifier answers
/// with on a character is the class of a transition that leaves the state,
/// and it answers with none only if no class that leaves the state matches
/// the character.
pub proof fn lemma_class_from(table: Seq<((Status, InputChar), Status)>, k: Status, i: nat, c: char)
    requires
        plain_classes(table),
    ensures
        match class_from(table, k, i) {
            Some(h) => match h.narrowed(c) {
                Some(p) => exists|j: int|
                    i <= j < table.len() && (#[trigger] table[j]).0 == (k, InputChar::Any(p)),
                None => forall|j: int|
                    i <= j < table.len() && (#[trigger] table[j]).0.0 == k ==> (table[j].0.1 matches InputChar::Any(
                        a,
                    ) ==> !a.matches(c)),
            },
            None => forall|j: int|
                i <= j < table.len() && (#[trigger] table[j]).0.0 == k ==> !(table[j].0.1 is Any),
        },
    decreases table.len() - i,
{
    if i < table.len() {
        lemma_class_from(table, k, i + 1, c);
        let rest = class_from(table, k, i + 1);
        let e = table[i as int];
        match e.0.1 {
            InputChar::Any(class) => {
                if e.0.0 == k {
                    assert(class.is_disjunct());
                    if class.matches(c) {
                        assert(table[i as int].0 == (k, InputChar::Any(class)));
                    } else {
                        match rest {
                            Some(r) => {
                                match r.narrowed(c) {
                                    Some(p) => {
                                        let j = choose|j: int|
                                            i + 1 <= j < table.len() && (#[trigger] table[j]).0 == (
                                                k,
                                                InputChar::Any(p),
                                            );
                                        assert(table[j].0 == (k, InputChar::Any(p)));
                                    },
                                    None => {},
                                }
                            },
                            None => {},
                        }
                    }
                } else {
                    lemma_class_from_shift(table, k, i, c);
                }
            },
            _ => {
                lemma_class_from_shift(table, k, i, c);
            },
        }
    }
}

/// A transition that is none of the state's own changes nothing for it.
proof fn lemma_class_from_shift(table: Seq<((Status, InputChar), Status)>, k: Status, i: nat, c: char)
    requires
        i < table.len(),
        class_from(table, k, i) == class_from(table, k, i + 1),
        !(table[i as int].0.0 == k && table[i as int].0.1 is Any),
        match class_from(table, k, i + 1) {
            Some(h) => match h.narrowed(c) {
                Some(p) => exists|j: int|
                    i + 1 <= j < table.len() && (#[trigger] table[j]).0 == (k, InputChar::Any(p)),
                None => forall|j: int|
                    i + 1 <= j < table.len() && (#[trigger] table[j]).0.0 == k ==> (table[j].0.1 matches InputChar::Any(
                        a,
                    ) ==> !a.matches(c)),
            },
            None => forall|j: int|
                i + 1 <= j < table.len() && (#[trigger] table[j]).0.0 == k ==> !(table[j].0.1
                    is Any),
        },
    ensures
        match class_from(table, k, i) {
            Some(h) => match h.narrowed(c) {
                Some(p) => exists|j: int|
                    i <= j < table.len() && (#[trigger] table[j]).0 == (k, InputChar::Any(p)),
                None => forall|j: int|
                    i <= j < table.len() && (#[trigger] table[j]).0.0 == k ==> (table[j].0.1 matches InputChar::Any(
                        a,
                    ) ==> !a.matches(c)),
            },
            None => forall|j: int|
                i <= j < table.len() && (#[trigger] table[j]).0.0 == k ==> !(table[j].0.1 is Any),
        },
{
    match class_from(table, k, i) {
        Some(h) => {
            match h.narrowed(c) {
                Some(p) => {
                    let j = choose|j: int|
                        i + 1 <= j < table.len() && (#[trigger] table[j]).0 == (
                            k,
                            InputChar::Any(p),
                        );
                    assert(table[j].0 == (k, InputChar::Any(p)));
                },
                None => {},
            }
        },
        None => {},
    }
}

/// The number found for a set is the number of that set; a set with no
/// number is none of the sets.
pub proof fn lemma_number_of(sets: Seq<Seq<usize>>, t: Seq<usize>, n: nat)
    requires
        n <= sets.len(),
    ensures
        number_of(sets, t, n) matches Some(i) ==> i < n && sets[i as int] == t,
        number_of(sets, t, n) is None ==> forall|i: int| 0 <= i < n ==> #[trigger] sets[i] != t,
    decreases n,
{
    if n > 0 {
        lemma_number_of(sets, t, (n - 1) as nat);
    }
}

/// Processing a state keeps the sets found before it and keeps sets and
/// transitions sound.
pub proof fn lemma_process(f: Fragment, members: Seq<usize>, k: usize, start: Subsets, n: nat)
    requires
        f.wf(),
        n <= f.edges.len(),
        sound(f, start),
        k < start.sets.len(),
        members == start.sets[k as int],
        process(f, members, k, start, n).sets.len() <= usize::MAX,
    ensures
        sound(f, process(f, members, k, start, n)),
        process(f, members, k, start, n).sets.len() >= start.sets.len(),
        forall|i: int|
            0 <= i < start.sets.len() ==> #[trigger] process(f, members, k, start, n).sets[i]
                == start.sets[i],
    decreases n,
{
    if n > 0 {
        let acc = process(f, members, k, start, (n - 1) as nat);
        let r = process(f, members, k, start, n);
        let e = f.edges[n - 1];
        assert(acc.sets.len() <= r.sets.len());
        lemma_process(f, members, k, start, (n - 1) as nat);
        if members.contains(e.0.0) && lookup(acc.table, (Status(k), e.0.1)) is None {
            let key = (Status(k), e.0.1);
            let t = target_set(f, members, e.0.1);
            lemma_moved(f.edges, members, e.0.1, f.edges.len());
            lemma_closed(f, moved(f.edges, members, e.0.1, f.edges.len()));
            lemma_number_of(acc.sets, t, acc.sets.len());
            lemma_lookup(acc.table, key);
            assert(acc.sets[k as int] == members);
            let id: usize = match number_of(acc.sets, t, acc.sets.len()) {
                Some(i) => i as usize,
                None => acc.sets.len() as usize,
            };
            assert(r.table == acc.table.push((key, Status(id))));
            assert(r.sets[id as int] == t);
            assert forall|i: int| 0 <= i < r.sets.len() implies ascending(#[trigger] r.sets[i]) by {
                if i < acc.sets.len() {
                    assert(r.sets[i] == acc.sets[i]);
                }
            }
            assert forall|i: int, j: int| 0 <= i < j < r.sets.len() implies r.sets[i] != r.sets[j] by {
                if j < acc.sets.len() {
                    assert(r.sets[i] == acc.sets[i] && r.sets[j] == acc.sets[j]);
                } else {
                    assert(r.sets[i] == acc.sets[i]);
                }
            }
            assert forall|i: int| 0 <= i < r.table.len() implies ({
                let x = #[trigger] r.table[i];
                &&& x.0.0.0 < r.sets.len()
                &&& x.1.0 < r.sets.len()
                &&& r.sets[x.1.0 as int] == target_set(f, r.sets[x.0.0.0 as int], x.0.1)
            }) by {
                if i < acc.table.len() {
                    let x = acc.table[i];
                    assert(r.table[i] == x);
                    assert(r.sets[x.1.0 as int] == acc.sets[x.1.0 as int]);
                    assert(r.sets[x.0.0.0 as int] == acc.sets[x.0.0.0 as int]);
                } else {
                    assert(r.table[i] == (key, Status(id)));
                    assert(r.sets[k as int] == acc.sets[k as int]);
                }
            }
            assert forall|i: int, j: int| 0 <= i < j < r.table.len() implies r.table[i].0
                != r.table[j].0 by {
                if j < acc.table.len() {
                    assert(r.table[i] == acc.table[i] && r.table[j] == acc.table[j]);
                } else {
                    assert(r.table[i] == acc.table[i]);
                    assert(acc.table[i].0 != key);
                }
            }
            assert forall|i: int| 0 <= i < start.sets.len() implies #[trigger] r.sets[i]
                == start.sets[i] by {
                assert(r.sets[i] == acc.sets[i]);
            }
        }
    }
}

/// Processing the states one after the other loses no set.
pub proof fn lemma_build_len(f: Fragment, start: Subsets, k: usize)
    ensures
        build(f, start, k).sets.len() >= start.sets.len(),
    decreases usize::MAX - k,
{
    if !(k >= start.sets.len() || k >= usize::MAX) {
        let next = process(f, start.sets[k as int], k, start, f.edges.len());
        lemma_build_len(f, next, (k + 1) as usize);
        lemma_process_len(f, start.sets[k as int], k, start, f.edges.len());
    }
}

/// Processing a state loses no set.
pub proof fn lemma_process_len(f: Fragment, members: Seq<usize>, k: usize, start: Subsets, n: nat)
    ensures
        process(f, members, k, start, n).sets.len() >= start.sets.len(),
    decreases n,
{
    if !(n == 0 || n > f.edges.len()) {
        lemma_process_len(f, members, k, start, (n - 1) as nat);
    }
}

/// Processing the states one after the other keeps sets and transitions
/// sound.
pub proof fn lemma_build(f: Fragment, start: Subsets, k: usize)
    requires
        f.wf(),
        sound(f, start),
        build(f, start, k).sets.len() <= usize::MAX,
    ensures
        sound(f, build(f, start, k)),
    decreases usize::MAX - k,
{
    if !(k >= start.sets.len() || k >= usize::MAX) {
        let next = process(f, start.sets[k as int], k, start, f.edges.len());
        lemma_build_len(f, next, (k + 1) as usize);
        lemma_process(f, start.sets[k as int], k, start, f.edges.len());
        lemma_build(f, next, (k + 1) as usize);
    }
}

/// The sets and transitions of a well-formed fragment are those of the
/// subset construction, as long as the sets can be numbered by the machine:
/// a deterministic automaton over sets of its states, with the closure of
/// the start state as the first set, with a transition for every symbol of
/// an edge that leaves a set, and with no set and no transition besides.
pub proof fn lemma_subsets_sound(f: Fragment)
    requires
        f.wf(),
        subsets(f).sets.len() <= usize::MAX,
    ensures
        sound(f, subsets(f)),
        complete(f, subsets(f), subsets(f).sets.len()),
        tight(f, subsets(f)),
        subsets(f).sets.len() > 0,
        subsets(f).sets[0] == closed(f, seq![f.start]),
{
    let first = seq![f.start];
    let start = Subsets { sets: seq![closed(f, first)], table: Seq::empty() };
    assert(ascending(first));
    lemma_closed(f, first);
    assert(sound(f, start));
    lemma_build(f, start, 0);
    lemma_build_complete(f, start, 0);
    assert(tight(f, start));
    lemma_build_tight(f, start, 0);
    lemma_build_len(f, start, 0);
    lemma_build_first(f, start, 0);
}

/// Processing the states one after the other keeps the first set.
pub proof fn lemma_build_first(f: Fragment, start: Subsets, k: usize)
    requires
        start.sets.len() > 0,
    ensures
        build(f, start, k).sets.len() > 0,
        build(f, start, k).sets[0] == start.sets[0],
    decreases usize::MAX - k,
{
    if !(k >= start.sets.len() || k >= usize::MAX) {
        let next = process(f, start.sets[k as int], k, start, f.edges.len());
        lemma_process_first(f, start.sets[k as int], k, start, f.edges.len());
        lemma_build_first(f, next, (k + 1) as usize);
    }
}

/// Processing a state keeps the first set.
pub proof fn lemma_process_first(f: Fragment, members: Seq<usize>, k: usize, start: Subsets, n: nat)
    requires
        start.sets.len() > 0,
    ensures
        process(f, members, k, start, n).sets.len() > 0,
        process(f, members, k, start, n).sets[0] == start.sets[0],
    decreases n,
{
    if !(n == 0 || n > f.edges.len()) {
        lemma_process_first(f, members, k, start, (n - 1) as nat);
    }
}

/// The sets and transitions of a fragment.
pub open spec fn subsets(f: Fragment) -> Subsets {
    build(f, Subsets { sets: seq![closed(f, seq![f.start])], table: Seq::empty() }, 0)
}

/// The bindings of the first `n` sets: `token` for each set that holds the
/// accept state.
pub open spec fn bindings<C>(sets: Seq<Seq<usize>>, accept: usize, token: C, n: nat) -> Seq<
    (Status, C),
>
    decreases n,
{
    if n == 0 || n > sets.len() {
        Seq::empty()
    } else {
        let acc = bindings(sets, accept, token, (n - 1) as nat);
        if sets[n - 1].contains(accept) {
            acc.push((Status((n - 1) as usize), token))
        } else {
            acc
        }
    }
}

/// The disjunction of the classes on the transitions that leave `k`, from
/// entry `i` of the table on, in the order of the table; none if no class
/// leaves `k`.
pub open spec fn class_from(table: Seq<((Status, InputChar), Status)>, k: Status, i: nat) -> Option<
    AnyType,
>
    decreases table.len() - i,
{
    if i >= table.len() {
        None
    } else {
        let rest = class_from(table, k, i + 1);
        match table[i as int].0.1 {
            InputChar::Any(class) => if table[i as int].0.0 == k {
                match rest {
                    Some(r) => Some(AnyType::Or(Box::new(class), Box::new(r))),
                    None => Some(class),
                }
            } else {
                rest
            },
            _ => rest,
        }
    }
}

/// The classifiers of the first `n` states: for each state that a class
/// leaves, the disjunction of the classes that leave it.
pub open spec fn classifiers(table: Seq<((Status, InputChar), Status)>, n: nat) -> Seq<
    (Status, AdHocCanAny),
>
    decreases n,
{
    if n == 0 {
        Seq::empty()
    } else {
        let acc = classifiers(table, (n - 1) as nat);
        match class_from(table, Status((n - 1) as usize), 0) {
            Some(handle) => acc.push((Status((n - 1) as usize), AdHocCanAny { handle })),
            None => acc,
        }
    }
}

/// The table of a fragment with `token` bound to its accept state, or
/// nothing if no deterministic state holds the accept state. State 0 is the
/// state to resume in, within a line and at the start of one.
pub open spec fn compiled<C>(f: Fragment, token: C) -> Option<Rules<C>> {
    let s = subsets(f);
    let accepts = bindings(s.sets, f.accept, token, s.sets.len());
    if accepts.len() == 0 {
        None
    } else {
        Some(
            Rules {
                table: s.table,
                init_status: Status(0),
                line_start: Status(0),
                final_status: accepts,
                any_trans: classifiers(s.table, s.sets.len()),
            },
        )
    }
}

/// A deterministic state under construction: a set of states of the
/// fragment, in ascending order.
#[derive(Debug, PartialEq, Eq)]
pub struct DState {
    pub nfas: Vec<usize>,
}

impl DState {
    pub fn new(set: &Vec<usize>) -> (r: DState)
        ensures
            r.nfas@ == set@,
    {
        DState { nfas: copy_of(set) }
    }
}

/// The sets of a list of deterministic states.
pub open spec fn sets_of(states: Seq<DState>) -> Seq<Seq<usize>> {
    Seq::new(states.len(), |i: int| states[i].nfas@)
}

/// A copy of a list of states.
pub fn copy_of(set: &Vec<usize>) -> (r: Vec<usize>)
    ensures
        r@ == set@,
{
    let mut out: Vec<usize> = Vec::new();
    let mut i: usize = 0;
    while i < set.len()
        invariant
            i <= set.len(),
            out@ == set@.take(i as int),
        decreases set.len() - i,
    {
        out.push(set[i]);
        assert(out@ =~= set@.take(i + 1));
        i = i + 1;
    }
    assert(set@.take(set@.len() as int) =~= set@);
    out
}

/// Whether two lists of states are the same.
pub fn same_set(a: &Vec<usize>, b: &Vec<usize>) -> (r: bool)
    ensures
        r == (a@ == b@),
{
    if a.len() != b.len() {
        return false;
    }
    let mut i: usize = 0;
    while i < a.len()
        invariant
            i <= a.len(),
            a.len() == b.len(),
            forall|j: int| 0 <= j < i ==> a@[j] == b@[j],
        decreases a.len() - i,
    {
        if a[i] != b[i] {
            return false;
        }
        i = i + 1;
    }
    assert(a@ =~= b@);
    true
}

/// The number of the first deterministic state whose set is `t`.
pub fn find_dstate(states: &Vec<DState>, t: &Vec<usize>) -> (r: Option<usize>)
    ensures
        match r {
            Some(i) => i < states.len() && number_of(sets_of(states@), t@, states@.len()) == Some(
                i as nat,
            ),
            None => number_of(sets_of(states@), t@, states@.len()) is None,
        },
{
    let mut i: usize = 0;
    while i < states.len()
        invariant
            i <= states.len(),
            number_of(sets_of(states@), t@, i as nat) is None,
        decreases states.len() - i,
    {
        if same_set(&states[i].nfas, t) {
            proof {
                lemma_number_found(sets_of(states@), t@, i as nat, states@.len());
            }
            return Some(i);
        }
        i = i + 1;
    }
    None
}

/// A set that is the first of its kind at number `i` keeps that number
/// however many sets follow.
pub proof fn lemma_number_found(sets: Seq<Seq<usize>>, t: Seq<usize>, i: nat, n: nat)
    requires
        i < n <= sets.len(),
        number_of(sets, t, i) is None,
        sets[i as int] == t,
    ensures
        number_of(sets, t, n) == Some(i),
    decreases n,
{
    if n > i + 1 {
        lemma_number_found(sets, t, i, (n - 1) as nat);
    }
}

impl MacroNfa {
    /// One pass over the empty-input edges.
    fn pass(&self, tgt: &mut Vec<usize>)
        ensures
            final(tgt)@ == round(self@.eps, old(tgt)@, self@.eps.len()),
    {
        let mut i: usize = 0;
        while i < self.none_trans_table.len()
            invariant
                i <= self.none_trans_table.len(),
                tgt@ == round(self@.eps, old(tgt)@, i as nat),
            decreases self.none_trans_table.len() - i,
        {
            if has_state(tgt, self.none_trans_table[i].0) {
                insert_state(tgt, self.none_trans_table[i].1);
            }
            i = i + 1;
        }
    }

    /// Extends `tgt` by everything that the empty input reaches from it.
    /// From an ascending set of a well-formed fragment this gives a set that
    /// ascends, holds the first, that the empty input does not lead out of,
    /// and whose states are all reached from the first.
    pub fn extand_set(&self, tgt: &mut Vec<usize>)
        ensures
            final(tgt)@ == closed(self@, old(tgt)@),
            self@.wf() && ascending(old(tgt)@) ==> {
                &&& ascending(final(tgt)@)
                &&& within(old(tgt)@, final(tgt)@)
                &&& closed_under(self@.eps, final(tgt)@)
                &&& all_reached(self@.eps, old(tgt)@, final(tgt)@)
            },
    {
        proof {
            if self@.wf() && ascending(tgt@) {
                lemma_closed(self@, tgt@);
            }
        }
        let mut fuel: usize = self.status_set.len();
        let mut more: bool = true;
        while more
            invariant
                more ==> closed(self@, old(tgt)@) == closure(self@.eps, tgt@, fuel as nat),
                !more ==> tgt@ == closed(self@, old(tgt)@),
            decreases
                    if more {
                        fuel + 1
                    } else {
                        0
                    },
        {
            let before: usize = tgt.len();
            self.pass(tgt);
            if fuel == 0 || tgt.len() == before {
                more = false;
            } else {
                fuel = fuel - 1;
            }
        }
    }

    /// The targets of the labelled edges that leave `set` on `sym`.
    fn move_on(&self, set: &Vec<usize>, sym: &InputChar) -> (r: Vec<usize>)
        ensures
            r@ == moved(self@.edges, set@, *sym, self@.edges.len()),
    {
        let mut out: Vec<usize> = Vec::new();
        let mut i: usize = 0;
        while i < self.trans_table.len()
            invariant
                i <= self.trans_table.len(),
                out@ == moved(self@.edges, set@, *sym, i as nat),
            decreases self.trans_table.len() - i,
        {
            if self.trans_table[i].0.1.same(sym) && has_state(set, self.trans_table[i].0.0) {
                insert_state(&mut out, self.trans_table[i].1);
            }
            i = i + 1;
        }
        out
    }

    /// Registers the transitions of the deterministic state `k`.
    fn process_state(
        &self,
        k: usize,
        states: &mut Vec<DState>,
        table: &mut Vec<((Status, InputChar), Status)>,
    )
        requires
            k < old(states).len(),
        ensures
            (Subsets { sets: sets_of(final(states)@), table: final(table)@ }) == process(
                self@,
                old(states)@[k as int].nfas@,
                k,
                Subsets { sets: sets_of(old(states)@), table: old(table)@ },
                self@.edges.len(),
            ),
            final(states).len() >= old(states).len(),
    {
        let members = copy_of(&states[k].nfas);
        let ghost start = Subsets { sets: sets_of(states@), table: table@ };
        let mut i: usize = 0;
        while i < self.trans_table.len()
            invariant
                i <= self.trans_table.len(),
                members@ == old(states)@[k as int].nfas@,
                states.len() >= old(states).len(),
                (Subsets { sets: sets_of(states@), table: table@ }) == process(
                    self@,
                    members@,
                    k,
                    start,
                    i as nat,
                ),
            decreases self.trans_table.len() - i,
        {
            let src: usize = self.trans_table[i].0.0;
            if has_state(&members, src) {
                let sym = self.trans_table[i].0.1.clone();
                if crate::dfa::engine::find_tran(table, Status(k), &sym).is_none() {
                    let mut t = self.move_on(&members, &sym);
                    self.extand_set(&mut t);
                    let ghost before = states@;
                    match find_dstate(states, &t) {
                        Some(id) => {
                            table.push(((Status(k), sym), Status(id)));
                        },
                        None => {
                            let id: usize = states.len();
                            states.push(DState { nfas: t });
                            table.push(((Status(k), sym), Status(id)));
                            assert(sets_of(states@) =~= sets_of(before).push(t@));
                        },
                    }
                }
            }
            i = i + 1;
        }
    }

    /// The deterministic automaton of the fragment, with `token` bound to
    /// every state that holds the accept state. For a well-formed fragment
    /// the sets and transitions behind it are sound, complete and tight.
    pub fn compile<C: TokenTrait + Copy>(&self, token: C) -> (r: Result<DFA<C>, CompileError>)
        ensures
            self@.wf() ==> sound(self@, subsets(self@)) && complete(
                self@,
                subsets(self@),
                subsets(self@).sets.len(),
            ) && tight(self@, subsets(self@)),
            match r {
                Ok(dfa) => {
                    &&& compiled(self@, token) == Some(dfa.rules())
                    &&& dfa.wf()
                    &&& dfa.buff@.len() == 0
                    &&& dfa.mode == LineStatus::LineStart
                },
                Err(e) => compiled(self@, token) is None && e == CompileError::NoAcceptReachable,
            },
    {
        let mut first: Vec<usize> = Vec::new();
        first.push(self.start);
        self.extand_set(&mut first);
        let mut states: Vec<DState> = Vec::new();
        states.push(DState { nfas: first });
        let mut table: Vec<((Status, InputChar), Status)> = Vec::new();
        let ghost start = Subsets { sets: seq![closed(self@, seq![self@.start])], table: Seq::empty() };
        proof {
            assert(sets_of(states@) =~= start.sets);
            assert(table@ =~= start.table);
        }
        let mut k: usize = 0;
        while k < states.len()
            invariant
                subsets(self@) == build(
                    self@,
                    Subsets { sets: sets_of(states@), table: table@ },
                    k,
                ),
            decreases usize::MAX - k,
        {
            self.process_state(k, &mut states, &mut table);
            k = k + 1;
        }
        proof {
            if self@.wf() {
                lemma_subsets_sound(self@);
            }
        }
        let accepts = bind_all(&states, self.final_status, token);
        if accepts.len() == 0 {
            return Err(CompileError::NoAcceptReachable);
        }
        let classes = classify_all(&table, states.len());
        let mut dfa: DFA<C> = DFA::new();
        dfa.table = table;
        dfa.init_status = Status(0);
        dfa.line_start = Status(0);
        dfa.final_status = accepts;
        dfa.any_trans = classes;
        Ok(dfa)
    }
}

/// Binds `token` to every deterministic state that holds `accept`.
pub fn bind_all<C: Copy>(states: &Vec<DState>, accept: usize, token: C) -> (r: Vec<(Status, C)>)
    ensures
        r@ == bindings(sets_of(states@), accept, token, states@.len()),
{
    let mut out: Vec<(Status, C)> = Vec::new();
    let mut i: usize = 0;
    while i < states.len()
        invariant
            i <= states.len(),
            out@ == bindings(sets_of(states@), accept, token, i as nat),
        decreases states.len() - i,
    {
        if has_state(&states[i].nfas, accept) {
            out.push((Status(i), token));
        }
        i = i + 1;
    }
    out
}

/// The disjunction of the classes on the transitions that leave `k`.
pub fn class_of(table: &Vec<((Status, InputChar), Status)>, k: Status) -> (r: Option<AnyType>)
    ensures
        r == class_from(table@, k, 0),
{
    let mut acc: Option<AnyType> = None;
    let mut i: usize = table.len();
    while i > 0
        invariant
            i <= table.len(),
            acc == class_from(table@, k, i as nat),
        decreases i,
    {
        i = i - 1;
        if table[i].0.0 == k {
            match &table[i].0.1 {
                InputChar::Any(class) => {
                    acc = match acc {
                        Some(r) => Some(AnyType::Or(Box::new(class.clone()), Box::new(r))),
                        None => Some(class.clone()),
                    };
                },
                _ => {},
            }
        }
    }
    acc
}

/// The classifiers of the first `count` states.
pub fn classify_all(table: &Vec<((Status, InputChar), Status)>, count: usize) -> (r: Vec<
    (Status, AdHocCanAny),
>)
    ensures
        r@ == classifiers(table@, count as nat),
{
    let mut out: Vec<(Status, AdHocCanAny)> = Vec::new();
    let mut i: usize = 0;
    while i < count
        invariant
            i <= count,
            out@ == classifiers(table@, i as nat),
        decreases count - i,
    {
        match class_of(table, Status(i)) {
            Some(handle) => {
                out.push((Status(i), AdHocCanAny::new(handle)));
            },
            None => {},
        }
        i = i + 1;
    }
    out
}

/// Combination is deterministic: fragments that are equal in structure,
/// however they were built, combine to equal fragments, and equal fragments
/// have equal tables.
pub proof fn lemma_combination_deterministic<C>(
    a1: MacroNfa,
    b1: MacroNfa,
    a2: MacroNfa,
    b2: MacroNfa,
    token: C,
)
    requires
        a1@ == a2@,
        b1@ == b2@,
    ensures
        concat_spec(a1@, b1@) == concat_spec(a2@, b2@),
        alt_spec(a1@, b1@) == alt_spec(a2@, b2@),
        compiled(concat_spec(a1@, b1@), token) == compiled(concat_spec(a2@, b2@), token),
        compiled(alt_spec(a1@, b1@), token) == compiled(alt_spec(a2@, b2@), token),
{
}

} // verus!
