//! Fragments of non-deterministic automata and the algebra that combines
//! them: concatenation and alternation, with the states of the right-hand
//! operand renumbered where they collide with those of the left.

use crate::char_class::AnyType;
use crate::dfa::engine::{lemma_lookup, lookup};
use crate::wraps::InputChar;
use vstd::prelude::*;

pub mod compile;

verus! {

/// Whether a list of state ids ascends strictly.
pub open spec fn ascending(s: Seq<usize>) -> bool {
    forall|i: int, j: int| 0 <= i < j < s.len() ==> s[i] < s[j]
}

/// An ascending list with `x` put in its place, unless it is there.
pub open spec fn with_state(s: Seq<usize>, x: usize) -> Seq<usize>
    decreases s.len(),
{
    if s.len() == 0 {
        seq![x]
    } else if s[0] == x {
        s
    } else if x < s[0] {
        seq![x] + s
    } else {
        seq![s[0]] + with_state(s.drop_first(), x)
    }
}

/// Putting a state in its place keeps the list ascending, keeps what was
/// there, and adds the state and nothing else.
pub proof fn lemma_with_state(s: Seq<usize>, x: usize)
    requires
        ascending(s),
    ensures
        ascending(with_state(s, x)),
        with_state(s, x).contains(x),
        forall|y: usize| #[trigger] s.contains(y) ==> with_state(s, x).contains(y),
        forall|y: usize| #[trigger] with_state(s, x).contains(y) ==> y == x || s.contains(y),
        s.contains(x) ==> with_state(s, x) == s,
        !s.contains(x) ==> with_state(s, x).len() == s.len() + 1,
    decreases s.len(),
{
    let r = with_state(s, x);
    if s.len() == 0 {
        assert(r[0] == x);
    } else if s[0] == x {
        assert(s.contains(x));
    } else if x < s[0] {
        assert(r[0] == x);
        assert forall|y: usize| #[trigger] s.contains(y) implies r.contains(y) by {
            let i = choose|i: int| 0 <= i < s.len() && s[i] == y;
            assert(r[i + 1] == y);
        }
        assert forall|y: usize| #[trigger] r.contains(y) implies y == x || s.contains(y) by {
            let i = choose|i: int| 0 <= i < r.len() && r[i] == y;
            if i > 0 {
                assert(s[i - 1] == y);
            }
        }
        if s.contains(x) {
            let i = choose|i: int| 0 <= i < s.len() && s[i] == x;
            assert(s[0] <= s[i]);
        }
    } else {
        let t = s.drop_first();
        let rt = with_state(t, x);
        assert(r =~= seq![s[0]] + rt);
        assert forall|i: int, j: int| 0 <= i < j < t.len() implies t[i] < t[j] by {
            assert(t[i] == s[i + 1] && t[j] == s[j + 1]);
        }
        lemma_with_state(t, x);
        assert forall|k: int| 0 <= k < rt.len() implies s[0] < #[trigger] rt[k] by {
            let y = rt[k];
            assert(rt.contains(y));
            if y != x {
                assert(t.contains(y));
                let i = choose|i: int| 0 <= i < t.len() && t[i] == y;
                assert(t[i] == s[i + 1]);
            }
        }
        assert forall|i: int, j: int| 0 <= i < j < r.len() implies r[i] < r[j] by {
            if i == 0 {
                assert(rt[j - 1] == r[j]);
            } else {
                assert(rt[i - 1] == r[i] && rt[j - 1] == r[j]);
            }
        }
        assert(r.contains(x)) by {
            let i = choose|i: int| 0 <= i < rt.len() && rt[i] == x;
            assert(r[i + 1] == x);
        }
        assert forall|y: usize| #[trigger] s.contains(y) implies r.contains(y) by {
            let i = choose|i: int| 0 <= i < s.len() && s[i] == y;
            if i == 0 {
                assert(r[0] == y);
            } else {
                assert(t[i - 1] == y);
                assert(t.contains(y));
                assert(rt.contains(y));
                let k = choose|k: int| 0 <= k < rt.len() && rt[k] == y;
                assert(r[k + 1] == y);
            }
        }
        assert forall|y: usize| #[trigger] r.contains(y) implies y == x || s.contains(y) by {
            let i = choose|i: int| 0 <= i < r.len() && r[i] == y;
            if i == 0 {
                assert(s[0] == y);
            } else {
                assert(rt[i - 1] == y);
                assert(rt.contains(y));
                if y != x {
                    assert(t.contains(y));
                    let k = choose|k: int| 0 <= k < t.len() && t[k] == y;
                    assert(s[k + 1] == y);
                }
            }
        }
        if s.contains(x) {
            let i = choose|i: int| 0 <= i < s.len() && s[i] == x;
            assert(t[i - 1] == x);
            assert(t.contains(x));
            assert(r =~= s);
        } else {
            if t.contains(x) {
                let i = choose|i: int| 0 <= i < t.len() && t[i] == x;
                assert(s[i + 1] == x);
                assert(s.contains(x));
            }
        }
    }
}

/// Whether `x` stands in an ascending list.
pub fn has_state(s: &Vec<usize>, x: usize) -> (r: bool)
    ensures
        r == s@.contains(x),
{
    let mut i: usize = 0;
    while i < s.len()
        invariant
            i <= s.len(),
            forall|j: int| 0 <= j < i ==> s@[j] != x,
        decreases s.len() - i,
    {
        if s[i] == x {
            return true;
        }
        i = i + 1;
    }
    false
}

/// Puts `x` in its place in an ascending list, unless it is there.
pub fn insert_state(s: &mut Vec<usize>, x: usize)
    ensures
        final(s)@ == with_state(old(s)@, x),
{
    let mut i: usize = 0;
    assert(s@.skip(0) =~= s@);
    assert(s@.take(0) + with_state(s@.skip(0), x) =~= with_state(s@, x));
    while i < s.len()
        invariant
            i <= s.len(),
            s@ == old(s)@,
            with_state(s@, x) == s@.take(i as int) + with_state(s@.skip(i as int), x),
        decreases s.len() - i,
    {
        let ghost rest = s@.skip(i as int);
        assert(rest[0] == s@[i as int]);
        if s[i] == x {
            assert(s@.take(i as int) + rest =~= s@);
            return ;
        }
        if x < s[i] {
            s.insert(i, x);
            assert(s@ =~= old(s)@.take(i as int) + (seq![x] + rest));
            return ;
        }
        proof {
            assert(rest.drop_first() =~= s@.skip(i + 1));
            assert(s@.take(i as int) + (seq![rest[0]] + with_state(rest.drop_first(), x)) =~= s@.take(
                i + 1,
            ) + with_state(s@.skip(i + 1), x));
        }
        i = i + 1;
    }
    assert(s@.skip(s@.len() as int).len() == 0);
    assert(s@.take(s@.len() as int) =~= s@);
    s.push(x);
    assert(s@ =~= old(s)@ + seq![x]);
}

/// The place of the entry under `key`, if there is one.
pub open spec fn place_of<V>(entries: Seq<((usize, InputChar), V)>, key: (usize, InputChar)) -> Option<
    int,
>
    decreases entries.len(),
{
    if entries.len() == 0 {
        None
    } else if entries.last().0 == key {
        Some(entries.len() - 1)
    } else {
        place_of(entries.drop_last(), key)
    }
}

/// The entries with `value` under `key`: in the place of the entry that
/// was under the key, or else at the end.
pub open spec fn put<V>(entries: Seq<((usize, InputChar), V)>, key: (usize, InputChar), value: V) -> Seq<
    ((usize, InputChar), V),
> {
    match place_of(entries, key) {
        Some(i) => entries.update(i, (key, value)),
        None => entries.push((key, value)),
    }
}

/// The symbols with `input` at the end, unless it is among them.
pub open spec fn with_input(inputs: Seq<InputChar>, input: InputChar) -> Seq<InputChar> {
    if inputs.contains(input) {
        inputs
    } else {
        inputs.push(input)
    }
}

/// What a fragment is: its labelled edges, at most one for each state and
/// symbol, in the order of their first registration; its empty-input edges
/// in the order of their registration; its states in ascending order; the
/// symbols on its edges in the order of their first use; its start state and
/// its accept state.
pub ghost struct Fragment {
    pub edges: Seq<((usize, InputChar), usize)>,
    pub eps: Seq<(usize, usize)>,
    pub states: Seq<usize>,
    pub inputs: Seq<InputChar>,
    pub start: usize,
    pub accept: usize,
}

impl Fragment {
    /// The states ascend, and every edge joins two of them.
    pub open spec fn wf(self) -> bool {
        &&& ascending(self.states)
        &&& forall|i: int|
            0 <= i < self.edges.len() ==> self.states.contains((#[trigger] self.edges[i]).0.0)
                && self.states.contains(self.edges[i].1)
        &&& forall|i: int|
            0 <= i < self.eps.len() ==> self.states.contains((#[trigger] self.eps[i]).0)
                && self.states.contains(self.eps[i].1)
    }

    /// The fragment with the edges from `src` to `dst` on the operands of
    /// the disjunction `class`, from left to right.
    pub open spec fn added_class(self, src: usize, class: AnyType, dst: usize) -> Fragment
        decreases class,
    {
        match class {
            AnyType::Or(l, r) => self.added_class(src, *l, dst).added_class(src, *r, dst),
            other => self.added(src, Some(InputChar::Any(other)), dst),
        }
    }

    /// The fragment with one more edge from `src` to `dst`: a labelled one
    /// that replaces the edge under the same state and symbol, or one on
    /// the empty input.
    pub open spec fn added(self, src: usize, label: Option<InputChar>, dst: usize) -> Fragment {
        let states = with_state(with_state(self.states, src), dst);
        match label {
            Some(input) => Fragment {
                edges: put(self.edges, (src, input), dst),
                inputs: with_input(self.inputs, input),
                states,
                ..self
            },
            None => Fragment { eps: self.eps.push((src, dst)), states, ..self },
        }
    }
}

/// An edge more keeps a fragment well formed.
pub proof fn lemma_added_wf(f: Fragment, src: usize, label: Option<InputChar>, dst: usize)
    requires
        f.wf(),
    ensures
        f.added(src, label, dst).wf(),
        forall|y: usize| f.states.contains(y) ==> f.added(src, label, dst).states.contains(y),
        f.added(src, label, dst).states.contains(src),
        f.added(src, label, dst).states.contains(dst),
{
    let s1 = with_state(f.states, src);
    lemma_with_state(f.states, src);
    lemma_with_state(s1, dst);
    let g = f.added(src, label, dst);
    match label {
        Some(input) => {
            lemma_place_of(f.edges, (src, input));
            assert forall|i: int| 0 <= i < g.edges.len() implies g.states.contains(
                (#[trigger] g.edges[i]).0.0,
            ) && g.states.contains(g.edges[i].1) by {
                if i < f.edges.len() && g.edges[i] == f.edges[i] {
                    assert(f.states.contains(f.edges[i].0.0));
                }
            }
        },
        None => {
            assert forall|i: int| 0 <= i < g.eps.len() implies g.states.contains(
                (#[trigger] g.eps[i]).0,
            ) && g.states.contains(g.eps[i].1) by {
                if i < f.eps.len() {
                    assert(g.eps[i] == f.eps[i]);
                    assert(f.states.contains(f.eps[i].0));
                }
            }
        },
    }
}

/// The place found for a key lies in the list and holds the key; a key
/// with no place is the key of no entry.
pub proof fn lemma_place_of<V>(entries: Seq<((usize, InputChar), V)>, key: (usize, InputChar))
    ensures
        place_of(entries, key) matches Some(i) ==> 0 <= i < entries.len() && entries[i].0 == key,
        place_of(entries, key) is None ==> forall|i: int|
            0 <= i < entries.len() ==> (#[trigger] entries[i]).0 != key,
    decreases entries.len(),
{
    if entries.len() > 0 && entries.last().0 != key {
        lemma_place_of(entries.drop_last(), key);
        assert forall|i: int| 0 <= i < entries.len() && place_of(entries, key) is None implies (
        #[trigger] entries[i]).0 != key by {
            if i < entries.len() - 1 {
                assert(entries.drop_last()[i] == entries[i]);
            }
        }
    }
}

/// A fragment of a non-deterministic automaton.
#[derive(Debug, PartialEq, Eq)]
pub struct MacroNfa {
    pub trans_table: Vec<((usize, InputChar), usize)>,
    pub none_trans_table: Vec<(usize, usize)>,
    pub status_set: Vec<usize>,
    pub input_set: Vec<InputChar>,
    pub start: usize,
    pub final_status: usize,
}

impl View for MacroNfa {
    type V = Fragment;

    open spec fn view(&self) -> Fragment {
        Fragment {
            edges: self.trans_table@,
            eps: self.none_trans_table@,
            states: self.status_set@,
            inputs: self.input_set@,
            start: self.start,
            accept: self.final_status,
        }
    }
}

impl MacroNfa {
    /// A fragment with no edge and no state yet.
    pub fn new(start: usize, final_status: usize) -> (r: MacroNfa)
        ensures
            r@ == (Fragment {
                edges: Seq::empty(),
                eps: Seq::empty(),
                states: Seq::empty(),
                inputs: Seq::empty(),
                start,
                accept: final_status,
            }),
            r@.wf(),
    {
        MacroNfa {
            trans_table: Vec::new(),
            none_trans_table: Vec::new(),
            status_set: Vec::new(),
            input_set: Vec::new(),
            start,
            final_status,
        }
    }

    /// The elementary fragment of one symbol: state 0, state 1, and the
    /// edge from the first to the second.
    pub fn atom(input: InputChar) -> (r: MacroNfa)
        ensures
            r@ == (Fragment {
                edges: seq![((0usize, input), 1usize)],
                eps: Seq::empty(),
                states: seq![0usize, 1usize],
                inputs: seq![input],
                start: 0,
                accept: 1,
            }),
            r@.wf(),
    {
        let mut r = MacroNfa::new(0, 1);
        let ghost e = r@;
        r.add_edge(0, Some(input), 1);
        proof {
            assert(place_of(e.edges, (0usize, input)) is None);
            assert(r@.edges =~= seq![((0usize, input), 1usize)]);
            assert(with_state(Seq::<usize>::empty(), 0) =~= seq![0usize]);
            assert(seq![0usize].drop_first() =~= Seq::<usize>::empty());
            assert(with_state(Seq::<usize>::empty(), 1) =~= seq![1usize]);
            assert(with_state(seq![0usize], 1) =~= seq![0usize] + seq![1usize]);
            assert(r@.states =~= seq![0usize, 1usize]);
            assert(r@.inputs =~= seq![input]);
        }
        r
    }

    /// Adds the edge from `src` to `dst`, on `label` or on the empty input.
    pub fn add_edge(&mut self, src: usize, label: Option<InputChar>, dst: usize)
        requires
            old(self)@.wf(),
        ensures
            final(self)@ == old(self)@.added(src, label, dst),
            final(self)@.wf(),
    {
        proof {
            lemma_added_wf(self@, src, label, dst);
        }
        insert_state(&mut self.status_set, src);
        insert_state(&mut self.status_set, dst);
        match label {
            Some(input) => {
                if !self.has_input(&input) {
                    self.input_set.push(input.clone());
                }
                match self.find_edge(src, &input) {
                    Some(i) => {
                        self.trans_table[i] = ((src, input), dst);
                    },
                    None => {
                        self.trans_table.push(((src, input), dst));
                    },
                }
            },
            None => {
                self.none_trans_table.push((src, dst));
            },
        }
    }

    /// Adds the edge from the state `edge.0` to `dst`, on the character
    /// `edge.1` or, without one, on the empty input. A labelled edge replaces
    /// the one registered for the same state and character.
    pub fn add_trans(&mut self, edge: (usize, Option<char>), dst: usize)
        requires
            old(self)@.wf(),
        ensures
            final(self)@ == old(self)@.added(
                edge.0,
                match edge.1 {
                    Some(c) => Some(InputChar::Char(c)),
                    None => None,
                },
                dst,
            ),
            final(self)@.wf(),
    {
        let (srcs, input) = edge;
        match input {
            Some(c) => self.add_edge(srcs, Some(InputChar::Char(c)), dst),
            None => self.add_edge(srcs, None, dst),
        }
    }

    /// Adds the edges from `src` to `dst` on the characters of `class`: one
    /// edge for each operand of a disjunction, kept under the operand itself,
    /// so that the class that fires on a character is the label of an edge.
    pub fn add_class_trans(&mut self, src: usize, class: AnyType, dst: usize)
        requires
            old(self)@.wf(),
        ensures
            final(self)@ == old(self)@.added_class(src, class, dst),
            final(self)@.wf(),
        decreases class,
    {
        match class {
            AnyType::Or(l, r) => {
                self.add_class_trans(src, *l, dst);
                self.add_class_trans(src, *r, dst);
            },
            other => {
                self.add_edge(src, Some(InputChar::Any(other)), dst);
            },
        }
    }

    /// Whether `input` is among the symbols.
    fn has_input(&self, input: &InputChar) -> (r: bool)
        ensures
            r == self.input_set@.contains(*input),
    {
        let mut i: usize = 0;
        while i < self.input_set.len()
            invariant
                i <= self.input_set.len(),
                forall|j: int| 0 <= j < i ==> self.input_set@[j] != *input,
            decreases self.input_set.len() - i,
        {
            if self.input_set[i].same(input) {
                return true;
            }
            i = i + 1;
        }
        false
    }

    /// The place of the labelled edge from `src` on `input`.
    fn find_edge(&self, src: usize, input: &InputChar) -> (r: Option<usize>)
        ensures
            match r {
                Some(i) => i < self.trans_table.len() && place_of(
                    self.trans_table@,
                    (src, *input),
                ) == Some(i as int),
                None => place_of(self.trans_table@, (src, *input)) is None,
            },
    {
        let mut i: usize = self.trans_table.len();
        assert(self.trans_table@.take(i as int) =~= self.trans_table@);
        while i > 0
            invariant
                i <= self.trans_table.len(),
                place_of(self.trans_table@, (src, *input)) == place_of(
                    self.trans_table@.take(i as int),
                    (src, *input),
                ),
            decreases i,
        {
            proof {
                let head = self.trans_table@.take(i as int);
                assert(head.last() == self.trans_table@[i - 1]);
                assert(head.drop_last() =~= self.trans_table@.take(i - 1));
            }
            if self.trans_table[i - 1].0.0 == src && self.trans_table[i - 1].0.1.same(input) {
                return Some(i - 1);
            }
            i = i - 1;
        }
        None
    }
}

/// The largest state of an ascending list, or 0 if it has none.
pub open spec fn top_of(states: Seq<usize>) -> usize {
    if states.len() == 0 {
        0
    } else {
        states.last()
    }
}

/// The first id above the states of two ascending lists.
pub open spec fn max_id(a: Seq<usize>, b: Seq<usize>) -> int {
    if top_of(a) >= top_of(b) {
        top_of(a) + 1
    } else {
        top_of(b) + 1
    }
}

/// The states of `b` that `a` has too, in the order of `b`.
pub open spec fn collisions(a: Seq<usize>, b: Seq<usize>) -> Seq<usize>
    decreases b.len(),
{
    if b.len() == 0 {
        Seq::empty()
    } else if a.contains(b.last()) {
        collisions(a, b.drop_last()).push(b.last())
    } else {
        collisions(a, b.drop_last())
    }
}

/// The collisions are the states that both lists have, and they ascend as
/// `b` does.
pub proof fn lemma_collisions(a: Seq<usize>, b: Seq<usize>)
    ensures
        forall|x: usize| #[trigger] collisions(a, b).contains(x) <==> a.contains(x) && b.contains(x),
        ascending(b) ==> ascending(collisions(a, b)),
    decreases b.len(),
{
    let c = collisions(a, b);
    if b.len() > 0 {
        let front = b.drop_last();
        let rest = collisions(a, front);
        lemma_collisions(a, front);
        assert forall|x: usize| #[trigger] c.contains(x) <==> a.contains(x) && b.contains(x) by {
            if c.contains(x) {
                let i = choose|i: int| 0 <= i < c.len() && c[i] == x;
                if i < rest.len() {
                    assert(rest[i] == x);
                    assert(rest.contains(x));
                    let j = choose|j: int| 0 <= j < front.len() && front[j] == x;
                    assert(b[j] == x);
                } else {
                    assert(b[b.len() - 1] == x);
                }
            }
            if a.contains(x) && b.contains(x) {
                let j = choose|j: int| 0 <= j < b.len() && b[j] == x;
                if j < front.len() {
                    assert(front[j] == x);
                    assert(front.contains(x));
                    assert(rest.contains(x));
                    let i = choose|i: int| 0 <= i < rest.len() && rest[i] == x;
                    assert(c[i] == x);
                } else {
                    assert(c[c.len() - 1] == x);
                }
            }
        }
        if ascending(b) {
            assert forall|i: int, j: int| 0 <= i < j < front.len() implies front[i] < front[j] by {
                assert(front[i] == b[i] && front[j] == b[j]);
            }
            assert forall|i: int, j: int| 0 <= i < j < c.len() implies c[i] < c[j] by {
                if j < rest.len() {
                    assert(rest[i] == c[i] && rest[j] == c[j]);
                } else {
                    assert(rest[i] == c[i]);
                    assert(rest.contains(c[i]));
                    assert(front.contains(c[i]));
                    let k = choose|k: int| 0 <= k < front.len() && front[k] == c[i];
                    assert(b[k] < b[b.len() - 1]);
                }
            }
        }
    }
}

/// Every state of an ascending list is at most its top.
pub proof fn lemma_top_of(s: Seq<usize>, x: usize)
    requires
        ascending(s),
        s.contains(x),
    ensures
        x <= top_of(s),
{
    let i = choose|i: int| 0 <= i < s.len() && s[i] == x;
    if i < s.len() - 1 {
        assert(s[i] < s[s.len() - 1]);
    }
}

/// The renumbering is free of collisions: no state of `b` comes to stand
/// on a state of `a`, a state of `b` that `a` lacks keeps its id, one that
/// collides gets an id above every state of both, and two states of `b`
/// never get the same id.
pub proof fn lemma_renumbering_is_collision_free(a: Seq<usize>, b: Seq<usize>, x: usize, y: usize)
    requires
        ascending(a),
        ascending(b),
        max_id(a, b) + collisions(a, b).len() <= usize::MAX,
        b.contains(x),
        b.contains(y),
    ensures
        !a.contains(remap(conflict_map(a, b), x)),
        !a.contains(x) ==> remap(conflict_map(a, b), x) == x,
        a.contains(x) ==> remap(conflict_map(a, b), x) >= max_id(a, b),
        x != y ==> remap(conflict_map(a, b), x) != remap(conflict_map(a, b), y),
{
    let map = conflict_map(a, b);
    let c = collisions(a, b);
    lemma_collisions(a, b);
    lemma_lookup(map, x);
    lemma_lookup(map, y);
    lemma_top_of(b, x);
    lemma_top_of(b, y);
    assert forall|z: usize| a.contains(z) implies z < max_id(a, b) by {
        lemma_top_of(a, z);
    }
    if a.contains(x) {
        assert(c.contains(x));
        let i = choose|i: int| 0 <= i < c.len() && c[i] == x;
        assert(map[i].0 == x);
    }
    if a.contains(y) {
        assert(c.contains(y));
        let i = choose|i: int| 0 <= i < c.len() && c[i] == y;
        assert(map[i].0 == y);
    }
    match lookup(map, x) {
        Some(v) => {
            let i = choose|i: int| 0 <= i < map.len() && #[trigger] map[i] == (x, v);
            assert(c[i] == x);
            assert(c.contains(x));
            match lookup(map, y) {
                Some(w) => {
                    let j = choose|j: int| 0 <= j < map.len() && #[trigger] map[j] == (y, w);
                    assert(c[j] == y);
                },
                None => {},
            }
        },
        None => {
            match lookup(map, y) {
                Some(w) => {
                    let j = choose|j: int| 0 <= j < map.len() && #[trigger] map[j] == (y, w);
                    assert(c[j] == y);
                },
                None => {},
            }
        },
    }
}

/// The renumbering of the states of `b` that collide with those of `a`:
/// in ascending order they get the ids from `max_id(a, b)` upward.
pub open spec fn conflict_map(a: Seq<usize>, b: Seq<usize>) -> Seq<(usize, usize)> {
    let c = collisions(a, b);
    Seq::new(c.len(), |i: int| (c[i], (max_id(a, b) + i) as usize))
}

/// The id that a renumbering gives to `x`: its own where it has none.
pub open spec fn remap(map: Seq<(usize, usize)>, x: usize) -> usize {
    match lookup(map, x) {
        Some(y) => y,
        None => x,
    }
}

/// The fragment with the first `n` of `edges` added, renumbered by `map`.
pub open spec fn with_edges(
    f: Fragment,
    edges: Seq<((usize, InputChar), usize)>,
    map: Seq<(usize, usize)>,
    n: nat,
) -> Fragment
    decreases n,
{
    if n == 0 || n > edges.len() {
        f
    } else {
        let e = edges[n - 1];
        with_edges(f, edges, map, (n - 1) as nat).added(
            remap(map, e.0.0),
            Some(e.0.1),
            remap(map, e.1),
        )
    }
}

/// The fragment with the first `n` of the empty-input edges `eps` added,
/// renumbered by `map`.
pub open spec fn with_eps(f: Fragment, eps: Seq<(usize, usize)>, map: Seq<(usize, usize)>, n: nat) -> Fragment
    decreases n,
{
    if n == 0 || n > eps.len() {
        f
    } else {
        let e = eps[n - 1];
        with_eps(f, eps, map, (n - 1) as nat).added(remap(map, e.0), None, remap(map, e.1))
    }
}

/// The fragment `a` with every edge of `b` added, renumbered by `map`: the
/// labelled edges first, then those on the empty input.
pub open spec fn merged(a: Fragment, b: Fragment, map: Seq<(usize, usize)>) -> Fragment {
    with_eps(with_edges(a, b.edges, map, b.edges.len()), b.eps, map, b.eps.len())
}

/// Adding edges keeps a fragment well formed and loses no state.
pub proof fn lemma_with_edges_wf(
    f: Fragment,
    edges: Seq<((usize, InputChar), usize)>,
    map: Seq<(usize, usize)>,
    n: nat,
)
    requires
        f.wf(),
    ensures
        with_edges(f, edges, map, n).wf(),
        with_edges(f, edges, map, n).start == f.start,
        with_edges(f, edges, map, n).accept == f.accept,
        forall|y: usize| #[trigger] f.states.contains(y) ==> with_edges(f, edges, map, n).states.contains(y),
    decreases n,
{
    if !(n == 0 || n > edges.len()) {
        let e = edges[n - 1];
        let g = with_edges(f, edges, map, (n - 1) as nat);
        lemma_with_edges_wf(f, edges, map, (n - 1) as nat);
        lemma_added_wf(g, remap(map, e.0.0), Some(e.0.1), remap(map, e.1));
    }
}

/// Adding empty-input edges keeps a fragment well formed and loses no
/// state.
pub proof fn lemma_with_eps_wf(f: Fragment, eps: Seq<(usize, usize)>, map: Seq<(usize, usize)>, n: nat)
    requires
        f.wf(),
    ensures
        with_eps(f, eps, map, n).wf(),
        with_eps(f, eps, map, n).start == f.start,
        with_eps(f, eps, map, n).accept == f.accept,
        forall|y: usize| #[trigger] f.states.contains(y) ==> with_eps(f, eps, map, n).states.contains(y),
    decreases n,
{
    if !(n == 0 || n > eps.len()) {
        let e = eps[n - 1];
        let g = with_eps(f, eps, map, (n - 1) as nat);
        lemma_with_eps_wf(f, eps, map, (n - 1) as nat);
        lemma_added_wf(g, remap(map, e.0), None, remap(map, e.1));
    }
}

/// Whether the ids that a concatenation hands out fit the machine.
pub open spec fn fits_concat(a: Fragment, b: Fragment) -> bool {
    max_id(a.states, b.states) + collisions(a.states, b.states).len() <= usize::MAX
}

/// The concatenation of two fragments: the edges of both, those of `b`
/// renumbered where its states collide with states of `a`; an empty-input
/// edge from the accept state of `a` to the start state of `b`; the start
/// state of `a` and the accept state of `b`.
pub open spec fn concat_spec(a: Fragment, b: Fragment) -> Fragment {
    let map = conflict_map(a.states, b.states);
    let joined = merged(a, b, map).added(a.accept, None, remap(map, b.start));
    let accept = remap(map, b.accept);
    Fragment { accept, states: with_state(joined.states, accept), ..joined }
}

/// Whether the ids that an alternation hands out fit the machine.
pub open spec fn fits_alt(a: Fragment, b: Fragment) -> bool {
    &&& fits_concat(a, b)
    &&& max_id(merged(a, b, conflict_map(a.states, b.states)).states, b.states) + 1 <= usize::MAX
}

/// The alternation of two fragments: the edges of both, those of `b`
/// renumbered where its states collide with states of `a`; a fresh start
/// state with empty-input edges to both start states, and a fresh accept
/// state with empty-input edges from both accept states.
pub open spec fn alt_spec(a: Fragment, b: Fragment) -> Fragment {
    let map = conflict_map(a.states, b.states);
    let m = merged(a, b, map);
    let start = max_id(m.states, b.states) as usize;
    let accept = (start + 1) as usize;
    let all = m.added(start, None, a.start).added(start, None, remap(map, b.start)).added(
        a.accept,
        None,
        accept,
    ).added(remap(map, b.accept), None, accept);
    Fragment { start, accept, ..all }
}

/// The id that a renumbering gives to `src`.
pub fn into_no_conflict(src: &usize, conflict_map: &Vec<(usize, usize)>) -> (r: usize)
    ensures
        r == remap(conflict_map@, *src),
{
    let mut i: usize = conflict_map.len();
    assert(conflict_map@.take(i as int) =~= conflict_map@);
    while i > 0
        invariant
            i <= conflict_map.len(),
            lookup(conflict_map@, *src) == lookup(conflict_map@.take(i as int), *src),
        decreases i,
    {
        proof {
            let head = conflict_map@.take(i as int);
            assert(head.last() == conflict_map@[i - 1]);
            assert(head.drop_last() =~= conflict_map@.take(i - 1));
        }
        if conflict_map[i - 1].0 == *src {
            return conflict_map[i - 1].1;
        }
        i = i - 1;
    }
    *src
}

impl MacroNfa {
    /// The first id above the states of both fragments.
    pub fn max_status_id(&self, rhs: &MacroNfa) -> (r: usize)
        requires
            max_id(self@.states, rhs@.states) <= usize::MAX,
        ensures
            r == max_id(self@.states, rhs@.states),
    {
        let a: usize = if self.status_set.len() == 0 {
            0
        } else {
            self.status_set[self.status_set.len() - 1]
        };
        let b: usize = if rhs.status_set.len() == 0 {
            0
        } else {
            rhs.status_set[rhs.status_set.len() - 1]
        };
        if a >= b {
            a + 1
        } else {
            b + 1
        }
    }

    /// The renumbering of the states of `rhs` that collide with states of
    /// this fragment.
    pub fn generate_conflict_map(&self, rhs: &MacroNfa) -> (r: Vec<(usize, usize)>)
        requires
            fits_concat(self@, rhs@),
        ensures
            r@ == conflict_map(self@.states, rhs@.states),
    {
        let base: usize = self.max_status_id(rhs);
        let mut out: Vec<(usize, usize)> = Vec::new();
        let mut i: usize = 0;
        let ghost a = self@.states;
        let ghost b = rhs@.states;
        assert(b.take(0) =~= Seq::empty());
        while i < rhs.status_set.len()
            invariant
                i <= rhs.status_set.len(),
                a == self@.states,
                b == rhs@.states,
                base == max_id(a, b),
                max_id(a, b) + collisions(a, b).len() <= usize::MAX,
                out@.len() == collisions(a, b.take(i as int)).len(),
                out@.len() <= collisions(a, b).len(),
                forall|j: int|
                    0 <= j < out@.len() ==> out@[j] == (
                        collisions(a, b.take(i as int))[j],
                        (base + j) as usize,
                    ),
                forall|k: int|
                    i <= k <= b.len() ==> collisions(a, b.take(i as int)).len() <= (
                    #[trigger] collisions(a, b.take(k))).len(),
            decreases rhs.status_set.len() - i,
        {
            let x: usize = rhs.status_set[i];
            proof {
                let head = b.take(i + 1);
                assert(head.drop_last() =~= b.take(i as int));
                assert(head.last() == x);
                assert(b.take(b.len() as int) =~= b);
                assert forall|k: int| i + 1 <= k <= b.len() implies collisions(a, head).len() <= (
                #[trigger] collisions(a, b.take(k))).len() by {
                    lemma_collisions_grow(a, b, i + 1, k);
                }
                assert(collisions(a, head).len() <= collisions(a, b.take(b.len() as int)).len());
            }
            if has_state(&self.status_set, x) {
                let fresh: usize = base + out.len();
                out.push((x, fresh));
            }
            i = i + 1;
        }
        proof {
            assert(b.take(b.len() as int) =~= b);
            assert(out@ =~= conflict_map(a, b));
        }
        out
    }

    /// Adds every edge of `rhs`, renumbered by `status_map`: the labelled
    /// edges first, then those on the empty input.
    pub fn conbin_trans(&mut self, rhs: &MacroNfa, status_map: &Vec<(usize, usize)>)
        requires
            old(self)@.wf(),
        ensures
            final(self)@ == merged(old(self)@, rhs@, status_map@),
            final(self)@.wf(),
            final(self)@.start == old(self)@.start,
            final(self)@.accept == old(self)@.accept,
            forall|y: usize| #[trigger] old(self)@.states.contains(y) ==> final(self)@.states.contains(y),
    {
        let mut i: usize = 0;
        while i < rhs.trans_table.len()
            invariant
                i <= rhs.trans_table.len(),
                self@ == with_edges(old(self)@, rhs@.edges, status_map@, i as nat),
                self@.wf(),
            decreases rhs.trans_table.len() - i,
        {
            let src = into_no_conflict(&rhs.trans_table[i].0.0, status_map);
            let dst = into_no_conflict(&rhs.trans_table[i].1, status_map);
            let input = rhs.trans_table[i].0.1.clone();
            self.add_edge(src, Some(input), dst);
            i = i + 1;
        }
        let ghost mid = self@;
        let mut k: usize = 0;
        while k < rhs.none_trans_table.len()
            invariant
                k <= rhs.none_trans_table.len(),
                mid == with_edges(old(self)@, rhs@.edges, status_map@, rhs@.edges.len()),
                self@ == with_eps(mid, rhs@.eps, status_map@, k as nat),
                self@.wf(),
            decreases rhs.none_trans_table.len() - k,
        {
            let src = into_no_conflict(&rhs.none_trans_table[k].0, status_map);
            let dst = into_no_conflict(&rhs.none_trans_table[k].1, status_map);
            self.add_edge(src, None, dst);
            k = k + 1;
        }
        proof {
            lemma_with_edges_wf(old(self)@, rhs@.edges, status_map@, rhs@.edges.len());
            lemma_with_eps_wf(mid, rhs@.eps, status_map@, rhs@.eps.len());
        }
    }

    /// The concatenation of this fragment and `rhs`.
    pub fn concat(self, rhs: MacroNfa) -> (r: MacroNfa)
        requires
            self@.wf(),
            fits_concat(self@, rhs@),
        ensures
            r@ == concat_spec(self@, rhs@),
            r@.wf(),
    {
        let mut me = self;
        let conflict_map = me.generate_conflict_map(&rhs);
        me.conbin_trans(&rhs, &conflict_map);
        let from: usize = me.final_status;
        let to: usize = into_no_conflict(&rhs.start, &conflict_map);
        me.add_edge(from, None, to);
        let ghost joined = me@;
        let accept: usize = into_no_conflict(&rhs.final_status, &conflict_map);
        me.final_status = accept;
        insert_state(&mut me.status_set, accept);
        proof {
            lemma_with_state(joined.states, accept);
            assert(me@ == Fragment {
                accept,
                states: with_state(joined.states, accept),
                ..joined
            });
            assert forall|i: int| 0 <= i < me@.edges.len() implies me@.states.contains(
                (#[trigger] me@.edges[i]).0.0,
            ) && me@.states.contains(me@.edges[i].1) by {
                assert(joined.states.contains(joined.edges[i].0.0));
                assert(joined.states.contains(joined.edges[i].1));
            }
            assert forall|i: int| 0 <= i < me@.eps.len() implies me@.states.contains(
                (#[trigger] me@.eps[i]).0,
            ) && me@.states.contains(me@.eps[i].1) by {
                assert(joined.states.contains(joined.eps[i].0));
                assert(joined.states.contains(joined.eps[i].1));
            }
        }
        me
    }
}

impl MacroNfa {
    /// The alternation of this fragment and `rhs`.
    pub fn alt(self, rhs: MacroNfa) -> (r: MacroNfa)
        requires
            self@.wf(),
            fits_alt(self@, rhs@),
        ensures
            r@ == alt_spec(self@, rhs@),
            r@.wf(),
    {
        let mut me = self;
        let conflict_map = me.generate_conflict_map(&rhs);
        me.conbin_trans(&rhs, &conflict_map);
        let start: usize = me.max_status_id(&rhs);
        let accept: usize = start + 1;
        let left_start: usize = me.start;
        let left_accept: usize = me.final_status;
        me.add_edge(start, None, left_start);
        me.add_edge(start, None, into_no_conflict(&rhs.start, &conflict_map));
        me.add_edge(left_accept, None, accept);
        me.add_edge(into_no_conflict(&rhs.final_status, &conflict_map), None, accept);
        let ghost all = me@;
        me.start = start;
        me.final_status = accept;
        proof {
            assert(me@.edges == all.edges && me@.eps == all.eps && me@.states == all.states);
            assert forall|i: int| 0 <= i < me@.edges.len() implies me@.states.contains(
                (#[trigger] me@.edges[i]).0.0,
            ) && me@.states.contains(me@.edges[i].1) by {
                assert(all.states.contains(all.edges[i].0.0));
                assert(all.states.contains(all.edges[i].1));
            }
            assert forall|i: int| 0 <= i < me@.eps.len() implies me@.states.contains(
                (#[trigger] me@.eps[i]).0,
            ) && me@.states.contains(me@.eps[i].1) by {
                assert(all.states.contains(all.eps[i].0));
                assert(all.states.contains(all.eps[i].1));
            }
        }
        me
    }
}

impl core::ops::BitAnd for MacroNfa {
    type Output = MacroNfa;

    /// The concatenation of the two fragments.
    fn bitand(self, rhs: MacroNfa) -> (r: MacroNfa)
        ensures
            r@ == concat_spec(self@, rhs@),
            r@.wf(),
    {
        self.concat(rhs)
    }
}

impl vstd::std_specs::ops::BitAndSpecImpl for MacroNfa {
    open spec fn obeys_bitand_spec() -> bool {
        false
    }

    open spec fn bitand_req(self, rhs: MacroNfa) -> bool {
        self@.wf() && fits_concat(self@, rhs@)
    }

    open spec fn bitand_spec(self, rhs: MacroNfa) -> MacroNfa {
        self
    }
}

impl core::ops::BitOr for MacroNfa {
    type Output = MacroNfa;

    /// The alternation of the two fragments.
    fn bitor(self, rhs: MacroNfa) -> (r: MacroNfa)
        ensures
            r@ == alt_spec(self@, rhs@),
            r@.wf(),
    {
        self.alt(rhs)
    }
}

impl vstd::std_specs::ops::BitOrSpecImpl for MacroNfa {
    open spec fn obeys_bitor_spec() -> bool {
        false
    }

    open spec fn bitor_req(self, rhs: MacroNfa) -> bool {
        self@.wf() && fits_alt(self@, rhs@)
    }

    open spec fn bitor_spec(self, rhs: MacroNfa) -> MacroNfa {
        self
    }
}

/// Among the prefixes of `b`, a longer one has no fewer collisions.
pub proof fn lemma_collisions_grow(a: Seq<usize>, b: Seq<usize>, i: int, k: int)
    requires
        0 <= i <= k <= b.len(),
    ensures
        collisions(a, b.take(i)).len() <= collisions(a, b.take(k)).len(),
    decreases k - i,
{
    if i < k {
        lemma_collisions_grow(a, b, i, k - 1);
        assert(b.take(k).drop_last() =~= b.take(k - 1));
    }
}

} // verus!
