//! The workspace in which a group of rules is written down before it is
//! merged into a table.

use crate::char_class::AnyType;
use crate::dfa::engine::{find_tran, lookup};
use crate::dfa::utils::AdHocCanAny;
use crate::utils::counter::Counter;
use crate::wraps::{InputChar, Status};
use vstd::prelude::*;

verus! {

/// Transitions, classifiers and bindings under construction, with a counter
/// that hands out fresh state ids.
pub struct TransHolder<C> {
    pub trans: Vec<((Status, InputChar), Status)>,
    pub any_trans: Vec<(Status, AdHocCanAny)>,
    pub ac_status: Vec<(Status, C)>,
    pub counter: Counter,
}

impl<C> TransHolder<C> {
    /// The transitions as a map.
    pub open spec fn delta(&self) -> Map<(Status, InputChar), Status> {
        tran_map(self.trans@)
    }

    /// The bindings as a map.
    pub open spec fn accepts(&self) -> Map<Status, C> {
        tran_map(self.ac_status@)
    }

    /// The classifiers as a map.
    pub open spec fn classes(&self) -> Map<Status, AdHocCanAny> {
        tran_map(self.any_trans@)
    }

    /// A holder with nothing in it, whose first fresh id is `init`.
    pub fn new(init: usize) -> (r: TransHolder<C>)
        ensures
            r.trans@.len() == 0,
            r.any_trans@.len() == 0,
            r.ac_status@.len() == 0,
            r.counter == Counter(init),
            r.delta() == Map::<(Status, InputChar), Status>::empty(),
            r.accepts() == Map::<Status, C>::empty(),
            r.classes() == Map::<Status, AdHocCanAny>::empty(),
    {
        let r = TransHolder {
            trans: Vec::new(),
            any_trans: Vec::new(),
            ac_status: Vec::new(),
            counter: Counter::init(init),
        };
        assert(r.delta() =~= Map::<(Status, InputChar), Status>::empty());
        assert(r.accepts() =~= Map::<Status, C>::empty());
        assert(r.classes() =~= Map::<Status, AdHocCanAny>::empty());
        r
    }

    /// The next fresh id.
    pub fn get_counter(&self) -> (r: usize)
        ensures
            r == self.counter.0,
    {
        self.counter.0
    }

    /// Registers the transition from `src` on `input` to `dst`, unless one
    /// is registered already for `src` and `input`: the first registration
    /// stays. Returns the target that is registered afterwards.
    pub fn add_tran(&mut self, src: usize, input: InputChar, dst: usize) -> (r: usize)
        ensures
            Status(r) == match lookup(old(self).trans@, (Status(src), input)) {
                Some(d) => d,
                None => Status(dst),
            },
            final(self).trans@ == if lookup(old(self).trans@, (Status(src), input)) is Some {
                old(self).trans@
            } else {
                old(self).trans@.push(((Status(src), input), Status(dst)))
            },
            final(self).delta() == old(self).delta().insert((Status(src), input), Status(r)),
            old(self).delta().contains_key((Status(src), input)) <==> lookup(
                old(self).trans@,
                (Status(src), input),
            ) is Some,
            old(self).delta().contains_key((Status(src), input)) ==> Status(r) == old(
                self,
            ).delta()[(Status(src), input)],
            final(self).any_trans == old(self).any_trans,
            final(self).ac_status == old(self).ac_status,
            final(self).counter == old(self).counter,
    {
        match find_tran(&self.trans, Status(src), &input) {
            Some(d) => {
                assert(self.delta() =~= self.delta().insert((Status(src), input), d));
                d.0
            },
            None => {
                self.trans.push(((Status(src), input), Status(dst)));
                proof {
                    lemma_push(old(self).trans@, (Status(src), input), Status(dst));
                }
                dst
            },
        }
    }

    /// Registers the transition from `src` on `input` to a fresh state,
    /// unless one is registered already. Returns the target that is
    /// registered afterwards. The fresh id is used up either way.
    pub fn add_tran_with_auto_next(&mut self, src: usize, input: InputChar) -> (r: usize)
        requires
            old(self).counter.0 < usize::MAX,
        ensures
            Status(r) == match lookup(old(self).trans@, (Status(src), input)) {
                Some(d) => d,
                None => Status(old(self).counter.0),
            },
            final(self).trans@ == if lookup(old(self).trans@, (Status(src), input)) is Some {
                old(self).trans@
            } else {
                old(self).trans@.push(((Status(src), input), Status(old(self).counter.0)))
            },
            final(self).delta() == old(self).delta().insert((Status(src), input), Status(r)),
            old(self).delta().contains_key((Status(src), input)) <==> lookup(
                old(self).trans@,
                (Status(src), input),
            ) is Some,
            old(self).delta().contains_key((Status(src), input)) ==> Status(r) == old(
                self,
            ).delta()[(Status(src), input)],
            final(self).any_trans == old(self).any_trans,
            final(self).ac_status == old(self).ac_status,
            final(self).counter.0 == old(self).counter.0 + 1,
    {
        let next = self.counter.next().unwrap();
        self.add_tran(src, input, next)
    }

    /// Registers the transition from `src` on the character `input` to
    /// `dst`, unless one is registered already.
    pub fn add_normal_tran(&mut self, src: usize, input: char, dst: usize) -> (r: usize)
        ensures
            Status(r) == match lookup(old(self).trans@, (Status(src), InputChar::Char(input))) {
                Some(d) => d,
                None => Status(dst),
            },
            final(self).trans@ == if lookup(old(self).trans@, (Status(src), InputChar::Char(input)))
                is Some {
                old(self).trans@
            } else {
                old(self).trans@.push(((Status(src), InputChar::Char(input)), Status(dst)))
            },
            final(self).any_trans == old(self).any_trans,
            final(self).ac_status == old(self).ac_status,
            final(self).counter == old(self).counter,
    {
        self.add_tran(src, InputChar::Char(input), dst)
    }

    /// Registers the transition from `src` on the character `input` to a
    /// fresh state, unless one is registered already.
    pub fn add_normal_tran_with_auto_next(&mut self, src: usize, input: char) -> (r: usize)
        requires
            old(self).counter.0 < usize::MAX,
        ensures
            Status(r) == match lookup(old(self).trans@, (Status(src), InputChar::Char(input))) {
                Some(d) => d,
                None => Status(old(self).counter.0),
            },
            final(self).trans@ == if lookup(old(self).trans@, (Status(src), InputChar::Char(input)))
                is Some {
                old(self).trans@
            } else {
                old(self).trans@.push(
                    ((Status(src), InputChar::Char(input)), Status(old(self).counter.0)),
                )
            },
            final(self).any_trans == old(self).any_trans,
            final(self).ac_status == old(self).ac_status,
            final(self).counter.0 == old(self).counter.0 + 1,
    {
        self.add_tran_with_auto_next(src, InputChar::Char(input))
    }

    /// Registers the transition from `src` under the class `input` to
    /// `dst`, unless one is registered already.
    pub fn add_any_tran(&mut self, src: usize, input: AnyType, dst: usize) -> (r: usize)
        ensures
            Status(r) == match lookup(old(self).trans@, (Status(src), InputChar::Any(input))) {
                Some(d) => d,
                None => Status(dst),
            },
            final(self).trans@ == if lookup(old(self).trans@, (Status(src), InputChar::Any(input)))
                is Some {
                old(self).trans@
            } else {
                old(self).trans@.push(((Status(src), InputChar::Any(input)), Status(dst)))
            },
            final(self).any_trans == old(self).any_trans,
            final(self).ac_status == old(self).ac_status,
            final(self).counter == old(self).counter,
    {
        self.add_tran(src, InputChar::Any(input), dst)
    }

    /// Registers the transition from `src` under the class `input` to a
    /// fresh state, unless one is registered already.
    pub fn add_any_tran_with_auto_next(&mut self, src: usize, input: AnyType) -> (r: usize)
        requires
            old(self).counter.0 < usize::MAX,
        ensures
            Status(r) == match lookup(old(self).trans@, (Status(src), InputChar::Any(input))) {
                Some(d) => d,
                None => Status(old(self).counter.0),
            },
            final(self).trans@ == if lookup(old(self).trans@, (Status(src), InputChar::Any(input)))
                is Some {
                old(self).trans@
            } else {
                old(self).trans@.push(
                    ((Status(src), InputChar::Any(input)), Status(old(self).counter.0)),
                )
            },
            final(self).any_trans == old(self).any_trans,
            final(self).ac_status == old(self).ac_status,
            final(self).counter.0 == old(self).counter.0 + 1,
    {
        self.add_tran_with_auto_next(src, InputChar::Any(input))
    }

    /// Attaches a classifier to `src`, in place of the one it had.
    pub fn add_can_any(&mut self, src: usize, any_tran: AdHocCanAny)
        ensures
            final(self).any_trans@ == old(self).any_trans@.push((Status(src), any_tran)),
            final(self).classes() == old(self).classes().insert(Status(src), any_tran),
            final(self).trans == old(self).trans,
            final(self).ac_status == old(self).ac_status,
            final(self).counter == old(self).counter,
    {
        self.any_trans.push((Status(src), any_tran));
        proof {
            lemma_push(old(self).any_trans@, Status(src), any_tran);
        }
    }

    /// Binds `result` to `status`, in place of the rule bound to it before.
    pub fn set_accept_status(&mut self, status: usize, result: C)
        ensures
            final(self).ac_status@ == old(self).ac_status@.push((Status(status), result)),
            final(self).accepts() == old(self).accepts().insert(Status(status), result),
            final(self).trans == old(self).trans,
            final(self).any_trans == old(self).any_trans,
            final(self).counter == old(self).counter,
    {
        self.ac_status.push((Status(status), result));
        proof {
            lemma_push(old(self).ac_status@, Status(status), result);
        }
    }
}

/// A list of entries as a map: each key with the value stored last under it.
pub open spec fn tran_map<K, V>(entries: Seq<(K, V)>) -> Map<K, V> {
    Map::new(|k: K| lookup(entries, k) is Some, |k: K| lookup(entries, k).unwrap())
}

/// One more entry at the end is one more insertion into the map.
pub proof fn lemma_push<K, V>(entries: Seq<(K, V)>, key: K, value: V)
    ensures
        tran_map(entries.push((key, value))) == tran_map(entries).insert(key, value),
{
    let more = entries.push((key, value));
    assert(more.drop_last() =~= entries);
    assert(more.last() == (key, value));
    assert(tran_map(more) =~= tran_map(entries).insert(key, value));
}

} // verus!
