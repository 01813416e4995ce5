//! The builder of hand-written tables, and the table of the markup
//! language's own rules.

use crate::char_class::AnyType;
use crate::dfa::engine::{find_tran_in, lookup, Rules, DFA};
use crate::dfa::trans_holder::TransHolder;
use crate::dfa::utils::AdHocCanAny;
use crate::token_trait::TokenTrait;
use crate::tokens::MdRule;
use crate::utils::counter::Counter;
use crate::wraps::{InputChar, LineStatus, Status};
use vstd::prelude::*;

verus! {

/// The entries of `extra` whose key has no entry in `base`, in order.
pub open spec fn absent_in<K, V>(base: Seq<(K, V)>, extra: Seq<(K, V)>) -> Seq<(K, V)>
    decreases extra.len(),
{
    if extra.len() == 0 {
        Seq::empty()
    } else {
        let rest = absent_in(base, extra.drop_last());
        if lookup(base, extra.last().0) is Some {
            rest
        } else {
            rest.push(extra.last())
        }
    }
}

/// Looking a key up in two lists laid end to end finds the entry of the
/// second list, or else that of the first.
pub proof fn lemma_lookup_concat<K, V>(first: Seq<(K, V)>, second: Seq<(K, V)>, key: K)
    ensures
        lookup(first + second, key) == match lookup(second, key) {
            Some(v) => Some(v),
            None => lookup(first, key),
        },
    decreases second.len(),
{
    if second.len() == 0 {
        assert(first + second =~= first);
    } else {
        assert((first + second).drop_last() =~= first + second.drop_last());
        assert((first + second).last() == second.last());
        lemma_lookup_concat(first, second.drop_last(), key);
    }
}

/// Among the entries of `extra` that `base` lacks, a key is found exactly
/// when `base` lacks it and `extra` has it, and with the same value.
pub proof fn lemma_lookup_absent<K, V>(base: Seq<(K, V)>, extra: Seq<(K, V)>, key: K)
    ensures
        lookup(absent_in(base, extra), key) == if lookup(base, key) is Some {
            None
        } else {
            lookup(extra, key)
        },
    decreases extra.len(),
{
    if extra.len() > 0 {
        lemma_lookup_absent(base, extra.drop_last(), key);
        let rest = absent_in(base, extra.drop_last());
        if lookup(base, extra.last().0) is None {
            assert(rest.push(extra.last()).drop_last() =~= rest);
        }
    }
}

/// Where a list has no entry under the one key of another, all of it is
/// absent in the other.
pub proof fn lemma_absent_single<K, V>(key: K, value: V, extra: Seq<(K, V)>)
    requires
        lookup(extra, key) is None,
    ensures
        absent_in(seq![(key, value)], extra) == extra,
    decreases extra.len(),
{
    let base = seq![(key, value)];
    if extra.len() == 0 {
        assert(absent_in(base, extra) =~= extra);
    } else {
        lemma_absent_single(key, value, extra.drop_last());
        assert(base.drop_last().len() == 0);
        assert(lookup(base.drop_last(), extra.last().0) is None);
        assert(extra.drop_last().push(extra.last()) =~= extra);
    }
}

/// Builds an automaton from groups of rules.
pub struct DFABuilder<C> {
    pub inner: DFA<C>,
    pub set_init: bool,
    pub set_start: bool,
    /// The largest state id handed out so far.
    pub init_count: usize,
}

impl<C: TokenTrait> DFABuilder<C> {
    /// A builder whose automaton resumes in `init_status` within a line and
    /// in `line_start` at the start of one, and goes from the first to the
    /// second on the line-start marker.
    pub fn new(init_status: usize, line_start: usize) -> (r: DFABuilder<C>)
        ensures
            r.inner.wf(),
            r.inner.init_status == Status(init_status),
            r.inner.line_start == Status(line_start),
            r.inner.table@ == seq![
                ((Status(init_status), InputChar::LineStart), Status(line_start)),
            ],
            r.inner.final_status@.len() == 0,
            r.inner.any_trans@.len() == 0,
            r.inner.buff@.len() == 0,
            r.inner.mode == LineStatus::LineStart,
            r.inner.seen@.len() == 0,
            r.init_count == if init_status >= line_start {
                init_status
            } else {
                line_start
            },
    {
        let init_count: usize = if init_status >= line_start {
            init_status
        } else {
            line_start
        };
        let b = DFABuilder { inner: DFA::new(), set_init: false, set_start: false, init_count };
        b.add_init_status(init_status).add_line_start_status(line_start)
    }

    /// Sets the state to resume in within a line, once.
    fn add_init_status(self, status: usize) -> (r: DFABuilder<C>)
        ensures
            r.inner.init_status == if self.set_init {
                self.inner.init_status
            } else {
                Status(status)
            },
            r.set_init,
            r.set_start == self.set_start,
            r.init_count == self.init_count,
            r.inner.table == self.inner.table,
            r.inner.line_start == self.inner.line_start,
            r.inner.final_status == self.inner.final_status,
            r.inner.any_trans == self.inner.any_trans,
            r.inner.buff == self.inner.buff,
            r.inner.mode == self.inner.mode,
            r.inner.seen == self.inner.seen,
    {
        let mut b = self;
        if !b.set_init {
            b.inner.init_status = Status(status);
            b.set_init = true;
        }
        b
    }

    /// Sets the state to resume in at the start of a line, once and only
    /// after the other, and registers the transition on the line-start
    /// marker.
    fn add_line_start_status(self, status: usize) -> (r: DFABuilder<C>)
        ensures
            !self.set_start && self.set_init ==> {
                &&& r.inner.line_start == Status(status)
                &&& r.inner.table@ == self.inner.table@.push(
                    ((self.inner.init_status, InputChar::LineStart), Status(status)),
                )
                &&& r.set_start
            },
            !(!self.set_start && self.set_init) ==> {
                &&& r.inner.line_start == self.inner.line_start
                &&& r.inner.table == self.inner.table
                &&& r.set_start == self.set_start
            },
            r.set_init == self.set_init,
            r.init_count == self.init_count,
            r.inner.init_status == self.inner.init_status,
            r.inner.final_status == self.inner.final_status,
            r.inner.any_trans == self.inner.any_trans,
            r.inner.buff == self.inner.buff,
            r.inner.mode == self.inner.mode,
            r.inner.seen == self.inner.seen,
    {
        let mut b = self;
        if !b.set_start && b.set_init {
            b.inner.line_start = Status(status);
            b.set_start = true;
            let init = b.inner.init_status;
            b.inner.table.push(((init, InputChar::LineStart), Status(status)));
        }
        b
    }

    /// An empty holder for the next group of rules. Its fresh ids start
    /// after the largest id handed out so far.
    pub fn holder(&self) -> (r: TransHolder<C>)
        ensures
            r.trans@.len() == 0,
            r.any_trans@.len() == 0,
            r.ac_status@.len() == 0,
            r.counter.0 == if self.init_count < usize::MAX {
                self.init_count + 1
            } else {
                usize::MAX as int
            },
    {
        if self.init_count < usize::MAX {
            TransHolder::new(self.init_count + 1)
        } else {
            TransHolder::new(usize::MAX)
        }
    }

    /// Merges a group of rules into the automaton. A transition is taken
    /// over unless the automaton has one for the same state and symbol: the
    /// first registration stays. Classifiers and bindings of the group
    /// replace those that the automaton has for the same state.
    pub fn add_trans(self, holder: TransHolder<C>) -> (r: DFABuilder<C>)
        ensures
            r.inner.table@ == self.inner.table@ + absent_in(self.inner.table@, holder.trans@),
            r.inner.any_trans@ == self.inner.any_trans@ + holder.any_trans@,
            r.inner.final_status@ == self.inner.final_status@ + holder.ac_status@,
            forall|key: (Status, InputChar)|
                #[trigger] lookup(r.inner.table@, key) == match lookup(self.inner.table@, key) {
                    Some(next) => Some(next),
                    None => lookup(holder.trans@, key),
                },
            r.init_count == holder.counter.0,
            r.inner.init_status == self.inner.init_status,
            r.inner.line_start == self.inner.line_start,
            r.inner.buff == self.inner.buff,
            r.inner.mode == self.inner.mode,
            r.inner.seen == self.inner.seen,
            r.set_init == self.set_init,
            r.set_start == self.set_start,
    {
        let mut b = self;
        let mut h = holder;
        b.init_count = h.get_counter();
        let ghost base = b.inner.table@;
        let own: usize = b.inner.table.len();
        let mut i: usize = 0;
        proof {
            assert(h.trans@.take(0) =~= Seq::empty());
            assert(base + Seq::empty() =~= base);
        }
        while i < h.trans.len()
            invariant
                i <= h.trans.len(),
                h.trans == holder.trans,
                base == self.inner.table@,
                own == base.len(),
                b.inner.table@ == base + absent_in(base, h.trans@.take(i as int)),
                b.inner.init_status == self.inner.init_status,
                b.inner.line_start == self.inner.line_start,
                b.inner.buff == self.inner.buff,
                b.inner.mode == self.inner.mode,
                b.inner.seen == self.inner.seen,
                b.inner.any_trans == self.inner.any_trans,
                b.inner.final_status == self.inner.final_status,
                b.set_init == self.set_init,
                b.set_start == self.set_start,
                b.init_count == holder.counter.0,
                h.any_trans == holder.any_trans,
                h.ac_status == holder.ac_status,
            decreases h.trans.len() - i,
        {
            let src: Status = h.trans[i].0.0;
            let dst: Status = h.trans[i].1;
            let input: InputChar = h.trans[i].0.1.clone();
            proof {
                let head = h.trans@.take(i + 1);
                let kept = absent_in(base, h.trans@.take(i as int));
                assert(head.drop_last() =~= h.trans@.take(i as int));
                assert(head.last() == h.trans@[i as int]);
                assert((base + kept).take(own as int) =~= base);
                assert((base + kept).push(head.last()) =~= base + kept.push(head.last()));
            }
            if find_tran_in(&b.inner.table, own, src, &input).is_none() {
                b.inner.table.push(((src, input), dst));
            }
            i = i + 1;
        }
        proof {
            assert(h.trans@.take(h.trans@.len() as int) =~= h.trans@);
            assert forall|key: (Status, InputChar)|
                #[trigger] lookup(b.inner.table@, key) == match lookup(base, key) {
                    Some(next) => Some(next),
                    None => lookup(holder.trans@, key),
                } by {
                lemma_lookup_concat(base, absent_in(base, holder.trans@), key);
                lemma_lookup_absent(base, holder.trans@, key);
            }
        }
        b.inner.any_trans.append(&mut h.any_trans);
        b.inner.final_status.append(&mut h.ac_status);
        b
    }

    /// The automaton that was built.
    pub fn build(self) -> (r: DFA<C>)
        ensures
            r == self.inner,
    {
        self.inner
    }
}

/// A key that differs from every key of a list is not found in it.
pub proof fn lemma_lookup_none<K, V>(entries: Seq<(K, V)>, key: K)
    requires
        forall|i: int| 0 <= i < entries.len() ==> (#[trigger] entries[i]).0 != key,
    ensures
        lookup(entries, key) is None,
    decreases entries.len(),
{
    if entries.len() > 0 {
        lemma_lookup_none(entries.drop_last(), key);
    }
}

/// A key is found at the place of its last entry.
pub proof fn lemma_lookup_at<K, V>(entries: Seq<(K, V)>, key: K, at: int)
    requires
        0 <= at < entries.len(),
        entries[at].0 == key,
        forall|i: int| at < i < entries.len() ==> (#[trigger] entries[i]).0 != key,
    ensures
        lookup(entries, key) == Some(entries[at].1),
    decreases entries.len(),
{
    if at < entries.len() - 1 {
        let rest = entries.drop_last();
        assert(rest[at] == entries[at]);
        assert forall|i: int| at < i < rest.len() implies (#[trigger] rest[i]).0 != key by {
            assert(rest[i] == entries[i]);
        }
        lemma_lookup_at(rest, key, at);
    }
}

/// Headings: one to six marks at the start of a line.
///
/// The transitions once these rules are registered, in the order of their
/// registration.
pub open spec fn headings_table() -> Seq<((Status, InputChar), Status)> {
    Seq::empty()
        .push(((Status(1), InputChar::Char('#')), Status(2)))
        .push(((Status(2), InputChar::Char('#')), Status(3)))
        .push(((Status(3), InputChar::Char('#')), Status(4)))
        .push(((Status(4), InputChar::Char('#')), Status(5)))
        .push(((Status(5), InputChar::Char('#')), Status(6)))
        .push(((Status(6), InputChar::Char('#')), Status(7)))
}

/// The bindings once the rules up to these are registered.
pub open spec fn headings_accepts() -> Seq<(Status, MdRule)> {
    Seq::empty()
        .push((Status(2), MdRule::Title1))
        .push((Status(3), MdRule::Title2))
        .push((Status(4), MdRule::Title3))
        .push((Status(5), MdRule::Title4))
        .push((Status(6), MdRule::Title5))
        .push((Status(7), MdRule::Title6))
}

/// The classifiers once the rules up to these are registered.
pub open spec fn headings_classes() -> Seq<(Status, AdHocCanAny)> {
    Seq::empty()
}

/// Registers the rules: headings: one to six marks at the start of a line.
fn headings(h: &mut TransHolder<MdRule>)
    requires
        old(h).trans@ == Seq::<((Status, InputChar), Status)>::empty(),
        old(h).ac_status@ == Seq::<(Status, MdRule)>::empty(),
        old(h).any_trans@ == Seq::<(Status, AdHocCanAny)>::empty(),
        old(h).counter == Counter(2),
    ensures
        final(h).trans@ == headings_table(),
        final(h).ac_status@ == headings_accepts(),
        final(h).any_trans@ == headings_classes(),
        final(h).counter == Counter(8),
{
    proof {
        lemma_lookup_none(h.trans@, (Status(1), InputChar::Char('#')));
    }
    let mut next: usize = h.add_tran_with_auto_next(1, InputChar::Char('#'));
    h.set_accept_status(next, MdRule::Title1);
    proof {
        lemma_lookup_none(h.trans@, (Status(2), InputChar::Char('#')));
    }
    next = h.add_tran_with_auto_next(next, InputChar::Char('#'));
    h.set_accept_status(next, MdRule::Title2);
    proof {
        lemma_lookup_none(h.trans@, (Status(3), InputChar::Char('#')));
    }
    next = h.add_tran_with_auto_next(next, InputChar::Char('#'));
    h.set_accept_status(next, MdRule::Title3);
    proof {
        lemma_lookup_none(h.trans@, (Status(4), InputChar::Char('#')));
    }
    next = h.add_tran_with_auto_next(next, InputChar::Char('#'));
    h.set_accept_status(next, MdRule::Title4);
    proof {
        lemma_lookup_none(h.trans@, (Status(5), InputChar::Char('#')));
    }
    next = h.add_tran_with_auto_next(next, InputChar::Char('#'));
    h.set_accept_status(next, MdRule::Title5);
    proof {
        lemma_lookup_none(h.trans@, (Status(6), InputChar::Char('#')));
    }
    next = h.add_tran_with_auto_next(next, InputChar::Char('#'));
    h.set_accept_status(next, MdRule::Title6);
}

/// Block quotes, and the brackets of links and images.
///
/// The transitions once these rules are registered, in the order of their
/// registration.
pub open spec fn quotes_and_links_table() -> Seq<((Status, InputChar), Status)> {
    headings_table()
        .push(((Status(1), InputChar::Char('>')), Status(8)))
        .push(((Status(8), InputChar::Char('>')), Status(8)))
        .push(((Status(0), InputChar::Char('[')), Status(9)))
        .push(((Status(1), InputChar::Char('[')), Status(9)))
        .push(((Status(0), InputChar::Char('!')), Status(10)))
        .push(((Status(1), InputChar::Char('!')), Status(10)))
        .push(((Status(10), InputChar::Char('[')), Status(11)))
        .push(((Status(0), InputChar::Char(']')), Status(12)))
        .push(((Status(12), InputChar::Char('(')), Status(13)))
        .push(((Status(0), InputChar::Char(')')), Status(14)))
}

/// The bindings once the rules up to these are registered.
pub open spec fn quotes_and_links_accepts() -> Seq<(Status, MdRule)> {
    headings_accepts()
        .push((Status(8), MdRule::Reference))
        .push((Status(9), MdRule::LinkStart))
        .push((Status(11), MdRule::ImgStart))
        .push((Status(13), MdRule::BoxMid))
        .push((Status(14), MdRule::BoxEnd))
}

/// The classifiers once the rules up to these are registered.
pub open spec fn quotes_and_links_classes() -> Seq<(Status, AdHocCanAny)> {
    headings_classes()
}

/// Registers the rules: block quotes, and the brackets of links and images.
fn quotes_and_links(h: &mut TransHolder<MdRule>)
    requires
        old(h).trans@ == headings_table(),
        old(h).ac_status@ == headings_accepts(),
        old(h).any_trans@ == headings_classes(),
        old(h).counter == Counter(8),
    ensures
        final(h).trans@ == quotes_and_links_table(),
        final(h).ac_status@ == quotes_and_links_accepts(),
        final(h).any_trans@ == quotes_and_links_classes(),
        final(h).counter == Counter(15),
{
    proof {
        lemma_lookup_none(h.trans@, (Status(1), InputChar::Char('>')));
    }
    let mut next: usize = h.add_tran_with_auto_next(1, InputChar::Char('>'));
    proof {
        lemma_lookup_none(h.trans@, (Status(8), InputChar::Char('>')));
    }
    next = h.add_tran(next, InputChar::Char('>'), next);
    h.set_accept_status(next, MdRule::Reference);
    proof {
        lemma_lookup_none(h.trans@, (Status(0), InputChar::Char('[')));
    }
    next = h.add_tran_with_auto_next(0, InputChar::Char('['));
    proof {
        lemma_lookup_none(h.trans@, (Status(1), InputChar::Char('[')));
    }
    next = h.add_tran(1, InputChar::Char('['), next);
    h.set_accept_status(next, MdRule::LinkStart);
    proof {
        lemma_lookup_none(h.trans@, (Status(0), InputChar::Char('!')));
    }
    next = h.add_tran_with_auto_next(0, InputChar::Char('!'));
    proof {
        lemma_lookup_none(h.trans@, (Status(1), InputChar::Char('!')));
    }
    next = h.add_tran(1, InputChar::Char('!'), next);
    proof {
        lemma_lookup_none(h.trans@, (Status(10), InputChar::Char('[')));
    }
    next = h.add_tran_with_auto_next(next, InputChar::Char('['));
    h.set_accept_status(next, MdRule::ImgStart);
    proof {
        lemma_lookup_none(h.trans@, (Status(0), InputChar::Char(']')));
    }
    next = h.add_tran_with_auto_next(0, InputChar::Char(']'));
    proof {
        lemma_lookup_none(h.trans@, (Status(12), InputChar::Char('(')));
    }
    next = h.add_tran_with_auto_next(next, InputChar::Char('('));
    h.set_accept_status(next, MdRule::BoxMid);
    proof {
        lemma_lookup_none(h.trans@, (Status(0), InputChar::Char(')')));
    }
    next = h.add_tran_with_auto_next(0, InputChar::Char(')'));
    h.set_accept_status(next, MdRule::BoxEnd);
}

/// Bullets, numbered items, rules and stars.
///
/// The transitions once these rules are registered, in the order of their
/// registration.
pub open spec fn lists_and_stars_table() -> Seq<((Status, InputChar), Status)> {
    quotes_and_links_table()
        .push(((Status(1), InputChar::Char('-')), Status(15)))
        .push(((Status(1), InputChar::Char('*')), Status(16)))
        .push(((Status(16), InputChar::Any(AnyType::Digit)), Status(17)))
        .push(((Status(17), InputChar::Char('.')), Status(18)))
        .push(((Status(15), InputChar::Char('-')), Status(20)))
        .push(((Status(20), InputChar::Char('-')), Status(21)))
        .push(((Status(16), InputChar::Char('*')), Status(23)))
        .push(((Status(23), InputChar::Char('*')), Status(24)))
        .push(((Status(0), InputChar::Char('*')), Status(25)))
}

/// The bindings once the rules up to these are registered.
pub open spec fn lists_and_stars_accepts() -> Seq<(Status, MdRule)> {
    quotes_and_links_accepts()
        .push((Status(15), MdRule::UnorderList))
        .push((Status(16), MdRule::UnorderList))
        .push((Status(18), MdRule::OrderList))
        .push((Status(21), MdRule::SepLine))
        .push((Status(24), MdRule::SepLine))
        .push((Status(25), MdRule::Star))
        .push((Status(23), MdRule::Star))
}

/// The classifiers once the rules up to these are registered.
pub open spec fn lists_and_stars_classes() -> Seq<(Status, AdHocCanAny)> {
    quotes_and_links_classes()
        .push((Status(16), AdHocCanAny { handle: AnyType::Digit }))
}

/// Registers the rules: bullets, numbered items, rules and stars.
fn lists_and_stars(h: &mut TransHolder<MdRule>)
    requires
        old(h).trans@ == quotes_and_links_table(),
        old(h).ac_status@ == quotes_and_links_accepts(),
        old(h).any_trans@ == quotes_and_links_classes(),
        old(h).counter == Counter(15),
    ensures
        final(h).trans@ == lists_and_stars_table(),
        final(h).ac_status@ == lists_and_stars_accepts(),
        final(h).any_trans@ == lists_and_stars_classes(),
        final(h).counter == Counter(27),
{
    proof {
        lemma_lookup_none(h.trans@, (Status(1), InputChar::Char('-')));
    }
    let mut next: usize = h.add_tran_with_auto_next(1, InputChar::Char('-'));
    let m1: usize = next;
    proof {
        lemma_lookup_none(h.trans@, (Status(1), InputChar::Char('*')));
    }
    next = h.add_tran_with_auto_next(1, InputChar::Char('*'));
    let m2: usize = next;
    h.set_accept_status(m1, MdRule::UnorderList);
    h.set_accept_status(m2, MdRule::UnorderList);
    h.add_can_any(next, AdHocCanAny::new(AnyType::Digit));
    proof {
        lemma_lookup_none(h.trans@, (Status(16), InputChar::Any(AnyType::Digit)));
    }
    next = h.add_tran_with_auto_next(next, InputChar::Any(AnyType::Digit));
    proof {
        lemma_lookup_none(h.trans@, (Status(17), InputChar::Char('.')));
    }
    next = h.add_tran_with_auto_next(next, InputChar::Char('.'));
    h.set_accept_status(next, MdRule::OrderList);
    proof {
        lemma_lookup_at(h.trans@, (Status(1), InputChar::Char('-')), 16);
    }
    next = h.add_tran_with_auto_next(1, InputChar::Char('-'));
    proof {
        lemma_lookup_none(h.trans@, (Status(15), InputChar::Char('-')));
    }
    next = h.add_tran_with_auto_next(next, InputChar::Char('-'));
    proof {
        lemma_lookup_none(h.trans@, (Status(20), InputChar::Char('-')));
    }
    next = h.add_tran_with_auto_next(next, InputChar::Char('-'));
    h.set_accept_status(next, MdRule::SepLine);
    proof {
        lemma_lookup_at(h.trans@, (Status(1), InputChar::Char('*')), 17);
    }
    next = h.add_tran_with_auto_next(1, InputChar::Char('*'));
    proof {
        lemma_lookup_none(h.trans@, (Status(16), InputChar::Char('*')));
    }
    next = h.add_tran_with_auto_next(next, InputChar::Char('*'));
    proof {
        lemma_lookup_none(h.trans@, (Status(23), InputChar::Char('*')));
    }
    next = h.add_tran_with_auto_next(next, InputChar::Char('*'));
    h.set_accept_status(next, MdRule::SepLine);
    proof {
        lemma_lookup_none(h.trans@, (Status(0), InputChar::Char('*')));
    }
    next = h.add_tran_with_auto_next(0, InputChar::Char('*'));
    h.set_accept_status(next, MdRule::Star);
    proof {
        lemma_lookup_at(h.trans@, (Status(1), InputChar::Char('*')), 17);
    }
    next = h.add_tran(1, InputChar::Char('*'), next);
    proof {
        lemma_lookup_at(h.trans@, (Status(16), InputChar::Char('*')), 22);
    }
    next = h.add_tran_with_auto_next(next, InputChar::Char('*'));
    h.set_accept_status(next, MdRule::Star);
}

/// Spaces, line breaks, paragraphs and indentation.
///
/// The transitions once these rules are registered, in the order of their
/// registration.
pub open spec fn blanks_table() -> Seq<((Status, InputChar), Status)> {
    lists_and_stars_table()
        .push(((Status(0), InputChar::Char(' ')), Status(27)))
        .push(((Status(0), InputChar::Char('\n')), Status(28)))
        .push(((Status(1), InputChar::Char('\n')), Status(28)))
        .push(((Status(27), InputChar::Char(' ')), Status(30)))
        .push(((Status(30), InputChar::Char('\n')), Status(31)))
        .push(((Status(1), InputChar::Char(' ')), Status(32)))
        .push(((Status(32), InputChar::Char(' ')), Status(33)))
        .push(((Status(33), InputChar::Char(' ')), Status(34)))
        .push(((Status(34), InputChar::Char(' ')), Status(35)))
        .push(((Status(1), InputChar::Char('\t')), Status(35)))
}

/// The bindings once the rules up to these are registered.
pub open spec fn blanks_accepts() -> Seq<(Status, MdRule)> {
    lists_and_stars_accepts()
        .push((Status(27), MdRule::SepChar))
        .push((Status(28), MdRule::ChangeLine))
        .push((Status(31), MdRule::NewParam))
        .push((Status(35), MdRule::Idented))
}

/// The classifiers once the rules up to these are registered.
pub open spec fn blanks_classes() -> Seq<(Status, AdHocCanAny)> {
    lists_and_stars_classes()
}

/// Registers the rules: spaces, line breaks, paragraphs and indentation.
fn blanks(h: &mut TransHolder<MdRule>)
    requires
        old(h).trans@ == lists_and_stars_table(),
        old(h).ac_status@ == lists_and_stars_accepts(),
        old(h).any_trans@ == lists_and_stars_classes(),
        old(h).counter == Counter(27),
    ensures
        final(h).trans@ == blanks_table(),
        final(h).ac_status@ == blanks_accepts(),
        final(h).any_trans@ == blanks_classes(),
        final(h).counter == Counter(36),
{
    proof {
        lemma_lookup_none(h.trans@, (Status(0), InputChar::Char(' ')));
    }
    let mut next: usize = h.add_tran_with_auto_next(0, InputChar::Char(' '));
    h.set_accept_status(next, MdRule::SepChar);
    proof {
        lemma_lookup_none(h.trans@, (Status(0), InputChar::Char('\n')));
    }
    next = h.add_tran_with_auto_next(0, InputChar::Char('\n'));
    proof {
        lemma_lookup_none(h.trans@, (Status(1), InputChar::Char('\n')));
    }
    next = h.add_tran(1, InputChar::Char('\n'), next);
    h.set_accept_status(next, MdRule::ChangeLine);
    proof {
        lemma_lookup_at(h.trans@, (Status(0), InputChar::Char(' ')), 25);
    }
    next = h.add_tran_with_auto_next(0, InputChar::Char(' '));
    proof {
        lemma_lookup_none(h.trans@, (Status(27), InputChar::Char(' ')));
    }
    next = h.add_tran_with_auto_next(next, InputChar::Char(' '));
    proof {
        lemma_lookup_none(h.trans@, (Status(30), InputChar::Char('\n')));
    }
    next = h.add_tran_with_auto_next(next, InputChar::Char('\n'));
    h.set_accept_status(next, MdRule::NewParam);
    proof {
        lemma_lookup_none(h.trans@, (Status(1), InputChar::Char(' ')));
    }
    next = h.add_tran_with_auto_next(1, InputChar::Char(' '));
    proof {
        lemma_lookup_none(h.trans@, (Status(32), InputChar::Char(' ')));
    }
    next = h.add_tran_with_auto_next(next, InputChar::Char(' '));
    proof {
        lemma_lookup_none(h.trans@, (Status(33), InputChar::Char(' ')));
    }
    next = h.add_tran_with_auto_next(next, InputChar::Char(' '));
    proof {
        lemma_lookup_none(h.trans@, (Status(34), InputChar::Char(' ')));
    }
    next = h.add_tran_with_auto_next(next, InputChar::Char(' '));
    proof {
        lemma_lookup_none(h.trans@, (Status(1), InputChar::Char('\t')));
    }
    next = h.add_tran(1, InputChar::Char('\t'), next);
    h.set_accept_status(next, MdRule::Idented);
}

/// Escapes: a backslash and the character it protects.
///
/// The transitions once these rules are registered, in the order of their
/// registration.
pub open spec fn escapes_table() -> Seq<((Status, InputChar), Status)> {
    blanks_table()
        .push(((Status(0), InputChar::Char('\\')), Status(36)))
        .push(((Status(1), InputChar::Char('\\')), Status(36)))
        .push(((Status(36), InputChar::Char('\\')), Status(37)))
        .push(((Status(36), InputChar::Char('#')), Status(37)))
        .push(((Status(36), InputChar::Char('`')), Status(37)))
        .push(((Status(36), InputChar::Char('-')), Status(37)))
        .push(((Status(36), InputChar::Char('{')), Status(37)))
        .push(((Status(36), InputChar::Char('}')), Status(37)))
        .push(((Status(36), InputChar::Char('[')), Status(37)))
        .push(((Status(36), InputChar::Char(']')), Status(37)))
        .push(((Status(36), InputChar::Char('(')), Status(37)))
        .push(((Status(36), InputChar::Char(')')), Status(37)))
        .push(((Status(36), InputChar::Char('+')), Status(37)))
        .push(((Status(36), InputChar::Char('.')), Status(37)))
        .push(((Status(36), InputChar::Char('!')), Status(37)))
        .push(((Status(36), InputChar::Char('|')), Status(37)))
}

/// The bindings once the rules up to these are registered.
pub open spec fn escapes_accepts() -> Seq<(Status, MdRule)> {
    blanks_accepts()
        .push((Status(37), MdRule::Trans))
}

/// The classifiers once the rules up to these are registered.
pub open spec fn escapes_classes() -> Seq<(Status, AdHocCanAny)> {
    blanks_classes()
}

/// Registers the rules: escapes: a backslash and the character it protects.
fn escapes(h: &mut TransHolder<MdRule>)
    requires
        old(h).trans@ == blanks_table(),
        old(h).ac_status@ == blanks_accepts(),
        old(h).any_trans@ == blanks_classes(),
        old(h).counter == Counter(36),
    ensures
        final(h).trans@ == escapes_table(),
        final(h).ac_status@ == escapes_accepts(),
        final(h).any_trans@ == escapes_classes(),
        final(h).counter == Counter(38),
{
    proof {
        lemma_lookup_none(h.trans@, (Status(0), InputChar::Char('\\')));
    }
    let mut next: usize = h.add_tran_with_auto_next(0, InputChar::Char('\\'));
    proof {
        lemma_lookup_none(h.trans@, (Status(1), InputChar::Char('\\')));
    }
    next = h.add_tran(1, InputChar::Char('\\'), next);
    let ts: usize = next;
    proof {
        lemma_lookup_none(h.trans@, (Status(36), InputChar::Char('\\')));
    }
    next = h.add_tran_with_auto_next(next, InputChar::Char('\\'));
    proof {
        lemma_lookup_none(h.trans@, (Status(36), InputChar::Char('#')));
    }
    next = h.add_tran(ts, InputChar::Char('#'), next);
    proof {
        lemma_lookup_none(h.trans@, (Status(36), InputChar::Char('`')));
    }
    next = h.add_tran(ts, InputChar::Char('`'), next);
    proof {
        lemma_lookup_none(h.trans@, (Status(36), InputChar::Char('-')));
    }
    next = h.add_tran(ts, InputChar::Char('-'), next);
    proof {
        lemma_lookup_at(h.trans@, (Status(36), InputChar::Char('-')), 40);
    }
    next = h.add_tran(ts, InputChar::Char('-'), next);
    proof {
        lemma_lookup_none(h.trans@, (Status(36), InputChar::Char('{')));
    }
    next = h.add_tran(ts, InputChar::Char('{'), next);
    proof {
        lemma_lookup_none(h.trans@, (Status(36), InputChar::Char('}')));
    }
    next = h.add_tran(ts, InputChar::Char('}'), next);
    proof {
        lemma_lookup_none(h.trans@, (Status(36), InputChar::Char('[')));
    }
    next = h.add_tran(ts, InputChar::Char('['), next);
    proof {
        lemma_lookup_none(h.trans@, (Status(36), InputChar::Char(']')));
    }
    next = h.add_tran(ts, InputChar::Char(']'), next);
    proof {
        lemma_lookup_none(h.trans@, (Status(36), InputChar::Char('(')));
    }
    next = h.add_tran(ts, InputChar::Char('('), next);
    proof {
        lemma_lookup_none(h.trans@, (Status(36), InputChar::Char(')')));
    }
    next = h.add_tran(ts, InputChar::Char(')'), next);
    proof {
        lemma_lookup_none(h.trans@, (Status(36), InputChar::Char('+')));
    }
    next = h.add_tran(ts, InputChar::Char('+'), next);
    proof {
        lemma_lookup_none(h.trans@, (Status(36), InputChar::Char('.')));
    }
    next = h.add_tran(ts, InputChar::Char('.'), next);
    proof {
        lemma_lookup_none(h.trans@, (Status(36), InputChar::Char('!')));
    }
    next = h.add_tran(ts, InputChar::Char('!'), next);
    proof {
        lemma_lookup_none(h.trans@, (Status(36), InputChar::Char('|')));
    }
    next = h.add_tran(ts, InputChar::Char('|'), next);
    h.set_accept_status(next, MdRule::Trans);
}

/// Code between single backticks, on one line.
///
/// The transitions once these rules are registered, in the order of their
/// registration.
pub open spec fn snippets_table() -> Seq<((Status, InputChar), Status)> {
    escapes_table()
        .push(((Status(0), InputChar::Char('`')), Status(38)))
        .push(((Status(1), InputChar::Char('`')), Status(38)))
        .push(((Status(38), InputChar::Char('`')), Status(39)))
        .push(((Status(38), InputChar::Any(AnyType::Not(Box::new(AnyType::Char('\n'))))), Status(40)))
        .push(((Status(40), InputChar::Any(AnyType::Any)), Status(40)))
        .push(((Status(40), InputChar::Char('`')), Status(41)))
}

/// The bindings once the rules up to these are registered.
pub open spec fn snippets_accepts() -> Seq<(Status, MdRule)> {
    escapes_accepts()
        .push((Status(39), MdRule::CodeSnippet))
        .push((Status(41), MdRule::CodeSnippet))
}

/// The classifiers once the rules up to these are registered.
pub open spec fn snippets_classes() -> Seq<(Status, AdHocCanAny)> {
    escapes_classes()
        .push((Status(38), AdHocCanAny { handle: AnyType::Not(Box::new(AnyType::Char('\n'))) }))
        .push((Status(40), AdHocCanAny { handle: AnyType::Any }))
}

/// Registers the rules: code between single backticks, on one line.
/// Returns the state after two backticks, from which a fence goes on.
fn snippets(h: &mut TransHolder<MdRule>) -> (inner_end: usize)
    requires
        old(h).trans@ == escapes_table(),
        old(h).ac_status@ == escapes_accepts(),
        old(h).any_trans@ == escapes_classes(),
        old(h).counter == Counter(38),
    ensures
        final(h).trans@ == snippets_table(),
        final(h).ac_status@ == snippets_accepts(),
        final(h).any_trans@ == snippets_classes(),
        final(h).counter == Counter(42),
        inner_end == 39,
{
    proof {
        lemma_lookup_none(h.trans@, (Status(0), InputChar::Char('`')));
    }
    let mut next: usize = h.add_tran_with_auto_next(0, InputChar::Char('`'));
    proof {
        lemma_lookup_none(h.trans@, (Status(1), InputChar::Char('`')));
    }
    next = h.add_tran(1, InputChar::Char('`'), next);
    let inner_start: usize = next;
    proof {
        lemma_lookup_none(h.trans@, (Status(38), InputChar::Char('`')));
    }
    next = h.add_tran_with_auto_next(next, InputChar::Char('`'));
    let inner_end: usize = next;
    h.set_accept_status(next, MdRule::CodeSnippet);
    h.add_can_any(inner_start, AdHocCanAny::new(AnyType::Not(Box::new(AnyType::Char('\n')))));
    proof {
        lemma_lookup_none(h.trans@, (Status(38), InputChar::Any(AnyType::Not(Box::new(AnyType::Char('\n'))))));
    }
    next = h.add_tran_with_auto_next(inner_start, InputChar::Any(AnyType::Not(Box::new(AnyType::Char('\n')))));
    h.add_can_any(next, AdHocCanAny::new(AnyType::Any));
    proof {
        lemma_lookup_none(h.trans@, (Status(40), InputChar::Any(AnyType::Any)));
    }
    next = h.add_tran(next, InputChar::Any(AnyType::Any), next);
    proof {
        lemma_lookup_none(h.trans@, (Status(40), InputChar::Char('`')));
    }
    next = h.add_tran_with_auto_next(next, InputChar::Char('`'));
    h.set_accept_status(next, MdRule::CodeSnippet);
    inner_end
}

/// Code between fences of three backticks.
///
/// The transitions once these rules are registered, in the order of their
/// registration.
pub open spec fn fences_table() -> Seq<((Status, InputChar), Status)> {
    snippets_table()
        .push(((Status(39), InputChar::Char('`')), Status(42)))
        .push(((Status(42), InputChar::Any(AnyType::Any)), Status(42)))
        .push(((Status(42), InputChar::Char('`')), Status(43)))
        .push(((Status(43), InputChar::Any(AnyType::Any)), Status(42)))
        .push(((Status(43), InputChar::Char('`')), Status(44)))
        .push(((Status(44), InputChar::Any(AnyType::Any)), Status(42)))
        .push(((Status(44), InputChar::Char('`')), Status(45)))
}

/// The bindings once the rules up to these are registered.
pub open spec fn fences_accepts() -> Seq<(Status, MdRule)> {
    snippets_accepts()
        .push((Status(45), MdRule::CodeSnippet))
}

/// The classifiers once the rules up to these are registered.
pub open spec fn fences_classes() -> Seq<(Status, AdHocCanAny)> {
    snippets_classes()
        .push((Status(42), AdHocCanAny { handle: AnyType::Any }))
        .push((Status(43), AdHocCanAny { handle: AnyType::Any }))
        .push((Status(44), AdHocCanAny { handle: AnyType::Any }))
}

/// Registers the rules: code between fences of three backticks.
#[verifier::rlimit(60)]
fn fences(h: &mut TransHolder<MdRule>, inner_end: usize)
    requires
        inner_end == 39,
        old(h).trans@ == snippets_table(),
        old(h).ac_status@ == snippets_accepts(),
        old(h).any_trans@ == snippets_classes(),
        old(h).counter == Counter(42),
    ensures
        final(h).trans@ == fences_table(),
        final(h).ac_status@ == fences_accepts(),
        final(h).any_trans@ == fences_classes(),
        final(h).counter == Counter(46),
{
    proof {
        lemma_lookup_none(h.trans@, (Status(39), InputChar::Char('`')));
    }
    let mut next: usize = h.add_tran_with_auto_next(inner_end, InputChar::Char('`'));
    h.add_can_any(next, AdHocCanAny::new(AnyType::Any));
    proof {
        lemma_lookup_none(h.trans@, (Status(42), InputChar::Any(AnyType::Any)));
    }
    next = h.add_tran(next, InputChar::Any(AnyType::Any), next);
    let inner: usize = next;
    proof {
        lemma_lookup_none(h.trans@, (Status(42), InputChar::Char('`')));
    }
    next = h.add_tran_with_auto_next(next, InputChar::Char('`'));
    h.add_can_any(next, AdHocCanAny::new(AnyType::Any));
    proof {
        lemma_lookup_none(h.trans@, (Status(43), InputChar::Any(AnyType::Any)));
    }
    h.add_tran(next, InputChar::Any(AnyType::Any), inner);
    proof {
        lemma_lookup_none(h.trans@, (Status(43), InputChar::Char('`')));
    }
    next = h.add_tran_with_auto_next(next, InputChar::Char('`'));
    h.add_can_any(next, AdHocCanAny::new(AnyType::Any));
    proof {
        lemma_lookup_none(h.trans@, (Status(44), InputChar::Any(AnyType::Any)));
    }
    h.add_tran(next, InputChar::Any(AnyType::Any), inner);
    proof {
        lemma_lookup_none(h.trans@, (Status(44), InputChar::Char('`')));
    }
    next = h.add_tran_with_auto_next(next, InputChar::Char('`'));
    h.set_accept_status(next, MdRule::CodeSnippet);
}

/// The transitions of the markup language's rules, in the order of their
/// registration. States 0 and 1 are the two states to resume in.
pub open spec fn md_table() -> Seq<((Status, InputChar), Status)> {
    fences_table()
}

/// The bindings of the markup language's rules.
pub open spec fn md_accepts() -> Seq<(Status, MdRule)> {
    fences_accepts()
}

/// The classifiers of the markup language's rules.
pub open spec fn md_classes() -> Seq<(Status, AdHocCanAny)> {
    fences_classes()
}

/// The markup language's rules in a holder, registered group by group. The
/// fresh state ids start at 2; a registration that finds its transition
/// there uses up an id all the same.
pub fn md_rules() -> (h: TransHolder<MdRule>)
    ensures
        h.trans@ == md_table(),
        h.ac_status@ == md_accepts(),
        h.any_trans@ == md_classes(),
        h.counter == Counter(46),
{
    let mut h: TransHolder<MdRule> = TransHolder::new(2);
    proof {
        assert(h.trans@ =~= Seq::empty());
        assert(h.any_trans@ =~= Seq::empty());
        assert(h.ac_status@ =~= Seq::empty());
    }
    headings(&mut h);
    quotes_and_links(&mut h);
    lists_and_stars(&mut h);
    blanks(&mut h);
    escapes(&mut h);
    let inner_end = snippets(&mut h);
    fences(&mut h, inner_end);
    h
}

impl DFABuilder<MdRule> {
    /// The rules of the markup language: the transition on the line-start
    /// marker and then the registered rules, with 0 as the state to resume
    /// in within a line and 1 as the state at the start of one.
    pub open spec fn md_rules_of() -> Rules<MdRule> {
        Rules {
            table: seq![((Status(0), InputChar::LineStart), Status(1))] + md_table(),
            init_status: Status(0),
            line_start: Status(1),
            final_status: md_accepts(),
            any_trans: md_classes(),
        }
    }

    /// The automaton of the markup language, ready for a run.
    pub fn init() -> (r: DFA<MdRule>)
        ensures
            r.wf(),
            r.rules() == Self::md_rules_of(),
            r.buff@.len() == 0,
            r.mode == LineStatus::LineStart,
            r.seen@.len() == 0,
    {
        let b: DFABuilder<MdRule> = DFABuilder::new(0, 1);
        let ghost base = b.inner.table@;
        let b = b.add_trans(md_rules());
        proof {
            lemma_lookup_none(md_table(), (Status(0), InputChar::LineStart));
            lemma_absent_single((Status(0), InputChar::LineStart), Status(1), md_table());
            assert(base =~= seq![((Status(0), InputChar::LineStart), Status(1))]);
            assert(Seq::<(Status, AdHocCanAny)>::empty() + md_classes() =~= md_classes());
            assert(Seq::<(Status, MdRule)>::empty() + md_accepts() =~= md_accepts());
        }
        b.build()
    }
}

} // verus!
