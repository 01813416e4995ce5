//! The automaton's table and the engine that performs one transition per
//! call, with a lexeme buffer, panic-mode recovery and line-context tracking.

use crate::dfa::interface::CanAny;
use crate::dfa::utils::AdHocCanAny;
use crate::token_trait::{GenericToken, TokenModel, TokenTrait};
use crate::wraps::{lemma_track_is_rescan, InputChar, LineStatus, Status};
use vstd::prelude::*;

verus! {

/// The value stored last under `key` in a list of entries.
pub open spec fn lookup<K, V>(entries: Seq<(K, V)>, key: K) -> Option<V>
    decreases entries.len(),
{
    if entries.len() == 0 {
        None
    } else if entries.last().0 == key {
        Some(entries.last().1)
    } else {
        lookup(entries.drop_last(), key)
    }
}

/// What is found under a key is the value of an entry under that key, and a
/// key under which nothing is found is the key of no entry.
pub proof fn lemma_lookup<K, V>(entries: Seq<(K, V)>, key: K)
    ensures
        lookup(entries, key) matches Some(v) ==> exists|i: int|
            0 <= i < entries.len() && #[trigger] entries[i] == (key, v),
        lookup(entries, key) is None ==> forall|i: int|
            0 <= i < entries.len() ==> (#[trigger] entries[i]).0 != key,
    decreases entries.len(),
{
    if entries.len() > 0 {
        if entries.last().0 == key {
            assert(entries[entries.len() - 1] == (key, entries.last().1));
        } else {
            let rest = entries.drop_last();
            lemma_lookup(rest, key);
            match lookup(rest, key) {
                Some(v) => {
                    let i = choose|i: int| 0 <= i < rest.len() && #[trigger] rest[i] == (key, v);
                    assert(entries[i] == (key, v));
                },
                None => {
                    assert forall|i: int| 0 <= i < entries.len() implies (#[trigger] entries[i]).0
                        != key by {
                        if i < rest.len() {
                            assert(rest[i] == entries[i]);
                        }
                    }
                },
            }
        }
    }
}

/// The place of the entry stored last under `status`.
pub fn position<V>(entries: &Vec<(Status, V)>, status: Status) -> (r: Option<usize>)
    ensures
        r is Some <==> lookup(entries@, status) is Some,
        r matches Some(i) ==> i < entries.len() && entries[i as int].0 == status && lookup(
            entries@,
            status,
        ) == Some(entries[i as int].1),
{
    let mut i: usize = entries.len();
    assert(entries@.take(i as int) =~= entries@);
    while i > 0
        invariant
            i <= entries.len(),
            lookup(entries@, status) == lookup(entries@.take(i as int), status),
        decreases i,
    {
        proof {
            let head = entries@.take(i as int);
            assert(head.last() == entries[i - 1]);
            assert(head.drop_last() =~= entries@.take(i - 1));
        }
        if entries[i - 1].0 == status {
            return Some(i - 1);
        }
        i = i - 1;
    }
    None
}

/// The target stored last under `(status, input)` among the first `upto`
/// entries.
pub fn find_tran_in(
    table: &Vec<((Status, InputChar), Status)>,
    upto: usize,
    status: Status,
    input: &InputChar,
) -> (r: Option<Status>)
    requires
        upto <= table.len(),
    ensures
        r == lookup(table@.take(upto as int), (status, *input)),
{
    let mut i: usize = upto;
    while i > 0
        invariant
            i <= upto <= table.len(),
            lookup(table@.take(upto as int), (status, *input)) == lookup(
                table@.take(i as int),
                (status, *input),
            ),
        decreases i,
    {
        proof {
            let head = table@.take(i as int);
            assert(head.last() == table[i - 1]);
            assert(head.drop_last() =~= table@.take(i - 1));
        }
        if table[i - 1].0.0 == status && table[i - 1].0.1.same(input) {
            return Some(table[i - 1].1);
        }
        i = i - 1;
    }
    None
}

/// The target stored last under `(status, input)`.
pub fn find_tran(table: &Vec<((Status, InputChar), Status)>, status: Status, input: &InputChar) -> (r:
    Option<Status>)
    ensures
        r == lookup(table@, (status, *input)),
{
    assert(table@.take(table.len() as int) =~= table@);
    find_tran_in(table, table.len(), status, input)
}

/// What one step of the engine yields.
#[derive(Debug, PartialEq, Eq)]
pub enum NextStatus {
    /// A transition was taken; the symbol is consumed and this is the next
    /// state.
    GoOn(Status),
    /// No transition leaves the state, and a rule is bound to it: the token
    /// that the rule made, the lexeme, the state to resume in, and the
    /// symbol, which is not consumed.
    Final(GenericToken, Vec<char>, Status, InputChar),
    /// No transition leaves the state and no rule is bound to it: the
    /// buffered text, the state to resume in, and the symbol. With text in
    /// the buffer the symbol is not consumed. With none, a character symbol
    /// is itself the text that is given up, and counts as consumed.
    Plain(Vec<char>, Status, InputChar),
}

/// What a `NextStatus` stands for.
pub ghost enum Outcome {
    GoOn(Status),
    Final(TokenModel, Seq<char>, Status, InputChar),
    Plain(Seq<char>, Status, InputChar),
}

impl View for NextStatus {
    type V = Outcome;

    open spec fn view(&self) -> Outcome {
        match self {
            NextStatus::GoOn(s) => Outcome::GoOn(*s),
            NextStatus::Final(t, l, s, i) => Outcome::Final(t@, l@, *s, *i),
            NextStatus::Plain(l, s, i) => Outcome::Plain(l@, *s, *i),
        }
    }
}

/// A deterministic automaton with the state of one run.
pub struct DFA<C> {
    /// The transitions, by state and symbol; of two entries under one key
    /// the later one counts.
    pub table: Vec<((Status, InputChar), Status)>,
    /// The state to resume in within a line.
    pub init_status: Status,
    /// The state to resume in at the start of a line.
    pub line_start: Status,
    /// The rules bound to accept states.
    pub final_status: Vec<(Status, C)>,
    /// The classifiers attached to states.
    pub any_trans: Vec<(Status, AdHocCanAny)>,
    /// The characters consumed since the last token.
    pub buff: Vec<char>,
    /// The line-context mode after every character consumed so far.
    pub mode: LineStatus,
    /// Every character consumed so far.
    pub seen: Ghost<Seq<char>>,
}

/// The part of an automaton that a run does not change: the table, the two
/// states to resume in, the bindings and the classifiers.
pub ghost struct Rules<C> {
    pub table: Seq<((Status, InputChar), Status)>,
    pub init_status: Status,
    pub line_start: Status,
    pub final_status: Seq<(Status, C)>,
    pub any_trans: Seq<(Status, AdHocCanAny)>,
}

impl<C: TokenTrait> Rules<C> {
    /// The state that `input` leads to from `status`. A literal entry is
    /// taken first; else, for a character, the entry under the class that
    /// the state's classifier answers with.
    pub open spec fn target(self, status: Status, input: InputChar) -> Option<Status> {
        match lookup(self.table, (status, input)) {
            Some(next) => Some(next),
            None => match (input, lookup(self.any_trans, status)) {
                (InputChar::Char(c), Some(ca)) => match ca.classify(c) {
                    Some(class) => lookup(self.table, (status, InputChar::Any(class))),
                    None => None,
                },
                _ => None,
            },
        }
    }

    /// The state to resume in under a line-context mode.
    pub open spec fn resume_for(self, mode: LineStatus) -> Status {
        match mode {
            LineStatus::LineStart => self.line_start,
            LineStatus::Normal => self.init_status,
        }
    }

    /// The characters that a step from `status` on `input` consumes, with
    /// `buff` in the buffer: the character of a transition that is taken,
    /// and the character that is given up as text where there is neither a
    /// transition, nor a rule, nor text in the buffer.
    pub open spec fn eaten(self, buff: Seq<char>, status: Status, input: InputChar) -> Seq<char> {
        match input {
            InputChar::Char(c) => if self.target(status, input) is Some || (lookup(
                self.final_status,
                status,
            ) is None && buff.len() == 0) {
                seq![c]
            } else {
                Seq::empty()
            },
            _ => Seq::empty(),
        }
    }

    /// The buffer after a step from `status` on `input`.
    pub open spec fn next_buff(self, buff: Seq<char>, status: Status, input: InputChar) -> Seq<
        char,
    > {
        if self.target(status, input) is Some {
            match input {
                InputChar::Char(c) => buff.push(c),
                _ => buff,
            }
        } else {
            Seq::empty()
        }
    }

    /// The mode after a step from `status` on `input`: only the characters
    /// that the step consumes move it.
    pub open spec fn next_mode(
        self,
        buff: Seq<char>,
        mode: LineStatus,
        status: Status,
        input: InputChar,
    ) -> LineStatus {
        mode.track(self.eaten(buff, status, input))
    }

    /// What a step from `status` on `input` yields, with `buff` in the
    /// buffer and `mode` as the line context.
    pub open spec fn outcome(
        self,
        buff: Seq<char>,
        mode: LineStatus,
        status: Status,
        input: InputChar,
    ) -> Outcome {
        match self.target(status, input) {
            Some(next) => Outcome::GoOn(next),
            None => match lookup(self.final_status, status) {
                Some(rule) => Outcome::Final(rule.full(buff), buff, self.resume_for(mode), input),
                None => Outcome::Plain(
                    buff,
                    self.resume_for(self.next_mode(buff, mode, status, input)),
                    input,
                ),
            },
        }
    }

    /// What the end of the input yields in `status`: the token of the rule
    /// bound to it, or else the buffered text.
    pub open spec fn outcome_at_end(self, buff: Seq<char>, mode: LineStatus, status: Status) -> Outcome {
        match lookup(self.final_status, status) {
            Some(rule) => Outcome::Final(
                rule.full(buff),
                buff,
                self.resume_for(mode),
                InputChar::Eof,
            ),
            None => Outcome::Plain(buff, self.resume_for(mode), InputChar::Eof),
        }
    }
}

impl<C: TokenTrait> DFA<C> {
    /// The mode is the one that tracking the consumed text leads to.
    pub open spec fn wf(&self) -> bool {
        self.mode == LineStatus::LineStart.track(self.seen@)
    }

    /// What a run does not change.
    pub open spec fn rules(&self) -> Rules<C> {
        Rules {
            table: self.table@,
            init_status: self.init_status,
            line_start: self.line_start,
            final_status: self.final_status@,
            any_trans: self.any_trans@,
        }
    }

    /// Whether two automata have the same table, bindings and classifiers.
    pub open spec fn same_rules(&self, other: &DFA<C>) -> bool {
        self.rules() == other.rules()
    }

    /// The state that `input` leads to from `status`.
    pub open spec fn target(&self, status: Status, input: InputChar) -> Option<Status> {
        self.rules().target(status, input)
    }

    /// The state to resume in under a line-context mode.
    pub open spec fn resume_for(&self, mode: LineStatus) -> Status {
        self.rules().resume_for(mode)
    }

    /// The characters that a step from `status` on `input` consumes.
    pub open spec fn eaten(&self, status: Status, input: InputChar) -> Seq<char> {
        self.rules().eaten(self.buff@, status, input)
    }

    /// The mode after a step from `status` on `input`.
    pub open spec fn next_mode(&self, status: Status, input: InputChar) -> LineStatus {
        self.rules().next_mode(self.buff@, self.mode, status, input)
    }

    /// The buffer after a step from `status` on `input`.
    pub open spec fn next_buff(&self, status: Status, input: InputChar) -> Seq<char> {
        self.rules().next_buff(self.buff@, status, input)
    }

    /// What a step from `status` on `input` yields.
    pub open spec fn outcome(&self, status: Status, input: InputChar) -> Outcome {
        self.rules().outcome(self.buff@, self.mode, status, input)
    }

    /// What the end of the input yields in `status`.
    pub open spec fn outcome_at_end(&self, status: Status) -> Outcome {
        self.rules().outcome_at_end(self.buff@, self.mode, status)
    }

    /// An automaton with no transition, state 0 to resume in within a line
    /// and state 1 at the start of one.
    pub fn new() -> (r: DFA<C>)
        ensures
            r.wf(),
            r.table@.len() == 0,
            r.final_status@.len() == 0,
            r.any_trans@.len() == 0,
            r.buff@.len() == 0,
            r.init_status == Status(0),
            r.line_start == Status(1),
            r.mode == LineStatus::LineStart,
            r.seen@.len() == 0,
    {
        DFA {
            table: Vec::new(),
            init_status: Status(0),
            line_start: Status(1),
            final_status: Vec::new(),
            any_trans: Vec::new(),
            buff: Vec::new(),
            mode: LineStatus::LineStart,
            seen: Ghost(Seq::empty()),
        }
    }

    /// The state that `input` leads to from `status`, if any.
    fn find_target(&self, status: Status, input: &InputChar) -> (r: Option<Status>)
        ensures
            r == self.target(status, *input),
    {
        match find_tran(&self.table, status, input) {
            Some(next) => Some(next),
            None => {
                match input.as_char() {
                    Some(c) => {
                        match position(&self.any_trans, status) {
                            Some(i) => {
                                match self.any_trans[i].1.can_any(c) {
                                    Some(class) => find_tran(
                                        &self.table,
                                        status,
                                        &InputChar::Any(class),
                                    ),
                                    None => None,
                                }
                            },
                            None => None,
                        }
                    },
                    None => None,
                }
            },
        }
    }

    /// The state to resume in under the current mode.
    fn resume(&self) -> (r: Status)
        ensures
            r == self.resume_for(self.mode),
    {
        match self.mode {
            LineStatus::LineStart => self.line_start,
            LineStatus::Normal => self.init_status,
        }
    }

    /// Takes the buffer, leaving it empty.
    fn take_buff(&mut self) -> (r: Vec<char>)
        ensures
            r@ == old(self).buff@,
            final(self).buff@.len() == 0,
            final(self).same_rules(old(self)),
            final(self).mode == old(self).mode,
            final(self).seen == old(self).seen,
    {
        let mut out: Vec<char> = Vec::new();
        std::mem::swap(&mut out, &mut self.buff);
        out
    }

    /// Performs one step from `status` on `input`.
    ///
    /// While a transition exists it is taken, whether or not a rule is bound
    /// to `status`: a token ends only where the automaton cannot go on. The
    /// state to resume in is the one that a backward scan over the consumed
    /// text leads to.
    pub fn next_status(&mut self, status: Status, input: InputChar) -> (r: NextStatus)
        requires
            old(self).wf(),
        ensures
            r@ == old(self).outcome(status, input),
            final(self).same_rules(old(self)),
            final(self).buff@ == old(self).next_buff(status, input),
            final(self).mode == old(self).next_mode(status, input),
            final(self).seen@ == old(self).seen@ + old(self).eaten(status, input),
            final(self).wf(),
            match r {
                NextStatus::GoOn(_) => true,
                NextStatus::Final(_, _, resume, _) | NextStatus::Plain(_, resume, _) => resume
                    == final(self).resume_for(LineStatus::LineStart.rescan(final(self).seen@)),
            },
    {
        proof {
            lemma_track_is_rescan(
                LineStatus::LineStart,
                old(self).seen@ + old(self).eaten(status, input),
            );
            lemma_track_is_rescan(LineStatus::LineStart, old(self).seen@);
        }
        if let Some(next) = self.find_target(status, &input) {
            if let InputChar::Char(c) = input {
                self.buff.push(c);
                self.mode.update(&input);
                proof {
                    self.seen@ = self.seen@.push(c);
                    assert(old(self).seen@.push(c) =~= old(self).seen@ + seq![c]);
                    assert(self.seen@.drop_last() =~= old(self).seen@);
                    assert(seq![c].drop_last() =~= Seq::<char>::empty());
                    assert(old(self).mode.track(seq![c]) == old(self).mode.after_char(c));
                }
            } else {
                assert(old(self).seen@ + Seq::<char>::empty() =~= old(self).seen@);
                assert(old(self).mode.track(Seq::<char>::empty()) == old(self).mode);
            }
            return NextStatus::GoOn(next);
        }
        if let Some(i) = position(&self.final_status, status) {
            let resume = self.resume();
            let token = self.final_status[i].1.to_full(self.buff.as_slice());
            let lexeme = self.take_buff();
            proof {
                assert(old(self).seen@ + Seq::<char>::empty() =~= old(self).seen@);
                assert(old(self).mode.track(Seq::<char>::empty()) == old(self).mode);
            }
            return NextStatus::Final(token, lexeme, resume, input);
        }
        let empty = self.buff.len() == 0;
        let lexeme = self.take_buff();
        if empty {
            if let InputChar::Char(c) = input {
                self.mode.update(&input);
                proof {
                    self.seen@ = self.seen@.push(c);
                    assert(old(self).seen@.push(c) =~= old(self).seen@ + seq![c]);
                    assert(self.seen@.drop_last() =~= old(self).seen@);
                    assert(seq![c].drop_last() =~= Seq::<char>::empty());
                    assert(old(self).mode.track(seq![c]) == old(self).mode.after_char(c));
                }
                let resume = self.resume();
                return NextStatus::Plain(lexeme, resume, input);
            }
        }
        proof {
            assert(old(self).seen@ + Seq::<char>::empty() =~= old(self).seen@);
            assert(old(self).mode.track(Seq::<char>::empty()) == old(self).mode);
        }
        let resume = self.resume();
        NextStatus::Plain(lexeme, resume, input)
    }

    /// Ends the input in `status`: the rule bound to the state makes its
    /// token from the buffer, or else the buffer is given up as text. The
    /// buffer is empty afterwards.
    pub fn input_end(&mut self, status: Status) -> (r: NextStatus)
        requires
            old(self).wf(),
        ensures
            r@ == old(self).outcome_at_end(status),
            !(r is GoOn),
            final(self).same_rules(old(self)),
            final(self).buff@.len() == 0,
            final(self).mode == old(self).mode,
            final(self).seen == old(self).seen,
            final(self).wf(),
            match r {
                NextStatus::GoOn(_) => true,
                NextStatus::Final(_, _, resume, _) | NextStatus::Plain(_, resume, _) => resume
                    == final(self).resume_for(LineStatus::LineStart.rescan(final(self).seen@)),
            },
    {
        proof {
            lemma_track_is_rescan(LineStatus::LineStart, self.seen@);
        }
        if let Some(i) = position(&self.final_status, status) {
            let resume = self.resume();
            let token = self.final_status[i].1.to_full(self.buff.as_slice());
            let lexeme = self.take_buff();
            NextStatus::Final(token, lexeme, resume, InputChar::Eof)
        } else {
            let resume = self.resume();
            let lexeme = self.take_buff();
            NextStatus::Plain(lexeme, resume, InputChar::Eof)
        }
    }

    /// The state to resume in after `consumed`, found by walking backward
    /// over its trailing whitespace. It is the state that the incremental
    /// tracker leads to over the same text.
    pub fn reset_status(&self, consumed: &[char]) -> (r: Status)
        ensures
            r == self.resume_for(LineStatus::LineStart.rescan(consumed@)),
            r == self.resume_for(LineStatus::LineStart.track(consumed@)),
    {
        match LineStatus::LineStart.rescan_from(consumed) {
            LineStatus::LineStart => self.line_start,
            LineStatus::Normal => self.init_status,
        }
    }

    /// The state in which the next token starts.
    pub fn init(&self) -> (r: Status)
        requires
            self.wf(),
        ensures
            r == self.resume_for(self.mode),
            r == self.resume_for(LineStatus::LineStart.rescan(self.seen@)),
    {
        proof {
            lemma_track_is_rescan(LineStatus::LineStart, self.seen@);
        }
        self.resume()
    }

    /// Empties the lexeme buffer.
    pub fn reset(&mut self)
        ensures
            final(self).buff@.len() == 0,
            final(self).same_rules(old(self)),
            final(self).mode == old(self).mode,
            final(self).seen == old(self).seen,
    {
        self.buff.clear();
    }
}

} // verus!
