//! The driver: it pulls characters, drives the engine and hands out one
//! token per call.

use crate::dfa::builder::{lemma_lookup_none, md_accepts, DFABuilder};
use crate::dfa::engine::{lookup, NextStatus, Outcome, Rules, DFA};
use crate::token_trait::{string_of, GenericToken, MetaValue, TokenModel, TokenTrait};
use crate::tokens::{bare, eof_token, one_field, MdRule, Plain};
use crate::wraps::{InputChar, LineStatus, Status};
use vstd::prelude::*;
use vstd::std_specs::iter::IteratorSpec;

verus! {

broadcast use vstd::string::group_string_axioms;

/// A token and the text it was read from.
#[derive(Debug, PartialEq, Eq)]
pub struct Token(pub GenericToken, pub String);

/// What a `Token` stands for.
pub ghost struct TokenText {
    pub token: TokenModel,
    pub raw: Seq<char>,
}

impl View for Token {
    type V = TokenText;

    open spec fn view(&self) -> TokenText {
        TokenText { token: self.0@, raw: self.1@ }
    }
}

/// The state of a driver between two calls.
pub ghost struct Loader {
    /// The state of the automaton.
    pub status: Status,
    /// The lexeme buffer.
    pub buff: Seq<char>,
    /// The line-context mode.
    pub mode: LineStatus,
    /// A character that was read and not consumed.
    pub to_dfa: Option<char>,
    /// The characters not read yet.
    pub rest: Seq<char>,
    /// A token that was recognised behind a run of plain text and waits for
    /// the next call.
    pub held: Option<TokenText>,
}

impl Loader {
    /// The text that no token has handed out yet.
    pub open spec fn unread(self) -> Seq<char> {
        let first = match self.held {
            Some(t) => t.raw,
            None => Seq::empty(),
        };
        let third = match self.to_dfa {
            Some(c) => seq![c],
            None => Seq::empty(),
        };
        first + self.buff + third + self.rest
    }

    /// Whether the stream is at its end: nothing is left to hand out.
    pub open spec fn done(self) -> bool {
        self.held is None && self.buff.len() == 0 && self.to_dfa is None && self.rest.len() == 0
    }
}

/// The token of a run of plain text.
pub open spec fn plain_model(text: Seq<char>) -> TokenModel {
    one_field("Plain"@, "inner"@, MetaValue::Str(text))
}

/// The token that ends every stream, with no text.
pub open spec fn eof_text() -> TokenText {
    TokenText { token: bare("Eof"@), raw: Seq::empty() }
}

/// The measure that every step of a scan lowers: the characters that the
/// automaton has not consumed count twice, a filled buffer once.
pub open spec fn steps_left(buff: Seq<char>, to_dfa: Option<char>, rest: Seq<char>) -> nat {
    let held: nat = if to_dfa is Some {
        1
    } else {
        0
    };
    let filled: nat = if buff.len() > 0 {
        1
    } else {
        0
    };
    2 * (rest.len() + held) + filled
}

/// What a scan yields at the end of the input, with `plain` as the text
/// given up so far. An empty buffer ends the stream: the text is handed out
/// if there is any, else the token of the end. A filled buffer goes to the
/// rule of the state, or is given up as text with what was given up before.
pub open spec fn scan_end<C: TokenTrait>(
    rules: Rules<C>,
    status: Status,
    buff: Seq<char>,
    mode: LineStatus,
    plain: Seq<char>,
) -> (TokenText, Loader) {
    let stay = Loader { status, buff, mode, to_dfa: None, rest: Seq::empty(), held: None };
    if buff.len() == 0 {
        if plain.len() > 0 {
            (TokenText { token: plain_model(plain), raw: plain }, stay)
        } else {
            (eof_text(), stay)
        }
    } else {
        match rules.outcome_at_end(buff, mode, status) {
            Outcome::Final(token, lexeme, resume, _) => {
                let after = Loader { status: resume, buff: Seq::empty(), ..stay };
                let found = TokenText { token, raw: lexeme };
                if plain.len() > 0 {
                    (
                        TokenText { token: plain_model(plain), raw: plain },
                        Loader { held: Some(found), ..after },
                    )
                } else {
                    (found, after)
                }
            },
            Outcome::Plain(lexeme, resume, _) => (
                TokenText { token: plain_model(plain + lexeme), raw: plain + lexeme },
                Loader { status: resume, buff: Seq::empty(), ..stay },
            ),
            Outcome::GoOn(_) => (eof_text(), stay),
        }
    }
}

/// The token that a scan yields and the state it leaves, with `plain` as
/// the text given up so far.
///
/// A character that is not consumed comes first, then the next character of
/// the input. While the automaton goes on, so does the scan; but once text
/// was given up, the first transition that is taken ends the scan, and the
/// text is handed out. A rule's token is handed out at once, or waits behind
/// the text that was given up before it. Text that the automaton gives up is
/// added to what was given up before, and the scan goes on.
pub open spec fn scan<C: TokenTrait>(
    rules: Rules<C>,
    status: Status,
    buff: Seq<char>,
    mode: LineStatus,
    to_dfa: Option<char>,
    rest: Seq<char>,
    plain: Seq<char>,
) -> (TokenText, Loader)
    decreases steps_left(buff, to_dfa, rest),
{
    if to_dfa is None && rest.len() == 0 {
        scan_end(rules, status, buff, mode, plain)
    } else {
        let c = match to_dfa {
            Some(c) => c,
            None => rest[0],
        };
        let rest1 = if to_dfa is Some {
            rest
        } else {
            rest.drop_first()
        };
        let input = InputChar::Char(c);
        let buff1 = rules.next_buff(buff, status, input);
        let mode1 = rules.next_mode(buff, mode, status, input);
        let text = TokenText { token: plain_model(plain), raw: plain };
        match rules.outcome(buff, mode, status, input) {
            Outcome::GoOn(next) => if plain.len() == 0 {
                scan(rules, next, buff1, mode1, None, rest1, plain)
            } else {
                (
                    text,
                    Loader {
                        status: next,
                        buff: buff1,
                        mode: mode1,
                        to_dfa: None,
                        rest: rest1,
                        held: None,
                    },
                )
            },
            Outcome::Final(token, lexeme, resume, _) => {
                let after = Loader {
                    status: resume,
                    buff: buff1,
                    mode: mode1,
                    to_dfa: Some(c),
                    rest: rest1,
                    held: None,
                };
                let found = TokenText { token, raw: lexeme };
                if plain.len() > 0 {
                    (text, Loader { held: Some(found), ..after })
                } else {
                    (found, after)
                }
            },
            Outcome::Plain(lexeme, resume, _) => if lexeme.len() == 0 {
                scan(rules, resume, buff1, mode1, None, rest1, plain.push(c))
            } else {
                scan(rules, resume, buff1, mode1, Some(c), rest1, plain + lexeme)
            },
        }
    }
}

/// The token that the next call yields and the state it leaves.
pub open spec fn next_of<C: TokenTrait>(rules: Rules<C>, l: Loader) -> (TokenText, Loader) {
    match l.held {
        Some(t) => (t, Loader { held: None, ..l }),
        None => scan(rules, l.status, l.buff, l.mode, l.to_dfa, l.rest, Seq::empty()),
    }
}

/// The text that a scan has before it: what was given up, the buffer, the
/// character that waits, and the rest of the input.
pub open spec fn ahead(buff: Seq<char>, to_dfa: Option<char>, rest: Seq<char>, plain: Seq<char>) -> Seq<
    char,
> {
    let waiting = match to_dfa {
        Some(c) => seq![c],
        None => Seq::empty(),
    };
    plain + buff + waiting + rest
}

/// At the end of the input a scan hands out the front of the text that it
/// has before it, and leaves the rest unread.
pub proof fn lemma_scan_end_consumes<C: TokenTrait>(
    rules: Rules<C>,
    status: Status,
    buff: Seq<char>,
    mode: LineStatus,
    plain: Seq<char>,
)
    ensures
        plain + buff == scan_end(rules, status, buff, mode, plain).0.raw + scan_end(
            rules,
            status,
            buff,
            mode,
            plain,
        ).1.unread(),
{
    let r = scan_end(rules, status, buff, mode, plain);
    let none = Seq::<char>::empty();
    if buff.len() == 0 {
        assert(buff =~= none);
        assert(r.1.unread() =~= none);
        if plain.len() > 0 {
            assert(r.0.raw == plain);
        } else {
            assert(plain =~= none);
        }
        assert(plain + buff =~= r.0.raw + r.1.unread());
    } else {
        match rules.outcome_at_end(buff, mode, status) {
            Outcome::Final(_, lexeme, _, _) => {
                assert(lexeme == buff);
                if plain.len() > 0 {
                    assert(r.0.raw == plain);
                    assert(r.1.unread() =~= buff);
                } else {
                    assert(plain =~= none);
                    assert(r.0.raw == buff);
                    assert(r.1.unread() =~= none);
                }
                assert(plain + buff =~= r.0.raw + r.1.unread());
            },
            Outcome::Plain(lexeme, _, _) => {
                assert(lexeme == buff);
                assert(r.0.raw == plain + buff);
                assert(r.1.unread() =~= none);
                assert(plain + buff =~= r.0.raw + r.1.unread());
            },
            Outcome::GoOn(_) => {},
        }
    }
}

/// While the automaton goes on and no text was given up, so does the scan.
proof fn lemma_scan_goes_on<C: TokenTrait>(
    rules: Rules<C>,
    status: Status,
    buff: Seq<char>,
    mode: LineStatus,
    to_dfa: Option<char>,
    rest: Seq<char>,
    plain: Seq<char>,
    c: char,
    next: Status,
)
    requires
        !(to_dfa is None && rest.len() == 0),
        plain.len() == 0,
        c == match to_dfa {
            Some(c) => c,
            None => rest[0],
        },
        rules.target(status, InputChar::Char(c)) == Some(next),
    ensures
        scan(rules, status, buff, mode, to_dfa, rest, plain) == scan(
            rules,
            next,
            buff.push(c),
            mode.track(seq![c]),
            None,
            if to_dfa is Some {
                rest
            } else {
                rest.drop_first()
            },
            plain,
        ),
{
    let input = InputChar::Char(c);
    assert(rules.outcome(buff, mode, status, input) == Outcome::GoOn(next));
    assert(rules.next_buff(buff, status, input) == buff.push(c));
    assert(rules.eaten(buff, status, input) == seq![c]);
    assert(rules.next_mode(buff, mode, status, input) == mode.track(seq![c]));
}

/// A scan hands out the front of the text that it has before it, and
/// leaves the rest unread.
#[verifier::rlimit(40)]
pub proof fn lemma_scan_consumes<C: TokenTrait>(
    rules: Rules<C>,
    status: Status,
    buff: Seq<char>,
    mode: LineStatus,
    to_dfa: Option<char>,
    rest: Seq<char>,
    plain: Seq<char>,
)
    ensures
        ahead(buff, to_dfa, rest, plain) == scan(rules, status, buff, mode, to_dfa, rest, plain).0.raw
            + scan(rules, status, buff, mode, to_dfa, rest, plain).1.unread(),
    decreases steps_left(buff, to_dfa, rest),
{
    let all = ahead(buff, to_dfa, rest, plain);
    let r = scan(rules, status, buff, mode, to_dfa, rest, plain);
    let none = Seq::<char>::empty();
    if to_dfa is None && rest.len() == 0 {
        assert(rest =~= none);
        assert(all =~= plain + buff);
        lemma_scan_end_consumes(rules, status, buff, mode, plain);
        assert(r == scan_end(rules, status, buff, mode, plain));
        assert(all == r.0.raw + r.1.unread());
    } else {
        let c = match to_dfa {
            Some(c) => c,
            None => rest[0],
        };
        let rest1 = if to_dfa is Some {
            rest
        } else {
            rest.drop_first()
        };
        let input = InputChar::Char(c);
        let buff1 = rules.next_buff(buff, status, input);
        let mode1 = rules.next_mode(buff, mode, status, input);
        assert(all =~= plain + buff + seq![c] + rest1);
        match rules.outcome(buff, mode, status, input) {
            Outcome::GoOn(next) => {
                assert(buff1 == buff.push(c));
                if plain.len() > 0 {
                    assert(r.0.raw == plain);
                    assert(r.1.unread() =~= buff + seq![c] + rest1);
                    assert(all =~= r.0.raw + r.1.unread());
                } else {
                    lemma_scan_goes_on(rules, status, buff, mode, to_dfa, rest, plain, c, next);
                    assert(rules.eaten(buff, status, input) == seq![c]);
                    assert(mode1 == mode.track(seq![c]));
                    lemma_scan_consumes(rules, next, buff1, mode1, None, rest1, plain);
                    assert(all =~= ahead(buff1, None, rest1, plain));
                    assert(r == scan(rules, next, buff1, mode1, None, rest1, plain));
                    assert(all == r.0.raw + r.1.unread());
                }
            },
            Outcome::Final(_, lexeme, resume, _) => {
                assert(lexeme == buff);
                assert(buff1 =~= none);
                if plain.len() > 0 {
                    assert(r.0.raw == plain);
                    assert(r.1.unread() =~= buff + seq![c] + rest1);
                } else {
                    assert(plain =~= none);
                    assert(r.0.raw == buff);
                    assert(r.1.unread() =~= seq![c] + rest1);
                }
                assert(all =~= r.0.raw + r.1.unread());
            },
            Outcome::Plain(lexeme, resume, _) => {
                assert(lexeme == buff);
                assert(buff1 =~= none);
                if lexeme.len() == 0 {
                    lemma_scan_consumes(rules, resume, buff1, mode1, None, rest1, plain.push(c));
                    assert(all =~= ahead(buff1, None, rest1, plain.push(c)));
                    assert(r == scan(rules, resume, buff1, mode1, None, rest1, plain.push(c)));
                    assert(all == r.0.raw + r.1.unread());
                } else {
                    lemma_scan_consumes(rules, resume, buff1, mode1, Some(c), rest1, plain + lexeme);
                    assert(all =~= ahead(buff1, Some(c), rest1, plain + lexeme));
                    assert(r == scan(rules, resume, buff1, mode1, Some(c), rest1, plain + lexeme));
                    assert(all == r.0.raw + r.1.unread());
                }
            },
        }
    }
}

/// Whether no rule is bound to a state to resume in, so that no token is
/// made of no text.
pub open spec fn unbound<C: TokenTrait>(rules: Rules<C>) -> bool {
    &&& lookup(rules.final_status, rules.init_status) is None
    &&& lookup(rules.final_status, rules.line_start) is None
}

/// Whether an automaton with nothing in its buffer is in a state to resume
/// in.
pub open spec fn at_rest<C: TokenTrait>(rules: Rules<C>, status: Status, buff: Seq<char>) -> bool {
    buff.len() == 0 ==> status == rules.init_status || status == rules.line_start
}

/// Whether a driver is between two tokens as a run leaves it: at rest, and
/// with text in the token that waits, if one waits.
pub open spec fn settled<C: TokenTrait>(rules: Rules<C>, l: Loader) -> bool {
    &&& at_rest(rules, l.status, l.buff)
    &&& l.held matches Some(t) ==> t.raw.len() > 0
}

/// Where no rule is bound to a state to resume in, a scan hands out some
/// text unless the stream is at its end, and leaves the driver settled.
#[verifier::rlimit(40)]
pub proof fn lemma_scan_progress<C: TokenTrait>(
    rules: Rules<C>,
    status: Status,
    buff: Seq<char>,
    mode: LineStatus,
    to_dfa: Option<char>,
    rest: Seq<char>,
    plain: Seq<char>,
)
    requires
        unbound(rules),
        at_rest(rules, status, buff),
    ensures
        settled(rules, scan(rules, status, buff, mode, to_dfa, rest, plain).1),
        scan(rules, status, buff, mode, to_dfa, rest, plain).0.raw.len() > 0 || (plain.len() == 0
            && buff.len() == 0 && to_dfa is None && rest.len() == 0),
    decreases steps_left(buff, to_dfa, rest),
{
    let r = scan(rules, status, buff, mode, to_dfa, rest, plain);
    if to_dfa is None && rest.len() == 0 {
        assert(r == scan_end(rules, status, buff, mode, plain));
        if buff.len() > 0 {
            match rules.outcome_at_end(buff, mode, status) {
                Outcome::Final(_, lexeme, resume, _) => {
                    assert(lexeme == buff);
                    assert(resume == rules.init_status || resume == rules.line_start);
                },
                Outcome::Plain(lexeme, resume, _) => {
                    assert(lexeme == buff);
                    assert(r.0.raw == plain + buff);
                    assert(resume == rules.init_status || resume == rules.line_start);
                },
                Outcome::GoOn(_) => {},
            }
        }
    } else {
        let c = match to_dfa {
            Some(c) => c,
            None => rest[0],
        };
        let rest1 = if to_dfa is Some {
            rest
        } else {
            rest.drop_first()
        };
        let input = InputChar::Char(c);
        let buff1 = rules.next_buff(buff, status, input);
        let mode1 = rules.next_mode(buff, mode, status, input);
        match rules.outcome(buff, mode, status, input) {
            Outcome::GoOn(next) => {
                assert(buff1 == buff.push(c));
                if plain.len() == 0 {
                    lemma_scan_goes_on(rules, status, buff, mode, to_dfa, rest, plain, c, next);
                    assert(rules.eaten(buff, status, input) == seq![c]);
                    assert(mode1 == mode.track(seq![c]));
                    lemma_scan_progress(rules, next, buff1, mode1, None, rest1, plain);
                    assert(r == scan(rules, next, buff1, mode1, None, rest1, plain));
                }
            },
            Outcome::Final(_, lexeme, resume, _) => {
                assert(lexeme == buff);
                assert(lookup(rules.final_status, status) is Some);
                assert(buff.len() > 0);
                assert(buff1.len() == 0);
                assert(resume == rules.init_status || resume == rules.line_start);
            },
            Outcome::Plain(lexeme, resume, _) => {
                assert(lexeme == buff);
                assert(buff1.len() == 0);
                assert(resume == rules.init_status || resume == rules.line_start);
                if lexeme.len() == 0 {
                    lemma_scan_progress(rules, resume, buff1, mode1, None, rest1, plain.push(c));
                    assert(r == scan(rules, resume, buff1, mode1, None, rest1, plain.push(c)));
                } else {
                    lemma_scan_progress(rules, resume, buff1, mode1, Some(c), rest1, plain + lexeme);
                    assert(r == scan(rules, resume, buff1, mode1, Some(c), rest1, plain + lexeme));
                }
            },
        }
    }
}

/// The state after `n` calls.
pub open spec fn after_calls<C: TokenTrait>(rules: Rules<C>, l: Loader, n: nat) -> Loader
    decreases n,
{
    if n == 0 {
        l
    } else {
        next_of(rules, after_calls(rules, l, (n - 1) as nat)).1
    }
}

/// The texts of the tokens of the first `n` calls, laid end to end.
pub open spec fn texts<C: TokenTrait>(rules: Rules<C>, l: Loader, n: nat) -> Seq<char>
    decreases n,
{
    if n == 0 {
        Seq::empty()
    } else {
        texts(rules, l, (n - 1) as nat) + next_of(
            rules,
            after_calls(rules, l, (n - 1) as nat),
        ).0.raw
    }
}

/// Total consumption: the texts of the tokens, laid end to end, and what is
/// left unread are the text that was unread at first. Once the stream is at
/// its end, the texts alone are that text.
pub proof fn lemma_total_consumption<C: TokenTrait>(rules: Rules<C>, l: Loader, n: nat)
    ensures
        l.unread() == texts(rules, l, n) + after_calls(rules, l, n).unread(),
        after_calls(rules, l, n).done() ==> l.unread() == texts(rules, l, n),
    decreases n,
{
    if n == 0 {
        assert(l.unread() =~= Seq::<char>::empty() + l.unread());
    } else {
        let before = after_calls(rules, l, (n - 1) as nat);
        lemma_total_consumption(rules, l, (n - 1) as nat);
        match before.held {
            Some(t) => {
                assert(before.unread() =~= t.raw + next_of(rules, before).1.unread());
            },
            None => {
                lemma_scan_consumes(
                    rules,
                    before.status,
                    before.buff,
                    before.mode,
                    before.to_dfa,
                    before.rest,
                    Seq::empty(),
                );
                assert(before.unread() =~= ahead(
                    before.buff,
                    before.to_dfa,
                    before.rest,
                    Seq::empty(),
                ));
            },
        }
        assert(l.unread() =~= texts(rules, l, n) + after_calls(rules, l, n).unread());
    }
    if after_calls(rules, l, n).done() {
        assert(after_calls(rules, l, n).unread() =~= Seq::<char>::empty());
        assert(l.unread() =~= texts(rules, l, n));
    }
}

/// Where no rule is bound to a state to resume in, every call before the
/// end of the stream hands out some text, so that the stream is at its end
/// after as many calls as there were characters unread.
pub proof fn lemma_stream_ends<C: TokenTrait>(rules: Rules<C>, l: Loader, n: nat)
    requires
        unbound(rules),
        settled(rules, l),
    ensures
        settled(rules, after_calls(rules, l, n)),
        after_calls(rules, l, n).done() || after_calls(rules, l, n).unread().len() + n
            <= l.unread().len(),
        n >= l.unread().len() ==> after_calls(rules, l, n).done(),
    decreases n,
{
    if n > 0 {
        let before = after_calls(rules, l, (n - 1) as nat);
        let after = after_calls(rules, l, n);
        lemma_stream_ends(rules, l, (n - 1) as nat);
        if before.done() {
            lemma_end_is_idempotent(rules, before, 1);
            assert(after == next_of(rules, before).1);
        } else {
            match before.held {
                Some(t) => {
                    assert(before.unread() =~= t.raw + after.unread());
                },
                None => {
                    lemma_scan_progress(
                        rules,
                        before.status,
                        before.buff,
                        before.mode,
                        before.to_dfa,
                        before.rest,
                        Seq::empty(),
                    );
                    lemma_scan_consumes(
                        rules,
                        before.status,
                        before.buff,
                        before.mode,
                        before.to_dfa,
                        before.rest,
                        Seq::empty(),
                    );
                    assert(before.unread() =~= ahead(
                        before.buff,
                        before.to_dfa,
                        before.rest,
                        Seq::empty(),
                    ));
                },
            }
        }
    }
    let last = after_calls(rules, l, n);
    if n >= l.unread().len() && !last.done() {
        assert(last.unread().len() == 0);
        assert(last.unread() =~= Seq::<char>::empty());
        assert(last.buff.len() == 0 && last.rest.len() == 0 && last.to_dfa is None);
    }
}

/// The state of a driver over `input` with the automaton of the markup
/// language, before the first call.
pub open spec fn md_start(input: Seq<char>) -> Loader {
    Loader {
        status: Status(1),
        buff: Seq::empty(),
        mode: LineStatus::LineStart,
        to_dfa: None,
        rest: input,
        held: None,
    }
}

/// With the rules of the markup language every input is read to its end:
/// after as many calls as the input has characters the stream is at its
/// end, and the texts of the tokens, laid end to end, are the input.
pub proof fn lemma_markdown_is_read_to_the_end(input: Seq<char>)
    ensures
        after_calls(DFABuilder::md_rules_of(), md_start(input), input.len()).done(),
        texts(DFABuilder::md_rules_of(), md_start(input), input.len()) == input,
{
    let rules = DFABuilder::md_rules_of();
    let l = md_start(input);
    lemma_lookup_none(md_accepts(), Status(0));
    lemma_lookup_none(md_accepts(), Status(1));
    assert(unbound(rules));
    assert(l.unread() =~= input);
    lemma_stream_ends(rules, l, input.len());
    lemma_total_consumption(rules, l, input.len());
}

/// The end is idempotent: at the end of the stream every call yields the
/// token of the end and leaves the stream at its end.
pub proof fn lemma_end_is_idempotent<C: TokenTrait>(rules: Rules<C>, l: Loader, n: nat)
    requires
        l.done(),
    ensures
        after_calls(rules, l, n) == l,
        next_of(rules, after_calls(rules, l, n)) == (eof_text(), l),
    decreases n,
{
    if n > 0 {
        lemma_end_is_idempotent(rules, l, (n - 1) as nat);
    }
    assert(l.rest =~= Seq::<char>::empty());
    assert(l.buff =~= Seq::<char>::empty());
}

/// Turns a character stream into tokens, one per call.
pub struct LexicalLoader<C> {
    /// The characters of the source.
    pub input: Vec<char>,
    /// How many of them were read.
    pub at: usize,
    /// The automaton.
    pub dfa: DFA<C>,
    /// The state of the automaton.
    pub status: Status,
    /// A symbol that was read and not consumed.
    pub to_dfa: Option<InputChar>,
    /// A token that waits for the next call.
    pub held: Option<Token>,
}

/// The characters of a string, in order.
pub fn collect_chars(input: &str) -> (r: Vec<char>)
    ensures
        r@ == input@,
{
    let mut it = input.chars();
    let mut out: Vec<char> = Vec::new();
    assert(Seq::<char>::empty() + it.remaining() =~= input@);
    loop
        invariant
            input@ == out@ + it.remaining(),
            it.decrease() is Some,
        ensures
            out@ == input@,
        decreases it.decrease()->0,
    {
        let ghost before = it.remaining();
        match it.next() {
            Some(c) => {
                out.push(c);
                assert(out@ + it.remaining() =~= input@) by {
                    assert(before =~= seq![c] + before.drop_first());
                }
            },
            None => {
                assert(out@ + it.remaining() =~= out@);
                break ;
            },
        }
    }
    out
}

impl LexicalLoader<MdRule> {
    /// A driver over `input` with the automaton of the markup language.
    pub fn new(input: &str) -> (r: LexicalLoader<MdRule>)
        ensures
            r.wf(),
            r@ == md_start(input@),
            r.dfa.rules() == DFABuilder::md_rules_of(),
    {
        let text = collect_chars(input);
        let dfa = DFABuilder::init();
        let r = LexicalLoader::with_dfa(text, dfa);
        assert(r@.buff =~= Seq::empty());
        r
    }
}

impl<C: TokenTrait> View for LexicalLoader<C> {
    type V = Loader;

    open spec fn view(&self) -> Loader {
        Loader {
            status: self.status,
            buff: self.dfa.buff@,
            mode: self.dfa.mode,
            to_dfa: match self.to_dfa {
                Some(InputChar::Char(c)) => Some(c),
                _ => None,
            },
            rest: self.input@.skip(self.at as int),
            held: match self.held {
                Some(t) => Some(t@),
                None => None,
            },
        }
    }
}

impl<C: TokenTrait> LexicalLoader<C> {
    /// The automaton is well formed, a symbol that waits is a character,
    /// and the place in the source lies within it.
    pub open spec fn wf(&self) -> bool {
        &&& self.dfa.wf()
        &&& self.to_dfa matches Some(i) ==> i is Char
        &&& self.at <= self.input@.len()
    }

    /// A driver over `input` with an automaton of one's own. The first
    /// token starts in the state that the automaton resumes in.
    pub fn with_dfa(input: Vec<char>, dfa: DFA<C>) -> (r: LexicalLoader<C>)
        requires
            dfa.wf(),
        ensures
            r.wf(),
            r.dfa == dfa,
            r@ == (Loader {
                status: dfa.resume_for(dfa.mode),
                buff: dfa.buff@,
                mode: dfa.mode,
                to_dfa: None,
                rest: input@,
                held: None,
            }),
    {
        let status = dfa.init();
        let r = LexicalLoader { input, at: 0, dfa, status, to_dfa: None, held: None };
        assert(r@.rest =~= input@);
        r
    }

    /// The next symbol: the one that waits, else the next character of the
    /// input, else the mark of the end.
    fn next_char(&mut self) -> (r: InputChar)
        requires
            old(self).wf(),
        ensures
            final(self).wf(),
            final(self).dfa == old(self).dfa,
            final(self).input == old(self).input,
            final(self).status == old(self).status,
            final(self).held == old(self).held,
            final(self).to_dfa is None,
            match old(self)@.to_dfa {
                Some(c) => r == InputChar::Char(c) && final(self)@.rest == old(self)@.rest,
                None => if old(self)@.rest.len() > 0 {
                    r == InputChar::Char(old(self)@.rest[0]) && final(self)@.rest == old(
                        self,
                    )@.rest.drop_first()
                } else {
                    r == InputChar::Eof && final(self)@.rest == old(self)@.rest
                },
            },
    {
        match self.to_dfa.take() {
            Some(c) => c,
            None => {
                if self.at < self.input.len() {
                    let c: char = self.input[self.at];
                    self.at = self.at + 1;
                    assert(self.input@.skip(self.at as int) =~= old(self)@.rest.drop_first());
                    InputChar::Char(c)
                } else {
                    InputChar::Eof
                }
            },
        }
    }

    /// The token of the text given up so far.
    fn plain_token(plain: &Vec<char>) -> (r: Token)
        ensures
            r@ == (TokenText { token: plain_model(plain@), raw: plain@ }),
    {
        Token(Plain::new_box(plain.as_slice()), string_of(plain.as_slice()))
    }

    /// One step of a scan, with `plain` as the text given up so far: the
    /// token if the scan ends with this step, else nothing, and the scan
    /// goes on from the state and the text that the step leaves.
    fn step(&mut self, plain: &mut Vec<char>) -> (r: Option<Token>)
        requires
            old(self).wf(),
            old(self).held is None,
        ensures
            final(self).wf(),
            final(self).dfa.same_rules(&old(self).dfa),
            final(self).input == old(self).input,
            scan(
                old(self).dfa.rules(),
                old(self).status,
                old(self).dfa.buff@,
                old(self).dfa.mode,
                old(self)@.to_dfa,
                old(self)@.rest,
                old(plain)@,
            ) == match r {
                Some(t) => (t@, final(self)@),
                None => scan(
                    old(self).dfa.rules(),
                    final(self).status,
                    final(self).dfa.buff@,
                    final(self).dfa.mode,
                    final(self)@.to_dfa,
                    final(self)@.rest,
                    final(plain)@,
                ),
            },
            old(plain)@ + old(self)@.unread() == match r {
                Some(t) => t@.raw + final(self)@.unread(),
                None => final(plain)@ + final(self)@.unread(),
            },
            r is None ==> final(self).held is None && steps_left(
                final(self).dfa.buff@,
                final(self)@.to_dfa,
                final(self)@.rest,
            ) < steps_left(old(self).dfa.buff@, old(self)@.to_dfa, old(self)@.rest),
            old(self)@.done() && old(plain)@.len() == 0 ==> (r matches Some(t) && t@ == eof_text()
                && final(self)@.done()),
    {
        let ghost here = self@;
        let ghost before = plain@;
        let sym = self.next_char();
        let c: char = match sym {
            InputChar::Char(c) => c,
            _ => {
                return Some(self.finish(plain));
            },
        };
        proof {
            if here.to_dfa is None {
                assert(here.rest =~= seq![c] + self@.rest);
            }
        }
        let out = self.dfa.next_status(self.status, InputChar::Char(c));
        match out {
            NextStatus::GoOn(next) => {
                self.status = next;
                assert(here.unread() =~= self@.unread());
                if plain.len() > 0 {
                    let text = Self::plain_token(plain);
                    return Some(text);
                }
                None
            },
            NextStatus::Final(token, lexeme, resume, back) => {
                self.status = resume;
                self.to_dfa = Some(back);
                let found = Token(token, string_of(lexeme.as_slice()));
                assert(here.unread() =~= found@.raw + self@.unread());
                if plain.len() > 0 {
                    self.held = Some(found);
                    assert(here.unread() =~= self@.unread());
                    let text = Self::plain_token(plain);
                    return Some(text);
                }
                assert(before + here.unread() =~= found@.raw + self@.unread());
                Some(found)
            },
            NextStatus::Plain(lexeme, resume, back) => {
                self.status = resume;
                if lexeme.len() == 0 {
                    plain.push(c);
                    assert(before + here.unread() =~= plain@ + self@.unread());
                } else {
                    let mut lexeme = lexeme;
                    plain.append(&mut lexeme);
                    self.to_dfa = Some(back);
                    assert(before + here.unread() =~= plain@ + self@.unread());
                }
                None
            },
        }
    }

    /// The last step of a scan, at the end of the input.
    fn finish(&mut self, plain: &mut Vec<char>) -> (r: Token)
        requires
            old(self).wf(),
            old(self).held is None,
            old(self)@.to_dfa is None,
            old(self)@.rest.len() == 0,
        ensures
            final(self).wf(),
            final(self).dfa.same_rules(&old(self).dfa),
            final(self).input == old(self).input,
            (r@, final(self)@) == scan_end(
                old(self).dfa.rules(),
                old(self).status,
                old(self).dfa.buff@,
                old(self).dfa.mode,
                old(plain)@,
            ),
            old(plain)@ + old(self)@.unread() == r@.raw + final(self)@.unread(),
            old(self)@.done() && old(plain)@.len() == 0 ==> r@ == eof_text() && final(self)@.done(),
    {
        let ghost here = self@;
        let ghost before = plain@;
        assert(self@.rest =~= Seq::<char>::empty());
        if self.dfa.buff.len() == 0 {
            assert(here.unread() =~= Seq::<char>::empty());
            assert(before + here.unread() =~= before);
            if plain.len() > 0 {
                let text = Self::plain_token(plain);
                return text;
            }
            let end = Token(eof_token(), String::new());
            return end;
        }
        let out = self.dfa.input_end(self.status);
        match out {
            NextStatus::Final(token, lexeme, resume, _) => {
                self.status = resume;
                let found = Token(token, string_of(lexeme.as_slice()));
                assert(here.unread() =~= found@.raw + self@.unread());
                if plain.len() > 0 {
                    self.held = Some(found);
                    assert(here.unread() =~= self@.unread());
                    let text = Self::plain_token(plain);
                    return text;
                }
                assert(before + here.unread() =~= found@.raw + self@.unread());
                found
            },
            NextStatus::Plain(lexeme, resume, _) => {
                self.status = resume;
                let mut lexeme = lexeme;
                plain.append(&mut lexeme);
                assert(before + here.unread() =~= plain@ + self@.unread());
                Self::plain_token(plain)
            },
            NextStatus::GoOn(_) => Token(eof_token(), String::new()),
        }
    }

    /// The next token.
    ///
    /// The texts of the tokens, laid end to end, are the source: each call
    /// hands out the front of what was not handed out before. At the end of
    /// the stream every call yields the token of the end.
    pub fn next_token(&mut self) -> (r: Token)
        requires
            old(self).wf(),
        ensures
            final(self).wf(),
            final(self).dfa.same_rules(&old(self).dfa),
            final(self).input == old(self).input,
            (r@, final(self)@) == next_of(old(self).dfa.rules(), old(self)@),
            old(self)@.unread() == r@.raw + final(self)@.unread(),
            old(self)@.done() ==> r@ == eof_text() && final(self)@.done(),
    {
        let ghost rules = self.dfa.rules();
        let ghost start = self@;
        match self.held.take() {
            Some(t) => {
                assert(start.unread() =~= t@.raw + self@.unread());
                return t;
            },
            None => {},
        }
        let mut plain: Vec<char> = Vec::new();
        assert(start.unread() =~= plain@ + self@.unread());
        let mut found: Option<Token> = None;
        while found.is_none()
            invariant
                self.wf(),
                self.dfa.rules() == rules,
                self.input == old(self).input,
                start.held is None,
                match found {
                    Some(t) => {
                        &&& (t@, self@) == next_of(rules, start)
                        &&& start.unread() == t@.raw + self@.unread()
                        &&& start.done() ==> t@ == eof_text() && self@.done()
                    },
                    None => {
                        &&& self.held is None
                        &&& next_of(rules, start) == scan(
                            rules,
                            self.status,
                            self.dfa.buff@,
                            self.dfa.mode,
                            self@.to_dfa,
                            self@.rest,
                            plain@,
                        )
                        &&& start.unread() == plain@ + self@.unread()
                        &&& start.done() ==> self@.done() && plain@.len() == 0
                    },
                },
            decreases
                    if found is None {
                        1 + steps_left(self.dfa.buff@, self@.to_dfa, self@.rest)
                    } else {
                        0
                    },
        {
            found = self.step(&mut plain);
        }
        found.unwrap()
    }
}

} // verus!
