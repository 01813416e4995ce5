use md_lexer::char_class::AnyType;
use md_lexer::dfa::builder::{md_rules, DFABuilder};
use md_lexer::dfa::engine::{find_tran, position, NextStatus, DFA};
use md_lexer::dfa::trans_holder::TransHolder;
use md_lexer::dfa::utils::AdHocCanAny;
use md_lexer::tokens::MdRule;
use md_lexer::utils::counter::Counter;
use md_lexer::wraps::{InputChar, LineStatus, Status};

fn lit(c: char) -> InputChar {
    InputChar::Char(c)
}

fn indented() -> DFA<MdRule> {
    let b: DFABuilder<MdRule> = DFABuilder::new(0, 1);
    let mut h = b.holder();
    let i = ' ';
    let mut next = h.add_tran_with_auto_next(1, i.into());
    next = h.add_tran_with_auto_next(next, i.into());
    next = h.add_tran_with_auto_next(next, i.into());
    next = h.add_tran_with_auto_next(next, i.into());
    next = h.add_tran(1, '\t'.into(), next);
    h.set_accept_status(next, MdRule::Idented);
    b.add_trans(h).build()
}

// Four spaces at the start of a line. The state to resume in follows the
// line context: after nothing but whitespace the line is still at its start.
#[test]
fn dfa_test_builder() {
    let mut dfa = indented();
    let mut init = dfa.init();
    let mut last = None;

    println!("{:?}", &init);

    let mut iter = vec![' ', ' ', ' ', ' ', 'a'].into_iter();
    loop {
        let input = if let Some(c) = last {
            last = None;
            c
        } else if let Some(input) = iter.next() {
            input
        } else {
            break;
        };

        println!("{:?}", &input);
        match dfa.next_status(init, input.into()) {
            NextStatus::GoOn(go) => {
                println!("{:?}", &go);
                init = go;
            }
            NextStatus::Final(r, _, ns, i) => {
                assert_eq!("idented", r.name);
                assert_eq!(i, InputChar::Char('a'));
                assert_eq!(ns, Status(1));
                assert_eq!(init, Status(5));
                if let InputChar::Char(c) = i {
                    last = Some(c);
                }
                println!("{:?}", ns);
                init = ns;
            }
            NextStatus::Plain(p, s, i) => {
                assert_eq!(input, 'a');

                assert_eq!(p, vec![]);
                assert_eq!(s, Status(0));
                assert_eq!(i, InputChar::Char('a'));
            }
        }
    }

    let end = dfa.input_end(init);
    if let NextStatus::Plain(p, s, i) = end {
        assert_eq!(p, vec![]);
        assert_eq!(s, Status(0));
        assert_eq!(i, InputChar::Eof);
    } else {
        unreachable!()
    }
}

// A tab and then three spaces: the tab is an indentation, the three spaces
// are given up when the letter comes.
#[test]
fn builder_test_builder() {
    let mut dfa = indented();
    let mut init = dfa.init();
    let mut last = None;

    println!("init {:?}", &init);

    let mut iter = vec!['\t', ' ', ' ', ' ', 'a'].into_iter();
    loop {
        let input = if let Some(c) = last {
            last = None;
            c
        } else if let Some(input) = iter.next() {
            input
        } else {
            break;
        };

        println!(" input {:?}", &input);
        match dfa.next_status(init, input.into()) {
            NextStatus::GoOn(go) => {
                println!("next {:?}", &go);
                init = go;
            }
            NextStatus::Final(_r, _, ns, i) => {
                assert_eq!(i, InputChar::Char(' '));
                assert_eq!(ns, Status(1));
                assert_eq!(init, Status(5));
                if let InputChar::Char(c) = i {
                    last = Some(c);
                }
                println!("{:?}", ns);
                init = ns;
            }
            NextStatus::Plain(p, s, i) => {
                assert_eq!(input, 'a');

                assert_eq!(p, vec![' ', ' ', ' ']);
                assert_eq!(s, Status(1));
                assert_eq!(i, InputChar::Char('a'));
            }
        }
    }

    let end = dfa.input_end(init);
    if let NextStatus::Plain(p, s, i) = end {
        assert_eq!(p, vec![]);
        assert_eq!(s, Status(1));
        assert_eq!(i, InputChar::Eof);
    } else {
        unreachable!()
    }
}

#[test]
fn builder_test_full_dfa() {
    let dfa = DFABuilder::init();

    println!("{:?}", dfa.table);
    println!("{:?}", dfa.final_status);
    println!("{:?}", dfa.any_trans);
    assert_eq!(dfa.init_status, Status(0));
    assert_eq!(dfa.line_start, Status(1));
    assert_eq!(dfa.table.len(), 65);
    assert_eq!(dfa.table[0], ((Status(0), InputChar::LineStart), Status(1)));
    assert_eq!(dfa.final_status.len(), 26);
    assert_eq!(dfa.any_trans.len(), 6);
    assert!(dfa.buff.is_empty());
    assert_eq!(dfa.mode, LineStatus::LineStart);
}

#[test]
fn core_test_reset_status() {
    let dfa: DFA<MdRule> = DFA::new();
    // read a Idented  still in the line start
    let res = dfa.reset_status(&['a', '\n', ' ', ' ', ' ', ' ']);
    assert_eq!(res, dfa.line_start);

    // read a Ident \t is line start
    let res = dfa.reset_status(&['a', '\n', '\t']);
    assert_eq!(res, dfa.line_start);

    // read 2 mixed ident is line start
    let res = dfa.reset_status(&['a', '\n', '\t', ' ', ' ', ' ', ' ']);
    assert_eq!(res, dfa.line_start);

    let res = dfa.reset_status(&['a', '\n', ' ', ' ', ' ', ' ', '\t']);
    assert_eq!(res, dfa.line_start);

    // read title sign ,not a line start
    let res = dfa.reset_status(&['a', '\n', '#', ' ']);
    assert_eq!(res, dfa.init_status);

    // end with \n is line start
    let res = dfa.reset_status(&['a', ' ', ' ', '\n']);
    assert_eq!(res, dfa.line_start);

    // empty buff is line start
    let res = dfa.reset_status(&[]);
    assert_eq!(res, dfa.line_start);
}

#[test]
fn a_new_automaton_is_empty() {
    let dfa: DFA<MdRule> = DFA::new();
    assert!(dfa.table.is_empty());
    assert!(dfa.final_status.is_empty());
    assert!(dfa.any_trans.is_empty());
    assert!(dfa.buff.is_empty());
    assert_eq!(dfa.init_status, Status(0));
    assert_eq!(dfa.line_start, Status(1));
    assert_eq!(dfa.init(), Status(1));
}

#[test]
fn the_counter_counts_upward_and_stops_at_the_top() {
    let mut c = Counter::new();
    assert_eq!(c, Counter(0));
    assert_eq!(c.next(), Some(0));
    assert_eq!(c.next(), Some(1));
    assert_eq!(c, Counter(2));
    let mut d = Counter::init(usize::MAX - 1);
    assert_eq!(d.next(), Some(usize::MAX - 1));
    assert_eq!(d.next(), None);
    assert_eq!(d.next(), None);
    assert_eq!(d, Counter(usize::MAX));
}

#[test]
fn the_first_registration_of_a_transition_stays() {
    let mut h: TransHolder<MdRule> = TransHolder::new(10);
    assert_eq!(h.get_counter(), 10);
    assert_eq!(h.add_tran(1, lit('a'), 5), 5);
    assert_eq!(h.add_tran(1, lit('a'), 6), 5);
    assert_eq!(h.add_tran_with_auto_next(1, lit('a')), 5);
    // the fresh id is used up although the transition was there
    assert_eq!(h.get_counter(), 11);
    assert_eq!(h.add_tran_with_auto_next(1, lit('b')), 11);
    assert_eq!(h.add_tran(2, InputChar::Any(AnyType::Digit), 7), 7);
    assert_eq!(h.add_tran(2, InputChar::Any(AnyType::Digit), 8), 7);
    assert_eq!(
        h.trans,
        vec![
            ((Status(1), lit('a')), Status(5)),
            ((Status(1), lit('b')), Status(11)),
            ((Status(2), InputChar::Any(AnyType::Digit)), Status(7))
        ]
    );
    assert_eq!(find_tran(&h.trans, Status(1), &lit('b')), Some(Status(11)));
    assert_eq!(find_tran(&h.trans, Status(1), &lit('c')), None);
}

#[test]
fn characters_and_classes_register_alike() {
    let mut h: TransHolder<MdRule> = TransHolder::new(4);
    assert_eq!(h.add_normal_tran(1, 'a', 2), 2);
    assert_eq!(h.add_normal_tran(1, 'a', 3), 2);
    assert_eq!(h.add_normal_tran_with_auto_next(1, 'b'), 4);
    assert_eq!(h.add_normal_tran_with_auto_next(1, 'b'), 4);
    assert_eq!(h.add_any_tran(1, AnyType::Digit, 2), 2);
    assert_eq!(h.add_any_tran(1, AnyType::Digit, 3), 2);
    assert_eq!(h.add_any_tran_with_auto_next(1, AnyType::Alphabet), 6);
    assert_eq!(h.add_any_tran_with_auto_next(1, AnyType::Alphabet), 6);
    assert_eq!(h.get_counter(), 8);
    assert_eq!(
        h.trans,
        vec![
            ((Status(1), lit('a')), Status(2)),
            ((Status(1), lit('b')), Status(4)),
            ((Status(1), InputChar::Any(AnyType::Digit)), Status(2)),
            ((Status(1), InputChar::Any(AnyType::Alphabet)), Status(6))
        ]
    );
}

#[test]
fn a_later_binding_or_classifier_replaces_the_earlier() {
    let b: DFABuilder<MdRule> = DFABuilder::new(0, 1);
    let mut h = b.holder();
    h.add_tran(0, lit('a'), 2);
    h.add_tran(2, InputChar::Any(AnyType::Digit), 3);
    h.add_tran(2, InputChar::Any(AnyType::Alphabet), 4);
    h.set_accept_status(2, MdRule::Star);
    h.set_accept_status(2, MdRule::SepChar);
    h.add_can_any(2, AdHocCanAny::new(AnyType::Digit));
    h.add_can_any(2, AdHocCanAny::new(AnyType::Alphabet));
    assert_eq!(position(&h.ac_status, Status(2)), Some(1));
    assert_eq!(position(&h.ac_status, Status(3)), None);
    let mut dfa = b.add_trans(h).build();
    assert_eq!(dfa.next_status(Status(0), lit('a')), NextStatus::GoOn(Status(2)));
    // the second classifier counts: a digit does not leave the state
    match dfa.next_status(Status(2), lit('1')) {
        NextStatus::Final(token, lexeme, _, back) => {
            assert_eq!(token.name, "sep_char");
            assert_eq!(lexeme, vec!['a']);
            assert_eq!(back, lit('1'));
        }
        other => panic!("{:?}", other),
    }
    assert_eq!(dfa.next_status(Status(0), lit('a')), NextStatus::GoOn(Status(2)));
    assert_eq!(dfa.next_status(Status(2), lit('x')), NextStatus::GoOn(Status(4)));
}

#[test]
fn merging_keeps_the_transitions_that_the_automaton_has() {
    let b: DFABuilder<MdRule> = DFABuilder::new(3, 7);
    assert_eq!(b.init_count, 7);
    assert_eq!(
        b.inner.table,
        vec![((Status(3), InputChar::LineStart), Status(7))]
    );
    let mut h = b.holder();
    assert_eq!(h.get_counter(), 8);
    assert_eq!(h.add_tran_with_auto_next(3, lit('a')), 8);
    h.add_tran(3, InputChar::LineStart, 9);
    let b = b.add_trans(h);
    assert_eq!(b.init_count, 9);
    let mut h = b.holder();
    assert_eq!(h.get_counter(), 10);
    h.add_tran(3, lit('a'), 11);
    h.add_tran(3, lit('b'), 12);
    let dfa = b.add_trans(h).build();
    assert_eq!(
        dfa.table,
        vec![
            ((Status(3), InputChar::LineStart), Status(7)),
            ((Status(3), lit('a')), Status(8)),
            ((Status(3), lit('b')), Status(12))
        ]
    );
    assert_eq!(dfa.init_status, Status(3));
    assert_eq!(dfa.line_start, Status(7));
}

#[test]
fn a_literal_transition_goes_before_a_class() {
    let b: DFABuilder<MdRule> = DFABuilder::new(0, 1);
    let mut h = b.holder();
    let by_literal = h.add_tran_with_auto_next(1, lit('0'));
    let by_class = h.add_tran_with_auto_next(1, InputChar::Any(AnyType::Digit));
    h.add_can_any(1, AdHocCanAny::new(AnyType::Digit));
    let mut dfa = b.add_trans(h).build();
    assert_ne!(by_literal, by_class);
    assert_eq!(
        dfa.next_status(Status(1), lit('0')),
        NextStatus::GoOn(Status(by_literal))
    );
    assert_eq!(
        dfa.next_status(Status(1), lit('5')),
        NextStatus::GoOn(Status(by_class))
    );
}

#[test]
fn a_step_consumes_gives_up_or_accepts() {
    let mut dfa = indented();
    // nothing in the buffer and no way on: the character itself is given up
    match dfa.next_status(Status(1), lit('x')) {
        NextStatus::Plain(p, s, i) => {
            assert!(p.is_empty());
            assert_eq!(s, Status(0));
            assert_eq!(i, lit('x'));
        }
        other => panic!("{:?}", other),
    }
    assert_eq!(dfa.mode, LineStatus::Normal);
    assert_eq!(dfa.next_status(Status(1), lit('\t')), NextStatus::GoOn(Status(5)));
    assert_eq!(dfa.buff, vec!['\t']);
    dfa.reset();
    assert!(dfa.buff.is_empty());
    // a line break that no rule takes still opens a line
    match dfa.next_status(Status(0), lit('\n')) {
        NextStatus::Plain(p, s, _) => {
            assert!(p.is_empty());
            assert_eq!(s, Status(1));
        }
        other => panic!("{:?}", other),
    }
    // the end of the input in an accept state
    assert_eq!(dfa.next_status(Status(1), lit('\t')), NextStatus::GoOn(Status(5)));
    match dfa.input_end(Status(5)) {
        NextStatus::Final(token, lexeme, resume, back) => {
            assert_eq!(token.name, "idented");
            assert_eq!(lexeme, vec!['\t']);
            assert_eq!(resume, Status(1));
            assert_eq!(back, InputChar::Eof);
        }
        other => panic!("{:?}", other),
    }
    assert!(dfa.buff.is_empty());
}

// The rules of the markup language, registered one by one.
fn registered() -> TransHolder<MdRule> {
    let mut h: TransHolder<MdRule> = TransHolder::new(2);
    let c = '#';
    let mut next = h.add_tran_with_auto_next(1, lit(c));
    h.set_accept_status(next, MdRule::Title1);
    next = h.add_tran_with_auto_next(next, lit(c));
    h.set_accept_status(next, MdRule::Title2);
    next = h.add_tran_with_auto_next(next, lit(c));
    h.set_accept_status(next, MdRule::Title3);
    next = h.add_tran_with_auto_next(next, lit(c));
    h.set_accept_status(next, MdRule::Title4);
    next = h.add_tran_with_auto_next(next, lit(c));
    h.set_accept_status(next, MdRule::Title5);
    next = h.add_tran_with_auto_next(next, lit(c));
    h.set_accept_status(next, MdRule::Title6);
    next = h.add_tran_with_auto_next(1, lit('>'));
    next = h.add_tran(next, lit('>'), next);
    h.set_accept_status(next, MdRule::Reference);
    next = h.add_tran_with_auto_next(0, lit('['));
    next = h.add_tran(1, lit('['), next);
    h.set_accept_status(next, MdRule::LinkStart);
    next = h.add_tran_with_auto_next(0, lit('!'));
    next = h.add_tran(1, lit('!'), next);
    next = h.add_tran_with_auto_next(next, lit('['));
    h.set_accept_status(next, MdRule::ImgStart);
    next = h.add_tran_with_auto_next(0, lit(']'));
    next = h.add_tran_with_auto_next(next, lit('('));
    h.set_accept_status(next, MdRule::BoxMid);
    next = h.add_tran_with_auto_next(0, lit(')'));
    h.set_accept_status(next, MdRule::BoxEnd);
    next = h.add_tran_with_auto_next(1, lit('-'));
    let m1 = next;
    next = h.add_tran_with_auto_next(1, lit('*'));
    let m2 = next;
    h.set_accept_status(m1, MdRule::UnorderList);
    h.set_accept_status(m2, MdRule::UnorderList);
    h.add_can_any(next, AdHocCanAny::new(AnyType::Digit));
    next = h.add_tran_with_auto_next(next, InputChar::Any(AnyType::Digit));
    next = h.add_tran_with_auto_next(next, lit('.'));
    h.set_accept_status(next, MdRule::OrderList);
    next = h.add_tran_with_auto_next(1, lit('-'));
    next = h.add_tran_with_auto_next(next, lit('-'));
    next = h.add_tran_with_auto_next(next, lit('-'));
    h.set_accept_status(next, MdRule::SepLine);
    next = h.add_tran_with_auto_next(1, lit('*'));
    next = h.add_tran_with_auto_next(next, lit('*'));
    next = h.add_tran_with_auto_next(next, lit('*'));
    h.set_accept_status(next, MdRule::SepLine);
    next = h.add_tran_with_auto_next(0, lit('*'));
    h.set_accept_status(next, MdRule::Star);
    next = h.add_tran(1, lit('*'), next);
    next = h.add_tran_with_auto_next(next, lit('*'));
    h.set_accept_status(next, MdRule::Star);
    next = h.add_tran_with_auto_next(0, lit(' '));
    h.set_accept_status(next, MdRule::SepChar);
    next = h.add_tran_with_auto_next(0, lit('\n'));
    next = h.add_tran(1, lit('\n'), next);
    h.set_accept_status(next, MdRule::ChangeLine);
    next = h.add_tran_with_auto_next(0, lit(' '));
    next = h.add_tran_with_auto_next(next, lit(' '));
    next = h.add_tran_with_auto_next(next, lit('\n'));
    h.set_accept_status(next, MdRule::NewParam);
    next = h.add_tran_with_auto_next(1, lit(' '));
    next = h.add_tran_with_auto_next(next, lit(' '));
    next = h.add_tran_with_auto_next(next, lit(' '));
    next = h.add_tran_with_auto_next(next, lit(' '));
    next = h.add_tran(1, lit('\t'), next);
    h.set_accept_status(next, MdRule::Idented);
    next = h.add_tran_with_auto_next(0, lit('\\'));
    next = h.add_tran(1, lit('\\'), next);
    let ts = next;
    next = h.add_tran_with_auto_next(next, lit('\\'));
    for c in ['#', '`', '-', '-', '{', '}', '[', ']', '(', ')', '+', '.', '!', '|'] {
        next = h.add_tran(ts, lit(c), next);
    }
    h.set_accept_status(next, MdRule::Trans);
    next = h.add_tran_with_auto_next(0, lit('`'));
    next = h.add_tran(1, lit('`'), next);
    let inner_start = next;
    next = h.add_tran_with_auto_next(next, lit('`'));
    let inner_end = next;
    h.set_accept_status(next, MdRule::CodeSnippet);
    h.add_can_any(inner_start, AdHocCanAny::new(!AnyType::Char('\n')));
    next = h.add_tran_with_auto_next(inner_start, InputChar::Any(!AnyType::Char('\n')));
    h.add_can_any(next, AdHocCanAny::new(AnyType::Any));
    next = h.add_tran(next, InputChar::Any(AnyType::Any), next);
    next = h.add_tran_with_auto_next(next, lit('`'));
    h.set_accept_status(next, MdRule::CodeSnippet);
    next = h.add_tran_with_auto_next(inner_end, lit('`'));
    h.add_can_any(next, AdHocCanAny::new(AnyType::Any));
    next = h.add_tran(next, InputChar::Any(AnyType::Any), next);
    let inner = next;
    next = h.add_tran_with_auto_next(next, lit('`'));
    h.add_can_any(next, AdHocCanAny::new(AnyType::Any));
    h.add_tran(next, InputChar::Any(AnyType::Any), inner);
    next = h.add_tran_with_auto_next(next, lit('`'));
    h.add_can_any(next, AdHocCanAny::new(AnyType::Any));
    h.add_tran(next, InputChar::Any(AnyType::Any), inner);
    next = h.add_tran_with_auto_next(next, lit('`'));
    h.set_accept_status(next, MdRule::CodeSnippet);
    h
}

#[test]
fn the_rule_set_is_what_registering_the_rules_one_by_one_gives() {
    let by_hand = registered();
    let rules = md_rules();
    assert_eq!(by_hand.trans, rules.trans);
    assert_eq!(by_hand.ac_status, rules.ac_status);
    assert_eq!(by_hand.any_trans, rules.any_trans);
    assert_eq!(by_hand.counter, rules.counter);
    let b: DFABuilder<MdRule> = DFABuilder::new(0, 1);
    let built = b.add_trans(by_hand).build();
    let dfa = DFABuilder::init();
    assert_eq!(built.table, dfa.table);
    assert_eq!(built.final_status, dfa.final_status);
    assert_eq!(built.any_trans, dfa.any_trans);
}
