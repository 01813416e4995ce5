use md_lexer::char_class::AnyType;
use md_lexer::dfa::engine::NextStatus;
use md_lexer::lexical::{LexicalLoader, Token};
use md_lexer::nfa::compile::{CompileError, DState};
use md_lexer::nfa::{has_state, insert_state, into_no_conflict, MacroNfa};
use md_lexer::tokens::MdRule;
use md_lexer::wraps::{InputChar, Status};

#[test]
fn test_bitand() {
    let mut a = MacroNfa::new(0, 1);
    a.add_trans((0, Some(' ')), 2);
    a.add_trans((2, Some(' ')), 1);

    let mut b = MacroNfa::new(0, 1);
    b.add_trans((0, Some('a')), 2);
    b.add_trans((2, Some('b')), 1);

    let c = a & b;

    println!("{:#?}", c);
}

#[test]
fn test_bitor() {
    let mut a = MacroNfa::new(0, 1);
    a.add_trans((0, Some(' ')), 2);
    a.add_trans((2, Some(' ')), 1);

    let mut b = MacroNfa::new(0, 1);
    b.add_trans((0, Some('b')), 2);
    b.add_trans((2, Some('a')), 1);

    let e = a | (b);

    println!("{:#?}", e);
}

#[test]
fn test_conbin() {
    let mut a = MacroNfa::new(0, 1);
    a.add_trans((0, Some(' ')), 2);
    a.add_trans((2, Some(' ')), 1);

    let mut b = MacroNfa::new(0, 1);
    b.add_trans((0, Some('b')), 2);
    b.add_trans((2, Some('a')), 1);

    let mut c = MacroNfa::new(0, 1);
    c.add_trans((0, Some('#')), 2);
    c.add_trans((2, Some('#')), 1);

    let t = b & c;
    let e = a | (t);

    println!("{:#?}", e);
}

fn word(first: char, second: char) -> MacroNfa {
    let mut a = MacroNfa::new(0, 1);
    a.add_trans((0, Some(first)), 2);
    a.add_trans((2, Some(second)), 1);
    a
}

fn lit(c: char) -> InputChar {
    InputChar::Char(c)
}

#[test]
fn states_are_kept_in_ascending_order() {
    let mut s: Vec<usize> = Vec::new();
    for x in [5usize, 1, 3, 5, 0, 3, 9] {
        insert_state(&mut s, x);
    }
    assert_eq!(s, vec![0, 1, 3, 5, 9]);
    assert!(has_state(&s, 3));
    assert!(!has_state(&s, 4));
}

#[test]
fn add_trans_records_states_symbols_and_edges() {
    let mut a = MacroNfa::new(0, 1);
    assert!(a.status_set.is_empty());
    a.add_trans((4, Some('x')), 2);
    a.add_trans((2, None), 7);
    a.add_trans((2, None), 4);
    a.add_trans((4, Some('y')), 2);
    a.add_class_trans(2, AnyType::Digit, 7);
    assert_eq!(a.status_set, vec![2, 4, 7]);
    assert_eq!(
        a.input_set,
        vec![lit('x'), lit('y'), InputChar::Any(AnyType::Digit)]
    );
    assert_eq!(
        a.trans_table,
        vec![
            ((4, lit('x')), 2),
            ((4, lit('y')), 2),
            ((2, InputChar::Any(AnyType::Digit)), 7)
        ]
    );
    assert_eq!(a.none_trans_table, vec![(2, 7), (2, 4)]);
    assert_eq!(a.start, 0);
    assert_eq!(a.final_status, 1);
}

#[test]
fn a_second_edge_for_the_same_state_and_symbol_replaces_the_first() {
    let mut a = MacroNfa::new(0, 1);
    a.add_trans((0, Some('x')), 2);
    a.add_trans((0, Some('y')), 3);
    a.add_trans((0, Some('x')), 1);
    assert_eq!(a.trans_table, vec![((0, lit('x')), 1), ((0, lit('y')), 3)]);
    assert_eq!(a.input_set, vec![lit('x'), lit('y')]);
    assert_eq!(a.status_set, vec![0, 1, 2, 3]);
}

#[test]
fn atom_has_two_states_and_one_edge() {
    let a = MacroNfa::atom(lit('q'));
    assert_eq!(a.start, 0);
    assert_eq!(a.final_status, 1);
    assert_eq!(a.status_set, vec![0, 1]);
    assert_eq!(a.trans_table, vec![((0, lit('q')), 1)]);
    assert!(a.none_trans_table.is_empty());
    assert_eq!(a.input_set, vec![lit('q')]);
}

#[test]
fn colliding_states_get_fresh_ids_in_ascending_order() {
    let a = word(' ', ' ');
    let b = word('a', 'b');
    assert_eq!(a.max_status_id(&b), 3);
    let map = a.generate_conflict_map(&b);
    assert_eq!(map, vec![(0, 3), (1, 4), (2, 5)]);
    assert_eq!(into_no_conflict(&0, &map), 3);
    assert_eq!(into_no_conflict(&2, &map), 5);
    assert_eq!(into_no_conflict(&9, &map), 9);

    let mut c = MacroNfa::new(7, 8);
    c.add_trans((7, Some('x')), 1);
    c.add_trans((1, Some('y')), 8);
    assert_eq!(a.max_status_id(&c), 9);
    assert_eq!(a.generate_conflict_map(&c), vec![(1, 9)]);
    let empty = MacroNfa::new(0, 1);
    assert_eq!(empty.max_status_id(&MacroNfa::new(0, 1)), 1);
    assert!(empty.generate_conflict_map(&a).is_empty());
}

#[test]
fn conbin_trans_adds_the_renumbered_edges() {
    let mut a = word(' ', ' ');
    let mut b = word('a', 'b');
    b.add_trans((1, None), 0);
    let map = a.generate_conflict_map(&b);
    a.conbin_trans(&b, &map);
    assert_eq!(
        a.trans_table,
        vec![
            ((0, lit(' ')), 2),
            ((2, lit(' ')), 1),
            ((3, lit('a')), 5),
            ((5, lit('b')), 4)
        ]
    );
    assert_eq!(a.none_trans_table, vec![(4, 3)]);
    assert_eq!(a.status_set, vec![0, 1, 2, 3, 4, 5]);
    assert_eq!(a.start, 0);
    assert_eq!(a.final_status, 1);
}

#[test]
fn concatenation_joins_accept_to_start() {
    let c = word(' ', ' ') & word('a', 'b');
    assert_eq!(c.start, 0);
    assert_eq!(c.final_status, 4);
    assert_eq!(c.status_set, vec![0, 1, 2, 3, 4, 5]);
    assert_eq!(
        c.trans_table,
        vec![
            ((0, lit(' ')), 2),
            ((2, lit(' ')), 1),
            ((3, lit('a')), 5),
            ((5, lit('b')), 4)
        ]
    );
    assert_eq!(c.none_trans_table, vec![(1, 3)]);
    assert_eq!(c.input_set, vec![lit(' '), lit('a'), lit('b')]);
    assert_eq!(c, word(' ', ' ').concat(word('a', 'b')));
}

#[test]
fn alternation_adds_a_start_and_an_accept() {
    let e = word(' ', ' ') | word('b', 'a');
    assert_eq!(e.start, 6);
    assert_eq!(e.final_status, 7);
    assert_eq!(e.status_set, vec![0, 1, 2, 3, 4, 5, 6, 7]);
    assert_eq!(
        e.trans_table,
        vec![
            ((0, lit(' ')), 2),
            ((2, lit(' ')), 1),
            ((3, lit('b')), 5),
            ((5, lit('a')), 4)
        ]
    );
    assert_eq!(e.none_trans_table, vec![(6, 0), (6, 3), (1, 7), (4, 7)]);
    assert_eq!(e, word(' ', ' ').alt(word('b', 'a')));
}

#[test]
fn combining_equal_fragments_gives_equal_tables() {
    let one = (word('a', 'b') & word('c', 'd')) | word('e', 'f');
    let two = (word('a', 'b') & word('c', 'd')) | word('e', 'f');
    assert_eq!(one, two);
    let t1 = one.compile(MdRule::Star).unwrap();
    let t2 = two.compile(MdRule::Star).unwrap();
    assert_eq!(t1.table, t2.table);
    assert_eq!(t1.final_status, t2.final_status);
    assert_eq!(t1.any_trans, t2.any_trans);
    assert_eq!(t1.init_status, t2.init_status);
    assert_eq!(t1.line_start, t2.line_start);
}

#[test]
fn the_empty_input_is_followed_to_the_end() {
    let mut a = MacroNfa::new(0, 1);
    a.add_trans((0, None), 2);
    a.add_trans((2, None), 3);
    a.add_trans((3, None), 0);
    a.add_trans((4, None), 5);
    a.add_trans((5, Some('x')), 1);
    let mut set: Vec<usize> = vec![0];
    a.extand_set(&mut set);
    assert_eq!(set, vec![0, 2, 3]);
    let mut other: Vec<usize> = vec![4];
    a.extand_set(&mut other);
    assert_eq!(other, vec![4, 5]);
    let mut none: Vec<usize> = Vec::new();
    a.extand_set(&mut none);
    assert!(none.is_empty());
    // edges that run against the order of their registration
    let mut b = MacroNfa::new(0, 1);
    b.add_trans((3, None), 4);
    b.add_trans((2, None), 3);
    b.add_trans((1, None), 2);
    b.add_trans((0, None), 1);
    let mut all: Vec<usize> = vec![0];
    b.extand_set(&mut all);
    assert_eq!(all, vec![0, 1, 2, 3, 4]);
    assert_eq!(DState::new(&all).nfas, all);
}

#[test]
fn an_atom_compiles_to_one_transition() {
    let dfa = MacroNfa::atom(lit('a')).compile(MdRule::Star).unwrap();
    assert_eq!(dfa.table, vec![((Status(0), lit('a')), Status(1))]);
    assert_eq!(dfa.final_status, vec![(Status(1), MdRule::Star)]);
    assert!(dfa.any_trans.is_empty());
    assert_eq!(dfa.init_status, Status(0));
    assert_eq!(dfa.line_start, Status(0));
    assert!(dfa.buff.is_empty());
}

#[test]
fn an_alternation_compiles_to_subsets() {
    // "ab" or "ac": the two first edges merge into one deterministic state
    let nfa = word('a', 'b') | word('a', 'c');
    let dfa = nfa.compile(MdRule::Star).unwrap();
    assert_eq!(
        dfa.table,
        vec![
            ((Status(0), lit('a')), Status(1)),
            ((Status(1), lit('b')), Status(2)),
            ((Status(1), lit('c')), Status(3))
        ]
    );
    assert_eq!(
        dfa.final_status,
        vec![(Status(2), MdRule::Star), (Status(3), MdRule::Star)]
    );
}

#[test]
fn a_compiled_table_drives_the_engine() {
    let nfa = word('a', 'b') | word('a', 'c');
    let mut dfa = nfa.compile(MdRule::Star).unwrap();
    let first = dfa.next_status(dfa.init(), lit('a'));
    assert_eq!(first, NextStatus::GoOn(Status(1)));
    assert_eq!(dfa.next_status(Status(1), lit('c')), NextStatus::GoOn(Status(3)));
    match dfa.next_status(Status(3), lit('x')) {
        NextStatus::Final(token, lexeme, resume, back) => {
            assert_eq!(token.name, "star");
            assert_eq!(lexeme, vec!['a', 'c']);
            assert_eq!(resume, Status(0));
            assert_eq!(back, lit('x'));
        }
        other => panic!("{:?}", other),
    }
}

#[test]
fn a_compiled_table_drives_the_lexer() {
    let nfa = (word('a', 'b') & word('c', 'd')) | word('a', 'x');
    let dfa = nfa.compile(MdRule::DoubleStar).unwrap();
    let mut lex = LexicalLoader::with_dfa("abcd-ax-ab".chars().collect(), dfa);
    let mut got: Vec<(String, String)> = Vec::new();
    loop {
        let Token(t, r) = lex.next_token();
        if t.name == "Eof" {
            break;
        }
        got.push((t.name.to_string(), r));
    }
    let want: Vec<(String, String)> = vec![
        ("d_star".to_string(), "abcd".to_string()),
        ("Plain".to_string(), "-".to_string()),
        ("d_star".to_string(), "ax".to_string()),
        ("Plain".to_string(), "-".to_string()),
        ("Plain".to_string(), "ab".to_string()),
    ];
    assert_eq!(got, want);
}

#[test]
fn classes_stay_edges_and_get_a_classifier() {
    let mut nfa = MacroNfa::new(0, 1);
    nfa.add_class_trans(0, AnyType::Digit, 2);
    nfa.add_class_trans(0, AnyType::Char('x'), 2);
    nfa.add_trans((2, Some('.')), 1);
    let mut dfa = nfa.compile(MdRule::OrderList).unwrap();
    assert_eq!(
        dfa.table,
        vec![
            ((Status(0), InputChar::Any(AnyType::Digit)), Status(1)),
            ((Status(0), InputChar::Any(AnyType::Char('x'))), Status(1)),
            ((Status(1), lit('.')), Status(2))
        ]
    );
    assert_eq!(dfa.any_trans.len(), 1);
    assert_eq!(dfa.any_trans[0].0, Status(0));
    assert_eq!(
        dfa.any_trans[0].1.handle,
        AnyType::Digit | AnyType::Char('x')
    );
    assert_eq!(dfa.next_status(Status(0), lit('7')), NextStatus::GoOn(Status(1)));
    assert_eq!(dfa.next_status(Status(0), lit('x')), NextStatus::GoOn(Status(1)));
}

#[test]
fn a_disjunction_becomes_one_edge_for_each_operand() {
    let mut nfa = MacroNfa::new(0, 1);
    nfa.add_class_trans(0, AnyType::Digit | (AnyType::Char('x') | AnyType::Char('y')), 1);
    assert_eq!(
        nfa.trans_table,
        vec![
            ((0, InputChar::Any(AnyType::Digit)), 1),
            ((0, InputChar::Any(AnyType::Char('x'))), 1),
            ((0, InputChar::Any(AnyType::Char('y'))), 1)
        ]
    );
    let mut dfa = nfa.compile(MdRule::Star).unwrap();
    assert_eq!(dfa.next_status(Status(0), lit('y')), NextStatus::GoOn(Status(1)));
    assert_eq!(dfa.next_status(Status(0), lit('3')), NextStatus::GoOn(Status(1)));
    match dfa.next_status(Status(0), lit('z')) {
        NextStatus::Plain(text, _, _) => assert_eq!(text, vec!['y', '3']),
        other => panic!("{:?}", other),
    }
}

#[test]
fn a_fragment_whose_accept_state_is_out_of_reach_has_no_table() {
    let mut nfa = MacroNfa::new(0, 5);
    nfa.add_trans((0, Some('a')), 1);
    nfa.add_trans((4, Some('b')), 5);
    match nfa.compile(MdRule::Star) {
        Err(e) => assert_eq!(e, CompileError::NoAcceptReachable),
        Ok(_) => panic!("the accept state cannot be reached"),
    }
    let bare = MacroNfa::new(0, 1);
    assert!(bare.compile(MdRule::Star).is_err());
    // a fragment that accepts at its start has a table with no transition
    let trivial = MacroNfa::new(3, 3);
    let dfa = trivial.compile(MdRule::Star).unwrap();
    assert!(dfa.table.is_empty());
    assert_eq!(dfa.final_status, vec![(Status(0), MdRule::Star)]);
}
