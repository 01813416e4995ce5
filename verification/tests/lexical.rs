use md_lexer::char_class::AnyType;
use md_lexer::dfa::builder::DFABuilder;
use md_lexer::dfa::engine::DFA;
use md_lexer::dfa::utils::AdHocCanAny;
use md_lexer::lexical::{collect_chars, LexicalLoader, Token};
use md_lexer::token_trait::{FromToken, FromTokenMeta, FullToken};
use md_lexer::tokens::{CodeSnippet, MdRule, Plain, TitleToken};
use md_lexer::wraps::InputChar;

#[test]
fn test_read_plain() {
    let input = String::from("这里是凊弦凝绝~ this is Frozen String");
    let mut lex = LexicalLoader::new(&input);

    let Token(_t, r) = lex.next_token();
    println!("token raw: {:?}", r);
    assert_eq!(r, "这里是凊弦凝绝~");
    let Token(_t, r) = lex.next_token();
    println!("token raw: {:?}", r);
    assert_eq!(r, " ");
    let Token(_t, r) = lex.next_token();
    println!("token raw: {:?}", r);
    assert_eq!(r, "this");
    let Token(_t, r) = lex.next_token();
    println!("token raw: {:?}", r);
    assert_eq!(r, " ");
    let Token(_t, r) = lex.next_token();
    println!("token raw: {:?}", r);
    assert_eq!(r, "is");
    let Token(_t, r) = lex.next_token();
    println!("token raw: {:?}", r);
    assert_eq!(r, " ");
    let Token(_t, r) = lex.next_token();
    println!("token raw: {:?}", r);
    assert_eq!(r, "Frozen");
    let Token(_t, r) = lex.next_token();
    println!("token raw: {:?}", r);
    assert_eq!(r, " ");
    let Token(_t, r) = lex.next_token();
    println!("token raw: {:?}", r);
    assert_eq!(r, "String");
    let Token(_t, r) = lex.next_token();
    println!("token raw: {:?}", r);
    assert_eq!(r, "");
}

#[test]
fn test_title_read() {
    let input="## Md解析器 ***全新版本*** 好耶 [abab](http://www.bilibili b站) emm\n\n好家伙，这么顶  \n\n";
    let mut lex = LexicalLoader::new(input);

    let Token(_t, r) = lex.next_token();
    println!("token raw: {:?}", r);
    assert_eq!(r, "##");

    let Token(_t, r) = lex.next_token();
    println!("token raw: {:?}", r);
    assert_eq!(r, " ");

    let Token(_t, r) = lex.next_token();
    println!("token raw: {:?}", r);
    assert_eq!(r, "Md解析器");

    let Token(_t, r) = lex.next_token();
    println!("token raw: {:?}", r);
    assert_eq!(r, " ");

    let Token(_t, r) = lex.next_token();
    println!("token raw: {:?}", r);
    assert_eq!(r, "*");
    let Token(_t, r) = lex.next_token();
    println!("token raw: {:?}", r);
    assert_eq!(r, "*");
    let Token(_t, r) = lex.next_token();
    println!("token raw: {:?}", r);
    assert_eq!(r, "*");

    let Token(_t, r) = lex.next_token();
    println!("token raw: {:?}", r);
    assert_eq!(r, "全新版本");

    let Token(_t, r) = lex.next_token();
    println!("token raw: {:?}", r);
    assert_eq!(r, "*");
    let Token(_t, r) = lex.next_token();
    println!("token raw: {:?}", r);
    assert_eq!(r, "*");
    let Token(_t, r) = lex.next_token();
    println!("token raw: {:?}", r);
    assert_eq!(r, "*");

    let Token(_t, r) = lex.next_token();
    println!("token raw: {:?}", r);
    assert_eq!(r, " ");

    let Token(_t, r) = lex.next_token();
    println!("token raw: {:?}", r);
    assert_eq!(r, "好耶");

    let Token(_t, r) = lex.next_token();
    println!("token raw: {:?}", r);
    assert_eq!(r, " ");

    let Token(_t, r) = lex.next_token();
    println!("token raw: {:?}", r);
    assert_eq!(r, "[");

    let Token(_t, r) = lex.next_token();
    println!("token raw: {:?}", r);
    assert_eq!(r, "abab");

    let Token(_t, r) = lex.next_token();
    println!("token raw: {:?}", r);
    assert_eq!(r, "](");

    let Token(_t, r) = lex.next_token();
    println!("token raw: {:?}", r);
    assert_eq!(r, "http://www.bilibili");

    let Token(_t, r) = lex.next_token();
    println!("token raw: {:?}", r);
    assert_eq!(r, " ");

    let Token(_t, r) = lex.next_token();
    println!("token raw: {:?}", r);
    assert_eq!(r, "b站");

    let Token(_t, r) = lex.next_token();
    println!("token raw: {:?}", r);
    assert_eq!(r, ")");

    let Token(_t, r) = lex.next_token();
    println!("token raw: {:?}", r);
    assert_eq!(r, " ");

    let Token(_t, r) = lex.next_token();
    println!("token raw: {:?}", r);
    assert_eq!(r, "emm");

    let Token(_t, r) = lex.next_token();
    println!("token raw: {:?}", r);
    assert_eq!(r, "\n");
    let Token(_t, r) = lex.next_token();
    println!("token raw: {:?}", r);
    assert_eq!(r, "\n");

    let Token(_t, r) = lex.next_token();
    println!("token raw: {:?}", r);
    assert_eq!(r, "好家伙，这么顶");

    let Token(_t, r) = lex.next_token();
    println!("token raw: {:?}", r);
    assert_eq!(r, "  \n");

    let Token(_t, r) = lex.next_token();
    println!("token raw: {:?}", r);
    assert_eq!(r, "\n");

    let Token(_t, r) = lex.next_token();
    println!("token raw: {:?}", r);
    //eof
    assert_eq!(r, "");
}

#[test]
fn test_code_snip() {
    let input = "`rust`and```rus`tc```for the ```mirai`rust````";
    let mut lex = LexicalLoader::new(input);

    let Token(t, r) = lex.next_token();
    println!("{:?} - {:?}", t.get_data("inner"), r);
    assert_eq!(
        "rust",
        String::from_token_meta(&t.get_data("inner").unwrap()).unwrap()
    );

    let Token(t, r) = lex.next_token();
    println!("{} - {:?}", t.name(), r);
    assert_eq!("and", r);

    let Token(t, r) = lex.next_token();
    println!("{:?} - {:?}", t.get_data("inner"), r);
    assert_eq!(
        "rus`tc",
        String::from_token_meta(&t.get_data("inner").unwrap()).unwrap()
    );

    let Token(t, r) = lex.next_token();
    println!("{} - {:?}", t.name(), r);
    assert_eq!("for", r);

    let Token(t, r) = lex.next_token();
    println!("{} - {:?}", t.name(), r);
    assert_eq!(" ", r);

    let Token(t, r) = lex.next_token();
    println!("{} - {:?}", t.name(), r);
    assert_eq!("the", r);

    let Token(t, r) = lex.next_token();
    println!("{} - {:?}", t.name(), r);
    assert_eq!(" ", r);

    let Token(t, r) = lex.next_token();
    println!("{:?} - {:?}", t.get_data("inner"), r);
    assert_eq!(
        "mirai`rust",
        String::from_token_meta(&t.get_data("inner").unwrap()).unwrap()
    );

    let Token(t, r) = lex.next_token();
    println!("{} - {:?}", t.name(), r);
    assert_eq!("`", r);
}

#[test]
fn test_list() {
    let input = "* abbabb\n* bbcbxx\n    12222332. abbaab\n    >> emmc?\n        codeblock";
    let mut lex = LexicalLoader::new(input);

    // 行首无序段落
    let Token(_t, r) = lex.next_token();
    println!("token raw: {:?}", r);
    assert_eq!(r, "*");

    let Token(_t, r) = lex.next_token();
    println!("token raw: {:?}", r);
    assert_eq!(r, " ");

    let Token(_t, r) = lex.next_token();
    println!("token raw: {:?}", r);
    assert_eq!(r, "abbabb");
    let Token(_t, r) = lex.next_token();
    println!("token raw: {:?}", r);
    assert_eq!(r, "\n");

    // 第二行 无序段落
    let Token(_t, r) = lex.next_token();
    println!("token raw: {:?}", r);
    assert_eq!(r, "*");

    let Token(_t, r) = lex.next_token();
    println!("token raw: {:?}", r);
    assert_eq!(r, " ");

    let Token(_t, r) = lex.next_token();
    println!("token raw: {:?}", r);
    assert_eq!(r, "bbcbxx");

    let Token(_t, r) = lex.next_token();
    println!("token raw: {:?}", r);
    assert_eq!(r, "\n");

    // 缩进段落
    let Token(_t, r) = lex.next_token();
    println!("token raw: {:?}", r);
    assert_eq!(r, "    ");
    // 有序列表
    let Token(_t, r) = lex.next_token();
    println!("token raw: {:?}", r);
    assert_eq!(r, "12222332.");

    let Token(_t, r) = lex.next_token();
    println!("token raw: {:?}", r);
    assert_eq!(r, " ");
    let Token(_t, r) = lex.next_token();
    println!("token raw: {:?}", r);
    assert_eq!(r, "abbaab");

    let Token(_t, r) = lex.next_token();
    println!("token raw: {:?}", r);
    assert_eq!(r, "\n");

    // 缩进段落
    let Token(_t, r) = lex.next_token();
    println!("token raw: {:?}", r);
    assert_eq!(r, "    ");

    //引用 二级
    let Token(_t, r) = lex.next_token();
    println!("token raw: {:?}", r);
    assert_eq!(r, ">>");

    let Token(_t, r) = lex.next_token();
    println!("token raw: {:?}", r);
    assert_eq!(r, " ");

    let Token(_t, r) = lex.next_token();
    println!("token raw: {:?}", r);
    assert_eq!(r, "emmc?");

    let Token(_t, r) = lex.next_token();
    println!("token raw: {:?}", r);
    assert_eq!(r, "\n");

    // 缩进段落
    let Token(_t, r) = lex.next_token();
    println!("token raw: {:?}", r);
    assert_eq!(r, "    ");

    // 缩进段落
    let Token(_t, r) = lex.next_token();
    println!("token raw: {:?}", r);
    assert_eq!(r, "    ");
    //二级缩进
    let Token(_t, r) = lex.next_token();
    println!("token raw: {:?}", r);
    assert_eq!(r, "codeblock");
}

// Every token up to and with the first token of the end.
fn tokens_of(input: &str) -> Vec<(String, String)> {
    let mut lex = LexicalLoader::new(input);
    drain(&mut lex)
}

fn drain(lex: &mut LexicalLoader<MdRule>) -> Vec<(String, String)> {
    let mut out: Vec<(String, String)> = Vec::new();
    loop {
        let Token(t, r) = lex.next_token();
        let end = t.name == "Eof";
        out.push((t.name.to_string(), r));
        if end {
            return out;
        }
        assert!(out.len() < 10_000);
    }
}

fn pairs(items: &[(&str, &str)]) -> Vec<(String, String)> {
    items
        .iter()
        .map(|(n, r)| (n.to_string(), r.to_string()))
        .collect()
}

#[test]
fn a_heading_line() {
    assert_eq!(
        tokens_of("## Title\n"),
        pairs(&[
            ("h2", "##"),
            ("sep_char", " "),
            ("Plain", "Title"),
            ("change_line", "\n"),
            ("Eof", "")
        ])
    );
    let mut lex = LexicalLoader::new("## Title\n");
    let Token(t, _) = lex.next_token();
    assert_eq!(TitleToken::from_token(&t), Some(TitleToken { level: 2 }));
    let Token(_, _) = lex.next_token();
    let Token(t, _) = lex.next_token();
    assert_eq!(
        Plain::from_token(&t),
        Some(Plain {
            inner: "Title".to_string()
        })
    );
}

#[test]
fn every_heading_level_has_its_name() {
    for (level, name) in [(1u8, "h1"), (2, "h2"), (3, "h3"), (4, "h4"), (5, "h5"), (6, "h6")] {
        let marks = "#".repeat(usize::from(level));
        let mut lex = LexicalLoader::new(&marks);
        let Token(t, r) = lex.next_token();
        assert_eq!(t.name, name);
        assert_eq!(r, marks);
        assert_eq!(TitleToken::from_token(&t), Some(TitleToken { level }));
    }
    // a seventh mark starts the next token
    assert_eq!(
        tokens_of("#######"),
        pairs(&[("h6", "######"), ("Plain", "#"), ("Eof", "")])
    );
}

#[test]
fn a_snippet_between_single_backticks() {
    let mut lex = LexicalLoader::new("`code`");
    let Token(t, r) = lex.next_token();
    assert_eq!(t.name, "code_snippet");
    assert_eq!(r, "`code`");
    assert_eq!(
        CodeSnippet::from_token(&t),
        Some(CodeSnippet {
            inner: "code".to_string()
        })
    );
    let Token(t, r) = lex.next_token();
    assert_eq!(t.name, "Eof");
    assert_eq!(r, "");
}

#[test]
fn a_snippet_between_fences() {
    let mut lex = LexicalLoader::new("```a`b```");
    let Token(t, r) = lex.next_token();
    assert_eq!(t.name, "code_snippet");
    assert_eq!(r, "```a`b```");
    assert_eq!(
        String::from_token_meta(&t.get_data("inner").unwrap()),
        Some("a`b".to_string())
    );
    let Token(t, _) = lex.next_token();
    assert_eq!(t.name, "Eof");
}

#[test]
fn a_list_item() {
    assert_eq!(
        tokens_of("* item\n"),
        pairs(&[
            ("unorder_list", "*"),
            ("sep_char", " "),
            ("Plain", "item"),
            ("change_line", "\n"),
            ("Eof", "")
        ])
    );
}

#[test]
fn indentation_counts_only_at_the_start_of_a_line() {
    assert_eq!(
        tokens_of("    x"),
        pairs(&[("idented", "    "), ("Plain", "x"), ("Eof", "")])
    );
    let mid = tokens_of("a    x");
    assert!(mid.iter().all(|(name, _)| name != "idented"));
    assert_eq!(
        mid,
        pairs(&[("Plain", "a"), ("Plain", "  "), ("Plain", "  x"), ("Eof", "")])
    );
    assert_eq!(
        tokens_of("a\n\tx"),
        pairs(&[
            ("Plain", "a"),
            ("change_line", "\n"),
            ("idented", "\t"),
            ("Plain", "x"),
            ("Eof", "")
        ])
    );
}

#[test]
fn the_empty_input_is_one_end() {
    assert_eq!(tokens_of(""), pairs(&[("Eof", "")]));
}

#[test]
fn the_end_is_handed_out_again_and_again() {
    for input in ["", "x", "## t\n", "`a", "  "] {
        let mut lex = LexicalLoader::new(input);
        let first = drain(&mut lex);
        assert_eq!(first.last(), Some(&("Eof".to_string(), String::new())));
        for _ in 0..3 {
            let Token(t, r) = lex.next_token();
            assert_eq!(t.name, "Eof");
            assert!(t.fields.is_empty());
            assert_eq!(r, "");
        }
    }
}

#[test]
fn the_texts_of_the_tokens_are_the_input() {
    let inputs = [
        "",
        "plain",
        "## Title\n",
        "* item\n",
        "    x",
        "a    x",
        "`rust`and```rus`tc```for the ```mirai`rust````",
        "## Md解析器 ***全新版本*** 好耶 [abab](http://www.bilibili b站) emm\n\n好家伙，这么顶  \n\n",
        "* abbabb\n* bbcbxx\n    12222332. abbaab\n    >> emmc?\n        codeblock",
        "\\# \\x \\",
        "![img](x) --- *** - -- *1. x",
        "`",
        "``",
        "```",
        "````",
        "`a\nb`",
        "  \n  ",
        "\t\t\n#\n>",
        "]( ] ) !x ![",
    ];
    for input in inputs {
        let tokens = tokens_of(input);
        // every token before the end has some text
        assert!(tokens.len() <= input.chars().count() + 1);
        assert!(tokens[..tokens.len() - 1].iter().all(|(_, r)| !r.is_empty()));
        let text: String = tokens.into_iter().map(|(_, r)| r).collect();
        assert_eq!(text, input);
    }
}

#[test]
fn escapes_and_marks() {
    let mut lex = LexicalLoader::new("\\#");
    let Token(t, r) = lex.next_token();
    assert_eq!(t.name, "Trans");
    assert_eq!(r, "\\#");
    assert_eq!(char::from_token_meta(&t.get_data("ch").unwrap()), Some('#'));
    assert_eq!(
        tokens_of("a![b](c)"),
        pairs(&[
            ("Plain", "a"),
            ("img_start", "!["),
            ("Plain", "b"),
            ("box_mid", "]("),
            ("Plain", "c"),
            ("box_end", ")"),
            ("Eof", "")
        ])
    );
    assert_eq!(
        tokens_of("---\n***\n**\n-"),
        pairs(&[
            ("SeperLine", "---"),
            ("change_line", "\n"),
            ("SeperLine", "***"),
            ("change_line", "\n"),
            ("star", "**"),
            ("change_line", "\n"),
            ("unorder_list", "-"),
            ("Eof", "")
        ])
    );
    assert_eq!(
        tokens_of("> >>>x"),
        pairs(&[
            ("refer", ">"),
            ("sep_char", " "),
            ("Plain", ">>>x"),
            ("Eof", "")
        ])
    );
    assert_eq!(
        tokens_of("*1.x"),
        pairs(&[("order_list", "*1."), ("Plain", "x"), ("Eof", "")])
    );
    assert_eq!(
        tokens_of("a  \nb"),
        pairs(&[
            ("Plain", "a"),
            ("new_param", "  \n"),
            ("Plain", "b"),
            ("Eof", "")
        ])
    );
}

#[test]
fn the_depth_of_a_quote_is_the_length_of_its_lexeme() {
    let mut lex = LexicalLoader::new(">>>");
    let Token(t, r) = lex.next_token();
    assert_eq!(t.name, "refer");
    assert_eq!(r, ">>>");
    assert_eq!(u64::from_token_meta(&t.get_data("depath").unwrap()), Some(3));
}

fn stars() -> DFA<MdRule> {
    let b: DFABuilder<MdRule> = DFABuilder::new(0, 1);
    let mut h = b.holder();
    let star = InputChar::Char('*');
    let one = h.add_tran_with_auto_next(0, star.clone());
    h.add_tran(1, star.clone(), one);
    h.set_accept_status(one, MdRule::Star);
    let two = h.add_tran_with_auto_next(one, star.clone());
    h.set_accept_status(two, MdRule::DoubleStar);
    let three = h.add_tran_with_auto_next(two, star);
    h.set_accept_status(three, MdRule::TripleStar);
    b.add_trans(h).build()
}

fn starred(input: &str) -> Vec<(String, String)> {
    let mut lex = LexicalLoader::with_dfa(collect_chars(input), stars());
    drain(&mut lex)
}

#[test]
fn the_longest_rule_wins() {
    assert_eq!(starred("***"), pairs(&[("t_star", "***"), ("Eof", "")]));
    assert_eq!(starred("**"), pairs(&[("d_star", "**"), ("Eof", "")]));
    assert_eq!(starred("*"), pairs(&[("star", "*"), ("Eof", "")]));
    assert_eq!(
        starred("****"),
        pairs(&[("t_star", "***"), ("star", "*"), ("Eof", "")])
    );
    assert_eq!(
        starred("a***b**"),
        pairs(&[
            ("Plain", "a"),
            ("t_star", "***"),
            ("Plain", "b"),
            ("d_star", "**"),
            ("Eof", "")
        ])
    );
}

#[test]
fn a_token_behind_given_up_text_waits_for_the_next_call() {
    // a rule bound to the state to resume in makes a token of no text
    let b: DFABuilder<MdRule> = DFABuilder::new(0, 1);
    let mut h = b.holder();
    h.set_accept_status(0, MdRule::Star);
    h.add_tran(1, InputChar::Char('a'), 5);
    h.add_can_any(1, AdHocCanAny::new(AnyType::Digit));
    let mut lex = LexicalLoader::with_dfa(collect_chars("x"), b.add_trans(h).build());
    // 'x' is given up at the start of the line; the end of the input then
    // ends the stream with the text
    let Token(t, r) = lex.next_token();
    assert_eq!((t.name, r.as_str()), ("Plain", "x"));
    let Token(t, r) = lex.next_token();
    assert_eq!((t.name, r.as_str()), ("Eof", ""));

    let b: DFABuilder<MdRule> = DFABuilder::new(0, 1);
    let mut h = b.holder();
    h.set_accept_status(0, MdRule::Star);
    let mut lex = LexicalLoader::with_dfa(collect_chars("xy"), b.add_trans(h).build());
    let Token(t, r) = lex.next_token();
    assert_eq!((t.name, r.as_str()), ("Plain", "x"));
    let Token(t, r) = lex.next_token();
    assert_eq!((t.name, r.as_str()), ("star", ""));
}

#[test]
fn collect_chars_keeps_every_character() {
    assert_eq!(collect_chars("a好\n"), vec!['a', '好', '\n']);
    assert!(collect_chars("").is_empty());
}
