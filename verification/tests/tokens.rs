use md_lexer::schema::{MetaKind, TokenSchema};
use md_lexer::token_trait::{
    FromToken, FromTokenMeta, FullToken, GenericToken, IntoTokenMeta, Number, TokenMeta,
    TokenTrait,
};
use md_lexer::tokens::{
    bare_token, eof_token, read_field, title_token, CodeSnippet, FullTrans, MdRule, PartRef,
    Plain, Reference, TitleToken, Trans,
};

fn mock_schema() -> TokenSchema {
    let mut schema = TokenSchema::new("mcok");
    schema.register_field("mock", MetaKind::U8);
    schema.register_field("inner", MetaKind::Str);
    schema
}

#[test]
fn test_token_name() {
    let schema = mock_schema();
    let mt = GenericToken {
        name: "mcok",
        fields: vec![
            ("mock", 4u8.into_token_meta()),
            ("inner", String::from("abab").into_token_meta()),
        ],
    };

    assert_eq!("mcok", mt.name());
    assert_eq!("mcok", schema.token_name());

    let mock = mt.get_data("mock");
    println!("{:?}", mock);
    assert!(mock.is_some());

    let mock = mt.get_data("inner");
    println!("{:?}", mock);
    assert!(mock.is_some());

    let all = mt.get_all_name();
    println!("{:?}", all);
    assert_eq!(vec!["mock", "inner"], all);
    assert_eq!(vec!["mock", "inner"], schema.get_all_name());

    let boxy: GenericToken = GenericToken::of(&mt);

    let from_box = schema.from_token(&boxy);

    assert!(from_box.is_some());
    println!("{:?}", from_box);
    assert_eq!(from_box, Some(mt));
}

#[test]
fn a_schema_reads_each_field_under_its_kind() {
    let schema = mock_schema();
    // fields in another order, a field more, a number too wide for its kind
    let src = GenericToken {
        name: "mcok",
        fields: vec![
            ("inner", TokenMeta::Str("x".to_string())),
            ("more", TokenMeta::Bool(true)),
            ("mock", TokenMeta::Num(Number::P(0x1_04))),
        ],
    };
    assert_eq!(
        schema.from_token(&src),
        Some(GenericToken {
            name: "mcok",
            fields: vec![
                ("mock", TokenMeta::Num(Number::P(4))),
                ("inner", TokenMeta::Str("x".to_string())),
            ],
        })
    );
    let other_name = GenericToken {
        name: "mock",
        fields: src.fields.clone(),
    };
    assert_eq!(schema.from_token(&other_name), None);
    let missing = GenericToken {
        name: "mcok",
        fields: vec![("mock", TokenMeta::Num(Number::P(4)))],
    };
    assert_eq!(schema.from_token(&missing), None);
    let wrong_kind = GenericToken {
        name: "mcok",
        fields: vec![
            ("mock", TokenMeta::Num(Number::N(4))),
            ("inner", TokenMeta::Str("x".to_string())),
        ],
    };
    assert_eq!(schema.from_token(&wrong_kind), None);
    assert_eq!(
        TokenSchema::new("unit").from_token(&bare_token("unit")),
        Some(bare_token("unit"))
    );
}

#[test]
fn kinds_convert_as_their_types_do() {
    let p = TokenMeta::Num(Number::P(0x1234_5678_9abc_def0));
    assert_eq!(MetaKind::U8.convert(&p), Some(TokenMeta::Num(Number::P(0xf0))));
    assert_eq!(MetaKind::U16.convert(&p), Some(TokenMeta::Num(Number::P(0xdef0))));
    assert_eq!(
        MetaKind::U32.convert(&p),
        Some(TokenMeta::Num(Number::P(0x9abc_def0)))
    );
    assert_eq!(MetaKind::U64.convert(&p), Some(p.clone()));
    assert_eq!(MetaKind::I64.convert(&p), None);
    let n = TokenMeta::Num(Number::N(0x1_80));
    assert_eq!(MetaKind::I8.convert(&n), Some(TokenMeta::Num(Number::N(-128))));
    assert_eq!(MetaKind::I16.convert(&n), Some(n.clone()));
    assert_eq!(MetaKind::I32.convert(&n), Some(n.clone()));
    assert_eq!(MetaKind::I64.convert(&n), Some(n.clone()));
    assert_eq!(MetaKind::U8.convert(&n), None);
    let short = TokenMeta::Num(Number::FShort(1.5f32.to_bits()));
    let long = TokenMeta::Num(Number::F(1.5f64.to_bits()));
    assert_eq!(MetaKind::FShort.convert(&short), Some(short.clone()));
    assert_eq!(MetaKind::FShort.convert(&long), None);
    assert_eq!(MetaKind::F.convert(&long), Some(long.clone()));
    assert_eq!(MetaKind::F.convert(&short), None);
    assert_eq!(
        MetaKind::Bool.convert(&TokenMeta::Bool(true)),
        Some(TokenMeta::Bool(true))
    );
    assert_eq!(MetaKind::Bool.convert(&p), None);
    assert_eq!(
        MetaKind::Char.convert(&TokenMeta::Char('c')),
        Some(TokenMeta::Char('c'))
    );
    assert_eq!(MetaKind::Char.convert(&TokenMeta::Bool(true)), None);
    assert_eq!(
        MetaKind::Str.convert(&TokenMeta::Str("s".to_string())),
        Some(TokenMeta::Str("s".to_string()))
    );
    assert_eq!(MetaKind::Str.convert(&TokenMeta::Char('c')), None);
    let list = TokenMeta::Vec(vec![
        TokenMeta::Num(Number::P(0x101)),
        TokenMeta::Bool(true),
        TokenMeta::Num(Number::P(2)),
    ]);
    assert_eq!(
        MetaKind::List(Box::new(MetaKind::U8)).convert(&list),
        Some(TokenMeta::Vec(vec![
            TokenMeta::Num(Number::P(1)),
            TokenMeta::Num(Number::P(2))
        ]))
    );
    assert_eq!(
        MetaKind::List(Box::new(MetaKind::Str)).convert(&list),
        Some(TokenMeta::Vec(vec![]))
    );
    assert_eq!(MetaKind::List(Box::new(MetaKind::U8)).convert(&p), None);
    assert_eq!(MetaKind::U8.convert(&list), None);
    let kind = MetaKind::List(Box::new(MetaKind::List(Box::new(MetaKind::Char))));
    assert_eq!(kind.clone(), kind);
}

#[test]
fn integers_widen_on_the_way_in() {
    assert_eq!(200u8.into_token_meta(), TokenMeta::Num(Number::P(200)));
    assert_eq!(60_000u16.into_token_meta(), TokenMeta::Num(Number::P(60_000)));
    assert_eq!(
        4_000_000_000u32.into_token_meta(),
        TokenMeta::Num(Number::P(4_000_000_000))
    );
    assert_eq!(u64::MAX.into_token_meta(), TokenMeta::Num(Number::P(u64::MAX)));
    assert_eq!((-5i8).into_token_meta(), TokenMeta::Num(Number::N(-5)));
    assert_eq!((-300i16).into_token_meta(), TokenMeta::Num(Number::N(-300)));
    assert_eq!((-70_000i32).into_token_meta(), TokenMeta::Num(Number::N(-70_000)));
    assert_eq!(i64::MIN.into_token_meta(), TokenMeta::Num(Number::N(i64::MIN)));
}

#[test]
fn integers_narrow_to_their_low_bits_on_the_way_out() {
    let big = TokenMeta::Num(Number::P(0x01ff));
    let p = TokenMeta::Num(Number::P(0x1234_5678_9abc_def0));
    assert_eq!(u8::from_token_meta(&p), Some(0xf0));
    assert_eq!(u16::from_token_meta(&p), Some(0xdef0));
    assert_eq!(u32::from_token_meta(&p), Some(0x9abc_def0));
    assert_eq!(u64::from_token_meta(&p), Some(0x1234_5678_9abc_def0));
    assert_eq!(u8::from_token_meta(&big), Some(0xff));
    assert_eq!(u8::from_token_meta(&TokenMeta::Num(Number::P(4))), Some(4));
    let n = TokenMeta::Num(Number::N(-2));
    assert_eq!(i8::from_token_meta(&n), Some(-2));
    assert_eq!(i16::from_token_meta(&n), Some(-2));
    assert_eq!(i32::from_token_meta(&n), Some(-2));
    assert_eq!(i64::from_token_meta(&n), Some(-2));
    let wide = TokenMeta::Num(Number::N(0x1_80));
    assert_eq!(i8::from_token_meta(&wide), Some(-128));
    assert_eq!(i16::from_token_meta(&wide), Some(384));
}

#[test]
fn a_value_of_another_kind_is_not_read() {
    let p = TokenMeta::Num(Number::P(1));
    let n = TokenMeta::Num(Number::N(1));
    let f = TokenMeta::Num(Number::F(1.5f64.to_bits()));
    assert_eq!(i8::from_token_meta(&p), None);
    assert_eq!(i64::from_token_meta(&p), None);
    assert_eq!(u8::from_token_meta(&n), None);
    assert_eq!(u64::from_token_meta(&n), None);
    assert_eq!(u64::from_token_meta(&f), None);
    assert_eq!(bool::from_token_meta(&p), None);
    assert_eq!(char::from_token_meta(&p), None);
    assert_eq!(String::from_token_meta(&p), None);
    assert_eq!(Vec::<u8>::from_token_meta(&p), None);
    assert_eq!(u8::from_token_meta(&TokenMeta::Bool(true)), None);
    assert_eq!(u8::from_token_meta(&TokenMeta::Char('1')), None);
    assert_eq!(u8::from_token_meta(&TokenMeta::Str("1".to_string())), None);
    assert_eq!(u8::from_token_meta(&TokenMeta::Vec(vec![])), None);
}

#[test]
fn the_other_kinds_come_back_as_they_went_in() {
    assert_eq!(true.into_token_meta(), TokenMeta::Bool(true));
    assert_eq!(bool::from_token_meta(&TokenMeta::Bool(false)), Some(false));
    assert_eq!('好'.into_token_meta(), TokenMeta::Char('好'));
    assert_eq!(char::from_token_meta(&TokenMeta::Char('x')), Some('x'));
    assert_eq!(
        "abc".to_string().into_token_meta(),
        TokenMeta::Str("abc".to_string())
    );
    assert_eq!(
        String::from_token_meta(&TokenMeta::Str("abc".to_string())),
        Some("abc".to_string())
    );
}

#[test]
fn floats_are_held_by_their_bits() {
    let short = TokenMeta::Num(Number::FShort(1.5f32.to_bits()));
    let long = TokenMeta::Num(Number::F((-0.25f64).to_bits()));
    match short {
        TokenMeta::Num(Number::FShort(bits)) => assert_eq!(f32::from_bits(bits), 1.5f32),
        _ => unreachable!(),
    }
    match long {
        TokenMeta::Num(Number::F(bits)) => assert_eq!(f64::from_bits(bits), -0.25f64),
        _ => unreachable!(),
    }
    assert_ne!(
        TokenMeta::Num(Number::FShort(0)),
        TokenMeta::Num(Number::P(0))
    );
}

#[test]
fn lists_convert_element_by_element() {
    let list = vec![1u8, 2, 3].into_token_meta();
    assert_eq!(
        list,
        TokenMeta::Vec(vec![
            TokenMeta::Num(Number::P(1)),
            TokenMeta::Num(Number::P(2)),
            TokenMeta::Num(Number::P(3))
        ])
    );
    assert_eq!(Vec::<u8>::from_token_meta(&list), Some(vec![1, 2, 3]));
    assert_eq!(Vec::<u64>::from_token_meta(&list), Some(vec![1, 2, 3]));
    let nested = vec![vec!['a', 'b'], vec![], vec!['c']].into_token_meta();
    assert_eq!(
        Vec::<Vec<char>>::from_token_meta(&nested),
        Some(vec![vec!['a', 'b'], vec![], vec!['c']])
    );
    assert_eq!(Vec::<String>::new().into_token_meta(), TokenMeta::Vec(vec![]));
}

#[test]
fn elements_that_do_not_convert_are_dropped() {
    let mixed = TokenMeta::Vec(vec![
        TokenMeta::Num(Number::P(1)),
        TokenMeta::Str("x".to_string()),
        TokenMeta::Num(Number::N(2)),
        TokenMeta::Num(Number::P(3)),
        TokenMeta::Bool(true),
    ]);
    assert_eq!(Vec::<u8>::from_token_meta(&mixed), Some(vec![1, 3]));
    assert_eq!(Vec::<i8>::from_token_meta(&mixed), Some(vec![2]));
    assert_eq!(Vec::<String>::from_token_meta(&mixed), Some(vec!["x".to_string()]));
    assert_eq!(Vec::<char>::from_token_meta(&mixed), Some(vec![]));
    assert_eq!(mixed.clone(), mixed);
}

#[test]
fn a_generic_token_is_looked_up_by_field_name() {
    let t = GenericToken {
        name: "pair",
        fields: vec![
            ("left", TokenMeta::Num(Number::P(1))),
            ("right", TokenMeta::Bool(true)),
            ("left", TokenMeta::Num(Number::P(2))),
        ],
    };
    assert_eq!(t.name(), "pair");
    assert_eq!(t.get_data("left"), Some(TokenMeta::Num(Number::P(1))));
    assert_eq!(t.get_data("right"), Some(TokenMeta::Bool(true)));
    assert_eq!(t.get_data("middle"), None);
    assert_eq!(t.get_all_name(), vec!["left", "right", "left"]);
    assert_eq!(
        t.all_data(),
        vec![
            ("left", TokenMeta::Num(Number::P(1))),
            ("right", TokenMeta::Bool(true)),
            ("left", TokenMeta::Num(Number::P(1)))
        ]
    );
    assert_eq!(t.clone(), t);
    assert_eq!(read_field::<u8>(&t, "left"), Some(1));
    assert_eq!(read_field::<u8>(&t, "right"), None);
    assert_eq!(read_field::<bool>(&t, "right"), Some(true));
    assert_eq!(read_field::<bool>(&t, "none"), None);
}

#[test]
fn typed_tokens_show_their_fields() {
    let p = Plain::new(&['h', 'i']);
    assert_eq!(p.inner, "hi");
    assert_eq!(p.name(), "Plain");
    assert_eq!(p.get_all_name(), vec!["inner"]);
    assert_eq!(p.get_data("inner"), Some(TokenMeta::Str("hi".to_string())));
    assert_eq!(p.get_data("outer"), None);
    assert_eq!(p.all_data(), vec![("inner", TokenMeta::Str("hi".to_string()))]);
    assert_eq!(Plain::token_name(), "Plain");
    let boxed = Plain::new_box(&['h', 'i']);
    assert_eq!(boxed, GenericToken::of(&p));
    assert_eq!(boxed.name, "Plain");
    assert_eq!(Plain::from_token(&boxed), Some(p));

    let c = CodeSnippet {
        inner: "x".to_string(),
    };
    assert_eq!(c.name(), "code_snippet");
    assert_eq!(CodeSnippet::token_name(), "code_snippet");
    assert_eq!(c.get_data("inner"), Some(TokenMeta::Str("x".to_string())));
    assert_eq!(c.get_all_name(), vec!["inner"]);
    assert_eq!(CodeSnippet::from_token(&GenericToken::of(&c)), Some(c));

    let r = Reference { depath: 2 };
    assert_eq!(r.name(), "refer");
    assert_eq!(Reference::token_name(), "refer");
    assert_eq!(r.get_data("depath"), Some(TokenMeta::Num(Number::P(2))));
    assert_eq!(r.get_data("depth"), None);
    assert_eq!(r.get_all_name(), vec!["depath"]);
    assert_eq!(Reference::from_token(&GenericToken::of(&r)), Some(r));

    let e = FullTrans { ch: '#' };
    assert_eq!(e.name(), "Trans");
    assert_eq!(FullTrans::token_name(), "Trans");
    assert_eq!(e.get_data("ch"), Some(TokenMeta::Char('#')));
    assert_eq!(e.get_all_name(), vec!["ch"]);
    assert_eq!(FullTrans::from_token(&GenericToken::of(&e)), Some(e));

    let t = TitleToken { level: 3 };
    assert_eq!(t.name(), "h3");
    assert_eq!(TitleToken { level: 0 }.name(), "title");
    assert_eq!(TitleToken { level: 7 }.name(), "title");
    assert_eq!(TitleToken::token_name(), "title");
    assert_eq!(t.get_data("level"), Some(TokenMeta::Num(Number::P(3))));
    assert_eq!(t.get_all_name(), vec!["level"]);
    assert_eq!(TitleToken::from_token(&GenericToken::of(&t)), Some(t));
    assert_eq!(title_token(3), GenericToken::of(&t));
}

#[test]
fn a_token_of_another_kind_is_not_recovered() {
    let plain = Plain::new_box(&['x']);
    assert_eq!(CodeSnippet::from_token(&plain), None);
    assert_eq!(Reference::from_token(&plain), None);
    assert_eq!(FullTrans::from_token(&plain), None);
    assert_eq!(TitleToken::from_token(&plain), None);
    assert_eq!(Plain::from_token(&bare_token("Plain")), None);
    let wrong_kind = GenericToken {
        name: "Plain",
        fields: vec![("inner", TokenMeta::Bool(true))],
    };
    assert_eq!(Plain::from_token(&wrong_kind), None);
    // the name of a heading has to be the one of its level
    let h2_named_h3 = GenericToken {
        name: "h3",
        fields: vec![("level", TokenMeta::Num(Number::P(2)))],
    };
    assert_eq!(TitleToken::from_token(&h2_named_h3), None);
    let h2 = GenericToken {
        name: "h2",
        fields: vec![("level", TokenMeta::Num(Number::P(2)))],
    };
    assert_eq!(TitleToken::from_token(&h2), Some(TitleToken { level: 2 }));
    let refer = GenericToken {
        name: "refer",
        fields: vec![("depath", TokenMeta::Num(Number::N(2)))],
    };
    assert_eq!(Reference::from_token(&refer), None);
}

#[test]
fn rules_make_the_tokens_of_their_kind() {
    let quote = PartRef.to_full(&['>', '>']);
    assert_eq!(PartRef.name(), "refer");
    assert_eq!(Reference::from_token(&quote), Some(Reference { depath: 2 }));
    assert_eq!(
        Reference::from_token(&PartRef.to_full(&[])),
        Some(Reference { depath: 0 })
    );
    let escape = Trans.to_full(&['\\', '*']);
    assert_eq!(Trans.name(), "Trans");
    assert_eq!(FullTrans::from_token(&escape), Some(FullTrans { ch: '*' }));
    assert_eq!(
        FullTrans::from_token(&Trans.to_full(&['\\'])),
        Some(FullTrans { ch: '\\' })
    );
    assert_eq!(
        FullTrans::from_token(&Trans.to_full(&[])),
        Some(FullTrans { ch: '\\' })
    );
    assert_eq!(MdRule::Title4.name(), "h4");
    assert_eq!(MdRule::Title4.to_full(&['#']), title_token(4));
    assert_eq!(MdRule::Reference.to_full(&['>']), PartRef.to_full(&['>']));
    assert_eq!(MdRule::Reference.name(), "refer");
    assert_eq!(MdRule::Trans.to_full(&['\\', 'x']), Trans.to_full(&['\\', 'x']));
    assert_eq!(MdRule::Trans.name(), "Trans");
    assert_eq!(MdRule::CodeSnippet.name(), "Code Snip");
    assert_eq!(
        CodeSnippet::from_token(&MdRule::CodeSnippet.to_full(&['`', 'x', '`'])),
        Some(CodeSnippet {
            inner: "x".to_string()
        })
    );
    let marks = [
        (MdRule::SepChar, "sep_char"),
        (MdRule::ChangeLine, "change_line"),
        (MdRule::NewParam, "new_param"),
        (MdRule::Idented, "idented"),
        (MdRule::LinkStart, "link_start"),
        (MdRule::ImgStart, "img_start"),
        (MdRule::BoxMid, "box_mid"),
        (MdRule::BoxEnd, "box_end"),
        (MdRule::UnorderList, "unorder_list"),
        (MdRule::OrderList, "order_list"),
        (MdRule::SepLine, "SeperLine"),
        (MdRule::Star, "star"),
        (MdRule::DoubleStar, "d_star"),
        (MdRule::TripleStar, "t_star"),
    ];
    for (rule, name) in marks {
        assert_eq!(rule.name(), name);
        assert_eq!(rule.to_full(&['x']), bare_token(name));
    }
    assert_eq!(eof_token().name, "Eof");
    assert!(eof_token().fields.is_empty());
}
