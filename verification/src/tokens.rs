//! The token kinds of the markup language and the rules that make them.

use crate::token_trait::{
    field_of, string_of, str_eq, FromToken, FromTokenMeta, FullToken, GenericToken, IntoTokenMeta,
    MetaValue, Number, TokenMeta, TokenModel, TokenTrait,
};
use vstd::prelude::*;
use vstd::slice::slice_subrange;

verus! {

/// A token with no field.
pub open spec fn bare(name: Seq<char>) -> TokenModel {
    TokenModel { name, fields: Seq::empty() }
}

/// A token with one field.
pub open spec fn one_field(name: Seq<char>, key: Seq<char>, value: MetaValue) -> TokenModel {
    TokenModel { name, fields: seq![(key, value)] }
}

/// In a token of one field, that field is found under its name and no other.
pub proof fn lemma_one_field(name: Seq<char>, key: Seq<char>, value: MetaValue, asked: Seq<char>)
    ensures
        field_of(one_field(name, key, value).fields, asked) == if asked == key {
            Some(value)
        } else {
            None
        },
{
    let fields = one_field(name, key, value).fields;
    assert(fields[0] == (key, value));
    assert(fields.drop_first().len() == 0);
    assert(field_of(fields.drop_first(), asked) is None);
}

/// The generic token with no field.
pub fn bare_token(name: &'static str) -> (r: GenericToken)
    ensures
        r@ == bare(name@),
{
    let r = GenericToken { name, fields: Vec::new() };
    assert(r@.fields =~= Seq::empty());
    r
}

/// The generic form of a token of one field.
fn one_field_token<T: FullToken>(token: &T, Ghost(key): Ghost<Seq<char>>, Ghost(value): Ghost<
    MetaValue,
>) -> (r: GenericToken)
    requires
        token.model() == one_field(token.model().name, key, value),
    ensures
        r@ == token.model(),
{
    let r = GenericToken::of(token);
    proof {
        lemma_one_field(token.model().name, key, value, key);
        assert(r@.fields[0].0 == key);
        assert(r@.fields[0].1 == value);
        assert(r@.fields =~= token.model().fields);
    }
    r
}

/// Reads the field `key` of `src` as a `T`.
pub fn read_field<T: FromTokenMeta>(src: &GenericToken, key: &str) -> (r: Option<T>)
    ensures
        r is Some <==> (field_of(src@.fields, key@) matches Some(m) && T::holds(m)),
        r matches Some(out) ==> T::reads(field_of(src@.fields, key@).unwrap(), &out),
{
    match src.get_data(key) {
        Some(m) => T::from_token_meta(&m),
        None => None,
    }
}

/// A run of text that no rule recognised.
#[derive(Debug, PartialEq, Eq)]
pub struct Plain {
    pub inner: String,
}

impl Plain {
    pub fn new(buff: &[char]) -> (r: Plain)
        ensures
            r.inner@ == buff@,
    {
        Plain { inner: string_of(buff) }
    }

    /// The plain-text token of `buff` in its generic form.
    pub fn new_box(buff: &[char]) -> (r: GenericToken)
        ensures
            r@ == one_field("Plain"@, "inner"@, MetaValue::Str(buff@)),
    {
        let p = Plain::new(buff);
        one_field_token(&p, Ghost("inner"@), Ghost(MetaValue::Str(buff@)))
    }
}

impl FullToken for Plain {
    open spec fn model(&self) -> TokenModel {
        one_field("Plain"@, "inner"@, MetaValue::Str(self.inner@))
    }

    fn name(&self) -> (r: &'static str) {
        "Plain"
    }

    fn get_data(&self, name: &str) -> (r: Option<TokenMeta>) {
        proof {
            lemma_one_field("Plain"@, "inner"@, MetaValue::Str(self.inner@), name@);
        }
        if str_eq(name, "inner") {
            Some(self.inner.clone().into_token_meta())
        } else {
            None
        }
    }

    fn get_all_name(&self) -> (r: Vec<&'static str>) {
        let mut names: Vec<&'static str> = Vec::new();
        names.push("inner");
        names
    }
}

impl FromToken for Plain {
    open spec fn kind_name() -> Seq<char> {
        "Plain"@
    }

    open spec fn recovered(src: TokenModel) -> Option<TokenModel> {
        if src.name == "Plain"@ {
            match field_of(src.fields, "inner"@) {
                Some(MetaValue::Str(s)) => Some(one_field("Plain"@, "inner"@, MetaValue::Str(s))),
                _ => None,
            }
        } else {
            None
        }
    }

    fn token_name() -> (r: &'static str) {
        "Plain"
    }

    fn from_token(src: &GenericToken) -> (r: Option<Plain>) {
        if !str_eq(src.name, "Plain") {
            return None;
        }
        match read_field::<String>(src, "inner") {
            Some(inner) => Some(Plain { inner }),
            None => None,
        }
    }
}

/// A stretch of code between backticks.
#[derive(Debug, PartialEq, Eq)]
pub struct CodeSnippet {
    pub inner: String,
}

impl FullToken for CodeSnippet {
    open spec fn model(&self) -> TokenModel {
        one_field("code_snippet"@, "inner"@, MetaValue::Str(self.inner@))
    }

    fn name(&self) -> (r: &'static str) {
        "code_snippet"
    }

    fn get_data(&self, name: &str) -> (r: Option<TokenMeta>) {
        proof {
            lemma_one_field("code_snippet"@, "inner"@, MetaValue::Str(self.inner@), name@);
        }
        if str_eq(name, "inner") {
            Some(self.inner.clone().into_token_meta())
        } else {
            None
        }
    }

    fn get_all_name(&self) -> (r: Vec<&'static str>) {
        let mut names: Vec<&'static str> = Vec::new();
        names.push("inner");
        names
    }
}

impl FromToken for CodeSnippet {
    open spec fn kind_name() -> Seq<char> {
        "code_snippet"@
    }

    open spec fn recovered(src: TokenModel) -> Option<TokenModel> {
        if src.name == "code_snippet"@ {
            match field_of(src.fields, "inner"@) {
                Some(MetaValue::Str(s)) => Some(one_field("code_snippet"@, "inner"@, MetaValue::Str(s))),
                _ => None,
            }
        } else {
            None
        }
    }

    fn token_name() -> (r: &'static str) {
        "code_snippet"
    }

    fn from_token(src: &GenericToken) -> (r: Option<CodeSnippet>) {
        if !str_eq(src.name, "code_snippet") {
            return None;
        }
        match read_field::<String>(src, "inner") {
            Some(inner) => Some(CodeSnippet { inner }),
            None => None,
        }
    }
}

/// Whether the lexeme opens and closes with three backticks.
pub open spec fn fenced(buff: Seq<char>) -> bool {
    &&& buff.len() >= 6
    &&& buff[0] == '`'
    &&& buff[1] == '`'
    &&& buff[2] == '`'
    &&& buff[buff.len() - 3] == '`'
    &&& buff[buff.len() - 2] == '`'
    &&& buff[buff.len() - 1] == '`'
}

/// The code inside a snippet's lexeme: what stands between the fences of
/// three backticks if the lexeme has them, else what stands between its
/// first and last character; nothing if the lexeme is shorter than two.
pub open spec fn snippet_inner(buff: Seq<char>) -> Seq<char> {
    if buff.len() < 2 {
        Seq::empty()
    } else if fenced(buff) {
        buff.subrange(3, buff.len() - 3)
    } else {
        buff.subrange(1, buff.len() - 1)
    }
}

/// The rule of code snippets.
#[derive(Debug, Clone, Copy, PartialEq, Eq, Structural)]
pub struct PartCodeSnippet;

impl TokenTrait for PartCodeSnippet {
    open spec fn rule_name(&self) -> Seq<char> {
        "Code Snip"@
    }

    open spec fn full(&self, buff: Seq<char>) -> TokenModel {
        one_field("code_snippet"@, "inner"@, MetaValue::Str(snippet_inner(buff)))
    }

    fn name(&self) -> (r: &'static str) {
        "Code Snip"
    }

    fn to_full(&self, buff: &[char]) -> (r: GenericToken) {
        let n: usize = buff.len();
        let inner = if n < 2 {
            String::new()
        } else if n >= 6 && buff[0] == '`' && buff[1] == '`' && buff[2] == '`' && buff[n - 3] == '`'
            && buff[n - 2] == '`' && buff[n - 1] == '`' {
            string_of(slice_subrange(buff, 3, n - 3))
        } else {
            string_of(slice_subrange(buff, 1, n - 1))
        };
        let token = CodeSnippet { inner };
        one_field_token(&token, Ghost("inner"@), Ghost(MetaValue::Str(snippet_inner(buff@))))
    }
}

/// A block quote; `depath` is its depth.
#[derive(Debug, PartialEq, Eq, Clone, Copy, Structural)]
pub struct Reference {
    pub depath: u64,
}

impl FullToken for Reference {
    open spec fn model(&self) -> TokenModel {
        one_field("refer"@, "depath"@, MetaValue::Num(Number::P(self.depath)))
    }

    fn name(&self) -> (r: &'static str) {
        "refer"
    }

    fn get_data(&self, name: &str) -> (r: Option<TokenMeta>) {
        proof {
            lemma_one_field("refer"@, "depath"@, MetaValue::Num(Number::P(self.depath)), name@);
        }
        if str_eq(name, "depath") {
            Some(self.depath.into_token_meta())
        } else {
            None
        }
    }

    fn get_all_name(&self) -> (r: Vec<&'static str>) {
        let mut names: Vec<&'static str> = Vec::new();
        names.push("depath");
        names
    }
}

impl FromToken for Reference {
    open spec fn kind_name() -> Seq<char> {
        "refer"@
    }

    open spec fn recovered(src: TokenModel) -> Option<TokenModel> {
        if src.name == "refer"@ {
            match field_of(src.fields, "depath"@) {
                Some(MetaValue::Num(Number::P(d))) => Some(
                    one_field("refer"@, "depath"@, MetaValue::Num(Number::P(d))),
                ),
                _ => None,
            }
        } else {
            None
        }
    }

    fn token_name() -> (r: &'static str) {
        "refer"
    }

    fn from_token(src: &GenericToken) -> (r: Option<Reference>) {
        if !str_eq(src.name, "refer") {
            return None;
        }
        match read_field::<u64>(src, "depath") {
            Some(depath) => Some(Reference { depath }),
            None => None,
        }
    }
}

/// The rule of block quotes: the depth is the length of the lexeme.
#[derive(Debug, Clone, Copy, PartialEq, Eq, Structural)]
pub struct PartRef;

impl TokenTrait for PartRef {
    open spec fn rule_name(&self) -> Seq<char> {
        "refer"@
    }

    open spec fn full(&self, buff: Seq<char>) -> TokenModel {
        one_field("refer"@, "depath"@, MetaValue::Num(Number::P(buff.len() as u64)))
    }

    fn name(&self) -> (r: &'static str) {
        "refer"
    }

    fn to_full(&self, buff: &[char]) -> (r: GenericToken) {
        let token = Reference { depath: buff.len() as u64 };
        one_field_token(
            &token,
            Ghost("depath"@),
            Ghost(MetaValue::Num(Number::P(buff@.len() as u64))),
        )
    }
}

/// The name of a heading of the given level: `h1` to `h6`, and `title` for
/// a level that no heading has.
pub open spec fn title_name(level: u8) -> Seq<char> {
    if level == 1 {
        "h1"@
    } else if level == 2 {
        "h2"@
    } else if level == 3 {
        "h3"@
    } else if level == 4 {
        "h4"@
    } else if level == 5 {
        "h5"@
    } else if level == 6 {
        "h6"@
    } else {
        "title"@
    }
}

/// A heading marker.
#[derive(Debug, PartialEq, Eq, Clone, Copy, Structural)]
pub struct TitleToken {
    pub level: u8,
}

impl FullToken for TitleToken {
    open spec fn model(&self) -> TokenModel {
        one_field(
            title_name(self.level),
            "level"@,
            MetaValue::Num(Number::P(self.level as u64)),
        )
    }

    fn name(&self) -> (r: &'static str) {
        if self.level == 1 {
            "h1"
        } else if self.level == 2 {
            "h2"
        } else if self.level == 3 {
            "h3"
        } else if self.level == 4 {
            "h4"
        } else if self.level == 5 {
            "h5"
        } else if self.level == 6 {
            "h6"
        } else {
            "title"
        }
    }

    fn get_data(&self, name: &str) -> (r: Option<TokenMeta>) {
        proof {
            lemma_one_field(
                title_name(self.level),
                "level"@,
                MetaValue::Num(Number::P(self.level as u64)),
                name@,
            );
        }
        if str_eq(name, "level") {
            Some(self.level.into_token_meta())
        } else {
            None
        }
    }

    fn get_all_name(&self) -> (r: Vec<&'static str>) {
        let mut names: Vec<&'static str> = Vec::new();
        names.push("level");
        names
    }
}

impl FromToken for TitleToken {
    open spec fn kind_name() -> Seq<char> {
        "title"@
    }

    /// The name of a heading token tells its level, so the name must be the
    /// one that belongs to the level in the field.
    open spec fn recovered(src: TokenModel) -> Option<TokenModel> {
        match field_of(src.fields, "level"@) {
            Some(MetaValue::Num(Number::P(u))) => if src.name == title_name(u as u8) {
                Some(
                    one_field(
                        title_name(u as u8),
                        "level"@,
                        MetaValue::Num(Number::P((u as u8) as u64)),
                    ),
                )
            } else {
                None
            },
            _ => None,
        }
    }

    fn token_name() -> (r: &'static str) {
        "title"
    }

    fn from_token(src: &GenericToken) -> (r: Option<TitleToken>) {
        match read_field::<u8>(src, "level") {
            Some(level) => {
                let token = TitleToken { level };
                if str_eq(src.name, token.name()) {
                    Some(token)
                } else {
                    None
                }
            },
            None => None,
        }
    }
}

/// An escaped character.
#[derive(Debug, PartialEq, Eq, Clone, Copy, Structural)]
pub struct FullTrans {
    pub ch: char,
}

impl FullToken for FullTrans {
    open spec fn model(&self) -> TokenModel {
        one_field("Trans"@, "ch"@, MetaValue::Char(self.ch))
    }

    fn name(&self) -> (r: &'static str) {
        "Trans"
    }

    fn get_data(&self, name: &str) -> (r: Option<TokenMeta>) {
        proof {
            lemma_one_field("Trans"@, "ch"@, MetaValue::Char(self.ch), name@);
        }
        if str_eq(name, "ch") {
            Some(self.ch.into_token_meta())
        } else {
            None
        }
    }

    fn get_all_name(&self) -> (r: Vec<&'static str>) {
        let mut names: Vec<&'static str> = Vec::new();
        names.push("ch");
        names
    }
}

impl FromToken for FullTrans {
    open spec fn kind_name() -> Seq<char> {
        "Trans"@
    }

    open spec fn recovered(src: TokenModel) -> Option<TokenModel> {
        if src.name == "Trans"@ {
            match field_of(src.fields, "ch"@) {
                Some(MetaValue::Char(c)) => Some(one_field("Trans"@, "ch"@, MetaValue::Char(c))),
                _ => None,
            }
        } else {
            None
        }
    }

    fn token_name() -> (r: &'static str) {
        "Trans"
    }

    fn from_token(src: &GenericToken) -> (r: Option<FullTrans>) {
        if !str_eq(src.name, "Trans") {
            return None;
        }
        match read_field::<char>(src, "ch") {
            Some(ch) => Some(FullTrans { ch }),
            None => None,
        }
    }
}

/// The character that an escape lexeme stands for: its second character. A
/// lexeme too short to hold one stands for the backslash itself.
pub open spec fn escaped(buff: Seq<char>) -> char {
    if buff.len() >= 2 {
        buff[1]
    } else {
        '\\'
    }
}

/// The rule of escapes.
#[derive(Debug, Clone, Copy, PartialEq, Eq, Structural)]
pub struct Trans;

impl TokenTrait for Trans {
    open spec fn rule_name(&self) -> Seq<char> {
        "Trans"@
    }

    open spec fn full(&self, buff: Seq<char>) -> TokenModel {
        one_field("Trans"@, "ch"@, MetaValue::Char(escaped(buff)))
    }

    fn name(&self) -> (r: &'static str) {
        "Trans"
    }

    fn to_full(&self, buff: &[char]) -> (r: GenericToken) {
        let ch: char = if buff.len() >= 2 {
            buff[1]
        } else {
            '\\'
        };
        let token = FullTrans { ch };
        one_field_token(&token, Ghost("ch"@), Ghost(MetaValue::Char(escaped(buff@))))
    }
}

/// The rules of the markup language. Each is bound to accept states and
/// makes the token of its kind from the lexeme.
#[derive(Debug, Clone, Copy, PartialEq, Eq, Structural)]
pub enum MdRule {
    /// A single space.
    SepChar,
    /// A line break.
    ChangeLine,
    /// Two spaces and a line break: a new paragraph.
    NewParam,
    /// Four spaces or a tab at the start of a line.
    Idented,
    /// `[`
    LinkStart,
    /// `![`
    ImgStart,
    /// `](`
    BoxMid,
    /// `)`
    BoxEnd,
    /// A bullet at the start of a line.
    UnorderList,
    /// A digit and a dot after a bullet.
    OrderList,
    /// A rule: three dashes or three stars at the start of a line.
    SepLine,
    /// `*`
    Star,
    /// `**`
    DoubleStar,
    /// `***`
    TripleStar,
    /// A heading of level 1.
    Title1,
    /// A heading of level 2.
    Title2,
    /// A heading of level 3.
    Title3,
    /// A heading of level 4.
    Title4,
    /// A heading of level 5.
    Title5,
    /// A heading of level 6.
    Title6,
    /// A block quote.
    Reference,
    /// An escaped character.
    Trans,
    /// A code snippet.
    CodeSnippet,
}

impl MdRule {
    /// The level of the heading that the rule makes, if it makes one.
    pub open spec fn level(self) -> Option<u8> {
        match self {
            MdRule::Title1 => Some(1u8),
            MdRule::Title2 => Some(2u8),
            MdRule::Title3 => Some(3u8),
            MdRule::Title4 => Some(4u8),
            MdRule::Title5 => Some(5u8),
            MdRule::Title6 => Some(6u8),
            _ => None,
        }
    }
}

impl TokenTrait for MdRule {
    open spec fn rule_name(&self) -> Seq<char> {
        match self {
            MdRule::SepChar => "sep_char"@,
            MdRule::ChangeLine => "change_line"@,
            MdRule::NewParam => "new_param"@,
            MdRule::Idented => "idented"@,
            MdRule::LinkStart => "link_start"@,
            MdRule::ImgStart => "img_start"@,
            MdRule::BoxMid => "box_mid"@,
            MdRule::BoxEnd => "box_end"@,
            MdRule::UnorderList => "unorder_list"@,
            MdRule::OrderList => "order_list"@,
            MdRule::SepLine => "SeperLine"@,
            MdRule::Star => "star"@,
            MdRule::DoubleStar => "d_star"@,
            MdRule::TripleStar => "t_star"@,
            MdRule::Title1 => "h1"@,
            MdRule::Title2 => "h2"@,
            MdRule::Title3 => "h3"@,
            MdRule::Title4 => "h4"@,
            MdRule::Title5 => "h5"@,
            MdRule::Title6 => "h6"@,
            MdRule::Reference => PartRef.rule_name(),
            MdRule::Trans => Trans.rule_name(),
            MdRule::CodeSnippet => PartCodeSnippet.rule_name(),
        }
    }

    /// A heading rule makes the heading token of its level, the three rules
    /// with a field make theirs from the lexeme, and every other rule makes
    /// the token that has its name and no field.
    open spec fn full(&self, buff: Seq<char>) -> TokenModel {
        match self {
            MdRule::Reference => PartRef.full(buff),
            MdRule::Trans => Trans.full(buff),
            MdRule::CodeSnippet => PartCodeSnippet.full(buff),
            _ => match self.level() {
                Some(level) => one_field(
                    title_name(level),
                    "level"@,
                    MetaValue::Num(Number::P(level as u64)),
                ),
                None => bare(self.rule_name()),
            },
        }
    }

    fn name(&self) -> (r: &'static str) {
        match self {
            MdRule::SepChar => "sep_char",
            MdRule::ChangeLine => "change_line",
            MdRule::NewParam => "new_param",
            MdRule::Idented => "idented",
            MdRule::LinkStart => "link_start",
            MdRule::ImgStart => "img_start",
            MdRule::BoxMid => "box_mid",
            MdRule::BoxEnd => "box_end",
            MdRule::UnorderList => "unorder_list",
            MdRule::OrderList => "order_list",
            MdRule::SepLine => "SeperLine",
            MdRule::Star => "star",
            MdRule::DoubleStar => "d_star",
            MdRule::TripleStar => "t_star",
            MdRule::Title1 => "h1",
            MdRule::Title2 => "h2",
            MdRule::Title3 => "h3",
            MdRule::Title4 => "h4",
            MdRule::Title5 => "h5",
            MdRule::Title6 => "h6",
            MdRule::Reference => PartRef.name(),
            MdRule::Trans => Trans.name(),
            MdRule::CodeSnippet => PartCodeSnippet.name(),
        }
    }

    fn to_full(&self, buff: &[char]) -> (r: GenericToken) {
        match self {
            MdRule::Reference => PartRef.to_full(buff),
            MdRule::Trans => Trans.to_full(buff),
            MdRule::CodeSnippet => PartCodeSnippet.to_full(buff),
            MdRule::Title1 => title_token(1),
            MdRule::Title2 => title_token(2),
            MdRule::Title3 => title_token(3),
            MdRule::Title4 => title_token(4),
            MdRule::Title5 => title_token(5),
            MdRule::Title6 => title_token(6),
            _ => bare_token(self.name()),
        }
    }
}

/// The heading token of a level, in its generic form.
pub fn title_token(level: u8) -> (r: GenericToken)
    ensures
        r@ == one_field(title_name(level), "level"@, MetaValue::Num(Number::P(level as u64))),
{
    let token = TitleToken { level };
    one_field_token(&token, Ghost("level"@), Ghost(MetaValue::Num(Number::P(level as u64))))
}

/// The token that ends every stream.
pub fn eof_token() -> (r: GenericToken)
    ensures
        r@ == bare("Eof"@),
{
    bare_token("Eof")
}

} // verus!
