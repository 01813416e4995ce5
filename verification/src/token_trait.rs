//! The shape of a token value: a name, named fields of a few primitive
//! kinds, and the conversions between typed tokens and the generic form.

use vstd::prelude::*;

verus! {

/// `str::eq`: two string slices are equal exactly when they hold the same
/// characters.
#[verifier::external_body]
pub(crate) fn str_eq(a: &str, b: &str) -> (r: bool)
    ensures
        r == (a@ == b@),
{
    a == b
}

/// `String::from_iter` over the characters of a slice: the string holds the
/// characters of the slice, in order.
#[verifier::external_body]
pub(crate) fn string_of(buff: &[char]) -> (r: String)
    ensures
        r@ == buff@,
{
    String::from_iter(buff.iter())
}

/// A number held by a token field. The two float kinds hold the bits of the
/// IEEE 754 value of their precision.
#[derive(Clone, Copy, Debug, PartialEq, Eq, Structural)]
pub enum Number {
    /// An unsigned integer.
    P(u64),
    /// A signed integer.
    N(i64),
    /// The bits of a single-precision float.
    FShort(u32),
    /// The bits of a double-precision float.
    F(u64),
}

/// The value of one token field.
#[derive(Debug, PartialEq, Eq)]
pub enum TokenMeta {
    Num(Number),
    Bool(bool),
    Char(char),
    Str(String),
    Vec(Vec<TokenMeta>),
}

/// What a `TokenMeta` stands for.
pub ghost enum MetaValue {
    Num(Number),
    Bool(bool),
    Char(char),
    Str(Seq<char>),
    List(Seq<MetaValue>),
}

impl TokenMeta {
    /// What the value stands for.
    pub open spec fn value(self) -> MetaValue
        decreases self, 0nat,
    {
        match self {
            TokenMeta::Num(n) => MetaValue::Num(n),
            TokenMeta::Bool(b) => MetaValue::Bool(b),
            TokenMeta::Char(c) => MetaValue::Char(c),
            TokenMeta::Str(s) => MetaValue::Str(s@),
            TokenMeta::Vec(v) => MetaValue::List(Self::values(v@, v@.len())),
        }
    }

    /// What the first `n` of `items` stand for.
    pub open spec fn values(items: Seq<TokenMeta>, n: nat) -> Seq<MetaValue>
        decreases items, n,
    {
        if n == 0 || n > items.len() {
            Seq::empty()
        } else {
            Self::values(items, (n - 1) as nat).push(items[n - 1].value())
        }
    }
}

/// `values` keeps the length and maps each item to its value.
pub proof fn lemma_values(items: Seq<TokenMeta>, n: nat)
    requires
        n <= items.len(),
    ensures
        TokenMeta::values(items, n).len() == n,
        forall|j: int| 0 <= j < n ==> #[trigger] TokenMeta::values(items, n)[j] == items[j].value(),
    decreases n,
{
    if n > 0 {
        lemma_values(items, (n - 1) as nat);
    }
}

impl View for TokenMeta {
    type V = MetaValue;

    open spec fn view(&self) -> MetaValue {
        self.value()
    }
}

impl DeepView for TokenMeta {
    type V = MetaValue;

    open spec fn deep_view(&self) -> MetaValue {
        self.view()
    }
}

impl Clone for TokenMeta {
    fn clone(&self) -> (r: TokenMeta)
        ensures
            r@ == self@,
        decreases self,
    {
        match self {
            TokenMeta::Num(n) => TokenMeta::Num(*n),
            TokenMeta::Bool(b) => TokenMeta::Bool(*b),
            TokenMeta::Char(c) => TokenMeta::Char(*c),
            TokenMeta::Str(s) => TokenMeta::Str(s.clone()),
            TokenMeta::Vec(v) => {
                let mut out: Vec<TokenMeta> = Vec::new();
                let mut i: usize = 0;
                while i < v.len()
                    invariant
                        i <= v.len(),
                        out.len() == i,
                        *self == TokenMeta::Vec(*v),
                        forall|j: int| 0 <= j < i ==> out[j]@ == v[j]@,
                    decreases v.len() - i,
                {
                    assert(self->Vec_0 == *v);
                    assert(decreases_to!(*v => v@[i as int]));
                    out.push(v[i].clone());
                    i = i + 1;
                }
                let r = TokenMeta::Vec(out);
                proof {
                    lemma_values(out@, out@.len());
                    lemma_values(v@, v@.len());
                }
                assert(r@->List_0 =~= self@->List_0);
                r
            },
        }
    }
}

/// The character itself, as a value that is known to lie in the range of
/// characters; of the `self` of an impl for `char` this is not known before.
fn checked_char(c: char) -> (r: char)
    ensures
        r == c,
{
    c
}

/// A value that can be stored in a token field.
pub trait IntoTokenMeta: Sized {
    /// The field value that stands for the value.
    spec fn meta(&self) -> MetaValue;

    fn into_token_meta(self) -> (r: TokenMeta)
        ensures
            r@ == self.meta(),
    ;
}

/// A value that can be read back from a token field.
pub trait FromTokenMeta: Sized {
    /// Whether `src` is of the kind that this type is read from.
    spec fn holds(src: MetaValue) -> bool;

    /// Whether `out` is the value that `src` holds for this type.
    spec fn reads(src: MetaValue, out: &Self) -> bool;

    fn from_token_meta(src: &TokenMeta) -> (r: Option<Self>)
        ensures
            r is Some <==> Self::holds(src@),
            r matches Some(out) ==> Self::reads(src@, &out),
    ;
}

impl IntoTokenMeta for u8 {
    open spec fn meta(&self) -> MetaValue {
        MetaValue::Num(Number::P(*self as u64))
    }

    fn into_token_meta(self) -> (r: TokenMeta) {
        assert(self.meta() == MetaValue::Num(Number::P(self as u64)));
        TokenMeta::Num(Number::P(self as u64))
    }
}

impl FromTokenMeta for u8 {
    open spec fn holds(src: MetaValue) -> bool {
        src matches MetaValue::Num(Number::P(_))
    }

    /// The number cut to the low bits that fit.
    open spec fn reads(src: MetaValue, out: &u8) -> bool {
        src matches MetaValue::Num(Number::P(u)) && *out == u as u8
    }

    fn from_token_meta(src: &TokenMeta) -> (r: Option<u8>) {
        match src {
            TokenMeta::Num(Number::P(u)) => Some(#[verifier::truncate] (*u as u8)),
            _ => None,
        }
    }
}

impl IntoTokenMeta for u16 {
    open spec fn meta(&self) -> MetaValue {
        MetaValue::Num(Number::P(*self as u64))
    }

    fn into_token_meta(self) -> (r: TokenMeta) {
        assert(self.meta() == MetaValue::Num(Number::P(self as u64)));
        TokenMeta::Num(Number::P(self as u64))
    }
}

impl FromTokenMeta for u16 {
    open spec fn holds(src: MetaValue) -> bool {
        src matches MetaValue::Num(Number::P(_))
    }

    /// The number cut to the low bits that fit.
    open spec fn reads(src: MetaValue, out: &u16) -> bool {
        src matches MetaValue::Num(Number::P(u)) && *out == u as u16
    }

    fn from_token_meta(src: &TokenMeta) -> (r: Option<u16>) {
        match src {
            TokenMeta::Num(Number::P(u)) => Some(#[verifier::truncate] (*u as u16)),
            _ => None,
        }
    }
}

impl IntoTokenMeta for u32 {
    open spec fn meta(&self) -> MetaValue {
        MetaValue::Num(Number::P(*self as u64))
    }

    fn into_token_meta(self) -> (r: TokenMeta) {
        assert(self.meta() == MetaValue::Num(Number::P(self as u64)));
        TokenMeta::Num(Number::P(self as u64))
    }
}

impl FromTokenMeta for u32 {
    open spec fn holds(src: MetaValue) -> bool {
        src matches MetaValue::Num(Number::P(_))
    }

    /// The number cut to the low bits that fit.
    open spec fn reads(src: MetaValue, out: &u32) -> bool {
        src matches MetaValue::Num(Number::P(u)) && *out == u as u32
    }

    fn from_token_meta(src: &TokenMeta) -> (r: Option<u32>) {
        match src {
            TokenMeta::Num(Number::P(u)) => Some(#[verifier::truncate] (*u as u32)),
            _ => None,
        }
    }
}

impl IntoTokenMeta for u64 {
    open spec fn meta(&self) -> MetaValue {
        MetaValue::Num(Number::P(*self))
    }

    fn into_token_meta(self) -> (r: TokenMeta) {
        assert(self.meta() == MetaValue::Num(Number::P(self)));
        TokenMeta::Num(Number::P(self))
    }
}

impl FromTokenMeta for u64 {
    open spec fn holds(src: MetaValue) -> bool {
        src matches MetaValue::Num(Number::P(_))
    }

    /// The number itself.
    open spec fn reads(src: MetaValue, out: &u64) -> bool {
        src matches MetaValue::Num(Number::P(u)) && *out == u
    }

    fn from_token_meta(src: &TokenMeta) -> (r: Option<u64>) {
        match src {
            TokenMeta::Num(Number::P(u)) => Some(*u),
            _ => None,
        }
    }
}

impl IntoTokenMeta for i8 {
    open spec fn meta(&self) -> MetaValue {
        MetaValue::Num(Number::N(*self as i64))
    }

    fn into_token_meta(self) -> (r: TokenMeta) {
        assert(self.meta() == MetaValue::Num(Number::N(self as i64)));
        TokenMeta::Num(Number::N(self as i64))
    }
}

impl FromTokenMeta for i8 {
    open spec fn holds(src: MetaValue) -> bool {
        src matches MetaValue::Num(Number::N(_))
    }

    /// The number cut to the low bits that fit.
    open spec fn reads(src: MetaValue, out: &i8) -> bool {
        src matches MetaValue::Num(Number::N(u)) && *out == u as i8
    }

    fn from_token_meta(src: &TokenMeta) -> (r: Option<i8>) {
        match src {
            TokenMeta::Num(Number::N(u)) => Some(#[verifier::truncate] (*u as i8)),
            _ => None,
        }
    }
}

impl IntoTokenMeta for i16 {
    open spec fn meta(&self) -> MetaValue {
        MetaValue::Num(Number::N(*self as i64))
    }

    fn into_token_meta(self) -> (r: TokenMeta) {
        assert(self.meta() == MetaValue::Num(Number::N(self as i64)));
        TokenMeta::Num(Number::N(self as i64))
    }
}

impl FromTokenMeta for i16 {
    open spec fn holds(src: MetaValue) -> bool {
        src matches MetaValue::Num(Number::N(_))
    }

    /// The number cut to the low bits that fit.
    open spec fn reads(src: MetaValue, out: &i16) -> bool {
        src matches MetaValue::Num(Number::N(u)) && *out == u as i16
    }

    fn from_token_meta(src: &TokenMeta) -> (r: Option<i16>) {
        match src {
            TokenMeta::Num(Number::N(u)) => Some(#[verifier::truncate] (*u as i16)),
            _ => None,
        }
    }
}

impl IntoTokenMeta for i32 {
    open spec fn meta(&self) -> MetaValue {
        MetaValue::Num(Number::N(*self as i64))
    }

    fn into_token_meta(self) -> (r: TokenMeta) {
        assert(self.meta() == MetaValue::Num(Number::N(self as i64)));
        TokenMeta::Num(Number::N(self as i64))
    }
}

impl FromTokenMeta for i32 {
    open spec fn holds(src: MetaValue) -> bool {
        src matches MetaValue::Num(Number::N(_))
    }

    /// The number cut to the low bits that fit.
    open spec fn reads(src: MetaValue, out: &i32) -> bool {
        src matches MetaValue::Num(Number::N(u)) && *out == u as i32
    }

    fn from_token_meta(src: &TokenMeta) -> (r: Option<i32>) {
        match src {
            TokenMeta::Num(Number::N(u)) => Some(#[verifier::truncate] (*u as i32)),
            _ => None,
        }
    }
}

impl IntoTokenMeta for i64 {
    open spec fn meta(&self) -> MetaValue {
        MetaValue::Num(Number::N(*self))
    }

    fn into_token_meta(self) -> (r: TokenMeta) {
        assert(self.meta() == MetaValue::Num(Number::N(self)));
        TokenMeta::Num(Number::N(self))
    }
}

impl FromTokenMeta for i64 {
    open spec fn holds(src: MetaValue) -> bool {
        src matches MetaValue::Num(Number::N(_))
    }

    /// The number itself.
    open spec fn reads(src: MetaValue, out: &i64) -> bool {
        src matches MetaValue::Num(Number::N(u)) && *out == u
    }

    fn from_token_meta(src: &TokenMeta) -> (r: Option<i64>) {
        match src {
            TokenMeta::Num(Number::N(u)) => Some(*u),
            _ => None,
        }
    }
}

impl IntoTokenMeta for bool {
    open spec fn meta(&self) -> MetaValue {
        MetaValue::Bool(*self)
    }

    fn into_token_meta(self) -> (r: TokenMeta) {
        assert(self.meta() == MetaValue::Bool(self));
        TokenMeta::Bool(self)
    }
}

impl FromTokenMeta for bool {
    open spec fn holds(src: MetaValue) -> bool {
        src is Bool
    }

    open spec fn reads(src: MetaValue, out: &bool) -> bool {
        src == MetaValue::Bool(*out)
    }

    fn from_token_meta(src: &TokenMeta) -> (r: Option<bool>) {
        match src {
            TokenMeta::Bool(b) => Some(*b),
            _ => None,
        }
    }
}

impl IntoTokenMeta for char {
    open spec fn meta(&self) -> MetaValue {
        MetaValue::Char(*self)
    }

    fn into_token_meta(self) -> (r: TokenMeta) {
        assert(self.meta() == MetaValue::Char(self));
        TokenMeta::Char(checked_char(self))
    }
}

impl FromTokenMeta for char {
    open spec fn holds(src: MetaValue) -> bool {
        src is Char
    }

    open spec fn reads(src: MetaValue, out: &char) -> bool {
        src == MetaValue::Char(*out)
    }

    fn from_token_meta(src: &TokenMeta) -> (r: Option<char>) {
        match src {
            TokenMeta::Char(c) => Some(*c),
            _ => None,
        }
    }
}

impl IntoTokenMeta for String {
    open spec fn meta(&self) -> MetaValue {
        MetaValue::Str(self@)
    }

    fn into_token_meta(self) -> (r: TokenMeta) {
        assert(self.meta() == MetaValue::Str(self@));
        TokenMeta::Str(self)
    }
}

impl FromTokenMeta for String {
    open spec fn holds(src: MetaValue) -> bool {
        src is Str
    }

    open spec fn reads(src: MetaValue, out: &String) -> bool {
        src == MetaValue::Str(out@)
    }

    fn from_token_meta(src: &TokenMeta) -> (r: Option<String>) {
        match src {
            TokenMeta::Str(s) => Some(s.clone()),
            _ => None,
        }
    }
}

impl<T: IntoTokenMeta> IntoTokenMeta for Vec<T> {
    open spec fn meta(&self) -> MetaValue {
        MetaValue::List(Seq::new(self@.len(), |i: int| self@[i].meta()))
    }

    fn into_token_meta(self) -> (r: TokenMeta) {
        let ghost items = self@;
        let mut rest = self;
        let mut back: Vec<TokenMeta> = Vec::new();
        // The items leave `rest` from its end, so `back` holds them reversed.
        while rest.len() > 0
            invariant
                rest.len() + back.len() == items.len(),
                rest@ =~= items.take(rest.len() as int),
                forall|j: int| 0 <= j < back.len() ==> back[j]@ == items[items.len() - 1 - j].meta(),
            decreases rest.len(),
        {
            let ghost before = rest@;
            let x = rest.pop().unwrap();
            assert(x == before[rest.len() as int]);
            back.push(x.into_token_meta());
        }
        let mut out: Vec<TokenMeta> = Vec::new();
        while back.len() > 0
            invariant
                out.len() + back.len() == items.len(),
                forall|j: int| 0 <= j < back.len() ==> back[j]@ == items[items.len() - 1 - j].meta(),
                forall|j: int| 0 <= j < out.len() ==> out[j]@ == items[j].meta(),
            decreases back.len(),
        {
            let m = back.pop().unwrap();
            out.push(m);
        }
        let r = TokenMeta::Vec(out);
        proof {
            lemma_values(out@, out@.len());
        }
        assert(r@->List_0 =~= Seq::new(items.len(), |i: int| items[i].meta()));
        r
    }
}

/// Whether `out` holds what the items of a list hold for `T`: one value for
/// each item of the kind that `T` is read from, in order, and nothing for
/// the others.
pub open spec fn items_read<T: FromTokenMeta>(items: Seq<MetaValue>, out: Seq<T>) -> bool
    decreases items.len(),
{
    if items.len() == 0 {
        out.len() == 0
    } else if T::holds(items.last()) {
        &&& out.len() > 0
        &&& T::reads(items.last(), &out.last())
        &&& items_read(items.drop_last(), out.drop_last())
    } else {
        items_read(items.drop_last(), out)
    }
}

impl<T: FromTokenMeta> FromTokenMeta for Vec<T> {
    open spec fn holds(src: MetaValue) -> bool {
        src is List
    }

    /// The elements that convert, in order; the others are dropped.
    open spec fn reads(src: MetaValue, out: &Vec<T>) -> bool {
        src matches MetaValue::List(items) && items_read(items, out@)
    }

    fn from_token_meta(src: &TokenMeta) -> (r: Option<Vec<T>>) {
        match src {
            TokenMeta::Vec(v) => {
                let mut out: Vec<T> = Vec::new();
                let mut i: usize = 0;
                let ghost items = src@->List_0;
                proof {
                    lemma_values(v@, v@.len());
                    assert(items.take(0) =~= Seq::empty());
                }
                while i < v.len()
                    invariant
                        i <= v.len(),
                        items.len() == v.len(),
                        forall|j: int| 0 <= j < v.len() ==> items[j] == v[j]@,
                        items_read(items.take(i as int), out@),
                    decreases v.len() - i,
                {
                    let ghost before = out@;
                    let one = T::from_token_meta(&v[i]);
                    proof {
                        let head = items.take(i + 1);
                        assert(head.drop_last() =~= items.take(i as int));
                        assert(head.last() == v[i as int]@);
                    }
                    match one {
                        Some(x) => {
                            out.push(x);
                            assert(out@.drop_last() =~= before);
                        },
                        None => {},
                    }
                    i = i + 1;
                }
                assert(items.take(v.len() as int) =~= items);
                Some(out)
            },
            _ => None,
        }
    }
}

/// What a token is: its name and its named fields, in the order of their
/// declaration.
pub ghost struct TokenModel {
    pub name: Seq<char>,
    pub fields: Seq<(Seq<char>, MetaValue)>,
}

/// The value of the first field called `name`.
pub open spec fn field_of(fields: Seq<(Seq<char>, MetaValue)>, name: Seq<char>) -> Option<
    MetaValue,
>
    decreases fields.len(),
{
    if fields.len() == 0 {
        None
    } else if fields[0].0 == name {
        Some(fields[0].1)
    } else {
        field_of(fields.drop_first(), name)
    }
}

/// A field that stands in the list is found under its name.
pub proof fn lemma_field_found(fields: Seq<(Seq<char>, MetaValue)>, i: int)
    requires
        0 <= i < fields.len(),
    ensures
        field_of(fields, fields[i].0) is Some,
    decreases fields.len(),
{
    if fields[0].0 != fields[i].0 {
        lemma_field_found(fields.drop_first(), i - 1);
    }
}

/// A token value that can be inspected without knowing its type.
pub trait FullToken {
    /// The token's name and fields.
    spec fn model(&self) -> TokenModel;

    /// The name that tells the token's kind.
    fn name(&self) -> (r: &'static str)
        ensures
            r@ == self.model().name,
    ;

    /// The value of the field called `name`, if the token has one.
    fn get_data(&self, name: &str) -> (r: Option<TokenMeta>)
        ensures
            r is Some <==> field_of(self.model().fields, name@) is Some,
            r is Some ==> field_of(self.model().fields, name@) == Some(r.unwrap()@),
    ;

    /// The names of the token's fields, in order.
    fn get_all_name(&self) -> (r: Vec<&'static str>)
        ensures
            r@.len() == self.model().fields.len(),
            forall|i: int| 0 <= i < r@.len() ==> (#[trigger] r@[i])@ == self.model().fields[i].0,
    ;

    /// Every field name with the value found under it.
    fn all_data(&self) -> (r: Vec<(&'static str, TokenMeta)>)
        ensures
            r@.len() == self.model().fields.len(),
            forall|i: int|
                0 <= i < r@.len() ==> {
                    &&& (#[trigger] r@[i]).0@ == self.model().fields[i].0
                    &&& Some(r@[i].1@) == field_of(self.model().fields, self.model().fields[i].0)
                },
    {
        let names = self.get_all_name();
        let mut out: Vec<(&'static str, TokenMeta)> = Vec::new();
        let mut i: usize = 0;
        while i < names.len()
            invariant
                i <= names.len(),
                out@.len() == i,
                names@.len() == self.model().fields.len(),
                forall|j: int|
                    0 <= j < names@.len() ==> (#[trigger] names@[j])@ == self.model().fields[j].0,
                forall|j: int|
                    0 <= j < i ==> {
                        &&& (#[trigger] out@[j]).0@ == self.model().fields[j].0
                        &&& Some(out@[j].1@) == field_of(
                            self.model().fields,
                            self.model().fields[j].0,
                        )
                    },
            decreases names.len() - i,
        {
            let k: &'static str = names[i];
            proof {
                lemma_field_found(self.model().fields, i as int);
            }
            match self.get_data(k) {
                Some(v) => {
                    out.push((k, v));
                },
                None => {},
            }
            i = i + 1;
        }
        out
    }
}

/// A token in its generic form: a name and a list of named fields.
#[derive(Debug, PartialEq, Eq)]
pub struct GenericToken {
    pub name: &'static str,
    pub fields: Vec<(&'static str, TokenMeta)>,
}

impl View for GenericToken {
    type V = TokenModel;

    open spec fn view(&self) -> TokenModel {
        TokenModel {
            name: self.name@,
            fields: Seq::new(
                self.fields@.len(),
                |i: int| (self.fields@[i].0@, self.fields@[i].1@),
            ),
        }
    }
}

impl Clone for GenericToken {
    fn clone(&self) -> (r: GenericToken)
        ensures
            r@ == self@,
    {
        let mut fields: Vec<(&'static str, TokenMeta)> = Vec::new();
        let mut i: usize = 0;
        while i < self.fields.len()
            invariant
                i <= self.fields.len(),
                fields@.len() == i,
                forall|j: int|
                    0 <= j < i ==> (#[trigger] fields@[j]).0@ == self.fields@[j].0@ && fields@[j].1@
                        == self.fields@[j].1@,
            decreases self.fields.len() - i,
        {
            let k: &'static str = self.fields[i].0;
            fields.push((k, self.fields[i].1.clone()));
            i = i + 1;
        }
        let r = GenericToken { name: self.name, fields };
        assert(r@.fields =~= self@.fields);
        r
    }
}

impl GenericToken {
    /// The generic form of a token of any type.
    pub fn of<T: FullToken>(token: &T) -> (r: GenericToken)
        ensures
            r@.name == token.model().name,
            r@.fields.len() == token.model().fields.len(),
            forall|i: int|
                0 <= i < r@.fields.len() ==> {
                    &&& (#[trigger] r@.fields[i]).0 == token.model().fields[i].0
                    &&& Some(r@.fields[i].1) == field_of(
                        token.model().fields,
                        token.model().fields[i].0,
                    )
                },
    {
        GenericToken { name: token.name(), fields: token.all_data() }
    }
}

impl FullToken for GenericToken {
    open spec fn model(&self) -> TokenModel {
        self@
    }

    fn name(&self) -> (r: &'static str) {
        self.name
    }

    fn get_data(&self, name: &str) -> (r: Option<TokenMeta>) {
        let mut i: usize = 0;
        assert(self@.fields.skip(0) =~= self@.fields);
        while i < self.fields.len()
            invariant
                i <= self.fields.len(),
                self@.fields.len() == self.fields.len(),
                field_of(self@.fields, name@) == field_of(self@.fields.skip(i as int), name@),
            decreases self.fields.len() - i,
        {
            proof {
                let rest = self@.fields.skip(i as int);
                assert(rest[0] == self@.fields[i as int]);
                assert(rest.drop_first() =~= self@.fields.skip(i + 1));
            }
            if str_eq(self.fields[i].0, name) {
                return Some(self.fields[i].1.clone());
            }
            i = i + 1;
        }
        None
    }

    fn get_all_name(&self) -> (r: Vec<&'static str>) {
        let mut out: Vec<&'static str> = Vec::new();
        let mut i: usize = 0;
        while i < self.fields.len()
            invariant
                i <= self.fields.len(),
                out@.len() == i,
                forall|j: int| 0 <= j < i ==> (#[trigger] out@[j])@ == self.fields@[j].0@,
            decreases self.fields.len() - i,
        {
            let k: &'static str = self.fields[i].0;
            out.push(k);
            i = i + 1;
        }
        out
    }
}

/// A typed token that can be recovered from the generic form.
pub trait FromToken: Sized + FullToken {
    /// The name of the kind.
    spec fn kind_name() -> Seq<char>;

    /// The token that `src` holds for this type, if it holds one: the name
    /// must be that of the kind and every declared field must be there with a
    /// value of its type.
    spec fn recovered(src: TokenModel) -> Option<TokenModel>;

    fn token_name() -> (r: &'static str)
        ensures
            r@ == Self::kind_name(),
    ;

    fn from_token(src: &GenericToken) -> (r: Option<Self>)
        ensures
            r is Some <==> Self::recovered(src@) is Some,
            r is Some ==> Self::recovered(src@) == Some(r.unwrap().model()),
    ;
}

/// What is bound to an accept state: it makes the token from the lexeme.
pub trait TokenTrait {
    /// The name of the rule.
    spec fn rule_name(&self) -> Seq<char>;

    /// The token made from the lexeme `buff`.
    spec fn full(&self, buff: Seq<char>) -> TokenModel;

    fn name(&self) -> (r: &'static str)
        ensures
            r@ == self.rule_name(),
    ;

    fn to_full(&self, buff: &[char]) -> (r: GenericToken)
        ensures
            r@ == self.full(buff@),
    ;
}

} // verus!
