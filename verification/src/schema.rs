//! Token kinds declared as data: a name and a table of fields with the kind
//! of value that each holds. A schema recovers the tokens of its kind from
//! the generic form, field by field.

use crate::token_trait::{
    field_of, lemma_values, str_eq, FullToken, GenericToken, MetaValue, Number, TokenMeta,
    TokenModel,
};
use vstd::prelude::*;

verus! {

/// The kind of value that a field holds.
#[derive(Debug, PartialEq, Eq)]
pub enum MetaKind {
    U8,
    U16,
    U32,
    U64,
    I8,
    I16,
    I32,
    I64,
    /// A single-precision float.
    FShort,
    /// A double-precision float.
    F,
    Bool,
    Char,
    Str,
    /// A list of values of one kind.
    List(Box<MetaKind>),
}

impl MetaKind {
    /// What `src` reads as under the kind, if it reads as anything: an
    /// unsigned or signed integer is cut to the width of the kind, a float
    /// has to be of the kind's precision, a boolean, a character and a
    /// string are taken as they are, and a list keeps the elements that read
    /// as the kind of its elements, in order.
    pub open spec fn converted(self, src: MetaValue) -> Option<MetaValue>
        decreases self, 0nat,
    {
        match (self, src) {
            (MetaKind::U8, MetaValue::Num(Number::P(u))) => Some(
                MetaValue::Num(Number::P((u as u8) as u64)),
            ),
            (MetaKind::U16, MetaValue::Num(Number::P(u))) => Some(
                MetaValue::Num(Number::P((u as u16) as u64)),
            ),
            (MetaKind::U32, MetaValue::Num(Number::P(u))) => Some(
                MetaValue::Num(Number::P((u as u32) as u64)),
            ),
            (MetaKind::U64, MetaValue::Num(Number::P(u))) => Some(src),
            (MetaKind::I8, MetaValue::Num(Number::N(i))) => Some(
                MetaValue::Num(Number::N((i as i8) as i64)),
            ),
            (MetaKind::I16, MetaValue::Num(Number::N(i))) => Some(
                MetaValue::Num(Number::N((i as i16) as i64)),
            ),
            (MetaKind::I32, MetaValue::Num(Number::N(i))) => Some(
                MetaValue::Num(Number::N((i as i32) as i64)),
            ),
            (MetaKind::I64, MetaValue::Num(Number::N(i))) => Some(src),
            (MetaKind::FShort, MetaValue::Num(Number::FShort(_))) => Some(src),
            (MetaKind::F, MetaValue::Num(Number::F(_))) => Some(src),
            (MetaKind::Bool, MetaValue::Bool(_)) => Some(src),
            (MetaKind::Char, MetaValue::Char(_)) => Some(src),
            (MetaKind::Str, MetaValue::Str(_)) => Some(src),
            (MetaKind::List(k), MetaValue::List(items)) => Some(
                MetaValue::List(k.converted_items(items, items.len())),
            ),
            _ => None,
        }
    }

    /// What the first `n` of `items` read as under the kind; those that do
    /// not read are left out.
    pub open spec fn converted_items(self, items: Seq<MetaValue>, n: nat) -> Seq<MetaValue>
        decreases self, n + 1,
    {
        if n == 0 || n > items.len() {
            Seq::empty()
        } else {
            let acc = self.converted_items(items, (n - 1) as nat);
            match self.converted(items[n - 1]) {
                Some(v) => acc.push(v),
                None => acc,
            }
        }
    }

    /// Reads `src` under the kind.
    pub fn convert(&self, src: &TokenMeta) -> (r: Option<TokenMeta>)
        ensures
            r is Some <==> self.converted(src@) is Some,
            r matches Some(v) ==> self.converted(src@) == Some(v@),
        decreases self,
    {
        match (self, src) {
            (MetaKind::U8, TokenMeta::Num(Number::P(u))) => {
                let cut: u8 = #[verifier::truncate]
                (*u as u8);
                Some(TokenMeta::Num(Number::P(cut as u64)))
            },
            (MetaKind::U16, TokenMeta::Num(Number::P(u))) => {
                let cut: u16 = #[verifier::truncate]
                (*u as u16);
                Some(TokenMeta::Num(Number::P(cut as u64)))
            },
            (MetaKind::U32, TokenMeta::Num(Number::P(u))) => {
                let cut: u32 = #[verifier::truncate]
                (*u as u32);
                Some(TokenMeta::Num(Number::P(cut as u64)))
            },
            (MetaKind::U64, TokenMeta::Num(Number::P(u))) => Some(TokenMeta::Num(Number::P(*u))),
            (MetaKind::I8, TokenMeta::Num(Number::N(i))) => {
                let cut: i8 = #[verifier::truncate]
                (*i as i8);
                Some(TokenMeta::Num(Number::N(cut as i64)))
            },
            (MetaKind::I16, TokenMeta::Num(Number::N(i))) => {
                let cut: i16 = #[verifier::truncate]
                (*i as i16);
                Some(TokenMeta::Num(Number::N(cut as i64)))
            },
            (MetaKind::I32, TokenMeta::Num(Number::N(i))) => {
                let cut: i32 = #[verifier::truncate]
                (*i as i32);
                Some(TokenMeta::Num(Number::N(cut as i64)))
            },
            (MetaKind::I64, TokenMeta::Num(Number::N(i))) => Some(TokenMeta::Num(Number::N(*i))),
            (MetaKind::FShort, TokenMeta::Num(Number::FShort(b))) => Some(
                TokenMeta::Num(Number::FShort(*b)),
            ),
            (MetaKind::F, TokenMeta::Num(Number::F(b))) => Some(TokenMeta::Num(Number::F(*b))),
            (MetaKind::Bool, TokenMeta::Bool(b)) => Some(TokenMeta::Bool(*b)),
            (MetaKind::Char, TokenMeta::Char(c)) => Some(TokenMeta::Char(*c)),
            (MetaKind::Str, TokenMeta::Str(s)) => Some(TokenMeta::Str(s.clone())),
            (MetaKind::List(k), TokenMeta::Vec(v)) => {
                let mut out: Vec<TokenMeta> = Vec::new();
                let mut i: usize = 0;
                let ghost items = src@->List_0;
                proof {
                    lemma_values(v@, v@.len());
                }
                while i < v.len()
                    invariant
                        i <= v.len(),
                        *self == MetaKind::List(*k),
                        items.len() == v.len(),
                        forall|j: int| 0 <= j < v.len() ==> items[j] == v[j]@,
                        out@.len() == k.converted_items(items, i as nat).len(),
                        forall|j: int|
                            0 <= j < out@.len() ==> out@[j]@ == k.converted_items(items, i as nat)[j],
                    decreases v.len() - i,
                {
                    assert(self->List_0 == *k);
                    match k.convert(&v[i]) {
                        Some(x) => {
                            out.push(x);
                        },
                        None => {},
                    }
                    i = i + 1;
                }
                let r = TokenMeta::Vec(out);
                proof {
                    lemma_values(out@, out@.len());
                    assert(r@->List_0 =~= k.converted_items(items, items.len()));
                }
                Some(r)
            },
            _ => None,
        }
    }
}

impl Clone for MetaKind {
    fn clone(&self) -> (r: MetaKind)
        ensures
            r == *self,
        decreases self,
    {
        match self {
            MetaKind::U8 => MetaKind::U8,
            MetaKind::U16 => MetaKind::U16,
            MetaKind::U32 => MetaKind::U32,
            MetaKind::U64 => MetaKind::U64,
            MetaKind::I8 => MetaKind::I8,
            MetaKind::I16 => MetaKind::I16,
            MetaKind::I32 => MetaKind::I32,
            MetaKind::I64 => MetaKind::I64,
            MetaKind::FShort => MetaKind::FShort,
            MetaKind::F => MetaKind::F,
            MetaKind::Bool => MetaKind::Bool,
            MetaKind::Char => MetaKind::Char,
            MetaKind::Str => MetaKind::Str,
            MetaKind::List(k) => MetaKind::List(Box::new((**k).clone())),
        }
    }
}

/// The fields that a token has under a list of declarations: for each of
/// the first `n` declarations, in order, the value of the field of its
/// name, read under its kind. Nothing if a field is missing or does not
/// read.
pub open spec fn recovered_fields(
    declared: Seq<(Seq<char>, MetaKind)>,
    fields: Seq<(Seq<char>, MetaValue)>,
    n: nat,
) -> Option<Seq<(Seq<char>, MetaValue)>>
    decreases n,
{
    if n == 0 || n > declared.len() {
        Some(Seq::empty())
    } else {
        match (
            recovered_fields(declared, fields, (n - 1) as nat),
            field_of(fields, declared[n - 1].0),
        ) {
            (Some(acc), Some(m)) => match declared[n - 1].1.converted(m) {
                Some(v) => Some(acc.push((declared[n - 1].0, v))),
                None => None,
            },
            _ => None,
        }
    }
}

/// A token kind declared as data.
#[derive(Debug, PartialEq, Eq)]
pub struct TokenSchema {
    pub name: &'static str,
    pub fields: Vec<(&'static str, MetaKind)>,
}

impl TokenSchema {
    /// The declarations, by name.
    pub open spec fn declared(&self) -> Seq<(Seq<char>, MetaKind)> {
        Seq::new(self.fields@.len(), |i: int| (self.fields@[i].0@, self.fields@[i].1))
    }

    /// The token of this kind that `src` holds, if it holds one: the name
    /// has to be the name of the kind, and every declared field has to be
    /// there with a value that reads under its kind.
    pub open spec fn recovered(&self, src: TokenModel) -> Option<TokenModel> {
        if src.name == self.name@ {
            match recovered_fields(self.declared(), src.fields, self.declared().len()) {
                Some(fields) => Some(TokenModel { name: self.name@, fields }),
                None => None,
            }
        } else {
            None
        }
    }

    /// The kind called `name`, with no field yet.
    pub fn new(name: &'static str) -> (r: TokenSchema)
        ensures
            r.name == name,
            r.fields@.len() == 0,
    {
        TokenSchema { name, fields: Vec::new() }
    }

    /// Declares one more field.
    pub fn register_field(&mut self, name: &'static str, kind: MetaKind)
        ensures
            final(self).name == old(self).name,
            final(self).fields@ == old(self).fields@.push((name, kind)),
            final(self).declared() == old(self).declared().push((name@, kind)),
    {
        self.fields.push((name, kind));
        assert(self.declared() =~= old(self).declared().push((name@, kind)));
    }

    /// The name of the kind.
    pub fn token_name(&self) -> (r: &'static str)
        ensures
            r == self.name,
    {
        self.name
    }

    /// The names of the declared fields, in order.
    pub fn get_all_name(&self) -> (r: Vec<&'static str>)
        ensures
            r@.len() == self.declared().len(),
            forall|i: int| 0 <= i < r@.len() ==> (#[trigger] r@[i])@ == self.declared()[i].0,
    {
        let mut out: Vec<&'static str> = Vec::new();
        let mut i: usize = 0;
        while i < self.fields.len()
            invariant
                i <= self.fields.len(),
                out@.len() == i,
                forall|j: int| 0 <= j < i ==> (#[trigger] out@[j])@ == self.fields@[j].0@,
            decreases self.fields.len() - i,
        {
            let k: &'static str = self.fields[i].0;
            out.push(k);
            i = i + 1;
        }
        out
    }

    /// Recovers the token of this kind from the generic form.
    pub fn from_token(&self, src: &GenericToken) -> (r: Option<GenericToken>)
        ensures
            r is Some <==> self.recovered(src@) is Some,
            r matches Some(t) ==> self.recovered(src@) == Some(t@),
    {
        if !str_eq(src.name, self.name) {
            return None;
        }
        let mut out: Vec<(&'static str, TokenMeta)> = Vec::new();
        let mut i: usize = 0;
        let ghost declared = self.declared();
        while i < self.fields.len()
            invariant
                i <= self.fields.len(),
                declared == self.declared(),
                declared.len() == self.fields.len(),
                src@.name == self.name@,
                recovered_fields(declared, src@.fields, i as nat) matches Some(acc) && acc.len()
                    == out@.len() && (forall|j: int|
                    0 <= j < out@.len() ==> acc[j] == ((#[trigger] out@[j]).0@, out@[j].1@)),
            decreases self.fields.len() - i,
        {
            let name: &'static str = self.fields[i].0;
            assert(declared[i as int] == (name@, self.fields@[i as int].1));
            match src.get_data(name) {
                Some(m) => {
                    match self.fields[i].1.convert(&m) {
                        Some(v) => {
                            out.push((name, v));
                        },
                        None => {
                            proof {
                                lemma_recovery_fails(declared, src@.fields, i as nat + 1, declared.len());
                            }
                            return None;
                        },
                    }
                },
                None => {
                    proof {
                        lemma_recovery_fails(declared, src@.fields, i as nat + 1, declared.len());
                    }
                    return None;
                },
            }
            i = i + 1;
        }
        let r = GenericToken { name: self.name, fields: out };
        proof {
            let acc = recovered_fields(declared, src@.fields, declared.len())->0;
            assert(r@.fields =~= acc);
        }
        Some(r)
    }
}

/// Once a declared field cannot be recovered, no longer list of
/// declarations can.
pub proof fn lemma_recovery_fails(
    declared: Seq<(Seq<char>, MetaKind)>,
    fields: Seq<(Seq<char>, MetaValue)>,
    i: nat,
    n: nat,
)
    requires
        0 < i <= n <= declared.len(),
        recovered_fields(declared, fields, i) is None,
    ensures
        recovered_fields(declared, fields, n) is None,
    decreases n,
{
    if n > i {
        lemma_recovery_fails(declared, fields, i, (n - 1) as nat);
    }
}

} // verus!
