//! Character classes: predicates over one character, closed under
//! conjunction, disjunction and negation.

use vstd::prelude::*;

verus! {

/// Whether `c` is alphabetic according to the Unicode tables that
/// `char::is_alphabetic` consults.
pub uninterp spec fn unicode_alphabetic(c: char) -> bool;

/// Whether `c` is a lowercase letter according to `char::is_lowercase`.
pub uninterp spec fn unicode_lowercase(c: char) -> bool;

/// Whether `c` is an uppercase letter according to `char::is_uppercase`.
pub uninterp spec fn unicode_uppercase(c: char) -> bool;

/// Whether `c` carries the White_Space property according to
/// `char::is_whitespace`.
pub uninterp spec fn unicode_whitespace(c: char) -> bool;

/// Whether `c` is numeric according to `char::is_numeric`.
pub uninterp spec fn unicode_numeric(c: char) -> bool;

/// The digit characters of a radix: `0-9`, then `a-z` or `A-Z` for the
/// values from ten on.
pub open spec fn digit_in_radix(c: char, radix: u32) -> bool {
    if '0' <= c <= '9' {
        (c as u32) - ('0' as u32) < radix
    } else if 'a' <= c <= 'z' {
        (c as u32) - ('a' as u32) + 10 < radix
    } else if 'A' <= c <= 'Z' {
        (c as u32) - ('A' as u32) + 10 < radix
    } else {
        false
    }
}

/// `char::is_digit`: true exactly on the digits of the radix. The standard
/// function panics outside the radices 2 to 36, which the precondition
/// excludes.
pub assume_specification[ char::is_digit ](c: char, radix: u32) -> (b: bool)
    requires
        2 <= radix <= 36,
    ensures
        b == digit_in_radix(c, radix),
;

/// `char::is_alphabetic`: the result is a fixed function of the character.
pub assume_specification[ char::is_alphabetic ](c: char) -> (b: bool)
    ensures
        b == unicode_alphabetic(c),
;

/// `char::is_lowercase`: the result is a fixed function of the character.
pub assume_specification[ char::is_lowercase ](c: char) -> (b: bool)
    ensures
        b == unicode_lowercase(c),
;

/// `char::is_uppercase`: the result is a fixed function of the character.
pub assume_specification[ char::is_uppercase ](c: char) -> (b: bool)
    ensures
        b == unicode_uppercase(c),
;

/// `char::is_whitespace`: the result is a fixed function of the character.
pub assume_specification[ char::is_whitespace ](c: char) -> (b: bool)
    ensures
        b == unicode_whitespace(c),
;

/// `char::is_numeric`: the result is a fixed function of the character.
pub assume_specification[ char::is_numeric ](c: char) -> (b: bool)
    ensures
        b == unicode_numeric(c),
;

/// `char::is_ascii`: true exactly on the code points up to U+007F.
pub assume_specification[ char::is_ascii ](c: &char) -> (b: bool)
    ensures
        b == ((*c as u32) <= 0x7f),
;

/// A predicate over a single character.
#[derive(Debug, Hash, PartialEq, Eq)]
pub enum AnyType {
    /// Every character.
    Any,
    /// A decimal digit.
    Digit,
    /// An alphabetic character.
    Alphabet,
    /// A lowercase letter.
    LowerCase,
    /// An uppercase letter.
    UpperCase,
    /// A whitespace character.
    WhiteSpace,
    /// A numeric character.
    Numer,
    /// An ASCII character.
    Ascii,
    /// Exactly this character.
    Char(char),
    /// A custom predicate known only by its id; it matches nothing by itself.
    Orther(usize),
    /// Either operand.
    Or(Box<AnyType>, Box<AnyType>),
    /// Both operands.
    And(Box<AnyType>, Box<AnyType>),
    /// Not the operand.
    Not(Box<AnyType>),
}

impl AnyType {
    /// The set of characters that the class holds.
    pub open spec fn matches(self, input: char) -> bool
        decreases self,
    {
        match self {
            AnyType::Any => true,
            AnyType::Digit => digit_in_radix(input, 10),
            AnyType::Alphabet => unicode_alphabetic(input),
            AnyType::LowerCase => unicode_lowercase(input),
            AnyType::UpperCase => unicode_uppercase(input),
            AnyType::WhiteSpace => unicode_whitespace(input),
            AnyType::Numer => unicode_numeric(input),
            AnyType::Ascii => (input as u32) <= 0x7f,
            AnyType::Char(c) => input == c,
            AnyType::Orther(_) => false,
            AnyType::Or(l, r) => l.matches(input) || r.matches(input),
            AnyType::And(l, r) => l.matches(input) && r.matches(input),
            AnyType::Not(s) => !s.matches(input),
        }
    }

    /// The sub-predicate that fires on `input`: the first matching operand
    /// of a disjunction, searched left to right, or the class itself when it
    /// is no disjunction and matches.
    pub open spec fn narrowed(self, input: char) -> Option<AnyType>
        decreases self,
    {
        match self {
            AnyType::Or(l, r) => match l.narrowed(input) {
                Some(p) => Some(p),
                None => r.narrowed(input),
            },
            _ => if self.matches(input) {
                Some(self)
            } else {
                None
            },
        }
    }

    /// Whether the class is free of disjunction at its top.
    pub open spec fn is_disjunct(self) -> bool {
        !(self is Or)
    }

    pub fn is_match(&self, input: char) -> (b: bool)
        ensures
            b == self.matches(input),
        decreases self,
    {
        match self {
            AnyType::Any => true,
            AnyType::Digit => input.is_digit(10),
            AnyType::Alphabet => input.is_alphabetic(),
            AnyType::LowerCase => input.is_lowercase(),
            AnyType::UpperCase => input.is_uppercase(),
            AnyType::WhiteSpace => input.is_whitespace(),
            AnyType::Numer => input.is_numeric(),
            AnyType::Ascii => input.is_ascii(),
            AnyType::Char(c) => input == *c,
            AnyType::Orther(_) => false,
            AnyType::Or(l, r) => l.is_match(input) || r.is_match(input),
            AnyType::And(l, r) => l.is_match(input) && r.is_match(input),
            AnyType::Not(s) => !s.is_match(input),
        }
    }

}

impl Clone for AnyType {
    fn clone(&self) -> (r: AnyType)
        ensures
            r == *self,
        decreases self,
    {
        match self {
            AnyType::Any => AnyType::Any,
            AnyType::Digit => AnyType::Digit,
            AnyType::Alphabet => AnyType::Alphabet,
            AnyType::LowerCase => AnyType::LowerCase,
            AnyType::UpperCase => AnyType::UpperCase,
            AnyType::WhiteSpace => AnyType::WhiteSpace,
            AnyType::Numer => AnyType::Numer,
            AnyType::Ascii => AnyType::Ascii,
            AnyType::Char(c) => AnyType::Char(*c),
            AnyType::Orther(i) => AnyType::Orther(*i),
            AnyType::Or(l, r) => AnyType::Or(Box::new((**l).clone()), Box::new((**r).clone())),
            AnyType::And(l, r) => AnyType::And(Box::new((**l).clone()), Box::new((**r).clone())),
            AnyType::Not(s) => AnyType::Not(Box::new((**s).clone())),
        }
    }
}

impl AnyType {
    /// Structural equality of two classes.
    pub fn same(&self, other: &AnyType) -> (b: bool)
        ensures
            b == (*self == *other),
        decreases self,
    {
        match (self, other) {
            (AnyType::Any, AnyType::Any) => true,
            (AnyType::Digit, AnyType::Digit) => true,
            (AnyType::Alphabet, AnyType::Alphabet) => true,
            (AnyType::LowerCase, AnyType::LowerCase) => true,
            (AnyType::UpperCase, AnyType::UpperCase) => true,
            (AnyType::WhiteSpace, AnyType::WhiteSpace) => true,
            (AnyType::Numer, AnyType::Numer) => true,
            (AnyType::Ascii, AnyType::Ascii) => true,
            (AnyType::Char(a), AnyType::Char(b)) => *a == *b,
            (AnyType::Orther(a), AnyType::Orther(b)) => *a == *b,
            (AnyType::Or(a, b), AnyType::Or(c, d)) => a.same(c) && b.same(d),
            (AnyType::And(a, b), AnyType::And(c, d)) => a.same(c) && b.same(d),
            (AnyType::Not(a), AnyType::Not(b)) => a.same(b),
            _ => false,
        }
    }

    /// The sub-predicate that fires on `input`, if the class matches it.
    /// What is handed back matches the character and is no disjunction.
    pub fn type_match(&self, input: char) -> (r: Option<AnyType>)
        ensures
            r == self.narrowed(input),
            r is Some <==> self.matches(input),
            r matches Some(p) ==> p.matches(input) && p.is_disjunct(),
        decreases self,
    {
        proof {
            lemma_narrowed_fires(*self, input);
        }
        match self {
            AnyType::Or(l, r) => {
                match l.type_match(input) {
                    Some(p) => Some(p),
                    None => r.type_match(input),
                }
            },
            _ => {
                if self.is_match(input) {
                    Some(self.clone())
                } else {
                    None
                }
            },
        }
    }
}

/// The sub-predicate that fires matches the character and is no
/// disjunction, and there is one exactly when the class matches.
pub proof fn lemma_narrowed_fires(class: AnyType, input: char)
    ensures
        class.narrowed(input) is Some <==> class.matches(input),
        class.narrowed(input) matches Some(p) ==> p.matches(input) && p.is_disjunct(),
    decreases class,
{
    match class {
        AnyType::Or(l, r) => {
            lemma_narrowed_fires(*l, input);
            lemma_narrowed_fires(*r, input);
        },
        _ => {},
    }
}

} // verus!

verus! {

impl core::ops::BitOr for AnyType {
    type Output = AnyType;

    fn bitor(self, rhs: AnyType) -> (r: AnyType) {
        AnyType::Or(Box::new(self), Box::new(rhs))
    }
}

impl vstd::std_specs::ops::BitOrSpecImpl for AnyType {
    open spec fn obeys_bitor_spec() -> bool {
        true
    }

    open spec fn bitor_req(self, rhs: AnyType) -> bool {
        true
    }

    open spec fn bitor_spec(self, rhs: AnyType) -> AnyType {
        AnyType::Or(Box::new(self), Box::new(rhs))
    }
}

impl core::ops::BitAnd for AnyType {
    type Output = AnyType;

    fn bitand(self, rhs: AnyType) -> (r: AnyType) {
        AnyType::And(Box::new(self), Box::new(rhs))
    }
}

impl vstd::std_specs::ops::BitAndSpecImpl for AnyType {
    open spec fn obeys_bitand_spec() -> bool {
        true
    }

    open spec fn bitand_req(self, rhs: AnyType) -> bool {
        true
    }

    open spec fn bitand_spec(self, rhs: AnyType) -> AnyType {
        AnyType::And(Box::new(self), Box::new(rhs))
    }
}

impl core::ops::Not for AnyType {
    type Output = AnyType;

    fn not(self) -> (r: AnyType) {
        AnyType::Not(Box::new(self))
    }
}

impl vstd::std_specs::ops::NotSpecImpl for AnyType {
    open spec fn obeys_not_spec() -> bool {
        true
    }

    open spec fn not_req(self) -> bool {
        true
    }

    open spec fn not_spec(self) -> AnyType {
        AnyType::Not(Box::new(self))
    }
}

} // verus!
