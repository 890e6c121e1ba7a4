//! Field values, with protected strings kept in locked memory through secstr.

use vstd::prelude::*;
use secstr::{SecStr, SecVec};
use vstd::string::{StrSliceExecFns, StringSliceAdditionalSpecFns};

verus! {

#[verifier::external_type_specification]
#[verifier::external_body]
#[verifier::reject_recursive_types(T)]
pub struct ExSecVec<T: Sized + Copy>(SecVec<T>);

/// The bytes held in a protected memory region.
pub uninterp spec fn secret_bytes(s: SecStr) -> Seq<u8>;

/// Relies on secstr::SecVec::new: the region holds exactly the given bytes.
#[verifier::external_body]
fn protect(bytes: Vec<u8>) -> (r: SecStr)
    ensures
        secret_bytes(r) == bytes@,
{
    SecStr::new(bytes)
}

/// Relies on secstr::SecVec::unsecure: a copy of the bytes held.
#[verifier::external_body]
fn exposed_bytes(s: &SecStr) -> (r: Vec<u8>)
    ensures
        r@ == secret_bytes(*s),
{
    s.unsecure().to_vec()
}

/// Relies on secstr's PartialEq for SecVec: equal exactly when the held
/// bytes are equal (compared in constant time).
#[verifier::external_body]
fn secret_eq(a: &SecStr, b: &SecStr) -> (r: bool)
    ensures
        r == (secret_bytes(*a) == secret_bytes(*b)),
{
    a == b
}

/// Relies on std::str::from_utf8: text exactly when the bytes are valid
/// UTF-8, and then the text they encode.
#[verifier::external_body]
fn utf8_text(b: &[u8]) -> (r: Option<String>)
    ensures
        r.is_some() == vstd::utf8::valid_utf8(b@),
        r.is_some() ==> r.unwrap()@ == vstd::utf8::decode_utf8(b@),
{
    std::str::from_utf8(b).ok().map(|s| s.to_string())
}

/// A value that lives in the tree as plain data and compares by content.
pub trait Structured: View + Sized {
    /// Equal as data.
    fn same_as(&self, other: &Self) -> (r: bool)
        ensures
            r == (self@ == other@);

    /// An independent copy holding the same data.
    fn duplicate(&self) -> (r: Self)
        ensures
            r@ == self@;
}

/// A field value: raw bytes, a plain string, or a string kept in protected memory.
pub enum Value {
    Bytes(Vec<u8>),
    Unprotected(String),
    Protected(SecStr),
}

/// What a field value holds. A protected string is seen as its bytes.
pub enum ValueView {
    Bytes(Seq<u8>),
    Unprotected(Seq<char>),
    Protected(Seq<u8>),
}

impl View for Value {
    type V = ValueView;

    open spec fn view(&self) -> ValueView {
        match self {
            Value::Bytes(b) => ValueView::Bytes(b@),
            Value::Unprotected(s) => ValueView::Unprotected(s@),
            Value::Protected(p) => ValueView::Protected(secret_bytes(*p)),
        }
    }
}

impl ValueView {
    pub open spec fn is_empty(self) -> bool {
        match self {
            ValueView::Bytes(b) => b.len() == 0,
            ValueView::Unprotected(s) => s.len() == 0,
            ValueView::Protected(p) => p.len() == 0,
        }
    }

    /// The text of a value, where it has one: a plain string, or protected
    /// bytes that are valid UTF-8.
    pub open spec fn text(self) -> Option<Seq<char>> {
        match self {
            ValueView::Bytes(_) => None,
            ValueView::Unprotected(s) => Some(s),
            ValueView::Protected(p) => if vstd::utf8::valid_utf8(p) {
                Some(vstd::utf8::decode_utf8(p))
            } else {
                None
            },
        }
    }
}

pub fn bytes_equal(a: &Vec<u8>, b: &Vec<u8>) -> (r: bool)
    ensures
        r == (a@ == b@),
{
    if a.len() != b.len() {
        return false;
    }
    let mut i: usize = 0;
    while i < a.len()
        invariant
            a.len() == b.len(),
            0 <= i <= a.len(),
            forall|j: int| 0 <= j < i ==> a@[j] == b@[j],
        decreases a.len() - i,
    {
        if a[i] != b[i] {
            return false;
        }
        i += 1;
    }
    assert(a@ =~= b@);
    true
}

pub fn bytes_copy(a: &Vec<u8>) -> (r: Vec<u8>)
    ensures
        r@ == a@,
{
    let mut r: Vec<u8> = Vec::new();
    let mut i: usize = 0;
    while i < a.len()
        invariant
            0 <= i <= a.len(),
            r@ == a@.subrange(0, i as int),
        decreases a.len() - i,
    {
        r.push(a[i]);
        i += 1;
        assert(r@ =~= a@.subrange(0, i as int));
    }
    assert(a@.subrange(0, a.len() as int) =~= a@);
    r
}

impl Value {
    /// Whether the value holds nothing (no bytes, an empty string).
    pub fn is_empty(&self) -> (r: bool)
        ensures
            r == self@.is_empty(),
    {
        match self {
            Value::Bytes(b) => b.len() == 0,
            Value::Unprotected(u) => u.as_str().unicode_len() == 0,
            Value::Protected(p) => exposed_bytes(p).len() == 0,
        }
    }

    /// A protected value holding the UTF-8 bytes of `s`.
    pub fn protected_str(s: &str) -> (r: Value)
        ensures
            r@ == ValueView::Protected(s.spec_bytes()),
    {
        let b = s.as_bytes();
        let mut v: Vec<u8> = Vec::new();
        let mut i: usize = 0;
        while i < b.len()
            invariant
                0 <= i <= b@.len(),
                b@ == s.spec_bytes(),
                v@ == b@.subrange(0, i as int),
            decreases b@.len() - i,
        {
            v.push(b[i]);
            i += 1;
            assert(v@ =~= b@.subrange(0, i as int));
        }
        assert(b@.subrange(0, b@.len() as int) =~= b@);
        Value::Protected(protect(v))
    }

    /// The text of the value: a plain string as it is, protected bytes
    /// decoded as UTF-8; raw bytes have none.
    pub fn text(&self) -> (r: Option<String>)
        ensures
            r.is_some() == self@.text().is_some(),
            r.is_some() ==> r.unwrap()@ == self@.text().unwrap(),
    {
        match self {
            Value::Bytes(_) => None,
            Value::Unprotected(s) => Some(s.clone()),
            Value::Protected(p) => {
                let b = exposed_bytes(p);
                utf8_text(b.as_slice())
            },
        }
    }
}

impl Structured for Value {
    fn same_as(&self, other: &Value) -> (r: bool) {
        match self {
            Value::Bytes(a) => match other {
                Value::Bytes(b) => bytes_equal(a, b),
                Value::Unprotected(_) => false,
                Value::Protected(_) => false,
            },
            Value::Unprotected(a) => match other {
                Value::Unprotected(b) => *a == *b,
                _ => false,
            },
            Value::Protected(a) => match other {
                Value::Protected(b) => secret_eq(a, b),
                _ => false,
            },
        }
    }

    fn duplicate(&self) -> (r: Value) {
        match self {
            Value::Bytes(b) => Value::Bytes(bytes_copy(b)),
            Value::Unprotected(s) => Value::Unprotected(s.clone()),
            Value::Protected(p) => Value::Protected(protect(exposed_bytes(p))),
        }
    }
}

} // verus!
