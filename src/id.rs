use std::marker::PhantomData;
use vstd::prelude::*;

use crate::encoding::{
    be_bytes, be_u64, lemma_be_bytes_round_trip, lemma_be_round_trip, lemma_decode_encode, chars_of, decode, decode_chars, encode, encode_chars, push_chars, u64_from_be,
    u64_to_be,
};
use crate::encoding::{symbol_value, DecodeError};
use crate::error::Error;
use crate::Type;

verus! {

/// Type of the underlying data stored in an `Id`.
pub type IdBytes = [u8; 8];

/// A typed 64-bit identifier.
pub struct Id<T: Type + ?Sized> {
    marker: PhantomData<T>,
    value: IdBytes,
}

impl<T: Type + ?Sized> Id<T> {
    /// The eight bytes of the identifier.
    pub closed spec fn bytes(&self) -> Seq<u8> {
        self.value@
    }

    /// Create a new `Id<T>` with the given underlying value.
    pub fn new(value: [u8; 8]) -> (r: Self)
        ensures
            r.bytes() == value@,
    {
        Self { marker: PhantomData, value }
    }

    /// Get the data value of the identifier.
    pub fn as_bytes(&self) -> (r: &[u8; 8])
        ensures
            r@ == self.bytes(),
    {
        &self.value
    }

    /// Get the data value of the identifier.
    pub fn to_bytes(self) -> (r: [u8; 8])
        ensures
            r@ == self.bytes(),
    {
        self.value
    }

    /// Get the data value of the identifier as a `u64`, most significant byte first.
    pub fn to_u64(self) -> (r: u64)
        ensures
            r == be_u64(self.bytes()),
    {
        u64_from_be(self.value)
    }

    /// Get the data value of the identifier as an `i64`, with the bits of `to_u64`.
    pub fn to_i64(self) -> (r: i64)
        ensures
            r == be_u64(self.bytes()) as i64,
    {
        u64_from_be(self.value) as i64
    }

    /// Create an `Id<T>` whose `to_u64` is `v`.
    pub fn from_u64(v: u64) -> (r: Self)
        ensures
            r.bytes() == be_bytes(v),
    {
        Self::new(u64_to_be(v))
    }

    /// Create an `Id<T>` whose `to_i64` is `v`.
    pub fn from_i64(v: i64) -> (r: Self)
        ensures
            r.bytes() == be_bytes(v as u64),
    {
        Self::new(u64_to_be(v as u64))
    }

    /// Test to see if the provided string is a valid `Id<T>`.
    pub fn test(value: &str) -> (r: bool)
        ensures
            r <==> parses::<T>(value@),
    {
        let r = Self::parse(value);
        proof {
            if r is Ok {
                let i = choose|i: int| first_sep(value@, i);
                assert(parse_result::<T>(value@.take(i), value@.skip(i + 1), r));
            }
            if parses::<T>(value@) {
                let i = choose|i: int| first_sep(value@, i) && value@.take(i) == T::spec_prefix() && decode(value@.skip(i + 1)) is Ok;
                assert(parse_result::<T>(value@.take(i), value@.skip(i + 1), r));
            }
        }
        r.is_ok()
    }

    /// Attempt to parse the provided string into an `Id<T>`.
    pub fn parse(value: &str) -> (r: Result<Self, Error>)
        ensures
            (forall|i: int| 0 <= i < value@.len() ==> value@[i] != '_') ==> r matches Err(Error::InvalidFormat),
            forall|i: int| first_sep(value@, i) ==> parse_result::<T>(value@.take(i), value@.skip(i + 1), r),
            !(r matches Err(Error::InvalidFormat)) ==> exists|i: int| first_sep(value@, i),
    {
        let cs = chars_of(value);
        let mut i: usize = 0;
        while i < cs.len() && cs[i] != '_'
            invariant
                cs@ == value@,
                i <= cs.len(),
                forall|j: int| 0 <= j < i ==> cs@[j] != '_',
            decreases cs.len() - i,
        {
            i = i + 1;
        }
        if i == cs.len() {
            return Err(Error::InvalidFormat);
        }
        let left = sub_chars(&cs, 0, i);
        let right = sub_chars(&cs, i + 1, cs.len());
        assert(first_sep(value@, i as int));
        assert(left@ =~= value@.take(i as int));
        assert(right@ =~= value@.skip(i + 1));
        let expected = T::prefix();
        let pcs = chars_of(expected);
        if !same_chars(&left, &pcs) {
            let mut actual = String::new();
            push_chars(&mut actual, &left);
            return Err(Error::PrefixMismatch { expected, actual });
        }
        match decode_chars(&right) {
            Ok(v) => Ok(Self::new(u64_to_be(v))),
            Err(e) => Err(Error::InvalidPayload(e)),
        }
    }

    /// Get the prefix of this identifier.
    pub fn prefix(self) -> (r: &'static str)
        ensures
            r@ == T::spec_prefix(),
    {
        T::prefix()
    }

    /// The text form of this identifier: its prefix, `_`, then its token.
    pub fn to_string(&self) -> (r: String)
        ensures
            r@ == text_of::<T>(self.bytes()),
    {
        let mut s = String::new();
        let pcs = chars_of(T::prefix());
        push_chars(&mut s, &pcs);
        let sep: Vec<char> = vec!['_'];
        push_chars(&mut s, &sep);
        let token = encode_chars(u64_from_be(self.value));
        push_chars(&mut s, &token);
        proof {
            assert(sep@ =~= seq!['_']);
        }
        s
    }
}


impl<T: Type + ?Sized> Copy for Id<T> {}

impl<T: Type + ?Sized> Clone for Id<T> {
    fn clone(&self) -> (r: Self)
        ensures
            r == *self,
    {
        *self
    }
}

impl<T: Type + ?Sized> PartialEq for Id<T> {
    fn eq(&self, other: &Self) -> (r: bool) {
        u64_from_be(self.value) == u64_from_be(other.value)
    }
}

impl<T: Type + ?Sized> vstd::std_specs::cmp::PartialEqSpecImpl for Id<T> {
    open spec fn obeys_eq_spec() -> bool {
        true
    }

    open spec fn eq_spec(&self, other: &Self) -> bool {
        be_u64(self.bytes()) == be_u64(other.bytes())
    }
}

/// The order of two numbers.
pub open spec fn order_of(a: u64, b: u64) -> std::cmp::Ordering {
    if a < b {
        std::cmp::Ordering::Less
    } else if a == b {
        std::cmp::Ordering::Equal
    } else {
        std::cmp::Ordering::Greater
    }
}

impl<T: Type + ?Sized> PartialOrd for Id<T> {
    fn partial_cmp(&self, other: &Self) -> (r: Option<std::cmp::Ordering>) {
        let a = u64_from_be(self.value);
        let b = u64_from_be(other.value);
        if a < b {
            Some(std::cmp::Ordering::Less)
        } else if a == b {
            Some(std::cmp::Ordering::Equal)
        } else {
            Some(std::cmp::Ordering::Greater)
        }
    }
}

impl<T: Type + ?Sized> vstd::std_specs::cmp::PartialOrdSpecImpl for Id<T> {
    open spec fn obeys_partial_cmp_spec() -> bool {
        true
    }

    open spec fn partial_cmp_spec(&self, other: &Self) -> Option<std::cmp::Ordering> {
        Some(order_of(be_u64(self.bytes()), be_u64(other.bytes())))
    }
}

/// Whether `i` is the position of the first `_` in `s`.
pub open spec fn first_sep(s: Seq<char>, i: int) -> bool {
    &&& 0 <= i < s.len()
    &&& s[i] == '_'
    &&& forall|j: int| 0 <= j < i ==> s[j] != '_'
}

/// What parsing gives for the part `left` before the first `_` and the part `right` after it.
pub open spec fn parse_result<T: Type + ?Sized>(left: Seq<char>, right: Seq<char>, r: Result<Id<T>, Error>) -> bool {
    if left != T::spec_prefix() {
        r matches Err(Error::PrefixMismatch { expected, actual }) && expected@ == T::spec_prefix() && actual@ == left
    } else {
        match decode(right) {
            Ok(v) => r matches Ok(id) && id.bytes() == be_bytes(v),
            Err(e) => r == Err::<Id<T>, Error>(Error::InvalidPayload(e)),
        }
    }
}

/// Whether `s` is the text form of an identifier of logical type `T`.
pub open spec fn parses<T: Type + ?Sized>(s: Seq<char>) -> bool {
    exists|i: int| first_sep(s, i) && s.take(i) == T::spec_prefix() && decode(s.skip(i + 1)) is Ok
}

/// The text form of the identifier of logical type `T` with bytes `b`.
pub open spec fn text_of<T: Type + ?Sized>(b: Seq<u8>) -> Seq<char> {
    T::spec_prefix() + seq!['_'] + encode(be_u64(b))
}

/// The characters of `v` from `from` up to `to`.
fn sub_chars(v: &Vec<char>, from: usize, to: usize) -> (r: Vec<char>)
    requires
        from <= to <= v.len(),
    ensures
        r@ == v@.subrange(from as int, to as int),
{
    let mut r: Vec<char> = Vec::new();
    let mut i: usize = from;
    while i < to
        invariant
            from <= i <= to <= v.len(),
            r@ == v@.subrange(from as int, i as int),
        decreases to - i,
    {
        r.push(v[i]);
        proof {
            assert(v@.subrange(from as int, i + 1) =~= v@.subrange(from as int, i as int).push(v@[i as int]));
        }
        i = i + 1;
    }
    r
}

/// Whether `a` and `b` hold the same characters.
fn same_chars(a: &Vec<char>, b: &Vec<char>) -> (r: bool)
    ensures
        r <==> a@ == b@,
{
    if a.len() != b.len() {
        return false;
    }
    let mut i: usize = 0;
    while i < a.len()
        invariant
            a.len() == b.len(),
            i <= a.len(),
            forall|j: int| 0 <= j < i ==> a@[j] == b@[j],
        decreases a.len() - i,
    {
        if a[i] != b[i] {
            return false;
        }
        i = i + 1;
    }
    assert(a@ =~= b@);
    true
}


/// Formatting an identifier and parsing the text back gives the same bytes: the text has its
/// first `_` right after the prefix, the prefix matches, and the token decodes to the bytes.
pub proof fn lemma_parse_format<T: Type + ?Sized>(b: Seq<u8>)
    requires
        b.len() == 8,
        forall|j: int| 0 <= j < T::spec_prefix().len() ==> T::spec_prefix()[j] != '_',
    ensures
        first_sep(text_of::<T>(b), T::spec_prefix().len() as int),
        text_of::<T>(b).take(T::spec_prefix().len() as int) == T::spec_prefix(),
        decode(text_of::<T>(b).skip(T::spec_prefix().len() as int + 1)) == Ok::<u64, DecodeError>(be_u64(b)),
        be_bytes(be_u64(b)) == b,
        parses::<T>(text_of::<T>(b)),
{
    let p = T::spec_prefix();
    let s = text_of::<T>(b);
    let n = p.len() as int;
    assert(s[n] == '_');
    assert forall|j: int| 0 <= j < n implies s[j] != '_' by {
        assert(s[j] == p[j]);
    }
    assert(s.take(n) =~= p);
    assert(s.skip(n + 1) =~= encode(be_u64(b)));
    lemma_decode_encode(be_u64(b));
    lemma_be_bytes_round_trip(b);
    assert(first_sep(s, n));
}

/// Whenever the part before the first `_` differs from the prefix, parsing reports a prefix
/// mismatch carrying both, whatever follows the `_`.
pub proof fn lemma_prefix_rejection<T: Type + ?Sized>(s: Seq<char>, i: int, r: Result<Id<T>, Error>)
    requires
        first_sep(s, i),
        s.take(i) != T::spec_prefix(),
        parse_result::<T>(s.take(i), s.skip(i + 1), r),
    ensures
        r matches Err(Error::PrefixMismatch { expected, actual }) && expected@ == T::spec_prefix()
            && actual@ == s.take(i),
{
}

/// Whenever the prefix matches but the part after the first `_` is not thirteen symbols long,
/// parsing reports an invalid payload.
pub proof fn lemma_payload_length<T: Type + ?Sized>(s: Seq<char>, i: int, r: Result<Id<T>, Error>)
    requires
        first_sep(s, i),
        s.take(i) == T::spec_prefix(),
        s.skip(i + 1).len() != 13,
        parse_result::<T>(s.take(i), s.skip(i + 1), r),
    ensures
        r == Err::<Id<T>, Error>(Error::InvalidPayload(DecodeError::InvalidLength)),
{
}

/// Whenever the prefix matches but the part after the first `_` holds a character outside the
/// alphabet, parsing reports an invalid payload.
pub proof fn lemma_alphabet_rejection<T: Type + ?Sized>(s: Seq<char>, i: int, k: int, r: Result<Id<T>, Error>)
    requires
        first_sep(s, i),
        s.take(i) == T::spec_prefix(),
        0 <= k < s.skip(i + 1).len(),
        symbol_value(s.skip(i + 1)[k]) < 0,
        parse_result::<T>(s.take(i), s.skip(i + 1), r),
    ensures
        r matches Err(Error::InvalidPayload(_)),
{
}

/// An identifier made from an integer gives that integer back, as `u64` and as `i64`: both
/// stand for the same eight bytes.
pub proof fn lemma_integer_round_trip(u: u64, i: i64)
    ensures
        be_u64(be_bytes(u)) == u,
        be_u64(be_bytes(i as u64)) as i64 == i,
{
    lemma_be_round_trip(u);
    lemma_be_round_trip(i as u64);
    assert(((i as u64) as i64) == i) by (bit_vector);
}

} // verus!
