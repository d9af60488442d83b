//! The decimal value: an unscaled signed integer of unbounded size, with the
//! byte length it was read from, and its big-endian two's-complement codec.
use vstd::prelude::*;
use num_bigint::BigInt;
use crate::twos_complement::{
    fits,
    is_minimal,
    is_needed_len,
    lemma_fits_mono,
    lemma_minimal_needed_len,
    lemma_signed_be_fits,
    lemma_signed_be_injective,
    lemma_minimal_unique,
    lemma_sign_extend,
    lemma_sign_of_head,
    extended,
    sign_fill,
    signed_be,
};

verus! {

/// Why an encoding or a narrowing projection failed.
#[derive(Debug, Clone, Copy, PartialEq, Eq, Structural)]
pub enum DecimalError {
    /// The requested byte length is shorter than the value's shortest
    /// two's-complement encoding, which has `needed` bytes.
    SignExtend { requested: usize, needed: usize },
    /// The value lies outside the range of the target integer type.
    Overflow,
}

/// An unscaled signed integer of unbounded size, together with a byte length:
/// the length it was read from, and the length it encodes to by default.
/// Two decimals are equal when their values are, whatever their lengths.
#[derive(Debug, Clone)]
pub struct Decimal {
    /// The value as big-endian two's-complement bytes.
    bytes: Vec<u8>,
    len: usize,
}

/// Relies on num_bigint's `BigInt::from_signed_bytes_be`, which reads bytes as
/// a big-endian two's-complement integer (no bytes read as zero), and on
/// `BigInt::to_signed_bytes_be`, which writes an integer as its shortest
/// big-endian two's-complement encoding (zero as one `0x00` byte).
#[verifier::external_body]
fn minimal_signed_bytes(bytes: &Vec<u8>) -> (r: Vec<u8>)
    ensures
        is_minimal(r@),
        signed_be(r@) == signed_be(bytes@),
{
    BigInt::from_signed_bytes_be(bytes).to_signed_bytes_be()
}

/// Relies on num_bigint's `BigInt::from_signed_bytes_be` (as above) and on its
/// `TryFrom<&BigInt> for i64`, which succeeds exactly when the value lies in
/// the range of `i64`, and then returns it.
#[verifier::external_body]
fn signed_bytes_to_i64(bytes: &Vec<u8>) -> (r: Option<i64>)
    ensures
        r matches Some(x) ==> x as int == signed_be(bytes@),
        r is None ==> !(i64::MIN <= signed_be(bytes@) <= i64::MAX),
{
    i64::try_from(&BigInt::from_signed_bytes_be(bytes)).ok()
}

impl Decimal {
    /// The unscaled value.
    pub closed spec fn value(&self) -> int {
        signed_be(self.bytes@)
    }

    /// The remembered byte length.
    pub closed spec fn length(&self) -> nat {
        self.len as nat
    }

    /// A decimal read from bytes has their two's-complement value and their
    /// length.
    pub proof fn lemma_from_bytes(bytes: Vec<u8>)
        ensures
            <Decimal as vstd::std_specs::convert::FromSpec<Vec<u8>>>::from_spec(bytes).value()
                == signed_be(bytes@),
            <Decimal as vstd::std_specs::convert::FromSpec<Vec<u8>>>::from_spec(bytes).length()
                == bytes.len(),
    {
    }

    /// Round trip: a decimal read from non-empty bytes encodes back to those
    /// very bytes at its remembered length. Its value fits in that length, and
    /// the bytes are the only encoding of that length with that value.
    pub proof fn lemma_round_trip(bytes: Vec<u8>, out: Seq<u8>)
        requires
            bytes.len() >= 1,
        ensures
            fits(
                <Decimal as vstd::std_specs::convert::FromSpec<Vec<u8>>>::from_spec(bytes).value(),
                <Decimal as vstd::std_specs::convert::FromSpec<Vec<u8>>>::from_spec(bytes).length(),
            ),
            out.len() == bytes.len() && signed_be(out) == signed_be(bytes@) ==> out == bytes@,
    {
        lemma_signed_be_fits(bytes@);
        if out.len() == bytes.len() && signed_be(out) == signed_be(bytes@) {
            lemma_signed_be_injective(out, bytes@);
        }
    }

    /// The remembered byte length.
    pub fn len(&self) -> (r: usize)
        ensures
            r == self.length(),
    {
        self.len
    }

    /// Encodes the value as exactly `len` big-endian two's-complement bytes,
    /// sign-extended in front; fails when `len` bytes cannot hold it.
    pub fn to_sign_extended_bytes_with_len(&self, len: usize) -> (r: Result<Vec<u8>, DecimalError>)
        ensures
            r is Ok <==> fits(self.value(), len as nat),
            r matches Ok(out) ==> out@.len() == len && signed_be(out@) == self.value(),
            r matches Err(e) ==> e matches DecimalError::SignExtend { requested, needed }
                && requested == len && is_needed_len(self.value(), needed as nat),
    {
        let raw = minimal_signed_bytes(&self.bytes);
        let needed = raw.len();
        let ghost v = self.value();
        proof {
            lemma_minimal_needed_len(raw@);
            lemma_sign_of_head(raw@);
        }
        if len < needed {
            proof {
                if fits(v, len as nat) {
                    lemma_fits_mono(v, len as nat, (needed - 1) as nat);
                }
            }
            return Err(DecimalError::SignExtend { requested: len, needed });
        }
        let sign_byte: u8 = if raw[0] >= 0x80 { 0xFF } else { 0x00 };
        assert(sign_byte == sign_fill(v));
        let pad = len - needed;
        let mut out: Vec<u8> = Vec::with_capacity(len);
        let mut i: usize = 0;
        while i < pad
            invariant
                i <= pad,
                out@ == extended(sign_byte, i as nat, Seq::empty()),
            decreases pad - i,
        {
            out.push(sign_byte);
            i = i + 1;
            assert(out@ =~= extended(sign_byte, i as nat, Seq::empty()));
        }
        let mut j: usize = 0;
        while j < needed
            invariant
                j <= needed,
                needed == raw@.len(),
                out@ == extended(sign_byte, pad as nat, raw@.take(j as int)),
            decreases needed - j,
        {
            out.push(raw[j]);
            j = j + 1;
            assert(out@ =~= extended(sign_byte, pad as nat, raw@.take(j as int)));
        }
        proof {
            assert(raw@.take(needed as int) =~= raw@);
            lemma_sign_extend(raw@, pad as nat);
            lemma_fits_mono(v, needed as nat, len as nat);
        }
        Ok(out)
    }

    /// Encodes the value at the remembered byte length.
    pub fn to_vec(&self) -> (r: Result<Vec<u8>, DecimalError>)
        ensures
            r is Ok <==> fits(self.value(), self.length()),
            r matches Ok(out) ==> out@.len() == self.length() && signed_be(out@) == self.value(),
            r matches Err(e) ==> e matches DecimalError::SignExtend { requested, needed }
                && requested == self.length() && is_needed_len(self.value(), needed as nat),
    {
        self.to_sign_extended_bytes_with_len(self.len)
    }

    /// The value as an `i64`, for sinks without big integers; fails with
    /// `Overflow` when it lies outside the range of `i64`.
    pub fn to_i64(&self) -> (r: Result<i64, DecimalError>)
        ensures
            r is Ok <==> i64::MIN <= self.value() <= i64::MAX,
            r matches Ok(x) ==> x as int == self.value(),
            r matches Err(e) ==> e == DecimalError::Overflow,
    {
        match signed_bytes_to_i64(&self.bytes) {
            Some(x) => Ok(x),
            None => Err(DecimalError::Overflow),
        }
    }
}

impl From<Vec<u8>> for Decimal {
    /// Reads `bytes` as a big-endian two's-complement integer and remembers
    /// their length.
    fn from(bytes: Vec<u8>) -> (d: Decimal) {
        let len = bytes.len();
        Decimal { bytes, len }
    }
}

impl vstd::std_specs::convert::FromSpecImpl<Vec<u8>> for Decimal {
    open spec fn obeys_from_spec() -> bool {
        true
    }

    closed spec fn from_spec(v: Vec<u8>) -> Decimal {
        Decimal { bytes: v, len: v.len() }
    }
}

impl PartialEq for Decimal {
    /// Compares the values only; the lengths play no part.
    fn eq(&self, other: &Decimal) -> (r: bool) {
        let a = minimal_signed_bytes(&self.bytes);
        let b = minimal_signed_bytes(&other.bytes);
        proof {
            if self.value() == other.value() {
                lemma_minimal_unique(a@, b@);
            }
        }
        let r = a == b;
        proof {
            if r {
                assert(a@ =~= b@);
            }
        }
        r
    }
}

impl vstd::std_specs::cmp::PartialEqSpecImpl for Decimal {
    open spec fn obeys_eq_spec() -> bool {
        true
    }

    open spec fn eq_spec(&self, other: &Decimal) -> bool {
        self.value() == other.value()
    }
}

} // verus!
