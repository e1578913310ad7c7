use vstd::prelude::*;

use crate::error::{BerError, io_error_kind};

verus! {

/// What reading an element off the front of some input comes to: a value,
/// an error that the octets read call for, or running out of input before
/// the element is complete.
pub enum Outcome<T> {
    Value(T),
    Refused(BerError),
    RanOut,
}

/// Whether `r` is the answer that `o` calls for: the value, the error, or,
/// where the input ran out, the I/O error of kind `UnexpectedEof` that
/// reading past its end gives.
pub open spec fn answers<T>(r: Result<T, BerError>, o: Outcome<T>) -> bool {
    match o {
        Outcome::Value(v) => r == Ok::<T, BerError>(v),
        Outcome::Refused(e) => r == Err::<T, BerError>(e),
        Outcome::RanOut => r matches Err(BerError::IoError(e)) && io_error_kind(e)
            == std::io::ErrorKind::UnexpectedEof,
    }
}

/// Reads one octet off the front of `reader` with `std::io::Read::read_exact`.
/// Reading from a slice moves the slice past what was read, and leaves it
/// empty at its end; with an octet there, exactly that octet is read, and
/// with none, the call fails with an error of kind `UnexpectedEof`, as the
/// documentation of `read_exact` says.
#[verifier::external_body]
pub(crate) fn read_octet(reader: &mut &[u8]) -> (r: Result<u8, std::io::Error>)
    ensures
        old(reader)@.len() == 0 ==> r is Err && final(reader)@.len() == 0,
        r matches Err(e) ==> io_error_kind(e) == std::io::ErrorKind::UnexpectedEof,
        old(reader)@.len() > 0 ==> r == Ok::<u8, std::io::Error>(old(reader)@[0])
            && final(reader)@ == old(reader)@.drop_first(),
{
    let mut buf = [0u8; 1];
    match std::io::Read::read_exact(reader, &mut buf) {
        Ok(()) => Ok(buf[0]),
        Err(e) => Err(e),
    }
}

/// Appending a digit to a number whose leading digit carries the weight
/// `q` moves that digit to the weight `base * q`.
pub(crate) proof fn lemma_shift_digit(a: int, q: int, r: int, x: int, base: int)
    ensures
        (a * q + r) * base + x == a * (base * q) + (r * base + x),
{
    assert((a * q + r) * base + x == a * (base * q) + (r * base + x)) by (nonlinear_arith);
}

/// A leading digit `a` of weight `p` above a remainder below `p` is what
/// dividing by `p` gives.
pub(crate) proof fn lemma_leading_digit(a: nat, p: nat, r: nat)
    requires
        p > 0,
        r < p,
    ensures
        (a * p + r) / p == a,
{
    assert((a * p + r) / p == a) by (nonlinear_arith)
        requires
            p > 0,
            r < p,
    ;
}

} // verus!
