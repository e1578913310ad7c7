use vstd::prelude::*;

use crate::error::BerError;
use crate::input::{Outcome, answers, lemma_leading_digit, lemma_shift_digit, read_octet};

verus! {

/// The length octets of a BER element: a definite number of content octets,
/// or the indefinite form whose contents end at an end-of-contents marker.
#[derive(Debug, Clone, Copy, PartialEq, Eq, Structural)]
pub enum Length {
    Definite(usize),
    Indefinite,
}

/// `256` raised to the power `k`.
pub open spec fn pow256(k: nat) -> nat
    decreases k,
{
    if k == 0 {
        1
    } else {
        256 * pow256((k - 1) as nat)
    }
}

/// The unsigned big-endian value of a sequence of octets.
pub open spec fn be_value(s: Seq<u8>) -> nat
    decreases s.len(),
{
    if s.len() == 0 {
        0
    } else {
        be_value(s.drop_last()) * 256 + s.last() as nat
    }
}

/// The shortest big-endian octets of `n`: none for zero, and otherwise a
/// first octet that is not zero.
pub open spec fn be_octets(n: nat) -> Seq<u8>
    decreases n,
{
    if n == 0 {
        seq![]
    } else {
        be_octets(n / 256).push((n % 256) as u8)
    }
}

/// The octets that encode a length: the short form for definite lengths up
/// to 127, the long form (`0x80` plus the count of the shortest big-endian
/// octets of the length, then those octets) for larger ones, and `0x80`
/// alone for the indefinite form.
pub open spec fn length_octets(l: Length) -> Seq<u8> {
    match l {
        Length::Definite(n) => if n <= 127 {
            seq![n as u8]
        } else {
            seq![(0x80 + be_octets(n as nat).len()) as u8] + be_octets(n as nat)
        },
        Length::Indefinite => seq![0x80u8],
    }
}

/// Reading length octets off the front of `s`: what comes out, and how
/// many octets are taken. A first octet below `0x80` is a short-form
/// length, `0x80` is the indefinite form, and `0x80 + k` announces `k`
/// big-endian octets; more than eight of them are refused. An input that
/// ends too early is taken whole.
pub open spec fn length_decoding(s: Seq<u8>) -> (Outcome<Length>, int) {
    if s.len() == 0 {
        (Outcome::RanOut, 0)
    } else if s[0] < 0x80 {
        (Outcome::Value(Length::Definite(s[0] as usize)), 1)
    } else if s[0] == 0x80 {
        (Outcome::Value(Length::Indefinite), 1)
    } else {
        let k = s[0] - 0x80;
        if k > 8 {
            (Outcome::Refused(BerError::InvalidLengthEncoding), 1)
        } else if s.len() < 1 + k {
            (Outcome::RanOut, s.len() as int)
        } else {
            (Outcome::Value(Length::Definite(be_value(s.subrange(1, 1 + k)) as usize)), 1 + k)
        }
    }
}

proof fn lemma_pow256_bounds(k: nat)
    requires
        k <= 8,
    ensures
        k <= 7 ==> pow256(k) <= 0x100_0000_0000_0000,
        pow256(8) == 0x1_0000_0000_0000_0000,
    decreases 8 - k,
{
    reveal_with_fuel(pow256, 9);
    if k < 8 {
        lemma_pow256_bounds(k + 1);
    }
}

proof fn lemma_be_value_bound(s: Seq<u8>)
    ensures
        be_value(s) < pow256(s.len()),
    decreases s.len(),
{
    if s.len() > 0 {
        lemma_be_value_bound(s.drop_last());
    }
}

proof fn lemma_be_octets_len(n: nat, k: nat)
    requires
        n < pow256(k),
    ensures
        be_octets(n).len() <= k,
        n > 0 ==> be_octets(n).len() >= 1,
    decreases n,
{
    if n > 0 {
        assert(k > 0);
        lemma_be_octets_len(n / 256, (k - 1) as nat);
    }
}

proof fn lemma_be_value_of_octets(n: nat)
    ensures
        be_value(be_octets(n)) == n,
    decreases n,
{
    if n > 0 {
        lemma_be_value_of_octets(n / 256);
        assert(be_octets(n).drop_last() == be_octets(n / 256));
    }
}

proof fn lemma_be_octets_leading(n: nat)
    requires
        n > 0,
    ensures
        be_octets(n).len() >= 1,
        be_octets(n)[0] != 0,
    decreases n,
{
    assert(be_octets(n) == be_octets(n / 256).push((n % 256) as u8));
    if n / 256 > 0 {
        lemma_be_octets_leading(n / 256);
        assert(be_octets(n)[0] == be_octets(n / 256)[0]);
    } else {
        assert(be_octets(n / 256).len() == 0);
        assert(be_octets(n)[0] == (n % 256) as u8);
    }
}

/// Reading back the octets written for any length gives that length, takes
/// exactly those octets, and leaves whatever follows them alone.
pub proof fn lemma_length_round_trip(l: Length, rest: Seq<u8>)
    ensures
        length_decoding(length_octets(l) + rest) == (
            Outcome::Value(l),
            length_octets(l).len() as int,
        ),
{
    let s = length_octets(l) + rest;
    match l {
        Length::Definite(n) => {
            if n > 127 {
                let body = be_octets(n as nat);
                lemma_pow256_bounds(8);
                lemma_be_octets_len(n as nat, 8);
                lemma_be_value_of_octets(n as nat);
                assert(s.subrange(1, 1 + body.len() as int) == body);
            }
        },
        Length::Indefinite => {},
    }
}

/// Decoding a length reads no further than it must: unless the input ran
/// out, whatever follows the input changes nothing, and when it ran out,
/// all of the input was taken.
pub proof fn lemma_length_decoding_prefix(s: Seq<u8>, t: Seq<u8>)
    ensures
        !(length_decoding(s).0 is RanOut) ==> length_decoding(s + t) == length_decoding(s),
        length_decoding(s).0 is RanOut ==> length_decoding(s).1 == s.len(),
{
    if s.len() > 0 && s[0] > 0x80 {
        let k = s[0] - 0x80;
        if k <= 8 && s.len() >= 1 + k {
            assert((s + t).subrange(1, 1 + k) == s.subrange(1, 1 + k));
        }
    }
}

/// The length octets written follow X.690: a definite length up to 127 is
/// the one octet holding it; a larger one is `0x80` plus the count of the
/// octets that follow, and those octets hold the length in big-endian
/// order; the indefinite form is `0x80` alone.
pub proof fn lemma_length_octets_layout(l: Length)
    ensures
        l matches Length::Definite(n) ==> (n <= 127 ==> length_octets(l).len() == 1
            && length_octets(l)[0] as usize == n),
        l matches Length::Definite(n) ==> n > 127 ==> {
            let o = length_octets(l);
            &&& o.len() >= 2
            &&& o[0] & 0x80 != 0
            &&& (o[0] & 0x7F) as int == o.len() - 1
            &&& be_value(o.subrange(1, o.len() as int)) == n
        },
        l is Indefinite ==> length_octets(l) == seq![0x80u8],
{
    if let Length::Definite(n) = l {
        if n > 127 {
            let o = length_octets(l);
            let body = be_octets(n as nat);
            lemma_pow256_bounds(8);
            lemma_be_octets_len(n as nat, 8);
            lemma_be_value_of_octets(n as nat);
            assert(o.subrange(1, o.len() as int) =~= body);
            let f = o[0];
            assert(f == 0x80 + body.len());
            assert(f >= 0x80 && f <= 0x88 ==> f & 0x80 != 0 && f & 0x7F == f - 0x80)
                by (bit_vector);
        }
    }
}

/// Length octets are read by X.690: a first octet below `0x80` is the
/// length itself, and is all that is read; `0x80` is the indefinite form;
/// `0x80 + k` with `k` up to 8 announces `k` octets that hold the length
/// in big-endian order; a larger `k` is refused after its one octet.
pub proof fn lemma_length_decoding_layout(s: Seq<u8>)
    requires
        s.len() > 0,
    ensures
        s[0] & 0x80 == 0 ==> length_decoding(s).0 == Outcome::Value(Length::Definite(s[0] as usize))
            && length_decoding(s).1 == 1,
        s[0] == 0x80 ==> length_decoding(s).0 == Outcome::<Length>::Value(Length::Indefinite)
            && length_decoding(s).1 == 1,
        s[0] & 0x80 != 0 && (s[0] & 0x7F) > 8 ==> length_decoding(s).0
            == Outcome::<Length>::Refused(BerError::InvalidLengthEncoding) && length_decoding(s).1
            == 1,
        s[0] & 0x80 != 0 && 1 <= (s[0] & 0x7F) <= 8 && s.len() > (s[0] & 0x7F) ==> {
            let k = (s[0] & 0x7F) as int;
            &&& length_decoding(s).0 == Outcome::Value(
                Length::Definite(be_value(s.subrange(1, 1 + k)) as usize),
            )
            &&& length_decoding(s).1 == 1 + k
        },
        s[0] & 0x80 != 0 && 1 <= (s[0] & 0x7F) <= 8 && s.len() <= (s[0] & 0x7F) ==> length_decoding(
            s,
        ).0 is RanOut && length_decoding(s).1 == s.len(),
{
    let b = s[0];
    assert((b & 0x80 == 0) == (b < 0x80) && (b & 0x80 != 0 ==> b & 0x7F == b - 0x80))
        by (bit_vector);
}

/// Big-endian order: the last octet is the value's lowest octet, and the
/// first octet is the value divided by 256 once for each octet after it.
pub proof fn lemma_be_value_order(s: Seq<u8>)
    requires
        s.len() > 0,
    ensures
        be_value(s) % 256 == s.last() as nat,
        be_value(s) / pow256((s.len() - 1) as nat) == s[0] as nat,
        be_value(s) == s[0] as nat * pow256((s.len() - 1) as nat) + be_value(s.drop_first()),
    decreases s.len(),
{
    let t = s.drop_last();
    let x = s.last();
    let p = pow256((s.len() - 1) as nat);
    assert(be_value(s) == be_value(t) * 256 + x as nat);
    if s.len() == 1 {
        assert(s.drop_first().len() == 0);
        assert(be_value(s.drop_first()) == 0);
        assert(t.len() == 0);
        assert(be_value(t) == 0);
        assert(p == 1);
        assert(s[0] == x);
    } else {
        lemma_be_value_order(t);
        let q = pow256((t.len() - 1) as nat);
        assert(p == 256 * q);
        assert(s.drop_first() =~= t.drop_first().push(x));
        assert(s.drop_first().drop_last() =~= t.drop_first());
        assert(t[0] == s[0]);
        let a = s[0] as nat;
        let r = be_value(t.drop_first());
        assert(be_value(t) == a * q + r);
        assert(s.drop_first().last() == x);
        assert(be_value(s.drop_first()) == r * 256 + x as nat);
        lemma_shift_digit(a as int, q as int, r as int, x as int, 256);
    }
    lemma_be_value_bound(s.drop_first());
    lemma_pow256_pos((s.len() - 1) as nat);
    let a = s[0] as nat;
    let r = be_value(s.drop_first());
    lemma_leading_digit(a, p, r);
}

proof fn lemma_pow256_pos(k: nat)
    ensures
        pow256(k) > 0,
    decreases k,
{
    if k > 0 {
        lemma_pow256_pos((k - 1) as nat);
    }
}

/// A definite length is written in the fewest octets: the short form up to
/// 127, and otherwise the long form with at most eight length octets, the
/// first of which is not zero.
pub proof fn lemma_length_octets_shortest(n: usize)
    ensures
        n <= 127 ==> length_octets(Length::Definite(n)).len() == 1,
        n > 127 ==> {
            let o = length_octets(Length::Definite(n));
            &&& 2 <= o.len() <= 9
            &&& o[0] == 0x80 + (o.len() - 1)
            &&& o[1] != 0
        },
{
    if n > 127 {
        lemma_pow256_bounds(8);
        lemma_be_octets_len(n as nat, 8);
        lemma_be_octets_leading(n as nat);
    }
}

impl Length {
    /// Appends the BER length octets of `self` to `writer`; this never fails.
    pub fn encode(&self, writer: &mut Vec<u8>) -> (r: Result<(), BerError>)
        ensures
            r is Ok,
            final(writer)@ == old(writer)@ + length_octets(*self),
    {
        match self {
            Length::Definite(len) if *len <= 127 => {
                writer.push(*len as u8);
            },
            Length::Definite(len) => {
                let mut bytes: Vec<u8> = Vec::new();
                let mut remaining = *len;
                while remaining > 0
                    invariant
                        be_octets(*len as nat) == be_octets(remaining as nat) + bytes@,
                    decreases remaining,
                {
                    let low = remaining & 0xFF;
                    assert(low == remaining % 256) by (bit_vector)
                        requires
                            low == remaining & 0xFF,
                    ;
                    let ghost before = remaining;
                    bytes.insert(0, low as u8);
                    remaining >>= 8;
                    assert(remaining == before / 256) by (bit_vector)
                        requires
                            remaining == before >> 8,
                    ;
                    assert(be_octets(before as nat) == be_octets(remaining as nat).push(
                        low as u8,
                    ));
                }
                assert(be_octets(*len as nat) == bytes@);
                proof {
                    lemma_pow256_bounds(8);
                    lemma_be_octets_len(*len as nat, 8);
                }
                let num_octets = bytes.len();
                let count = num_octets as u8;
                let first = 0x80 | count;
                assert(first == 0x80 + count) by (bit_vector)
                    requires
                        first == 0x80 | count,
                        count <= 8,
                ;
                writer.push(first);
                writer.append(&mut bytes);
            },
            Length::Indefinite => {
                writer.push(0x80);
            },
        }
        Ok(())
    }

    /// Reads length octets off the front of `reader`, which is left just
    /// after the octets that were taken.
    pub fn decode(reader: &mut &[u8]) -> (r: Result<Self, BerError>)
        ensures
            answers(r, length_decoding(old(reader)@).0),
            final(reader)@ == old(reader)@.skip(length_decoding(old(reader)@).1),
    {
        let ghost input = reader@;
        let first_byte = match read_octet(reader) {
            Ok(b) => b,
            Err(e) => {
                assert(reader@ =~= input.skip(input.len() as int));
                return Err(BerError::IoError(e));
            },
        };
        if first_byte & 0x80 == 0 {
            assert(first_byte < 0x80) by (bit_vector)
                requires
                    first_byte & 0x80 == 0,
            ;
            Ok(Length::Definite(first_byte as usize))
        } else if first_byte == 0x80 {
            Ok(Length::Indefinite)
        } else {
            let num_octets = (first_byte & 0x7F) as usize;
            assert(first_byte >= 0x80 && num_octets == first_byte - 0x80) by (bit_vector)
                requires
                    first_byte & 0x80 != 0,
                    num_octets == (first_byte & 0x7F) as usize,
            ;
            if num_octets == 0 || num_octets > 8 {
                return Err(BerError::InvalidLengthEncoding);
            }
            let mut length: u64 = 0;
            let mut i: usize = 0;
            while i < num_octets
                invariant
                    input == old(reader)@,
                    0 <= i <= num_octets <= 8,
                    num_octets == input[0] - 0x80,
                    input.len() >= 1 + i,
                    reader@ == input.skip(1 + i),
                    length == be_value(input.subrange(1, 1 + i)),
                decreases num_octets - i,
            {
                let b = match read_octet(reader) {
                    Ok(b) => b,
                    Err(e) => {
                        assert(reader@ =~= input.skip(input.len() as int));
                        return Err(BerError::IoError(e));
                    },
                };
                proof {
                    lemma_be_value_bound(input.subrange(1, 1 + i));
                    lemma_pow256_bounds(i as nat);
                    assert(input.subrange(1, 1 + i + 1).drop_last() == input.subrange(1, 1 + i));
                    assert(input.skip(1 + i).drop_first() == input.skip(1 + i + 1));
                }
                length = length * 256 + b as u64;
                i = i + 1;
            }
            Ok(Length::Definite(#[verifier::truncate] (length as usize)))
        }
    }

    /// The number of content octets, for the definite form.
    pub fn value(&self) -> (r: Option<usize>)
        ensures
            r == (match *self {
                Length::Definite(n) => Some(n),
                Length::Indefinite => None::<usize>,
            }),
    {
        match self {
            Length::Definite(len) => Some(*len),
            Length::Indefinite => None,
        }
    }

    /// Whether this is a definite length.
    pub fn is_definite(&self) -> (r: bool)
        ensures
            r == (*self is Definite),
    {
        matches!(self, Length::Definite(_))
    }

    /// Whether this is the indefinite form.
    pub fn is_indefinite(&self) -> (r: bool)
        ensures
            r == (*self is Indefinite),
    {
        matches!(self, Length::Indefinite)
    }
}

} // verus!
