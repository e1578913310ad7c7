use vstd::prelude::*;

use crate::error::BerError;
use crate::input::{Outcome, answers, lemma_leading_digit, lemma_shift_digit, read_octet};

verus! {

/// The class of a BER tag, held in the two high bits of its first octet.
#[derive(Debug, Clone, Copy, PartialEq, Eq, Structural)]
pub enum TagClass {
    Universal,
    Application,
    ContextSpecific,
    Private,
}

/// A BER identifier: class, primitive or constructed, and tag number.
#[derive(Debug, Clone, Copy, PartialEq, Eq, Structural)]
pub struct Tag {
    class: TagClass,
    constructed: bool,
    number: u32,
}

/// What a tag stands for: its class, whether it is constructed, and its number.
pub struct TagView {
    pub class: TagClass,
    pub constructed: bool,
    pub number: u32,
}

impl View for Tag {
    type V = TagView;

    closed spec fn view(&self) -> TagView {
        TagView { class: self.class, constructed: self.constructed, number: self.number }
    }
}

/// The two class bits of a tag class.
pub open spec fn class_bits(c: TagClass) -> nat {
    match c {
        TagClass::Universal => 0,
        TagClass::Application => 1,
        TagClass::ContextSpecific => 2,
        TagClass::Private => 3,
    }
}

/// The tag class that two class bits stand for.
pub open spec fn class_of_bits(b: nat) -> TagClass {
    if b == 0 {
        TagClass::Universal
    } else if b == 1 {
        TagClass::Application
    } else if b == 2 {
        TagClass::ContextSpecific
    } else {
        TagClass::Private
    }
}

/// The first identifier octet: class bits, then the constructed bit, then
/// five low bits.
pub open spec fn identifier_octet(class: TagClass, constructed: bool, low: nat) -> u8 {
    (class_bits(class) * 64 + (if constructed {
        32nat
    } else {
        0nat
    }) + low) as u8
}

/// The base-128 digits of `v`, most significant first, with no leading zero
/// digit; every digit has its high bit set except the last one when `last`
/// holds.
pub open spec fn base128_octets(v: nat, last: bool) -> Seq<u8>
    decreases v,
{
    if v == 0 {
        seq![]
    } else {
        base128_octets(v / 128, false).push(
            (v % 128 + if last {
                0nat
            } else {
                128nat
            }) as u8,
        )
    }
}

/// The identifier octets of a tag: one octet for tag numbers below 31, and
/// otherwise a first octet with all five low bits set, followed by the
/// base-128 digits of the number.
pub open spec fn tag_octets(t: TagView) -> Seq<u8> {
    if t.number < 31 {
        seq![identifier_octet(t.class, t.constructed, t.number as nat)]
    } else {
        seq![identifier_octet(t.class, t.constructed, 31)] + base128_octets(t.number as nat, true)
    }
}

/// The largest tag number that may still be followed by another base-128
/// digit without leaving 32 bits.
pub open spec fn max_continued_number() -> nat {
    0x1FF_FFFF
}

/// Reading base-128 digits of a tag number off the front of `s`, the number
/// read so far being `acc`: the number, and how many octets are taken. A
/// digit with its high bit clear ends the number; a number above
/// `max_continued_number()` that would go on is refused.
pub open spec fn tag_number_decoding(acc: nat, s: Seq<u8>) -> (Outcome<u32>, int)
    decreases s.len(),
{
    if s.len() == 0 {
        (Outcome::RanOut, 0)
    } else {
        let v = acc * 128 + (s[0] % 128) as nat;
        if s[0] < 128 {
            (Outcome::Value(v as u32), 1)
        } else if v > max_continued_number() {
            (Outcome::Refused(BerError::InvalidTagNumber), 1)
        } else {
            let (r, c) = tag_number_decoding(v, s.drop_first());
            (r, c + 1)
        }
    }
}

/// Reading identifier octets off the front of `s`: the tag, and how many
/// octets are taken.
pub open spec fn tag_decoding(s: Seq<u8>) -> (Outcome<TagView>, int) {
    if s.len() == 0 {
        (Outcome::RanOut, 0)
    } else {
        let class = class_of_bits(s[0] as nat / 64);
        let constructed = (s[0] as nat / 32) % 2 == 1;
        if s[0] % 32 < 31 {
            (Outcome::Value(TagView { class, constructed, number: (s[0] % 32) as u32 }), 1)
        } else {
            let (r, c) = tag_number_decoding(0, s.drop_first());
            (
                match r {
                    Outcome::Value(number) => Outcome::Value(TagView { class, constructed, number }),
                    Outcome::Refused(e) => Outcome::Refused(e),
                    Outcome::RanOut => Outcome::RanOut,
                },
                c + 1,
            )
        }
    }
}

/// A decoded tag, seen through its view.
pub open spec fn tag_result_view(r: Result<Tag, BerError>) -> Result<TagView, BerError> {
    match r {
        Ok(t) => Ok(t@),
        Err(e) => Err(e),
    }
}

/// The two class bits of `class`.
fn class_bits_of(class: TagClass) -> (b: u8)
    ensures
        b == class_bits(class),
{
    match class {
        TagClass::Universal => 0b00,
        TagClass::Application => 0b01,
        TagClass::ContextSpecific => 0b10,
        TagClass::Private => 0b11,
    }
}

/// The tag class of the two class bits `bits`.
fn class_from_bits(bits: u8) -> (c: TagClass)
    requires
        bits <= 3,
    ensures
        c == class_of_bits(bits as nat),
{
    match bits {
        0 => TagClass::Universal,
        1 => TagClass::Application,
        2 => TagClass::ContextSpecific,
        _ => TagClass::Private,
    }
}

/// Packs class bits, the constructed bit and five low bits into one octet.
fn pack_identifier(class_bits: u8, constructed_bit: u8, low: u8) -> (b: u8)
    requires
        class_bits <= 3,
        constructed_bit <= 1,
        low <= 31,
    ensures
        b == class_bits * 64 + constructed_bit * 32 + low,
{
    let b = (class_bits << 6) | (constructed_bit << 5) | low;
    assert(b == class_bits * 64 + constructed_bit * 32 + low) by (bit_vector)
        requires
            b == (class_bits << 6) | (constructed_bit << 5) | low,
            class_bits <= 3,
            constructed_bit <= 1,
            low <= 31,
    ;
    b
}

proof fn lemma_identifier_octet_fields(class: TagClass, constructed: bool, low: nat)
    requires
        low <= 31,
    ensures
        class_of_bits(identifier_octet(class, constructed, low) as nat / 64) == class,
        ((identifier_octet(class, constructed, low) as nat / 32) % 2 == 1) == constructed,
        identifier_octet(class, constructed, low) % 32 == low,
{
    let cb = class_bits(class);
    let c: nat = if constructed {
        1
    } else {
        0
    };
    let o = cb * 64 + c * 32 + low;
    assert(o / 64 == cb && (o / 32) % 2 == c && o % 32 == low && o < 256) by (nonlinear_arith)
        requires
            o == cb * 64 + c * 32 + low,
            cb <= 3,
            c <= 1,
            low <= 31,
    ;
    assert(identifier_octet(class, constructed, low) == o);
}

proof fn lemma_continued_digits(v: nat, tail: Seq<u8>)
    requires
        0 < v <= max_continued_number(),
    ensures
        tag_number_decoding(0, base128_octets(v, false) + tail) == (
            tag_number_decoding(v, tail).0,
            tag_number_decoding(v, tail).1 + base128_octets(v, false).len(),
        ),
    decreases v,
{
    let digit = (v % 128 + 128) as u8;
    let d = base128_octets(v / 128, false);
    let x = seq![digit] + tail;
    assert(base128_octets(v, false) + tail =~= d + x);
    assert(x.drop_first() =~= tail);
    assert(digit % 128 == v % 128);
    if v / 128 == 0 {
        assert(d + x =~= x);
    } else {
        lemma_continued_digits(v / 128, x);
    }
}

proof fn lemma_base128_digits(v: nat, last: bool, k: nat)
    requires
        0 < v,
        v < pow128(k),
    ensures
        1 <= base128_octets(v, last).len() <= k,
        base128_octets(v, last)[0] % 128 != 0,
    decreases v,
{
    let d = base128_octets(v / 128, false);
    let digit = (v % 128 + if last {
        0nat
    } else {
        128nat
    }) as u8;
    assert(base128_octets(v, last) == d.push(digit));
    assert(k > 0);
    if v / 128 == 0 {
        assert(d.len() == 0);
        assert(digit % 128 == v % 128);
    } else {
        lemma_base128_digits(v / 128, false, (k - 1) as nat);
        assert(base128_octets(v, last)[0] == d[0]);
    }
}

/// `128` raised to the power `k`.
pub open spec fn pow128(k: nat) -> nat
    decreases k,
{
    if k == 0 {
        1
    } else {
        128 * pow128((k - 1) as nat)
    }
}

/// A tag is written in the fewest octets: one octet for tag numbers below
/// 31, and otherwise at most five base-128 digits after the first octet,
/// the first digit not being zero.
pub proof fn lemma_tag_octets_shortest(t: TagView)
    ensures
        t.number < 31 ==> tag_octets(t).len() == 1,
        t.number >= 31 ==> {
            let o = tag_octets(t);
            &&& 2 <= o.len() <= 6
            &&& o[0] % 32 == 31
            &&& o[1] % 128 != 0
        },
{
    if t.number >= 31 {
        reveal_with_fuel(pow128, 6);
        lemma_identifier_octet_fields(t.class, t.constructed, 31);
        lemma_base128_digits(t.number as nat, true, 5);
    }
}

/// The value of base-128 digits, most significant first, each digit giving
/// its low seven bits.
pub open spec fn base128_value(d: Seq<u8>) -> nat
    decreases d.len(),
{
    if d.len() == 0 {
        0
    } else {
        base128_value(d.drop_last()) * 128 + (d.last() % 128) as nat
    }
}

proof fn lemma_pow128_pos(k: nat)
    ensures
        pow128(k) > 0,
    decreases k,
{
    if k > 0 {
        lemma_pow128_pos((k - 1) as nat);
    }
}

proof fn lemma_base128_value_bound(d: Seq<u8>)
    ensures
        base128_value(d) < pow128(d.len()),
    decreases d.len(),
{
    if d.len() > 0 {
        lemma_base128_value_bound(d.drop_last());
    }
}

/// Base-128 digits are most significant first: the last digit gives the
/// value's low seven bits, and the first digit the value divided by 128
/// once for each digit after it.
pub proof fn lemma_base128_value_order(d: Seq<u8>)
    requires
        d.len() > 0,
    ensures
        base128_value(d) % 128 == (d.last() % 128) as nat,
        base128_value(d) / pow128((d.len() - 1) as nat) == (d[0] % 128) as nat,
        base128_value(d) == (d[0] % 128) as nat * pow128((d.len() - 1) as nat) + base128_value(
            d.drop_first(),
        ),
    decreases d.len(),
{
    let t = d.drop_last();
    let x = (d.last() % 128) as nat;
    let p = pow128((d.len() - 1) as nat);
    assert(base128_value(d) == base128_value(t) * 128 + x);
    if d.len() == 1 {
        assert(d.drop_first().len() == 0);
        assert(base128_value(d.drop_first()) == 0);
        assert(t.len() == 0);
        assert(base128_value(t) == 0);
        assert(p == 1);
        assert(d[0] == d.last());
    } else {
        lemma_base128_value_order(t);
        let q = pow128((t.len() - 1) as nat);
        assert(p == 128 * q);
        assert(d.drop_first().drop_last() =~= t.drop_first());
        assert(t[0] == d[0]);
        let a = (d[0] % 128) as nat;
        let r = base128_value(t.drop_first());
        assert(base128_value(t) == a * q + r);
        assert(d.drop_first().last() == d.last());
        assert(base128_value(d.drop_first()) == r * 128 + x);
        lemma_shift_digit(a as int, q as int, r as int, x as int, 128);
    }
    lemma_base128_value_bound(d.drop_first());
    lemma_pow128_pos((d.len() - 1) as nat);
    let a = (d[0] % 128) as nat;
    let r = base128_value(d.drop_first());
    lemma_leading_digit(a, p, r);
}

/// The number that base-128 digits `d` give when read from the front, the
/// number read before them being `acc`.
spec fn digits_from(acc: nat, d: Seq<u8>) -> nat
    decreases d.len(),
{
    if d.len() == 0 {
        acc
    } else {
        digits_from(acc * 128 + (d[0] % 128) as nat, d.drop_first())
    }
}

proof fn lemma_digits_from_push(acc: nat, d: Seq<u8>, x: u8)
    ensures
        digits_from(acc, d.push(x)) == digits_from(acc, d) * 128 + (x % 128) as nat,
    decreases d.len(),
{
    assert(d.push(x)[0] == if d.len() > 0 {
        d[0]
    } else {
        x
    });
    let next = acc * 128 + (d.push(x)[0] % 128) as nat;
    assert(digits_from(acc, d.push(x)) == digits_from(next, d.push(x).drop_first()));
    if d.len() > 0 {
        assert(d.push(x).drop_first() =~= d.drop_first().push(x));
        lemma_digits_from_push(next, d.drop_first(), x);
        assert(digits_from(acc, d) == digits_from(next, d.drop_first()));
    } else {
        assert(d.push(x).drop_first() =~= d);
        assert(digits_from(next, d) == next);
        assert(digits_from(acc, d) == acc);
    }
}

proof fn lemma_digits_from_zero(d: Seq<u8>)
    ensures
        digits_from(0, d) == base128_value(d),
    decreases d.len(),
{
    if d.len() > 0 {
        lemma_digits_from_zero(d.drop_last());
        lemma_digits_from_push(0, d.drop_last(), d.last());
        assert(d.drop_last().push(d.last()) =~= d);
    }
}

proof fn lemma_base128_octets_layout(v: nat, last: bool)
    requires
        v > 0,
    ensures
        base128_value(base128_octets(v, last)) == v,
        base128_octets(v, last).len() >= 1,
        forall|i: int|
            0 <= i < base128_octets(v, last).len() - 1 ==> #[trigger] base128_octets(v, last)[i]
                >= 0x80,
        (base128_octets(v, last).last() >= 0x80) == !last,
    decreases v,
{
    let d = base128_octets(v / 128, false);
    let digit = (v % 128 + if last {
        0nat
    } else {
        128nat
    }) as u8;
    let o = base128_octets(v, last);
    assert(o == d.push(digit));
    assert(o.drop_last() =~= d);
    assert(o.last() == digit);
    assert(digit % 128 == v % 128);
    assert(v == (v / 128) * 128 + v % 128);
    assert(base128_value(o) == base128_value(d) * 128 + (digit % 128) as nat);
    if v / 128 > 0 {
        lemma_base128_octets_layout(v / 128, false);
        assert forall|i: int| 0 <= i < o.len() - 1 implies #[trigger] o[i] >= 0x80 by {
            assert(o[i] == d[i]);
        }
    } else {
        assert(d.len() == 0);
        assert(base128_value(d) == 0);
    }
}

proof fn lemma_first_octet_bits(b: u8)
    ensures
        b >> 6 == b / 64,
        (b & 0x20 != 0) == ((b as nat / 32) % 2 == 1),
        b & 0x1F == b % 32,
{
    assert(b >> 6 == b / 64 && (b & 0x20 != 0) == ((b / 32) % 2 == 1) && b & 0x1F == b % 32)
        by (bit_vector);
}

/// The identifier octets written for a tag follow the X.690 layout: the
/// class in the two high bits of the first octet (universal 0, application
/// 1, context-specific 2, private 3), the constructed flag in bit 5, and in
/// the low five bits the tag number itself when it is below 31. From 31 on
/// the low five bits are all set, and the base-128 digits of the tag number
/// follow, every digit but the last with its high bit set.
pub proof fn lemma_tag_octets_layout(t: TagView)
    ensures
        tag_octets(t).len() >= 1,
        tag_octets(t)[0] >> 6 == (match t.class {
            TagClass::Universal => 0u8,
            TagClass::Application => 1u8,
            TagClass::ContextSpecific => 2u8,
            TagClass::Private => 3u8,
        }),
        (tag_octets(t)[0] & 0x20 != 0) == t.constructed,
        t.number < 31 ==> tag_octets(t).len() == 1 && (tag_octets(t)[0] & 0x1F) as u32 == t.number,
        t.number >= 31 ==> {
            let o = tag_octets(t);
            &&& o[0] & 0x1F == 0x1F
            &&& o.len() >= 2
            &&& forall|i: int| 1 <= i < o.len() - 1 ==> #[trigger] o[i] >= 0x80
            &&& o.last() < 0x80
            &&& base128_value(o.subrange(1, o.len() as int)) == t.number
        },
{
    let low: nat = if t.number < 31 {
        t.number as nat
    } else {
        31
    };
    lemma_identifier_octet_fields(t.class, t.constructed, low);
    let o = tag_octets(t);
    lemma_first_octet_bits(o[0]);
    assert(o[0] == identifier_octet(t.class, t.constructed, low));
    if t.number >= 31 {
        let d = base128_octets(t.number as nat, true);
        lemma_base128_octets_layout(t.number as nat, true);
        assert(o.subrange(1, o.len() as int) =~= d);
        assert forall|i: int| 1 <= i < o.len() - 1 implies #[trigger] o[i] >= 0x80 by {
            assert(o[i] == d[i - 1]);
        }
    }
}

proof fn lemma_tag_number_decoding_digits(acc: nat, s: Seq<u8>)
    requires
        acc <= max_continued_number(),
    ensures
        tag_number_decoding(acc, s).0 matches Outcome::Value(x) ==> {
            let c = tag_number_decoding(acc, s).1;
            &&& 1 <= c <= s.len()
            &&& s[c - 1] < 0x80
            &&& forall|i: int| 0 <= i < c - 1 ==> #[trigger] s[i] >= 0x80
            &&& x as nat == digits_from(acc, s.take(c))
        },
        tag_number_decoding(acc, s).0 matches Outcome::Refused(e) ==> {
            let c = tag_number_decoding(acc, s).1;
            &&& e is InvalidTagNumber
            &&& 1 <= c <= s.len()
            &&& forall|i: int| 0 <= i < c ==> #[trigger] s[i] >= 0x80
            &&& digits_from(acc, s.take(c)) > max_continued_number()
        },
    decreases s.len(),
{
    if s.len() > 0 {
        let v = acc * 128 + (s[0] % 128) as nat;
        assert(s.take(1).drop_first().len() == 0);
        assert(digits_from(acc, s.take(1)) == digits_from(v, s.take(1).drop_first()));
        if s[0] >= 128 && v <= max_continued_number() {
            let rest = s.drop_first();
            lemma_tag_number_decoding_digits(v, rest);
            let c = tag_number_decoding(acc, s).1;
            if !(tag_number_decoding(acc, s).0 is RanOut) {
                assert(s.take(c).drop_first() =~= rest.take(c - 1));
                assert(digits_from(acc, s.take(c)) == digits_from(v, s.take(c).drop_first()));
                assert forall|i: int| 0 <= i < c - 1 implies #[trigger] s[i] >= 0x80 by {
                    if i > 0 {
                        assert(s[i] == rest[i - 1]);
                    }
                }
                if tag_number_decoding(acc, s).0 is Refused {
                    assert(s[c - 1] == rest[c - 2]);
                }
            }
        }
    }
}

/// Identifier octets are read by the X.690 layout: the two high bits of the
/// first octet give the class (0 universal, 1 application, 2
/// context-specific, 3 private) and bit 5 the constructed flag. Low five
/// bits below 31 are the tag number, and that one octet is all that is
/// read. With all five set, base-128 digits follow up to the first one with
/// its high bit clear, and the tag number is their value; a tag number is
/// refused only when the digits read, all still continued, already exceed
/// `max_continued_number()`.
pub proof fn lemma_tag_decoding_layout(s: Seq<u8>)
    requires
        s.len() > 0,
    ensures
        tag_decoding(s).0 matches Outcome::Value(v) ==> {
            &&& s[0] >> 6 == (match v.class {
                TagClass::Universal => 0u8,
                TagClass::Application => 1u8,
                TagClass::ContextSpecific => 2u8,
                TagClass::Private => 3u8,
            })
            &&& v.constructed == (s[0] & 0x20 != 0)
        },
        s[0] & 0x1F < 31 ==> tag_decoding(s).0 is Value && tag_decoding(s).1 == 1,
        s[0] & 0x1F < 31 ==> (tag_decoding(s).0 matches Outcome::Value(v) && v.number == (s[0]
            & 0x1F) as u32),
        s[0] & 0x1F == 0x1F ==> (tag_decoding(s).0 matches Outcome::Value(v) ==> {
            let c = tag_decoding(s).1;
            &&& 2 <= c <= s.len()
            &&& s[c - 1] < 0x80
            &&& forall|i: int| 1 <= i < c - 1 ==> #[trigger] s[i] >= 0x80
            &&& v.number == base128_value(s.subrange(1, c))
        }),
        s[0] & 0x1F == 0x1F ==> (tag_decoding(s).0 matches Outcome::Refused(e) ==> {
            let c = tag_decoding(s).1;
            &&& e is InvalidTagNumber
            &&& 2 <= c <= s.len()
            &&& forall|i: int| 1 <= i < c ==> #[trigger] s[i] >= 0x80
            &&& base128_value(s.subrange(1, c)) > max_continued_number()
        }),
{
    lemma_first_octet_bits(s[0]);
    let b = s[0];
    assert(b / 64 <= 3);
    if b % 32 == 31 {
        let rest = s.drop_first();
        lemma_tag_number_decoding_digits(0, rest);
        let c = tag_decoding(s).1;
        if !(tag_decoding(s).0 is RanOut) {
            assert(rest.take(c - 1) =~= s.subrange(1, c));
            lemma_digits_from_zero(s.subrange(1, c));
            assert forall|i: int| 1 <= i < c - 1 implies #[trigger] s[i] >= 0x80 by {
                assert(s[i] == rest[i - 1]);
            }
            if tag_decoding(s).0 is Refused {
                assert(s[c - 1] == rest[c - 2]);
            } else {
                assert(s[c - 1] == rest[c - 2]);
            }
        }
    }
}

/// Reading back the identifier octets written for any tag gives that tag,
/// takes exactly those octets, and leaves whatever follows them alone.
pub proof fn lemma_tag_round_trip(t: TagView, rest: Seq<u8>)
    ensures
        tag_decoding(tag_octets(t) + rest) == (
            Outcome::Value(t),
            tag_octets(t).len() as int,
        ),
{
    let s = tag_octets(t) + rest;
    if t.number < 31 {
        lemma_identifier_octet_fields(t.class, t.constructed, t.number as nat);
    } else {
        lemma_identifier_octet_fields(t.class, t.constructed, 31);
        let n = t.number as nat;
        let d = base128_octets(n / 128, false);
        let y = seq![(n % 128) as u8] + rest;
        assert(s.drop_first() =~= d + y);
        assert(y.drop_first() =~= rest);
        assert(((n % 128) as u8) % 128 == n % 128);
        if n / 128 == 0 {
            assert(d + y =~= y);
        } else {
            lemma_continued_digits(n / 128, y);
        }
    }
}

proof fn lemma_tag_number_decoding_prefix(acc: nat, s: Seq<u8>, t: Seq<u8>)
    ensures
        !(tag_number_decoding(acc, s).0 is RanOut) ==> tag_number_decoding(acc, s + t)
            == tag_number_decoding(acc, s),
        tag_number_decoding(acc, s).0 is RanOut ==> tag_number_decoding(acc, s).1 == s.len(),
    decreases s.len(),
{
    if s.len() > 0 {
        let v = acc * 128 + (s[0] % 128) as nat;
        assert((s + t)[0] == s[0]);
        assert((s + t).drop_first() =~= s.drop_first() + t);
        lemma_tag_number_decoding_prefix(v, s.drop_first(), t);
    }
}

/// Decoding a tag reads no further than it must: unless the input ran out,
/// whatever follows the input changes nothing, and when it ran out, all of
/// the input was taken.
pub proof fn lemma_tag_decoding_prefix(s: Seq<u8>, t: Seq<u8>)
    ensures
        !(tag_decoding(s).0 is RanOut) ==> tag_decoding(s + t) == tag_decoding(s),
        tag_decoding(s).0 is RanOut ==> tag_decoding(s).1 == s.len(),
{
    if s.len() > 0 {
        assert((s + t)[0] == s[0]);
        assert((s + t).drop_first() =~= s.drop_first() + t);
        lemma_tag_number_decoding_prefix(0, s.drop_first(), t);
    }
}

impl Tag {
    /// Two tags are equal exactly when their views are.
    pub proof fn lemma_view_determines(a: Tag, b: Tag)
        ensures
            (a@ == b@) == (a == b),
    {
    }

    /// Appends the identifier octets of `self` to `writer`; this never fails.
    pub fn encode(&self, writer: &mut Vec<u8>) -> (r: Result<(), BerError>)
        ensures
            r is Ok,
            final(writer)@ == old(writer)@ + tag_octets(self@),
    {
        let class_bits = class_bits_of(self.class);
        let constructed_bit: u8 = if self.constructed {
            0b1
        } else {
            0b0
        };
        if self.number < 31 {
            let byte = pack_identifier(class_bits, constructed_bit, self.number as u8);
            writer.push(byte);
        } else {
            let first_byte = pack_identifier(class_bits, constructed_bit, 0b11111);
            writer.push(first_byte);
            let mut number = self.number;
            let mut bytes: Vec<u8> = Vec::new();
            while number > 0
                invariant
                    base128_octets(self.number as nat, true) == base128_octets(
                        number as nat,
                        bytes.len() == 0,
                    ) + bytes@,
                decreases number,
            {
                let ghost before = number;
                let ghost last = bytes.len() == 0;
                let mut byte = (number & 0x7F) as u8;
                number >>= 7;
                assert(byte == before % 128 && number == before / 128) by (bit_vector)
                    requires
                        byte == (before & 0x7F) as u8,
                        number == before >> 7,
                ;
                if !bytes.is_empty() {
                    let low = byte;
                    byte |= 0x80;
                    assert(byte == low + 128) by (bit_vector)
                        requires
                            byte == low | 0x80,
                            low < 128,
                    ;
                }
                bytes.insert(0, byte);
                assert(base128_octets(before as nat, last) == base128_octets(
                    number as nat,
                    false,
                ).push(byte));
            }
            assert(base128_octets(self.number as nat, true) == bytes@);
            writer.append(&mut bytes);
        }
        Ok(())
    }

    /// Reads identifier octets off the front of `reader`, which is left just
    /// after the octets that were taken.
    pub fn decode(reader: &mut &[u8]) -> (r: Result<Self, BerError>)
        ensures
            answers(tag_result_view(r), tag_decoding(old(reader)@).0),
            final(reader)@ == old(reader)@.skip(tag_decoding(old(reader)@).1),
    {
        let ghost input = reader@;
        let first_byte = match read_octet(reader) {
            Ok(b) => b,
            Err(e) => {
                assert(reader@ =~= input.skip(input.len() as int));
                return Err(BerError::IoError(e));
            },
        };
        let bits = (first_byte >> 6) & 0b11;
        let constructed_bit = (first_byte >> 5) & 0b1;
        let low = first_byte & 0b11111;
        assert(bits == first_byte / 64 && constructed_bit == (first_byte / 32) % 2 && low
            == first_byte % 32) by (bit_vector)
            requires
                bits == (first_byte >> 6) & 0b11,
                constructed_bit == (first_byte >> 5) & 0b1,
                low == first_byte & 0b11111,
        ;
        let class = class_from_bits(bits);
        let constructed = constructed_bit == 1;
        let number = if low < 31 {
            low as u32
        } else {
            let ghost rest = input.drop_first();
            let ghost mut taken: int = 0;
            let mut number: u32 = 0;
            loop
                invariant_except_break
                    input == old(reader)@,
                    input.len() >= 1,
                    input[0] % 32 == 31,
                    rest == input.drop_first(),
                    0 <= taken <= rest.len(),
                    reader@ == rest.skip(taken),
                    number <= max_continued_number(),
                    tag_number_decoding(0, rest).0 == tag_number_decoding(
                        number as nat,
                        reader@,
                    ).0,
                    tag_number_decoding(0, rest).1 == tag_number_decoding(
                        number as nat,
                        reader@,
                    ).1 + taken,
                ensures
                    input == old(reader)@,
                    rest == input.drop_first(),
                    tag_number_decoding(0, rest).0 == Outcome::Value(number),
                    tag_number_decoding(0, rest).1 == taken,
                    0 <= taken <= rest.len(),
                    reader@ == rest.skip(tag_number_decoding(0, rest).1),
                decreases reader@.len(),
            {
                let ghost acc = number;
                let ghost here = reader@;
                let byte = match read_octet(reader) {
                    Ok(b) => b,
                    Err(e) => {
                        assert(reader@ =~= input.skip(input.len() as int));
                        return Err(BerError::IoError(e));
                    },
                };
                number = (number << 7) | ((byte & 0x7F) as u32);
                assert(number == acc * 128 + byte % 128) by (bit_vector)
                    requires
                        number == (acc << 7) | ((byte & 0x7F) as u32),
                        acc <= 0x1FF_FFFF,
                ;
                assert(((byte & 0x80) == 0) == (byte < 128)) by (bit_vector);
                assert(rest.skip(taken).drop_first() == rest.skip(taken + 1));
                proof {
                    taken = taken + 1;
                }
                if (byte & 0x80) == 0 {
                    break;
                }
                assert(u32::MAX >> 7 == 0x1FF_FFFF) by (bit_vector);
                if number > (u32::MAX >> 7) {
                    return Err(BerError::InvalidTagNumber);
                }
            }
            assert(rest.skip(tag_number_decoding(0, rest).1) =~= input.skip(
                tag_number_decoding(0, rest).1 + 1,
            ));
            number
        };
        Ok(Tag { class, constructed, number })
    }

    /// A tag of the given class, form and number.
    pub fn new(class: TagClass, constructed: bool, number: u32) -> (t: Self)
        ensures
            t@ == (TagView { class, constructed, number }),
    {
        Tag { class, constructed, number }
    }

    /// A tag of the universal class.
    pub fn universal(number: u32, constructed: bool) -> (t: Self)
        ensures
            t@ == (TagView { class: TagClass::Universal, constructed, number }),
    {
        Tag::new(TagClass::Universal, constructed, number)
    }

    /// A tag of the context-specific class.
    pub fn context_specific(number: u32, constructed: bool) -> (t: Self)
        ensures
            t@ == (TagView { class: TagClass::ContextSpecific, constructed, number }),
    {
        Tag::new(TagClass::ContextSpecific, constructed, number)
    }

    /// Whether the tag is of the constructed form.
    pub fn is_constructed(&self) -> (r: bool)
        ensures
            r == self@.constructed,
    {
        self.constructed
    }

    /// The tag number.
    pub fn tag_number(&self) -> (r: u32)
        ensures
            r == self@.number,
    {
        self.number
    }

    /// The tag class.
    pub fn class(&self) -> (r: TagClass)
        ensures
            r == self@.class,
    {
        self.class
    }
}

} // verus!
