//! Laws of the wire format, proved over the definitions in `format`.
use vstd::prelude::*;
use vstd::utf8::{char_u32_cast, encode_utf8, encode_utf8_decode_utf8, encode_utf8_valid_utf8};

use crate::error::Error;
use crate::format::{
    be, be_value, decoded, decoded_count, decoded_fields, decoded_rest, encoded, encoded_fields, encoded_items,
    fixed, lemma_be_value_push, leb, pow128, pow256, read_leb, read_length, read_varint, signed,
    span32, span64, supported, supported_all, supported_variants, unsigned, variant_index,
};
use crate::shape::{Datum, Shape, Variant};

verus! {

/// The shapes of a single value with no parts: booleans, fixed-width
/// integers, characters, varints, varlongs and strings.
pub open spec fn is_primitive(s: Shape) -> bool {
    match s {
        Shape::Bool | Shape::U8 | Shape::I8 | Shape::U16 | Shape::I16 | Shape::U32 | Shape::I32
        | Shape::U64 | Shape::I64 | Shape::Char | Shape::VarInt | Shape::VarLong | Shape::Text => true,
        _ => false,
    }
}

proof fn lemma_pow128_unfold(k: nat)
    requires
        k >= 1,
    ensures
        pow128(k) == 128 * pow128((k - 1) as nat),
{
}

/// A number under 128 to the power `k` takes at most `k` bytes.
pub proof fn lemma_leb_len(n: nat, k: nat)
    requires
        1 <= k,
        n < pow128(k),
    ensures
        1 <= leb(n).len() <= k,
    decreases k,
{
    if n >= 128 {
        if k == 1 {
            assert(pow128(1) == 128) by {
                reveal_with_fuel(pow128, 2);
            }
        } else {
            let p = pow128((k - 1) as nat);
            lemma_pow128_unfold(k);
            assert(n / 128 < p) by (nonlinear_arith)
                requires n < 128 * p;
            lemma_leb_len(n / 128, (k - 1) as nat);
        }
    }
}

/// A number of at least 128 to the power `k` takes more than `k` bytes.
pub proof fn lemma_leb_len_lower(n: nat, k: nat)
    requires
        n >= pow128(k),
    ensures
        leb(n).len() > k,
    decreases k,
{
    if k > 0 {
        let p = pow128((k - 1) as nat);
        lemma_pow128_unfold(k);
        assert(p >= 1) by {
            lemma_pow128_pos((k - 1) as nat);
        }
        assert(n / 128 >= p) by (nonlinear_arith)
            requires n >= 128 * p;
        lemma_leb_len_lower(n / 128, (k - 1) as nat);
    }
}

proof fn lemma_pow128_pos(k: nat)
    ensures
        pow128(k) >= 1,
    decreases k,
{
    if k > 0 {
        lemma_pow128_pos((k - 1) as nat);
    }
}

/// Reading the encoding of `n`, with a cap it fits, gives `n` back and leaves
/// what follows.
pub proof fn lemma_leb_round_trip(n: nat, cap: nat, rest: Seq<u8>)
    requires
        leb(n).len() <= cap,
    ensures
        read_leb(leb(n) + rest, cap) == Ok::<(nat, Seq<u8>), Error>((n, rest)),
    decreases n,
{
    let inp = leb(n) + rest;
    if n < 128 {
        assert(inp.skip(1) =~= rest);
    } else {
        assert(inp.skip(1) =~= leb(n / 128) + rest);
        lemma_leb_round_trip(n / 128, (cap - 1) as nat, rest);
    }
}

/// A variable-length encoding is minimal: every byte but the last carries
/// the continuation bit, the last does not, and a last byte after others is
/// never zero.
pub proof fn lemma_leb_minimal(n: nat)
    ensures
        leb(n).len() >= 1,
        leb(n).last() < 128,
        forall|i: int| 0 <= i < leb(n).len() - 1 ==> #[trigger] leb(n)[i] >= 128,
        leb(n).len() > 1 ==> leb(n).last() != 0,
    decreases n,
{
    if n >= 128 {
        lemma_leb_minimal(n / 128);
        let t = leb(n / 128);
        assert(leb(n) == seq![(n % 128 + 128) as u8] + t);
        assert forall|i: int| 0 <= i < leb(n).len() - 1 implies #[trigger] leb(n)[i] >= 128 by {
            if i > 0 {
                assert(leb(n)[i] == t[i - 1]);
            }
        }
    }
}

/// A strict prefix of a variable-length encoding ends too early.
pub proof fn lemma_leb_truncated(n: nat, cap: nat, k: int)
    requires
        leb(n).len() <= cap,
        0 <= k < leb(n).len(),
    ensures
        read_leb(leb(n).take(k), cap) == Err::<(nat, Seq<u8>), Error>(Error::Eof),
    decreases n,
{
    if k > 0 {
        let inp = leb(n).take(k);
        assert(inp.skip(1) =~= leb(n / 128).take(k - 1));
        lemma_leb_truncated(n / 128, (cap - 1) as nat, k - 1);
    }
}

/// The big-endian bytes of a number that fits in `w` bytes spell it.
pub proof fn lemma_be_round_trip(n: nat, w: nat)
    requires
        n < pow256(w),
    ensures
        be(n, w).len() == w,
        be_value(be(n, w)) == n,
    decreases w,
{
    if w > 0 {
        let p = pow256((w - 1) as nat);
        assert(n / 256 < p) by (nonlinear_arith)
            requires n < 256 * p;
        lemma_be_round_trip(n / 256, (w - 1) as nat);
        lemma_be_value_push(be(n / 256, (w - 1) as nat), (n % 256) as u8);
    }
}

proof fn lemma_fixed_round_trip(n: nat, w: nat, rest: Seq<u8>)
    requires
        n < pow256(w),
    ensures
        fixed(be(n, w) + rest, w) == Ok::<(nat, Seq<u8>), Error>((n, rest)),
{
    lemma_be_round_trip(n, w);
    assert((be(n, w) + rest).take(w as int) =~= be(n, w));
    assert((be(n, w) + rest).skip(w as int) =~= rest);
}

/// A varint decodes to the `i32` it encodes.
pub proof fn lemma_varint_round_trip(x: i32, rest: Seq<u8>)
    ensures
        leb(unsigned(x as int, span32())).len() <= 5,
        read_varint(leb(unsigned(x as int, span32())) + rest) == Ok::<(int, Seq<u8>), Error>(
            (x as int, rest),
        ),
{
    let u = unsigned(x as int, span32());
    assert(pow128(5) == 0x8_0000_0000) by {
        reveal_with_fuel(pow128, 6);
    }
    lemma_leb_len(u, 5);
    lemma_leb_round_trip(u, 5, rest);
    assert(u % (span32() as nat) == u) by {
        vstd::arithmetic::div_mod::lemma_small_mod(u, span32() as nat);
    }
}

proof fn lemma_integer_round_trip(d: Datum, s: Shape, rest: Seq<u8>)
    requires
        encoded(d, s) is Ok,
    ensures
        s is U8 || s is I8 || s is U16 || s is I16 || s is U32 || s is I32 || s is U64 || s is I64
            ==> decoded(s, encoded(d, s)->Ok_0 + rest) == Ok::<(Datum, Seq<u8>), Error>((d, rest)),
{
    reveal_with_fuel(pow256, 9);
    match (s, d) {
        (Shape::U8, Datum::U8(x)) => {
            lemma_fixed_round_trip(x as nat, 1, rest);
        },
        (Shape::I8, Datum::I8(x)) => {
            lemma_fixed_round_trip(unsigned(x as int, 0x100), 1, rest);
        },
        (Shape::U16, Datum::U16(x)) => {
            lemma_fixed_round_trip(x as nat, 2, rest);
        },
        (Shape::I16, Datum::I16(x)) => {
            lemma_fixed_round_trip(unsigned(x as int, 0x1_0000), 2, rest);
        },
        (Shape::U32, Datum::U32(x)) => {
            lemma_fixed_round_trip(x as nat, 4, rest);
        },
        (Shape::I32, Datum::I32(x)) => {
            lemma_fixed_round_trip(unsigned(x as int, span32()), 4, rest);
        },
        (Shape::U64, Datum::U64(x)) => {
            lemma_fixed_round_trip(x as nat, 8, rest);
        },
        (Shape::I64, Datum::I64(x)) => {
            lemma_fixed_round_trip(unsigned(x as int, span64()), 8, rest);
        },
        _ => {},
    }
}

/// Every encoded primitive value decodes to itself, and the bytes after it
/// are left as they were.
pub proof fn lemma_primitive_round_trip(d: Datum, s: Shape, rest: Seq<u8>)
    requires
        is_primitive(s),
        encoded(d, s) is Ok,
    ensures
        decoded(s, encoded(d, s)->Ok_0 + rest) == Ok::<(Datum, Seq<u8>), Error>((d, rest)),
{
    assert(pow256(1) == 256) by {
        reveal_with_fuel(pow256, 2);
    }
    let b = encoded(d, s)->Ok_0;
    match (s, d) {
        (Shape::Bool, Datum::Bool(v)) => {
            lemma_fixed_round_trip(if v { 1 } else { 0 }, 1, rest);
            assert(b =~= be(if v { 1nat } else { 0nat }, 1));
        },
        (Shape::U8, _) | (Shape::I8, _) | (Shape::U16, _) | (Shape::I16, _) | (Shape::U32, _)
        | (Shape::I32, _) | (Shape::U64, _) | (Shape::I64, _) => {
            lemma_integer_round_trip(d, s, rest);
        },
        (Shape::Char, Datum::Char(c)) => {
            lemma_fixed_round_trip((c as u8) as nat, 1, rest);
            assert(b =~= be((c as u8) as nat, 1));
            char_u32_cast(c, c as u32);
        },
        (Shape::VarInt, Datum::I32(x)) => {
            lemma_varint_round_trip(x, rest);
        },
        (Shape::VarLong, Datum::I64(x)) => {
            let u = unsigned(x as int, span64());
            assert(pow128(10) == 0x40_0000_0000_0000_0000) by {
                reveal_with_fuel(pow128, 11);
            }
            lemma_leb_len(u, 10);
            lemma_leb_round_trip(u, 10, rest);
            assert(u < span64());
            assert(u % (span64() as nat) == u) by {
                vstd::arithmetic::div_mod::lemma_small_mod(u, span64() as nat);
            }
            assert(signed(u, span64()) == x);
        },
        (Shape::Text, Datum::Text(cs)) => {
            let t = encode_utf8(cs);
            lemma_varint_round_trip(t.len() as i32, t + rest);
            assert(b + rest =~= leb(unsigned(t.len() as i32 as int, span32())) + (t + rest));
            assert((t + rest).take(t.len() as int) =~= t);
            assert((t + rest).skip(t.len() as int) =~= rest);
            encode_utf8_valid_utf8(cs);
            encode_utf8_decode_utf8(cs);
        },
        _ => {},
    }
}

/// A negative `i32` takes all five bytes of a varint, a negative `i64` all
/// ten of a varlong.
pub proof fn lemma_negative_full_width(x: i32, y: i64)
    ensures
        x < 0 ==> leb(unsigned(x as int, span32())).len() == 5,
        y < 0 ==> leb(unsigned(y as int, span64())).len() == 10,
{
    assert(pow128(4) == 0x1000_0000) by {
        reveal_with_fuel(pow128, 5);
    }
    assert(pow128(5) == 0x8_0000_0000) by {
        reveal_with_fuel(pow128, 6);
    }
    assert(pow128(9) == 0x8000_0000_0000_0000) by {
        reveal_with_fuel(pow128, 10);
    }
    assert(pow128(10) == 0x40_0000_0000_0000_0000) by {
        reveal_with_fuel(pow128, 11);
    }
    let u = unsigned(x as int, span32());
    let v = unsigned(y as int, span64());
    lemma_leb_len(u, 5);
    lemma_leb_len(v, 10);
    if x < 0 {
        lemma_leb_len_lower(u, 4);
    }
    if y < 0 {
        lemma_leb_len_lower(v, 9);
    }
}

proof fn lemma_truncated_fixed(n: nat, w: nat, k: int)
    requires
        n < pow256(w),
        0 <= k < be(n, w).len(),
    ensures
        fixed(be(n, w).take(k), w) == Err::<(nat, Seq<u8>), Error>(Error::Eof),
{
    lemma_be_round_trip(n, w);
}

/// Any strict prefix of an encoded primitive value ends too early: decoding
/// it fails with `Eof`, never with a shorter value.
pub proof fn lemma_truncated_primitive(d: Datum, s: Shape, k: int)
    requires
        is_primitive(s),
        encoded(d, s) is Ok,
        0 <= k < encoded(d, s)->Ok_0.len(),
    ensures
        decoded(s, encoded(d, s)->Ok_0.take(k)) == Err::<(Datum, Seq<u8>), Error>(Error::Eof),
{
    reveal_with_fuel(pow256, 9);
    assert(pow256(1) == 256) by {
        reveal_with_fuel(pow256, 2);
    }
    assert(pow128(5) == 0x8_0000_0000) by {
        reveal_with_fuel(pow128, 6);
    }
    assert(pow128(10) == 0x40_0000_0000_0000_0000) by {
        reveal_with_fuel(pow128, 11);
    }
    let b = encoded(d, s)->Ok_0;
    match (s, d) {
        (Shape::U16, Datum::U16(x)) => {
            lemma_truncated_fixed(x as nat, 2, k);
        },
        (Shape::I16, Datum::I16(x)) => {
            lemma_truncated_fixed(unsigned(x as int, 0x1_0000), 2, k);
        },
        (Shape::U32, Datum::U32(x)) => {
            lemma_truncated_fixed(x as nat, 4, k);
        },
        (Shape::I32, Datum::I32(x)) => {
            lemma_truncated_fixed(unsigned(x as int, span32()), 4, k);
        },
        (Shape::U64, Datum::U64(x)) => {
            lemma_truncated_fixed(x as nat, 8, k);
        },
        (Shape::I64, Datum::I64(x)) => {
            lemma_truncated_fixed(unsigned(x as int, span64()), 8, k);
        },
        (Shape::U8, Datum::U8(x)) => {
            lemma_truncated_fixed(x as nat, 1, k);
        },
        (Shape::I8, Datum::I8(x)) => {
            lemma_truncated_fixed(unsigned(x as int, 0x100), 1, k);
        },
        (Shape::VarInt, Datum::I32(x)) => {
            let u = unsigned(x as int, span32());
            lemma_leb_len(u, 5);
            lemma_leb_truncated(u, 5, k);
        },
        (Shape::VarLong, Datum::I64(x)) => {
            let u = unsigned(x as int, span64());
            lemma_leb_len(u, 10);
            lemma_leb_truncated(u, 10, k);
        },
        (Shape::Text, Datum::Text(cs)) => {
            let t = encode_utf8(cs);
            let n = t.len();
            let p = leb(n);
            lemma_leb_len(n, 5);
            if k < p.len() {
                assert(b.take(k) =~= p.take(k));
                lemma_leb_truncated(n, 5, k);
            } else {
                let part = t.take(k - p.len());
                assert(b.take(k) =~= p + part);
                lemma_leb_round_trip(n, 5, part);
                assert(n % (span32() as nat) == n) by {
                    vstd::arithmetic::div_mod::lemma_small_mod(n, span32() as nat);
                }
                assert(read_length(p + part) == Ok::<(nat, Seq<u8>), Error>((n, part)));
            }
        },
        (Shape::Bool, Datum::Bool(_)) => {
            assert(b.take(k).len() == 0);
        },
        (Shape::Char, Datum::Char(_)) => {
            assert(b.take(k).len() == 0);
        },
        _ => {},
    }
}

/// The shapes whose encoding tells where it ends: every shape but an
/// unprefixed sequence, which runs to the end of the input, and the
/// unsupported ones.
pub open spec fn delimited(s: Shape) -> bool
    decreases s, 0nat,
{
    match s {
        Shape::Tuple(fs) => delimited_all(fs@),
        Shape::Union(vs) => delimited_variants(vs@),
        Shape::Sized(e) => delimited(*e),
        Shape::Unsized(_) => false,
        Shape::Optional(_) => false,
        Shape::KeyValue(_, _) => false,
        Shape::Any => false,
        _ => true,
    }
}

pub open spec fn delimited_all(ss: Seq<Shape>) -> bool
    decreases ss, 0nat,
{
    if ss.len() == 0 {
        true
    } else {
        delimited_all(ss.subrange(0, ss.len() - 1)) && delimited(ss[ss.len() - 1])
    }
}

pub open spec fn delimited_variants(vs: Seq<Variant>) -> bool
    decreases vs, 0nat,
{
    if vs.len() == 0 {
        true
    } else {
        delimited_variants(vs.subrange(0, vs.len() - 1)) && delimited_all(
            vs[vs.len() - 1].fields@,
        )
    }
}

proof fn lemma_delimited_variant(vs: Seq<Variant>, i: int)
    requires
        delimited_variants(vs),
        0 <= i < vs.len(),
    ensures
        delimited_all(vs[i].fields@),
    decreases vs.len(),
{
    if i < vs.len() - 1 {
        let vs2 = vs.subrange(0, vs.len() - 1);
        lemma_delimited_variant(vs2, i);
        assert(vs2[i] == vs[i]);
    }
}

/// A discriminant reads back as the varint whose bit pattern it is.
proof fn lemma_discriminant_read(k: u32, rest: Seq<u8>)
    ensures
        read_varint(leb(k as nat) + rest) == Ok::<(int, Seq<u8>), Error>(
            (signed(k as nat, span32()), rest),
        ),
        unsigned(signed(k as nat, span32()), span32()) as u32 == k,
{
    assert(pow128(5) == 0x8_0000_0000) by {
        reveal_with_fuel(pow128, 6);
    }
    lemma_leb_len(k as nat, 5);
    lemma_leb_round_trip(k as nat, 5, rest);
    assert((k as nat) % (span32() as nat) == k as nat) by {
        vstd::arithmetic::div_mod::lemma_small_mod(k as nat, span32() as nat);
    }
}

/// A length that fits an `i32` reads back as itself.
proof fn lemma_length_read(n: nat, rest: Seq<u8>)
    requires
        n <= i32::MAX,
    ensures
        read_length(leb(n) + rest) == Ok::<(nat, Seq<u8>), Error>((n, rest)),
{
    assert(pow128(5) == 0x8_0000_0000) by {
        reveal_with_fuel(pow128, 6);
    }
    lemma_leb_len(n, 5);
    lemma_leb_round_trip(n, 5, rest);
    assert(n % (span32() as nat) == n) by {
        vstd::arithmetic::div_mod::lemma_small_mod(n, span32() as nat);
    }
}

/// A delimited shape has no unsupported part.
pub proof fn lemma_delimited_supported(s: Shape)
    requires
        delimited(s),
    ensures
        supported(s),
    decreases s, 0nat,
{
    match s {
        Shape::Tuple(fs) => lemma_delimited_all_supported(fs@),
        Shape::Union(vs) => lemma_delimited_variants_supported(vs@),
        Shape::Sized(e) => lemma_delimited_supported(*e),
        _ => {},
    }
}

proof fn lemma_delimited_all_supported(ss: Seq<Shape>)
    requires
        delimited_all(ss),
    ensures
        supported_all(ss),
    decreases ss, 0nat,
{
    if ss.len() > 0 {
        lemma_delimited_all_supported(ss.subrange(0, ss.len() - 1));
        lemma_delimited_supported(ss[ss.len() - 1]);
    }
}

proof fn lemma_delimited_variants_supported(vs: Seq<Variant>)
    requires
        delimited_variants(vs),
    ensures
        supported_variants(vs),
    decreases vs, 0nat,
{
    if vs.len() > 0 {
        lemma_delimited_variants_supported(vs.subrange(0, vs.len() - 1));
        lemma_delimited_all_supported(vs[vs.len() - 1].fields@);
    }
}

/// Whatever encodes under a delimited shape decodes back to itself under the
/// same shape, and the bytes after it are left as they were: records, tagged
/// unions and length-prefixed sequences of any delimited parts, nested to
/// any depth.
#[verifier::rlimit(50)]
pub proof fn lemma_round_trip(d: Datum, s: Shape, rest: Seq<u8>)
    requires
        delimited(s),
        encoded(d, s) is Ok,
    ensures
        decoded(s, encoded(d, s)->Ok_0 + rest) == Ok::<(Datum, Seq<u8>), Error>((d, rest)),
    decreases s, 0nat,
{
    if is_primitive(s) {
        lemma_primitive_round_trip(d, s, rest);
    } else {
        match (s, d) {
            (Shape::Tuple(fs), Datum::Tuple(ds)) => {
                lemma_fields_round_trip(ds, fs@, rest);
            },
            (Shape::Union(vs), Datum::Union(k, ds)) => {
                let i = variant_index(vs@, k)->Some_0;
                lemma_delimited_variant(vs@, i);
                let fb = encoded_fields(ds, vs@[i].fields@)->Ok_0;
                lemma_fields_round_trip(ds, vs@[i].fields@, rest);
                lemma_discriminant_read(k, fb + rest);
                assert(encoded(d, s)->Ok_0 + rest =~= leb(k as nat) + (fb + rest));
            },
            (Shape::Sized(e), Datum::List(ds)) => {
                lemma_delimited_supported(*e);
                let ib = encoded_items(ds, *e)->Ok_0;
                lemma_items_round_trip(ds, *e, rest);
                lemma_length_read(ds.len(), ib + rest);
                assert(encoded(d, s)->Ok_0 + rest =~= leb(ds.len()) + (ib + rest));
            },
            _ => {},
        }
    }
}

/// Fields encoded one after the other decode back, field by field.
pub proof fn lemma_fields_round_trip(ds: Seq<Datum>, ss: Seq<Shape>, rest: Seq<u8>)
    requires
        delimited_all(ss),
        ds.len() == ss.len(),
        encoded_fields(ds, ss) is Ok,
    ensures
        decoded_fields(ss, encoded_fields(ds, ss)->Ok_0 + rest) == Ok::<
            (Seq<Datum>, Seq<u8>),
            Error,
        >((ds, rest)),
    decreases ss, 0nat,
{
    if ss.len() == 0 {
        assert(Seq::<u8>::empty() + rest =~= rest);
        assert(ds =~= Seq::<Datum>::empty());
    } else {
        let n = ss.len() - 1;
        let ds2 = ds.subrange(0, n);
        let ss2 = ss.subrange(0, n);
        let b1 = encoded_fields(ds2, ss2)->Ok_0;
        let c = encoded(ds[n], ss[n])->Ok_0;
        lemma_fields_round_trip(ds2, ss2, c + rest);
        lemma_round_trip(ds[n], ss[n], rest);
        assert(b1 + c + rest =~= b1 + (c + rest));
        assert(ds2.push(ds[n]) =~= ds);
    }
}

/// Elements encoded one after the other decode back when their count is known.
pub proof fn lemma_items_round_trip(ds: Seq<Datum>, s: Shape, rest: Seq<u8>)
    requires
        delimited(s),
        encoded_items(ds, s) is Ok,
    ensures
        decoded_count(s, ds.len(), encoded_items(ds, s)->Ok_0 + rest) == Ok::<
            (Seq<Datum>, Seq<u8>),
            Error,
        >((ds, rest)),
    decreases s, ds.len(),
{
    if ds.len() == 0 {
        assert(Seq::<u8>::empty() + rest =~= rest);
        assert(ds =~= Seq::<Datum>::empty());
    } else {
        let ds2 = ds.drop_last();
        let b1 = encoded_items(ds2, s)->Ok_0;
        let c = encoded(ds.last(), s)->Ok_0;
        lemma_items_round_trip(ds2, s, c + rest);
        lemma_round_trip(ds.last(), s, rest);
        assert(b1 + c + rest =~= b1 + (c + rest));
        assert(ds2.push(ds.last()) =~= ds);
    }
}

/// A discriminant that no variant declares is invalid data.
pub proof fn lemma_unknown_discriminant(variants: Vec<Variant>, k: u32, rest: Seq<u8>)
    requires
        variant_index(variants@, k) is None,
    ensures
        decoded(Shape::Union(variants), leb(k as nat) + rest) == Err::<(Datum, Seq<u8>), Error>(
            Error::InvalidData,
        ),
{
    lemma_discriminant_read(k, rest);
}

/// `r` is what is left of `inp` after some bytes were taken from its front.
pub open spec fn is_suffix(r: Seq<u8>, inp: Seq<u8>) -> bool {
    r.len() <= inp.len() && r == inp.skip(inp.len() - r.len())
}

proof fn lemma_suffix_trans(a: Seq<u8>, b: Seq<u8>, c: Seq<u8>)
    requires
        is_suffix(a, b),
        is_suffix(b, c),
    ensures
        is_suffix(a, c),
{
    assert(a =~= c.skip(c.len() - a.len()));
}

proof fn lemma_skip_suffix(inp: Seq<u8>, n: int)
    requires
        0 <= n <= inp.len(),
    ensures
        is_suffix(inp.skip(n), inp),
{
    assert(inp.skip(n) =~= inp.skip(inp.len() - inp.skip(n).len()));
}

proof fn lemma_read_leb_suffix(inp: Seq<u8>, cap: nat)
    ensures
        read_leb(inp, cap) matches Ok((_, r)) ==> is_suffix(r, inp),
    decreases cap,
{
    if inp.len() > 0 {
        lemma_skip_suffix(inp, 1);
        if inp[0] >= 128 && cap > 1 {
            lemma_read_leb_suffix(inp.skip(1), (cap - 1) as nat);
            if let Ok((_, r)) = read_leb(inp.skip(1), (cap - 1) as nat) {
                lemma_suffix_trans(r, inp.skip(1), inp);
            }
        }
    }
}

/// Decoding only moves forward: what is left after a value is what follows
/// it in the input, never bytes read before.
pub proof fn lemma_decoded_suffix(s: Shape, inp: Seq<u8>)
    ensures
        decoded(s, inp) matches Ok((_, r)) ==> is_suffix(r, inp),
    decreases s, 0nat,
{
    lemma_read_leb_suffix(inp, 5);
    lemma_read_leb_suffix(inp, 10);
    match s {
        Shape::Bool | Shape::U8 | Shape::I8 | Shape::Char => {
            if inp.len() >= 1 {
                lemma_skip_suffix(inp, 1);
            }
        },
        Shape::U16 | Shape::I16 => {
            if inp.len() >= 2 {
                lemma_skip_suffix(inp, 2);
            }
        },
        Shape::U32 | Shape::I32 => {
            if inp.len() >= 4 {
                lemma_skip_suffix(inp, 4);
            }
        },
        Shape::U64 | Shape::I64 => {
            if inp.len() >= 8 {
                lemma_skip_suffix(inp, 8);
            }
        },
        Shape::Text => {
            if let Ok((n, r)) = read_length(inp) {
                if r.len() >= n {
                    lemma_skip_suffix(r, n as int);
                    lemma_suffix_trans(r.skip(n as int), r, inp);
                }
            }
        },
        Shape::Tuple(fs) => {
            lemma_decoded_fields_suffix(fs@, inp);
        },
        Shape::Union(vs) => {
            if let Ok((n, r)) = read_varint(inp) {
                if let Some(i) = variant_index(vs@, unsigned(n, span32()) as u32) {
                    lemma_decoded_fields_suffix(vs@[i].fields@, r);
                    if let Ok((_, r2)) = decoded_fields(vs@[i].fields@, r) {
                        lemma_suffix_trans(r2, r, inp);
                    }
                }
            }
        },
        Shape::Sized(e) => {
            if let Ok((n, r)) = read_length(inp) {
                if n < 0x8000_0000 {
                    lemma_decoded_count_suffix(*e, n, r);
                    if let Ok((_, r2)) = decoded_count(*e, n, r) {
                        lemma_suffix_trans(r2, r, inp);
                    }
                }
            }
        },
        Shape::Unsized(e) => {
            lemma_decoded_rest_suffix(*e, inp);
        },
        _ => {},
    }
}

proof fn lemma_decoded_fields_suffix(ss: Seq<Shape>, inp: Seq<u8>)
    ensures
        decoded_fields(ss, inp) matches Ok((_, r)) ==> is_suffix(r, inp),
    decreases ss, 0nat,
{
    if ss.len() == 0 {
        assert(inp =~= inp.skip(0));
    } else {
        let ss2 = ss.subrange(0, ss.len() - 1);
        lemma_decoded_fields_suffix(ss2, inp);
        if let Ok((_, r)) = decoded_fields(ss2, inp) {
            lemma_decoded_suffix(ss[ss.len() - 1], r);
            if let Ok((_, r2)) = decoded(ss[ss.len() - 1], r) {
                lemma_suffix_trans(r2, r, inp);
            }
        }
    }
}

proof fn lemma_decoded_count_suffix(s: Shape, n: nat, inp: Seq<u8>)
    ensures
        decoded_count(s, n, inp) matches Ok((_, r)) ==> is_suffix(r, inp),
    decreases s, n,
{
    if n == 0 {
        assert(inp =~= inp.skip(0));
    } else {
        lemma_decoded_count_suffix(s, (n - 1) as nat, inp);
        if let Ok((_, r)) = decoded_count(s, (n - 1) as nat, inp) {
            lemma_decoded_suffix(s, r);
            if let Ok((_, r2)) = decoded(s, r) {
                lemma_suffix_trans(r2, r, inp);
            }
        }
    }
}

proof fn lemma_decoded_rest_suffix(s: Shape, inp: Seq<u8>)
    ensures
        decoded_rest(s, inp) matches Ok((_, r)) ==> is_suffix(r, inp),
    decreases s, inp.len(),
{
    if inp.len() == 0 {
        assert(inp =~= inp.skip(0));
    } else {
        lemma_decoded_suffix(s, inp);
        if let Ok((_, r)) = decoded(s, inp) {
            if r.len() < inp.len() {
                lemma_decoded_rest_suffix(s, r);
                if let Ok((_, r2)) = decoded_rest(s, r) {
                    lemma_suffix_trans(r2, r, inp);
                }
            }
        }
    }
}

/// Encoding elements one after the other, seen from the front.
proof fn lemma_encoded_items_front(ds: Seq<Datum>, s: Shape)
    requires
        ds.len() > 0,
        encoded_items(ds, s) is Ok,
    ensures
        encoded(ds[0], s) is Ok,
        encoded_items(ds.drop_first(), s) is Ok,
        encoded_items(ds, s)->Ok_0 == encoded(ds[0], s)->Ok_0 + encoded_items(ds.drop_first(), s)->Ok_0,
    decreases ds.len(),
{
    if ds.len() == 1 {
        assert(ds.drop_last() =~= Seq::<Datum>::empty());
        assert(ds.drop_first() =~= Seq::<Datum>::empty());
        assert(encoded(ds[0], s)->Ok_0 + Seq::<u8>::empty() =~= encoded(ds[0], s)->Ok_0);
    } else {
        let init = ds.drop_last();
        lemma_encoded_items_front(init, s);
        assert(ds.drop_first().drop_last() =~= init.drop_first());
        assert(ds.drop_first().last() == ds.last());
        assert(init[0] == ds[0]);
        let a = encoded(ds[0], s)->Ok_0;
        let m = encoded_items(init.drop_first(), s)->Ok_0;
        let z = encoded(ds.last(), s)->Ok_0;
        assert(a + m + z =~= a + (m + z));
    }
}

/// An unprefixed sequence whose elements each encode to at least one byte
/// decodes back to its elements when it ends the input.
pub proof fn lemma_unsized_round_trip(ds: Seq<Datum>, s: Shape)
    requires
        delimited(s),
        encoded_items(ds, s) is Ok,
        forall|i: int| 0 <= i < ds.len() ==> #[trigger] encoded(ds[i], s)->Ok_0.len() > 0,
    ensures
        decoded(Shape::Unsized(Box::new(s)), encoded_items(ds, s)->Ok_0) == Ok::<
            (Datum, Seq<u8>),
            Error,
        >((Datum::List(ds), Seq::empty())),
{
    lemma_delimited_supported(s);
    lemma_rest_round_trip(ds, s);
}

proof fn lemma_rest_round_trip(ds: Seq<Datum>, s: Shape)
    requires
        delimited(s),
        encoded_items(ds, s) is Ok,
        forall|i: int| 0 <= i < ds.len() ==> #[trigger] encoded(ds[i], s)->Ok_0.len() > 0,
    ensures
        decoded_rest(s, encoded_items(ds, s)->Ok_0) == Ok::<(Seq<Datum>, Seq<u8>), Error>(
            (ds, Seq::empty()),
        ),
    decreases ds.len(),
{
    if ds.len() == 0 {
        assert(ds =~= Seq::<Datum>::empty());
    } else {
        lemma_encoded_items_front(ds, s);
        let tail = ds.drop_first();
        let c = encoded(ds[0], s)->Ok_0;
        let t = encoded_items(tail, s)->Ok_0;
        assert(encoded(ds[0], s)->Ok_0.len() > 0);
        lemma_round_trip(ds[0], s, t);
        assert forall|i: int| 0 <= i < tail.len() implies #[trigger] encoded(tail[i], s)->Ok_0.len()
            > 0 by {
            assert(tail[i] == ds[i + 1]);
        }
        lemma_rest_round_trip(tail, s);
        assert(seq![ds[0]] + tail =~= ds);
    }
}

} // verus!
