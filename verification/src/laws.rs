//! The format's stated properties, proved over the specifications: the
//! one-byte encoding of empty containers, and the symmetry and minimality
//! of the zig-zag varint layout.
use vstd::prelude::*;

use crate::decode::{read_long_m, varint_dec_rec, DecodeError};
use crate::encode::{encode_m, long_bytes};
use crate::schema::{CtxM, SchemaM};
use crate::types::ValueM;
use crate::varint::{
    lemma_unzigzag64_roundtrip, lemma_varint_minimal, lemma_varint_seq_len, pow128, unzigzag64,
    varint_len, varint_seq, zigzag64,
};

verus! {

/// Encoding an empty array or an empty map against any element schema
/// produces exactly one byte, value zero, and leaves the context alone.
pub proof fn lemma_empty_container_encoding(elem: SchemaM, val: SchemaM, ctx: CtxM)
    ensures
        encode_m(ValueM::Array(Seq::empty()), SchemaM::Array(Box::new(elem)), ctx) == (
            seq![0u8],
            ctx,
        ),
        encode_m(ValueM::Mapping(Seq::empty()), SchemaM::Mapping(Box::new(val)), ctx) == (
            seq![0u8],
            ctx,
        ),
{
    let b = Box::new(elem);
    assert(*b == elem);
    let b2 = Box::new(val);
    assert(*b2 == val);
    assert(crate::encode::encode_seq_m(Seq::empty(), elem, ctx) == (
        Seq::<u8>::empty(),
        ctx,
    ));
    assert(crate::encode::encode_entries_m(Seq::empty(), val, ctx) == (
        Seq::<u8>::empty(),
        ctx,
    ));
}

/// Parsing the varint bytes of `u`, laid at position `i` with `acc`
/// already assembled and the next group weighing `scale`, yields the
/// completed value and stops right after the encoding.
proof fn lemma_varint_dec_generic(s: Seq<u8>, i: int, left: nat, acc: u64, scale: u64, u: u64)
    requires
        0 <= i,
        i + varint_len(u) <= s.len(),
        s.subrange(i, i + varint_len(u)) == varint_seq(u),
        varint_len(u) <= left,
        (acc as int) + (u as int) * (scale as int) < 0x1_0000_0000_0000_0000,
        scale >= 1,
    ensures
        varint_dec_rec(s, i, left, acc, scale) == Ok::<(u64, int), DecodeError>(
            (((acc as int) + (u as int) * (scale as int)) as u64, i + varint_len(u)),
        ),
    decreases u,
{
    broadcast use lemma_varint_seq_len;

    let enc = varint_seq(u);
    assert(s[i] == enc[0]);
    if u < 128 {
        assert(enc[0] == u as u8);
        assert((u as int) * (scale as int) >= 0) by (nonlinear_arith)
            requires
                u >= 0,
                scale >= 0,
        ;
    } else {
        let r = u % 128;
        let q = u / 128;
        assert(enc[0] == (r + 128) as u8);
        assert(s[i] >= 128);
        assert(varint_len(u) == 1 + varint_len(q));
        assert(left > 1);
        let acc2 = ((acc as int) + (r as int) * (scale as int)) % 0x1_0000_0000_0000_0000;
        let scale2 = ((scale as int) * 128) % 0x1_0000_0000_0000_0000;
        assert((u as int) == 128 * (q as int) + (r as int));
        assert(q >= 1);
        assert((r as int) * (scale as int) + 128 * (scale as int) * (q as int) == (u as int) * (
        scale as int)) by (nonlinear_arith)
            requires
                (u as int) == 128 * (q as int) + (r as int),
        ;
        assert((q as int) * (128 * (scale as int)) >= 128 * (scale as int)) by (nonlinear_arith)
            requires
                q >= 1,
                scale >= 1,
        ;
        assert((r as int) * (scale as int) >= 0) by (nonlinear_arith)
            requires
                r >= 0,
                scale >= 1,
        ;
        assert((acc as int) + (r as int) * (scale as int) < 0x1_0000_0000_0000_0000);
        assert(acc2 == (acc as int) + (r as int) * (scale as int));
        assert(128 * (scale as int) < 0x1_0000_0000_0000_0000);
        assert(scale2 == 128 * (scale as int));
        assert(s.subrange(i + 1, i + 1 + varint_len(q)) =~= varint_seq(q)) by {
            assert(enc =~= seq![(r + 128) as u8] + varint_seq(q));
            assert forall|k: int| 0 <= k < varint_len(q) implies #[trigger] s.subrange(
                i + 1,
                i + 1 + varint_len(q),
            )[k] == varint_seq(q)[k] by {
                assert(s.subrange(i + 1, i + 1 + varint_len(q))[k] == s[i + 1 + k]);
                assert(s[i + 1 + k] == s.subrange(i, i + varint_len(u))[1 + k]);
                assert(enc[1 + k] == varint_seq(q)[k]);
            }
        }
        assert((acc2 as int) + (q as int) * (scale2 as int) == (acc as int) + (u as int) * (
        scale as int)) by (nonlinear_arith)
            requires
                acc2 == (acc as int) + (r as int) * (scale as int),
                scale2 == 128 * (scale as int),
                (u as int) == 128 * (q as int) + (r as int),
        ;
        lemma_varint_dec_generic(s, i + 1, (left - 1) as nat, acc2 as u64, scale2 as u64, q);
    }
}

/// Zig-zag symmetry: decoding the zig-zag varint encoding of `n`, with
/// anything after it, returns exactly `n` and consumes exactly the
/// encoding; and the encoding uses the minimal number of bytes able to
/// carry the zig-zag code.
pub proof fn lemma_zigzag_varint_round_trip(n: i64, rest: Seq<u8>)
    ensures
        ({
            let enc = varint_seq(zigzag64(n));
            &&& read_long_m(enc + rest, 0) == Ok::<(i64, int), DecodeError>((n, enc.len() as int))
            &&& enc.len() == varint_len(zigzag64(n))
            &&& (zigzag64(n) as int) < pow128(varint_len(zigzag64(n)))
            &&& varint_len(zigzag64(n)) > 1 ==> (zigzag64(n) as int) >= pow128(
                (varint_len(zigzag64(n)) - 1) as nat,
            )
        }),
{
    broadcast use lemma_varint_seq_len, lemma_unzigzag64_roundtrip;

    let u = zigzag64(n);
    let enc = varint_seq(u);
    let s = enc + rest;
    assert(s.subrange(0, varint_len(u) as int) =~= enc);
    lemma_varint_dec_generic(s, 0, 10, 0, 1, u);
    assert((0 as int) + (u as int) * (1 as int) == u as int) by (nonlinear_arith);
    lemma_varint_minimal(u);
}

} // verus!

verus! {

/// The ten scalar schema kinds: everything but unions, containers,
/// records and references.
pub open spec fn scalar_schema(s: SchemaM) -> bool {
    s is Null || s is Boolean || s is Int || s is Long || s is Float || s is Double || s is Bytes
        || s is String || s is Fixed || s is Enum
}

/// A value pairs with a scalar schema so that its encoding decodes back
/// to it: the kinds agree (text carried as text, an enum carried as an
/// enum value with its index and symbol agreeing with the schema), a
/// fixed value carries as many bytes as it declares, and every length
/// fits the signed 64-bit length field. No part of this reads a context:
/// scalar validation never resolves a name.
pub open spec fn scalar_conforms(v: ValueM, s: SchemaM) -> bool {
    crate::encode::sizes_ok(v) && match (v, s) {
        (ValueM::Null, SchemaM::Null) => true,
        (ValueM::Boolean(_), SchemaM::Boolean) => true,
        (ValueM::Int(_), SchemaM::Int) => true,
        (ValueM::Long(_), SchemaM::Long) => true,
        (ValueM::Float(_), SchemaM::Float) => true,
        (ValueM::Double(_), SchemaM::Double) => true,
        (ValueM::Bytes(_), SchemaM::Bytes) => true,
        (ValueM::String(_), SchemaM::String) => true,
        (ValueM::Fixed(n, b), SchemaM::Fixed { size, .. }) => n == size && b.len() == n,
        (ValueM::Enum(i, t), SchemaM::Enum { symbols, .. }) => 0 <= i && (i as int) < symbols.len()
            && symbols[i as int] == t,
        _ => false,
    }
}

/// A validated scalar pairing conforms: scalar validation reads neither
/// the context nor the budget.
proof fn lemma_scalar_validate_conforms(v: ValueM, s: SchemaM, ctx: CtxM, budget: nat)
    requires
        scalar_schema(s),
        crate::validate::validate_m(v, s, ctx, budget).0,
        crate::encode::sizes_ok(v),
        s is Enum ==> v is Enum,
        v matches ValueM::Fixed(n, b) ==> b.len() == n,
    ensures
        scalar_conforms(v, s),
{
}

/// A conforming scalar validates, under any context and budget.
proof fn lemma_scalar_conforms_validate(v: ValueM, s: SchemaM, ctx: CtxM, budget: nat)
    requires
        scalar_schema(s),
        scalar_conforms(v, s),
    ensures
        crate::validate::validate_m(v, s, ctx, budget).0,
{
}

/// Encoding a conforming scalar leaves the context alone: no scalar arm
/// runs a branch search.
proof fn lemma_scalar_encode_ctx(v: ValueM, s: SchemaM, ctx: CtxM)
    requires
        scalar_schema(s),
        scalar_conforms(v, s),
    ensures
        encode_m(v, s, ctx).1 == ctx,
{
}

/// Four little-endian bytes at `p` read back the pattern they encode.
proof fn lemma_le32_at(s: Seq<u8>, p: int, bits: u32)
    requires
        0 <= p,
        p + 4 <= s.len(),
        s.subrange(p, p + 4) == crate::encode::le_bytes32(bits),
    ensures
        crate::decode::le32_at(s, p) == bits,
{
    let enc = crate::encode::le_bytes32(bits);
    assert(s[p] == enc[0] && s[p + 1] == enc[1] && s[p + 2] == enc[2] && s[p + 3] == enc[3]) by {
        assert(forall|k: int| 0 <= k < 4 ==> s[p + k] == #[trigger] s.subrange(p, p + 4)[k]);
    }
    assert((bits % 256) + ((bits / 256) % 256) * 0x100 + ((bits / 0x10000) % 256) * 0x10000 + ((
    bits / 0x1000000) % 256) * 0x1000000 == bits) by (bit_vector);
}

/// Eight little-endian bytes at `p` read back the pattern they encode.
proof fn lemma_le64_at(s: Seq<u8>, p: int, bits: u64)
    requires
        0 <= p,
        p + 8 <= s.len(),
        s.subrange(p, p + 8) == crate::encode::le_bytes64(bits),
    ensures
        crate::decode::le64_at(s, p) == bits,
{
    let enc = crate::encode::le_bytes64(bits);
    assert(s[p] == enc[0] && s[p + 1] == enc[1] && s[p + 2] == enc[2] && s[p + 3] == enc[3] && s[p
        + 4] == enc[4] && s[p + 5] == enc[5] && s[p + 6] == enc[6] && s[p + 7] == enc[7]) by {
        assert(forall|k: int| 0 <= k < 8 ==> s[p + k] == #[trigger] s.subrange(p, p + 8)[k]);
    }
    assert((bits % 256) + ((bits / 256) % 256) * 0x100 + ((bits / 0x10000) % 256) * 0x10000 + ((
    bits / 0x1000000) % 256) * 0x1000000 + ((bits / 0x100000000) % 256) * 0x100000000 + ((bits
        / 0x10000000000) % 256) * 0x10000000000 + ((bits / 0x1000000000000) % 256)
        * 0x1000000000000 + ((bits / 0x100000000000000) % 256) * 0x100000000000000 == bits)
        by (bit_vector);
}

/// The zig-zag varint encoding of `n`, laid at `p`, reads back as `n`.
proof fn lemma_long_at(s: Seq<u8>, p: int, n: i64)
    requires
        0 <= p,
        p + varint_seq(zigzag64(n)).len() <= s.len(),
        s.subrange(p, p + varint_seq(zigzag64(n)).len() as int) == varint_seq(zigzag64(n)),
    ensures
        read_long_m(s, p) == Ok::<(i64, int), DecodeError>(
            (n, p + varint_seq(zigzag64(n)).len()),
        ),
{
    broadcast use lemma_varint_seq_len, lemma_unzigzag64_roundtrip;

    let u = zigzag64(n);
    lemma_varint_dec_generic(s, p, 10, 0, 1, u);
    assert((0 as int) + (u as int) * (1 as int) == u as int) by (nonlinear_arith);
}

/// Round trip for a scalar laid at position `p` of a larger input.
#[verifier::rlimit(100)]
proof fn lemma_scalar_round_trip_at(s: Seq<u8>, p: int, v: ValueM, sch: SchemaM, ctx: CtxM, fuel: nat)
    requires
        fuel >= 1,
        scalar_schema(sch),
        scalar_conforms(v, sch),
        0 <= p,
        p + encode_m(v, sch, ctx).0.len() <= s.len(),
        s.subrange(p, p + encode_m(v, sch, ctx).0.len() as int) == encode_m(v, sch, ctx).0,
    ensures
        crate::decode::decode_m(s, p, sch, ctx, fuel) == Ok::<(ValueM, int), DecodeError>(
            (v, p + encode_m(v, sch, ctx).0.len()),
        ),
{
    broadcast use lemma_varint_seq_len;

    let enc = encode_m(v, sch, ctx).0;
    match sch {
        SchemaM::Null => {
            assert(v is Null);
            assert(enc =~= Seq::<u8>::empty());
        },
        SchemaM::Boolean => {
            let b = v->Boolean_0;
            assert(s[p] == enc[0]) by {
                assert(s.subrange(p, p + 1)[0] == s[p]);
            }
        },
        SchemaM::Int => {
            let n = v->Int_0;
            lemma_long_at(s, p, n as i64);
        },
        SchemaM::Long => {
            let n = v->Long_0;
            lemma_long_at(s, p, n);
        },
        SchemaM::Float => {
            let bits = v->Float_0;
            lemma_le32_at(s, p, bits);
        },
        SchemaM::Double => {
            let bits = v->Double_0;
            lemma_le64_at(s, p, bits);
        },
        SchemaM::Bytes => {
            let b = v->Bytes_0;
            let lenc = varint_seq(zigzag64(b.len() as i64));
            let ll = lenc.len() as int;
            assert(enc =~= lenc + b);
            assert(s.subrange(p, p + ll) =~= lenc) by {
                assert(forall|k: int|
                    0 <= k < ll ==> #[trigger] s.subrange(p, p + ll)[k] == s.subrange(
                        p,
                        p + enc.len() as int,
                    )[k]);
            }
            lemma_long_at(s, p, b.len() as i64);
            assert(s.subrange(p + ll, p + ll + b.len() as int) =~= b) by {
                assert(forall|k: int|
                    0 <= k < b.len() ==> #[trigger] s.subrange(p + ll, p + ll + b.len() as int)[k]
                        == s.subrange(p, p + enc.len() as int)[ll + k]);
            }
            assert(crate::decode::read_section_m(s, p) == Ok::<(Seq<u8>, int), DecodeError>(
                (b, p + ll + b.len() as int),
            ));
        },
        SchemaM::String => {
            let t = v->String_0;
            let ub = vstd::utf8::encode_utf8(t);
            broadcast use
                vstd::utf8::encode_utf8_valid_utf8,
                vstd::utf8::encode_utf8_decode_utf8,
            ;

            let lenc = varint_seq(zigzag64(ub.len() as i64));
            let ll = lenc.len() as int;
            assert(enc =~= lenc + ub);
            assert(s.subrange(p, p + ll) =~= lenc) by {
                assert(forall|k: int|
                    0 <= k < ll ==> #[trigger] s.subrange(p, p + ll)[k] == s.subrange(
                        p,
                        p + enc.len() as int,
                    )[k]);
            }
            lemma_long_at(s, p, ub.len() as i64);
            assert(s.subrange(p + ll, p + ll + ub.len() as int) =~= ub) by {
                assert(forall|k: int|
                    0 <= k < ub.len() ==> #[trigger] s.subrange(p + ll, p + ll + ub.len() as int)[k]
                        == s.subrange(p, p + enc.len() as int)[ll + k]);
            }
            assert(crate::decode::read_section_m(s, p) == Ok::<(Seq<u8>, int), DecodeError>(
                (ub, p + ll + ub.len() as int),
            ));
            assert(vstd::utf8::decode_utf8(ub) == t);
        },
        SchemaM::Fixed { size, .. } => {
            let b = v->Fixed_1;
            assert(v->Fixed_0 == size);
            assert(enc =~= b);
        },
        SchemaM::Enum { symbols, .. } => {
            let i = v->Enum_0;
            let t = v->Enum_1;
            lemma_long_at(s, p, i as i64);
        },
        _ => {},
    }
}

/// Round trip for the scalar kinds: a value that validates against a
/// null, boolean, int, long, float, double, bytes, string, fixed or enum
/// schema — a fixed value carrying as many bytes as it declares, and an
/// enum carried as an enum value, not as a bare symbol — decodes from its
/// own encoding, with anything after it, to exactly itself, consuming
/// exactly the encoding.
pub proof fn lemma_scalar_round_trip(v: ValueM, s: SchemaM, ctx: CtxM, fuel: nat, rest: Seq<u8>)
    requires
        fuel >= 1,
        crate::validate::validate_m(v, s, ctx, crate::validate::default_budget(ctx)).0,
        crate::encode::sizes_ok(v),
        scalar_schema(s),
        s is Enum ==> v is Enum,
        v matches ValueM::Fixed(n, b) ==> b.len() == n,
    ensures
        ({
            let enc = encode_m(v, s, ctx).0;
            crate::decode::decode_m(enc + rest, 0, s, ctx, fuel) == Ok::<
                (ValueM, int),
                DecodeError,
            >((v, enc.len() as int))
        }),
{
    lemma_scalar_validate_conforms(v, s, ctx, crate::validate::default_budget(ctx));
    let enc = encode_m(v, s, ctx).0;
    let input = enc + rest;
    assert(input.subrange(0, enc.len() as int) =~= enc);
    lemma_scalar_round_trip_at(input, 0, v, s, ctx, fuel);
}

} // verus!

verus! {

/// A found branch index lies within the union.
proof fn lemma_find_branch_some_range(v: ValueM, bs: Seq<SchemaM>, ctx: CtxM, budget: nat)
    ensures
        ({
            let (r, c) = crate::validate::find_branch_m(v, bs, ctx, budget);
            r matches Some(i) ==> 0 <= i < bs.len()
        }),
    decreases bs.len(),
{
    if bs.len() > 0 {
        let (r0, c0) = crate::validate::validate_m(v, bs[0], ctx, budget);
        if !r0 {
            lemma_find_branch_some_range(v, bs.drop_first(), c0, budget);
        }
    }
}

/// The bytes of a conforming scalar do not depend on the context.
proof fn lemma_scalar_encode_bytes(v: ValueM, s: SchemaM, c1: CtxM, c2: CtxM)
    requires
        scalar_schema(s),
        scalar_conforms(v, s),
    ensures
        encode_m(v, s, c1).0 == encode_m(v, s, c2).0,
{
}

/// Round trip for a union over a scalar branch: the index of the first
/// accepting branch and the inner value's bytes decode back to exactly
/// the union value.
pub proof fn lemma_scalar_union_round_trip(
    inner: ValueM,
    bs: Seq<SchemaM>,
    ctx: CtxM,
    fuel: nat,
    rest: Seq<u8>,
)
    requires
        fuel >= 2,
        bs.len() <= i64::MAX,
        ({
            let (r, c) = crate::validate::find_branch_m(
                inner,
                bs,
                ctx,
                crate::validate::default_budget(ctx),
            );
            r matches Some(idx) && scalar_schema(bs[idx]) && scalar_conforms(inner, bs[idx])
        }),
    ensures
        ({
            let sch = SchemaM::Union(bs);
            let enc = encode_m(ValueM::Union(Box::new(inner)), sch, ctx).0;
            crate::decode::decode_m(enc + rest, 0, sch, ctx, fuel) == Ok::<
                (ValueM, int),
                DecodeError,
            >((ValueM::Union(Box::new(inner)), enc.len() as int))
        }),
{
    broadcast use lemma_varint_seq_len;

    let (r, c) = crate::validate::find_branch_m(
        inner,
        bs,
        ctx,
        crate::validate::default_budget(ctx),
    );
    lemma_find_branch_some_range(inner, bs, ctx, crate::validate::default_budget(ctx));
    let idx = r->Some_0;
    let ib = Box::new(inner);
    assert(*ib == inner);
    let sch = SchemaM::Union(bs);
    let enc = encode_m(ValueM::Union(ib), sch, ctx).0;
    let body = encode_m(inner, bs[idx], c).0;
    lemma_scalar_encode_bytes(inner, bs[idx], c, ctx);
    let e = encode_m(inner, bs[idx], ctx).0;
    let lenc = varint_seq(zigzag64(idx as i64));
    let ll = lenc.len() as int;
    assert(enc == crate::encode::long_bytes(idx as i64) + body);
    let input = enc + rest;
    assert(input.subrange(0, ll) =~= lenc) by {
        assert(forall|k: int|
            0 <= k < ll ==> #[trigger] input.subrange(0, ll)[k] == input.subrange(
                0,
                enc.len() as int,
            )[k]);
        assert(input.subrange(0, enc.len() as int) =~= enc);
    }
    lemma_long_at(input, 0, idx as i64);
    assert(input.subrange(ll, ll + e.len() as int) =~= e) by {
        assert(forall|k: int|
            0 <= k < e.len() ==> #[trigger] input.subrange(ll, ll + e.len() as int)[k]
                == input.subrange(0, enc.len() as int)[ll + k]);
        assert(input.subrange(0, enc.len() as int) =~= enc);
    }
    lemma_scalar_round_trip_at(input, ll, inner, bs[idx], ctx, (fuel - 1) as nat);
    assert(crate::decode::decode_m(input, 0, sch, ctx, fuel) == Ok::<(ValueM, int), DecodeError>(
        (ValueM::Union(Box::new(inner)), enc.len() as int),
    ));
}

} // verus!

verus! {

/// A value pairs with a union-free, reference-free schema so that its
/// encoding decodes back to it: scalars as in [`scalar_conforms`], and
/// containers and records elementwise, every count fitting the signed
/// 64-bit length field.
pub open spec fn tree_conforms(v: ValueM, s: SchemaM) -> bool
    decreases v, 0nat, s,
{
    if scalar_schema(s) {
        scalar_conforms(v, s)
    } else {
        match (v, s) {
            (ValueM::Array(items), SchemaM::Array(elem)) => items.len() <= i64::MAX
                && tree_conforms_seq(items, *elem),
            (ValueM::Mapping(entries), SchemaM::Mapping(val)) => entries.len() <= i64::MAX
                && tree_conforms_entries(entries, *val),
            (ValueM::Record(rf), SchemaM::Record { fields, .. }) => rf.len() == fields.len()
                && tree_conforms_fields(rf, fields),
            _ => false,
        }
    }
}

/// Every element conforms to the element schema.
pub open spec fn tree_conforms_seq(items: Seq<ValueM>, elem: SchemaM) -> bool
    decreases items, 1nat, elem,
{
    items.len() == 0 || (tree_conforms(items[0], elem) && tree_conforms_seq(
        items.drop_first(),
        elem,
    ))
}

/// Every entry's key fits the length field and its value conforms.
pub open spec fn tree_conforms_entries(entries: Seq<(Seq<char>, ValueM)>, val: SchemaM) -> bool
    decreases entries, 1nat, val,
{
    entries.len() == 0 || (vstd::utf8::encode_utf8(entries[0].0).len() <= i64::MAX
        && tree_conforms(entries[0].1, val) && tree_conforms_entries(entries.drop_first(), val))
}

/// Position by position, the written name equals the schema's and the
/// written value conforms to the field's schema.
pub open spec fn tree_conforms_fields(
    rf: Seq<(Seq<char>, ValueM)>,
    fs: Seq<crate::schema::FieldM>,
) -> bool
    recommends
        rf.len() == fs.len(),
    decreases rf, 1nat, fs,
{
    rf.len() == 0 || (rf[0].0 == fs[0].name && tree_conforms(rf[0].1, fs[0].schema)
        && tree_conforms_fields(rf.drop_first(), fs.drop_first()))
}

/// How deeply schema nodes nest: what the decoder's fuel must cover.
pub open spec fn schema_depth(s: SchemaM) -> nat
    decreases s, 0nat,
{
    match s {
        SchemaM::Array(elem) => 1 + schema_depth(*elem),
        SchemaM::Mapping(val) => 1 + schema_depth(*val),
        SchemaM::Record { fields, .. } => 1 + fields_depth(fields),
        _ => 1,
    }
}

/// The deepest field schema.
pub open spec fn fields_depth(fs: Seq<crate::schema::FieldM>) -> nat
    decreases fs, 1nat,
{
    if fs.len() == 0 {
        0
    } else if schema_depth(fs[0].schema) >= fields_depth(fs.drop_first()) {
        schema_depth(fs[0].schema)
    } else {
        fields_depth(fs.drop_first())
    }
}

} // verus!

verus! {

/// Encoding a conforming union-free value leaves the context alone: no
/// arm of its encoding runs a branch search.
proof fn lemma_tree_encode_ctx(v: ValueM, s: SchemaM, ctx: CtxM)
    requires
        tree_conforms(v, s),
    ensures
        encode_m(v, s, ctx).1 == ctx,
    decreases v, 0nat, s,
{
    if scalar_schema(s) {
        lemma_scalar_encode_ctx(v, s, ctx);
    } else {
        match (v, s) {
            (ValueM::Array(items), SchemaM::Array(elem)) => {
                assert(decreases_to!(v => items));
                lemma_tree_encode_ctx_seq(items, *elem, ctx);
            },
            (ValueM::Mapping(entries), SchemaM::Mapping(val)) => {
                assert(decreases_to!(v => entries));
                lemma_tree_encode_ctx_entries(entries, *val, ctx);
            },
            (ValueM::Record(rf), SchemaM::Record { fields, .. }) => {
                assert(decreases_to!(v => rf));
                lemma_tree_encode_ctx_fields(rf, fields, ctx);
            },
            _ => {},
        }
    }
}

/// Encoding conforming elements leaves the context alone.
proof fn lemma_tree_encode_ctx_seq(items: Seq<ValueM>, elem: SchemaM, ctx: CtxM)
    requires
        tree_conforms_seq(items, elem),
    ensures
        crate::encode::encode_seq_m(items, elem, ctx).1 == ctx,
    decreases items, 1nat, elem,
{
    if items.len() > 0 {
        lemma_tree_encode_ctx(items[0], elem, ctx);
        lemma_tree_encode_ctx_seq(items.drop_first(), elem, ctx);
    }
}

/// Encoding conforming map entries leaves the context alone.
proof fn lemma_tree_encode_ctx_entries(entries: Seq<(Seq<char>, ValueM)>, val: SchemaM, ctx: CtxM)
    requires
        tree_conforms_entries(entries, val),
    ensures
        crate::encode::encode_entries_m(entries, val, ctx).1 == ctx,
    decreases entries, 1nat, val,
{
    if entries.len() > 0 {
        lemma_tree_encode_ctx(entries[0].1, val, ctx);
        lemma_tree_encode_ctx_entries(entries.drop_first(), val, ctx);
    }
}

/// Encoding conforming field values leaves the context alone.
proof fn lemma_tree_encode_ctx_fields(
    rf: Seq<(Seq<char>, ValueM)>,
    fields: Seq<crate::schema::FieldM>,
    ctx: CtxM,
)
    requires
        rf.len() == fields.len(),
        tree_conforms_fields(rf, fields),
    ensures
        crate::encode::encode_fields_m(rf, fields, ctx).1 == ctx,
    decreases rf, 1nat, fields,
{
    if rf.len() > 0 {
        lemma_tree_encode_ctx(rf[0].1, fields[0].schema, ctx);
        lemma_tree_encode_ctx_fields(rf.drop_first(), fields.drop_first(), ctx);
    }
}

/// Round trip for a union-free, reference-free value laid at position
/// `p` of a larger input: its encoding decodes back to exactly itself,
/// and encoding threads the context through unchanged.
#[verifier::rlimit(100)]
proof fn lemma_tree_round_trip_at(
    sin: Seq<u8>,
    p: int,
    v: ValueM,
    sch: SchemaM,
    ctx: CtxM,
    fuel: nat,
)
    requires
        tree_conforms(v, sch),
        fuel >= schema_depth(sch) + 1,
        0 <= p,
        p + encode_m(v, sch, ctx).0.len() <= sin.len(),
        sin.subrange(p, p + encode_m(v, sch, ctx).0.len() as int) == encode_m(v, sch, ctx).0,
    ensures
        encode_m(v, sch, ctx).1 == ctx,
        crate::decode::decode_m(sin, p, sch, ctx, fuel) == Ok::<(ValueM, int), DecodeError>(
            (v, p + encode_m(v, sch, ctx).0.len()),
        ),
    decreases v, 0nat, sch,
{
    broadcast use lemma_varint_seq_len;

    lemma_tree_encode_ctx(v, sch, ctx);
    let enc = encode_m(v, sch, ctx).0;
    if scalar_schema(sch) {
        lemma_scalar_round_trip_at(sin, p, v, sch, ctx, fuel);
    } else {
        match (v, sch) {
            (ValueM::Array(items), SchemaM::Array(elem)) => {
                let body = crate::encode::encode_seq_m(items, *elem, ctx).0;
                if items.len() == 0 {
                    assert(enc =~= seq![0u8]);
                    assert(sin.subrange(p, p + 1) =~= varint_seq(zigzag64(0))) by {
                        assert(varint_seq(zigzag64(0)) =~= seq![0u8]);
                    }
                    lemma_long_at(sin, p, 0);
                    assert(crate::decode::decode_blocks_m(sin, p, *elem, ctx, fuel) == Ok::<
                        (Seq<ValueM>, int),
                        DecodeError,
                    >((Seq::empty(), p + 1)));
                    assert(Seq::<ValueM>::empty() =~= items);
                } else {
                    let n = items.len() as i64;
                    let lenc = varint_seq(zigzag64(n));
                    let ll = lenc.len() as int;
                    assert(enc =~= lenc + body + seq![0u8]);
                    assert(sin.subrange(p, p + ll) =~= lenc) by {
                        assert(forall|k: int|
                            0 <= k < ll ==> #[trigger] sin.subrange(p, p + ll)[k] == sin.subrange(
                                p,
                                p + enc.len() as int,
                            )[k]);
                    }
                    lemma_long_at(sin, p, n);
                    assert(sin.subrange(p + ll, p + ll + body.len() + 1) =~= body + seq![0u8]) by {
                        assert(forall|k: int|
                            0 <= k < body.len() + 1 ==> #[trigger] sin.subrange(
                                p + ll,
                                p + ll + body.len() + 1,
                            )[k] == sin.subrange(p, p + enc.len() as int)[ll + k]);
                    }
                    assert(decreases_to!(v => items));
                    lemma_tree_run_at(sin, p + ll, items, *elem, ctx, fuel);
                }
            },
            (ValueM::Mapping(entries), SchemaM::Mapping(val)) => {
                let body = crate::encode::encode_entries_m(entries, *val, ctx).0;
                if entries.len() == 0 {
                    assert(enc =~= seq![0u8]);
                    assert(sin.subrange(p, p + 1) =~= varint_seq(zigzag64(0))) by {
                        assert(varint_seq(zigzag64(0)) =~= seq![0u8]);
                    }
                    lemma_long_at(sin, p, 0);
                    assert(crate::decode::decode_map_blocks_m(sin, p, *val, ctx, fuel) == Ok::<
                        (Seq<(Seq<char>, ValueM)>, int),
                        DecodeError,
                    >((Seq::empty(), p + 1)));
                    assert(Seq::<(Seq<char>, ValueM)>::empty() =~= entries);
                } else {
                    let n = entries.len() as i64;
                    let lenc = varint_seq(zigzag64(n));
                    let ll = lenc.len() as int;
                    assert(enc =~= lenc + body + seq![0u8]);
                    assert(sin.subrange(p, p + ll) =~= lenc) by {
                        assert(forall|k: int|
                            0 <= k < ll ==> #[trigger] sin.subrange(p, p + ll)[k] == sin.subrange(
                                p,
                                p + enc.len() as int,
                            )[k]);
                    }
                    lemma_long_at(sin, p, n);
                    assert(sin.subrange(p + ll, p + ll + body.len() + 1) =~= body + seq![0u8]) by {
                        assert(forall|k: int|
                            0 <= k < body.len() + 1 ==> #[trigger] sin.subrange(
                                p + ll,
                                p + ll + body.len() + 1,
                            )[k] == sin.subrange(p, p + enc.len() as int)[ll + k]);
                    }
                    assert(decreases_to!(v => entries));
                    lemma_tree_map_run_at(sin, p + ll, entries, *val, ctx, fuel);
                }
            },
            (ValueM::Record(rf), SchemaM::Record { fields, .. }) => {
                assert(decreases_to!(v => rf));
                lemma_tree_fields_at(sin, p, rf, fields, ctx, fuel);
            },
            _ => {},
        }
    }
}

/// A counted run of conforming elements, then the zero terminator,
/// parses back to exactly those elements.
#[verifier::rlimit(100)]
proof fn lemma_tree_run_at(
    sin: Seq<u8>,
    p: int,
    items: Seq<ValueM>,
    elem: SchemaM,
    ctx: CtxM,
    fuel: nat,
)
    requires
        tree_conforms_seq(items, elem),
        fuel >= schema_depth(elem) + 2,
        0 <= p,
        p + crate::encode::encode_seq_m(items, elem, ctx).0.len() + 1 <= sin.len(),
        sin.subrange(p, p + crate::encode::encode_seq_m(items, elem, ctx).0.len() + 1)
            == crate::encode::encode_seq_m(items, elem, ctx).0 + seq![0u8],
    ensures
        crate::encode::encode_seq_m(items, elem, ctx).1 == ctx,
        crate::decode::decode_run_m(sin, p, items.len(), elem, ctx, fuel) == Ok::<
            (Seq<ValueM>, int),
            DecodeError,
        >((items, p + crate::encode::encode_seq_m(items, elem, ctx).0.len() + 1)),
    decreases items, 1nat, elem,
{
    broadcast use lemma_varint_seq_len;

    let body = crate::encode::encode_seq_m(items, elem, ctx).0;
    if items.len() == 0 {
        assert(body =~= Seq::<u8>::empty());
        assert(sin.subrange(p, p + 1) =~= varint_seq(zigzag64(0))) by {
            assert(varint_seq(zigzag64(0)) =~= seq![0u8]);
            assert((body + seq![0u8])[0] == 0u8);
        }
        lemma_long_at(sin, p, 0);
        assert(crate::decode::decode_blocks_m(sin, p, elem, ctx, (fuel - 1) as nat) == Ok::<
            (Seq<ValueM>, int),
            DecodeError,
        >((Seq::empty(), p + 1)));
        assert(Seq::<ValueM>::empty() =~= items);
    } else {
        let e0 = encode_m(items[0], elem, ctx);
        lemma_tree_encode_ctx(items[0], elem, ctx);
        let bodyrest = crate::encode::encode_seq_m(items.drop_first(), elem, ctx).0;
        assert(body == e0.0 + bodyrest);
        assert(sin.subrange(p, p + e0.0.len() as int) =~= e0.0) by {
            assert(forall|k: int|
                0 <= k < e0.0.len() ==> #[trigger] sin.subrange(p, p + e0.0.len() as int)[k]
                    == sin.subrange(p, p + body.len() + 1)[k]);
        }
        lemma_tree_round_trip_at(sin, p, items[0], elem, ctx, (fuel - 1) as nat);
        assert(body == e0.0 + bodyrest);
        let q = p + e0.0.len() as int;
        assert(sin.subrange(q, q + bodyrest.len() + 1) =~= bodyrest + seq![0u8]) by {
            assert(forall|k: int|
                0 <= k < bodyrest.len() + 1 ==> #[trigger] sin.subrange(
                    q,
                    q + bodyrest.len() + 1,
                )[k] == sin.subrange(p, p + body.len() + 1)[e0.0.len() + k]);
        }
        lemma_tree_run_at(sin, q, items.drop_first(), elem, ctx, fuel);
        assert(seq![items[0]] + items.drop_first() =~= items);
    }
}

/// A counted run of conforming map entries, then the zero terminator,
/// parses back to exactly those entries.
#[verifier::rlimit(100)]
proof fn lemma_tree_map_run_at(
    sin: Seq<u8>,
    p: int,
    entries: Seq<(Seq<char>, ValueM)>,
    val: SchemaM,
    ctx: CtxM,
    fuel: nat,
)
    requires
        tree_conforms_entries(entries, val),
        fuel >= schema_depth(val) + 2,
        0 <= p,
        p + crate::encode::encode_entries_m(entries, val, ctx).0.len() + 1 <= sin.len(),
        sin.subrange(p, p + crate::encode::encode_entries_m(entries, val, ctx).0.len() + 1)
            == crate::encode::encode_entries_m(entries, val, ctx).0 + seq![0u8],
    ensures
        crate::encode::encode_entries_m(entries, val, ctx).1 == ctx,
        crate::decode::decode_map_run_m(sin, p, entries.len(), val, ctx, fuel) == Ok::<
            (Seq<(Seq<char>, ValueM)>, int),
            DecodeError,
        >((entries, p + crate::encode::encode_entries_m(entries, val, ctx).0.len() + 1)),
    decreases entries, 1nat, val,
{
    broadcast use lemma_varint_seq_len;

    let body = crate::encode::encode_entries_m(entries, val, ctx).0;
    if entries.len() == 0 {
        assert(body =~= Seq::<u8>::empty());
        assert(sin.subrange(p, p + 1) =~= varint_seq(zigzag64(0))) by {
            assert(varint_seq(zigzag64(0)) =~= seq![0u8]);
            assert((body + seq![0u8])[0] == 0u8);
        }
        lemma_long_at(sin, p, 0);
        assert(crate::decode::decode_map_blocks_m(sin, p, val, ctx, (fuel - 1) as nat) == Ok::<
            (Seq<(Seq<char>, ValueM)>, int),
            DecodeError,
        >((Seq::empty(), p + 1)));
        assert(Seq::<(Seq<char>, ValueM)>::empty() =~= entries);
    } else {
        broadcast use
            vstd::utf8::encode_utf8_valid_utf8,
            vstd::utf8::encode_utf8_decode_utf8,
        ;

        let kb = vstd::utf8::encode_utf8(entries[0].0);
        let kenc = varint_seq(zigzag64(kb.len() as i64));
        let kl = kenc.len() as int;
        let e0 = encode_m(entries[0].1, val, ctx);
        lemma_tree_encode_ctx(entries[0].1, val, ctx);
        let bodyrest = crate::encode::encode_entries_m(entries.drop_first(), val, ctx).0;
        assert(body == crate::encode::long_bytes(kb.len() as i64) + kb + e0.0 + bodyrest);
        assert(sin.subrange(p, p + kl) =~= kenc) by {
            assert(forall|k: int|
                0 <= k < kl ==> #[trigger] sin.subrange(p, p + kl)[k] == sin.subrange(
                    p,
                    p + body.len() + 1,
                )[k]);
        }
        lemma_long_at(sin, p, kb.len() as i64);
        assert(sin.subrange(p + kl, p + kl + kb.len() as int) =~= kb) by {
            assert(forall|k: int|
                0 <= k < kb.len() ==> #[trigger] sin.subrange(p + kl, p + kl + kb.len() as int)[k]
                    == sin.subrange(p, p + body.len() + 1)[kl + k]);
        }
        assert(crate::decode::read_section_m(sin, p) == Ok::<(Seq<u8>, int), DecodeError>(
            (kb, p + kl + kb.len() as int),
        ));
        assert(vstd::utf8::decode_utf8(kb) == entries[0].0);
        let q = p + kl + kb.len() as int;
        assert(sin.subrange(q, q + e0.0.len() as int) =~= e0.0) by {
            assert(forall|k: int|
                0 <= k < e0.0.len() ==> #[trigger] sin.subrange(q, q + e0.0.len() as int)[k]
                    == sin.subrange(p, p + body.len() + 1)[kl + kb.len() + k]);
        }
        lemma_tree_round_trip_at(sin, q, entries[0].1, val, ctx, (fuel - 1) as nat);
        let q2 = q + e0.0.len() as int;
        assert(sin.subrange(q2, q2 + bodyrest.len() + 1) =~= bodyrest + seq![0u8]) by {
            assert(forall|k: int|
                0 <= k < bodyrest.len() + 1 ==> #[trigger] sin.subrange(
                    q2,
                    q2 + bodyrest.len() + 1,
                )[k] == sin.subrange(p, p + body.len() + 1)[kl + kb.len() + e0.0.len() + k]);
        }
        lemma_tree_map_run_at(sin, q2, entries.drop_first(), val, ctx, fuel);
        assert((entries[0].0, entries[0].1) == entries[0]);
        assert(seq![entries[0]] + entries.drop_first() =~= entries);
    }
}

/// Conforming record field values laid one after another in schema
/// order parse back to exactly the written fields.
#[verifier::rlimit(100)]
proof fn lemma_tree_fields_at(
    sin: Seq<u8>,
    p: int,
    rf: Seq<(Seq<char>, ValueM)>,
    fields: Seq<crate::schema::FieldM>,
    ctx: CtxM,
    fuel: nat,
)
    requires
        rf.len() == fields.len(),
        tree_conforms_fields(rf, fields),
        fuel >= fields_depth(fields) + 2,
        0 <= p,
        p + crate::encode::encode_fields_m(rf, fields, ctx).0.len() <= sin.len(),
        sin.subrange(p, p + crate::encode::encode_fields_m(rf, fields, ctx).0.len())
            == crate::encode::encode_fields_m(rf, fields, ctx).0,
    ensures
        crate::encode::encode_fields_m(rf, fields, ctx).1 == ctx,
        crate::decode::decode_fields_m(sin, p, fields, ctx, fuel) == Ok::<
            (Seq<(Seq<char>, ValueM)>, int),
            DecodeError,
        >((rf, p + crate::encode::encode_fields_m(rf, fields, ctx).0.len())),
    decreases rf, 1nat, fields,
{
    let body = crate::encode::encode_fields_m(rf, fields, ctx).0;
    if rf.len() == 0 {
        assert(body =~= Seq::<u8>::empty());
        assert(Seq::<(Seq<char>, ValueM)>::empty() =~= rf);
    } else {
        let e0 = encode_m(rf[0].1, fields[0].schema, ctx);
        lemma_tree_encode_ctx(rf[0].1, fields[0].schema, ctx);
        let bodyrest = crate::encode::encode_fields_m(
            rf.drop_first(),
            fields.drop_first(),
            ctx,
        ).0;
        assert(body == e0.0 + bodyrest);
        assert(sin.subrange(p, p + e0.0.len() as int) =~= e0.0) by {
            assert(forall|k: int|
                0 <= k < e0.0.len() ==> #[trigger] sin.subrange(p, p + e0.0.len() as int)[k]
                    == sin.subrange(p, p + body.len() as int)[k]);
        }
        assert(fields_depth(fields) >= schema_depth(fields[0].schema));
        lemma_tree_round_trip_at(sin, p, rf[0].1, fields[0].schema, ctx, (fuel - 1) as nat);
        assert(body == e0.0 + bodyrest);
        let q = p + e0.0.len() as int;
        assert(sin.subrange(q, q + bodyrest.len() as int) =~= bodyrest) by {
            assert(forall|k: int|
                0 <= k < bodyrest.len() ==> #[trigger] sin.subrange(q, q + bodyrest.len() as int)[k]
                    == sin.subrange(p, p + body.len() as int)[e0.0.len() + k]);
        }
        assert(fields_depth(fields) >= fields_depth(fields.drop_first()));
        lemma_tree_fields_at(sin, q, rf.drop_first(), fields.drop_first(), ctx, fuel);
        assert((fields[0].name, rf[0].1) == rf[0]);
        assert(seq![rf[0]] + rf.drop_first() =~= rf);
    }
}

/// Round trip for every union-free, reference-free value: a value
/// conforming to a schema of scalars, arrays, maps and records
/// validates against it, and decodes from its own encoding, with
/// anything after it, to exactly itself, consuming exactly the
/// encoding, for any fuel covering the schema's nesting depth.
pub proof fn lemma_tree_round_trip(v: ValueM, sch: SchemaM, ctx: CtxM, fuel: nat, rest: Seq<u8>)
    requires
        tree_conforms(v, sch),
        fuel >= schema_depth(sch) + 1,
    ensures
        crate::validate::validate_m(v, sch, ctx, crate::validate::default_budget(ctx)).0,
        ({
            let enc = encode_m(v, sch, ctx).0;
            crate::decode::decode_m(enc + rest, 0, sch, ctx, fuel) == Ok::<
                (ValueM, int),
                DecodeError,
            >((v, enc.len() as int))
        }),
{
    lemma_tree_validates(v, sch, ctx, crate::validate::default_budget(ctx));
    let enc = encode_m(v, sch, ctx).0;
    let input = enc + rest;
    assert(input.subrange(0, enc.len() as int) =~= enc);
    lemma_tree_round_trip_at(input, 0, v, sch, ctx, fuel);
}

} // verus!

verus! {

/// A conforming union-free value validates, under any context and
/// budget: its validation resolves no name and searches no union.
proof fn lemma_tree_validates(v: ValueM, s: SchemaM, ctx: CtxM, budget: nat)
    requires
        tree_conforms(v, s),
    ensures
        crate::validate::validate_m(v, s, ctx, budget).0,
    decreases v, 0nat, s,
{
    if scalar_schema(s) {
        lemma_scalar_conforms_validate(v, s, ctx, budget);
    } else {
        match (v, s) {
            (ValueM::Array(items), SchemaM::Array(elem)) => {
                assert(decreases_to!(v => items));
                lemma_tree_validates_seq(items, *elem, ctx);
            },
            (ValueM::Mapping(entries), SchemaM::Mapping(val)) => {
                assert(decreases_to!(v => entries));
                lemma_tree_validates_entries(entries, *val, ctx);
            },
            (ValueM::Record(rf), SchemaM::Record { name, fields, .. }) => {
                assert(decreases_to!(v => rf));
                lemma_tree_validates_fields(rf, fields, crate::validate::set_ns(ctx, name));
            },
            _ => {},
        }
    }
}

/// Conforming elements all validate.
proof fn lemma_tree_validates_seq(items: Seq<ValueM>, elem: SchemaM, ctx: CtxM)
    requires
        tree_conforms_seq(items, elem),
    ensures
        crate::validate::validate_seq_m(items, elem, ctx).0,
    decreases items, 1nat, elem,
{
    if items.len() > 0 {
        lemma_tree_validates(items[0], elem, ctx, crate::validate::default_budget(ctx));
        let c0 = crate::validate::validate_m(
            items[0],
            elem,
            ctx,
            crate::validate::default_budget(ctx),
        ).1;
        lemma_tree_validates_seq(items.drop_first(), elem, c0);
    }
}

/// Conforming map entry values all validate.
proof fn lemma_tree_validates_entries(entries: Seq<(Seq<char>, ValueM)>, val: SchemaM, ctx: CtxM)
    requires
        tree_conforms_entries(entries, val),
    ensures
        crate::validate::validate_entries_m(entries, val, ctx).0,
    decreases entries, 1nat, val,
{
    if entries.len() > 0 {
        lemma_tree_validates(entries[0].1, val, ctx, crate::validate::default_budget(ctx));
        let c0 = crate::validate::validate_m(
            entries[0].1,
            val,
            ctx,
            crate::validate::default_budget(ctx),
        ).1;
        lemma_tree_validates_entries(entries.drop_first(), val, c0);
    }
}

/// Conforming fields match name by name and value by value.
proof fn lemma_tree_validates_fields(
    rf: Seq<(Seq<char>, ValueM)>,
    fields: Seq<crate::schema::FieldM>,
    ctx: CtxM,
)
    requires
        rf.len() == fields.len(),
        tree_conforms_fields(rf, fields),
    ensures
        crate::validate::validate_fields_m(rf, fields, ctx).0,
    decreases rf, 1nat, fields,
{
    if rf.len() > 0 {
        lemma_tree_validates(rf[0].1, fields[0].schema, ctx, crate::validate::default_budget(ctx));
        let c0 = crate::validate::validate_m(
            rf[0].1,
            fields[0].schema,
            ctx,
            crate::validate::default_budget(ctx),
        ).1;
        lemma_tree_validates_fields(rf.drop_first(), fields.drop_first(), c0);
    }
}

} // verus!
