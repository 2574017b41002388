//! The binary decoder: the inverse of the encoder, rule for rule. It
//! never reads outside the supplied buffer and never panics: malformed
//! input is reported as a structured error.
use std::sync::Arc;

use vstd::prelude::*;

use crate::schema::{lookup_m, schema_model, CtxM, FieldM, SchemaM, SchemaParseContext,
    SchemaTree};
use crate::types::{pairs_model, value_model, values_model, Value, ValueM};
use crate::varint::unzigzag64;
use vstd::utf8::{decode_utf8, valid_utf8};

verus! {

/// Errors of the decoder. Decoding never panics and never reads outside
/// the buffer: malformed input is reported through these.
#[derive(Clone, Copy, Debug, PartialEq, Eq, Structural)]
pub enum DecodeError {
    /// The input ended before the value did.
    TruncatedInput,
    /// A varint whose continuation bit never clears within ten bytes.
    MalformedVarint,
    /// A string section whose bytes are not UTF-8.
    InvalidUtf8,
    /// An enum or union index, block count, length or stray byte out of
    /// range.
    IndexOutOfRange,
    /// A type reference that the context does not resolve.
    UnresolvedReference,
    /// A nesting of schema nodes and references deeper than the decoder
    /// follows.
    DepthLimitExceeded,
}

/// Parse a varint at `s[i]`, with `left` bytes still allowed, the value
/// assembled so far in `acc` and the weight of the next seven-bit group
/// in `scale`; groups beyond 64 bits are discarded, as a shift-and-or
/// reassembly discards them.
pub open spec fn varint_dec_rec(s: Seq<u8>, i: int, left: nat, acc: u64, scale: u64) -> Result<
    (u64, int),
    DecodeError,
>
    decreases left,
{
    if !(0 <= i < s.len()) {
        Err(DecodeError::TruncatedInput)
    } else {
        let b = s[i];
        if b < 128 {
            Ok(
                (
                    (((acc as int) + (b as int) * (scale as int)) % 0x1_0000_0000_0000_0000) as u64,
                    i + 1,
                ),
            )
        } else if left <= 1 {
            Err(DecodeError::MalformedVarint)
        } else {
            varint_dec_rec(
                s,
                i + 1,
                (left - 1) as nat,
                (((acc as int) + (b as int - 128) * (scale as int))
                    % 0x1_0000_0000_0000_0000) as u64,
                (((scale as int) * 128) % 0x1_0000_0000_0000_0000) as u64,
            )
        }
    }
}

/// Parse a varint at `s[i]`: at most ten bytes.
pub open spec fn varint_dec(s: Seq<u8>, i: int) -> Result<(u64, int), DecodeError> {
    varint_dec_rec(s, i, 10, 0, 1)
}

/// Parse a zig-zag varint: a signed 64-bit integer.
pub open spec fn read_long_m(s: Seq<u8>, i: int) -> Result<(i64, int), DecodeError> {
    match varint_dec(s, i) {
        Ok((u, j)) => Ok((unzigzag64(u), j)),
        Err(e) => Err(e),
    }
}

/// The 32-bit pattern of four little-endian bytes at `i`.
pub open spec fn le32_at(s: Seq<u8>, i: int) -> u32 {
    (s[i] + s[i + 1] * 0x100 + s[i + 2] * 0x10000 + s[i + 3] * 0x1000000) as u32
}

/// The 64-bit pattern of eight little-endian bytes at `i`.
pub open spec fn le64_at(s: Seq<u8>, i: int) -> u64 {
    (s[i] + s[i + 1] * 0x100 + s[i + 2] * 0x10000 + s[i + 3] * 0x1000000 + s[i + 4] * 0x100000000
        + s[i + 5] * 0x10000000000 + s[i + 6] * 0x1000000000000 + s[i + 7]
        * 0x100000000000000) as u64
}

/// Decode one value of schema `sch` at position `i`: the value and the
/// position after it, or the first error. The fuel bounds the depth of
/// nested schema nodes and references followed.
pub open spec fn decode_m(s: Seq<u8>, i: int, sch: SchemaM, ctx: CtxM, fuel: nat) -> Result<
    (ValueM, int),
    DecodeError,
>
    decreases fuel, 2int, 0int,
{
    if fuel == 0 {
        Err(DecodeError::DepthLimitExceeded)
    } else {
        match sch {
            SchemaM::Null => Ok((ValueM::Null, i)),
            SchemaM::Boolean => if 0 <= i < s.len() {
                if s[i] == 1 {
                    Ok((ValueM::Boolean(true), i + 1))
                } else if s[i] == 0 {
                    Ok((ValueM::Boolean(false), i + 1))
                } else {
                    Err(DecodeError::IndexOutOfRange)
                }
            } else {
                Err(DecodeError::TruncatedInput)
            },
            SchemaM::Int => match read_long_m(s, i) {
                Ok((n, j)) => if i32::MIN <= n <= i32::MAX {
                    Ok((ValueM::Int(n as i32), j))
                } else {
                    Err(DecodeError::IndexOutOfRange)
                },
                Err(e) => Err(e),
            },
            SchemaM::Long => match read_long_m(s, i) {
                Ok((n, j)) => Ok((ValueM::Long(n), j)),
                Err(e) => Err(e),
            },
            SchemaM::Float => if 0 <= i && i + 4 <= s.len() {
                Ok((ValueM::Float(le32_at(s, i)), i + 4))
            } else {
                Err(DecodeError::TruncatedInput)
            },
            SchemaM::Double => if 0 <= i && i + 8 <= s.len() {
                Ok((ValueM::Double(le64_at(s, i)), i + 8))
            } else {
                Err(DecodeError::TruncatedInput)
            },
            SchemaM::Bytes => match read_section_m(s, i) {
                Ok((b, j)) => Ok((ValueM::Bytes(b), j)),
                Err(e) => Err(e),
            },
            SchemaM::String => match read_section_m(s, i) {
                Ok((b, j)) => if valid_utf8(b) {
                    Ok((ValueM::String(decode_utf8(b)), j))
                } else {
                    Err(DecodeError::InvalidUtf8)
                },
                Err(e) => Err(e),
            },
            SchemaM::Fixed { size, .. } => if 0 <= i && i + size <= s.len() {
                Ok((ValueM::Fixed(size, s.subrange(i, i + size)), i + size))
            } else {
                Err(DecodeError::TruncatedInput)
            },
            SchemaM::Enum { symbols, .. } => match read_long_m(s, i) {
                Ok((n, j)) => if 0 <= n && (n as int) < symbols.len() && n <= i32::MAX {
                    Ok((ValueM::Enum(n as i32, symbols[n as int]), j))
                } else {
                    Err(DecodeError::IndexOutOfRange)
                },
                Err(e) => Err(e),
            },
            SchemaM::Union(bs) => match read_long_m(s, i) {
                Ok((n, j)) => if 0 <= n && (n as int) < bs.len() {
                    match decode_m(s, j, bs[n as int], ctx, (fuel - 1) as nat) {
                        Ok((w, j2)) => Ok((ValueM::Union(Box::new(w)), j2)),
                        Err(e) => Err(e),
                    }
                } else {
                    Err(DecodeError::IndexOutOfRange)
                },
                Err(e) => Err(e),
            },
            SchemaM::Array(elem) => match decode_blocks_m(s, i, *elem, ctx, fuel) {
                Ok((items, j)) => Ok((ValueM::Array(items), j)),
                Err(e) => Err(e),
            },
            SchemaM::Mapping(val) => match decode_map_blocks_m(s, i, *val, ctx, fuel) {
                Ok((entries, j)) => Ok((ValueM::Mapping(entries), j)),
                Err(e) => Err(e),
            },
            SchemaM::Record { fields, .. } => match decode_fields_m(s, i, fields, ctx, fuel) {
                Ok((rf, j)) => Ok((ValueM::Record(rf), j)),
                Err(e) => Err(e),
            },
            SchemaM::TypeReference(n) => match lookup_m(ctx, n) {
                Some(s2) => decode_m(s, i, s2, ctx, (fuel - 1) as nat),
                None => Err(DecodeError::UnresolvedReference),
            },
        }
    }
}

/// Parse a length-prefixed byte section: a non-negative count, then that
/// many raw bytes.
pub open spec fn read_section_m(s: Seq<u8>, i: int) -> Result<(Seq<u8>, int), DecodeError> {
    match read_long_m(s, i) {
        Ok((n, j)) => if n < 0 {
            Err(DecodeError::IndexOutOfRange)
        } else if j + n <= s.len() {
            Ok((s.subrange(j, j + n), j + n))
        } else {
            Err(DecodeError::TruncatedInput)
        },
        Err(e) => Err(e),
    }
}

/// Parse array blocks until the zero terminator: each a positive count
/// and that many elements.
pub open spec fn decode_blocks_m(s: Seq<u8>, i: int, elem: SchemaM, ctx: CtxM, fuel: nat) -> Result<
    (Seq<ValueM>, int),
    DecodeError,
>
    decreases fuel, 1int, 0int,
{
    if fuel == 0 {
        Err(DecodeError::DepthLimitExceeded)
    } else {
        match read_long_m(s, i) {
            Ok((n, j)) => if n == 0 {
                Ok((Seq::empty(), j))
            } else if n < 0 {
                Err(DecodeError::IndexOutOfRange)
            } else {
                decode_run_m(s, j, n as nat, elem, ctx, fuel)
            },
            Err(e) => Err(e),
        }
    }
}

/// Parse `cnt` elements, then the following blocks.
pub open spec fn decode_run_m(
    s: Seq<u8>,
    i: int,
    cnt: nat,
    elem: SchemaM,
    ctx: CtxM,
    fuel: nat,
) -> Result<(Seq<ValueM>, int), DecodeError>
    decreases fuel, 0int, cnt,
{
    if fuel == 0 {
        Err(DecodeError::DepthLimitExceeded)
    } else if cnt == 0 {
        decode_blocks_m(s, i, elem, ctx, (fuel - 1) as nat)
    } else {
        match decode_m(s, i, elem, ctx, (fuel - 1) as nat) {
            Ok((w, j)) => match decode_run_m(s, j, (cnt - 1) as nat, elem, ctx, fuel) {
                Ok((ws, j2)) => Ok((seq![w] + ws, j2)),
                Err(e) => Err(e),
            },
            Err(e) => Err(e),
        }
    }
}

/// Parse map blocks until the zero terminator.
pub open spec fn decode_map_blocks_m(s: Seq<u8>, i: int, val: SchemaM, ctx: CtxM, fuel: nat) -> Result<
    (Seq<(Seq<char>, ValueM)>, int),
    DecodeError,
>
    decreases fuel, 1int, 0int,
{
    if fuel == 0 {
        Err(DecodeError::DepthLimitExceeded)
    } else {
        match read_long_m(s, i) {
            Ok((n, j)) => if n == 0 {
                Ok((Seq::empty(), j))
            } else if n < 0 {
                Err(DecodeError::IndexOutOfRange)
            } else {
                decode_map_run_m(s, j, n as nat, val, ctx, fuel)
            },
            Err(e) => Err(e),
        }
    }
}

/// Parse `cnt` map entries, each a string key then a value, then the
/// following blocks.
pub open spec fn decode_map_run_m(
    s: Seq<u8>,
    i: int,
    cnt: nat,
    val: SchemaM,
    ctx: CtxM,
    fuel: nat,
) -> Result<(Seq<(Seq<char>, ValueM)>, int), DecodeError>
    decreases fuel, 0int, cnt,
{
    if fuel == 0 {
        Err(DecodeError::DepthLimitExceeded)
    } else if cnt == 0 {
        decode_map_blocks_m(s, i, val, ctx, (fuel - 1) as nat)
    } else {
        match read_section_m(s, i) {
            Ok((kb, j)) => if valid_utf8(kb) {
                match decode_m(s, j, val, ctx, (fuel - 1) as nat) {
                    Ok((w, j2)) => match decode_map_run_m(s, j2, (cnt - 1) as nat, val, ctx, fuel) {
                        Ok((ws, j3)) => Ok((seq![(decode_utf8(kb), w)] + ws, j3)),
                        Err(e) => Err(e),
                    },
                    Err(e) => Err(e),
                }
            } else {
                Err(DecodeError::InvalidUtf8)
            },
            Err(e) => Err(e),
        }
    }
}

/// Parse a record's fields, in schema order, named by the schema.
pub open spec fn decode_fields_m(s: Seq<u8>, i: int, fields: Seq<FieldM>, ctx: CtxM, fuel: nat) -> Result<
    (Seq<(Seq<char>, ValueM)>, int),
    DecodeError,
>
    decreases fuel, 1int, fields.len(),
{
    if fuel == 0 {
        Err(DecodeError::DepthLimitExceeded)
    } else if fields.len() == 0 {
        Ok((Seq::empty(), i))
    } else {
        match decode_m(s, i, fields[0].schema, ctx, (fuel - 1) as nat) {
            Ok((w, j)) => match decode_fields_m(s, j, fields.drop_first(), ctx, fuel) {
                Ok((ws, j2)) => Ok((seq![(fields[0].name, w)] + ws, j2)),
                Err(e) => Err(e),
            },
            Err(e) => Err(e),
        }
    }
}

/// The fuel the plain entry point supplies: ample for any input unless
/// schema nodes nest deeper than the input and registry together
/// suggest; [`Value::decode_with_fuel`] serves such schemas.
pub open spec fn default_decode_fuel(len: nat, types: nat) -> nat {
    let f = 4 * len + 4 * types + 4096;
    if f > u64::MAX {
        u64::MAX as nat
    } else {
        f
    }
}

} // verus!

verus! {

/// Parse a varint with the given allowance, accumulator and scale.
fn read_varint_rec(s: &[u8], i: usize, left: u64, acc: u64, scale: u64) -> (r: Result<
    (u64, usize),
    DecodeError,
>)
    ensures
        ({
            let m = varint_dec_rec(s@, i as int, left as nat, acc, scale);
            match r {
                Ok((u, j)) => m == Ok::<(u64, int), DecodeError>((u, j as int)) && i < j
                    <= s@.len(),
                Err(e) => m == Err::<(u64, int), DecodeError>(e),
            }
        }),
    decreases left,
{
    if i >= s.len() {
        Err(DecodeError::TruncatedInput)
    } else {
        let b = s[i];
        proof {
            assert((b as int) * (scale as int) <= 255 * 0xFFFF_FFFF_FFFF_FFFF) by (nonlinear_arith)
                requires
                    0 <= b as int <= 255,
                    0 <= scale as int <= 0xFFFF_FFFF_FFFF_FFFF,
            ;
        }
        if b < 128 {
            let u = ((acc as u128 + (b as u128) * (scale as u128)) % 0x1_0000_0000_0000_0000u128)
                as u64;
            Ok((u, i + 1))
        } else if left <= 1 {
            Err(DecodeError::MalformedVarint)
        } else {
            proof {
                assert((b as int - 128) * (scale as int) <= 255 * 0xFFFF_FFFF_FFFF_FFFF)
                    by (nonlinear_arith)
                    requires
                        0 <= b as int - 128 <= 255,
                        0 <= scale as int <= 0xFFFF_FFFF_FFFF_FFFF,
                ;
            }
            let acc2 = ((acc as u128 + ((b - 128) as u128) * (scale as u128))
                % 0x1_0000_0000_0000_0000u128) as u64;
            let scale2 = (((scale as u128) * 128) % 0x1_0000_0000_0000_0000u128) as u64;
            read_varint_rec(s, i + 1, left - 1, acc2, scale2)
        }
    }
}

/// Parse a zig-zag varint: a signed 64-bit integer and the position
/// after it.
fn read_long(s: &[u8], i: usize) -> (r: Result<(i64, usize), DecodeError>)
    ensures
        ({
            let m = read_long_m(s@, i as int);
            match r {
                Ok((n, j)) => m == Ok::<(i64, int), DecodeError>((n, j as int)) && i < j
                    <= s@.len(),
                Err(e) => m == Err::<(i64, int), DecodeError>(e),
            }
        }),
{
    match read_varint_rec(s, i, 10, 0, 1) {
        Ok((u, j)) => {
            let n: i64 = if u % 2 == 0 {
                (u / 2) as i64
            } else {
                -((u / 2) as i64) - 1
            };
            proof {
                assert(n == unzigzag64(u));
            }
            Ok((n, j))
        },
        Err(e) => Err(e),
    }
}

/// Copy the bytes of `s` between `a` and `b`.
fn copy_range(s: &[u8], a: usize, b: usize) -> (out: Vec<u8>)
    requires
        a <= b <= s@.len(),
    ensures
        out@ == s@.subrange(a as int, b as int),
{
    let mut out: Vec<u8> = Vec::new();
    let mut k: usize = a;
    while k < b
        invariant
            a <= k <= b <= s@.len(),
            out@ == s@.subrange(a as int, k as int),
        decreases b - k,
    {
        out.push(s[k]);
        proof {
            assert(s@.subrange(a as int, k as int) + seq![s@[k as int]] =~= s@.subrange(
                a as int,
                k as int + 1,
            ));
        }
        k = k + 1;
    }
    out
}

/// Parse a length-prefixed byte section.
fn read_section(s: &[u8], i: usize) -> (r: Result<(Vec<u8>, usize), DecodeError>)
    ensures
        ({
            let m = read_section_m(s@, i as int);
            match r {
                Ok((b, j)) => m == Ok::<(Seq<u8>, int), DecodeError>((b@, j as int)),
                Err(e) => m == Err::<(Seq<u8>, int), DecodeError>(e),
            }
        }),
{
    match read_long(s, i) {
        Ok((n, j)) => {
            if n < 0 {
                Err(DecodeError::IndexOutOfRange)
            } else if (n as u64) <= (s.len() - j) as u64 {
                let end = j + (n as usize);
                Ok((copy_range(s, j, end), end))
            } else {
                Err(DecodeError::TruncatedInput)
            }
        },
        Err(e) => Err(e),
    }
}

/// Decode one value of the schema at position `i`, resolving named
/// references through the context, following at most `fuel` nested
/// schema nodes.
pub fn decode_with_fuel(
    s: &[u8],
    i: usize,
    schema: &SchemaTree,
    context: &SchemaParseContext,
    fuel: u64,
) -> (r: Result<(Value, usize), DecodeError>)
    ensures
        ({
            let m = decode_m(s@, i as int, schema@, context@, fuel as nat);
            match r {
                Ok((v, j)) => m == Ok::<(ValueM, int), DecodeError>((v@, j as int)),
                Err(e) => m == Err::<(ValueM, int), DecodeError>(e),
            }
        }),
    decreases fuel, 2int, 0int,
{
    if fuel == 0 {
        return Err(DecodeError::DepthLimitExceeded);
    }
    match schema {
        SchemaTree::Null => Ok((Value::Null, i)),
        SchemaTree::Boolean => {
            if i < s.len() {
                let b = s[i];
                if b == 1 {
                    Ok((Value::Boolean(true), i + 1))
                } else if b == 0 {
                    Ok((Value::Boolean(false), i + 1))
                } else {
                    Err(DecodeError::IndexOutOfRange)
                }
            } else {
                Err(DecodeError::TruncatedInput)
            }
        },
        SchemaTree::Int => match read_long(s, i) {
            Ok((n, j)) => {
                if n >= i32::MIN as i64 && n <= i32::MAX as i64 {
                    Ok((Value::Int(n as i32), j))
                } else {
                    Err(DecodeError::IndexOutOfRange)
                }
            },
            Err(e) => Err(e),
        },
        SchemaTree::Long => match read_long(s, i) {
            Ok((n, j)) => Ok((Value::Long(n), j)),
            Err(e) => Err(e),
        },
        SchemaTree::Float => {
            if i < s.len() && 4 <= s.len() - i {
                let bits: u32 = (s[i] as u32) + (s[i + 1] as u32) * 0x100 + (s[i + 2] as u32)
                    * 0x10000 + (s[i + 3] as u32) * 0x1000000;
                Ok((Value::Float(bits), i + 4))
            } else {
                Err(DecodeError::TruncatedInput)
            }
        },
        SchemaTree::Double => {
            if i < s.len() && 8 <= s.len() - i {
                let bits: u64 = (s[i] as u64) + (s[i + 1] as u64) * 0x100 + (s[i + 2] as u64)
                    * 0x10000 + (s[i + 3] as u64) * 0x1000000 + (s[i + 4] as u64) * 0x100000000 + (
                s[i + 5] as u64) * 0x10000000000 + (s[i + 6] as u64) * 0x1000000000000 + (s[i
                    + 7] as u64) * 0x100000000000000;
                Ok((Value::Double(bits), i + 8))
            } else {
                Err(DecodeError::TruncatedInput)
            }
        },
        SchemaTree::Bytes => match read_section(s, i) {
            Ok((b, j)) => Ok((Value::Bytes(b), j)),
            Err(e) => Err(e),
        },
        SchemaTree::String => match read_section(s, i) {
            Ok((b, j)) => {
                let ghost bm = b@;
                match crate::types::utf8_to_string(b) {
                    Some(st) => {
                        proof {
                            broadcast use vstd::utf8::encode_utf8_decode_utf8;

                            assert(decode_utf8(bm) == st@);
                        }
                        Ok((Value::String(st), j))
                    },
                    None => Err(DecodeError::InvalidUtf8),
                }
            },
            Err(e) => Err(e),
        },
        SchemaTree::Fixed { size, .. } => {
            if i <= s.len() && *size <= s.len() - i {
                let end = i + *size;
                Ok((Value::Fixed(*size, copy_range(s, i, end)), end))
            } else {
                Err(DecodeError::TruncatedInput)
            }
        },
        SchemaTree::Enum { symbols, .. } => match read_long(s, i) {
            Ok((n, j)) => {
                if n >= 0 && (n as u64) < symbols.len() as u64 && n <= i32::MAX as i64 {
                    let sym = symbols[n as usize].clone();
                    proof {
                        assert(schema@->Enum_symbols[n as int] == sym@);
                    }
                    Ok((Value::Enum(n as i32, sym), j))
                } else {
                    Err(DecodeError::IndexOutOfRange)
                }
            },
            Err(e) => Err(e),
        },
        SchemaTree::Union(u) => match read_long(s, i) {
            Ok((n, j)) => {
                proof {
                    broadcast use crate::schema::lemma_branches_model_len;

                    assert(schema@ == SchemaM::Union(crate::schema::branches_model(u.schemas@)));
                }
                if n >= 0 && (n as u64) < u.schemas.len() as u64 {
                    proof {
                        crate::schema::lemma_branches_model_index(u.schemas@, n as int);
                        assert(crate::schema::branches_model(u.schemas@)[n as int]
                            == u.schemas@[n as int]@);
                    }
                    match decode_with_fuel(s, j, &*u.schemas[n as usize], context, fuel - 1) {
                        Ok((w, j2)) => {
                            let ghost wm = value_model(w);
                            let bx = Box::new(w);
                            proof {
                                broadcast use
                                    crate::schema::lemma_branches_model_len,
                                    crate::schema::lemma_branches_model_index,
                                ;

                                assert(value_model(*bx) == wm);
                                assert(value_model(Value::Union(bx)) == ValueM::Union(Box::new(wm)));
                                assert(schema@ == SchemaM::Union(
                                    crate::schema::branches_model(u.schemas@),
                                ));
                                let bm = crate::schema::branches_model(u.schemas@);
                                assert(bm[n as int] == schema_model(*u.schemas@[n as int])) by {
                                    crate::schema::lemma_branches_model_index(
                                        u.schemas@,
                                        n as int,
                                    );
                                }
                                assert(bm[n as int] == u.schemas@[n as int]@);
                                let minner = decode_m(
                                    s@,
                                    j as int,
                                    u.schemas@[n as int]@,
                                    context@,
                                    (fuel - 1) as nat,
                                );
                                assert(minner == Ok::<(ValueM, int), DecodeError>(
                                    (wm, j2 as int),
                                ));
                                assert(ValueM::Union(Box::new(minner->Ok_0.0)) =~= ValueM::Union(
                                    Box::new(wm),
                                ));
                                assert(decode_m(s@, i as int, schema@, context@, fuel as nat)
                                    == Ok::<(ValueM, int), DecodeError>(
                                    (ValueM::Union(Box::new(wm)), j2 as int),
                                ));
                            }
                            Ok((Value::Union(bx), j2))
                        },
                        Err(e) => Err(e),
                    }
                } else {
                    Err(DecodeError::IndexOutOfRange)
                }
            },
            Err(e) => Err(e),
        },
        SchemaTree::Array(elem) => {
            proof {
                let b = Box::new(elem@);
                assert(schema@ == SchemaM::Array(b));
                assert(*b == elem@);
            }
            match decode_blocks(s, i, &**elem, context, fuel) {
                Ok((items, j)) => Ok((Value::Array(items), j)),
                Err(e) => Err(e),
            }
        },
        SchemaTree::Mapping(val) => {
            proof {
                let b = Box::new(val@);
                assert(schema@ == SchemaM::Mapping(b));
                assert(*b == val@);
            }
            match decode_map_blocks(s, i, &**val, context, fuel) {
                Ok((entries, j)) => Ok((Value::Mapping(entries), j)),
                Err(e) => Err(e),
            }
        },
        SchemaTree::Record { fields, .. } => {
            proof {
                assert(crate::schema::fields_model(fields@).skip(0) =~= crate::schema::fields_model(
                    fields@,
                ));
            }
            match decode_fields(s, i, fields, 0, context, fuel) {
                Ok((rf, j)) => Ok((Value::Record(rf), j)),
                Err(e) => Err(e),
            }
        },
        SchemaTree::TypeReference(n) => match context.lookup_type(n) {
            Some(node) => decode_with_fuel(s, i, &*node, context, fuel - 1),
            None => Err(DecodeError::UnresolvedReference),
        },
    }
}

/// Parse array blocks until the zero terminator.
fn decode_blocks(
    s: &[u8],
    i: usize,
    elem: &SchemaTree,
    context: &SchemaParseContext,
    fuel: u64,
) -> (r: Result<(Vec<Value>, usize), DecodeError>)
    ensures
        ({
            let m = decode_blocks_m(s@, i as int, schema_model(*elem), context@, fuel as nat);
            match r {
                Ok((items, j)) => m == Ok::<(Seq<ValueM>, int), DecodeError>(
                    (values_model(items@), j as int),
                ),
                Err(e) => m == Err::<(Seq<ValueM>, int), DecodeError>(e),
            }
        }),
    decreases fuel, 1int, 0int,
{
    if fuel == 0 {
        return Err(DecodeError::DepthLimitExceeded);
    }
    match read_long(s, i) {
        Ok((n, j)) => {
            if n == 0 {
                let out: Vec<Value> = Vec::new();
                proof {
                    assert(values_model(out@) =~= Seq::<ValueM>::empty());
                }
                Ok((out, j))
            } else if n < 0 {
                Err(DecodeError::IndexOutOfRange)
            } else {
                decode_run(s, j, n as u64, elem, context, fuel)
            }
        },
        Err(e) => Err(e),
    }
}

/// Parse `cnt` elements, then the following blocks.
fn decode_run(
    s: &[u8],
    i: usize,
    cnt: u64,
    elem: &SchemaTree,
    context: &SchemaParseContext,
    fuel: u64,
) -> (r: Result<(Vec<Value>, usize), DecodeError>)
    requires
        fuel >= 1,
    ensures
        ({
            let m = decode_run_m(s@, i as int, cnt as nat, schema_model(*elem), context@, fuel as nat);
            match r {
                Ok((items, j)) => m == Ok::<(Seq<ValueM>, int), DecodeError>(
                    (values_model(items@), j as int),
                ),
                Err(e) => m == Err::<(Seq<ValueM>, int), DecodeError>(e),
            }
        }),
    decreases fuel, 0int, cnt,
{
    if cnt == 0 {
        decode_blocks(s, i, elem, context, fuel - 1)
    } else {
        match decode_with_fuel(s, i, elem, context, fuel - 1) {
            Ok((w, j)) => {
                let ghost wm = value_model(w);
                match decode_run(s, j, cnt - 1, elem, context, fuel) {
                    Ok((ws, j2)) => {
                        let ghost wsm = values_model(ws@);
                        let mut out = ws;
                        out.insert(0, w);
                        proof {
                            broadcast use
                                crate::types::lemma_values_model_len,
                                crate::types::lemma_values_model_index,
                            ;

                            assert(out@.drop_first() =~= out@.skip(1));
                            assert(values_model(out@) =~= seq![wm] + wsm);
                        }
                        Ok((out, j2))
                    },
                    Err(e) => Err(e),
                }
            },
            Err(e) => Err(e),
        }
    }
}

/// Parse map blocks until the zero terminator.
fn decode_map_blocks(
    s: &[u8],
    i: usize,
    val: &SchemaTree,
    context: &SchemaParseContext,
    fuel: u64,
) -> (r: Result<(Vec<(String, Value)>, usize), DecodeError>)
    ensures
        ({
            let m = decode_map_blocks_m(s@, i as int, schema_model(*val), context@, fuel as nat);
            match r {
                Ok((entries, j)) => m == Ok::<(Seq<(Seq<char>, ValueM)>, int), DecodeError>(
                    (pairs_model(entries@), j as int),
                ),
                Err(e) => m == Err::<(Seq<(Seq<char>, ValueM)>, int), DecodeError>(e),
            }
        }),
    decreases fuel, 1int, 0int,
{
    if fuel == 0 {
        return Err(DecodeError::DepthLimitExceeded);
    }
    match read_long(s, i) {
        Ok((n, j)) => {
            if n == 0 {
                let out: Vec<(String, Value)> = Vec::new();
                proof {
                    assert(pairs_model(out@) =~= Seq::<(Seq<char>, ValueM)>::empty());
                }
                Ok((out, j))
            } else if n < 0 {
                Err(DecodeError::IndexOutOfRange)
            } else {
                decode_map_run(s, j, n as u64, val, context, fuel)
            }
        },
        Err(e) => Err(e),
    }
}

/// Parse `cnt` map entries, then the following blocks.
fn decode_map_run(
    s: &[u8],
    i: usize,
    cnt: u64,
    val: &SchemaTree,
    context: &SchemaParseContext,
    fuel: u64,
) -> (r: Result<(Vec<(String, Value)>, usize), DecodeError>)
    requires
        fuel >= 1,
    ensures
        ({
            let m = decode_map_run_m(
                s@,
                i as int,
                cnt as nat,
                schema_model(*val),
                context@,
                fuel as nat,
            );
            match r {
                Ok((entries, j)) => m == Ok::<(Seq<(Seq<char>, ValueM)>, int), DecodeError>(
                    (pairs_model(entries@), j as int),
                ),
                Err(e) => m == Err::<(Seq<(Seq<char>, ValueM)>, int), DecodeError>(e),
            }
        }),
    decreases fuel, 0int, cnt,
{
    if cnt == 0 {
        decode_map_blocks(s, i, val, context, fuel - 1)
    } else {
        match read_section(s, i) {
            Ok((kb, j)) => {
                let ghost kbm = kb@;
                match crate::types::utf8_to_string(kb) {
                    Some(key) => {
                        proof {
                            broadcast use vstd::utf8::encode_utf8_decode_utf8;

                            assert(decode_utf8(kbm) == key@);
                        }
                        match decode_with_fuel(s, j, val, context, fuel - 1) {
                            Ok((w, j2)) => {
                                let ghost wm = value_model(w);
                                let ghost km = key@;
                                match decode_map_run(s, j2, cnt - 1, val, context, fuel) {
                                    Ok((ws, j3)) => {
                                        let ghost wsm = pairs_model(ws@);
                                        let mut out = ws;
                                        out.insert(0, (key, w));
                                        proof {
                                            broadcast use
                                                crate::types::lemma_pairs_model_len,
                                                crate::types::lemma_pairs_model_index,
                                            ;

                                            assert(out@.drop_first() =~= out@.skip(1));
                                            assert(pairs_model(out@) =~= seq![(km, wm)] + wsm);
                                        }
                                        Ok((out, j3))
                                    },
                                    Err(e) => Err(e),
                                }
                            },
                            Err(e) => Err(e),
                        }
                    },
                    None => Err(DecodeError::InvalidUtf8),
                }
            },
            Err(e) => Err(e),
        }
    }
}

/// Parse the record fields from `fi` on, in schema order.
fn decode_fields(
    s: &[u8],
    i: usize,
    fields: &Vec<crate::schema::RecordField>,
    fi: usize,
    context: &SchemaParseContext,
    fuel: u64,
) -> (r: Result<(Vec<(String, Value)>, usize), DecodeError>)
    requires
        fi <= fields@.len(),
        fuel >= 1,
    ensures
        ({
            let m = decode_fields_m(
                s@,
                i as int,
                crate::schema::fields_model(fields@).skip(fi as int),
                context@,
                fuel as nat,
            );
            match r {
                Ok((rf, j)) => m == Ok::<(Seq<(Seq<char>, ValueM)>, int), DecodeError>(
                    (pairs_model(rf@), j as int),
                ),
                Err(e) => m == Err::<(Seq<(Seq<char>, ValueM)>, int), DecodeError>(e),
            }
        }),
    decreases fuel, 1int, fields@.len() - fi,
{
    proof {
        broadcast use
            crate::types::lemma_pairs_model_len,
            crate::types::lemma_pairs_model_index,
            crate::schema::lemma_fields_model_len,
            crate::schema::lemma_fields_model_index,
        ;

    }
    if fi == fields.len() {
        let out: Vec<(String, Value)> = Vec::new();
        proof {
            assert(crate::schema::fields_model(fields@).skip(fi as int).len() == 0);
            assert(pairs_model(out@) =~= Seq::<(Seq<char>, ValueM)>::empty());
        }
        Ok((out, i))
    } else {
        proof {
            assert(crate::schema::fields_model(fields@).skip(fi as int)[0]
                == crate::schema::field_model(fields@[fi as int]));
            assert(crate::schema::fields_model(fields@).skip(fi as int).drop_first()
                =~= crate::schema::fields_model(fields@).skip(fi as int + 1));
        }
        match decode_with_fuel(s, i, &*fields[fi].schema, context, fuel - 1) {
            Ok((w, j)) => {
                let ghost wm = value_model(w);
                let key = fields[fi].name.clone();
                let ghost km = key@;
                match decode_fields(s, j, fields, fi + 1, context, fuel) {
                    Ok((ws, j2)) => {
                        let ghost wsm = pairs_model(ws@);
                        let mut out = ws;
                        out.insert(0, (key, w));
                        proof {
                            assert(out@.drop_first() =~= out@.skip(1));
                            assert(pairs_model(out@) =~= seq![(km, wm)] + wsm);
                        }
                        Ok((out, j2))
                    },
                    Err(e) => Err(e),
                }
            },
            Err(e) => Err(e),
        }
    }
}

/// Decode one value of the schema from the head of `bytes`: the value
/// and the number of bytes consumed, or the first error. Supplies the
/// default fuel; a schema nesting deeper than it needs
/// [`decode_with_fuel`].
pub fn decode(s: &[u8], schema: &SchemaTree, context: &SchemaParseContext) -> (r: Result<
    (Value, usize),
    DecodeError,
>)
    ensures
        ({
            let m = decode_m(
                s@,
                0,
                schema@,
                context@,
                default_decode_fuel(s@.len(), context@.types.len()),
            );
            match r {
                Ok((v, j)) => m == Ok::<(ValueM, int), DecodeError>((v@, j as int)),
                Err(e) => m == Err::<(ValueM, int), DecodeError>(e),
            }
        }),
{
    let fwide: u128 = 4 * (s.len() as u128) + 4 * (context.types.len() as u128) + 4096;
    let fuel: u64 = if fwide > u64::MAX as u128 {
        u64::MAX
    } else {
        fwide as u64
    };
    proof {
        assert(fuel as nat == default_decode_fuel(s@.len(), context@.types.len()));
    }
    decode_with_fuel(s, 0, schema, context, fuel)
}

} // verus!
