//! Schema resolution: converting a value written under one schema into
//! the shape a different, compatible reader schema asks for, with the
//! numeric promotions, enum re-derivation, union re-selection and record
//! defaulting the format's evolution contract specifies.
use std::sync::Arc;

use vstd::prelude::*;

use crate::float_bits::{
    double_bits_from_int, double_bits_from_single, double_of_i128, double_of_single_bits,
    single_bits_from_double, single_bits_from_int, single_of_double_bits, single_of_i128,
};
use crate::schema::{
    lookup_m, schema_model, CtxM, FieldM, SchemaM, SchemaParseContext, SchemaTree,
};
use crate::types::{
    json_to_value, kind_of_value, pairs_model, utf8_to_string, value_model, values_model,
    ResolutionErrorKind, SchemaKind, SchemaResolutionError, Value, ValueM,
};
use crate::validate::{default_budget, find_branch_m};
use crate::encode::first_index;
use vstd::utf8::{decode_utf8, encode_utf8, valid_utf8};

verus! {

/// A kind-mismatch error naming what the reader expected and what the
/// writer supplied.
pub open spec fn mism(expected: SchemaKind, v: ValueM) -> ResolutionErrorKind {
    ResolutionErrorKind::KindMismatch { expected, actual: kind_of_value(v) }
}

/// The two's-complement truncation of a signed 64-bit integer to 32 bits.
pub open spec fn wrap_i32(n: i64) -> i32 {
    if n >= 0 {
        let low = (n as int) % 0x1_0000_0000;
        if low < 0x8000_0000 {
            low as i32
        } else {
            (low - 0x1_0000_0000) as i32
        }
    } else {
        let m = (-((n as int) + 1)) % 0x1_0000_0000;
        let low = 0xFFFF_FFFF - m;
        if low < 0x8000_0000 {
            low as i32
        } else {
            (low - 0x1_0000_0000) as i32
        }
    }
}

/// Resolution against a null reader schema.
pub open spec fn resolve_null_m(v: ValueM) -> Result<ValueM, ResolutionErrorKind> {
    match v {
        ValueM::Null => Ok(ValueM::Null),
        _ => Err(mism(SchemaKind::Null, v)),
    }
}

/// Resolution against a boolean reader schema.
pub open spec fn resolve_boolean_m(v: ValueM) -> Result<ValueM, ResolutionErrorKind> {
    match v {
        ValueM::Boolean(b) => Ok(ValueM::Boolean(b)),
        _ => Err(mism(SchemaKind::Boolean, v)),
    }
}

/// Resolution against an int reader schema: longs narrow by truncation.
pub open spec fn resolve_int_m(v: ValueM) -> Result<ValueM, ResolutionErrorKind> {
    match v {
        ValueM::Int(n) => Ok(ValueM::Int(n)),
        ValueM::Long(n) => Ok(ValueM::Int(wrap_i32(n))),
        _ => Err(mism(SchemaKind::Int, v)),
    }
}

/// Resolution against a long reader schema: ints widen.
pub open spec fn resolve_long_m(v: ValueM) -> Result<ValueM, ResolutionErrorKind> {
    match v {
        ValueM::Int(n) => Ok(ValueM::Long(n as i64)),
        ValueM::Long(n) => Ok(ValueM::Long(n)),
        _ => Err(mism(SchemaKind::Long, v)),
    }
}

/// Resolution against a float reader schema: numeric casts on bits.
pub open spec fn resolve_float_m(v: ValueM) -> Result<ValueM, ResolutionErrorKind> {
    match v {
        ValueM::Int(n) => Ok(ValueM::Float(single_of_i128(n as i128))),
        ValueM::Long(n) => Ok(ValueM::Float(single_of_i128(n as i128))),
        ValueM::Float(x) => Ok(ValueM::Float(x)),
        ValueM::Double(x) => Ok(ValueM::Float(single_of_double_bits(x))),
        _ => Err(mism(SchemaKind::Float, v)),
    }
}

/// Resolution against a double reader schema: numeric casts on bits.
pub open spec fn resolve_double_m(v: ValueM) -> Result<ValueM, ResolutionErrorKind> {
    match v {
        ValueM::Int(n) => Ok(ValueM::Double(double_of_i128(n as i128))),
        ValueM::Long(n) => Ok(ValueM::Double(double_of_i128(n as i128))),
        ValueM::Float(x) => Ok(ValueM::Double(double_of_single_bits(x))),
        ValueM::Double(x) => Ok(ValueM::Double(x)),
        _ => Err(mism(SchemaKind::Double, v)),
    }
}

/// Resolution against a bytes reader schema: text converts to its UTF-8.
pub open spec fn resolve_bytes_m(v: ValueM) -> Result<ValueM, ResolutionErrorKind> {
    match v {
        ValueM::Bytes(b) => Ok(ValueM::Bytes(b)),
        ValueM::String(s) => Ok(ValueM::Bytes(encode_utf8(s))),
        _ => Err(mism(SchemaKind::Bytes, v)),
    }
}

/// Resolution against a string reader schema: UTF-8 bytes convert, other
/// bytes fail.
pub open spec fn resolve_string_m(v: ValueM) -> Result<ValueM, ResolutionErrorKind> {
    match v {
        ValueM::String(s) => Ok(ValueM::String(s)),
        ValueM::Bytes(b) => if valid_utf8(b) {
            Ok(ValueM::String(decode_utf8(b)))
        } else {
            Err(ResolutionErrorKind::Utf8ConversionFailure)
        },
        _ => Err(mism(SchemaKind::String, v)),
    }
}

/// Resolution against a fixed reader schema: the size must match.
pub open spec fn resolve_fixed_m(v: ValueM, size: nat) -> Result<ValueM, ResolutionErrorKind> {
    match v {
        ValueM::Fixed(n, b) => if n == size {
            Ok(ValueM::Fixed(n, b))
        } else {
            Err(ResolutionErrorKind::FixedSizeMismatch)
        },
        _ => Err(mism(SchemaKind::Fixed, v)),
    }
}

/// Resolution against an enum reader schema: the result always carries
/// the index re-derived from the reader's symbol list.
pub open spec fn resolve_enum_m(v: ValueM, symbols: Seq<Seq<char>>) -> Result<
    ValueM,
    ResolutionErrorKind,
> {
    match v {
        ValueM::Enum(i, t) => if 0 <= i && (i as int) < symbols.len() {
            resolve_symbol_m(t, symbols)
        } else {
            Err(ResolutionErrorKind::EnumIndexOutOfRange)
        },
        ValueM::String(t) => resolve_symbol_m(t, symbols),
        _ => Err(mism(SchemaKind::Enum, v)),
    }
}

/// An enum value from a symbol: its first position in the reader's list.
pub open spec fn resolve_symbol_m(t: Seq<char>, symbols: Seq<Seq<char>>) -> Result<
    ValueM,
    ResolutionErrorKind,
> {
    match first_index(symbols, t) {
        Some(i) => if i <= i32::MAX {
            Ok(ValueM::Enum(i as i32, t))
        } else {
            Err(ResolutionErrorKind::EnumIndexOutOfRange)
        },
        None => Err(ResolutionErrorKind::UnknownEnumSymbol),
    }
}

/// A union value resolving against a non-union reader schema sheds its
/// wrapper first.
pub open spec fn unwrap_for(v: ValueM, s: SchemaM) -> ValueM {
    match v {
        ValueM::Union(inner) => if !(s is Union) {
            *inner
        } else {
            v
        },
        _ => v,
    }
}

/// Resolution of `v` into reader schema `s` with the given context and
/// recursion fuel, and the context after the traversal. Every error case
/// is stated: success is owed exactly where no arm below fails.
pub open spec fn resolve_m(v: ValueM, s: SchemaM, ctx: CtxM, fuel: nat) -> (
    Result<ValueM, ResolutionErrorKind>,
    CtxM,
)
    decreases fuel, 2int, 0int,
{
    if fuel == 0 {
        (Err(ResolutionErrorKind::DepthLimitExceeded), ctx)
    } else {
        let v1 = unwrap_for(v, s);
        match s {
            SchemaM::Null => (resolve_null_m(v1), ctx),
            SchemaM::Boolean => (resolve_boolean_m(v1), ctx),
            SchemaM::Int => (resolve_int_m(v1), ctx),
            SchemaM::Long => (resolve_long_m(v1), ctx),
            SchemaM::Float => (resolve_float_m(v1), ctx),
            SchemaM::Double => (resolve_double_m(v1), ctx),
            SchemaM::Bytes => (resolve_bytes_m(v1), ctx),
            SchemaM::String => (resolve_string_m(v1), ctx),
            SchemaM::Fixed { size, .. } => (resolve_fixed_m(v1, size), ctx),
            SchemaM::Enum { symbols, .. } => (resolve_enum_m(v1, symbols), ctx),
            SchemaM::Union(bs) => resolve_union_m(v1, bs, ctx, fuel),
            SchemaM::Array(elem) => match v1 {
                ValueM::Array(items) => {
                    let (r, c) = resolve_items_m(items, *elem, ctx, fuel);
                    (
                        match r {
                            Ok(ws) => Ok(ValueM::Array(ws)),
                            Err(e) => Err(e),
                        },
                        c,
                    )
                },
                _ => (Err(mism(SchemaKind::Array, v1)), ctx),
            },
            SchemaM::Mapping(val) => match v1 {
                ValueM::Mapping(entries) => {
                    let (r, c) = resolve_entries_m(entries, *val, ctx, fuel);
                    (
                        match r {
                            Ok(ws) => Ok(ValueM::Mapping(ws)),
                            Err(e) => Err(e),
                        },
                        c,
                    )
                },
                _ => (Err(mism(SchemaKind::Mapping, v1)), ctx),
            },
            SchemaM::Record { fields, .. } => match v1 {
                ValueM::Mapping(items) => resolve_record_m(items, fields, ctx, fuel),
                ValueM::Record(rf) => resolve_record_m(rf, fields, ctx, fuel),
                _ => (Err(mism(SchemaKind::Record, v1)), ctx),
            },
            SchemaM::TypeReference(n) => match lookup_m(ctx, n) {
                Some(s2) => resolve_m(v1, s2, ctx, (fuel - 1) as nat),
                None => (Err(ResolutionErrorKind::UnresolvedReference), ctx),
            },
        }
    }
}

/// Resolution into the first branch of the reader union that structurally
/// accepts the value, after shedding at most one union wrapper.
pub open spec fn resolve_union_m(v1: ValueM, bs: Seq<SchemaM>, ctx: CtxM, fuel: nat) -> (
    Result<ValueM, ResolutionErrorKind>,
    CtxM,
)
    decreases fuel, 1int, 0int,
{
    if fuel == 0 {
        (Err(ResolutionErrorKind::DepthLimitExceeded), ctx)
    } else {
        let v2 = match v1 {
            ValueM::Union(inner) => *inner,
            _ => v1,
        };
        let (r, c) = find_branch_m(v2, bs, ctx, default_budget(ctx));
        match r {
            Some(i) => resolve_m(v2, bs[i], c, (fuel - 1) as nat),
            None => (Err(ResolutionErrorKind::UnionBranchNotFound), c),
        }
    }
}

/// Resolution of every element against the element schema, in order,
/// stopping at the first failure.
pub open spec fn resolve_items_m(items: Seq<ValueM>, elem: SchemaM, ctx: CtxM, fuel: nat) -> (
    Result<Seq<ValueM>, ResolutionErrorKind>,
    CtxM,
)
    decreases fuel, 1int, items.len(),
{
    if fuel == 0 {
        (Err(ResolutionErrorKind::DepthLimitExceeded), ctx)
    } else if items.len() == 0 {
        (Ok(Seq::empty()), ctx)
    } else {
        let (r0, c0) = resolve_m(items[0], elem, ctx, (fuel - 1) as nat);
        match r0 {
            Err(e) => (Err(e), c0),
            Ok(w) => {
                let (rr, c) = resolve_items_m(items.drop_first(), elem, c0, fuel);
                (
                    match rr {
                        Ok(ws) => Ok(seq![w] + ws),
                        Err(e) => Err(e),
                    },
                    c,
                )
            },
        }
    }
}

/// Resolution of every entry's value against the value schema, in order;
/// keys pass through unchanged.
pub open spec fn resolve_entries_m(
    entries: Seq<(Seq<char>, ValueM)>,
    val: SchemaM,
    ctx: CtxM,
    fuel: nat,
) -> (Result<Seq<(Seq<char>, ValueM)>, ResolutionErrorKind>, CtxM)
    decreases fuel, 1int, entries.len(),
{
    if fuel == 0 {
        (Err(ResolutionErrorKind::DepthLimitExceeded), ctx)
    } else if entries.len() == 0 {
        (Ok(Seq::empty()), ctx)
    } else {
        let (r0, c0) = resolve_m(entries[0].1, val, ctx, (fuel - 1) as nat);
        match r0 {
            Err(e) => (Err(e), c0),
            Ok(w) => {
                let (rr, c) = resolve_entries_m(entries.drop_first(), val, c0, fuel);
                (
                    match rr {
                        Ok(ws) => Ok(seq![(entries[0].0, w)] + ws),
                        Err(e) => Err(e),
                    },
                    c,
                )
            },
        }
    }
}

/// The last value written under `name`, as a map collected from written
/// fields keeps the later of two entries with one key.
pub open spec fn lookup_written(items: Seq<(Seq<char>, ValueM)>, name: Seq<char>) -> Option<ValueM>
    decreases items.len(),
{
    if items.len() == 0 {
        None
    } else if items.last().0 == name {
        Some(items.last().1)
    } else {
        lookup_written(items.drop_last(), name)
    }
}

/// The value a reader field starts from: the written value under its
/// name, else its declared default in canonical form (an enum default is
/// revalidated against the field's symbol list), else a missing-field
/// error.
pub open spec fn field_source_m(items: Seq<(Seq<char>, ValueM)>, f: FieldM) -> Result<
    ValueM,
    ResolutionErrorKind,
> {
    match lookup_written(items, f.name) {
        Some(w) => Ok(w),
        None => match f.default {
            Some(j) => {
                let dv = json_to_value(j);
                match f.schema {
                    SchemaM::Enum { symbols, .. } => resolve_enum_m(dv, symbols),
                    _ => Ok(dv),
                }
            },
            None => Err(ResolutionErrorKind::MissingField),
        },
    }
}

/// Resolution of a record: for each reader field in reader order, the
/// written or defaulted value resolved against the field's schema.
pub open spec fn resolve_record_m(
    items: Seq<(Seq<char>, ValueM)>,
    fields: Seq<FieldM>,
    ctx: CtxM,
    fuel: nat,
) -> (Result<ValueM, ResolutionErrorKind>, CtxM)
    decreases fuel, 1int, 0int,
{
    let (r, c) = resolve_fields_m(items, fields, ctx, fuel);
    (
        match r {
            Ok(ws) => Ok(ValueM::Record(ws)),
            Err(e) => Err(e),
        },
        c,
    )
}

/// Resolution of each reader field in order, stopping at the first
/// failure.
pub open spec fn resolve_fields_m(
    items: Seq<(Seq<char>, ValueM)>,
    fields: Seq<FieldM>,
    ctx: CtxM,
    fuel: nat,
) -> (Result<Seq<(Seq<char>, ValueM)>, ResolutionErrorKind>, CtxM)
    decreases fuel, 0int, fields.len(),
{
    if fuel == 0 {
        (Err(ResolutionErrorKind::DepthLimitExceeded), ctx)
    } else if fields.len() == 0 {
        (Ok(Seq::empty()), ctx)
    } else {
        match field_source_m(items, fields[0]) {
            Err(e) => (Err(e), ctx),
            Ok(w0) => {
                let (r0, c0) = resolve_m(w0, fields[0].schema, ctx, (fuel - 1) as nat);
                match r0 {
                    Err(e) => (Err(e), c0),
                    Ok(w) => {
                        let (rr, c) = resolve_fields_m(items, fields.drop_first(), c0, fuel);
                        (
                            match rr {
                                Ok(ws) => Ok(seq![(fields[0].name, w)] + ws),
                                Err(e) => Err(e),
                            },
                            c,
                        )
                    },
                }
            },
        }
    }
}

} // verus!

verus! {

/// The model of a resolution result.
pub open spec fn result_model(r: Result<Value, SchemaResolutionError>) -> Result<
    ValueM,
    ResolutionErrorKind,
> {
    match r {
        Ok(v) => Ok(value_model(v)),
        Err(e) => Err(e.kind),
    }
}

/// The two's-complement truncation of a long to an int.
fn wrap_long_to_int(n: i64) -> (r: i32)
    ensures
        r == wrap_i32(n),
{
    if n >= 0 {
        let low: i64 = n % 0x1_0000_0000;
        if low < 0x8000_0000 {
            low as i32
        } else {
            (low - 0x1_0000_0000) as i32
        }
    } else {
        let m: i64 = (-(n + 1)) % 0x1_0000_0000;
        let low: i64 = 0xFFFF_FFFF - m;
        if low < 0x8000_0000 {
            low as i32
        } else {
            (low - 0x1_0000_0000) as i32
        }
    }
}

/// An enum value from a symbol: its first position in the reader's list.
fn resolve_symbol(t: String, symbols: &Vec<String>) -> (r: Result<Value, SchemaResolutionError>)
    ensures
        result_model(r) == resolve_symbol_m(t@, crate::validate::symbols_of(symbols@)),
{
    let ghost syms = crate::validate::symbols_of(symbols@);
    let hit = crate::validate::find_symbol(symbols, &t);
    proof {
        match hit {
            Some(i) => {
                crate::encode::lemma_first_index_found(syms, t@, i as int);
            },
            None => {
                crate::encode::lemma_first_index_missing(syms, t@);
            },
        }
    }
    match hit {
        Some(i) => {
            if i <= (i32::MAX as usize) {
                Ok(Value::Enum(i as i32, t))
            } else {
                Err(SchemaResolutionError::new(ResolutionErrorKind::EnumIndexOutOfRange))
            }
        },
        None => Err(SchemaResolutionError::new(ResolutionErrorKind::UnknownEnumSymbol)),
    }
}

impl Value {
    /// Resolution against a null reader schema.
    fn resolve_null(self) -> (r: Result<Value, SchemaResolutionError>)
        ensures
            result_model(r) == resolve_null_m(self@),
    {
        match self {
            Value::Null => Ok(Value::Null),
            other => Err(
                SchemaResolutionError::new(
                    ResolutionErrorKind::KindMismatch {
                        expected: SchemaKind::Null,
                        actual: SchemaKind::of_value(&other),
                    },
                ),
            ),
        }
    }

    /// Resolution against a boolean reader schema.
    fn resolve_boolean(self) -> (r: Result<Value, SchemaResolutionError>)
        ensures
            result_model(r) == resolve_boolean_m(self@),
    {
        match self {
            Value::Boolean(b) => Ok(Value::Boolean(b)),
            other => Err(
                SchemaResolutionError::new(
                    ResolutionErrorKind::KindMismatch {
                        expected: SchemaKind::Boolean,
                        actual: SchemaKind::of_value(&other),
                    },
                ),
            ),
        }
    }

    /// Resolution against an int reader schema: longs narrow by
    /// truncation, an explicit design choice of the format's evolution
    /// rules.
    fn resolve_int(self) -> (r: Result<Value, SchemaResolutionError>)
        ensures
            result_model(r) == resolve_int_m(self@),
    {
        match self {
            Value::Int(n) => Ok(Value::Int(n)),
            Value::Long(n) => Ok(Value::Int(wrap_long_to_int(n))),
            other => Err(
                SchemaResolutionError::new(
                    ResolutionErrorKind::KindMismatch {
                        expected: SchemaKind::Int,
                        actual: SchemaKind::of_value(&other),
                    },
                ),
            ),
        }
    }

    /// Resolution against a long reader schema: ints widen.
    fn resolve_long(self) -> (r: Result<Value, SchemaResolutionError>)
        ensures
            result_model(r) == resolve_long_m(self@),
    {
        match self {
            Value::Int(n) => Ok(Value::Long(n as i64)),
            Value::Long(n) => Ok(Value::Long(n)),
            other => Err(
                SchemaResolutionError::new(
                    ResolutionErrorKind::KindMismatch {
                        expected: SchemaKind::Long,
                        actual: SchemaKind::of_value(&other),
                    },
                ),
            ),
        }
    }

    /// Resolution against a float reader schema.
    fn resolve_float(self) -> (r: Result<Value, SchemaResolutionError>)
        ensures
            result_model(r) == resolve_float_m(self@),
    {
        match self {
            Value::Int(n) => Ok(Value::Float(single_bits_from_int(n as i128))),
            Value::Long(n) => Ok(Value::Float(single_bits_from_int(n as i128))),
            Value::Float(x) => Ok(Value::Float(x)),
            Value::Double(x) => Ok(Value::Float(single_bits_from_double(x))),
            other => Err(
                SchemaResolutionError::new(
                    ResolutionErrorKind::KindMismatch {
                        expected: SchemaKind::Float,
                        actual: SchemaKind::of_value(&other),
                    },
                ),
            ),
        }
    }

    /// Resolution against a double reader schema.
    fn resolve_double(self) -> (r: Result<Value, SchemaResolutionError>)
        ensures
            result_model(r) == resolve_double_m(self@),
    {
        match self {
            Value::Int(n) => Ok(Value::Double(double_bits_from_int(n as i128))),
            Value::Long(n) => Ok(Value::Double(double_bits_from_int(n as i128))),
            Value::Float(x) => Ok(Value::Double(double_bits_from_single(x))),
            Value::Double(x) => Ok(Value::Double(x)),
            other => Err(
                SchemaResolutionError::new(
                    ResolutionErrorKind::KindMismatch {
                        expected: SchemaKind::Double,
                        actual: SchemaKind::of_value(&other),
                    },
                ),
            ),
        }
    }

    /// Resolution against a bytes reader schema: text converts to its
    /// UTF-8 bytes.
    fn resolve_bytes(self) -> (r: Result<Value, SchemaResolutionError>)
        ensures
            result_model(r) == resolve_bytes_m(self@),
    {
        match self {
            Value::Bytes(bytes) => Ok(Value::Bytes(bytes)),
            Value::String(s) => {
                let b = vstd::slice::slice_to_vec(s.as_str().as_bytes());
                proof {
                    assert(b@ =~= encode_utf8(s@));
                }
                Ok(Value::Bytes(b))
            },
            other => Err(
                SchemaResolutionError::new(
                    ResolutionErrorKind::KindMismatch {
                        expected: SchemaKind::Bytes,
                        actual: SchemaKind::of_value(&other),
                    },
                ),
            ),
        }
    }

    /// Resolution against a string reader schema: UTF-8 bytes convert,
    /// other bytes fail.
    fn resolve_string(self) -> (r: Result<Value, SchemaResolutionError>)
        ensures
            result_model(r) == resolve_string_m(self@),
    {
        match self {
            Value::String(s) => Ok(Value::String(s)),
            Value::Bytes(bytes) => {
                let ghost bm = bytes@;
                match utf8_to_string(bytes) {
                    Some(s) => {
                        proof {
                            broadcast use vstd::utf8::encode_utf8_decode_utf8;

                            assert(decode_utf8(bm) == s@);
                        }
                        Ok(Value::String(s))
                    },
                    None => Err(
                        SchemaResolutionError::new(ResolutionErrorKind::Utf8ConversionFailure),
                    ),
                }
            },
            other => Err(
                SchemaResolutionError::new(
                    ResolutionErrorKind::KindMismatch {
                        expected: SchemaKind::String,
                        actual: SchemaKind::of_value(&other),
                    },
                ),
            ),
        }
    }

    /// Resolution against a fixed reader schema of the given size.
    fn resolve_fixed(self, size: usize) -> (r: Result<Value, SchemaResolutionError>)
        ensures
            result_model(r) == resolve_fixed_m(self@, size as nat),
    {
        match self {
            Value::Fixed(n, bytes) => {
                if n == size {
                    Ok(Value::Fixed(n, bytes))
                } else {
                    Err(SchemaResolutionError::new(ResolutionErrorKind::FixedSizeMismatch))
                }
            },
            other => Err(
                SchemaResolutionError::new(
                    ResolutionErrorKind::KindMismatch {
                        expected: SchemaKind::Fixed,
                        actual: SchemaKind::of_value(&other),
                    },
                ),
            ),
        }
    }

    /// Resolution against an enum reader schema: the result carries the
    /// index re-derived from the reader's symbol list.
    fn resolve_enum(self, symbols: &Vec<String>) -> (r: Result<Value, SchemaResolutionError>)
        ensures
            result_model(r) == resolve_enum_m(self@, crate::validate::symbols_of(symbols@)),
    {
        match self {
            Value::Enum(i, t) => {
                if i >= 0 && (i as usize) < symbols.len() {
                    resolve_symbol(t, symbols)
                } else {
                    Err(SchemaResolutionError::new(ResolutionErrorKind::EnumIndexOutOfRange))
                }
            },
            Value::String(t) => resolve_symbol(t, symbols),
            other => Err(
                SchemaResolutionError::new(
                    ResolutionErrorKind::KindMismatch {
                        expected: SchemaKind::Enum,
                        actual: SchemaKind::of_value(&other),
                    },
                ),
            ),
        }
    }
}

} // verus!

verus! {

/// The last value written under `name` among the first `j` entries,
/// copied out.
fn lookup_written_exec(items: &Vec<(String, Value)>, j: usize, name: &String) -> (r: Option<Value>)
    requires
        j <= items@.len(),
    ensures
        match r {
            Some(w) => lookup_written(pairs_model(items@).take(j as int), name@) == Some(
                value_model(w),
            ),
            None => lookup_written(pairs_model(items@).take(j as int), name@) is None,
        },
    decreases j,
{
    proof {
        broadcast use crate::types::lemma_pairs_model_len, crate::types::lemma_pairs_model_index;

    }
    if j == 0 {
        proof {
            assert(pairs_model(items@).take(0).len() == 0);
        }
        None
    } else {
        proof {
            assert(pairs_model(items@).take(j as int).last() == (
                items@[j - 1].0@,
                value_model(items@[j - 1].1),
            ));
            assert(pairs_model(items@).take(j as int).drop_last() =~= pairs_model(items@).take(
                j as int - 1,
            ));
        }
        if items[j - 1].0.eq(name) {
            Some(items[j - 1].1.clone())
        } else {
            lookup_written_exec(items, j - 1, name)
        }
    }
}

/// The value a reader field starts from: written, defaulted, or missing.
fn field_source(items: &Vec<(String, Value)>, f: &crate::schema::RecordField) -> (r: Result<
    Value,
    SchemaResolutionError,
>)
    ensures
        match r {
            Ok(w) => field_source_m(pairs_model(items@), f@) == Ok::<ValueM, ResolutionErrorKind>(value_model(w)),
            Err(e) => field_source_m(pairs_model(items@), f@) == Err::<ValueM, ResolutionErrorKind>(e.kind),
        },
{
    proof {
        assert(pairs_model(items@).take(pairs_model(items@).len() as int) =~= pairs_model(items@));
        broadcast use crate::types::lemma_pairs_model_len;

    }
    match lookup_written_exec(items, items.len(), &f.name) {
        Some(w) => Ok(w),
        None => match &f.default {
            Some(j) => {
                let dv = crate::types::json_convert(j);
                match &*f.schema {
                    SchemaTree::Enum { symbols, .. } => {
                        proof {
                            assert(f@.schema->Enum_symbols =~= crate::validate::symbols_of(
                                symbols@,
                            ));
                        }
                        dv.resolve_enum(symbols)
                    },
                    _ => Ok(dv),
                }
            },
            None => Err(SchemaResolutionError::new(ResolutionErrorKind::MissingField)),
        },
    }
}

impl Value {
    /// Attempt to perform schema resolution on the value against a reader
    /// schema, with the context resolving its named references.
    pub fn resolve(self, schema: &Arc<SchemaTree>, context: &mut SchemaParseContext) -> (r: Result<
        Value,
        SchemaResolutionError,
    >)
        ensures
            ({
                let m = resolve_m(self@, schema@, old(context)@, u64::MAX as nat);
                result_model(r) == m.0 && final(context)@ == m.1
            }),
    {
        self.resolve_fueled(&**schema, context, u64::MAX)
    }

    /// Resolution with explicit recursion fuel; a chain of references and
    /// defaults deeper than the fuel reports a depth error.
    fn resolve_fueled(
        self,
        schema: &SchemaTree,
        context: &mut SchemaParseContext,
        fuel: u64,
    ) -> (r: Result<Value, SchemaResolutionError>)
        ensures
            ({
                let m = resolve_m(self@, schema@, old(context)@, fuel as nat);
                result_model(r) == m.0 && final(context)@ == m.1
            }),
        decreases fuel, 2int, 0int,
    {
        if fuel == 0 {
            return Err(SchemaResolutionError::new(ResolutionErrorKind::DepthLimitExceeded));
        }
        let ghost v0 = self@;
        let vkind = SchemaKind::of_value(&self);
        let skind = SchemaKind::of_schema(schema);
        let v1 = if vkind == SchemaKind::Union && skind != SchemaKind::Union {
            match self {
                Value::Union(b) => *b,
                other => other,
            }
        } else {
            self
        };
        proof {
            assert(v1@ == unwrap_for(v0, schema@));
        }
        match schema {
            SchemaTree::Null => v1.resolve_null(),
            SchemaTree::Boolean => v1.resolve_boolean(),
            SchemaTree::Int => v1.resolve_int(),
            SchemaTree::Long => v1.resolve_long(),
            SchemaTree::Float => v1.resolve_float(),
            SchemaTree::Double => v1.resolve_double(),
            SchemaTree::Bytes => v1.resolve_bytes(),
            SchemaTree::String => v1.resolve_string(),
            SchemaTree::Fixed { size, .. } => v1.resolve_fixed(*size),
            SchemaTree::Enum { symbols, .. } => {
                proof {
                    assert(schema@->Enum_symbols =~= crate::validate::symbols_of(symbols@));
                }
                v1.resolve_enum(symbols)
            },
            SchemaTree::Union(u) => v1.resolve_union(u, context, fuel),
            SchemaTree::Array(elem) => match v1 {
                Value::Array(items) => {
                    let rr = resolve_items(&items, 0, &**elem, context, fuel);
                    proof {
                        assert(values_model(items@).skip(0) =~= values_model(items@));
                    }
                    match rr {
                        Ok(ws) => Ok(Value::Array(ws)),
                        Err(e) => Err(e),
                    }
                },
                other => Err(
                    SchemaResolutionError::new(
                        ResolutionErrorKind::KindMismatch {
                            expected: SchemaKind::Array,
                            actual: SchemaKind::of_value(&other),
                        },
                    ),
                ),
            },
            SchemaTree::Mapping(val) => match v1 {
                Value::Mapping(entries) => {
                    let rr = resolve_entries(&entries, 0, &**val, context, fuel);
                    proof {
                        assert(pairs_model(entries@).skip(0) =~= pairs_model(entries@));
                    }
                    match rr {
                        Ok(ws) => Ok(Value::Mapping(ws)),
                        Err(e) => Err(e),
                    }
                },
                other => Err(
                    SchemaResolutionError::new(
                        ResolutionErrorKind::KindMismatch {
                            expected: SchemaKind::Mapping,
                            actual: SchemaKind::of_value(&other),
                        },
                    ),
                ),
            },
            SchemaTree::Record { fields, .. } => match v1 {
                Value::Mapping(items) => {
                    let rr = resolve_fields(&items, fields, 0, context, fuel);
                    proof {
                        let fm = crate::schema::fields_model(fields@);
                        assert(fm.skip(0) =~= fm);
                        let mf = resolve_fields_m(
                            pairs_model(items@),
                            fm,
                            old(context)@,
                            fuel as nat,
                        );
                        assert(resolve_record_m(pairs_model(items@), fm, old(context)@, fuel as nat)
                            == (
                        match mf.0 {
                            Ok(ws) => Ok::<ValueM, ResolutionErrorKind>(ValueM::Record(ws)),
                            Err(e) => Err::<ValueM, ResolutionErrorKind>(e),
                        },
                        mf.1,
                        ));
                    }
                    match rr {
                        Ok(ws) => Ok(Value::Record(ws)),
                        Err(e) => Err(e),
                    }
                },
                Value::Record(rf) => {
                    let rr = resolve_fields(&rf, fields, 0, context, fuel);
                    proof {
                        let fm = crate::schema::fields_model(fields@);
                        assert(fm.skip(0) =~= fm);
                        let mf = resolve_fields_m(
                            pairs_model(rf@),
                            fm,
                            old(context)@,
                            fuel as nat,
                        );
                        assert(resolve_record_m(pairs_model(rf@), fm, old(context)@, fuel as nat)
                            == (
                        match mf.0 {
                            Ok(ws) => Ok::<ValueM, ResolutionErrorKind>(ValueM::Record(ws)),
                            Err(e) => Err::<ValueM, ResolutionErrorKind>(e),
                        },
                        mf.1,
                        ));
                    }
                    match rr {
                        Ok(ws) => Ok(Value::Record(ws)),
                        Err(e) => Err(e),
                    }
                },
                other => Err(
                    SchemaResolutionError::new(
                        ResolutionErrorKind::KindMismatch {
                            expected: SchemaKind::Record,
                            actual: SchemaKind::of_value(&other),
                        },
                    ),
                ),
            },
            SchemaTree::TypeReference(n) => match context.lookup_type(n) {
                Some(node) => v1.resolve_fueled(&*node, context, fuel - 1),
                None => Err(SchemaResolutionError::new(ResolutionErrorKind::UnresolvedReference)),
            },
        }
    }

    /// Resolution into the first branch of the reader union that
    /// structurally accepts the value.
    fn resolve_union(
        self,
        u: &crate::schema::UnionSchema,
        context: &mut SchemaParseContext,
        fuel: u64,
    ) -> (r: Result<Value, SchemaResolutionError>)
        requires
            fuel >= 1,
        ensures
            ({
                let m = resolve_union_m(self@, u@, old(context)@, fuel as nat);
                result_model(r) == m.0 && final(context)@ == m.1
            }),
        decreases fuel, 1int, 0int,
    {
        let ghost v0 = self@;
        let v2 = match self {
            Value::Union(b) => *b,
            other => other,
        };
        let budget = context.types.len() as u64;
        proof {
            assert(budget as nat == default_budget(context@));
        }
        let found = u.find_schema(&v2, context, budget);
        match found {
            Some((_, branch)) => v2.resolve_fueled(&*branch, context, fuel - 1),
            None => Err(SchemaResolutionError::new(ResolutionErrorKind::UnionBranchNotFound)),
        }
    }
}

/// Resolution of the elements from `i` on against the element schema.
fn resolve_items(
    items: &Vec<Value>,
    i: usize,
    elem: &SchemaTree,
    context: &mut SchemaParseContext,
    fuel: u64,
) -> (r: Result<Vec<Value>, SchemaResolutionError>)
    requires
        i <= items@.len(),
        fuel >= 1,
    ensures
        ({
            let m = resolve_items_m(
                values_model(items@).skip(i as int),
                schema_model(*elem),
                old(context)@,
                fuel as nat,
            );
            final(context)@ == m.1 && match r {
                Ok(ws) => m.0 == Ok::<Seq<ValueM>, ResolutionErrorKind>(values_model(ws@)),
                Err(e) => m.0 == Err::<Seq<ValueM>, ResolutionErrorKind>(e.kind),
            }
        }),
    decreases fuel, 1int, items@.len() - i,
{
    proof {
        broadcast use crate::types::lemma_values_model_len, crate::types::lemma_values_model_index;

    }
    if i == items.len() {
        let out: Vec<Value> = Vec::new();
        proof {
            assert(values_model(items@).skip(i as int).len() == 0);
            assert(values_model(out@) =~= Seq::<ValueM>::empty());
        }
        Ok(out)
    } else {
        proof {
            assert(values_model(items@).skip(i as int)[0] == value_model(items@[i as int]));
            assert(values_model(items@).skip(i as int).drop_first() =~= values_model(items@).skip(
                i as int + 1,
            ));
        }
        let head = items[i].clone();
        match head.resolve_fueled(elem, context, fuel - 1) {
            Err(e) => Err(e),
            Ok(w) => {
                let ghost wm = value_model(w);
                match resolve_items(items, i + 1, elem, context, fuel) {
                    Err(e) => Err(e),
                    Ok(ws) => {
                        let ghost wsm = values_model(ws@);
                        let mut out = ws;
                        out.insert(0, w);
                        proof {
                            assert(out@.drop_first() =~= out@.skip(1));
                            assert(out@[0] == w);
                            assert(values_model(out@) =~= seq![wm] + wsm);
                        }
                        Ok(out)
                    },
                }
            },
        }
    }
}

} // verus!

verus! {

/// Resolution of the entries from `i` on: values against the value
/// schema, keys unchanged.
fn resolve_entries(
    entries: &Vec<(String, Value)>,
    i: usize,
    val: &SchemaTree,
    context: &mut SchemaParseContext,
    fuel: u64,
) -> (r: Result<Vec<(String, Value)>, SchemaResolutionError>)
    requires
        i <= entries@.len(),
        fuel >= 1,
    ensures
        ({
            let m = resolve_entries_m(
                pairs_model(entries@).skip(i as int),
                schema_model(*val),
                old(context)@,
                fuel as nat,
            );
            final(context)@ == m.1 && match r {
                Ok(ws) => m.0 == Ok::<Seq<(Seq<char>, ValueM)>, ResolutionErrorKind>(pairs_model(ws@)),
                Err(e) => m.0 == Err::<Seq<(Seq<char>, ValueM)>, ResolutionErrorKind>(e.kind),
            }
        }),
    decreases fuel, 1int, entries@.len() - i,
{
    proof {
        broadcast use crate::types::lemma_pairs_model_len, crate::types::lemma_pairs_model_index;

    }
    if i == entries.len() {
        let out: Vec<(String, Value)> = Vec::new();
        proof {
            assert(pairs_model(entries@).skip(i as int).len() == 0);
            assert(pairs_model(out@) =~= Seq::<(Seq<char>, ValueM)>::empty());
        }
        Ok(out)
    } else {
        proof {
            assert(pairs_model(entries@).skip(i as int)[0] == (
                entries@[i as int].0@,
                value_model(entries@[i as int].1),
            ));
            assert(pairs_model(entries@).skip(i as int).drop_first() =~= pairs_model(entries@).skip(
                i as int + 1,
            ));
        }
        let key = entries[i].0.clone();
        let head = entries[i].1.clone();
        match head.resolve_fueled(val, context, fuel - 1) {
            Err(e) => Err(e),
            Ok(w) => {
                let ghost wm = value_model(w);
                let ghost km = key@;
                match resolve_entries(entries, i + 1, val, context, fuel) {
                    Err(e) => Err(e),
                    Ok(ws) => {
                        let ghost wsm = pairs_model(ws@);
                        let mut out = ws;
                        out.insert(0, (key, w));
                        proof {
                            assert(out@.drop_first() =~= out@.skip(1));
                            assert(out@[0].0@ == km && value_model(out@[0].1) == wm);
                            assert(pairs_model(out@) =~= seq![(km, wm)] + wsm);
                        }
                        Ok(out)
                    },
                }
            },
        }
    }
}

/// Resolution of the reader fields from `fi` on, in reader order.
fn resolve_fields(
    items: &Vec<(String, Value)>,
    fields: &Vec<crate::schema::RecordField>,
    fi: usize,
    context: &mut SchemaParseContext,
    fuel: u64,
) -> (r: Result<Vec<(String, Value)>, SchemaResolutionError>)
    requires
        fi <= fields@.len(),
        fuel >= 1,
    ensures
        ({
            let m = resolve_fields_m(
                pairs_model(items@),
                crate::schema::fields_model(fields@).skip(fi as int),
                old(context)@,
                fuel as nat,
            );
            final(context)@ == m.1 && match r {
                Ok(ws) => m.0 == Ok::<Seq<(Seq<char>, ValueM)>, ResolutionErrorKind>(pairs_model(ws@)),
                Err(e) => m.0 == Err::<Seq<(Seq<char>, ValueM)>, ResolutionErrorKind>(e.kind),
            }
        }),
    decreases fuel, 1int, fields@.len() - fi,
{
    proof {
        broadcast use
            crate::types::lemma_pairs_model_len,
            crate::types::lemma_pairs_model_index,
            crate::schema::lemma_fields_model_len,
            crate::schema::lemma_fields_model_index,
        ;

    }
    if fi == fields.len() {
        let out: Vec<(String, Value)> = Vec::new();
        proof {
            assert(crate::schema::fields_model(fields@).skip(fi as int).len() == 0);
            assert(pairs_model(out@) =~= Seq::<(Seq<char>, ValueM)>::empty());
        }
        Ok(out)
    } else {
        proof {
            assert(crate::schema::fields_model(fields@).skip(fi as int)[0]
                == crate::schema::field_model(fields@[fi as int]));
            assert(crate::schema::fields_model(fields@).skip(fi as int).drop_first()
                =~= crate::schema::fields_model(fields@).skip(fi as int + 1));
        }
        match field_source(items, &fields[fi]) {
            Err(e) => Err(e),
            Ok(w0) => {
                match w0.resolve_fueled(&*fields[fi].schema, context, fuel - 1) {
                    Err(e) => Err(e),
                    Ok(w) => {
                        let ghost wm = value_model(w);
                        let key = fields[fi].name.clone();
                        let ghost km = key@;
                        match resolve_fields(items, fields, fi + 1, context, fuel) {
                            Err(e) => Err(e),
                            Ok(ws) => {
                                let ghost wsm = pairs_model(ws@);
                                let mut out = ws;
                                out.insert(0, (key, w));
                                proof {
                                    assert(out@.drop_first() =~= out@.skip(1));
                                    assert(out@[0].0@ == km && value_model(out@[0].1) == wm);
                                    assert(pairs_model(out@) =~= seq![(km, wm)] + wsm);
                                }
                                Ok(out)
                            },
                        }
                    },
                }
            },
        }
    }
}

} // verus!
