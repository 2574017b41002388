//! The schema-guided binary encoder. It does not validate: a subtree whose
//! value does not match the schema contributes no bytes, so callers
//! validate first. The specification gives the exact bytes written for
//! every value and schema.
use vstd::prelude::*;

use crate::schema::{lookup_m, schema_model, CtxM, FieldM, SchemaM, SchemaParseContext, SchemaTree};
use crate::types::{
    lemma_pairs_model_index, lemma_pairs_model_len, lemma_values_model_index,
    lemma_values_model_len, pairs_model, value_model, values_model, Value, ValueM,
};
use crate::validate::{default_budget, find_branch_m};
use crate::varint::{varint_seq, write_long, zigzag64};
use vstd::utf8::encode_utf8;

verus! {

/// The little-endian bytes of a 32-bit pattern.
pub open spec fn le_bytes32(bits: u32) -> Seq<u8> {
    seq![
        (bits % 256) as u8,
        ((bits / 256) % 256) as u8,
        ((bits / 0x10000) % 256) as u8,
        ((bits / 0x1000000) % 256) as u8,
    ]
}

/// The little-endian bytes of a 64-bit pattern.
pub open spec fn le_bytes64(bits: u64) -> Seq<u8> {
    seq![
        (bits % 256) as u8,
        ((bits / 256) % 256) as u8,
        ((bits / 0x10000) % 256) as u8,
        ((bits / 0x1000000) % 256) as u8,
        ((bits / 0x100000000) % 256) as u8,
        ((bits / 0x10000000000) % 256) as u8,
        ((bits / 0x1000000000000) % 256) as u8,
        ((bits / 0x100000000000000) % 256) as u8,
    ]
}

/// The zig-zag varint encoding of a signed 64-bit integer.
pub open spec fn long_bytes(n: i64) -> Seq<u8> {
    varint_seq(zigzag64(n))
}

/// The first position of `t` in the symbol list, if any.
pub open spec fn first_index(symbols: Seq<Seq<char>>, t: Seq<char>) -> Option<int>
    decreases symbols,
{
    if symbols.len() == 0 {
        None
    } else if symbols[0] == t {
        Some(0)
    } else {
        match first_index(symbols.drop_first(), t) {
            Some(i) => Some(i + 1),
            None => None,
        }
    }
}

/// Whether every length the encoder writes as a prefix fits the signed
/// 64-bit length field of the wire format.
pub open spec fn sizes_ok(v: ValueM) -> bool
    decreases v,
{
    match v {
        ValueM::Bytes(b) => b.len() <= i64::MAX,
        ValueM::String(s) => encode_utf8(s).len() <= i64::MAX,
        ValueM::Union(inner) => sizes_ok(*inner),
        ValueM::Array(items) => items.len() <= i64::MAX && seq_sizes_ok(items),
        ValueM::Mapping(entries) => entries.len() <= i64::MAX && entry_sizes_ok(entries),
        ValueM::Record(rf) => pair_sizes_ok(rf),
        _ => true,
    }
}

/// Every element's lengths fit.
pub open spec fn seq_sizes_ok(items: Seq<ValueM>) -> bool
    decreases items,
{
    items.len() == 0 || (sizes_ok(items[0]) && seq_sizes_ok(items.drop_first()))
}

/// Every entry's key and value lengths fit.
pub open spec fn entry_sizes_ok(entries: Seq<(Seq<char>, ValueM)>) -> bool
    decreases entries,
{
    entries.len() == 0 || (encode_utf8(entries[0].0).len() <= i64::MAX && sizes_ok(entries[0].1)
        && entry_sizes_ok(entries.drop_first()))
}

/// Every field value's lengths fit.
pub open spec fn pair_sizes_ok(rf: Seq<(Seq<char>, ValueM)>) -> bool
    decreases rf,
{
    rf.len() == 0 || (sizes_ok(rf[0].1) && pair_sizes_ok(rf.drop_first()))
}

/// The bytes the encoder writes for `v` against `s`, and the context
/// after the traversal. A subtree whose value does not match the schema
/// contributes no bytes; a union whose inner value no branch accepts
/// contributes no bytes as well.
pub open spec fn encode_m(v: ValueM, s: SchemaM, ctx: CtxM) -> (Seq<u8>, CtxM)
    decreases v, 0int,
{
    match v {
        ValueM::Null => (Seq::empty(), ctx),
        ValueM::Boolean(b) => (
            seq![
                if b {
                    1u8
                } else {
                    0u8
                },
            ],
            ctx,
        ),
        ValueM::Int(n) => (long_bytes(n as i64), ctx),
        ValueM::Long(n) => (long_bytes(n), ctx),
        ValueM::Float(bits) => (le_bytes32(bits), ctx),
        ValueM::Double(bits) => (le_bytes64(bits), ctx),
        ValueM::Bytes(b) => (long_bytes(b.len() as i64) + b, ctx),
        ValueM::String(t) => (string_bytes_m(t, s), ctx),
        ValueM::Fixed(_, b) => (b, ctx),
        ValueM::Enum(i, _) => (long_bytes(i as i64), ctx),
        ValueM::Union(item) => encode_union_m(*item, s, ctx),
        ValueM::Array(items) => encode_array_m(items, s, ctx),
        ValueM::Mapping(entries) => encode_mapping_m(entries, s, ctx),
        ValueM::Record(rf) => encode_record_m(rf, s, ctx),
    }
}

/// The bytes of a text value: length-prefixed UTF-8 against a string
/// schema, the symbol's position against an enum schema, nothing else.
pub open spec fn string_bytes_m(t: Seq<char>, s: SchemaM) -> Seq<u8> {
    match s {
        SchemaM::String => {
            let b = encode_utf8(t);
            long_bytes(b.len() as i64) + b
        },
        SchemaM::Enum { symbols, .. } => match first_index(symbols, t) {
            Some(i) => if i <= i32::MAX {
                long_bytes(i as i64)
            } else {
                Seq::empty()
            },
            None => Seq::empty(),
        },
        _ => Seq::empty(),
    }
}

/// The bytes of a union value: the index of the first accepting branch,
/// then the inner value against that branch.
pub open spec fn encode_union_m(item: ValueM, s: SchemaM, ctx: CtxM) -> (Seq<u8>, CtxM)
    decreases item, 1int,
{
    match s {
        SchemaM::Union(bs) => {
            let (r, c) = find_branch_m(item, bs, ctx, default_budget(ctx));
            match r {
                Some(idx) => if idx <= i64::MAX {
                    let (body, c2) = encode_m(item, bs[idx], c);
                    (long_bytes(idx as i64) + body, c2)
                } else {
                    (Seq::empty(), c)
                },
                None => (Seq::empty(), c),
            }
        },
        _ => (Seq::empty(), ctx),
    }
}

/// The bytes of an array value: one counted block when non-empty, then
/// the zero terminator.
pub open spec fn encode_array_m(items: Seq<ValueM>, s: SchemaM, ctx: CtxM) -> (Seq<u8>, CtxM)
    decreases items, 1int,
{
    match s {
        SchemaM::Array(elem) => {
            let (body, c) = encode_seq_m(items, *elem, ctx);
            if items.len() == 0 {
                (seq![0u8], c)
            } else {
                (long_bytes(items.len() as i64) + body + seq![0u8], c)
            }
        },
        _ => (Seq::empty(), ctx),
    }
}

/// The bytes of a map value: one counted block of (key, value) pairs
/// when non-empty, then the zero terminator.
pub open spec fn encode_mapping_m(entries: Seq<(Seq<char>, ValueM)>, s: SchemaM, ctx: CtxM) -> (
    Seq<u8>,
    CtxM,
)
    decreases entries, 1int,
{
    match s {
        SchemaM::Mapping(val) => {
            let (body, c) = encode_entries_m(entries, *val, ctx);
            if entries.len() == 0 {
                (seq![0u8], c)
            } else {
                (long_bytes(entries.len() as i64) + body + seq![0u8], c)
            }
        },
        _ => (Seq::empty(), ctx),
    }
}

/// The bytes of a record value: its field values in schema order, against
/// a record schema directly or through one level of reference.
pub open spec fn encode_record_m(rf: Seq<(Seq<char>, ValueM)>, s: SchemaM, ctx: CtxM) -> (
    Seq<u8>,
    CtxM,
)
    decreases rf, 1int,
{
    match s {
        SchemaM::Record { fields, .. } => encode_fields_m(rf, fields, ctx),
        SchemaM::TypeReference(n) => match lookup_m(ctx, n) {
            Some(SchemaM::Record { fields, .. }) => encode_fields_m(rf, fields, ctx),
            _ => (Seq::empty(), ctx),
        },
        _ => (Seq::empty(), ctx),
    }
}

/// The bytes of the elements of one array block, in order.
pub open spec fn encode_seq_m(items: Seq<ValueM>, elem: SchemaM, ctx: CtxM) -> (Seq<u8>, CtxM)
    decreases items, 0int,
{
    if items.len() == 0 {
        (Seq::empty(), ctx)
    } else {
        let (b0, c0) = encode_m(items[0], elem, ctx);
        let (rest, c) = encode_seq_m(items.drop_first(), elem, c0);
        (b0 + rest, c)
    }
}

/// The bytes of the entries of one map block: each key as a string, then
/// its value.
pub open spec fn encode_entries_m(entries: Seq<(Seq<char>, ValueM)>, val: SchemaM, ctx: CtxM) -> (
    Seq<u8>,
    CtxM,
)
    decreases entries, 0int,
{
    if entries.len() == 0 {
        (Seq::empty(), ctx)
    } else {
        let kb = encode_utf8(entries[0].0);
        let (b0, c0) = encode_m(entries[0].1, val, ctx);
        let (rest, c) = encode_entries_m(entries.drop_first(), val, c0);
        (long_bytes(kb.len() as i64) + kb + b0 + rest, c)
    }
}

/// The bytes of a record's field values, each against the schema field at
/// its position, as far as both lists reach.
pub open spec fn encode_fields_m(rf: Seq<(Seq<char>, ValueM)>, fs: Seq<FieldM>, ctx: CtxM) -> (
    Seq<u8>,
    CtxM,
)
    decreases rf, 0int,
{
    if rf.len() == 0 || fs.len() == 0 {
        (Seq::empty(), ctx)
    } else {
        let (b0, c0) = encode_m(rf[0].1, fs[0].schema, ctx);
        let (rest, c) = encode_fields_m(rf.drop_first(), fs.drop_first(), c0);
        (b0 + rest, c)
    }
}

} // verus!

verus! {

/// Append the bytes of a slice.
fn write_bytes(src: &[u8], buf: &mut Vec<u8>)
    ensures
        final(buf)@ == old(buf)@ + src@,
{
    let mut i: usize = 0;
    while i < src.len()
        invariant
            0 <= i <= src@.len(),
            buf@ == old(buf)@ + src@.take(i as int),
        decreases src@.len() - i,
    {
        buf.push(src[i]);
        proof {
            assert(old(buf)@ + src@.take(i as int) + seq![src@[i as int]] =~= old(buf)@
                + src@.take(i as int + 1));
        }
        i = i + 1;
    }
    proof {
        assert(src@.take(src@.len() as int) =~= src@);
    }
}

/// Append the little-endian bytes of a 32-bit pattern.
fn write_le32(bits: u32, buf: &mut Vec<u8>)
    ensures
        final(buf)@ == old(buf)@ + le_bytes32(bits),
{
    buf.push((bits % 256) as u8);
    buf.push(((bits / 256) % 256) as u8);
    buf.push(((bits / 0x10000) % 256) as u8);
    buf.push(((bits / 0x1000000) % 256) as u8);
    proof {
        assert(buf@ =~= old(buf)@ + le_bytes32(bits));
    }
}

/// Append the little-endian bytes of a 64-bit pattern.
fn write_le64(bits: u64, buf: &mut Vec<u8>)
    ensures
        final(buf)@ == old(buf)@ + le_bytes64(bits),
{
    buf.push((bits % 256) as u8);
    buf.push(((bits / 256) % 256) as u8);
    buf.push(((bits / 0x10000) % 256) as u8);
    buf.push(((bits / 0x1000000) % 256) as u8);
    buf.push(((bits / 0x100000000) % 256) as u8);
    buf.push(((bits / 0x10000000000) % 256) as u8);
    buf.push(((bits / 0x1000000000000) % 256) as u8);
    buf.push(((bits / 0x100000000000000) % 256) as u8);
    proof {
        assert(buf@ =~= old(buf)@ + le_bytes64(bits));
    }
}

/// Encode a value into the wire format, guided by (but not validated
/// against) a schema, with a fresh empty context: a value using type
/// references needs [`encode_ref_inner`] with the schema's own context.
///
/// The value is assumed to be valid with regard to the schema; a subtree
/// that does not match contributes no bytes.
pub fn encode(value: &Value, schema: &SchemaTree, buffer: &mut Vec<u8>)
    requires
        sizes_ok(value@),
    ensures
        final(buffer)@ == old(buffer)@ + encode_m(
            value@,
            schema@,
            CtxM { types: Seq::empty(), ns: None },
        ).0,
{
    let mut context = SchemaParseContext::new();
    proof {
        assert(context@.types =~= Seq::<(Seq<char>, SchemaM)>::empty());
        assert(context@ == CtxM { types: Seq::empty(), ns: None::<Seq<char>> });
    }
    encode_ref_inner(value, schema, buffer, &mut context);
}

/// Encode a value to a fresh byte vector, with a fresh empty context.
pub fn encode_to_vec(value: &Value, schema: &SchemaTree) -> (r: Vec<u8>)
    requires
        sizes_ok(value@),
    ensures
        r@ == encode_m(value@, schema@, CtxM { types: Seq::empty(), ns: None }).0,
{
    let mut buffer = Vec::new();
    encode(value, schema, &mut buffer);
    proof {
        assert(Seq::<u8>::empty() + encode_m(
            value@,
            schema@,
            CtxM { types: Seq::empty(), ns: None::<Seq<char>> },
        ).0 =~= encode_m(value@, schema@, CtxM { types: Seq::empty(), ns: None::<Seq<char>> }).0);
    }
    buffer
}

/// Encode a value against a schema node, reading and updating the given
/// context, and appending exactly the bytes of [`encode_m`].
#[verifier::rlimit(100)]
pub fn encode_ref_inner(
    value: &Value,
    schema: &SchemaTree,
    buffer: &mut Vec<u8>,
    context: &mut SchemaParseContext,
)
    requires
        sizes_ok(value@),
    ensures
        ({
            let m = encode_m(value@, schema@, old(context)@);
            final(buffer)@ == old(buffer)@ + m.0 && final(context)@ == m.1
        }),
    decreases value, 2int,
{
    match (value, schema) {
        (Value::Null, _) => {},
        (Value::Boolean(b), _) => {
            buffer.push(if *b {
                1u8
            } else {
                0u8
            });
            proof {
                assert(buffer@ =~= old(buffer)@ + encode_m(value@, schema@, old(context)@).0);
            }
        },
        (Value::Int(n), _) => {
            crate::varint::write_int(*n, buffer);
        },
        (Value::Long(n), _) => {
            write_long(*n, buffer);
        },
        (Value::Float(bits), _) => {
            write_le32(*bits, buffer);
        },
        (Value::Double(bits), _) => {
            write_le64(*bits, buffer);
        },
        (Value::Bytes(b), _) => {
            write_len_and_bytes(b.as_slice(), buffer);
        },
        (Value::String(t), SchemaTree::String) => {
            write_len_and_bytes(t.as_str().as_bytes(), buffer);
        },
        (Value::String(t), SchemaTree::Enum { symbols, .. }) => {
            proof {
                assert(schema@->Enum_symbols =~= crate::validate::symbols_of(symbols@));
            }
            write_symbol_index(symbols, t, buffer);
        },
        (Value::String(_), _) => {},
        (Value::Fixed(_, b), _) => {
            write_bytes(b.as_slice(), buffer);
        },
        (Value::Enum(i, _), _) => {
            crate::varint::write_int(*i, buffer);
        },
        (Value::Union(item), SchemaTree::Union(u)) => {
            proof {
                assert(decreases_to!(*value => **item));
            }
            encode_union_value(value, item, u, buffer, context);
        },
        (Value::Union(_), _) => {},
        (Value::Array(items), SchemaTree::Array(elem)) => {
            proof {
                assert(decreases_to!(*value => items@));
            }
            encode_array_items(value, items, &**elem, buffer, context);
        },
        (Value::Array(_), _) => {},
        (Value::Mapping(entries), SchemaTree::Mapping(val)) => {
            proof {
                assert(decreases_to!(*value => entries@));
            }
            encode_map_entries(value, entries, &**val, buffer, context);
        },
        (Value::Mapping(_), _) => {},
        (Value::Record(rf), SchemaTree::Record { fields, .. }) => {
            encode_record_fields(value, rf, fields, buffer, context);
            proof {
                broadcast use crate::schema::lemma_fields_model_len;

            }
        },
        (Value::Record(rf), SchemaTree::TypeReference(n)) => {
            let resolved = context.lookup_type(n);
            match resolved {
                Some(node) => match &*node {
                    SchemaTree::Record { fields, .. } => {
                        encode_record_fields(value, rf, fields, buffer, context);
                    },
                    _ => {},
                },
                None => {},
            }
        },
        (Value::Record(_), _) => {},
    }
}

/// Append a length-prefixed byte section: the byte count as a zig-zag
/// varint, then the bytes.
fn write_len_and_bytes(src: &[u8], buf: &mut Vec<u8>)
    requires
        src@.len() <= i64::MAX,
    ensures
        final(buf)@ == old(buf)@ + (long_bytes(src@.len() as i64) + src@),
{
    write_long(src.len() as i64, buf);
    write_bytes(src, buf);
    proof {
        assert(buf@ =~= old(buf)@ + (long_bytes(src@.len() as i64) + src@));
    }
}

/// Append the position of a symbol in the symbol list, zig-zag varint
/// encoded, and nothing when the symbol is not there.
fn write_symbol_index(symbols: &Vec<String>, t: &String, buf: &mut Vec<u8>)
    ensures
        final(buf)@ == old(buf)@ + (match first_index(crate::validate::symbols_of(symbols@), t@) {
            Some(i) => if i <= i32::MAX {
                long_bytes(i as i64)
            } else {
                Seq::empty()
            },
            None => Seq::empty(),
        }),
{
    let ghost syms = crate::validate::symbols_of(symbols@);
    let hit = crate::validate::find_symbol(symbols, t);
    proof {
        match hit {
            Some(i) => {
                lemma_first_index_found(syms, t@, i as int);
            },
            None => {
                lemma_first_index_missing(syms, t@);
            },
        }
    }
    match hit {
        Some(i) => {
            if i <= (i32::MAX as usize) {
                crate::varint::write_int(i as i32, buf);
            }
        },
        None => {},
    }
}

/// Encode a union value: the 0-based index of the first branch that
/// structurally accepts the inner value, then the inner value against
/// that branch.
#[verifier::rlimit(100)]
fn encode_union_value(
    value: &Value,
    item: &Box<Value>,
    u: &crate::schema::UnionSchema,
    buffer: &mut Vec<u8>,
    context: &mut SchemaParseContext,
)
    requires
        sizes_ok(value_model(**item)),
        decreases_to!(*value => **item),
    ensures
        ({
            let m = encode_union_m(value_model(**item), SchemaM::Union(u@), old(context)@);
            final(buffer)@ == old(buffer)@ + m.0 && final(context)@ == m.1
        }),
    decreases value, 1int,
{
    let budget = context.types.len() as u64;
    proof {
        assert(budget as nat == default_budget(context@));
    }
    let found = u.find_schema(&*item, context, budget);
    let ghost midctx = context@;
    let ghost fm = find_branch_m(
        value_model(**item),
        u@,
        old(context)@,
        default_budget(old(context)@),
    );
    match found {
        Some((idx, branch)) => {
            proof {
                assert(fm == (Some(idx as int), midctx));
            }
            if (idx as u64) <= (i64::MAX as u64) {
                encode_union_tail(value, item, idx, &branch, buffer, context);
                proof {
                    lemma_union_assembly(
                        value_model(**item),
                        u@,
                        old(context)@,
                        idx as int,
                        branch@,
                        midctx,
                        old(buffer)@,
                        buffer@,
                        context@,
                    );
                }
            } else {
                proof {
                    assert(encode_union_m(value_model(**item), SchemaM::Union(u@), old(context)@)
                        == (Seq::<u8>::empty(), midctx));
                    assert(buffer@ =~= old(buffer)@ + Seq::<u8>::empty());
                }
            }
        },
        None => {
            proof {
                assert(fm == (None::<int>, midctx));
                assert(encode_union_m(value_model(**item), SchemaM::Union(u@), old(context)@) == (
                    Seq::<u8>::empty(),
                    midctx,
                ));
                assert(buffer@ =~= old(buffer)@ + Seq::<u8>::empty());
            }
        },
    }
}

/// Append the chosen branch index, then the inner value against the
/// branch schema.
fn encode_union_tail(
    value: &Value,
    item: &Box<Value>,
    idx: usize,
    branch: &std::sync::Arc<SchemaTree>,
    buffer: &mut Vec<u8>,
    context: &mut SchemaParseContext,
)
    requires
        idx <= i64::MAX,
        sizes_ok(value_model(**item)),
        decreases_to!(*value => **item),
    ensures
        ({
            let body = encode_m(value_model(**item), schema_model(**branch), old(context)@);
            final(buffer)@ == old(buffer)@ + long_bytes(idx as i64) + body.0 && final(context)@
                == body.1
        }),
    decreases value, 0int,
{
    write_long(idx as i64, buffer);
    encode_ref_inner(&*item, &**branch, buffer, context);
}

/// Assembles the union arm's bytes: when the first accepting branch is
/// `idx` and the branch body was appended after the index, the whole is
/// the union encoding.
proof fn lemma_union_assembly(
    item: ValueM,
    bs: Seq<SchemaM>,
    ctx0: CtxM,
    idx: int,
    branchm: SchemaM,
    mid: CtxM,
    pre: Seq<u8>,
    after: Seq<u8>,
    cend: CtxM,
)
    requires
        find_branch_m(item, bs, ctx0, default_budget(ctx0)) == (Some(idx), mid),
        0 <= idx <= i64::MAX,
        branchm == bs[idx],
        after == pre + long_bytes(idx as i64) + encode_m(item, branchm, mid).0,
        cend == encode_m(item, branchm, mid).1,
    ensures
        ({
            let m = encode_union_m(item, SchemaM::Union(bs), ctx0);
            after == pre + m.0 && cend == m.1
        }),
{
    let body = encode_m(item, branchm, mid);
    assert(encode_union_m(item, SchemaM::Union(bs), ctx0) == (
        long_bytes(idx as i64) + body.0,
        body.1,
    ));
    assert(pre + (long_bytes(idx as i64) + body.0) =~= pre + long_bytes(idx as i64) + body.0);
}

/// Encode an array value as blocks: one counted block when non-empty,
/// then the zero terminator.
fn encode_array_items(
    value: &Value,
    items: &Vec<Value>,
    elem: &SchemaTree,
    buffer: &mut Vec<u8>,
    context: &mut SchemaParseContext,
)
    requires
        value_model(*value) == ValueM::Array(values_model(items@)),
        sizes_ok(value_model(*value)),
        decreases_to!(*value => items@),
    ensures
        ({
            let m = encode_array_m(
                values_model(items@),
                SchemaM::Array(Box::new(schema_model(*elem))),
                old(context)@,
            );
            final(buffer)@ == old(buffer)@ + m.0 && final(context)@ == m.1
        }),
    decreases value, 0int,
{
    let ghost whole = encode_seq_m(values_model(items@), elem@, old(context)@);
    if items.len() > 0 {
        write_long(items.len() as i64, buffer);
    }
    let ghost pre = buffer@;
    let mut i: usize = 0;
    proof {
        broadcast use lemma_values_model_len;

        assert(values_model(items@).skip(0) =~= values_model(items@));
        assert(seq_sizes_ok(values_model(items@)));
    }
    while i < items.len()
        invariant
            0 <= i <= items@.len(),
            values_model(items@).len() == items@.len(),
            decreases_to!(*value => items@),
            seq_sizes_ok(values_model(items@).skip(i as int)),
            ({
                let m = encode_seq_m(values_model(items@).skip(i as int), elem@, context@);
                buffer@ + m.0 == pre + whole.0 && m.1 == whole.1
            }),
        decreases items@.len() - i,
    {
        let ghost centry = context@;
        let ghost bentry = buffer@;
        proof {
            broadcast use lemma_values_model_len, lemma_values_model_index;

            assert(values_model(items@).skip(i as int)[0] == value_model(items@[i as int]));
            assert(values_model(items@).skip(i as int).drop_first() =~= values_model(
                items@,
            ).skip(i as int + 1));
            assert(decreases_to!(items@ => items@[i as int]));
        }
        encode_ref_inner(&items[i], elem, buffer, context);
        proof {
            let e0 = encode_m(value_model(items@[i as int]), elem@, centry);
            let mnext = encode_seq_m(values_model(items@).skip(i as int + 1), elem@, context@);
            assert(encode_seq_m(values_model(items@).skip(i as int), elem@, centry) == (
                e0.0 + mnext.0,
                mnext.1,
            ));
            assert(buffer@ + mnext.0 =~= bentry + e0.0 + mnext.0);
            assert(bentry + (e0.0 + mnext.0) =~= bentry + e0.0 + mnext.0);
        }
        i = i + 1;
    }
    buffer.push(0u8);
    proof {
        assert(encode_seq_m(values_model(items@).skip(items@.len() as int), elem@, context@).0
            =~= Seq::<u8>::empty());
        if items@.len() == 0 {
            assert(buffer@ =~= old(buffer)@ + seq![0u8]);
        } else {
            assert(buffer@ =~= old(buffer)@ + (long_bytes(items@.len() as i64) + whole.0
                + seq![0u8]));
        }
    }
}

/// Encode a map value as blocks: one counted block of (key, value) pairs
/// when non-empty, then the zero terminator.
fn encode_map_entries(
    value: &Value,
    entries: &Vec<(String, Value)>,
    val: &SchemaTree,
    buffer: &mut Vec<u8>,
    context: &mut SchemaParseContext,
)
    requires
        value_model(*value) == ValueM::Mapping(pairs_model(entries@)),
        sizes_ok(value_model(*value)),
        decreases_to!(*value => entries@),
    ensures
        ({
            let m = encode_mapping_m(
                pairs_model(entries@),
                SchemaM::Mapping(Box::new(schema_model(*val))),
                old(context)@,
            );
            final(buffer)@ == old(buffer)@ + m.0 && final(context)@ == m.1
        }),
    decreases value, 0int,
{
    let ghost whole = encode_entries_m(pairs_model(entries@), val@, old(context)@);
    if entries.len() > 0 {
        write_long(entries.len() as i64, buffer);
    }
    let ghost pre = buffer@;
    let mut i: usize = 0;
    proof {
        broadcast use lemma_pairs_model_len;

        assert(pairs_model(entries@).skip(0) =~= pairs_model(entries@));
        assert(entry_sizes_ok(pairs_model(entries@)));
    }
    while i < entries.len()
                invariant
                    0 <= i <= entries@.len(),
                    pairs_model(entries@).len() == entries@.len(),
                    decreases_to!(*value => entries@),
                    entry_sizes_ok(pairs_model(entries@).skip(i as int)),
                    ({
                        let m = encode_entries_m(
                            pairs_model(entries@).skip(i as int),
                            val@,
                            context@,
                        );
                        buffer@ + m.0 == pre + whole.0 && m.1 == whole.1
                    }),
                decreases entries@.len() - i,
            {
                let ghost centry = context@;
                let ghost bentry = buffer@;
                proof {
                    broadcast use lemma_pairs_model_len, lemma_pairs_model_index;

                    assert(pairs_model(entries@).skip(i as int)[0] == (
                        entries@[i as int].0@,
                        value_model(entries@[i as int].1),
                    ));
                    assert(pairs_model(entries@).skip(i as int).drop_first() =~= pairs_model(
                        entries@,
                    ).skip(i as int + 1));
                    assert(decreases_to!(entries@ => entries@[i as int]));
                }
                let kb = entries[i].0.as_str().as_bytes();
                write_long(kb.len() as i64, buffer);
                write_bytes(kb, buffer);
                encode_ref_inner(&entries[i].1, val, buffer, context);
                proof {
                    let key = entries@[i as int].0@;
                    let e0 = encode_m(value_model(entries@[i as int].1), val@, centry);
                    let mnext = encode_entries_m(
                        pairs_model(entries@).skip(i as int + 1),
                        val@,
                        context@,
                    );
                    assert(encode_entries_m(pairs_model(entries@).skip(i as int), val@, centry)
                        == (
                        long_bytes(encode_utf8(key).len() as i64) + encode_utf8(key) + e0.0
                            + mnext.0,
                        mnext.1,
                    ));
                    assert(buffer@ + mnext.0 =~= bentry + (long_bytes(encode_utf8(key).len()
                        as i64) + encode_utf8(key) + e0.0 + mnext.0));
                }
                i = i + 1;
            }
    buffer.push(0u8);
    proof {
        assert(encode_entries_m(pairs_model(entries@).skip(entries@.len() as int), val@, context@).0
            =~= Seq::<u8>::empty());
        if entries@.len() == 0 {
            assert(buffer@ =~= old(buffer)@ + seq![0u8]);
        } else {
            assert(buffer@ =~= old(buffer)@ + (long_bytes(entries@.len() as i64) + whole.0
                + seq![0u8]));
        }
    }
}

/// Encode a record's field values, each against the schema field at its
/// position, as far as both lists reach.
fn encode_record_fields(
    value: &Value,
    rf: &Vec<(String, Value)>,
    fields: &Vec<crate::schema::RecordField>,
    buffer: &mut Vec<u8>,
    context: &mut SchemaParseContext,
)
    requires
        value is Record,
        pair_sizes_ok(pairs_model(rf@)),
        decreases_to!(*value => rf@),
    ensures
        ({
            let m = encode_fields_m(
                pairs_model(rf@),
                crate::schema::fields_model(fields@),
                old(context)@,
            );
            final(buffer)@ == old(buffer)@ + m.0 && final(context)@ == m.1
        }),
    decreases value, 0int,
{
    let ghost fsm = crate::schema::fields_model(fields@);
    let ghost whole = encode_fields_m(pairs_model(rf@), fsm, old(context)@);
    let ghost pre = buffer@;
    let mut i: usize = 0;
    proof {
        broadcast use lemma_pairs_model_len, crate::schema::lemma_fields_model_len;

        assert(pairs_model(rf@).skip(0) =~= pairs_model(rf@));
        assert(fsm.skip(0) =~= fsm);
    }
    while i < rf.len() && i < fields.len()
        invariant
            0 <= i <= rf@.len(),
            i <= fields@.len(),
            pairs_model(rf@).len() == rf@.len(),
            fsm == crate::schema::fields_model(fields@),
            fsm.len() == fields@.len(),
            decreases_to!(*value => rf@),
            pair_sizes_ok(pairs_model(rf@).skip(i as int)),
            ({
                let m = encode_fields_m(
                    pairs_model(rf@).skip(i as int),
                    fsm.skip(i as int),
                    context@,
                );
                buffer@ + m.0 == pre + whole.0 && m.1 == whole.1
            }),
        decreases rf@.len() - i,
    {
        let ghost centry = context@;
        let ghost bentry = buffer@;
        proof {
            broadcast use
                lemma_pairs_model_len,
                lemma_pairs_model_index,
                crate::schema::lemma_fields_model_len,
                crate::schema::lemma_fields_model_index,
            ;

            assert(pairs_model(rf@).skip(i as int)[0] == (
                rf@[i as int].0@,
                value_model(rf@[i as int].1),
            ));
            assert(fsm.skip(i as int)[0] == crate::schema::field_model(fields@[i as int]));
            assert(pairs_model(rf@).skip(i as int).drop_first() =~= pairs_model(rf@).skip(
                i as int + 1,
            ));
            assert(fsm.skip(i as int).drop_first() =~= fsm.skip(i as int + 1));
            assert(decreases_to!(rf@ => rf@[i as int]));
        }
        encode_ref_inner(&rf[i].1, &*fields[i].schema, buffer, context);
        proof {
            let e0 = encode_m(
                value_model(rf@[i as int].1),
                crate::schema::field_model(fields@[i as int]).schema,
                centry,
            );
            let mnext = encode_fields_m(
                pairs_model(rf@).skip(i as int + 1),
                fsm.skip(i as int + 1),
                context@,
            );
            assert(encode_fields_m(pairs_model(rf@).skip(i as int), fsm.skip(i as int), centry)
                == (e0.0 + mnext.0, mnext.1));
            assert(buffer@ + mnext.0 =~= bentry + e0.0 + mnext.0);
            assert(bentry + (e0.0 + mnext.0) =~= bentry + e0.0 + mnext.0);
        }
        i = i + 1;
    }
    proof {
        let m = encode_fields_m(pairs_model(rf@).skip(i as int), fsm.skip(i as int), context@);
        assert(m.0 =~= Seq::<u8>::empty());
        assert(buffer@ =~= pre + whole.0);
    }
}

/// The first index found by a forward scan is `first_index`.
pub(crate) proof fn lemma_first_index_found(symbols: Seq<Seq<char>>, t: Seq<char>, i: int)
    requires
        0 <= i < symbols.len(),
        symbols[i] == t,
        forall|j: int| 0 <= j < i ==> symbols[j] != t,
    ensures
        first_index(symbols, t) == Some(i),
    decreases symbols.len(),
{
    if i > 0 {
        lemma_first_index_found(symbols.drop_first(), t, i - 1);
    }
}

/// A scan that finds nothing means `first_index` is `None`.
pub(crate) proof fn lemma_first_index_missing(symbols: Seq<Seq<char>>, t: Seq<char>)
    requires
        forall|j: int| 0 <= j < symbols.len() ==> symbols[j] != t,
    ensures
        first_index(symbols, t) is None,
    decreases symbols.len(),
{
    if symbols.len() > 0 {
        lemma_first_index_missing(symbols.drop_first(), t);
    }
}

} // verus!
