//! The structural validator: whether a value matches a schema, with the
//! ordered first-match rule for unions and name resolution through the
//! context. The specification threads the context through the traversal
//! exactly as the implementation mutates it.
use std::sync::Arc;

use vstd::prelude::*;

use crate::schema::{
    lemma_branches_model_index, lemma_branches_model_len, lookup_m, schema_model, CtxM, FieldM,
    Name, NameM, Schema, SchemaM, SchemaParseContext, SchemaTree, UnionSchema,
};
use crate::types::{
    lemma_pairs_model_index, lemma_pairs_model_len, lemma_values_model_index,
    lemma_values_model_len, pairs_model, value_model, values_model, Value, ValueM,
};
use crate::schema::{fields_model, lemma_fields_model_index, lemma_fields_model_len, share_schema};

verus! {

/// Descending into a named node updates the ambient namespace when the
/// node declares one.
pub open spec fn set_ns(ctx: CtxM, name: NameM) -> CtxM {
    match name.namespace {
        Some(ns) => CtxM { types: ctx.types, ns: Some(ns) },
        None => ctx,
    }
}

/// How many consecutive reference expansions a traversal may follow
/// while standing at one value: one per registered name is always
/// enough, since every registered node is a named node, not a further
/// reference. The budget is restored whenever the traversal descends
/// into a strictly smaller value, so it never bounds how deeply a
/// recursive value may nest.
pub open spec fn default_budget(ctx: CtxM) -> nat {
    ctx.types.len()
}

/// Whether `v` structurally matches `s`, and the context after the
/// traversal. The budget bounds only the reference hops taken without
/// moving to a smaller value; a context whose entries chain references
/// longer than it fails.
pub open spec fn validate_m(v: ValueM, s: SchemaM, ctx: CtxM, budget: nat) -> (bool, CtxM)
    decreases v, budget, s,
{
    match (v, s) {
        (ValueM::Null, SchemaM::Null) => (true, ctx),
        (ValueM::Boolean(_), SchemaM::Boolean) => (true, ctx),
        (ValueM::Int(_), SchemaM::Int) => (true, ctx),
        (ValueM::Long(_), SchemaM::Long) => (true, ctx),
        (ValueM::Float(_), SchemaM::Float) => (true, ctx),
        (ValueM::Double(_), SchemaM::Double) => (true, ctx),
        (ValueM::Bytes(_), SchemaM::Bytes) => (true, ctx),
        (ValueM::String(_), SchemaM::String) => (true, ctx),
        (ValueM::Fixed(n, _), SchemaM::Fixed { name, size }) => (n == size, set_ns(ctx, name)),
        (ValueM::String(t), SchemaM::Enum { name, symbols }) => (
            symbols.contains(t),
            set_ns(ctx, name),
        ),
        (ValueM::Enum(i, t), SchemaM::Enum { name, symbols }) => (
            0 <= i && (i as int) < symbols.len() && symbols[i as int] == t,
            set_ns(ctx, name),
        ),
        (ValueM::Union(inner), SchemaM::Union(bs)) => {
            let (r, c) = find_branch_m(*inner, bs, ctx, default_budget(ctx));
            (r is Some, c)
        },
        (ValueM::Array(items), SchemaM::Array(elem)) => validate_seq_m(items, *elem, ctx),
        (ValueM::Mapping(entries), SchemaM::Mapping(val)) => validate_entries_m(
            entries,
            *val,
            ctx,
        ),
        (ValueM::Record(rf), SchemaM::Record { name, fields, .. }) => {
            let c = set_ns(ctx, name);
            if rf.len() != fields.len() {
                (false, c)
            } else {
                validate_fields_m(rf, fields, c)
            }
        },
        (ValueM::Record(_), SchemaM::Union(bs)) => {
            let (r, c) = find_branch_m(v, bs, ctx, budget);
            (r is Some, c)
        },
        (ValueM::Record(_), SchemaM::TypeReference(n)) => match lookup_m(ctx, n) {
            Some(s2) => if budget == 0 {
                (false, ctx)
            } else {
                validate_m(v, s2, ctx, (budget - 1) as nat)
            },
            None => (false, ctx),
        },
        (ValueM::Fixed(_, _), SchemaM::TypeReference(n)) => match lookup_m(ctx, n) {
            Some(s2) => if budget == 0 {
                (false, ctx)
            } else {
                validate_m(v, s2, ctx, (budget - 1) as nat)
            },
            None => (false, ctx),
        },
        _ => (false, ctx),
    }
}

/// The first branch of `bs` that accepts `v`, trying each in order and
/// threading the context through the trials.
pub open spec fn find_branch_m(v: ValueM, bs: Seq<SchemaM>, ctx: CtxM, budget: nat) -> (
    Option<int>,
    CtxM,
)
    decreases v, budget, bs,
{
    if bs.len() == 0 {
        (None, ctx)
    } else {
        let (r0, c0) = validate_m(v, bs[0], ctx, budget);
        if r0 {
            (Some(0), c0)
        } else {
            let (r, c) = find_branch_m(v, bs.drop_first(), c0, budget);
            (
                match r {
                    Some(i) => Some(i + 1),
                    None => None,
                },
                c,
            )
        }
    }
}

/// Every element matches the element schema, each with a fresh
/// reference budget; stops at the first failure.
pub open spec fn validate_seq_m(items: Seq<ValueM>, elem: SchemaM, ctx: CtxM) -> (bool, CtxM)
    decreases items, 0nat, elem,
{
    if items.len() == 0 {
        (true, ctx)
    } else {
        let (r0, c0) = validate_m(items[0], elem, ctx, default_budget(ctx));
        if !r0 {
            (false, c0)
        } else {
            validate_seq_m(items.drop_first(), elem, c0)
        }
    }
}

/// Every entry's value matches the value schema, each with a fresh
/// reference budget; stops at the first failure.
pub open spec fn validate_entries_m(
    entries: Seq<(Seq<char>, ValueM)>,
    val: SchemaM,
    ctx: CtxM,
) -> (bool, CtxM)
    decreases entries, 0nat, val,
{
    if entries.len() == 0 {
        (true, ctx)
    } else {
        let (r0, c0) = validate_m(entries[0].1, val, ctx, default_budget(ctx));
        if !r0 {
            (false, c0)
        } else {
            validate_entries_m(entries.drop_first(), val, c0)
        }
    }
}

/// Position by position, the written field name equals the schema's and
/// the written value matches the field's schema, each value with a
/// fresh reference budget; stops at the first failure.
pub open spec fn validate_fields_m(
    rf: Seq<(Seq<char>, ValueM)>,
    fs: Seq<FieldM>,
    ctx: CtxM,
) -> (bool, CtxM)
    recommends
        rf.len() == fs.len(),
    decreases rf, 0nat, fs,
{
    if rf.len() == 0 {
        (true, ctx)
    } else if rf[0].0 != fs[0].name {
        (false, ctx)
    } else {
        let (r0, c0) = validate_m(rf[0].1, fs[0].schema, ctx, default_budget(ctx));
        if !r0 {
            (false, c0)
        } else {
            validate_fields_m(rf.drop_first(), fs.drop_first(), c0)
        }
    }
}

/// Update the ambient namespace from a named node.
pub(crate) fn apply_ns(name: &Name, context: &mut SchemaParseContext)
    ensures
        final(context)@ == set_ns(old(context)@, name@),
{
    match &name.namespace {
        Some(ns) => {
            context.current_namespace = Some(ns.clone());
        },
        None => {},
    }
}

/// First symbol equal to `s`, if any.
pub(crate) fn find_symbol(symbols: &Vec<String>, s: &String) -> (r: Option<usize>)
    ensures
        match r {
            Some(i) => i < symbols@.len() && symbols@[i as int]@ == s@ && forall|j: int|
                0 <= j < i ==> (#[trigger] symbols@[j])@ != s@,
            None => forall|j: int| 0 <= j < symbols@.len() ==> (#[trigger] symbols@[j])@ != s@,
        },
{
    let mut i: usize = 0;
    while i < symbols.len()
        invariant
            0 <= i <= symbols@.len(),
            forall|j: int| 0 <= j < i ==> (#[trigger] symbols@[j])@ != s@,
        decreases symbols@.len() - i,
    {
        if symbols[i].eq(s) {
            return Some(i);
        }
        i = i + 1;
    }
    None
}

/// The symbol list of an enum schema, in the model.
pub open spec fn symbols_of(symbols: Seq<String>) -> Seq<Seq<char>> {
    Seq::new(symbols.len(), |i: int| symbols[i]@)
}

impl UnionSchema {
    /// The first branch that structurally accepts `value`, tried in
    /// declaration order: its position and the shared branch schema.
    pub fn find_schema(&self, value: &Value, context: &mut SchemaParseContext, budget: u64) -> (r:
        Option<(usize, Arc<SchemaTree>)>)
        ensures
            ({
                let m = find_branch_m(value@, self@, old(context)@, budget as nat);
                &&& final(context)@ == m.1
                &&& match r {
                    Some((i, s)) => m.0 == Some(i as int) && (i as int) < self@.len()
                        && schema_model(*s) == self@[i as int],
                    None => m.0 is None,
                }
            }),
        decreases value, budget, self,
    {
        let ghost whole = find_branch_m(value@, self@, old(context)@, budget as nat);
        let mut i: usize = 0;
        proof {
            broadcast use lemma_branches_model_len;

            assert(self@.skip(0) =~= self@);
            assert(decreases_to!(self => self.schemas@));
        }
        while i < self.schemas.len()
            invariant
                0 <= i <= self.schemas@.len(),
                self@.len() == self.schemas@.len(),
                decreases_to!(self => self.schemas@),
                whole == find_branch_m(value@, self@, old(context)@, budget as nat),
                ({
                    let m = find_branch_m(value@, self@.skip(i as int), context@, budget as nat);
                    &&& whole.1 == m.1
                    &&& whole.0 == match m.0 {
                        Some(k) => Some(k + i),
                        None => None::<int>,
                    }
                }),
            decreases self.schemas@.len() - i,
        {
            let ghost centry = context@;
            proof {
                broadcast use lemma_branches_model_len, lemma_branches_model_index;

                assert(self@.skip(i as int)[0] == self@[i as int]);
                assert(self@.skip(i as int).drop_first() =~= self@.skip(i as int + 1));
                assert(decreases_to!(self.schemas@ => *self.schemas@[i as int]));
            }
            let hit = value.validate_inner(&self.schemas[i], context, budget);
            proof {
                let m = find_branch_m(value@, self@.skip(i as int), centry, budget as nat);
                let m0 = validate_m(value@, self@[i as int], centry, budget as nat);
                assert(m0 == (hit, context@));
                if hit {
                    assert(m == (Some(0int), context@));
                } else {
                    let rec = find_branch_m(
                        value@,
                        self@.skip(i as int + 1),
                        context@,
                        budget as nat,
                    );
                    assert(m.1 == rec.1);
                    assert(m.0 == match rec.0 {
                        Some(k) => Some(k + 1),
                        None => None::<int>,
                    });
                }
            }
            if hit {
                return Some((i, share_schema(&self.schemas[i])));
            }
            i = i + 1;
        }
        proof {
            broadcast use lemma_branches_model_len;

            assert(self@.skip(i as int).len() == 0);
        }
        None
    }
}

impl Value {
    /// Whether this value structurally matches the schema, resolving
    /// named references through a fresh context of the schema's named
    /// types.
    pub fn validate(&self, schema: &Schema) -> (r: bool)
        ensures
            r == validate_m(
                self@,
                schema@.tree,
                CtxM { types: schema@.types, ns: None },
                schema@.types.len() as nat,
            ).0,
    {
        let mut context = schema.new_context();
        let budget = context.types.len() as u64;
        let tree = schema.ref_inner();
        self.validate_inner(tree, &mut context, budget)
    }

    /// Whether this value structurally matches the schema node, reading
    /// and updating the given context.
    pub fn validate_inner(
        &self,
        schema: &SchemaTree,
        context: &mut SchemaParseContext,
        budget: u64,
    ) -> (r: bool)
        ensures
            ({
                let m = validate_m(self@, schema@, old(context)@, budget as nat);
                r == m.0 && final(context)@ == m.1
            }),
        decreases self, budget, schema,
    {
        match (self, schema) {
            (Value::Null, SchemaTree::Null) => true,
            (Value::Boolean(_), SchemaTree::Boolean) => true,
            (Value::Int(_), SchemaTree::Int) => true,
            (Value::Long(_), SchemaTree::Long) => true,
            (Value::Float(_), SchemaTree::Float) => true,
            (Value::Double(_), SchemaTree::Double) => true,
            (Value::Bytes(_), SchemaTree::Bytes) => true,
            (Value::String(_), SchemaTree::String) => true,
            (Value::Fixed(n, _), SchemaTree::Fixed { name, size }) => {
                apply_ns(name, context);
                *n == *size
            },
            (Value::String(s), SchemaTree::Enum { name, symbols, .. }) => {
                apply_ns(name, context);
                let hit = find_symbol(symbols, s);
                proof {
                    let syms = schema@->Enum_symbols;
                    if hit is Some {
                        assert(syms[hit->Some_0 as int] == s@);
                        assert(syms.contains(s@));
                    } else {
                        assert(forall|j: int| 0 <= j < syms.len() ==> syms[j] != s@);
                        assert(!syms.contains(s@));
                    }
                }
                hit.is_some()
            },
            (Value::Enum(i, s), SchemaTree::Enum { name, symbols, .. }) => {
                apply_ns(name, context);
                if *i >= 0 && (*i as usize) < symbols.len() {
                    symbols[*i as usize].eq(s)
                } else {
                    false
                }
            },
            (Value::Union(inner), SchemaTree::Union(u)) => {
                let fresh = context.types.len() as u64;
                proof {
                    assert(fresh as nat == default_budget(context@));
                    assert(decreases_to!(*self => **inner));
                    assert(decreases_to!(*schema => *u));
                }
                u.find_schema(&*inner, context, fresh).is_some()
            },
            (Value::Array(items), SchemaTree::Array(elem)) => {
                let ghost whole = validate_seq_m(values_model(items@), elem@, old(context)@);
                let mut i: usize = 0;
                proof {
                    broadcast use lemma_values_model_len;

                    assert(values_model(items@).skip(0) =~= values_model(items@));
                    assert(decreases_to!(*self => items@));
                }
                while i < items.len()
                    invariant
                        0 <= i <= items@.len(),
                        values_model(items@).len() == items@.len(),
                        decreases_to!(*self => items@),
                        validate_m(self@, schema@, old(context)@, budget as nat) == whole,
                        whole == validate_seq_m(
                            values_model(items@).skip(i as int),
                            elem@,
                            context@,
                        ),
                    decreases items@.len() - i,
                {
                    proof {
                        broadcast use lemma_values_model_len, lemma_values_model_index;

                        assert(values_model(items@).skip(i as int)[0] == value_model(
                            items@[i as int],
                        ));
                        assert(values_model(items@).skip(i as int).drop_first() =~= values_model(
                            items@,
                        ).skip(i as int + 1));
                        assert(decreases_to!(items@ => items@[i as int]));
                    }
                    let ghost centry = context@;
                    let fresh = context.types.len() as u64;
                    proof {
                        assert(fresh as nat == default_budget(centry));
                    }
                    let ok = items[i].validate_inner(&**elem, context, fresh);
                    proof {
                        let m = validate_seq_m(values_model(items@).skip(i as int), elem@, centry);
                        let m0 = validate_m(
                            value_model(items@[i as int]),
                            elem@,
                            centry,
                            default_budget(centry),
                        );
                        assert(m0 == (ok, context@));
                        if !ok {
                            assert(m == (false, context@));
                        } else {
                            assert(m == validate_seq_m(
                                values_model(items@).skip(i as int + 1),
                                elem@,
                                context@,
                            ));
                        }
                    }
                    if !ok {
                        return false;
                    }
                    i = i + 1;
                }
                proof {
                    assert(values_model(items@).skip(i as int).len() == 0);
                }
                true
            },
            (Value::Mapping(entries), SchemaTree::Mapping(val)) => {
                let ghost whole = validate_entries_m(pairs_model(entries@), val@, old(context)@);
                let mut i: usize = 0;
                proof {
                    broadcast use lemma_pairs_model_len;

                    assert(pairs_model(entries@).skip(0) =~= pairs_model(entries@));
                    assert(decreases_to!(*self => entries@));
                }
                while i < entries.len()
                    invariant
                        0 <= i <= entries@.len(),
                        pairs_model(entries@).len() == entries@.len(),
                        decreases_to!(*self => entries@),
                        validate_m(self@, schema@, old(context)@, budget as nat) == whole,
                        whole == validate_entries_m(
                            pairs_model(entries@).skip(i as int),
                            val@,
                            context@,
                        ),
                    decreases entries@.len() - i,
                {
                    proof {
                        broadcast use lemma_pairs_model_len, lemma_pairs_model_index;

                        assert(pairs_model(entries@).skip(i as int)[0] == (
                            entries@[i as int].0@,
                            value_model(entries@[i as int].1),
                        ));
                        assert(pairs_model(entries@).skip(i as int).drop_first() =~= pairs_model(
                            entries@,
                        ).skip(i as int + 1));
                        assert(decreases_to!(entries@ => entries@[i as int]));
                    }
                    let ghost centry = context@;
                    let fresh = context.types.len() as u64;
                    proof {
                        assert(fresh as nat == default_budget(centry));
                    }
                    let ok = entries[i].1.validate_inner(&**val, context, fresh);
                    proof {
                        let m = validate_entries_m(
                            pairs_model(entries@).skip(i as int),
                            val@,
                            centry,
                        );
                        let m0 = validate_m(
                            value_model(entries@[i as int].1),
                            val@,
                            centry,
                            default_budget(centry),
                        );
                        assert(m0 == (ok, context@));
                        if !ok {
                            assert(m == (false, context@));
                        } else {
                            assert(m == validate_entries_m(
                                pairs_model(entries@).skip(i as int + 1),
                                val@,
                                context@,
                            ));
                        }
                    }
                    if !ok {
                        return false;
                    }
                    i = i + 1;
                }
                proof {
                    assert(pairs_model(entries@).skip(i as int).len() == 0);
                }
                true
            },
            (Value::Record(rf), SchemaTree::Record { name, fields, .. }) => {
                apply_ns(name, context);
                if rf.len() != fields.len() {
                    proof {
                        broadcast use lemma_pairs_model_len, lemma_fields_model_len;

                        assert(pairs_model(rf@).len() != fields_model(fields@).len());
                    }
                    return false;
                }
                let ghost whole = validate_fields_m(
                    pairs_model(rf@),
                    fields_model(fields@),
                    context@,
                );
                let mut i: usize = 0;
                proof {
                    broadcast use lemma_pairs_model_len, lemma_fields_model_len;

                    assert(pairs_model(rf@).skip(0) =~= pairs_model(rf@));
                    assert(fields_model(fields@).skip(0) =~= fields_model(fields@));
                    assert(decreases_to!(*self => rf@));
                }
                while i < rf.len()
                    invariant
                        0 <= i <= rf@.len(),
                        rf@.len() == fields@.len(),
                        pairs_model(rf@).len() == rf@.len(),
                        fields_model(fields@).len() == fields@.len(),
                        decreases_to!(*self => rf@),
                        validate_m(self@, schema@, old(context)@, budget as nat) == whole,
                        whole == validate_fields_m(
                            pairs_model(rf@).skip(i as int),
                            fields_model(fields@).skip(i as int),
                            context@,
                        ),
                    decreases rf@.len() - i,
                {
                    proof {
                        broadcast use
                            lemma_pairs_model_len,
                            lemma_pairs_model_index,
                            lemma_fields_model_len,
                            lemma_fields_model_index,
                        ;

                        assert(pairs_model(rf@).skip(i as int)[0] == (
                            rf@[i as int].0@,
                            value_model(rf@[i as int].1),
                        ));
                        assert(fields_model(fields@).skip(i as int)[0] == crate::schema::field_model(
                            fields@[i as int],
                        ));
                        assert(pairs_model(rf@).skip(i as int).drop_first() =~= pairs_model(
                            rf@,
                        ).skip(i as int + 1));
                        assert(fields_model(fields@).skip(i as int).drop_first() =~= fields_model(
                            fields@,
                        ).skip(i as int + 1));
                        assert(decreases_to!(rf@ => rf@[i as int]));
                    }
                    let ghost centry = context@;
                    if !fields[i].name.eq(&rf[i].0) {
                        proof {
                            let m = validate_fields_m(
                                pairs_model(rf@).skip(i as int),
                                fields_model(fields@).skip(i as int),
                                centry,
                            );
                            assert(m == (false, centry));
                        }
                        return false;
                    }
                    let fresh = context.types.len() as u64;
                    proof {
                        assert(fresh as nat == default_budget(centry));
                    }
                    let ok = rf[i].1.validate_inner(&*fields[i].schema, context, fresh);
                    proof {
                        let m = validate_fields_m(
                            pairs_model(rf@).skip(i as int),
                            fields_model(fields@).skip(i as int),
                            centry,
                        );
                        let m0 = validate_m(
                            value_model(rf@[i as int].1),
                            crate::schema::field_model(fields@[i as int]).schema,
                            centry,
                            default_budget(centry),
                        );
                        assert(m0 == (ok, context@));
                        if !ok {
                            assert(m == (false, context@));
                        } else {
                            assert(m == validate_fields_m(
                                pairs_model(rf@).skip(i as int + 1),
                                fields_model(fields@).skip(i as int + 1),
                                context@,
                            ));
                        }
                    }
                    if !ok {
                        return false;
                    }
                    i = i + 1;
                }
                proof {
                    assert(pairs_model(rf@).skip(i as int).len() == 0);
                }
                true
            },
            (Value::Record(_), SchemaTree::Union(u)) => {
                proof {
                    assert(decreases_to!(*schema => *u));
                }
                u.find_schema(self, context, budget).is_some()
            },
            (Value::Record(_), SchemaTree::TypeReference(n)) => {
                match context.lookup_type(n) {
                    Some(resolved) => {
                        if budget == 0 {
                            false
                        } else {
                            self.validate_inner(&*resolved, context, budget - 1)
                        }
                    },
                    None => false,
                }
            },
            (Value::Fixed(_, _), SchemaTree::TypeReference(n)) => {
                match context.lookup_type(n) {
                    Some(resolved) => {
                        if budget == 0 {
                            false
                        } else {
                            self.validate_inner(&*resolved, context, budget - 1)
                        }
                    },
                    None => false,
                }
            },
            _ => false,
        }
    }
}

} // verus!
