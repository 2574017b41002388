//! The recursive schema tree: primitive kinds, named types (records,
//! enums, fixeds), unions, containers and references-by-name, together
//! with the per-call resolution context that turns a name into its node.
use std::sync::Arc;

use vstd::prelude::*;

use crate::types::{json_model, JsonM, JsonValue, SchemaKind};

verus! {

/// The name of a named schema node, with an optional namespace.
#[derive(Debug)]
pub struct Name {
    /// The bare name.
    pub name: String,
    /// The namespace, when one was declared.
    pub namespace: Option<String>,
}

/// The model of a [`Name`].
#[verifier::ext_equal]
pub struct NameM {
    pub name: Seq<char>,
    pub namespace: Option<Seq<char>>,
}

/// The model of a name.
pub open spec fn name_model(n: Name) -> NameM {
    NameM {
        name: n.name@,
        namespace: match n.namespace {
            Some(s) => Some(s@),
            None => None,
        },
    }
}

impl View for Name {
    type V = NameM;

    open spec fn view(&self) -> NameM {
        name_model(*self)
    }
}

impl Name {
    /// A name without a namespace.
    pub fn new(name: &str) -> (r: Name)
        ensures
            r@.name == name@,
            r@.namespace is None,
    {
        Name { name: name.to_owned(), namespace: None }
    }

    /// A copy of this name with the same model.
    pub fn duplicate(&self) -> (r: Name)
        ensures
            r@ == self@,
    {
        Name {
            name: self.name.clone(),
            namespace: match &self.namespace {
                Some(s) => Some(s.clone()),
                None => None,
            },
        }
    }
}

/// The sort direction a record field declares.
#[derive(Clone, Copy, Debug, PartialEq, Eq, Structural)]
pub enum RecordFieldOrder {
    Ascending,
    Descending,
    Ignore,
}

/// One field of a record schema.
#[derive(Debug)]
pub struct RecordField {
    /// The field's name.
    pub name: String,
    /// Documentation, kept but never read by the core.
    pub doc: Option<String>,
    /// The declared default, as a JSON-shaped plain value.
    pub default: Option<JsonValue>,
    /// The field's schema.
    pub schema: Arc<SchemaTree>,
    /// The declared sort direction.
    pub order: RecordFieldOrder,
    /// The field's 0-based position in the record.
    pub position: usize,
}

/// The ordered branches of a union schema.
#[derive(Debug)]
pub struct UnionSchema {
    /// The branches, in declaration order. The order is load-bearing:
    /// the first branch that structurally matches a value wins.
    pub schemas: Vec<Arc<SchemaTree>>,
}

/// A recursive description of a type.
#[derive(Debug)]
pub enum SchemaTree {
    /// The null type.
    Null,
    /// The boolean type.
    Boolean,
    /// The 32-bit signed integer type.
    Int,
    /// The 64-bit signed integer type.
    Long,
    /// The single-precision type.
    Float,
    /// The double-precision type.
    Double,
    /// The raw byte sequence type.
    Bytes,
    /// The UTF-8 text type.
    String,
    /// A named fixed-size byte sequence type.
    Fixed { name: Name, size: usize },
    /// A named enumeration of symbols.
    Enum { name: Name, doc: Option<String>, symbols: Vec<String> },
    /// An ordered union of branch types.
    Union(UnionSchema),
    /// An array of one element type.
    Array(Arc<SchemaTree>),
    /// A map from text keys to one value type.
    Mapping(Arc<SchemaTree>),
    /// A named record of ordered fields. `lookup` carries each field
    /// name's 0-based position.
    Record {
        name: Name,
        doc: Option<String>,
        fields: Vec<RecordField>,
        lookup: Vec<(String, usize)>,
    },
    /// A forward or recursive pointer to a named type declared elsewhere
    /// in the same tree, resolved only through a context.
    TypeReference(Name),
}

/// One field of a record schema, in the model.
#[verifier::ext_equal]
pub struct FieldM {
    pub name: Seq<char>,
    pub default: Option<JsonM>,
    pub schema: SchemaM,
}

/// The mathematical model of a [`SchemaTree`].
#[verifier::ext_equal]
pub enum SchemaM {
    Null,
    Boolean,
    Int,
    Long,
    Float,
    Double,
    Bytes,
    String,
    Fixed { name: NameM, size: nat },
    Enum { name: NameM, symbols: Seq<Seq<char>> },
    Union(Seq<SchemaM>),
    Array(Box<SchemaM>),
    Mapping(Box<SchemaM>),
    Record { name: NameM, fields: Seq<FieldM>, lookup: Seq<(Seq<char>, int)> },
    TypeReference(NameM),
}

/// The model of a record schema's name-to-position table.
pub open spec fn lookup_model(lk: Seq<(String, usize)>) -> Seq<(Seq<char>, int)> {
    Seq::new(lk.len(), |i: int| (lk[i].0@, lk[i].1 as int))
}

/// The model of a schema tree.
pub open spec fn schema_model(s: SchemaTree) -> SchemaM
    decreases s,
{
    match s {
        SchemaTree::Null => SchemaM::Null,
        SchemaTree::Boolean => SchemaM::Boolean,
        SchemaTree::Int => SchemaM::Int,
        SchemaTree::Long => SchemaM::Long,
        SchemaTree::Float => SchemaM::Float,
        SchemaTree::Double => SchemaM::Double,
        SchemaTree::Bytes => SchemaM::Bytes,
        SchemaTree::String => SchemaM::String,
        SchemaTree::Fixed { name, size } => SchemaM::Fixed {
            name: name_model(name),
            size: size as nat,
        },
        SchemaTree::Enum { name, symbols, .. } => SchemaM::Enum {
            name: name_model(name),
            symbols: Seq::new(symbols@.len(), |i: int| symbols@[i]@),
        },
        SchemaTree::Union(u) => SchemaM::Union(branches_model(u.schemas@)),
        SchemaTree::Array(inner) => SchemaM::Array(Box::new(schema_model(*inner))),
        SchemaTree::Mapping(inner) => SchemaM::Mapping(Box::new(schema_model(*inner))),
        SchemaTree::Record { name, fields, lookup, .. } => SchemaM::Record {
            name: name_model(name),
            fields: fields_model(fields@),
            lookup: lookup_model(lookup@),
        },
        SchemaTree::TypeReference(n) => SchemaM::TypeReference(name_model(n)),
    }
}

/// The models of a sequence of shared branch schemas, in order.
pub open spec fn branches_model(s: Seq<Arc<SchemaTree>>) -> Seq<SchemaM>
    decreases s,
{
    if s.len() == 0 {
        Seq::empty()
    } else {
        seq![schema_model(*s[0])] + branches_model(s.drop_first())
    }
}

/// The model of one record field.
pub open spec fn field_model(f: RecordField) -> FieldM
    decreases f,
{
    FieldM {
        name: f.name@,
        default: match f.default {
            Some(j) => Some(json_model(j)),
            None => None,
        },
        schema: schema_model(*f.schema),
    }
}

/// The models of a sequence of record fields, in order.
pub open spec fn fields_model(s: Seq<RecordField>) -> Seq<FieldM>
    decreases s,
{
    if s.len() == 0 {
        Seq::empty()
    } else {
        seq![field_model(s[0])] + fields_model(s.drop_first())
    }
}

pub broadcast proof fn lemma_branches_model_len(s: Seq<Arc<SchemaTree>>)
    ensures
        (#[trigger] branches_model(s)).len() == s.len(),
    decreases s.len(),
{
    if s.len() > 0 {
        lemma_branches_model_len(s.drop_first());
    }
}

pub broadcast proof fn lemma_branches_model_index(s: Seq<Arc<SchemaTree>>, i: int)
    requires
        0 <= i < s.len(),
    ensures
        #[trigger] branches_model(s)[i] == schema_model(*s[i]),
    decreases s.len(),
{
    lemma_branches_model_len(s);
    if i > 0 {
        lemma_branches_model_index(s.drop_first(), i - 1);
    }
}

pub broadcast proof fn lemma_fields_model_len(s: Seq<RecordField>)
    ensures
        (#[trigger] fields_model(s)).len() == s.len(),
    decreases s.len(),
{
    if s.len() > 0 {
        lemma_fields_model_len(s.drop_first());
    }
}

pub broadcast proof fn lemma_fields_model_index(s: Seq<RecordField>, i: int)
    requires
        0 <= i < s.len(),
    ensures
        #[trigger] fields_model(s)[i] == field_model(s[i]),
    decreases s.len(),
{
    lemma_fields_model_len(s);
    if i > 0 {
        lemma_fields_model_index(s.drop_first(), i - 1);
    }
}

impl View for SchemaTree {
    type V = SchemaM;

    open spec fn view(&self) -> SchemaM {
        schema_model(*self)
    }
}

impl View for UnionSchema {
    type V = Seq<SchemaM>;

    open spec fn view(&self) -> Seq<SchemaM> {
        branches_model(self.schemas@)
    }
}

impl View for RecordField {
    type V = FieldM;

    open spec fn view(&self) -> FieldM {
        field_model(*self)
    }
}

/// The kind of a schema node.
pub open spec fn kind_of_schema(s: SchemaM) -> SchemaKind {
    match s {
        SchemaM::Null => SchemaKind::Null,
        SchemaM::Boolean => SchemaKind::Boolean,
        SchemaM::Int => SchemaKind::Int,
        SchemaM::Long => SchemaKind::Long,
        SchemaM::Float => SchemaKind::Float,
        SchemaM::Double => SchemaKind::Double,
        SchemaM::Bytes => SchemaKind::Bytes,
        SchemaM::String => SchemaKind::String,
        SchemaM::Fixed { .. } => SchemaKind::Fixed,
        SchemaM::Enum { .. } => SchemaKind::Enum,
        SchemaM::Union(_) => SchemaKind::Union,
        SchemaM::Array(_) => SchemaKind::Array,
        SchemaM::Mapping(_) => SchemaKind::Mapping,
        SchemaM::Record { .. } => SchemaKind::Record,
        SchemaM::TypeReference(_) => SchemaKind::TypeReference,
    }
}

impl SchemaKind {
    /// The kind of this schema node.
    pub fn of_schema(s: &SchemaTree) -> (r: SchemaKind)
        ensures
            r == kind_of_schema(s@),
    {
        match s {
            SchemaTree::Null => SchemaKind::Null,
            SchemaTree::Boolean => SchemaKind::Boolean,
            SchemaTree::Int => SchemaKind::Int,
            SchemaTree::Long => SchemaKind::Long,
            SchemaTree::Float => SchemaKind::Float,
            SchemaTree::Double => SchemaKind::Double,
            SchemaTree::Bytes => SchemaKind::Bytes,
            SchemaTree::String => SchemaKind::String,
            SchemaTree::Fixed { .. } => SchemaKind::Fixed,
            SchemaTree::Enum { .. } => SchemaKind::Enum,
            SchemaTree::Union(_) => SchemaKind::Union,
            SchemaTree::Array(_) => SchemaKind::Array,
            SchemaTree::Mapping(_) => SchemaKind::Mapping,
            SchemaTree::Record { .. } => SchemaKind::Record,
            SchemaTree::TypeReference(_) => SchemaKind::TypeReference,
        }
    }
}

/// Relies on std's `Arc::clone`: the returned handle points to the same
/// value, so the two are equal in the model.
#[verifier::external_body]
pub(crate) fn share_schema(s: &Arc<SchemaTree>) -> (r: Arc<SchemaTree>)
    ensures
        r == *s,
{
    s.clone()
}

/// The model of a resolution context: the named types the context can
/// resolve, in registration order, and the ambient namespace.
pub struct CtxM {
    pub types: Seq<(Seq<char>, SchemaM)>,
    pub ns: Option<Seq<char>>,
}

/// Per-call traversal state: the name-to-schema table, populated when the
/// tree was built, and the ambient namespace, updated while a traversal
/// descends into named nodes.
#[derive(Debug)]
pub struct SchemaParseContext {
    /// Fully qualified name to schema node, in registration order; the
    /// first entry with a key wins.
    pub types: Vec<(String, Arc<SchemaTree>)>,
    /// The ambient namespace used to qualify relative names.
    pub current_namespace: Option<String>,
}

impl View for SchemaParseContext {
    type V = CtxM;

    open spec fn view(&self) -> CtxM {
        CtxM {
            types: Seq::new(self.types@.len(), |i: int| (self.types@[i].0@, schema_model(*self.types@[i].1))),
            ns: match self.current_namespace {
                Some(s) => Some(s@),
                None => None,
            },
        }
    }
}

/// The key a name is looked up under: its own namespace wins, else the
/// ambient one qualifies it, else the bare name is the key.
pub open spec fn qualified_m(n: NameM, ns: Option<Seq<char>>) -> Seq<char> {
    match n.namespace {
        Some(p) => p + "."@ + n.name,
        None => match ns {
            Some(c) => c + "."@ + n.name,
            None => n.name,
        },
    }
}

/// First entry of `ts` under `key`, if any.
pub open spec fn lookup_key(ts: Seq<(Seq<char>, SchemaM)>, key: Seq<char>) -> Option<SchemaM>
    decreases ts.len(),
{
    if ts.len() == 0 {
        None
    } else if ts[0].0 == key {
        Some(ts[0].1)
    } else {
        lookup_key(ts.drop_first(), key)
    }
}

/// What this context resolves `n` to.
pub open spec fn lookup_m(ctx: CtxM, n: NameM) -> Option<SchemaM> {
    lookup_key(ctx.types, qualified_m(n, ctx.ns))
}

impl SchemaParseContext {
    /// An empty context: no named types, no ambient namespace.
    pub fn new() -> (r: SchemaParseContext)
        ensures
            r@.types.len() == 0,
            r@.ns is None,
    {
        SchemaParseContext { types: Vec::new(), current_namespace: None }
    }

    /// The key `name` is looked up under in this context.
    fn qualify(&self, name: &Name) -> (r: String)
        ensures
            r@ == qualified_m(name@, self@.ns),
    {
        match &name.namespace {
            Some(ns) => ns.clone().concat(".").concat(name.name.as_str()),
            None => match &self.current_namespace {
                Some(c) => c.clone().concat(".").concat(name.name.as_str()),
                None => name.name.clone(),
            },
        }
    }

    /// Resolve a name to the schema node registered under it, sharing the
    /// node rather than copying it.
    pub fn lookup_type(&self, name: &Name) -> (r: Option<Arc<SchemaTree>>)
        ensures
            match r {
                Some(s) => lookup_m(self@, name@) == Some(schema_model(*s)),
                None => lookup_m(self@, name@) is None,
            },
    {
        let key = self.qualify(name);
        let mut i: usize = 0;
        proof {
            assert(self@.types.skip(0) =~= self@.types);
        }
        while i < self.types.len()
            invariant
                0 <= i <= self.types@.len(),
                key@ == qualified_m(name@, self@.ns),
                lookup_key(self@.types, key@) == lookup_key(self@.types.skip(i as int), key@),
            decreases self.types@.len() - i,
        {
            proof {
                assert(self@.types.skip(i as int)[0] == self@.types[i as int]);
                assert(self@.types.skip(i as int).drop_first() =~= self@.types.skip(i as int + 1));
            }
            if self.types[i].0.eq(&key) {
                return Some(share_schema(&self.types[i].1));
            }
            i = i + 1;
        }
        proof {
            assert(self@.types.skip(i as int).len() == 0);
        }
        None
    }

    /// Register a named schema node under a key. Later entries never
    /// shadow earlier ones.
    pub fn register(&mut self, key: String, node: Arc<SchemaTree>)
        ensures
            final(self)@.types == old(self)@.types + seq![(key@, schema_model(*node))],
            final(self)@.ns == old(self)@.ns,
    {
        self.types.push((key, node));
        proof {
            assert(final(self)@.types =~= old(self)@.types + seq![(key@, schema_model(*node))]);
        }
    }
}

} // verus!

verus! {

/// The key a named node is registered under when the tree is walked: its
/// own namespace, or the bare name.
pub open spec fn reg_key(n: NameM) -> Seq<char> {
    qualified_m(n, None)
}

/// The named nodes of a schema, as (key, node) pairs in traversal order.
pub open spec fn named_types(s: SchemaM) -> Seq<(Seq<char>, SchemaM)>
    decreases s,
{
    match s {
        SchemaM::Fixed { name, .. } => seq![(reg_key(name), s)],
        SchemaM::Enum { name, .. } => seq![(reg_key(name), s)],
        SchemaM::Union(bs) => named_types_seq(bs),
        SchemaM::Array(inner) => named_types(*inner),
        SchemaM::Mapping(inner) => named_types(*inner),
        SchemaM::Record { name, fields, .. } => seq![(reg_key(name), s)] + named_types_fields(
            fields,
        ),
        _ => Seq::empty(),
    }
}

/// The named nodes of a sequence of branch schemas, in order.
pub open spec fn named_types_seq(bs: Seq<SchemaM>) -> Seq<(Seq<char>, SchemaM)>
    decreases bs,
{
    if bs.len() == 0 {
        Seq::empty()
    } else {
        named_types(bs[0]) + named_types_seq(bs.drop_first())
    }
}

/// The named nodes of a sequence of record fields, in order.
pub open spec fn named_types_fields(fs: Seq<FieldM>) -> Seq<(Seq<char>, SchemaM)>
    decreases fs,
{
    if fs.len() == 0 {
        Seq::empty()
    } else {
        named_types(fs[0].schema) + named_types_fields(fs.drop_first())
    }
}

/// The key `name` is registered under.
fn qualify_name(name: &Name) -> (r: String)
    ensures
        r@ == reg_key(name@),
{
    match &name.namespace {
        Some(ns) => ns.clone().concat(".").concat(name.name.as_str()),
        None => name.name.clone(),
    }
}

/// Walk a schema tree and append each named node, keyed by its qualified
/// name, to the accumulator.
fn collect_named(s: &Arc<SchemaTree>, acc: &mut Vec<(String, Arc<SchemaTree>)>)
    ensures
        reg_model(final(acc)@) == reg_model(old(acc)@) + named_types(schema_model(**s)),
    decreases **s,
{
    let ghost pre = reg_model(acc@);
    match &**s {
        SchemaTree::Fixed { name, .. } => {
            let key = qualify_name(name);
            acc.push((key, share_schema(s)));
            proof {
                assert(reg_model(acc@) =~= pre + named_types(schema_model(**s)));
            }
        },
        SchemaTree::Enum { name, .. } => {
            let key = qualify_name(name);
            acc.push((key, share_schema(s)));
            proof {
                assert(reg_model(acc@) =~= pre + named_types(schema_model(**s)));
            }
        },
        SchemaTree::Union(u) => {
            let mut i: usize = 0;
            proof {
                assert(branches_model(u.schemas@).skip(0) =~= branches_model(u.schemas@));
                assert(decreases_to!(**s => u.schemas@));
            }
            while i < u.schemas.len()
                invariant
                    0 <= i <= u.schemas@.len(),
                    decreases_to!(**s => u.schemas@),
                    reg_model(acc@) + named_types_seq(branches_model(u.schemas@).skip(i as int))
                        =~= pre + named_types_seq(branches_model(u.schemas@)),
                decreases u.schemas@.len() - i,
            {
                proof {
                    broadcast use lemma_branches_model_len, lemma_branches_model_index;

                    assert(branches_model(u.schemas@).skip(i as int)[0] == schema_model(
                        *u.schemas@[i as int],
                    ));
                    assert(branches_model(u.schemas@).skip(i as int).drop_first()
                        =~= branches_model(u.schemas@).skip(i as int + 1));
                    assert(decreases_to!(u.schemas@ => *u.schemas@[i as int]));
                }
                collect_named(&u.schemas[i], acc);
                i = i + 1;
            }
            proof {
                assert(branches_model(u.schemas@).skip(i as int).len() == 0) by {
                    broadcast use lemma_branches_model_len;

                }
                assert(reg_model(acc@) =~= pre + named_types(schema_model(**s)));
            }
        },
        SchemaTree::Array(inner) => {
            collect_named(inner, acc);
        },
        SchemaTree::Mapping(inner) => {
            collect_named(inner, acc);
        },
        SchemaTree::Record { name, fields, .. } => {
            let key = qualify_name(name);
            acc.push((key, share_schema(s)));
            let ghost mid = reg_model(acc@);
            proof {
                assert(mid =~= pre + seq![(reg_key(name_model(*name)), schema_model(**s))]);
                assert(fields_model(fields@).skip(0) =~= fields_model(fields@));
            }
            let mut i: usize = 0;
            proof {
                assert(decreases_to!(**s => fields@));
            }
            while i < fields.len()
                invariant
                    0 <= i <= fields@.len(),
                    decreases_to!(**s => fields@),
                    reg_model(acc@) + named_types_fields(fields_model(fields@).skip(i as int))
                        =~= mid + named_types_fields(fields_model(fields@)),
                decreases fields@.len() - i,
            {
                proof {
                    broadcast use lemma_fields_model_len, lemma_fields_model_index;

                    assert(fields_model(fields@).skip(i as int)[0] == field_model(
                        fields@[i as int],
                    ));
                    assert(fields_model(fields@).skip(i as int).drop_first() =~= fields_model(
                        fields@,
                    ).skip(i as int + 1));
                    assert(decreases_to!(fields@ => *fields@[i as int].schema));
                }
                collect_named(&fields[i].schema, acc);
                i = i + 1;
            }
            proof {
                assert(fields_model(fields@).skip(i as int).len() == 0) by {
                    broadcast use lemma_fields_model_len;

                }
                assert(reg_model(acc@) =~= pre + named_types(schema_model(**s)));
            }
        },
        _ => {},
    }
}

/// The model of a registry: each entry's key and its node's model.
pub open spec fn reg_model(ts: Seq<(String, Arc<SchemaTree>)>) -> Seq<(Seq<char>, SchemaM)> {
    Seq::new(ts.len(), |i: int| (ts[i].0@, schema_model(*ts[i].1)))
}

/// The model of a finished schema: its tree and the named types the tree
/// registers.
pub struct SchemaRootM {
    pub tree: SchemaM,
    pub types: Seq<(Seq<char>, SchemaM)>,
}

/// A finished, shared schema tree together with the named types collected
/// from it, ready to hand a fresh resolution context to each operation.
#[derive(Debug)]
pub struct Schema {
    /// The shared root of the tree.
    pub tree: Arc<SchemaTree>,
    /// The named types collected from the tree, in traversal order.
    pub registry: Vec<(String, Arc<SchemaTree>)>,
}

impl View for Schema {
    type V = SchemaRootM;

    open spec fn view(&self) -> SchemaRootM {
        SchemaRootM { tree: schema_model(*self.tree), types: reg_model(self.registry@) }
    }
}

impl Schema {
    /// Wrap a finished tree, collecting its named types so that type
    /// references resolve.
    pub fn from_tree(tree: SchemaTree) -> (r: Schema)
        ensures
            r@.tree == schema_model(tree),
            r@.types == named_types(schema_model(tree)),
    {
        let arc = Arc::new(tree);
        let mut registry: Vec<(String, Arc<SchemaTree>)> = Vec::new();
        proof {
            assert(reg_model(registry@) =~= Seq::<(Seq<char>, SchemaM)>::empty());
        }
        collect_named(&arc, &mut registry);
        proof {
            assert(Seq::<(Seq<char>, SchemaM)>::empty() + named_types(schema_model(*arc))
                =~= named_types(schema_model(*arc)));
        }
        Schema { tree: arc, registry }
    }

    /// The shared root of the tree.
    pub fn inner(&self) -> (r: Arc<SchemaTree>)
        ensures
            schema_model(*r) == self@.tree,
    {
        share_schema(&self.tree)
    }

    /// The root of the tree, borrowed.
    pub fn ref_inner(&self) -> (r: &SchemaTree)
        ensures
            schema_model(*r) == self@.tree,
    {
        &self.tree
    }

    /// A fresh resolution context for one operation: this schema's named
    /// types and no ambient namespace.
    pub fn new_context(&self) -> (r: SchemaParseContext)
        ensures
            r@.types == self@.types,
            r@.ns is None,
    {
        let mut types: Vec<(String, Arc<SchemaTree>)> = Vec::new();
        let mut i: usize = 0;
        while i < self.registry.len()
            invariant
                0 <= i <= self.registry@.len(),
                types@.len() == i,
                forall|j: int|
                    0 <= j < i ==> (#[trigger] types@[j]).0@ == self.registry@[j].0@
                        && schema_model(*types@[j].1) == schema_model(*self.registry@[j].1),
            decreases self.registry@.len() - i,
        {
            let key = self.registry[i].0.clone();
            let node = share_schema(&self.registry[i].1);
            types.push((key, node));
            i = i + 1;
        }
        proof {
            assert(reg_model(types@) =~= reg_model(self.registry@));
        }
        SchemaParseContext { types, current_namespace: None }
    }
}

} // verus!

verus! {

impl UnionSchema {
    /// Wrap the ordered branches of a union. The wire format refuses a
    /// union immediately inside a union: `None` exactly when some branch
    /// is itself a union.
    pub fn new(schemas: Vec<Arc<SchemaTree>>, _context: &SchemaParseContext) -> (r: Option<
        UnionSchema,
    >)
        ensures
            match r {
                Some(u) => u@ == branches_model(schemas@) && forall|i: int|
                    0 <= i < u@.len() ==> !((#[trigger] u@[i]) is Union),
                None => exists|i: int|
                    0 <= i < schemas@.len() && (#[trigger] branches_model(schemas@)[i]) is Union,
            },
    {
        let mut i: usize = 0;
        while i < schemas.len()
            invariant
                0 <= i <= schemas@.len(),
                forall|j: int|
                    0 <= j < i ==> !((#[trigger] branches_model(schemas@)[j]) is Union),
            decreases schemas@.len() - i,
        {
            proof {
                broadcast use lemma_branches_model_len, lemma_branches_model_index;

            }
            let kind = crate::types::SchemaKind::of_schema(&*schemas[i]);
            if kind == crate::types::SchemaKind::Union {
                proof {
                    assert(branches_model(schemas@)[i as int] is Union);
                }
                return None;
            }
            i = i + 1;
        }
        proof {
            broadcast use lemma_branches_model_len;

        }
        Some(UnionSchema { schemas })
    }
}

} // verus!
