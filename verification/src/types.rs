//! The canonical in-memory representation of a datum, its mathematical
//! model, and the errors of schema resolution.
use vstd::prelude::*;

verus! {

/// Any well-formed datum of the format.
///
/// `Float` and `Double` carry the IEEE 754 bit pattern of the number, so
/// that the byte layout of a value is a function of its fields alone.
#[derive(Debug, PartialEq)]
pub enum Value {
    /// The null value.
    Null,
    /// A boolean value.
    Boolean(bool),
    /// A 32-bit signed integer.
    Int(i32),
    /// A 64-bit signed integer.
    Long(i64),
    /// A single-precision number, as its IEEE 754 bit pattern.
    Float(u32),
    /// A double-precision number, as its IEEE 754 bit pattern.
    Double(u64),
    /// A raw byte sequence.
    Bytes(Vec<u8>),
    /// UTF-8 text.
    String(String),
    /// A fixed-size byte sequence; the declared size is carried first.
    Fixed(usize, Vec<u8>),
    /// An enum symbol: its position in the symbols list of its schema and
    /// its text, carried together.
    Enum(i32, String),
    /// A union value: exactly one inner value, without a record of which
    /// branch produced it.
    Union(Box<Value>),
    /// An ordered sequence of values.
    Array(Vec<Value>),
    /// A mapping from text keys to values; entry order is irrelevant to
    /// readers but kept as written.
    Mapping(Vec<(String, Value)>),
    /// An ordered sequence of (field name, value) pairs; the order is
    /// significant and must match the schema that produced it.
    Record(Vec<(String, Value)>),
}

/// The mathematical model of a [`Value`]: the same shape over `Seq`.
#[verifier::ext_equal]
pub enum ValueM {
    Null,
    Boolean(bool),
    Int(i32),
    Long(i64),
    Float(u32),
    Double(u64),
    Bytes(Seq<u8>),
    String(Seq<char>),
    Fixed(nat, Seq<u8>),
    Enum(i32, Seq<char>),
    Union(Box<ValueM>),
    Array(Seq<ValueM>),
    Mapping(Seq<(Seq<char>, ValueM)>),
    Record(Seq<(Seq<char>, ValueM)>),
}

/// The model of a value.
pub open spec fn value_model(v: Value) -> ValueM
    decreases v,
{
    match v {
        Value::Null => ValueM::Null,
        Value::Boolean(b) => ValueM::Boolean(b),
        Value::Int(n) => ValueM::Int(n),
        Value::Long(n) => ValueM::Long(n),
        Value::Float(bits) => ValueM::Float(bits),
        Value::Double(bits) => ValueM::Double(bits),
        Value::Bytes(b) => ValueM::Bytes(b@),
        Value::String(s) => ValueM::String(s@),
        Value::Fixed(n, b) => ValueM::Fixed(n as nat, b@),
        Value::Enum(i, s) => ValueM::Enum(i, s@),
        Value::Union(inner) => ValueM::Union(Box::new(value_model(*inner))),
        Value::Array(items) => ValueM::Array(values_model(items@)),
        Value::Mapping(items) => ValueM::Mapping(pairs_model(items@)),
        Value::Record(fields) => ValueM::Record(pairs_model(fields@)),
    }
}

/// The models of a sequence of values, in order.
pub open spec fn values_model(s: Seq<Value>) -> Seq<ValueM>
    decreases s,
{
    if s.len() == 0 {
        Seq::empty()
    } else {
        seq![value_model(s[0])] + values_model(s.drop_first())
    }
}

/// The models of a sequence of (name, value) pairs, in order.
pub open spec fn pairs_model(s: Seq<(String, Value)>) -> Seq<(Seq<char>, ValueM)>
    decreases s,
{
    if s.len() == 0 {
        Seq::empty()
    } else {
        seq![(s[0].0@, value_model(s[0].1))] + pairs_model(s.drop_first())
    }
}

pub broadcast proof fn lemma_values_model_len(s: Seq<Value>)
    ensures
        (#[trigger] values_model(s)).len() == s.len(),
    decreases s.len(),
{
    if s.len() > 0 {
        lemma_values_model_len(s.drop_first());
    }
}

pub broadcast proof fn lemma_values_model_index(s: Seq<Value>, i: int)
    requires
        0 <= i < s.len(),
    ensures
        #[trigger] values_model(s)[i] == value_model(s[i]),
    decreases s.len(),
{
    lemma_values_model_len(s);
    if i > 0 {
        lemma_values_model_index(s.drop_first(), i - 1);
    }
}

pub broadcast proof fn lemma_pairs_model_len(s: Seq<(String, Value)>)
    ensures
        (#[trigger] pairs_model(s)).len() == s.len(),
    decreases s.len(),
{
    if s.len() > 0 {
        lemma_pairs_model_len(s.drop_first());
    }
}

pub broadcast proof fn lemma_pairs_model_index(s: Seq<(String, Value)>, i: int)
    requires
        0 <= i < s.len(),
    ensures
        #[trigger] pairs_model(s)[i] == (s[i].0@, value_model(s[i].1)),
    decreases s.len(),
{
    lemma_pairs_model_len(s);
    if i > 0 {
        lemma_pairs_model_index(s.drop_first(), i - 1);
    }
}

impl View for Value {
    type V = ValueM;

    open spec fn view(&self) -> ValueM {
        value_model(*self)
    }
}

/// Clone a sequence of values, keeping each element's model.
fn clone_values(items: &Vec<Value>) -> (out: Vec<Value>)
    ensures
        out@.len() == items@.len(),
        forall|j: int|
            0 <= j < items@.len() ==> value_model(#[trigger] out@[j]) == value_model(items@[j]),
    decreases items,
{
    let mut out: Vec<Value> = Vec::new();
    let mut i: usize = 0;
    while i < items.len()
        invariant
            i == out@.len() <= items@.len(),
            forall|j: int|
                0 <= j < i ==> value_model(#[trigger] out@[j]) == value_model(items@[j]),
        decreases items@.len() - i,
    {
        out.push(items[i].clone());
        i = i + 1;
    }
    out
}

/// Clone a list of (name, value) pairs, keeping each pair's model.
fn clone_pairs(items: &Vec<(String, Value)>) -> (out: Vec<(String, Value)>)
    ensures
        out@.len() == items@.len(),
        forall|j: int|
            0 <= j < items@.len() ==> (#[trigger] out@[j]).0@ == items@[j].0@ && value_model(
                out@[j].1,
            ) == value_model(items@[j].1),
    decreases items,
{
    let mut out: Vec<(String, Value)> = Vec::new();
    let mut i: usize = 0;
    while i < items.len()
        invariant
            i == out@.len() <= items@.len(),
            forall|j: int|
                0 <= j < i ==> (#[trigger] out@[j]).0@ == items@[j].0@ && value_model(out@[j].1)
                    == value_model(items@[j].1),
        decreases items@.len() - i,
    {
        let name = items[i].0.clone();
        let val = items[i].1.clone();
        out.push((name, val));
        i = i + 1;
    }
    out
}

impl Clone for Value {
    /// A clone has the same model.
    fn clone(&self) -> (res: Self)
        ensures
            res@ == self@,
        decreases self,
    {
        match self {
            Value::Null => Value::Null,
            Value::Boolean(b) => Value::Boolean(*b),
            Value::Int(n) => Value::Int(*n),
            Value::Long(n) => Value::Long(*n),
            Value::Float(bits) => Value::Float(*bits),
            Value::Double(bits) => Value::Double(*bits),
            Value::Bytes(b) => {
                let c = b.clone();
                proof {
                    assert(c@ =~= b@);
                }
                Value::Bytes(c)
            },
            Value::String(s) => Value::String(s.clone()),
            Value::Fixed(n, b) => {
                let c = b.clone();
                proof {
                    assert(c@ =~= b@);
                }
                Value::Fixed(*n, c)
            },
            Value::Enum(i, s) => Value::Enum(*i, s.clone()),
            Value::Union(inner) => Value::Union(Box::new((**inner).clone())),
            Value::Array(items) => {
                let out = clone_values(items);
                proof {
                    broadcast use lemma_values_model_len, lemma_values_model_index;

                    assert(values_model(out@) =~= values_model(items@));
                }
                Value::Array(out)
            },
            Value::Mapping(items) => {
                let out = clone_pairs(items);
                proof {
                    broadcast use lemma_pairs_model_len, lemma_pairs_model_index;

                    assert(pairs_model(out@) =~= pairs_model(items@));
                }
                Value::Mapping(out)
            },
            Value::Record(fields) => {
                let out = clone_pairs(fields);
                proof {
                    broadcast use lemma_pairs_model_len, lemma_pairs_model_index;

                    assert(pairs_model(out@) =~= pairs_model(fields@));
                }
                Value::Record(out)
            },
        }
    }
}

/// A JSON-shaped plain value, as the schema-construction collaborator hands
/// it over for a record field's declared default. Numbers keep the three
/// shapes a JSON number parser distinguishes; `Double` carries IEEE 754
/// bits.
#[derive(Debug, PartialEq)]
pub enum JsonValue {
    Null,
    Boolean(bool),
    Long(i64),
    ULong(u64),
    Double(u64),
    String(String),
    Array(Vec<JsonValue>),
    Object(Vec<(String, JsonValue)>),
}

/// The mathematical model of a [`JsonValue`].
#[verifier::ext_equal]
pub enum JsonM {
    Null,
    Boolean(bool),
    Long(i64),
    ULong(u64),
    Double(u64),
    String(Seq<char>),
    Array(Seq<JsonM>),
    Object(Seq<(Seq<char>, JsonM)>),
}

/// The model of a JSON-shaped value.
pub open spec fn json_model(j: JsonValue) -> JsonM
    decreases j,
{
    match j {
        JsonValue::Null => JsonM::Null,
        JsonValue::Boolean(b) => JsonM::Boolean(b),
        JsonValue::Long(n) => JsonM::Long(n),
        JsonValue::ULong(n) => JsonM::ULong(n),
        JsonValue::Double(bits) => JsonM::Double(bits),
        JsonValue::String(s) => JsonM::String(s@),
        JsonValue::Array(items) => JsonM::Array(jsons_model(items@)),
        JsonValue::Object(items) => JsonM::Object(json_pairs_model(items@)),
    }
}

/// The models of a sequence of JSON-shaped values, in order.
pub open spec fn jsons_model(s: Seq<JsonValue>) -> Seq<JsonM>
    decreases s,
{
    if s.len() == 0 {
        Seq::empty()
    } else {
        seq![json_model(s[0])] + jsons_model(s.drop_first())
    }
}

/// The models of a sequence of (name, JSON value) pairs, in order.
pub open spec fn json_pairs_model(s: Seq<(String, JsonValue)>) -> Seq<(Seq<char>, JsonM)>
    decreases s,
{
    if s.len() == 0 {
        Seq::empty()
    } else {
        seq![(s[0].0@, json_model(s[0].1))] + json_pairs_model(s.drop_first())
    }
}

impl View for JsonValue {
    type V = JsonM;

    open spec fn view(&self) -> JsonM {
        json_model(*self)
    }
}

/// Clone a sequence of JSON-shaped values, keeping each element's model.
fn clone_jsons(items: &Vec<JsonValue>) -> (out: Vec<JsonValue>)
    ensures
        out@.len() == items@.len(),
        forall|j: int|
            0 <= j < items@.len() ==> json_model(#[trigger] out@[j]) == json_model(items@[j]),
    decreases items,
{
    let mut out: Vec<JsonValue> = Vec::new();
    let mut i: usize = 0;
    while i < items.len()
        invariant
            i == out@.len() <= items@.len(),
            forall|j: int|
                0 <= j < i ==> json_model(#[trigger] out@[j]) == json_model(items@[j]),
        decreases items@.len() - i,
    {
        out.push(items[i].clone());
        i = i + 1;
    }
    out
}

/// Clone a list of (name, JSON value) pairs, keeping each pair's model.
fn clone_json_pairs(items: &Vec<(String, JsonValue)>) -> (out: Vec<(String, JsonValue)>)
    ensures
        out@.len() == items@.len(),
        forall|j: int|
            0 <= j < items@.len() ==> (#[trigger] out@[j]).0@ == items@[j].0@ && json_model(
                out@[j].1,
            ) == json_model(items@[j].1),
    decreases items,
{
    let mut out: Vec<(String, JsonValue)> = Vec::new();
    let mut i: usize = 0;
    while i < items.len()
        invariant
            i == out@.len() <= items@.len(),
            forall|j: int|
                0 <= j < i ==> (#[trigger] out@[j]).0@ == items@[j].0@ && json_model(out@[j].1)
                    == json_model(items@[j].1),
        decreases items@.len() - i,
    {
        let name = items[i].0.clone();
        let val = items[i].1.clone();
        out.push((name, val));
        i = i + 1;
    }
    out
}

pub broadcast proof fn lemma_jsons_model_len(s: Seq<JsonValue>)
    ensures
        (#[trigger] jsons_model(s)).len() == s.len(),
    decreases s.len(),
{
    if s.len() > 0 {
        lemma_jsons_model_len(s.drop_first());
    }
}

pub broadcast proof fn lemma_jsons_model_index(s: Seq<JsonValue>, i: int)
    requires
        0 <= i < s.len(),
    ensures
        #[trigger] jsons_model(s)[i] == json_model(s[i]),
    decreases s.len(),
{
    lemma_jsons_model_len(s);
    if i > 0 {
        lemma_jsons_model_index(s.drop_first(), i - 1);
    }
}

pub broadcast proof fn lemma_json_pairs_model_len(s: Seq<(String, JsonValue)>)
    ensures
        (#[trigger] json_pairs_model(s)).len() == s.len(),
    decreases s.len(),
{
    if s.len() > 0 {
        lemma_json_pairs_model_len(s.drop_first());
    }
}

pub broadcast proof fn lemma_json_pairs_model_index(s: Seq<(String, JsonValue)>, i: int)
    requires
        0 <= i < s.len(),
    ensures
        #[trigger] json_pairs_model(s)[i] == (s[i].0@, json_model(s[i].1)),
    decreases s.len(),
{
    lemma_json_pairs_model_len(s);
    if i > 0 {
        lemma_json_pairs_model_index(s.drop_first(), i - 1);
    }
}

impl Clone for JsonValue {
    /// A clone has the same model.
    fn clone(&self) -> (res: Self)
        ensures
            res@ == self@,
        decreases self,
    {
        match self {
            JsonValue::Null => JsonValue::Null,
            JsonValue::Boolean(b) => JsonValue::Boolean(*b),
            JsonValue::Long(n) => JsonValue::Long(*n),
            JsonValue::ULong(n) => JsonValue::ULong(*n),
            JsonValue::Double(bits) => JsonValue::Double(*bits),
            JsonValue::String(s) => JsonValue::String(s.clone()),
            JsonValue::Array(items) => {
                let out = clone_jsons(items);
                proof {
                    broadcast use lemma_jsons_model_len, lemma_jsons_model_index;

                    assert(jsons_model(out@) =~= jsons_model(items@));
                }
                JsonValue::Array(out)
            },
            JsonValue::Object(items) => {
                let out = clone_json_pairs(items);
                proof {
                    broadcast use lemma_json_pairs_model_len, lemma_json_pairs_model_index;

                    assert(json_pairs_model(out@) =~= json_pairs_model(items@));
                }
                JsonValue::Object(out)
            },
        }
    }
}

/// The two's-complement reading of an unsigned 64-bit value as a signed
/// one.
pub open spec fn wrap_i64(n: u64) -> i64 {
    if n <= i64::MAX as u64 {
        n as i64
    } else {
        ((n as int) - 0x1_0000_0000_0000_0000) as i64
    }
}

/// The canonical value a JSON-shaped default converts to: numbers become
/// `Long` (an unsigned one by its two's-complement reading) or `Double`,
/// arrays become arrays, and objects become maps.
pub open spec fn json_to_value(j: JsonM) -> ValueM
    decreases j,
{
    match j {
        JsonM::Null => ValueM::Null,
        JsonM::Boolean(b) => ValueM::Boolean(b),
        JsonM::Long(n) => ValueM::Long(n),
        JsonM::ULong(n) => ValueM::Long(wrap_i64(n)),
        JsonM::Double(bits) => ValueM::Double(bits),
        JsonM::String(s) => ValueM::String(s),
        JsonM::Array(items) => ValueM::Array(json_seq_to_values(items)),
        JsonM::Object(items) => ValueM::Mapping(json_pairs_to_values(items)),
    }
}

/// The canonical values of a sequence of JSON-shaped values, in order.
pub open spec fn json_seq_to_values(s: Seq<JsonM>) -> Seq<ValueM>
    decreases s,
{
    if s.len() == 0 {
        Seq::empty()
    } else {
        seq![json_to_value(s[0])] + json_seq_to_values(s.drop_first())
    }
}

/// The canonical values of a sequence of (name, JSON value) pairs.
pub open spec fn json_pairs_to_values(s: Seq<(Seq<char>, JsonM)>) -> Seq<(Seq<char>, ValueM)>
    decreases s,
{
    if s.len() == 0 {
        Seq::empty()
    } else {
        seq![(s[0].0, json_to_value(s[0].1))] + json_pairs_to_values(s.drop_first())
    }
}

/// The kind of a schema node or of the schema a value would need; used in
/// error reports and in the union-unwrapping rule of resolution.
#[derive(Clone, Copy, Debug, PartialEq, Eq, Structural)]
pub enum SchemaKind {
    Null,
    Boolean,
    Int,
    Long,
    Float,
    Double,
    Bytes,
    String,
    Fixed,
    Enum,
    Union,
    Array,
    Mapping,
    Record,
    TypeReference,
}

/// The kind of schema a value conforms to directly.
pub open spec fn kind_of_value(v: ValueM) -> SchemaKind {
    match v {
        ValueM::Null => SchemaKind::Null,
        ValueM::Boolean(_) => SchemaKind::Boolean,
        ValueM::Int(_) => SchemaKind::Int,
        ValueM::Long(_) => SchemaKind::Long,
        ValueM::Float(_) => SchemaKind::Float,
        ValueM::Double(_) => SchemaKind::Double,
        ValueM::Bytes(_) => SchemaKind::Bytes,
        ValueM::String(_) => SchemaKind::String,
        ValueM::Fixed(_, _) => SchemaKind::Fixed,
        ValueM::Enum(_, _) => SchemaKind::Enum,
        ValueM::Union(_) => SchemaKind::Union,
        ValueM::Array(_) => SchemaKind::Array,
        ValueM::Mapping(_) => SchemaKind::Mapping,
        ValueM::Record(_) => SchemaKind::Record,
    }
}

impl SchemaKind {
    /// The kind of schema this value conforms to directly.
    pub fn of_value(v: &Value) -> (r: SchemaKind)
        ensures
            r == kind_of_value(v@),
    {
        match v {
            Value::Null => SchemaKind::Null,
            Value::Boolean(_) => SchemaKind::Boolean,
            Value::Int(_) => SchemaKind::Int,
            Value::Long(_) => SchemaKind::Long,
            Value::Float(_) => SchemaKind::Float,
            Value::Double(_) => SchemaKind::Double,
            Value::Bytes(_) => SchemaKind::Bytes,
            Value::String(_) => SchemaKind::String,
            Value::Fixed(_, _) => SchemaKind::Fixed,
            Value::Enum(_, _) => SchemaKind::Enum,
            Value::Union(_) => SchemaKind::Union,
            Value::Array(_) => SchemaKind::Array,
            Value::Mapping(_) => SchemaKind::Mapping,
            Value::Record(_) => SchemaKind::Record,
        }
    }
}

/// What went wrong during schema resolution.
#[derive(Clone, Copy, Debug, PartialEq, Eq, Structural)]
pub enum ResolutionErrorKind {
    /// The value's kind cannot be read as the reader schema's kind.
    KindMismatch { expected: SchemaKind, actual: SchemaKind },
    /// A reader record field neither written nor carrying a default.
    MissingField,
    /// An enum value whose index falls outside the symbol list.
    EnumIndexOutOfRange,
    /// An enum symbol not in the reader's symbol list.
    UnknownEnumSymbol,
    /// No branch of the reader union accepts the value.
    UnionBranchNotFound,
    /// Bytes read as text that are not UTF-8.
    Utf8ConversionFailure,
    /// A fixed value whose length differs from the declared size.
    FixedSizeMismatch,
    /// A type reference that the context does not resolve.
    UnresolvedReference,
    /// A chain of references and defaults deeper than resolution follows.
    DepthLimitExceeded,
}

/// Describes errors happened while performing schema resolution on data.
#[derive(Clone, Copy, Debug, PartialEq, Eq, Structural)]
pub struct SchemaResolutionError {
    /// What went wrong.
    pub kind: ResolutionErrorKind,
}

impl SchemaResolutionError {
    /// Wrap a resolution error kind.
    pub fn new(kind: ResolutionErrorKind) -> (r: SchemaResolutionError)
        ensures
            r.kind == kind,
    {
        SchemaResolutionError { kind }
    }
}

/// Relies on std's `String::from_utf8`: it succeeds exactly on UTF-8 input,
/// and the returned string's UTF-8 bytes are the input.
#[verifier::external_body]
pub(crate) fn utf8_to_string(bytes: Vec<u8>) -> (r: Option<String>)
    ensures
        match r {
            Some(s) => vstd::utf8::valid_utf8(bytes@) && vstd::utf8::encode_utf8(s@) == bytes@,
            None => !vstd::utf8::valid_utf8(bytes@),
        },
{
    String::from_utf8(bytes).ok()
}

} // verus!

verus! {

/// Anything that can turn itself into a canonical [`Value`].
pub trait ToAvro {
    /// The model of the value this converts to.
    spec fn to_avro_spec(&self) -> ValueM;

    /// What the conversion asks of its input; most inputs ask nothing.
    spec fn avro_req(&self) -> bool;

    /// Transforms this into a canonical [`Value`].
    fn avro(self) -> (r: Value)
        requires
            self.avro_req(),
        ensures
            r@ == self.to_avro_spec(),
    ;
}

impl ToAvro for bool {
    open spec fn to_avro_spec(&self) -> ValueM {
        ValueM::Boolean(*self)
    }

    open spec fn avro_req(&self) -> bool {
        true
    }

    fn avro(self) -> (r: Value) {
        Value::Boolean(self)
    }
}

impl ToAvro for i32 {
    open spec fn to_avro_spec(&self) -> ValueM {
        ValueM::Int(*self)
    }

    open spec fn avro_req(&self) -> bool {
        true
    }

    fn avro(self) -> (r: Value) {
        Value::Int(self)
    }
}

impl ToAvro for i64 {
    open spec fn to_avro_spec(&self) -> ValueM {
        ValueM::Long(*self)
    }

    open spec fn avro_req(&self) -> bool {
        true
    }

    fn avro(self) -> (r: Value) {
        Value::Long(self)
    }
}

impl ToAvro for () {
    open spec fn to_avro_spec(&self) -> ValueM {
        ValueM::Null
    }

    open spec fn avro_req(&self) -> bool {
        true
    }

    fn avro(self) -> (r: Value) {
        Value::Null
    }
}

impl ToAvro for usize {
    open spec fn to_avro_spec(&self) -> ValueM {
        ValueM::Long(*self as i64)
    }

    /// The wire format's integers are signed 64-bit.
    open spec fn avro_req(&self) -> bool {
        *self <= i64::MAX
    }

    fn avro(self) -> (r: Value) {
        Value::Long(self as i64)
    }
}

impl ToAvro for String {
    open spec fn to_avro_spec(&self) -> ValueM {
        ValueM::String(self@)
    }

    open spec fn avro_req(&self) -> bool {
        true
    }

    fn avro(self) -> (r: Value) {
        Value::String(self)
    }
}

impl<'a> ToAvro for &'a str {
    open spec fn to_avro_spec(&self) -> ValueM {
        ValueM::String(self@)
    }

    open spec fn avro_req(&self) -> bool {
        true
    }

    fn avro(self) -> (r: Value) {
        Value::String(self.to_owned())
    }
}

impl<'a> ToAvro for &'a [u8] {
    open spec fn to_avro_spec(&self) -> ValueM {
        ValueM::Bytes(self@)
    }

    open spec fn avro_req(&self) -> bool {
        true
    }

    fn avro(self) -> (r: Value) {
        let b = vstd::slice::slice_to_vec(self);
        proof {
            assert(b@ =~= self@);
        }
        Value::Bytes(b)
    }
}

impl<T: ToAvro> ToAvro for Option<T> {
    open spec fn to_avro_spec(&self) -> ValueM {
        match self {
            Some(v) => ValueM::Union(Box::new(v.to_avro_spec())),
            None => ValueM::Union(Box::new(ValueM::Null)),
        }
    }

    open spec fn avro_req(&self) -> bool {
        match self {
            Some(v) => v.avro_req(),
            None => true,
        }
    }

    fn avro(self) -> (r: Value) {
        match self {
            Some(v) => {
                let ghost expected = v.to_avro_spec();
                let iv = v.avro();
                let bx = Box::new(iv);
                proof {
                    assert(value_model(iv) == expected);
                    assert(value_model(Value::Union(bx)) == ValueM::Union(
                        Box::new(value_model(iv)),
                    ));
                    assert(self.to_avro_spec() == ValueM::Union(Box::new(expected)));
                    assert(value_model(Value::Union(bx)) == self.to_avro_spec());
                }
                Value::Union(bx)
            },
            None => {
                let bx = Box::new(Value::Null);
                proof {
                    assert(value_model(Value::Null) == ValueM::Null);
                    assert(self.to_avro_spec() == ValueM::Union(Box::new(ValueM::Null)));
                    assert(value_model(Value::Union(bx)) == self.to_avro_spec());
                }
                Value::Union(bx)
            },
        }
    }
}

impl ToAvro for Value {
    open spec fn to_avro_spec(&self) -> ValueM {
        value_model(*self)
    }

    open spec fn avro_req(&self) -> bool {
        true
    }

    fn avro(self) -> (r: Value) {
        self
    }
}

impl ToAvro for JsonValue {
    open spec fn to_avro_spec(&self) -> ValueM {
        json_to_value(json_model(*self))
    }

    open spec fn avro_req(&self) -> bool {
        true
    }

    /// The canonical value of a JSON-shaped one, per [`json_to_value`].
    fn avro(self) -> (r: Value) {
        json_convert(&self)
    }
}

/// The canonical value of a JSON-shaped value.
pub(crate) fn json_convert(j: &JsonValue) -> (r: Value)
    ensures
        r@ == json_to_value(json_model(*j)),
    decreases j,
{
    match j {
        JsonValue::Null => Value::Null,
        JsonValue::Boolean(b) => Value::Boolean(*b),
        JsonValue::Long(n) => Value::Long(*n),
        JsonValue::ULong(n) => {
            if *n <= (i64::MAX as u64) {
                Value::Long(*n as i64)
            } else {
                Value::Long(((*n as i128) - 0x1_0000_0000_0000_0000_i128) as i64)
            }
        },
        JsonValue::Double(bits) => Value::Double(*bits),
        JsonValue::String(s) => Value::String(s.clone()),
        JsonValue::Array(items) => {
            proof {
                assert(decreases_to!(*j => items@));
            }
            let converted = json_convert_seq(items, 0);
            proof {
                assert(items@.skip(0) =~= items@);
            }
            Value::Array(converted)
        },
        JsonValue::Object(items) => {
            proof {
                assert(decreases_to!(*j => items@));
            }
            let converted = json_convert_pairs(items, 0);
            proof {
                assert(items@.skip(0) =~= items@);
            }
            Value::Mapping(converted)
        },
    }
}

/// The canonical values of the JSON-shaped elements from `i` on.
fn json_convert_seq(items: &Vec<JsonValue>, i: usize) -> (r: Vec<Value>)
    requires
        i <= items@.len(),
    ensures
        values_model(r@) == json_seq_to_values(jsons_model(items@.skip(i as int))),
    decreases items@, items@.len() - i,
{
    let mut out: Vec<Value>;
    if i == items.len() {
        out = Vec::new();
        proof {
            assert(items@.skip(i as int).len() == 0);
            assert(values_model(out@) =~= json_seq_to_values(jsons_model(items@.skip(i as int))));
        }
    } else {
        proof {
            assert(decreases_to!(items@ => items@[i as int]));
            assert(items@.skip(i as int)[0] == items@[i as int]);
            assert(items@.skip(i as int).drop_first() =~= items@.skip(i as int + 1));
        }
        let head = json_convert(&items[i]);
        let tail = json_convert_seq(items, i + 1);
        out = tail;
        out.insert(0, head);
        proof {
            broadcast use lemma_jsons_model_len, lemma_jsons_model_index;

            assert(out@.drop_first() =~= tail@);
            assert(values_model(out@) =~= seq![value_model(out@[0])] + values_model(tail@));
            assert(jsons_model(items@.skip(i as int)) =~= seq![
                json_model(items@[i as int]),
            ] + jsons_model(items@.skip(i as int + 1)));
            assert(jsons_model(items@.skip(i as int)).drop_first() =~= jsons_model(
                items@.skip(i as int + 1),
            ));
            assert(values_model(out@) =~= json_seq_to_values(jsons_model(items@.skip(i as int))));
        }
    }
    out
}

/// The canonical values of the JSON-shaped entries from `i` on.
fn json_convert_pairs(items: &Vec<(String, JsonValue)>, i: usize) -> (r: Vec<(String, Value)>)
    requires
        i <= items@.len(),
    ensures
        pairs_model(r@) == json_pairs_to_values(json_pairs_model(items@.skip(i as int))),
    decreases items@, items@.len() - i,
{
    let mut out: Vec<(String, Value)>;
    if i == items.len() {
        out = Vec::new();
        proof {
            assert(items@.skip(i as int).len() == 0);
            assert(pairs_model(out@) =~= json_pairs_to_values(
                json_pairs_model(items@.skip(i as int)),
            ));
        }
    } else {
        proof {
            assert(decreases_to!(items@ => items@[i as int]));
            assert(items@.skip(i as int)[0] == items@[i as int]);
            assert(items@.skip(i as int).drop_first() =~= items@.skip(i as int + 1));
        }
        let key = items[i].0.clone();
        let head = json_convert(&items[i].1);
        let tail = json_convert_pairs(items, i + 1);
        out = tail;
        out.insert(0, (key, head));
        proof {
            broadcast use lemma_json_pairs_model_len, lemma_json_pairs_model_index;

            assert(out@.drop_first() =~= tail@);
            assert(pairs_model(out@) =~= seq![(out@[0].0@, value_model(out@[0].1))] + pairs_model(
                tail@,
            ));
            assert(json_pairs_model(items@.skip(i as int)) =~= seq![
                (items@[i as int].0@, json_model(items@[i as int].1)),
            ] + json_pairs_model(items@.skip(i as int + 1)));
            assert(json_pairs_model(items@.skip(i as int)).drop_first() =~= json_pairs_model(
                items@.skip(i as int + 1),
            ));
            assert(pairs_model(out@) =~= json_pairs_to_values(
                json_pairs_model(items@.skip(i as int)),
            ));
        }
    }
    out
}

} // verus!

verus! {

/// The model of a [`Record`] builder: its fields and its name-to-position
/// table.
pub struct RecordBuilderM {
    pub fields: Seq<(Seq<char>, ValueM)>,
    pub lookup: Seq<(Seq<char>, int)>,
}

/// Utility interface to build record values against a record schema.
#[derive(Debug)]
pub struct Record {
    /// The fields, ordered as in the schema this was created from; any
    /// unset field holds the placeholder.
    pub fields: Vec<(String, Value)>,
    /// The schema's name-to-position table.
    pub schema_lookup: Vec<(String, usize)>,
}

impl View for Record {
    type V = RecordBuilderM;

    open spec fn view(&self) -> RecordBuilderM {
        RecordBuilderM {
            fields: pairs_model(self.fields@),
            lookup: crate::schema::lookup_model(self.schema_lookup@),
        }
    }
}

/// First position registered under `name`, if any.
pub open spec fn lookup_pos(lk: Seq<(Seq<char>, int)>, name: Seq<char>) -> Option<int>
    decreases lk,
{
    if lk.len() == 0 {
        None
    } else if lk[0].0 == name {
        Some(lk[0].1)
    } else {
        lookup_pos(lk.drop_first(), name)
    }
}

impl Record {
    /// A record builder for a record schema, every field set to null;
    /// `None` for any other schema.
    pub fn new(schema: &crate::schema::Schema) -> (r: Option<Record>)
        ensures
            match r {
                Some(rec) => schema@.tree matches crate::schema::SchemaM::Record {
                    fields,
                    lookup,
                    ..
                } && rec@.lookup == lookup && rec@.fields.len() == fields.len() && forall|i: int|
                    0 <= i < fields.len() ==> rec@.fields[i] == (fields[i].name, ValueM::Null),
                None => !(schema@.tree is Record),
            },
    {
        Self::with_placeholder(schema, &Value::Null)
    }

    /// A record builder for a record schema, every field set to a copy of
    /// the placeholder; `None` for any other schema.
    pub fn with_placeholder(schema: &crate::schema::Schema, placeholder: &Value) -> (r: Option<
        Record,
    >)
        ensures
            match r {
                Some(rec) => schema@.tree matches crate::schema::SchemaM::Record {
                    fields,
                    lookup,
                    ..
                } && rec@.lookup == lookup && rec@.fields.len() == fields.len() && forall|i: int|
                    0 <= i < fields.len() ==> rec@.fields[i] == (fields[i].name, placeholder@),
                None => !(schema@.tree is Record),
            },
    {
        match schema.ref_inner() {
            crate::schema::SchemaTree::Record { fields: schema_fields, lookup, .. } => {
                let mut fields: Vec<(String, Value)> = Vec::new();
                let mut i: usize = 0;
                while i < schema_fields.len()
                    invariant
                        0 <= i <= schema_fields@.len(),
                        fields@.len() == i,
                        forall|j: int|
                            0 <= j < i ==> (#[trigger] fields@[j]).0@ == schema_fields@[j].name@
                                && value_model(fields@[j].1) == placeholder@,
                    decreases schema_fields@.len() - i,
                {
                    fields.push((schema_fields[i].name.clone(), placeholder.clone()));
                    i = i + 1;
                }
                let mut schema_lookup: Vec<(String, usize)> = Vec::new();
                let mut k: usize = 0;
                while k < lookup.len()
                    invariant
                        0 <= k <= lookup@.len(),
                        schema_lookup@.len() == k,
                        forall|j: int|
                            0 <= j < k ==> (#[trigger] schema_lookup@[j]).0@ == lookup@[j].0@
                                && schema_lookup@[j].1 == lookup@[j].1,
                    decreases lookup@.len() - k,
                {
                    schema_lookup.push((lookup[k].0.clone(), lookup[k].1));
                    k = k + 1;
                }
                let rec = Record { fields, schema_lookup };
                proof {
                    broadcast use
                        lemma_pairs_model_len,
                        lemma_pairs_model_index,
                        crate::schema::lemma_fields_model_len,
                        crate::schema::lemma_fields_model_index,
                    ;

                    assert(rec@.lookup =~= crate::schema::lookup_model(lookup@));
                    assert forall|i: int| 0 <= i < crate::schema::fields_model(schema_fields@).len()
                        implies rec@.fields[i] == (
                        crate::schema::fields_model(schema_fields@)[i].name,
                        placeholder@,
                    ) by {}
                }
                Some(rec)
            },
            _ => None,
        }
    }

    /// Put a value, converted to canonical form, under a field name the
    /// schema knows. A name the table does not know, or one whose
    /// position falls outside the fields, changes nothing.
    pub fn put<V: ToAvro>(&mut self, field: &str, value: V)
        requires
            value.avro_req(),
        ensures
            ({
                let pos = lookup_pos(old(self)@.lookup, field@);
                final(self)@.lookup == old(self)@.lookup && match pos {
                    Some(p) => if 0 <= p < old(self)@.fields.len() {
                        final(self)@.fields == old(self)@.fields.update(
                            p,
                            (old(self)@.fields[p].0, value.to_avro_spec()),
                        )
                    } else {
                        final(self)@.fields == old(self)@.fields
                    },
                    None => final(self)@.fields == old(self)@.fields,
                }
            }),
    {
        let fkey = field.to_owned();
        let ghost lkm = self@.lookup;
        let mut i: usize = 0;
        proof {
            assert(lkm.skip(0) =~= lkm);
        }
        while i < self.schema_lookup.len()
            invariant
                0 <= i <= self.schema_lookup@.len(),
                fkey@ == field@,
                value.avro_req(),
                self.fields@ == old(self).fields@,
                self.schema_lookup@ == old(self).schema_lookup@,
                lkm == crate::schema::lookup_model(self.schema_lookup@),
                lookup_pos(lkm, field@) == lookup_pos(lkm.skip(i as int), field@),
            decreases self.schema_lookup@.len() - i,
        {
            proof {
                assert(lkm.skip(i as int)[0] == lkm[i as int]);
                assert(lkm.skip(i as int).drop_first() =~= lkm.skip(i as int + 1));
            }
            if self.schema_lookup[i].0.eq(&fkey) {
                let position = self.schema_lookup[i].1;
                proof {
                    assert(lkm[i as int] == (self.schema_lookup@[i as int].0@, position as int));
                    assert(lookup_pos(lkm.skip(i as int), field@) == Some(position as int));
                    assert(lookup_pos(lkm, field@) == Some(position as int));
                }
                if position < self.fields.len() {
                    let name = self.fields[position].0.clone();
                    let converted = value.avro();
                    self.fields.set(position, (name, converted));
                    proof {
                        broadcast use lemma_pairs_model_len, lemma_pairs_model_index;

                        assert(pairs_model(self.fields@) =~= pairs_model(
                            old(self).fields@,
                        ).update(position as int, (old(self)@.fields[position as int].0, value.to_avro_spec())));
                        assert(self@.lookup =~= lkm);
                    }
                } else {
                    proof {
                        broadcast use lemma_pairs_model_len;

                        assert(position as int >= old(self)@.fields.len());
                        assert(self@.lookup =~= lkm);
                    }
                }
                return ;
            }
            i = i + 1;
        }
        proof {
            assert(lkm.skip(i as int).len() == 0);
        }
    }
}

impl ToAvro for Record {
    open spec fn to_avro_spec(&self) -> ValueM {
        ValueM::Record(self@.fields)
    }

    open spec fn avro_req(&self) -> bool {
        true
    }

    fn avro(self) -> (r: Value) {
        Value::Record(self.fields)
    }
}

} // verus!
