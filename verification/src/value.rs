//! The decoded value tree, and its mathematical model.
//!
//! The decoder is a push/pull protocol first (see `CommaSeparated` and
//! `ArmaClass`); `Value` is what the lookahead-directed mode produces when
//! the caller declares no expected shape. String values are always owned:
//! escape processing can make a string differ from every slice of the
//! input, and this implementation allocates in the unescaped case too
//! rather than hand out views tied to the input buffer's lifetime.

use vstd::prelude::*;

verus! {

broadcast use vstd::seq::axiom_seq_index_decreases, vstd::std_specs::vec::axiom_vec_decreases_to_view;

/// A decoded value.
#[derive(Debug, PartialEq, Eq)]
pub enum Value {
    /// The literal `null`.
    Null,
    /// The literal `true` or `false`.
    Bool(bool),
    /// A numeric literal without `.` or `-`.
    UInt(u64),
    /// A numeric literal with a sign and no `.`.
    Int(i64),
    /// A numeric literal holding a `.`, kept as its raw lexeme;
    /// conversion is delegated to the host's string-to-float parser,
    /// outside this crate.
    Float(String),
    /// A quoted string, after escape processing.
    Str(String),
    /// A `{ v1, v2, ... }` array body, in input order.
    Arr(Vec<Value>),
    /// A class body: its `(key, value)` statements, in input order.
    Cls(Vec<(String, Value)>),
}

/// The mathematical shape of a [`Value`]: the same tree over `Seq<char>`
/// and `Seq` in place of `String` and `Vec`. The grammar's spec functions
/// speak of this type.
pub enum ValueModel {
    Null,
    Bool(bool),
    UInt(u64),
    Int(i64),
    Float(Seq<char>),
    Str(Seq<char>),
    Arr(Seq<ValueModel>),
    Cls(Seq<(Seq<char>, ValueModel)>),
}

/// The models of a sequence of values, element by element.
pub open spec fn vals_model(vs: Seq<Value>) -> Seq<ValueModel>
    decreases vs,
{
    if vs.len() == 0 {
        Seq::empty()
    } else {
        seq![vs[0].model()] + vals_model(vs.drop_first())
    }
}

/// The models of a sequence of `(key, value)` statements.
pub open spec fn fields_model(fs: Seq<(String, Value)>) -> Seq<(Seq<char>, ValueModel)>
    decreases fs,
{
    if fs.len() == 0 {
        Seq::empty()
    } else {
        seq![(fs[0].0@, fs[0].1.model())] + fields_model(fs.drop_first())
    }
}

/// Appending a value appends its model.
pub proof fn lemma_vals_model_push(vs: Seq<Value>, v: Value)
    ensures
        vals_model(vs.push(v)) == vals_model(vs) + seq![v.model()],
    decreases vs.len(),
{
    let u = vs.push(v);
    reveal_with_fuel(vals_model, 3);
    if vs.len() == 0 {
        assert(u[0] == v);
        assert(u.drop_first() =~= Seq::<Value>::empty());
        assert(seq![v.model()] + Seq::<ValueModel>::empty() =~= seq![v.model()]);
        assert(Seq::<ValueModel>::empty() + seq![v.model()] =~= seq![v.model()]);
    } else {
        assert(u[0] == vs[0]);
        assert(u.drop_first() =~= vs.drop_first().push(v));
        lemma_vals_model_push(vs.drop_first(), v);
        assert(seq![vs[0].model()] + (vals_model(vs.drop_first()) + seq![v.model()]) =~= (seq![
            vs[0].model(),
        ] + vals_model(vs.drop_first())) + seq![v.model()]);
    }
}

/// Appending a statement appends its model.
pub proof fn lemma_fields_model_push(fs: Seq<(String, Value)>, kv: (String, Value))
    ensures
        fields_model(fs.push(kv)) == fields_model(fs) + seq![(kv.0@, kv.1.model())],
    decreases fs.len(),
{
    let u = fs.push(kv);
    reveal_with_fuel(fields_model, 3);
    if fs.len() == 0 {
        assert(u[0] == kv);
        assert(u.drop_first() =~= Seq::<(String, Value)>::empty());
        assert(seq![(kv.0@, kv.1.model())] + Seq::<(Seq<char>, ValueModel)>::empty() =~= seq![
            (kv.0@, kv.1.model()),
        ]);
        assert(Seq::<(Seq<char>, ValueModel)>::empty() + seq![(kv.0@, kv.1.model())] =~= seq![
            (kv.0@, kv.1.model()),
        ]);
    } else {
        assert(u[0] == fs[0]);
        assert(u.drop_first() =~= fs.drop_first().push(kv));
        lemma_fields_model_push(fs.drop_first(), kv);
        assert(seq![(fs[0].0@, fs[0].1.model())] + (fields_model(fs.drop_first()) + seq![
            (kv.0@, kv.1.model()),
        ]) =~= (seq![(fs[0].0@, fs[0].1.model())] + fields_model(fs.drop_first())) + seq![
            (kv.0@, kv.1.model()),
        ]);
    }
}

impl Value {
    /// The mathematical model of this value.
    pub open spec fn model(self) -> ValueModel
        decreases self,
    {
        match self {
            Value::Null => ValueModel::Null,
            Value::Bool(b) => ValueModel::Bool(b),
            Value::UInt(n) => ValueModel::UInt(n),
            Value::Int(n) => ValueModel::Int(n),
            Value::Float(s) => ValueModel::Float(s@),
            Value::Str(s) => ValueModel::Str(s@),
            Value::Arr(vs) => ValueModel::Arr(vals_model(vs@)),
            Value::Cls(fs) => ValueModel::Cls(fields_model(fs@)),
        }
    }
}

} // verus!
