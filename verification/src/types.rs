//! The document model: values, nodes and documents.  A node owns a mapping
//! of subnode names to nodes and a mapping of attribute names to values; the
//! two namespaces are independent.  Mappings keep their entries in insertion
//! order; inserting an existing key replaces its value in place.

use vstd::prelude::*;
use crate::parser::{ParsedValue, PvV};

verus! {

use vstd::string::StringExecFns;

broadcast use vstd::std_specs::vec::axiom_vec_index_decreases, vstd::seq::axiom_seq_index_decreases;


/// The mathematical shape of a value: mappings as ordered sequences of
/// key/value pairs.
pub enum ValueV {
    Str(Seq<char>),
    Int(i64),
    Float(Seq<char>),
    Bool(bool),
    Ident(Seq<char>),
    Dict(Seq<(Seq<char>, ValueV)>),
    List(Seq<ValueV>),
    Null,
}

/// A figtree value: a scalar, a dict of values, or a list of values.  Floats
/// keep their spelling.
#[derive(Debug)]
pub enum Value {
    Str(String),
    Int(i64),
    Float(String),
    Bool(bool),
    Ident(String),
    Dict(Dict),
    List(List),
    Null,
}

/// A figtree dict: string keys mapped to values, in insertion order.
#[derive(Debug)]
pub struct Dict {
    pub entries: Vec<(String, Value)>,
}

/// A figtree list: values in order.
pub type List = Vec<Value>;

/// The content of a value, recursively.
pub open spec fn value_v(v: Value) -> ValueV
    decreases v,
{
    match v {
        Value::Str(s) => ValueV::Str(s@),
        Value::Int(n) => ValueV::Int(n),
        Value::Float(s) => ValueV::Float(s@),
        Value::Bool(b) => ValueV::Bool(b),
        Value::Ident(s) => ValueV::Ident(s@),
        Value::Dict(d) => ValueV::Dict(entries_v(d.entries@)),
        Value::List(l) => ValueV::List(list_v(l@)),
        Value::Null => ValueV::Null,
    }
}

/// The content of a run of entries: each key and value, in order.
pub open spec fn entries_v(es: Seq<(String, Value)>) -> Seq<(Seq<char>, ValueV)>
    decreases es,
{
    if es.len() == 0 {
        Seq::<(Seq<char>, ValueV)>::empty()
    } else {
        seq![(es[0].0@, value_v(es[0].1))] + entries_v(es.drop_first())
    }
}

/// The content of a run of values, in order.
pub open spec fn list_v(l: Seq<Value>) -> Seq<ValueV>
    decreases l,
{
    if l.len() == 0 {
        Seq::<ValueV>::empty()
    } else {
        seq![value_v(l[0])] + list_v(l.drop_first())
    }
}

/// The content of a run of entries, entry by entry.
pub proof fn lemma_entries_v(es: Seq<(String, Value)>)
    ensures
        entries_v(es).len() == es.len(),
        forall|i: int|
            0 <= i < es.len() ==> #[trigger] entries_v(es)[i] == (es[i].0@, value_v(es[i].1)),
    decreases es.len(),
{
    if es.len() > 0 {
        lemma_entries_v(es.drop_first());
    }
}

/// The content of a run of values, value by value.
pub proof fn lemma_list_v(l: Seq<Value>)
    ensures
        list_v(l).len() == l.len(),
        forall|i: int| 0 <= i < l.len() ==> #[trigger] list_v(l)[i] == value_v(l[i]),
    decreases l.len(),
{
    if l.len() > 0 {
        lemma_list_v(l.drop_first());
    }
}

impl View for Value {
    type V = ValueV;

    open spec fn view(&self) -> ValueV {
        value_v(*self)
    }
}

impl View for Dict {
    type V = Seq<(Seq<char>, ValueV)>;

    open spec fn view(&self) -> Seq<(Seq<char>, ValueV)> {
        entries_v(self.entries@)
    }
}

// ---------------------------------------------------------------------------
// Ordered key/value mappings.
// ---------------------------------------------------------------------------
/// The value mapped to `k`: the first entry with that key.
pub open spec fn lookup<V>(es: Seq<(Seq<char>, V)>, k: Seq<char>) -> Option<V>
    decreases es.len(),
{
    if es.len() == 0 {
        None
    } else if es[0].0 == k {
        Some(es[0].1)
    } else {
        lookup(es.drop_first(), k)
    }
}

/// Map `k` to `v`: replace the first entry with that key in place, or append
/// a new entry at the end.
pub open spec fn upsert<V>(es: Seq<(Seq<char>, V)>, k: Seq<char>, v: V) -> Seq<(Seq<char>, V)>
    decreases es.len(),
{
    if es.len() == 0 {
        seq![(k, v)]
    } else if es[0].0 == k {
        seq![(k, v)] + es.drop_first()
    } else {
        seq![es[0]] + upsert(es.drop_first(), k, v)
    }
}

/// Remove the first entry with key `k`, if any.
pub open spec fn remove_key<V>(es: Seq<(Seq<char>, V)>, k: Seq<char>) -> Seq<(Seq<char>, V)>
    decreases es.len(),
{
    if es.len() == 0 {
        es
    } else if es[0].0 == k {
        es.drop_first()
    } else {
        seq![es[0]] + remove_key(es.drop_first(), k)
    }
}

/// When the first `i` keys differ from `k` and the key at `i` matches,
/// the lookup finds the entry at `i`, upserting updates it in place, and
/// removal deletes it.
pub proof fn lemma_map_ops_at<V>(es: Seq<(Seq<char>, V)>, k: Seq<char>, v: V, i: int)
    requires
        0 <= i < es.len(),
        es[i].0 == k,
        forall|j: int| 0 <= j < i ==> es[j].0 != k,
    ensures
        lookup(es, k) == Some(es[i].1),
        upsert(es, k, v) =~= es.update(i, (k, v)),
        remove_key(es, k) =~= es.remove(i),
    decreases i,
{
    if i == 0 {
        assert(seq![(k, v)] + es.drop_first() =~= es.update(0, (k, v)));
    } else {
        assert(forall|j: int| 0 <= j < i - 1 ==> es.drop_first()[j].0 != k);
        lemma_map_ops_at(es.drop_first(), k, v, i - 1);
        assert(seq![es[0]] + upsert(es.drop_first(), k, v) =~= es.update(i, (k, v)));
        assert(seq![es[0]] + remove_key(es.drop_first(), k) =~= es.remove(i));
    }
}

/// When no key matches `k`, the lookup fails, upserting appends, and removal
/// changes nothing.
pub proof fn lemma_map_ops_absent<V>(es: Seq<(Seq<char>, V)>, k: Seq<char>, v: V)
    requires
        forall|j: int| 0 <= j < es.len() ==> es[j].0 != k,
    ensures
        lookup(es, k) is None,
        upsert(es, k, v) =~= es.push((k, v)),
        remove_key(es, k) =~= es,
    decreases es.len(),
{
    if es.len() > 0 {
        assert(forall|j: int| 0 <= j < es.drop_first().len() ==> es.drop_first()[j].0 != k);
        lemma_map_ops_absent(es.drop_first(), k, v);
        assert(seq![es[0]] + upsert(es.drop_first(), k, v) =~= es.push((k, v)));
        assert(seq![es[0]] + remove_key(es.drop_first(), k) =~= es);
    } else {
        assert(upsert(es, k, v) =~= es.push((k, v)));
    }
}

/// Mapping a key that is not yet present appends the new entry at the end.
pub proof fn lemma_upsert_fresh<V>(es: Seq<(Seq<char>, V)>, k: Seq<char>, v: V)
    requires
        lookup(es, k) is None,
    ensures
        upsert(es, k, v) =~= es.push((k, v)),
    decreases es.len(),
{
    if es.len() > 0 {
        lemma_upsert_fresh(es.drop_first(), k, v);
        assert(seq![es[0]] + upsert(es.drop_first(), k, v) =~= es.push((k, v)));
    } else {
        assert(upsert(es, k, v) =~= es.push((k, v)));
    }
}

/// Looking a key up right after mapping it finds the new value, and every
/// other key still maps to what it mapped to before.
pub proof fn lemma_lookup_upsert<V>(es: Seq<(Seq<char>, V)>, k: Seq<char>, v: V, k2: Seq<char>)
    ensures
        lookup(upsert(es, k, v), k) == Some(v),
        k2 != k ==> lookup(upsert(es, k, v), k2) == lookup(es, k2),
    decreases es.len(),
{
    if es.len() > 0 && es[0].0 != k {
        lemma_lookup_upsert(es.drop_first(), k, v, k2);
        assert((seq![es[0]] + upsert(es.drop_first(), k, v))[0] == es[0]);
        assert((seq![es[0]] + upsert(es.drop_first(), k, v)).len() > 0);
        assert((seq![es[0]] + upsert(es.drop_first(), k, v)).drop_first() =~= upsert(
            es.drop_first(),
            k,
            v,
        ));
        if k2 != k {
            if es[0].0 == k2 {
                assert(lookup(upsert(es, k, v), k2) == Some(es[0].1));
                assert(lookup(es, k2) == Some(es[0].1));
            } else {
                assert(lookup(upsert(es, k, v), k2) == lookup(upsert(es.drop_first(), k, v), k2));
                assert(lookup(es, k2) == lookup(es.drop_first(), k2));
            }
        }
    } else if es.len() > 0 {
        assert((seq![(k, v)] + es.drop_first())[0] == (k, v));
        assert((seq![(k, v)] + es.drop_first()).drop_first() =~= es.drop_first());
        if k2 != k {
            assert(lookup(upsert(es, k, v), k2) == lookup(es.drop_first(), k2));
            assert(lookup(es, k2) == lookup(es.drop_first(), k2));
        }
    } else {
        assert(upsert(es, k, v) == seq![(k, v)]);
        assert(seq![(k, v)][0] == (k, v));
        assert(seq![(k, v)].drop_first() =~= Seq::<(Seq<char>, V)>::empty());
        if k2 != k {
            assert(lookup(upsert(es, k, v), k2) == lookup(
                Seq::<(Seq<char>, V)>::empty(),
                k2,
            ));
            assert(lookup(Seq::<(Seq<char>, V)>::empty(), k2) is None);
        }
    }
}

/// A node's subnode namespace and attribute namespace are independent: one
/// name may stand in both at once, and mapping it in the one never disturbs
/// what it means in the other.
pub proof fn lemma_namespaces_independent(acc: NodeV, name: Seq<char>, sub: NodeV, val: ValueV)
    ensures
        ({
            let n2 = NodeV {
                subnodes: upsert(acc.subnodes, name, sub),
                attrs: upsert(acc.attrs, name, val),
            };
            &&& lookup(n2.subnodes, name) == Some(sub)
            &&& lookup(n2.attrs, name) == Some(val)
        }),
{
    lemma_lookup_upsert(acc.subnodes, name, sub, name);
    lemma_lookup_upsert(acc.attrs, name, val, name);
}

/// What a parsed scalar becomes as a document value.
pub open spec fn value_of_scalar(p: PvV) -> ValueV {
    match p {
        PvV::Str(s) => ValueV::Str(s),
        PvV::Int(n) => ValueV::Int(n),
        PvV::Float(s) => ValueV::Float(s),
        PvV::Bool(b) => ValueV::Bool(b),
        PvV::Ident(s) => ValueV::Ident(s),
        PvV::Null => ValueV::Null,
    }
}

/// Structural equality of values, by content.
fn value_eq(a: &Value, b: &Value) -> (r: bool)
    ensures
        r == (a@ == b@),
    decreases a,
{
    match (a, b) {
        (Value::Str(x), Value::Str(y)) => *x == *y,
        (Value::Int(x), Value::Int(y)) => *x == *y,
        (Value::Float(x), Value::Float(y)) => *x == *y,
        (Value::Bool(x), Value::Bool(y)) => *x == *y,
        (Value::Ident(x), Value::Ident(y)) => *x == *y,
        (Value::Null, Value::Null) => true,
        (Value::Dict(x), Value::Dict(y)) => {
            proof {
                lemma_entries_v(x.entries@);
                lemma_entries_v(y.entries@);
            }
            if x.entries.len() != y.entries.len() {
                false
            } else {
                let r = entries_eq_from(&x.entries, &y.entries, 0);
                proof {
                    assert(entries_v(x.entries@).skip(0) =~= entries_v(x.entries@));
                    assert(entries_v(y.entries@).skip(0) =~= entries_v(y.entries@));
                }
                r
            }
        },
        (Value::List(x), Value::List(y)) => {
            proof {
                lemma_list_v(x@);
                lemma_list_v(y@);
            }
            if x.len() != y.len() {
                false
            } else {
                let r = list_eq_from(x, y, 0);
                proof {
                    assert(list_v(x@).skip(0) =~= list_v(x@));
                    assert(list_v(y@).skip(0) =~= list_v(y@));
                }
                r
            }
        },
        _ => false,
    }
}

/// Structural equality of the values from index `i` on.
fn list_eq_from(x: &Vec<Value>, y: &Vec<Value>, i: usize) -> (r: bool)
    requires
        x@.len() == y@.len(),
        i <= x@.len(),
    ensures
        r == (list_v(x@).skip(i as int) == list_v(y@).skip(i as int)),
    decreases x, x@.len() - i,
{
    proof {
        lemma_list_v(x@);
        lemma_list_v(y@);
    }
    if i >= x.len() {
        proof {
            assert(list_v(x@).skip(i as int) =~= list_v(y@).skip(i as int));
        }
        true
    } else {
        proof {
            vstd::std_specs::vec::axiom_vec_index_decreases(*x, i as int);
        }
        let h = value_eq(&x[i], &y[i]);
        if !h {
            proof {
                assert(list_v(x@).skip(i as int)[0] != list_v(y@).skip(i as int)[0]);
            }
            false
        } else {
            let rest = list_eq_from(x, y, i + 1);
            proof {
                if rest {
                    assert forall|k: int|
                        0 <= k < list_v(x@).skip(i as int).len() implies list_v(x@).skip(
                        i as int,
                    )[k] == list_v(y@).skip(i as int)[k] by {
                        if k == 0 {
                            assert(list_v(x@)[i as int] == value_v(x@[i as int]));
                            assert(list_v(y@)[i as int] == value_v(y@[i as int]));
                        } else {
                            assert(list_v(x@).skip(i as int)[k] == list_v(x@).skip(i + 1)[k - 1]);
                            assert(list_v(y@).skip(i as int)[k] == list_v(y@).skip(i + 1)[k - 1]);
                        }
                    }
                    assert(list_v(x@).skip(i as int) =~= list_v(y@).skip(i as int));
                } else {
                    assert(list_v(x@).skip(i as int) != list_v(y@).skip(i as int)) by {
                        if list_v(x@).skip(i as int) == list_v(y@).skip(i as int) {
                            assert forall|k: int|
                                0 <= k < list_v(x@).skip(i + 1).len() implies #[trigger] list_v(
                                x@,
                            ).skip(i + 1)[k] == list_v(y@).skip(i + 1)[k] by {
                                assert(list_v(x@).skip(i + 1)[k] == list_v(x@).skip(i as int)[k
                                    + 1]);
                                assert(list_v(y@).skip(i + 1)[k] == list_v(y@).skip(i as int)[k
                                    + 1]);
                            }
                            assert(list_v(x@).skip(i + 1) =~= list_v(y@).skip(i + 1));
                        }
                    }
                }
            }
            rest
        }
    }
}

/// Structural equality of the entries from index `i` on.
fn entries_eq_from(x: &Vec<(String, Value)>, y: &Vec<(String, Value)>, i: usize) -> (r: bool)
    requires
        x@.len() == y@.len(),
        i <= x@.len(),
    ensures
        r == (entries_v(x@).skip(i as int) == entries_v(y@).skip(i as int)),
    decreases x, x@.len() - i,
{
    proof {
        lemma_entries_v(x@);
        lemma_entries_v(y@);
    }
    if i >= x.len() {
        proof {
            assert(entries_v(x@).skip(i as int) =~= entries_v(y@).skip(i as int));
        }
        true
    } else {
        let keys = x[i].0.eq(&y[i].0);
        proof {
            vstd::std_specs::vec::axiom_vec_index_decreases(*x, i as int);
        }
        let vals = value_eq(&x[i].1, &y[i].1);
        if !(keys && vals) {
            proof {
                assert(entries_v(x@).skip(i as int)[0] != entries_v(y@).skip(i as int)[0]);
            }
            false
        } else {
            let rest = entries_eq_from(x, y, i + 1);
            proof {
                if rest {
                    assert forall|k: int|
                        0 <= k < entries_v(x@).skip(i as int).len() implies entries_v(x@).skip(
                        i as int,
                    )[k] == entries_v(y@).skip(i as int)[k] by {
                        if k == 0 {
                            assert(entries_v(x@)[i as int] == (x@[i as int].0@, value_v(
                                x@[i as int].1,
                            )));
                            assert(entries_v(y@)[i as int] == (y@[i as int].0@, value_v(
                                y@[i as int].1,
                            )));
                        } else {
                            assert(entries_v(x@).skip(i as int)[k] == entries_v(x@).skip(i + 1)[k
                                - 1]);
                            assert(entries_v(y@).skip(i as int)[k] == entries_v(y@).skip(i + 1)[k
                                - 1]);
                        }
                    }
                    assert(entries_v(x@).skip(i as int) =~= entries_v(y@).skip(i as int));
                } else {
                    assert(entries_v(x@).skip(i as int) != entries_v(y@).skip(i as int)) by {
                        if entries_v(x@).skip(i as int) == entries_v(y@).skip(i as int) {
                            assert forall|k: int|
                                0 <= k < entries_v(x@).skip(i + 1).len() implies #[trigger] entries_v(
                                x@,
                            ).skip(i + 1)[k] == entries_v(y@).skip(i + 1)[k] by {
                                assert(entries_v(x@).skip(i + 1)[k] == entries_v(x@).skip(
                                    i as int,
                                )[k + 1]);
                                assert(entries_v(y@).skip(i + 1)[k] == entries_v(y@).skip(
                                    i as int,
                                )[k + 1]);
                            }
                            assert(entries_v(x@).skip(i + 1) =~= entries_v(y@).skip(i + 1));
                        }
                    }
                }
            }
            rest
        }
    }
}

impl PartialEq for Value {
    /// Values are equal when they have the same shape and content.
    fn eq(&self, other: &Value) -> (r: bool) {
        value_eq(self, other)
    }
}

impl vstd::std_specs::cmp::PartialEqSpecImpl for Value {
    open spec fn obeys_eq_spec() -> bool {
        true
    }

    open spec fn eq_spec(&self, other: &Value) -> bool {
        self@ == other@
    }
}

impl Value {
    /// Construct a new string `Value`.
    pub fn new_string(s: &str) -> (r: Self)
        ensures
            r@ == ValueV::Str(s@),
    {
        Value::Str(String::from_str(s))
    }

    /// Construct a new identifier `Value`.
    pub fn new_ident(s: &str) -> (r: Self)
        ensures
            r@ == ValueV::Ident(s@),
    {
        Value::Ident(String::from_str(s))
    }

    /// Construct a new integer `Value`.
    pub fn new_int(s: i64) -> (r: Self)
        ensures
            r@ == ValueV::Int(s),
    {
        Value::Int(s)
    }

    /// Construct a new float `Value` from the literal's spelling.
    pub fn new_float(s: &str) -> (r: Self)
        ensures
            r@ == ValueV::Float(s@),
    {
        Value::Float(String::from_str(s))
    }

    /// Construct a new boolean `Value`.
    pub fn new_bool(s: bool) -> (r: Self)
        ensures
            r@ == ValueV::Bool(s),
    {
        Value::Bool(s)
    }

    /// Construct a new null `Value`.
    pub fn new_null() -> (r: Self)
        ensures
            r@ == ValueV::Null,
    {
        Value::Null
    }

    /// Turn a scalar the parser produced into a document value.
    pub fn from_parsed_value(val: ParsedValue) -> (r: Self)
        ensures
            r@ == value_of_scalar(val@),
    {
        match val {
            ParsedValue::Str(s) => Value::Str(s),
            ParsedValue::Float(f) => Value::Float(f),
            ParsedValue::Bool(b) => Value::Bool(b),
            ParsedValue::Int(i) => Value::Int(i),
            ParsedValue::Ident(i) => Value::Ident(i),
            ParsedValue::Null => Value::Null,
        }
    }

    /// The contained text if this is a string.
    pub fn get_str(&self) -> (r: Option<&str>)
        ensures
            match r {
                Some(s) => self@ is Str && s@ == self@->Str_0,
                None => !(self@ is Str),
            },
    {
        match self {
            Value::Str(s) => Some(s.as_str()),
            _ => None,
        }
    }

    /// The contained value if this is an integer.
    pub fn get_int(&self) -> (r: Option<i64>)
        ensures
            match r {
                Some(n) => self@ == ValueV::Int(n),
                None => !(self@ is Int),
            },
    {
        match self {
            Value::Int(n) => Some(*n),
            _ => None,
        }
    }

    /// The contained float spelling if this is a float.
    pub fn get_float(&self) -> (r: Option<&str>)
        ensures
            match r {
                Some(s) => self@ is Float && s@ == self@->Float_0,
                None => !(self@ is Float),
            },
    {
        match self {
            Value::Float(s) => Some(s.as_str()),
            _ => None,
        }
    }

    /// The contained value if this is a boolean.
    pub fn get_bool(&self) -> (r: Option<bool>)
        ensures
            match r {
                Some(b) => self@ == ValueV::Bool(b),
                None => !(self@ is Bool),
            },
    {
        match self {
            Value::Bool(b) => Some(*b),
            _ => None,
        }
    }

    /// The contained text if this is an identifier.
    pub fn get_ident(&self) -> (r: Option<&str>)
        ensures
            match r {
                Some(s) => self@ is Ident && s@ == self@->Ident_0,
                None => !(self@ is Ident),
            },
    {
        match self {
            Value::Ident(s) => Some(s.as_str()),
            _ => None,
        }
    }

    /// The contained dict if this is one.
    pub fn get_dict(&self) -> (r: Option<&Dict>)
        ensures
            match r {
                Some(d) => self@ == ValueV::Dict(d@),
                None => !(self@ is Dict),
            },
    {
        match self {
            Value::Dict(d) => Some(d),
            _ => None,
        }
    }

    /// The contained list if this is one.
    pub fn get_list(&self) -> (r: Option<&List>)
        ensures
            match r {
                Some(l) => self@ == ValueV::List(list_v(l@)),
                None => !(self@ is List),
            },
    {
        match self {
            Value::List(l) => Some(l),
            _ => None,
        }
    }

    /// Whether this value is null.
    pub fn is_null(&self) -> (r: bool)
        ensures
            r == (self@ is Null),
    {
        match self {
            Value::Null => true,
            _ => false,
        }
    }
}

impl Dict {
    /// Construct a new, empty dict.
    pub fn new() -> (r: Self)
        ensures
            r@ == Seq::<(Seq<char>, ValueV)>::empty(),
    {
        let d = Dict { entries: Vec::new() };
        proof {
            assert(d@ =~= Seq::<(Seq<char>, ValueV)>::empty());
        }
        d
    }

    /// Map `name` to `value`, replacing in place; the replaced value comes
    /// back.
    pub fn insert(&mut self, name: String, value: Value) -> (r: Option<Value>)
        ensures
            final(self)@ == upsert(old(self)@, name@, value@),
            match r {
                Some(v) => lookup(old(self)@, name@) == Some(v@),
                None => lookup(old(self)@, name@) is None,
            },
    {
        let ghost es0 = self@;
        let ghost ev0 = self.entries@;
        proof {
            lemma_entries_v(ev0);
        }
        let n = self.entries.len();
        let mut i: usize = 0;
        while i < n
            invariant
                0 <= i <= n,
                n == self.entries@.len(),
                self.entries@ == ev0,
                old(self).entries@ == ev0,
                es0 == entries_v(ev0),
                es0 == old(self)@,
                forall|j: int| 0 <= j < i ==> es0[j].0 != name@,
            decreases n - i,
        {
            proof {
                lemma_entries_v(ev0);
            }
            if self.entries[i].0.eq(&name) {
                proof {
                    assert(es0[i as int].0 == name@);
                    lemma_map_ops_at(es0, name@, value@, i as int);
                }
                let old_pair = self.entries.remove(i);
                self.entries.insert(i, (name, value));
                proof {
                    assert(self.entries@ =~= ev0.update(i as int, (name, value)));
                    lemma_entries_v(self.entries@);
                    assert(self@ =~= es0.update(i as int, (name@, value@)));
                }
                return Some(old_pair.1);
            }
            i = i + 1;
        }
        proof {
            lemma_entries_v(ev0);
            lemma_map_ops_absent(es0, name@, value@);
        }
        self.entries.push((name, value));
        proof {
            lemma_entries_v(self.entries@);
            assert(self@ =~= es0.push((name@, value@)));
        }
        None
    }

    /// The value mapped to `name`, if any.
    pub fn get(&self, name: &str) -> (r: Option<&Value>)
        ensures
            match r {
                Some(v) => lookup(self@, name@) == Some(v@),
                None => lookup(self@, name@) is None,
            },
    {
        proof {
            lemma_entries_v(self.entries@);
        }
        let n = self.entries.len();
        let mut i: usize = 0;
        while i < n
            invariant
                0 <= i <= n,
                n == self.entries@.len(),
                forall|j: int| 0 <= j < i ==> self@[j].0 != name@,
            decreases n - i,
        {
            proof {
                lemma_entries_v(self.entries@);
            }
            if crate::utils::string_eq(&self.entries[i].0, name) {
                proof {
                    assert(self@[i as int] == (self.entries@[i as int].0@, value_v(
                        self.entries@[i as int].1,
                    )));
                    lemma_map_ops_at(self@, name@, self@[i as int].1, i as int);
                }
                return Some(&self.entries[i].1);
            }
            i = i + 1;
        }
        proof {
            lemma_entries_v(self.entries@);
            lemma_map_ops_absent(self@, name@, ValueV::Null);
        }
        None
    }

    /// Whether `name` is mapped.
    pub fn contains_key(&self, name: &str) -> (r: bool)
        ensures
            r == (lookup(self@, name@) is Some),
    {
        match self.get(name) {
            Some(_) => true,
            None => false,
        }
    }

    /// The number of entries.
    pub fn len(&self) -> (r: usize)
        ensures
            r == self@.len(),
    {
        proof {
            lemma_entries_v(self.entries@);
        }
        self.entries.len()
    }

    /// Whether the dict has no entries.
    pub fn is_empty(&self) -> (r: bool)
        ensures
            r == (self@.len() == 0),
    {
        proof {
            lemma_entries_v(self.entries@);
        }
        self.entries.len() == 0
    }
}

impl PartialEq for Dict {
    /// Dicts are equal when they hold equal entries in the same order.
    fn eq(&self, other: &Dict) -> (r: bool) {
        proof {
            lemma_entries_v(self.entries@);
            lemma_entries_v(other.entries@);
        }
        if self.entries.len() != other.entries.len() {
            false
        } else {
            let r = entries_eq_from(&self.entries, &other.entries, 0);
            proof {
                assert(entries_v(self.entries@).skip(0) =~= entries_v(self.entries@));
                assert(entries_v(other.entries@).skip(0) =~= entries_v(other.entries@));
            }
            r
        }
    }
}

impl vstd::std_specs::cmp::PartialEqSpecImpl for Dict {
    open spec fn obeys_eq_spec() -> bool {
        true
    }

    open spec fn eq_spec(&self, other: &Dict) -> bool {
        self@ == other@
    }
}

// ---------------------------------------------------------------------------
// Nodes and documents.
// ---------------------------------------------------------------------------
/// The mathematical shape of a node: its subnodes and its attributes, two
/// independent mappings.
pub struct NodeV {
    pub subnodes: Seq<(Seq<char>, NodeV)>,
    pub attrs: Seq<(Seq<char>, ValueV)>,
}

/// A named scope of a document: subnodes and attributes, each a mapping of
/// its own.
#[derive(Debug)]
pub struct Node {
    pub subnodes: Vec<(String, Node)>,
    pub attributes: Vec<(String, Value)>,
}

/// The content of a node, recursively.
pub open spec fn node_v(n: Node) -> NodeV
    decreases n,
{
    NodeV { subnodes: nodes_v(n.subnodes@), attrs: entries_v(n.attributes@) }
}

/// The content of a run of subnode entries, in order.
pub open spec fn nodes_v(es: Seq<(String, Node)>) -> Seq<(Seq<char>, NodeV)>
    decreases es,
{
    if es.len() == 0 {
        Seq::<(Seq<char>, NodeV)>::empty()
    } else {
        seq![(es[0].0@, node_v(es[0].1))] + nodes_v(es.drop_first())
    }
}

/// The content of a run of subnode entries, entry by entry.
pub proof fn lemma_nodes_v(es: Seq<(String, Node)>)
    ensures
        nodes_v(es).len() == es.len(),
        forall|i: int|
            0 <= i < es.len() ==> #[trigger] nodes_v(es)[i] == (es[i].0@, node_v(es[i].1)),
    decreases es.len(),
{
    if es.len() > 0 {
        lemma_nodes_v(es.drop_first());
    }
}

impl View for Node {
    type V = NodeV;

    open spec fn view(&self) -> NodeV {
        node_v(*self)
    }
}

/// Find an attribute entry by name.
fn av_get<'a>(es: &'a Vec<(String, Value)>, name: &str) -> (r: Option<&'a Value>)
    ensures
        match r {
            Some(v) => lookup(entries_v(es@), name@) == Some(v@),
            None => lookup(entries_v(es@), name@) is None,
        },
{
    proof {
        lemma_entries_v(es@);
    }
    let n = es.len();
    let mut i: usize = 0;
    while i < n
        invariant
            0 <= i <= n,
            n == es@.len(),
            forall|j: int| 0 <= j < i ==> entries_v(es@)[j].0 != name@,
        decreases n - i,
    {
        proof {
            lemma_entries_v(es@);
        }
        if crate::utils::string_eq(&es[i].0, name) {
            proof {
                lemma_map_ops_at(entries_v(es@), name@, entries_v(es@)[i as int].1, i as int);
            }
            return Some(&es[i].1);
        }
        i = i + 1;
    }
    proof {
        lemma_entries_v(es@);
        lemma_map_ops_absent(entries_v(es@), name@, ValueV::Null);
    }
    None
}

/// Insert an attribute entry, replacing in place.
fn av_insert(es: &mut Vec<(String, Value)>, name: String, value: Value) -> (r: Option<Value>)
    ensures
        entries_v(final(es)@) == upsert(entries_v(old(es)@), name@, value@),
        match r {
            Some(v) => lookup(entries_v(old(es)@), name@) == Some(v@),
            None => lookup(entries_v(old(es)@), name@) is None,
        },
{
    let ghost ev0 = old(es)@;
    proof {
        lemma_entries_v(ev0);
    }
    let n = es.len();
    let mut i: usize = 0;
    while i < n
        invariant
            0 <= i <= n,
            n == es@.len(),
            es@ == ev0,
            old(es)@ == ev0,
            forall|j: int| 0 <= j < i ==> entries_v(ev0)[j].0 != name@,
        decreases n - i,
    {
        proof {
            lemma_entries_v(ev0);
        }
        if es[i].0.eq(&name) {
            proof {
                lemma_map_ops_at(entries_v(ev0), name@, value@, i as int);
            }
            let old_pair = es.remove(i);
            es.insert(i, (name, value));
            proof {
                assert(es@ =~= ev0.update(i as int, (name, value)));
                lemma_entries_v(es@);
                assert(entries_v(es@) =~= entries_v(ev0).update(i as int, (name@, value@)));
            }
            return Some(old_pair.1);
        }
        i = i + 1;
    }
    proof {
        lemma_entries_v(ev0);
        lemma_map_ops_absent(entries_v(ev0), name@, value@);
    }
    es.push((name, value));
    proof {
        lemma_entries_v(es@);
        assert(entries_v(es@) =~= entries_v(ev0).push((name@, value@)));
    }
    None
}

/// Remove an attribute entry by name.
fn av_remove(es: &mut Vec<(String, Value)>, name: &str) -> (r: Option<Value>)
    ensures
        entries_v(final(es)@) == remove_key(entries_v(old(es)@), name@),
        match r {
            Some(v) => lookup(entries_v(old(es)@), name@) == Some(v@),
            None => lookup(entries_v(old(es)@), name@) is None,
        },
{
    let ghost ev0 = old(es)@;
    proof {
        lemma_entries_v(ev0);
    }
    let n = es.len();
    let mut i: usize = 0;
    while i < n
        invariant
            0 <= i <= n,
            n == es@.len(),
            es@ == ev0,
            old(es)@ == ev0,
            forall|j: int| 0 <= j < i ==> entries_v(ev0)[j].0 != name@,
        decreases n - i,
    {
        proof {
            lemma_entries_v(ev0);
        }
        if crate::utils::string_eq(&es[i].0, name) {
            proof {
                lemma_map_ops_at(entries_v(ev0), name@, entries_v(ev0)[i as int].1, i as int);
            }
            let old_pair = es.remove(i);
            proof {
                lemma_entries_v(es@);
                assert(entries_v(es@) =~= entries_v(ev0).remove(i as int));
            }
            return Some(old_pair.1);
        }
        i = i + 1;
    }
    proof {
        lemma_entries_v(ev0);
        lemma_map_ops_absent(entries_v(ev0), name@, ValueV::Null);
    }
    None
}

/// Find a subnode entry by name.
fn nv_get<'a>(es: &'a Vec<(String, Node)>, name: &str) -> (r: Option<&'a Node>)
    ensures
        match r {
            Some(v) => lookup(nodes_v(es@), name@) == Some(v@),
            None => lookup(nodes_v(es@), name@) is None,
        },
{
    proof {
        lemma_nodes_v(es@);
    }
    let n = es.len();
    let mut i: usize = 0;
    while i < n
        invariant
            0 <= i <= n,
            n == es@.len(),
            forall|j: int| 0 <= j < i ==> nodes_v(es@)[j].0 != name@,
        decreases n - i,
    {
        proof {
            lemma_nodes_v(es@);
        }
        if crate::utils::string_eq(&es[i].0, name) {
            proof {
                lemma_map_ops_at(nodes_v(es@), name@, nodes_v(es@)[i as int].1, i as int);
            }
            return Some(&es[i].1);
        }
        i = i + 1;
    }
    proof {
        lemma_nodes_v(es@);
        lemma_map_ops_absent(
            nodes_v(es@),
            name@,
            NodeV {
                subnodes: Seq::<(Seq<char>, NodeV)>::empty(),
                attrs: Seq::<(Seq<char>, ValueV)>::empty(),
            },
        );
    }
    None
}

/// Insert a subnode entry, replacing in place.
fn nv_insert(es: &mut Vec<(String, Node)>, name: String, node: Node) -> (r: Option<Node>)
    ensures
        nodes_v(final(es)@) == upsert(nodes_v(old(es)@), name@, node@),
        match r {
            Some(v) => lookup(nodes_v(old(es)@), name@) == Some(v@),
            None => lookup(nodes_v(old(es)@), name@) is None,
        },
{
    let ghost ev0 = old(es)@;
    proof {
        lemma_nodes_v(ev0);
    }
    let n = es.len();
    let mut i: usize = 0;
    while i < n
        invariant
            0 <= i <= n,
            n == es@.len(),
            es@ == ev0,
            old(es)@ == ev0,
            forall|j: int| 0 <= j < i ==> nodes_v(ev0)[j].0 != name@,
        decreases n - i,
    {
        proof {
            lemma_nodes_v(ev0);
        }
        if es[i].0.eq(&name) {
            proof {
                lemma_map_ops_at(nodes_v(ev0), name@, node@, i as int);
            }
            let old_pair = es.remove(i);
            es.insert(i, (name, node));
            proof {
                assert(es@ =~= ev0.update(i as int, (name, node)));
                lemma_nodes_v(es@);
                assert(nodes_v(es@) =~= nodes_v(ev0).update(i as int, (name@, node@)));
            }
            return Some(old_pair.1);
        }
        i = i + 1;
    }
    proof {
        lemma_nodes_v(ev0);
        lemma_map_ops_absent(nodes_v(ev0), name@, node@);
    }
    es.push((name, node));
    proof {
        lemma_nodes_v(es@);
        assert(nodes_v(es@) =~= nodes_v(ev0).push((name@, node@)));
    }
    None
}

/// Remove a subnode entry by name.
fn nv_remove(es: &mut Vec<(String, Node)>, name: &str) -> (r: Option<Node>)
    ensures
        nodes_v(final(es)@) == remove_key(nodes_v(old(es)@), name@),
        match r {
            Some(v) => lookup(nodes_v(old(es)@), name@) == Some(v@),
            None => lookup(nodes_v(old(es)@), name@) is None,
        },
{
    let ghost ev0 = old(es)@;
    proof {
        lemma_nodes_v(ev0);
    }
    let n = es.len();
    let mut i: usize = 0;
    while i < n
        invariant
            0 <= i <= n,
            n == es@.len(),
            es@ == ev0,
            old(es)@ == ev0,
            forall|j: int| 0 <= j < i ==> nodes_v(ev0)[j].0 != name@,
        decreases n - i,
    {
        proof {
            lemma_nodes_v(ev0);
        }
        if crate::utils::string_eq(&es[i].0, name) {
            proof {
                lemma_map_ops_at(nodes_v(ev0), name@, nodes_v(ev0)[i as int].1, i as int);
            }
            let old_pair = es.remove(i);
            proof {
                lemma_nodes_v(es@);
                assert(nodes_v(es@) =~= nodes_v(ev0).remove(i as int));
            }
            return Some(old_pair.1);
        }
        i = i + 1;
    }
    proof {
        lemma_nodes_v(ev0);
        lemma_map_ops_absent(
            nodes_v(ev0),
            name@,
            NodeV {
                subnodes: Seq::<(Seq<char>, NodeV)>::empty(),
                attrs: Seq::<(Seq<char>, ValueV)>::empty(),
            },
        );
    }
    None
}

/// Structural equality of the subnode entries from index `i` on.
fn nodes_eq_from(x: &Vec<(String, Node)>, y: &Vec<(String, Node)>, i: usize) -> (r: bool)
    requires
        x@.len() == y@.len(),
        i <= x@.len(),
    ensures
        r == (nodes_v(x@).skip(i as int) == nodes_v(y@).skip(i as int)),
    decreases x, x@.len() - i,
{
    proof {
        lemma_nodes_v(x@);
        lemma_nodes_v(y@);
    }
    if i >= x.len() {
        proof {
            assert(nodes_v(x@).skip(i as int) =~= nodes_v(y@).skip(i as int));
        }
        true
    } else {
        let keys = x[i].0.eq(&y[i].0);
        proof {
            vstd::std_specs::vec::axiom_vec_index_decreases(*x, i as int);
        }
        let vals = node_eq(&x[i].1, &y[i].1);
        if !(keys && vals) {
            proof {
                assert(nodes_v(x@).skip(i as int)[0] != nodes_v(y@).skip(i as int)[0]);
            }
            false
        } else {
            let rest = nodes_eq_from(x, y, i + 1);
            proof {
                if rest {
                    assert forall|k: int|
                        0 <= k < nodes_v(x@).skip(i as int).len() implies nodes_v(x@).skip(
                        i as int,
                    )[k] == nodes_v(y@).skip(i as int)[k] by {
                        if k == 0 {
                        } else {
                            assert(nodes_v(x@).skip(i as int)[k] == nodes_v(x@).skip(i + 1)[k
                                - 1]);
                            assert(nodes_v(y@).skip(i as int)[k] == nodes_v(y@).skip(i + 1)[k
                                - 1]);
                        }
                    }
                    assert(nodes_v(x@).skip(i as int) =~= nodes_v(y@).skip(i as int));
                } else {
                    assert(nodes_v(x@).skip(i as int) != nodes_v(y@).skip(i as int)) by {
                        if nodes_v(x@).skip(i as int) == nodes_v(y@).skip(i as int) {
                            assert forall|k: int|
                                0 <= k < nodes_v(x@).skip(i + 1).len() implies #[trigger] nodes_v(
                                x@,
                            ).skip(i + 1)[k] == nodes_v(y@).skip(i + 1)[k] by {
                                assert(nodes_v(x@).skip(i + 1)[k] == nodes_v(x@).skip(i as int)[k
                                    + 1]);
                                assert(nodes_v(y@).skip(i + 1)[k] == nodes_v(y@).skip(i as int)[k
                                    + 1]);
                            }
                            assert(nodes_v(x@).skip(i + 1) =~= nodes_v(y@).skip(i + 1));
                        }
                    }
                }
            }
            rest
        }
    }
}

/// Structural equality of nodes, by content.
fn node_eq(a: &Node, b: &Node) -> (r: bool)
    ensures
        r == (a@ == b@),
    decreases a,
{
    proof {
        lemma_nodes_v(a.subnodes@);
        lemma_nodes_v(b.subnodes@);
        lemma_entries_v(a.attributes@);
        lemma_entries_v(b.attributes@);
    }
    let subs = if a.subnodes.len() != b.subnodes.len() {
        false
    } else {
        let r = nodes_eq_from(&a.subnodes, &b.subnodes, 0);
        proof {
            assert(nodes_v(a.subnodes@).skip(0) =~= nodes_v(a.subnodes@));
            assert(nodes_v(b.subnodes@).skip(0) =~= nodes_v(b.subnodes@));
        }
        r
    };
    let attrs = if a.attributes.len() != b.attributes.len() {
        false
    } else {
        let r = entries_eq_from(&a.attributes, &b.attributes, 0);
        proof {
            assert(entries_v(a.attributes@).skip(0) =~= entries_v(a.attributes@));
            assert(entries_v(b.attributes@).skip(0) =~= entries_v(b.attributes@));
        }
        r
    };
    subs && attrs
}

impl PartialEq for Node {
    /// Nodes are equal when their subnodes and attributes are, in order.
    fn eq(&self, other: &Node) -> (r: bool) {
        node_eq(self, other)
    }
}

impl vstd::std_specs::cmp::PartialEqSpecImpl for Node {
    open spec fn obeys_eq_spec() -> bool {
        true
    }

    open spec fn eq_spec(&self, other: &Node) -> bool {
        self@ == other@
    }
}

impl Node {
    /// Construct a new, empty node.
    pub fn new() -> (r: Self)
        ensures
            r@.subnodes == Seq::<(Seq<char>, NodeV)>::empty(),
            r@.attrs == Seq::<(Seq<char>, ValueV)>::empty(),
    {
        let n = Node { subnodes: Vec::new(), attributes: Vec::new() };
        proof {
            assert(n@.subnodes =~= Seq::<(Seq<char>, NodeV)>::empty());
            assert(n@.attrs =~= Seq::<(Seq<char>, ValueV)>::empty());
        }
        n
    }

    /// Make sure a subnode with this name exists: keep an existing one, or
    /// insert a fresh, empty one.
    pub fn new_node_or_get(&mut self, name: &str)
        ensures
            final(self)@.attrs == old(self)@.attrs,
            final(self)@.subnodes == (if lookup(old(self)@.subnodes, name@) is Some {
                old(self)@.subnodes
            } else {
                old(self)@.subnodes.push((name@, (NodeV {
                    subnodes: Seq::<(Seq<char>, NodeV)>::empty(),
                    attrs: Seq::<(Seq<char>, ValueV)>::empty(),
                })))
            }),
    {
        if !self.has_node(name) {
            proof {
                lemma_upsert_fresh(
                    self@.subnodes,
                    name@,
                    NodeV {
                        subnodes: Seq::<(Seq<char>, NodeV)>::empty(),
                        attrs: Seq::<(Seq<char>, ValueV)>::empty(),
                    },
                );
            }
            let _ = self.insert_node(name, Node::new());
        }
    }

    /// Insert `node` under `name`, replacing and returning any previous
    /// subnode of that name.
    pub fn insert_node(&mut self, name: &str, node: Node) -> (r: Option<Node>)
        ensures
            final(self)@.subnodes == upsert(old(self)@.subnodes, name@, node@),
            final(self)@.attrs == old(self)@.attrs,
            match r {
                Some(v) => lookup(old(self)@.subnodes, name@) == Some(v@),
                None => lookup(old(self)@.subnodes, name@) is None,
            },
    {
        nv_insert(&mut self.subnodes, String::from_str(name), node)
    }

    /// Remove and return the subnode of that name, if any.
    pub fn delete_node(&mut self, name: &str) -> (r: Option<Node>)
        ensures
            final(self)@.subnodes == remove_key(old(self)@.subnodes, name@),
            final(self)@.attrs == old(self)@.attrs,
            match r {
                Some(v) => lookup(old(self)@.subnodes, name@) == Some(v@),
                None => lookup(old(self)@.subnodes, name@) is None,
            },
    {
        nv_remove(&mut self.subnodes, name)
    }

    /// The subnode of that name, if any.
    pub fn get_node(&self, name: &str) -> (r: Option<&Node>)
        ensures
            match r {
                Some(v) => lookup(self@.subnodes, name@) == Some(v@),
                None => lookup(self@.subnodes, name@) is None,
            },
    {
        nv_get(&self.subnodes, name)
    }

    /// Map the attribute `name` to `value`, replacing in place; the replaced
    /// value comes back.
    pub fn insert_attr(&mut self, name: &str, value: Value) -> (r: Option<Value>)
        ensures
            final(self)@.attrs == upsert(old(self)@.attrs, name@, value@),
            final(self)@.subnodes == old(self)@.subnodes,
            match r {
                Some(v) => lookup(old(self)@.attrs, name@) == Some(v@),
                None => lookup(old(self)@.attrs, name@) is None,
            },
    {
        av_insert(&mut self.attributes, String::from_str(name), value)
    }

    /// Remove and return the attribute of that name, if any.
    pub fn delete_attr(&mut self, name: &str) -> (r: Option<Value>)
        ensures
            final(self)@.attrs == remove_key(old(self)@.attrs, name@),
            final(self)@.subnodes == old(self)@.subnodes,
            match r {
                Some(v) => lookup(old(self)@.attrs, name@) == Some(v@),
                None => lookup(old(self)@.attrs, name@) is None,
            },
    {
        av_remove(&mut self.attributes, name)
    }

    /// The attribute value of that name, if any.
    pub fn get_attr(&self, name: &str) -> (r: Option<&Value>)
        ensures
            match r {
                Some(v) => lookup(self@.attrs, name@) == Some(v@),
                None => lookup(self@.attrs, name@) is None,
            },
    {
        av_get(&self.attributes, name)
    }

    /// Whether this node has no subnodes and no attributes.
    pub fn is_empty(&self) -> (r: bool)
        ensures
            r == (self@.subnodes.len() == 0 && self@.attrs.len() == 0),
    {
        proof {
            lemma_nodes_v(self.subnodes@);
            lemma_entries_v(self.attributes@);
        }
        self.subnodes.len() == 0 && self.attributes.len() == 0
    }

    /// Whether a subnode of that name exists.
    pub fn has_node(&self, name: &str) -> (r: bool)
        ensures
            r == (lookup(self@.subnodes, name@) is Some),
    {
        match self.get_node(name) {
            Some(_) => true,
            None => false,
        }
    }

    /// Whether any subnode exists.
    pub fn has_nodes(&self) -> (r: bool)
        ensures
            r == (self@.subnodes.len() > 0),
    {
        proof {
            lemma_nodes_v(self.subnodes@);
        }
        self.subnodes.len() > 0
    }

    /// The number of subnodes.
    pub fn node_count(&self) -> (r: usize)
        ensures
            r == self@.subnodes.len(),
    {
        proof {
            lemma_nodes_v(self.subnodes@);
        }
        self.subnodes.len()
    }

    /// Whether an attribute of that name exists.
    pub fn has_attr(&self, name: &str) -> (r: bool)
        ensures
            r == (lookup(self@.attrs, name@) is Some),
    {
        match self.get_attr(name) {
            Some(_) => true,
            None => false,
        }
    }

    /// Whether any attribute exists.
    pub fn has_attrs(&self) -> (r: bool)
        ensures
            r == (self@.attrs.len() > 0),
    {
        proof {
            lemma_entries_v(self.attributes@);
        }
        self.attributes.len() > 0
    }

    /// The number of attributes.
    pub fn attr_count(&self) -> (r: usize)
        ensures
            r == self@.attrs.len(),
    {
        proof {
            lemma_entries_v(self.attributes@);
        }
        self.attributes.len()
    }
}

/// A parsed document: the top-level nodes, by name.
#[derive(Debug)]
pub struct Document {
    pub nodes: Vec<(String, Node)>,
}

impl View for Document {
    type V = Seq<(Seq<char>, NodeV)>;

    open spec fn view(&self) -> Seq<(Seq<char>, NodeV)> {
        nodes_v(self.nodes@)
    }
}

impl PartialEq for Document {
    /// Documents are equal when they hold equal nodes in the same order.
    fn eq(&self, other: &Document) -> (r: bool) {
        proof {
            lemma_nodes_v(self.nodes@);
            lemma_nodes_v(other.nodes@);
        }
        if self.nodes.len() != other.nodes.len() {
            false
        } else {
            let r = nodes_eq_from(&self.nodes, &other.nodes, 0);
            proof {
                assert(nodes_v(self.nodes@).skip(0) =~= nodes_v(self.nodes@));
                assert(nodes_v(other.nodes@).skip(0) =~= nodes_v(other.nodes@));
            }
            r
        }
    }
}

impl vstd::std_specs::cmp::PartialEqSpecImpl for Document {
    open spec fn obeys_eq_spec() -> bool {
        true
    }

    open spec fn eq_spec(&self, other: &Document) -> bool {
        self@ == other@
    }
}

impl Document {
    /// Construct a new, empty document.
    pub fn new() -> (r: Self)
        ensures
            r@ == Seq::<(Seq<char>, NodeV)>::empty(),
    {
        let d = Document { nodes: Vec::new() };
        proof {
            assert(d@ =~= Seq::<(Seq<char>, NodeV)>::empty());
        }
        d
    }

    /// Make sure a top-level node with this name exists: keep an existing
    /// one, or insert a fresh, empty one.
    pub fn new_node_or_get(&mut self, name: &str)
        ensures
            final(self)@ == (if lookup(old(self)@, name@) is Some {
                old(self)@
            } else {
                old(self)@.push((name@, (NodeV {
                    subnodes: Seq::<(Seq<char>, NodeV)>::empty(),
                    attrs: Seq::<(Seq<char>, ValueV)>::empty(),
                })))
            }),
    {
        if !self.has_node(name) {
            proof {
                lemma_upsert_fresh(
                    self@,
                    name@,
                    NodeV {
                        subnodes: Seq::<(Seq<char>, NodeV)>::empty(),
                        attrs: Seq::<(Seq<char>, ValueV)>::empty(),
                    },
                );
            }
            let _ = self.insert_node(name, Node::new());
        }
    }

    /// Insert `node` under `name`, replacing and returning any previous node
    /// of that name.
    pub fn insert_node(&mut self, name: &str, node: Node) -> (r: Option<Node>)
        ensures
            final(self)@ == upsert(old(self)@, name@, node@),
            match r {
                Some(v) => lookup(old(self)@, name@) == Some(v@),
                None => lookup(old(self)@, name@) is None,
            },
    {
        nv_insert(&mut self.nodes, String::from_str(name), node)
    }

    /// Remove and return the node of that name, if any.
    pub fn delete_node(&mut self, name: &str) -> (r: Option<Node>)
        ensures
            final(self)@ == remove_key(old(self)@, name@),
            match r {
                Some(v) => lookup(old(self)@, name@) == Some(v@),
                None => lookup(old(self)@, name@) is None,
            },
    {
        nv_remove(&mut self.nodes, name)
    }

    /// The node of that name, if any.
    pub fn get_node(&self, name: &str) -> (r: Option<&Node>)
        ensures
            match r {
                Some(v) => lookup(self@, name@) == Some(v@),
                None => lookup(self@, name@) is None,
            },
    {
        nv_get(&self.nodes, name)
    }

    /// Whether the document has no nodes.
    pub fn is_empty(&self) -> (r: bool)
        ensures
            r == (self@.len() == 0),
    {
        proof {
            lemma_nodes_v(self.nodes@);
        }
        self.nodes.len() == 0
    }

    /// Whether a node of that name exists.
    pub fn has_node(&self, name: &str) -> (r: bool)
        ensures
            r == (lookup(self@, name@) is Some),
    {
        match self.get_node(name) {
            Some(_) => true,
            None => false,
        }
    }

    /// Whether any node exists.
    pub fn has_nodes(&self) -> (r: bool)
        ensures
            r == (self@.len() > 0),
    {
        proof {
            lemma_nodes_v(self.nodes@);
        }
        self.nodes.len() > 0
    }

    /// The number of nodes.
    pub fn node_count(&self) -> (r: usize)
        ensures
            r == self@.len(),
    {
        proof {
            lemma_nodes_v(self.nodes@);
        }
        self.nodes.len()
    }
}

} // verus!