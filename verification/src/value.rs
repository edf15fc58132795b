//! The recursive document tree that the differ and the patcher operate on,
//! together with its mathematical model and verified structural equality.

use vstd::prelude::*;

verus! {

/// One key/value entry of a document map.
#[derive(Debug)]
pub struct Entry {
    pub key: String,
    pub val: Value,
}

/// A document tree: scalars, ordered sequences, and key/value maps whose
/// entries keep their insertion order.  Keys of a well-formed map are unique
/// (see [`wf_model`]).
#[derive(Debug)]
pub enum Value {
    Null,
    Bool(bool),
    Num(i64),
    Text(String),
    Arr(Vec<Value>),
    Obj(Vec<Entry>),
}

/// The mathematical shape of a [`Value`]: the same tree over `Seq` and `int`.
/// Every contract of the differ and the patcher speaks of this model.
#[verifier::ext_equal]
pub enum ValueModel {
    Null,
    Bool(bool),
    Num(int),
    Text(Seq<char>),
    Arr(Seq<ValueModel>),
    Obj(Seq<(Seq<char>, ValueModel)>),
}

impl Value {
    /// The mathematical model of this document.
    pub open spec fn model(self) -> ValueModel
        decreases self,
    {
        match self {
            Value::Null => ValueModel::Null,
            Value::Bool(b) => ValueModel::Bool(b),
            Value::Num(n) => ValueModel::Num(n as int),
            Value::Text(s) => ValueModel::Text(s@),
            Value::Arr(a) => ValueModel::Arr(vec_model(a)),
            Value::Obj(o) => ValueModel::Obj(obj_vec_model(o)),
        }
    }
}

pub open spec fn vec_model(v: Vec<Value>) -> Seq<ValueModel>
    decreases v,
{
    seq_model(v@)
}

pub open spec fn seq_model(s: Seq<Value>) -> Seq<ValueModel>
    decreases s,
{
    if s.len() == 0 {
        Seq::empty()
    } else {
        seq![s[0].model()] + seq_model(s.subrange(1, s.len() as int))
    }
}

pub open spec fn obj_vec_model(v: Vec<Entry>) -> Seq<(Seq<char>, ValueModel)>
    decreases v,
{
    entries_model(v@)
}

pub open spec fn entries_model(s: Seq<Entry>) -> Seq<(Seq<char>, ValueModel)>
    decreases s,
{
    if s.len() == 0 {
        Seq::empty()
    } else {
        seq![entry_model(s[0])] + entries_model(s.subrange(1, s.len() as int))
    }
}

pub open spec fn entry_model(e: Entry) -> (Seq<char>, ValueModel)
    decreases e,
{
    (e.key@, e.val.model())
}

/// `seq_model` maps the sequence element by element.
pub proof fn lemma_seq_model_index(s: Seq<Value>)
    ensures
        seq_model(s).len() == s.len(),
        forall|i: int| 0 <= i < s.len() ==> seq_model(s)[i] == #[trigger] s[i].model(),
    decreases s.len(),
{
    if s.len() > 0 {
        lemma_seq_model_index(s.subrange(1, s.len() as int));
        assert forall|i: int| 0 <= i < s.len() implies seq_model(s)[i] == #[trigger] s[i]
            .model() by {
            if i > 0 {
                assert(s.subrange(1, s.len() as int)[i - 1] == s[i]);
            }
        }
    }
}

/// `entries_model` maps the entry sequence element by element.
pub proof fn lemma_entries_model_index(s: Seq<Entry>)
    ensures
        entries_model(s).len() == s.len(),
        forall|i: int| 0 <= i < s.len() ==> entries_model(s)[i] == #[trigger] entry_model(s[i]),
    decreases s.len(),
{
    if s.len() > 0 {
        lemma_entries_model_index(s.subrange(1, s.len() as int));
        assert forall|i: int| 0 <= i < s.len() implies entries_model(s)[i] == #[trigger] entry_model(
            s[i],
        ) by {
            if i > 0 {
                assert(s.subrange(1, s.len() as int)[i - 1] == s[i]);
            }
        }
    }
}

/// Well-formedness of a document: every map in the tree has unique keys.
pub open spec fn wf_model(m: ValueModel) -> bool
    decreases m,
{
    match m {
        ValueModel::Arr(elems) => wf_seq(elems),
        ValueModel::Obj(entries) => wf_entries(entries) && (forall|i: int, j: int|
            0 <= i < j < entries.len() ==> (#[trigger] entries[i]).0 != (#[trigger] entries[j]).0),
        _ => true,
    }
}

pub open spec fn wf_seq(s: Seq<ValueModel>) -> bool
    decreases s,
{
    if s.len() == 0 {
        true
    } else {
        wf_model(s[0]) && wf_seq(s.subrange(1, s.len() as int))
    }
}

pub open spec fn wf_entries(s: Seq<(Seq<char>, ValueModel)>) -> bool
    decreases s,
{
    if s.len() == 0 {
        true
    } else {
        wf_model(s[0].1) && wf_entries(s.subrange(1, s.len() as int))
    }
}

/// Structural equality of two documents, decided recursively.
#[verifier::loop_isolation(false)]
pub fn value_eq(a: &Value, b: &Value) -> (r: bool)
    ensures
        r == (a.model() == b.model()),
    decreases *a,
{
    match a {
        Value::Null => matches!(b, Value::Null),
        Value::Bool(x) => match b {
            Value::Bool(y) => *x == *y,
            _ => false,
        },
        Value::Num(x) => match b {
            Value::Num(y) => *x == *y,
            _ => false,
        },
        Value::Text(x) => match b {
            Value::Text(y) => x.eq(y),
            _ => false,
        },
        Value::Arr(x) => {
            let y = match b {
                Value::Arr(y) => y,
                _ => {
                    return false;
                },
            };
            proof {
                lemma_seq_model_index(x@);
                lemma_seq_model_index(y@);
            }
            if x.len() != y.len() {
                return false;
            }
            for i in 0..x.len()
                invariant
                    x@.len() == y@.len(),
                    i <= x@.len(),
                    forall|j: int| 0 <= j < i ==> seq_model(x@)[j] == seq_model(y@)[j],
                    forall|j: int|
                        0 <= j < x@.len() ==> seq_model(x@)[j] == #[trigger] x@[j].model(),
                    forall|j: int|
                        0 <= j < y@.len() ==> seq_model(y@)[j] == #[trigger] y@[j].model(),
                decreases x@.len() - i,
            {
                if !value_eq(&x[i], &y[i]) {
                    proof {
                        assert(seq_model(x@)[i as int] != seq_model(y@)[i as int]);
                    }
                    return false;
                }
            }
            proof {
                assert(seq_model(x@) =~= seq_model(y@));
            }
            true
        },
        Value::Obj(x) => {
            let y = match b {
                Value::Obj(y) => y,
                _ => {
                    return false;
                },
            };
            proof {
                lemma_entries_model_index(x@);
                lemma_entries_model_index(y@);
            }
            if x.len() != y.len() {
                return false;
            }
            for i in 0..x.len()
                invariant
                    x@.len() == y@.len(),
                    i <= x@.len(),
                    forall|j: int| 0 <= j < i ==> entries_model(x@)[j] == entries_model(y@)[j],
                    forall|j: int|
                        0 <= j < x@.len() ==> entries_model(x@)[j] == #[trigger] entry_model(x@[j]),
                    forall|j: int|
                        0 <= j < y@.len() ==> entries_model(y@)[j] == #[trigger] entry_model(y@[j]),
                decreases x@.len() - i,
            {
                if !entry_eq(&x[i], &y[i]) {
                    proof {
                        assert(entries_model(x@)[i as int] != entries_model(y@)[i as int]);
                    }
                    return false;
                }
            }
            proof {
                assert(entries_model(x@) =~= entries_model(y@));
            }
            true
        },
    }
}

/// Structural equality of two map entries: equal keys and equal values.
pub fn entry_eq(a: &Entry, b: &Entry) -> (r: bool)
    ensures
        r == (entry_model(*a) == entry_model(*b)),
    decreases *a,
{
    let keys_eq = a.key == b.key;
    keys_eq && value_eq(&a.val, &b.val)
}

/// A deep copy of a document, equal to the original in the model.
pub fn dup(v: &Value) -> (r: Value)
    ensures
        r.model() == v.model(),
    decreases *v,
{
    match v {
        Value::Null => Value::Null,
        Value::Bool(b) => Value::Bool(*b),
        Value::Num(n) => Value::Num(*n),
        Value::Text(s) => Value::Text(s.clone()),
        Value::Arr(a) => Value::Arr(dup_vec(a)),
        Value::Obj(o) => Value::Obj(dup_entries(o)),
    }
}

/// A deep copy of an element vector, equal to the original in the model.
#[verifier::loop_isolation(false)]
pub fn dup_vec(a: &Vec<Value>) -> (r: Vec<Value>)
    ensures
        seq_model(r@) == seq_model(a@),
    decreases a,
{
    let mut out: Vec<Value> = Vec::new();
    proof {
        lemma_seq_model_index(a@);
    }
    for i in 0..a.len()
        invariant
            out@.len() == i,
            seq_model(out@).len() == i,
            forall|j: int| 0 <= j < i ==> seq_model(out@)[j] == seq_model(a@)[j],
            forall|j: int| 0 <= j < out@.len() ==> seq_model(out@)[j] == #[trigger] out@[j].model(),
        decreases a@.len() - i,
    {
        let e = dup(&a[i]);
        let ghost out0 = out@;
        out.push(e);
        proof {
            lemma_seq_model_index(out@);
            assert(out@[i as int].model() == a@[i as int].model());
            assert(seq_model(out@)[i as int] == seq_model(a@)[i as int]);
            assert forall|j: int| 0 <= j < i implies seq_model(out@)[j] == seq_model(a@)[j] by {
                assert(out@[j] == out0[j]);
                assert(seq_model(out0)[j] == out0[j].model());
                assert(seq_model(out@)[j] == out@[j].model());
            };
        }
    }
    proof {
        assert(seq_model(out@) =~= seq_model(a@));
    }
    out
}

/// A deep copy of an entry vector, equal to the original in the model.
#[verifier::loop_isolation(false)]
pub fn dup_entries(o: &Vec<Entry>) -> (r: Vec<Entry>)
    ensures
        entries_model(r@) == entries_model(o@),
    decreases o,
{
    let mut out: Vec<Entry> = Vec::new();
    proof {
        lemma_entries_model_index(o@);
    }
    for i in 0..o.len()
        invariant
            out@.len() == i,
            entries_model(out@).len() == i,
            forall|j: int| 0 <= j < i ==> entries_model(out@)[j] == entries_model(o@)[j],
            forall|j: int|
                0 <= j < out@.len() ==> entries_model(out@)[j] == #[trigger] entry_model(out@[j]),
        decreases o@.len() - i,
    {
        let e = dup_entry(&o[i]);
        let ghost out0 = out@;
        out.push(e);
        proof {
            lemma_entries_model_index(out@);
            assert(entry_model(out@[i as int]) == entry_model(o@[i as int]));
            assert(entries_model(out@)[i as int] == entries_model(o@)[i as int]);
            assert forall|j: int| 0 <= j < i implies entries_model(out@)[j] == entries_model(
                o@,
            )[j] by {
                assert(out@[j] == out0[j]);
                assert(entries_model(out0)[j] == entry_model(out0[j]));
                assert(entries_model(out@)[j] == entry_model(out@[j]));
            };
        }
    }
    proof {
        assert(entries_model(out@) =~= entries_model(o@));
    }
    out
}

/// A deep copy of a map entry, equal to the original in the model.
pub fn dup_entry(e: &Entry) -> (r: Entry)
    ensures
        entry_model(r) == entry_model(*e),
    decreases *e,
{
    Entry { key: e.key.clone(), val: dup(&e.val) }
}

pub proof fn lemma_seq_model_update(s: Seq<Value>, j: int, v: Value)
    requires
        0 <= j < s.len(),
    ensures
        seq_model(s.update(j, v)) == seq_model(s).update(j, v.model()),
{
    lemma_seq_model_index(s);
    lemma_seq_model_index(s.update(j, v));
    assert forall|k: int| 0 <= k < s.len() implies seq_model(s.update(j, v))[k] == seq_model(
        s,
    ).update(j, v.model())[k] by {
        assert(seq_model(s.update(j, v))[k] == s.update(j, v)[k].model());
        assert(seq_model(s)[k] == s[k].model());
    };
    assert(seq_model(s.update(j, v)) =~= seq_model(s).update(j, v.model()));
}

pub proof fn lemma_seq_model_remove(s: Seq<Value>, j: int)
    requires
        0 <= j < s.len(),
    ensures
        seq_model(s.remove(j)) == seq_model(s).remove(j),
{
    lemma_seq_model_index(s);
    lemma_seq_model_index(s.remove(j));
    assert forall|k: int| 0 <= k < s.len() - 1 implies seq_model(s.remove(j))[k] == seq_model(
        s,
    ).remove(j)[k] by {
        assert(seq_model(s.remove(j))[k] == s.remove(j)[k].model());
        if k < j {
            assert(s.remove(j)[k] == s[k]);
            assert(seq_model(s)[k] == s[k].model());
        } else {
            assert(s.remove(j)[k] == s[k + 1]);
            assert(seq_model(s)[k + 1] == s[k + 1].model());
        }
    };
    assert(seq_model(s.remove(j)) =~= seq_model(s).remove(j));
}

pub proof fn lemma_seq_model_push(s: Seq<Value>, v: Value)
    ensures
        seq_model(s.push(v)) == seq_model(s).push(v.model()),
{
    lemma_seq_model_index(s);
    lemma_seq_model_index(s.push(v));
    assert forall|k: int| 0 <= k < s.len() + 1 implies seq_model(s.push(v))[k] == seq_model(
        s,
    ).push(v.model())[k] by {
        assert(seq_model(s.push(v))[k] == s.push(v)[k].model());
        if k < s.len() {
            assert(s.push(v)[k] == s[k]);
            assert(seq_model(s)[k] == s[k].model());
        }
    };
    assert(seq_model(s.push(v)) =~= seq_model(s).push(v.model()));
}

pub proof fn lemma_entries_model_update(s: Seq<Entry>, j: int, e: Entry)
    requires
        0 <= j < s.len(),
    ensures
        entries_model(s.update(j, e)) == entries_model(s).update(j, entry_model(e)),
{
    lemma_entries_model_index(s);
    lemma_entries_model_index(s.update(j, e));
    assert forall|k: int| 0 <= k < s.len() implies entries_model(s.update(j, e))[k] == entries_model(
        s,
    ).update(j, entry_model(e))[k] by {
        assert(entries_model(s.update(j, e))[k] == entry_model(s.update(j, e)[k]));
        assert(entries_model(s)[k] == entry_model(s[k]));
    };
    assert(entries_model(s.update(j, e)) =~= entries_model(s).update(j, entry_model(e)));
}

pub proof fn lemma_entries_model_remove(s: Seq<Entry>, j: int)
    requires
        0 <= j < s.len(),
    ensures
        entries_model(s.remove(j)) == entries_model(s).remove(j),
{
    lemma_entries_model_index(s);
    lemma_entries_model_index(s.remove(j));
    assert forall|k: int| 0 <= k < s.len() - 1 implies entries_model(s.remove(j))[k]
        == entries_model(s).remove(j)[k] by {
        assert(entries_model(s.remove(j))[k] == entry_model(s.remove(j)[k]));
        if k < j {
            assert(s.remove(j)[k] == s[k]);
            assert(entries_model(s)[k] == entry_model(s[k]));
        } else {
            assert(s.remove(j)[k] == s[k + 1]);
            assert(entries_model(s)[k + 1] == entry_model(s[k + 1]));
        }
    };
    assert(entries_model(s.remove(j)) =~= entries_model(s).remove(j));
}

pub proof fn lemma_entries_model_push(s: Seq<Entry>, e: Entry)
    ensures
        entries_model(s.push(e)) == entries_model(s).push(entry_model(e)),
{
    lemma_entries_model_index(s);
    lemma_entries_model_index(s.push(e));
    assert forall|k: int| 0 <= k < s.len() + 1 implies entries_model(s.push(e))[k] == entries_model(
        s,
    ).push(entry_model(e))[k] by {
        assert(entries_model(s.push(e))[k] == entry_model(s.push(e)[k]));
        if k < s.len() {
            assert(s.push(e)[k] == s[k]);
            assert(entries_model(s)[k] == entry_model(s[k]));
        }
    };
    assert(entries_model(s.push(e)) =~= entries_model(s).push(entry_model(e)));
}

} // verus!
