//! The edit operations and the patcher: applying an ordered edit script to a
//! document, operation by operation.

use vstd::prelude::*;
use vstd::pervasive::VecAdditionalExecFns;
use crate::value::{
    Value, Entry, ValueModel, seq_model, entries_model, entry_model, value_eq, dup,
    dup_vec, dup_entries, lemma_seq_model_index, lemma_entries_model_index, lemma_seq_model_update,
    lemma_seq_model_remove, lemma_seq_model_push, lemma_entries_model_update,
    lemma_entries_model_remove, lemma_entries_model_push,
};
use crate::pointer::{parse_pointer, strs_model};
use crate::sem::{
    ApplyError, obj_index, obj_has, lemma_obj_index, elem_index, contains_elem, lemma_elem_index,
    child_of, spec_get, spec_replace, replace_child, spec_add_child, spec_remove_child,
    spec_add_root, spec_remove_root, spec_apply_add, spec_apply_remove, spec_apply_set,
};

verus! {

/// The mathematical shape of one operation.
pub enum OpModel {
    Add { path: Seq<char>, value: ValueModel },
    Remove { path: Seq<char>, value: Option<ValueModel> },
    Replace { path: Seq<char>, value: ValueModel },
}

/// "Ensure `value` is present at the location named by the pointer's last
/// segment within the pointer's parent."
#[derive(Debug)]
pub struct AddOp {
    pub path: String,
    pub value: Value,
}

/// "Ensure the location named by the pointer's last segment is absent, or,
/// within an array, that the carried value is absent as an element."
#[derive(Debug)]
pub struct RemoveOp {
    pub path: String,
    pub value: Option<Value>,
}

/// "Replace whatever the whole pointer resolves to with `value`."
#[derive(Debug)]
pub struct SetOp {
    pub path: String,
    pub value: Value,
}

pub open spec fn opt_model(o: Option<Value>) -> Option<ValueModel> {
    match o {
        Some(v) => Some(v.model()),
        None => None,
    }
}

impl AddOp {
    pub open spec fn model(self) -> OpModel {
        OpModel::Add { path: self.path@, value: self.value.model() }
    }
}

impl RemoveOp {
    pub open spec fn model(self) -> OpModel {
        OpModel::Remove { path: self.path@, value: opt_model(self.value) }
    }
}

impl SetOp {
    pub open spec fn model(self) -> OpModel {
        OpModel::Replace { path: self.path@, value: self.value.model() }
    }
}

/// An operation of an edit script.
#[derive(Debug)]
pub enum Operation {
    Add(AddOp),
    Remove(RemoveOp),
    Replace(SetOp),
}

impl Operation {
    pub open spec fn model(self) -> OpModel {
        match self {
            Operation::Add(o) => o.model(),
            Operation::Remove(o) => o.model(),
            Operation::Replace(o) => o.model(),
        }
    }
}

pub open spec fn ops_model(s: Seq<Operation>) -> Seq<OpModel> {
    Seq::new(s.len(), |i: int| s[i].model())
}

/// The meaning of one operation on document `m`.
pub open spec fn spec_apply_op(op: OpModel, m: ValueModel) -> Result<ValueModel, ApplyError> {
    match op {
        OpModel::Add { path, value } => spec_apply_add(m, path, value),
        OpModel::Remove { path, value } => spec_apply_remove(m, path, value),
        OpModel::Replace { path, value } => spec_apply_set(m, path, value),
    }
}

/// The meaning of a whole edit script: the operations in order, stopping at
/// the first failure.
pub open spec fn spec_apply_ops(ops: Seq<OpModel>, m: ValueModel) -> Result<ValueModel, ApplyError>
    decreases ops.len(),
{
    if ops.len() == 0 {
        Ok(m)
    } else {
        match spec_apply_op(ops[0], m) {
            Ok(m2) => spec_apply_ops(ops.subrange(1, ops.len() as int), m2),
            Err(e) => Err(e),
        }
    }
}

/// The first entry whose key is `k`, or `entries.len()` if none is.
#[verifier::loop_isolation(false)]
pub(crate) fn find_key(entries: &Vec<Entry>, k: &String) -> (r: usize)
    ensures
        r as int == obj_index(entries_model(entries@), k@),
{
    proof {
        lemma_entries_model_index(entries@);
        lemma_obj_index(entries_model(entries@), k@);
    }
    let ghost em = entries_model(entries@);
    for j in 0..entries.len()
        invariant
            forall|i: int| 0 <= i < j ==> em[i].0 != k@,
        decreases entries@.len() - j,
    {
        let hit = entries[j].key.eq(k);
        proof {
            assert(em[j as int] == entry_model(entries@[j as int]));
        }
        if hit {
            proof {
                assert(em[j as int].0 == k@);
            }
            return j;
        }
        proof {
            assert(em[j as int].0 != k@);
        }
    }
    proof {
        assert(!obj_has(em, k@));
    }
    entries.len()
}

/// The first element structurally equal to `x`, or `elems.len()` if none is.
#[verifier::loop_isolation(false)]
fn arr_find(elems: &Vec<Value>, x: &Value) -> (r: usize)
    ensures
        r as int == elem_index(seq_model(elems@), x.model()),
{
    proof {
        lemma_seq_model_index(elems@);
        lemma_elem_index(seq_model(elems@), x.model());
    }
    let ghost sm = seq_model(elems@);
    for j in 0..elems.len()
        invariant
            forall|i: int| 0 <= i < j ==> sm[i] != x.model(),
        decreases elems@.len() - j,
    {
        let hit = value_eq(&elems[j], x);
        proof {
            assert(sm[j as int] == elems@[j as int].model());
        }
        if hit {
            proof {
                assert(sm[j as int] == x.model());
            }
            return j;
        }
        proof {
            assert(sm[j as int] != x.model());
        }
    }
    proof {
        assert(!contains_elem(sm, x.model()));
    }
    elems.len()
}

/// Resolve the path `segs[i..end]` within `v`.
fn get_node<'a>(v: &'a Value, segs: &Vec<String>, i: usize, end: usize) -> (r: Option<&'a Value>)
    requires
        i <= end <= segs@.len(),
    ensures
        ({
            let p = strs_model(segs@).subrange(i as int, end as int);
            match r {
                Some(n) => spec_get(v.model(), p) == Some(n.model()),
                None => spec_get(v.model(), p) is None,
            }
        }),
    decreases end - i,
{
    let ghost p = strs_model(segs@).subrange(i as int, end as int);
    if i == end {
        return Some(v);
    }
    proof {
        assert(p[0] == segs@[i as int]@);
        assert(p.subrange(1, p.len() as int) =~= strs_model(segs@).subrange(
            i + 1,
            end as int,
        ));
    }
    match v {
        Value::Obj(entries) => {
            let j = find_key(entries, &segs[i]);
            proof {
                lemma_entries_model_index(entries@);
                lemma_obj_index(entries_model(entries@), segs@[i as int]@);
            }
            if j == entries.len() {
                proof {
                    assert(!obj_has(entries_model(entries@), p[0]));
                    assert(spec_get(v.model(), p) is None);
                }
                None
            } else {
                proof {
                    assert(entries_model(entries@)[j as int] == entry_model(entries@[j as int]));
                    assert(child_of(v.model(), p[0]) == Some(entries@[j as int].val.model()));
                }
                get_node(&entries[j].val, segs, i + 1, end)
            }
        },
        Value::Arr(elems) => {
            let l = elems.len();
            match crate::pointer::parse_index(segs[i].as_str()) {
                Some(ix) => {
                    if ix < l {
                        proof {
                            lemma_seq_model_index(elems@);
                            assert(seq_model(elems@)[ix as int] == elems@[ix as int].model());
                            assert(child_of(v.model(), p[0]) == Some(elems@[ix as int].model()));
                        }
                        get_node(&elems[ix], segs, i + 1, end)
                    } else {
                        proof {
                            lemma_seq_model_index(elems@);
                            assert(spec_get(v.model(), p) is None);
                        }
                        None
                    }
                },
                None => {
                    proof {
                        lemma_seq_model_index(elems@);
                        assert(child_of(v.model(), p[0]) is None);
                        assert(spec_get(v.model(), p) is None);
                    }
                    None
                },
            }
        },
        _ => {
            proof {
                assert(spec_get(v.model(), p) is None);
            }
            None
        },
    }
}

/// Rebuild `v` with the node at path `segs[i..end]` replaced by `nv`.
fn replace_node(v: &Value, segs: &Vec<String>, i: usize, end: usize, nv: Value) -> (r: Result<
    Value,
    ApplyError,
>)
    requires
        i <= end <= segs@.len(),
    ensures
        ({
            let p = strs_model(segs@).subrange(i as int, end as int);
            match r {
                Ok(out) => spec_replace(v.model(), p, nv.model()) == Some(out.model()),
                Err(e) => spec_replace(v.model(), p, nv.model()) is None && e
                    == ApplyError::PointerResolution,
            }
        }),
    decreases end - i,
{
    let ghost p = strs_model(segs@).subrange(i as int, end as int);
    if i == end {
        return Ok(nv);
    }
    proof {
        assert(p[0] == segs@[i as int]@);
        assert(p.subrange(1, p.len() as int) =~= strs_model(segs@).subrange(
            i + 1,
            end as int,
        ));
    }
    match v {
        Value::Obj(entries) => {
            let j = find_key(entries, &segs[i]);
            proof {
                lemma_entries_model_index(entries@);
                lemma_obj_index(entries_model(entries@), segs@[i as int]@);
            }
            if j == entries.len() {
                proof {
                    assert(!obj_has(entries_model(entries@), p[0]));
                    assert(spec_replace(v.model(), p, nv.model()) is None);
                }
                Err(ApplyError::PointerResolution)
            } else {
                proof {
                    assert(entries_model(entries@)[j as int] == entry_model(entries@[j as int]));
                }
                let ghost nvm = nv.model();
                let c2 = match replace_node(&entries[j].val, segs, i + 1, end, nv) {
                    Ok(c2) => c2,
                    Err(e) => {
                        proof {
                            assert(spec_replace(v.model(), p, nvm) is None);
                        }
                        return Err(e);
                    },
                };
                proof {
                    assert(entries_model(entries@)[j as int] == entry_model(entries@[j as int]));
                }
                let mut out = dup_entries(entries);
                let ghost c2m = c2.model();
                let e2 = Entry { key: entries[j].key.clone(), val: c2 };
                let ghost out0 = out@;
                proof {
                    lemma_entries_model_index(entries@);
                    lemma_entries_model_index(out0);
                    assert(out0.len() == entries@.len());
                }
                out.set(j, e2);
                let res = Value::Obj(out);
                proof {
                    let em = entries_model(entries@);
                    lemma_entries_model_update(out0, j as int, res->Obj_0@[j as int]);
                    assert(entry_model(res->Obj_0@[j as int]) == (em[j as int].0, c2m));
                    assert(entries_model(res->Obj_0@) =~= em.update(j as int, (em[j as int].0, c2m)));
                    assert(res.model() == ValueModel::Obj(em.update(j as int, (em[j as int].0, c2m))));
                    assert(spec_replace(v.model(), p, nvm) == Some(res.model()));
                }
                Ok(res)
            }
        },
        Value::Arr(elems) => {
            let l = elems.len();
            match crate::pointer::parse_index(segs[i].as_str()) {
                Some(ix) => {
                    if ix < l {
                        proof {
                            lemma_seq_model_index(elems@);
                            assert(seq_model(elems@)[ix as int] == elems@[ix as int].model());
                        }
                        let ghost nvm2 = nv.model();
                        let c2 = match replace_node(&elems[ix], segs, i + 1, end, nv) {
                            Ok(c2) => c2,
                            Err(e) => {
                                proof {
                                    assert(spec_replace(v.model(), p, nvm2) is None);
                                }
                                return Err(e);
                            },
                        };
                        proof {
                            assert(seq_model(elems@)[ix as int] == elems@[ix as int].model());
                        }
                        let mut out = dup_vec(elems);
                        let ghost out0 = out@;
                        let ghost c2m = c2.model();
                        proof {
                            lemma_seq_model_index(elems@);
                            lemma_seq_model_index(out0);
                            assert(out0.len() == elems@.len());
                        }
                        out.set(ix, c2);
                        let res = Value::Arr(out);
                        proof {
                            lemma_seq_model_update(out0, ix as int, res->Arr_0@[ix as int]);
                            assert(seq_model(res->Arr_0@) =~= seq_model(elems@).update(ix as int, c2m));
                            assert(res.model() == ValueModel::Arr(seq_model(elems@).update(ix as int, c2m)));
                            assert(spec_replace(v.model(), p, nvm2) == Some(res.model()));
                        }
                        Ok(res)
                    } else {
                        proof {
                            lemma_seq_model_index(elems@);
                            assert(spec_replace(v.model(), p, nv.model()) is None);
                        }
                        Err(ApplyError::PointerResolution)
                    }
                },
                None => {
                    proof {
                        lemma_seq_model_index(elems@);
                        assert(spec_replace(v.model(), p, nv.model()) is None);
                    }
                    Err(ApplyError::PointerResolution)
                },
            }
        },
        _ => {
            proof {
                assert(spec_replace(v.model(), p, nv.model()) is None);
            }
            Err(ApplyError::PointerResolution)
        },
    }
}

/// Does `elems` contain an element structurally equal to `x`?
pub(crate) fn arr_contains(elems: &Vec<Value>, x: &Value) -> (r: bool)
    ensures
        r == contains_elem(seq_model(elems@), x.model()),
{
    let j = arr_find(elems, x);
    proof {
        lemma_elem_index(seq_model(elems@), x.model());
        lemma_seq_model_index(elems@);
    }
    j < elems.len()
}

/// Rebuild the resolved parent as `Add` leaves it: push into an existing
/// array child unless the value is already present; insert a new map key;
/// otherwise leave the parent unchanged.
fn add_child(parent: &Value, last: &String, nv: Value) -> (r: Value)
    ensures
        r.model() == spec_add_child(parent.model(), last@, nv.model()),
{
    let ghost pm = parent.model();
    let ghost nvm = nv.model();
    match parent {
        Value::Obj(entries) => {
            let j = find_key(entries, last);
            proof {
                lemma_entries_model_index(entries@);
                lemma_obj_index(entries_model(entries@), last@);
            }
            if j < entries.len() {
                proof {
                    assert(entries_model(entries@)[j as int] == entry_model(entries@[j as int]));
                }
                match &entries[j].val {
                    Value::Arr(elems) => {
                        if arr_contains(elems, &nv) {
                            proof {
                                assert(spec_add_child(pm, last@, nvm) == pm);
                            }
                            dup(parent)
                        } else {
                            let mut newelems = dup_vec(elems);
                            let ghost ne0 = newelems@;
                            newelems.push(nv);
                            proof {
                                lemma_seq_model_index(elems@);
                                lemma_seq_model_index(ne0);
                                lemma_seq_model_push(ne0, newelems@[ne0.len() as int]);
                                assert(seq_model(newelems@) =~= seq_model(elems@).push(nvm));
                            }
                            let mut out = dup_entries(entries);
                            let ghost out0 = out@;
                            proof {
                                lemma_entries_model_index(out0);
                                assert(out0.len() == entries@.len());
                            }
                            let e2 = Entry {
                                key: entries[j].key.clone(),
                                val: Value::Arr(newelems),
                            };
                            out.set(j, e2);
                            let res = Value::Obj(out);
                            proof {
                                let em = entries_model(entries@);
                                let c2 = ValueModel::Arr(seq_model(elems@).push(nvm));
                                lemma_entries_model_update(out0, j as int, res->Obj_0@[j as int]);
                                assert(entry_model(res->Obj_0@[j as int]) == (em[j as int].0, c2));
                                assert(entries_model(res->Obj_0@) =~= em.update(
                                    j as int,
                                    (em[j as int].0, c2),
                                ));
                                assert(replace_child(pm, last@, c2) == res.model());
                                assert(spec_add_child(pm, last@, nvm) == res.model());
                            }
                            res
                        }
                    },
                    _ => {
                        proof {
                            assert(spec_add_child(pm, last@, nvm) == pm);
                        }
                        dup(parent)
                    },
                }
            } else {
                let mut out = dup_entries(entries);
                let ghost out0 = out@;
                let e2 = Entry { key: last.clone(), val: nv };
                out.push(e2);
                let res = Value::Obj(out);
                proof {
                    let em = entries_model(entries@);
                    lemma_entries_model_index(out0);
                    lemma_entries_model_push(out0, res->Obj_0@[out0.len() as int]);
                    assert(entries_model(res->Obj_0@) =~= em.push((last@, nvm)));
                    assert(spec_add_child(pm, last@, nvm) == res.model());
                }
                res
            }
        },
        Value::Arr(elems) => {
            let l = elems.len();
            match crate::pointer::parse_index(last.as_str()) {
                Some(ix) => {
                    if ix < l {
                        proof {
                            lemma_seq_model_index(elems@);
                            assert(seq_model(elems@)[ix as int] == elems@[ix as int].model());
                        }
                        match &elems[ix] {
                            Value::Arr(inner) => {
                                if arr_contains(inner, &nv) {
                                    proof {
                                        assert(spec_add_child(pm, last@, nvm) == pm);
                                    }
                                    dup(parent)
                                } else {
                                    let mut newinner = dup_vec(inner);
                                    let ghost ni0 = newinner@;
                                    newinner.push(nv);
                                    proof {
                                        lemma_seq_model_index(inner@);
                                        lemma_seq_model_index(ni0);
                                        lemma_seq_model_push(ni0, newinner@[ni0.len() as int]);
                                        assert(seq_model(newinner@) =~= seq_model(inner@).push(
                                            nvm,
                                        ));
                                    }
                                    let mut out = dup_vec(elems);
                                    let ghost out0 = out@;
                                    proof {
                                        lemma_seq_model_index(out0);
                                        assert(out0.len() == elems@.len());
                                    }
                                    out.set(ix, Value::Arr(newinner));
                                    let res = Value::Arr(out);
                                    proof {
                                        let c2 = ValueModel::Arr(seq_model(inner@).push(nvm));
                                        lemma_seq_model_update(
                                            out0,
                                            ix as int,
                                            res->Arr_0@[ix as int],
                                        );
                                        assert(seq_model(res->Arr_0@) =~= seq_model(
                                            elems@,
                                        ).update(ix as int, c2));
                                        assert(replace_child(pm, last@, c2) == res.model());
                                        assert(spec_add_child(pm, last@, nvm) == res.model());
                                    }
                                    res
                                }
                            },
                            _ => {
                                proof {
                                    assert(spec_add_child(pm, last@, nvm) == pm);
                                }
                                dup(parent)
                            },
                        }
                    } else {
                        proof {
                            lemma_seq_model_index(elems@);
                            assert(spec_add_child(pm, last@, nvm) == pm);
                        }
                        dup(parent)
                    }
                },
                None => {
                    proof {
                        lemma_seq_model_index(elems@);
                        assert(spec_add_child(pm, last@, nvm) == pm);
                    }
                    dup(parent)
                },
            }
        },
        _ => {
            proof {
                assert(spec_add_child(pm, last@, nvm) == pm);
            }
            dup(parent)
        },
    }
}

/// Rebuild the resolved parent as `Remove` leaves it: drop the first array
/// element equal to the carried value, or drop the named entry outright; a
/// child that does not exist at all is refused.
fn remove_child(parent: &Value, last: &String, carried: &Option<Value>) -> (r: Result<
    Value,
    ApplyError,
>)
    ensures
        ({
            let s = spec_remove_child(parent.model(), last@, opt_model(*carried));
            match r {
                Ok(out) => s == Ok::<ValueModel, ApplyError>(out.model()),
                Err(e) => s == Err::<ValueModel, ApplyError>(e),
            }
        }),
{
    let ghost pm = parent.model();
    let ghost cm = opt_model(*carried);
    match parent {
        Value::Obj(entries) => {
            let j = find_key(entries, last);
            proof {
                lemma_entries_model_index(entries@);
                lemma_obj_index(entries_model(entries@), last@);
            }
            if j == entries.len() {
                return Err(ApplyError::UnsupportedRemoveTarget);
            }
            proof {
                assert(entries_model(entries@)[j as int] == entry_model(entries@[j as int]));
            }
            match &entries[j].val {
                Value::Arr(elems) => match carried {
                    Some(cv) => {
                        let j2 = arr_find(elems, cv);
                        proof {
                            lemma_seq_model_index(elems@);
                            lemma_elem_index(seq_model(elems@), cv.model());
                        }
                        if j2 < elems.len() {
                            let mut newelems = dup_vec(elems);
                            let ghost ne0 = newelems@;
                            proof {
                                lemma_seq_model_index(ne0);
                                assert(ne0.len() == elems@.len());
                            }
                            newelems.remove(j2);
                            proof {
                                lemma_seq_model_remove(ne0, j2 as int);
                                assert(seq_model(newelems@) =~= seq_model(elems@).remove(
                                    j2 as int,
                                ));
                            }
                            let mut out = dup_entries(entries);
                            let ghost out0 = out@;
                            proof {
                                lemma_entries_model_index(out0);
                                assert(out0.len() == entries@.len());
                            }
                            let e2 = Entry {
                                key: entries[j].key.clone(),
                                val: Value::Arr(newelems),
                            };
                            out.set(j, e2);
                            let res = Value::Obj(out);
                            proof {
                                let em = entries_model(entries@);
                                let c2 = ValueModel::Arr(
                                    seq_model(elems@).remove(elem_index(seq_model(elems@), cv.model())),
                                );
                                lemma_entries_model_update(out0, j as int, res->Obj_0@[j as int]);
                                assert(entry_model(res->Obj_0@[j as int]) == (em[j as int].0, c2));
                                assert(entries_model(res->Obj_0@) =~= em.update(
                                    j as int,
                                    (em[j as int].0, c2),
                                ));
                                assert(replace_child(pm, last@, c2) == res.model());
                                assert(spec_remove_child(pm, last@, cm) == Ok::<
                                    ValueModel,
                                    ApplyError,
                                >(res.model()));
                            }
                            Ok(res)
                        } else {
                            proof {
                                assert(spec_remove_child(pm, last@, cm) == Ok::<
                                    ValueModel,
                                    ApplyError,
                                >(pm));
                            }
                            Ok(dup(parent))
                        }
                    },
                    None => {
                        proof {
                            assert(spec_remove_child(pm, last@, cm) == Ok::<
                                ValueModel,
                                ApplyError,
                            >(pm));
                        }
                        Ok(dup(parent))
                    },
                },
                _ => {
                    let mut out = dup_entries(entries);
                    let ghost out0 = out@;
                    proof {
                        lemma_entries_model_index(out0);
                        assert(out0.len() == entries@.len());
                    }
                    out.remove(j);
                    let res = Value::Obj(out);
                    proof {
                        let em = entries_model(entries@);
                        lemma_entries_model_remove(out0, j as int);
                        assert(entries_model(res->Obj_0@) =~= em.remove(j as int));
                        assert(spec_remove_child(pm, last@, cm) == Ok::<ValueModel, ApplyError>(
                            res.model(),
                        ));
                    }
                    Ok(res)
                },
            }
        },
        Value::Arr(elems) => {
            let l = elems.len();
            match crate::pointer::parse_index(last.as_str()) {
                Some(ix) => {
                    if ix < l {
                        proof {
                            lemma_seq_model_index(elems@);
                            assert(seq_model(elems@)[ix as int] == elems@[ix as int].model());
                        }
                        match &elems[ix] {
                            Value::Arr(inner) => match carried {
                                Some(cv) => {
                                    let j2 = arr_find(inner, cv);
                                    proof {
                                        lemma_seq_model_index(inner@);
                                        lemma_elem_index(seq_model(inner@), cv.model());
                                    }
                                    if j2 < inner.len() {
                                        let mut newinner = dup_vec(inner);
                                        let ghost ni0 = newinner@;
                                        proof {
                                            lemma_seq_model_index(ni0);
                                            assert(ni0.len() == inner@.len());
                                        }
                                        newinner.remove(j2);
                                        proof {
                                            lemma_seq_model_remove(ni0, j2 as int);
                                            assert(seq_model(newinner@) =~= seq_model(
                                                inner@,
                                            ).remove(j2 as int));
                                        }
                                        let mut out = dup_vec(elems);
                                        let ghost out0 = out@;
                                        proof {
                                            lemma_seq_model_index(out0);
                                            assert(out0.len() == elems@.len());
                                        }
                                        out.set(ix, Value::Arr(newinner));
                                        let res = Value::Arr(out);
                                        proof {
                                            let c2 = ValueModel::Arr(
                                                seq_model(inner@).remove(
                                                    elem_index(seq_model(inner@), cv.model()),
                                                ),
                                            );
                                            lemma_seq_model_update(
                                                out0,
                                                ix as int,
                                                res->Arr_0@[ix as int],
                                            );
                                            assert(seq_model(res->Arr_0@) =~= seq_model(
                                                elems@,
                                            ).update(ix as int, c2));
                                            assert(replace_child(pm, last@, c2) == res.model());
                                            assert(spec_remove_child(pm, last@, cm) == Ok::<
                                                ValueModel,
                                                ApplyError,
                                            >(res.model()));
                                        }
                                        Ok(res)
                                    } else {
                                        proof {
                                            assert(spec_remove_child(pm, last@, cm) == Ok::<
                                                ValueModel,
                                                ApplyError,
                                            >(pm));
                                        }
                                        Ok(dup(parent))
                                    }
                                },
                                None => {
                                    proof {
                                        assert(spec_remove_child(pm, last@, cm) == Ok::<
                                            ValueModel,
                                            ApplyError,
                                        >(pm));
                                    }
                                    Ok(dup(parent))
                                },
                            },
                            _ => {
                                let mut out = dup_vec(elems);
                                let ghost out0 = out@;
                                proof {
                                    lemma_seq_model_index(out0);
                                    assert(out0.len() == elems@.len());
                                }
                                out.remove(ix);
                                let res = Value::Arr(out);
                                proof {
                                    lemma_seq_model_remove(out0, ix as int);
                                    assert(seq_model(res->Arr_0@) =~= seq_model(elems@).remove(
                                        ix as int,
                                    ));
                                    assert(spec_remove_child(pm, last@, cm) == Ok::<
                                        ValueModel,
                                        ApplyError,
                                    >(res.model()));
                                }
                                Ok(res)
                            },
                        }
                    } else {
                        proof {
                            lemma_seq_model_index(elems@);
                        }
                        Err(ApplyError::UnsupportedRemoveTarget)
                    }
                },
                None => {
                    proof {
                        lemma_seq_model_index(elems@);
                    }
                    Err(ApplyError::UnsupportedRemoveTarget)
                },
            }
        },
        _ => Err(ApplyError::UnsupportedRemoveTarget),
    }
}

/// Rebuild the document as an empty-pointer `Add` leaves it: push into a
/// root array unless the value is already present; any other root is left
/// unchanged.
fn add_root(v: &Value, nv: Value) -> (r: Value)
    ensures
        r.model() == spec_add_root(v.model(), nv.model()),
{
    let ghost nvm = nv.model();
    match v {
        Value::Arr(elems) => {
            if arr_contains(elems, &nv) {
                dup(v)
            } else {
                let mut out = dup_vec(elems);
                let ghost out0 = out@;
                out.push(nv);
                proof {
                    lemma_seq_model_push(out0, out@[out0.len() as int]);
                    assert(seq_model(out@) =~= seq_model(elems@).push(nvm));
                }
                Value::Arr(out)
            }
        },
        _ => dup(v),
    }
}

/// Rebuild the document as an empty-pointer `Remove` leaves it: drop the
/// first element of a root array equal to the carried value; a no-op when
/// the value is absent or not found, or the root is no array.
fn remove_root(v: &Value, carried: &Option<Value>) -> (r: Value)
    ensures
        r.model() == spec_remove_root(v.model(), opt_model(*carried)),
{
    match v {
        Value::Arr(elems) => match carried {
            Some(cv) => {
                let j = arr_find(elems, cv);
                proof {
                    lemma_seq_model_index(elems@);
                    lemma_elem_index(seq_model(elems@), cv.model());
                }
                if j < elems.len() {
                    let mut out = dup_vec(elems);
                    let ghost out0 = out@;
                    proof {
                        lemma_seq_model_index(out0);
                        assert(out0.len() == elems@.len());
                    }
                    out.remove(j);
                    proof {
                        lemma_seq_model_remove(out0, j as int);
                        assert(seq_model(out@) =~= seq_model(elems@).remove(j as int));
                    }
                    Value::Arr(out)
                } else {
                    dup(v)
                }
            },
            None => dup(v),
        },
        _ => dup(v),
    }
}

/// One edit operation, applied in place to a working copy.
pub trait Op {
    /// The operation's meaning: the transformed document, or the error.
    spec fn sem(self, m: ValueModel) -> Result<ValueModel, ApplyError>;

    /// Apply the operation to `input`; on failure `input` is unchanged.
    fn apply(self, input: &mut Value) -> (r: Result<(), ApplyError>)
        ensures
            match self.sem(old(input).model()) {
                Ok(m2) => r is Ok && final(input).model() == m2,
                Err(e) => r == Err::<(), ApplyError>(e) && final(input).model() == old(
                    input,
                ).model(),
            },
    ;
}

impl Op for SetOp {
    open spec fn sem(self, m: ValueModel) -> Result<ValueModel, ApplyError> {
        spec_apply_set(m, self.path@, self.value.model())
    }

    fn apply(self, input: &mut Value) -> (r: Result<(), ApplyError>) {
        let segs = match parse_pointer(self.path.as_str()) {
            Some(s) => s,
            None => {
                return Err(ApplyError::PointerResolution);
            },
        };
        let n = segs.len();
        proof {
            assert(strs_model(segs@).subrange(0, n as int) =~= strs_model(segs@));
        }
        match replace_node(&*input, &segs, 0, n, self.value) {
            Ok(nv) => {
                *input = nv;
                Ok(())
            },
            Err(e) => Err(e),
        }
    }
}

impl Op for AddOp {
    open spec fn sem(self, m: ValueModel) -> Result<ValueModel, ApplyError> {
        spec_apply_add(m, self.path@, self.value.model())
    }

    fn apply(self, input: &mut Value) -> (r: Result<(), ApplyError>) {
        let segs = match parse_pointer(self.path.as_str()) {
            Some(s) => s,
            None => {
                return Err(ApplyError::PointerResolution);
            },
        };
        let n = segs.len();
        if n == 0 {
            let nv = add_root(&*input, self.value);
            *input = nv;
            return Ok(());
        }
        proof {
            assert(strs_model(segs@).drop_last() =~= strs_model(segs@).subrange(0, n - 1));
            assert(strs_model(segs@).last() == segs@[n - 1]@);
        }
        let parent_node = match get_node(&*input, &segs, 0, n - 1) {
            Some(x) => x,
            None => {
                return Err(ApplyError::PointerResolution);
            },
        };
        let p2 = add_child(parent_node, &segs[n - 1], self.value);
        match replace_node(&*input, &segs, 0, n - 1, p2) {
            Ok(nv) => {
                *input = nv;
                Ok(())
            },
            Err(e) => Err(e),
        }
    }
}

impl Op for RemoveOp {
    open spec fn sem(self, m: ValueModel) -> Result<ValueModel, ApplyError> {
        spec_apply_remove(m, self.path@, opt_model(self.value))
    }

    fn apply(self, input: &mut Value) -> (r: Result<(), ApplyError>) {
        let segs = match parse_pointer(self.path.as_str()) {
            Some(s) => s,
            None => {
                return Err(ApplyError::PointerResolution);
            },
        };
        let n = segs.len();
        if n == 0 {
            let nv = remove_root(&*input, &self.value);
            *input = nv;
            return Ok(());
        }
        proof {
            assert(strs_model(segs@).drop_last() =~= strs_model(segs@).subrange(0, n - 1));
            assert(strs_model(segs@).last() == segs@[n - 1]@);
        }
        let parent_node = match get_node(&*input, &segs, 0, n - 1) {
            Some(x) => x,
            None => {
                return Err(ApplyError::PointerResolution);
            },
        };
        let p2 = match remove_child(parent_node, &segs[n - 1], &self.value) {
            Ok(x) => x,
            Err(e) => {
                return Err(e);
            },
        };
        match replace_node(&*input, &segs, 0, n - 1, p2) {
            Ok(nv) => {
                *input = nv;
                Ok(())
            },
            Err(e) => Err(e),
        }
    }
}

impl Op for Operation {
    open spec fn sem(self, m: ValueModel) -> Result<ValueModel, ApplyError> {
        spec_apply_op(self.model(), m)
    }

    fn apply(self, input: &mut Value) -> (r: Result<(), ApplyError>) {
        match self {
            Operation::Add(o) => o.apply(input),
            Operation::Remove(o) => o.apply(input),
            Operation::Replace(o) => o.apply(input),
        }
    }
}

/// Apply a whole edit script to `input`, in order, stopping at the first
/// failing operation.
#[verifier::loop_isolation(false)]
pub fn apply_diff(operations: Vec<Operation>, input: Value) -> (r: Result<Value, ApplyError>)
    ensures
        ({
            let s = spec_apply_ops(ops_model(operations@), input.model());
            match r {
                Ok(out) => s == Ok::<ValueModel, ApplyError>(out.model()),
                Err(e) => s == Err::<ValueModel, ApplyError>(e),
            }
        }),
{
    let ghost ops0 = ops_model(operations@);
    let ghost m0 = input.model();
    let mut out = dup(&input);
    let mut ops = operations;
    while ops.len() > 0
        invariant
            spec_apply_ops(ops0, m0) == spec_apply_ops(ops_model(ops@), out.model()),
        decreases ops@.len(),
    {
        let ghost opsv = ops@;
        let op = ops.remove(0);
        proof {
            assert(ops_model(opsv)[0] == op.model());
            assert(ops_model(opsv).subrange(1, opsv.len() as int) =~= ops_model(ops@));
        }
        match op.apply(&mut out) {
            Ok(()) => {},
            Err(e) => {
                return Err(e);
            },
        }
    }
    Ok(out)
}

} // verus!
