//! The differ: walking two documents in lock-step and producing an ordered
//! edit script that transforms the left document into the right one.
//!
//! Dispatch is driven by the left node's kind.  Scalars of the same kind
//! become one `Set`; a kind change becomes a `Remove` followed by an `Add`;
//! maps are walked key by key; arrays compare composite elements by
//! position and scalar elements as an unordered set.

use vstd::prelude::*;
use crate::value::{
    Value, Entry, ValueModel, seq_model, entries_model, entry_model, dup, lemma_seq_model_index,
    lemma_entries_model_index,
};
use crate::pointer::{render_pointer, render_ptr, strs_model, dec_of, render_index};
use crate::sem::{obj_index, obj_has, lemma_obj_index, contains_elem};
use crate::ops::{AddOp, RemoveOp, SetOp, Operation, OpModel, ops_model, find_key, arr_contains};

verus! {

/// Why computing a diff failed: a composite array element stands at an
/// index the other array does not have.
#[derive(Clone, Copy, Debug, PartialEq, Eq, Structural)]
pub enum DiffError {
    IndexOutOfRange,
}

/// Is `m` an array or a map?
pub open spec fn is_composite(m: ValueModel) -> bool {
    m is Arr || m is Obj
}

/// Concatenation of two optional scripts; `None` wins.
pub open spec fn cat_ops(a: Option<Seq<OpModel>>, b: Option<Seq<OpModel>>) -> Option<
    Seq<OpModel>,
> {
    match a {
        Some(x) => match b {
            Some(y) => Some(x + y),
            None => None,
        },
        None => None,
    }
}

/// The full-replacement pair emitted on a kind change: remove, then add,
/// the remove always without a carried value.
pub open spec fn replace_pair(ptr: Seq<Seq<char>>, r: ValueModel) -> Seq<OpModel> {
    seq![
        OpModel::Remove { path: render_ptr(ptr), value: None },
        OpModel::Add { path: render_ptr(ptr), value: r },
    ]
}

/// The script that transforms `l` into `r` at position `ptr`, or `None`
/// when a composite array element has no counterpart index.
pub open spec fn spec_diff(l: ValueModel, r: ValueModel, ptr: Seq<Seq<char>>) -> Option<
    Seq<OpModel>,
>
    decreases l, 0int,
{
    match l {
        ValueModel::Null => Some(Seq::empty()),
        ValueModel::Bool(b) => match r {
            ValueModel::Bool(b2) => if b == b2 {
                Some(Seq::empty())
            } else {
                Some(seq![OpModel::Replace { path: render_ptr(ptr), value: r }])
            },
            _ => Some(replace_pair(ptr, r)),
        },
        ValueModel::Num(n) => match r {
            ValueModel::Num(n2) => if n == n2 {
                Some(Seq::empty())
            } else {
                Some(seq![OpModel::Replace { path: render_ptr(ptr), value: r }])
            },
            _ => Some(replace_pair(ptr, r)),
        },
        ValueModel::Text(t) => match r {
            ValueModel::Text(t2) => if t == t2 {
                Some(Seq::empty())
            } else {
                Some(seq![OpModel::Replace { path: render_ptr(ptr), value: r }])
            },
            _ => Some(replace_pair(ptr, r)),
        },
        ValueModel::Arr(le) => match r {
            ValueModel::Arr(re) => cat_ops(
                diff_arr_pass1(le, re, 0, ptr),
                diff_arr_pass2(le, re, 0, ptr),
            ),
            _ => Some(replace_pair(ptr, r)),
        },
        ValueModel::Obj(lent) => match r {
            ValueModel::Obj(rent) => cat_ops(
                diff_obj_pass1(lent, rent, 0, ptr),
                Some(diff_obj_adds(lent, rent, 0, ptr)),
            ),
            _ => Some(replace_pair(ptr, r)),
        },
    }
}

/// First array pass, over the right array by index: recurse on composite
/// elements, add scalar elements absent from the left array.
pub open spec fn diff_arr_pass1(
    le: Seq<ValueModel>,
    re: Seq<ValueModel>,
    i: int,
    ptr: Seq<Seq<char>>,
) -> Option<Seq<OpModel>>
    decreases le, re.len() - i,
{
    if i < 0 || i >= re.len() {
        Some(Seq::empty())
    } else {
        let head = if is_composite(re[i]) {
            if i < le.len() {
                spec_diff(le[i], re[i], ptr.push(dec_of(i)))
            } else {
                None
            }
        } else if !contains_elem(le, re[i]) {
            Some(seq![OpModel::Add { path: render_ptr(ptr), value: re[i] }])
        } else {
            Some(Seq::empty())
        };
        cat_ops(head, diff_arr_pass1(le, re, i + 1, ptr))
    }
}

/// Second array pass, over the left array by index: recurse on composite
/// elements, remove scalar elements absent from the right array.
pub open spec fn diff_arr_pass2(
    le: Seq<ValueModel>,
    re: Seq<ValueModel>,
    i: int,
    ptr: Seq<Seq<char>>,
) -> Option<Seq<OpModel>>
    decreases le, le.len() - i,
{
    if i < 0 || i >= le.len() {
        Some(Seq::empty())
    } else {
        let head = if is_composite(le[i]) {
            if i < re.len() {
                spec_diff(le[i], re[i], ptr.push(dec_of(i)))
            } else {
                None
            }
        } else if !contains_elem(re, le[i]) {
            Some(seq![OpModel::Remove { path: render_ptr(ptr), value: Some(le[i]) }])
        } else {
            Some(Seq::empty())
        };
        cat_ops(head, diff_arr_pass2(le, re, i + 1, ptr))
    }
}

/// Recursing into a key shared by both maps.
pub open spec fn diff_shared(
    e: (Seq<char>, ValueModel),
    rv: ValueModel,
    ptr: Seq<Seq<char>>,
) -> Option<Seq<OpModel>>
    decreases e, 0int,
{
    spec_diff(e.1, rv, ptr.push(e.0))
}

/// First map pass, over the left entries in order: recurse into shared
/// keys, remove keys absent on the right.
pub open spec fn diff_obj_pass1(
    lent: Seq<(Seq<char>, ValueModel)>,
    rent: Seq<(Seq<char>, ValueModel)>,
    i: int,
    ptr: Seq<Seq<char>>,
) -> Option<Seq<OpModel>>
    decreases lent, lent.len() - i,
{
    if i < 0 || i >= lent.len() {
        Some(Seq::empty())
    } else {
        let head = if obj_has(rent, lent[i].0) {
            diff_shared(lent[i], rent[obj_index(rent, lent[i].0)].1, ptr)
        } else {
            Some(
                seq![OpModel::Remove { path: render_ptr(ptr.push(lent[i].0)), value: None }],
            )
        };
        cat_ops(head, diff_obj_pass1(lent, rent, i + 1, ptr))
    }
}

/// Second map pass, over the right entries in order: add keys absent on
/// the left; shared keys were already handled by the first pass.
pub open spec fn diff_obj_adds(
    lent: Seq<(Seq<char>, ValueModel)>,
    rent: Seq<(Seq<char>, ValueModel)>,
    i: int,
    ptr: Seq<Seq<char>>,
) -> Seq<OpModel>
    decreases rent.len() - i,
{
    if i < 0 || i >= rent.len() {
        Seq::empty()
    } else {
        let head: Seq<OpModel> = if obj_has(lent, rent[i].0) {
            Seq::empty()
        } else {
            seq![OpModel::Add { path: render_ptr(ptr.push(rent[i].0)), value: rent[i].1 }]
        };
        head + diff_obj_adds(lent, rent, i + 1, ptr)
    }
}

/// Is `v` an array or a map?
fn is_composite_exec(v: &Value) -> (r: bool)
    ensures
        r == is_composite(v.model()),
{
    match v {
        Value::Arr(_) => true,
        Value::Obj(_) => true,
        _ => false,
    }
}

/// Compute the edit script that transforms `left` into `right`.
pub fn diff_tree(left: &Value, right: &Value) -> (r: Result<Vec<Operation>, DiffError>)
    ensures
        ({
            let s = spec_diff(left.model(), right.model(), Seq::empty());
            match r {
                Ok(ops) => s == Some(ops_model(ops@)),
                Err(e) => s is None,
            }
        }),
{
    let mut path: Vec<String> = Vec::new();
    proof {
        assert(strs_model(Seq::<String>::empty()) =~= Seq::<Seq<char>>::empty());
    }
    diff_tree_internal(left, right, &mut path)
}

/// The recursive walk; `path` names the current position and is restored
/// before returning.
fn diff_tree_internal(left: &Value, right: &Value, path: &mut Vec<String>) -> (r: Result<
    Vec<Operation>,
    DiffError,
>)
    ensures
        final(path)@ == old(path)@,
        ({
            let s = spec_diff(left.model(), right.model(), strs_model(old(path)@));
            match r {
                Ok(ops) => s == Some(ops_model(ops@)),
                Err(e) => s is None,
            }
        }),
    decreases *left, 0int,
{
    let ghost ptr = strs_model(path@);
    match left {
        Value::Null => {
            let out: Vec<Operation> = Vec::new();
            proof {
                assert(ops_model(out@) =~= Seq::<OpModel>::empty());
            }
            Ok(out)
        },
        Value::Bool(l) => {
            match right {
                Value::Bool(r2) => {
                    if *l != *r2 {
                        one_set(right, path)
                    } else {
                        let out: Vec<Operation> = Vec::new();
                        proof {
                            assert(ops_model(out@) =~= Seq::<OpModel>::empty());
                        }
                        Ok(out)
                    }
                },
                _ => pair_replace(right, path),
            }
        },
        Value::Num(l) => {
            match right {
                Value::Num(r2) => {
                    if *l != *r2 {
                        one_set(right, path)
                    } else {
                        let out: Vec<Operation> = Vec::new();
                        proof {
                            assert(ops_model(out@) =~= Seq::<OpModel>::empty());
                        }
                        Ok(out)
                    }
                },
                _ => pair_replace(right, path),
            }
        },
        Value::Text(l) => {
            match right {
                Value::Text(r2) => {
                    if !l.eq(r2) {
                        one_set(right, path)
                    } else {
                        let out: Vec<Operation> = Vec::new();
                        proof {
                            assert(ops_model(out@) =~= Seq::<OpModel>::empty());
                        }
                        Ok(out)
                    }
                },
                _ => pair_replace(right, path),
            }
        },
        Value::Arr(le) => {
            match right {
                Value::Arr(re) => {
                    let mut a = match diff_arr_pass1_exec(le, re, 0, path) {
                        Ok(o) => o,
                        Err(e) => {
                            return Err(e);
                        },
                    };
                    let mut b = match diff_arr_pass2_exec(le, re, 0, path) {
                        Ok(o) => o,
                        Err(e) => {
                            return Err(e);
                        },
                    };
                    let ghost am = a@;
                    let ghost bm = b@;
                    a.append(&mut b);
                    proof {
                        assert(ops_model(a@) =~= ops_model(am) + ops_model(bm));
                    }
                    Ok(a)
                },
                _ => pair_replace(right, path),
            }
        },
        Value::Obj(lo) => {
            match right {
                Value::Obj(ro) => {
                    let mut a = match diff_obj_pass1_exec(lo, ro, 0, path) {
                        Ok(o) => o,
                        Err(e) => {
                            return Err(e);
                        },
                    };
                    let mut b = diff_obj_adds_exec(lo, ro, 0, path);
                    let ghost am = a@;
                    let ghost bm = b@;
                    a.append(&mut b);
                    proof {
                        assert(ops_model(a@) =~= ops_model(am) + ops_model(bm));
                    }
                    Ok(a)
                },
                _ => pair_replace(right, path),
            }
        },
    }
}

/// One `Set` of the right value at the current position.
fn one_set(right: &Value, path: &mut Vec<String>) -> (r: Result<Vec<Operation>, DiffError>)
    ensures
        final(path)@ == old(path)@,
        r is Ok,
        r matches Ok(ops) ==> ops_model(ops@) =~= seq![
            OpModel::Replace {
                path: render_ptr(strs_model(old(path)@)),
                value: right.model(),
            },
        ],
{
    let ps = render_pointer(&*path);
    let mut out: Vec<Operation> = Vec::new();
    out.push(Operation::Replace(SetOp { path: ps, value: dup(right) }));
    Ok(out)
}

/// The full-replacement pair at the current position: remove, then add.
fn pair_replace(right: &Value, path: &mut Vec<String>) -> (r: Result<Vec<Operation>, DiffError>)
    ensures
        final(path)@ == old(path)@,
        r is Ok,
        r matches Ok(ops) ==> ops_model(ops@) =~= replace_pair(
            strs_model(old(path)@),
            right.model(),
        ),
{
    let ps = render_pointer(&*path);
    let ps2 = render_pointer(&*path);
    let mut out: Vec<Operation> = Vec::new();
    out.push(Operation::Remove(RemoveOp { path: ps, value: None }));
    out.push(Operation::Add(AddOp { path: ps2, value: dup(right) }));
    Ok(out)
}

/// First array pass: over the right array by index.
fn diff_arr_pass1_exec(le: &Vec<Value>, re: &Vec<Value>, i: usize, path: &mut Vec<String>) -> (r:
    Result<Vec<Operation>, DiffError>)
    requires
        i <= re@.len(),
    ensures
        final(path)@ == old(path)@,
        ({
            let s = diff_arr_pass1(
                seq_model(le@),
                seq_model(re@),
                i as int,
                strs_model(old(path)@),
            );
            match r {
                Ok(ops) => s == Some(ops_model(ops@)),
                Err(e) => s is None,
            }
        }),
    decreases le, re@.len() - i,
{
    let ghost lm = seq_model(le@);
    let ghost rm = seq_model(re@);
    let ghost ptr = strs_model(path@);
    proof {
        lemma_seq_model_index(le@);
        lemma_seq_model_index(re@);
    }
    if i == re.len() {
        let out: Vec<Operation> = Vec::new();
        proof {
            assert(ops_model(out@) =~= Seq::<OpModel>::empty());
        }
        return Ok(out);
    }
    let e = &re[i];
    proof {
        assert(rm[i as int] == e.model());
    }
    let ghost spec_head = if is_composite(rm[i as int]) {
        if i < lm.len() {
            spec_diff(lm[i as int], rm[i as int], ptr.push(dec_of(i as int)))
        } else {
            None
        }
    } else if !contains_elem(lm, rm[i as int]) {
        Some(seq![OpModel::Add { path: render_ptr(ptr), value: rm[i as int] }])
    } else {
        Some(Seq::<OpModel>::empty())
    };
    let head: Vec<Operation> = if is_composite_exec(e) {
        if i >= le.len() {
            return Err(DiffError::IndexOutOfRange);
        }
        proof {
            assert(lm[i as int] == le@[i as int].model());
        }
        let idxs = render_index(i);
        let ghost path0 = path@;
        path.push(idxs);
        proof {
            assert(strs_model(path@) =~= strs_model(path0).push(dec_of(i as int)));
        }
        let sub = diff_tree_internal(&le[i], e, path);
        let _popped = path.pop();
        proof {
            assert(path@ =~= path0);
        }
        match sub {
            Ok(ops) => ops,
            Err(err) => {
                return Err(err);
            },
        }
    } else if !arr_contains(le, e) {
        let ps = render_pointer(&*path);
        let mut v: Vec<Operation> = Vec::new();
        v.push(Operation::Add(AddOp { path: ps, value: dup(e) }));
        proof {
            assert(ops_model(v@) =~= seq![
                OpModel::Add { path: render_ptr(ptr), value: rm[i as int] },
            ]);
        }
        v
    } else {
        let v: Vec<Operation> = Vec::new();
        proof {
            assert(ops_model(v@) =~= Seq::<OpModel>::empty());
        }
        v
    };
    proof {
        assert(spec_head == Some(ops_model(head@)));
    }
    let ghost headm = head@;
    let mut out = head;
    let mut rest = match diff_arr_pass1_exec(le, re, i + 1, path) {
        Ok(o) => o,
        Err(err) => {
            return Err(err);
        },
    };
    let ghost restm = rest@;
    out.append(&mut rest);
    proof {
        assert(ops_model(out@) =~= ops_model(headm) + ops_model(restm));
    }
    Ok(out)
}

/// Second array pass: over the left array by index.
fn diff_arr_pass2_exec(le: &Vec<Value>, re: &Vec<Value>, i: usize, path: &mut Vec<String>) -> (r:
    Result<Vec<Operation>, DiffError>)
    requires
        i <= le@.len(),
    ensures
        final(path)@ == old(path)@,
        ({
            let s = diff_arr_pass2(
                seq_model(le@),
                seq_model(re@),
                i as int,
                strs_model(old(path)@),
            );
            match r {
                Ok(ops) => s == Some(ops_model(ops@)),
                Err(e) => s is None,
            }
        }),
    decreases le, le@.len() - i,
{
    let ghost lm = seq_model(le@);
    let ghost rm = seq_model(re@);
    let ghost ptr = strs_model(path@);
    proof {
        lemma_seq_model_index(le@);
        lemma_seq_model_index(re@);
    }
    if i == le.len() {
        let out: Vec<Operation> = Vec::new();
        proof {
            assert(ops_model(out@) =~= Seq::<OpModel>::empty());
        }
        return Ok(out);
    }
    let e = &le[i];
    proof {
        assert(lm[i as int] == e.model());
    }
    let ghost spec_head = if is_composite(lm[i as int]) {
        if i < rm.len() {
            spec_diff(lm[i as int], rm[i as int], ptr.push(dec_of(i as int)))
        } else {
            None
        }
    } else if !contains_elem(rm, lm[i as int]) {
        Some(seq![OpModel::Remove { path: render_ptr(ptr), value: Some(lm[i as int]) }])
    } else {
        Some(Seq::<OpModel>::empty())
    };
    let head: Vec<Operation> = if is_composite_exec(e) {
        if i >= re.len() {
            return Err(DiffError::IndexOutOfRange);
        }
        proof {
            assert(rm[i as int] == re@[i as int].model());
        }
        let idxs = render_index(i);
        let ghost path0 = path@;
        path.push(idxs);
        proof {
            assert(strs_model(path@) =~= strs_model(path0).push(dec_of(i as int)));
        }
        let sub = diff_tree_internal(e, &re[i], path);
        let _popped = path.pop();
        proof {
            assert(path@ =~= path0);
        }
        match sub {
            Ok(ops) => ops,
            Err(err) => {
                return Err(err);
            },
        }
    } else if !arr_contains(re, e) {
        let ps = render_pointer(&*path);
        let mut v: Vec<Operation> = Vec::new();
        v.push(Operation::Remove(RemoveOp { path: ps, value: Some(dup(e)) }));
        proof {
            assert(ops_model(v@) =~= seq![
                OpModel::Remove { path: render_ptr(ptr), value: Some(lm[i as int]) },
            ]);
        }
        v
    } else {
        let v: Vec<Operation> = Vec::new();
        proof {
            assert(ops_model(v@) =~= Seq::<OpModel>::empty());
        }
        v
    };
    proof {
        assert(spec_head == Some(ops_model(head@)));
    }
    let ghost headm = head@;
    let mut out = head;
    let mut rest = match diff_arr_pass2_exec(le, re, i + 1, path) {
        Ok(o) => o,
        Err(err) => {
            return Err(err);
        },
    };
    let ghost restm = rest@;
    out.append(&mut rest);
    proof {
        assert(ops_model(out@) =~= ops_model(headm) + ops_model(restm));
    }
    Ok(out)
}

/// Recursing into a key shared by both maps.
fn diff_entry_shared(e: &Entry, rv: &Value, path: &mut Vec<String>) -> (r: Result<
    Vec<Operation>,
    DiffError,
>)
    ensures
        final(path)@ == old(path)@,
        ({
            let s = diff_shared(entry_model(*e), rv.model(), strs_model(old(path)@));
            match r {
                Ok(ops) => s == Some(ops_model(ops@)),
                Err(x) => s is None,
            }
        }),
    decreases *e, 0int,
{
    let ghost path0 = path@;
    path.push(e.key.clone());
    proof {
        assert(strs_model(path@) =~= strs_model(path0).push(e.key@));
    }
    let sub = diff_tree_internal(&e.val, rv, path);
    let _popped = path.pop();
    proof {
        assert(path@ =~= path0);
    }
    sub
}

/// First map pass: over the left entries in order.
fn diff_obj_pass1_exec(lo: &Vec<Entry>, ro: &Vec<Entry>, i: usize, path: &mut Vec<String>) -> (r:
    Result<Vec<Operation>, DiffError>)
    requires
        i <= lo@.len(),
    ensures
        final(path)@ == old(path)@,
        ({
            let s = diff_obj_pass1(
                entries_model(lo@),
                entries_model(ro@),
                i as int,
                strs_model(old(path)@),
            );
            match r {
                Ok(ops) => s == Some(ops_model(ops@)),
                Err(e) => s is None,
            }
        }),
    decreases lo, lo@.len() - i,
{
    let ghost lm = entries_model(lo@);
    let ghost rm = entries_model(ro@);
    let ghost ptr = strs_model(path@);
    proof {
        lemma_entries_model_index(lo@);
        lemma_entries_model_index(ro@);
    }
    if i == lo.len() {
        let out: Vec<Operation> = Vec::new();
        proof {
            assert(ops_model(out@) =~= Seq::<OpModel>::empty());
        }
        return Ok(out);
    }
    proof {
        assert(lm[i as int] == entry_model(lo@[i as int]));
    }
    let j = find_key(ro, &lo[i].key);
    proof {
        lemma_obj_index(rm, lo@[i as int].key@);
    }
    let ghost spec_head = if obj_has(rm, lm[i as int].0) {
        diff_shared(lm[i as int], rm[obj_index(rm, lm[i as int].0)].1, ptr)
    } else {
        Some(seq![OpModel::Remove { path: render_ptr(ptr.push(lm[i as int].0)), value: None }])
    };
    let head: Vec<Operation> = if j < ro.len() {
        proof {
            assert(rm[j as int] == entry_model(ro@[j as int]));
        }
        let sub = diff_entry_shared(&lo[i], &ro[j].val, path);
        match sub {
            Ok(ops) => ops,
            Err(err) => {
                return Err(err);
            },
        }
    } else {
        let ghost path0 = path@;
        path.push(lo[i].key.clone());
        proof {
            assert(strs_model(path@) =~= strs_model(path0).push(lo@[i as int].key@));
        }
        let ps = render_pointer(&*path);
        let _popped = path.pop();
        proof {
            assert(path@ =~= path0);
        }
        let mut v: Vec<Operation> = Vec::new();
        v.push(Operation::Remove(RemoveOp { path: ps, value: None }));
        proof {
            assert(ops_model(v@) =~= seq![
                OpModel::Remove { path: render_ptr(ptr.push(lm[i as int].0)), value: None },
            ]);
        }
        v
    };
    proof {
        assert(spec_head == Some(ops_model(head@)));
    }
    let ghost headm = head@;
    let mut out = head;
    let mut rest = match diff_obj_pass1_exec(lo, ro, i + 1, path) {
        Ok(o) => o,
        Err(err) => {
            return Err(err);
        },
    };
    let ghost restm = rest@;
    out.append(&mut rest);
    proof {
        assert(ops_model(out@) =~= ops_model(headm) + ops_model(restm));
    }
    Ok(out)
}

/// Second map pass: over the right entries in order, adding new keys.
fn diff_obj_adds_exec(lo: &Vec<Entry>, ro: &Vec<Entry>, i: usize, path: &mut Vec<String>) -> (r:
    Vec<Operation>)
    requires
        i <= ro@.len(),
    ensures
        final(path)@ == old(path)@,
        ops_model(r@) == diff_obj_adds(
            entries_model(lo@),
            entries_model(ro@),
            i as int,
            strs_model(old(path)@),
        ),
    decreases ro@.len() - i,
{
    let ghost lm = entries_model(lo@);
    let ghost rm = entries_model(ro@);
    let ghost ptr = strs_model(path@);
    proof {
        lemma_entries_model_index(lo@);
        lemma_entries_model_index(ro@);
    }
    if i == ro.len() {
        let out: Vec<Operation> = Vec::new();
        proof {
            assert(ops_model(out@) =~= Seq::<OpModel>::empty());
        }
        return out;
    }
    proof {
        assert(rm[i as int] == entry_model(ro@[i as int]));
    }
    let j = find_key(lo, &ro[i].key);
    proof {
        lemma_obj_index(lm, ro@[i as int].key@);
    }
    let head: Vec<Operation> = if j < lo.len() {
        let v: Vec<Operation> = Vec::new();
        proof {
            assert(ops_model(v@) =~= Seq::<OpModel>::empty());
        }
        v
    } else {
        let ghost path0 = path@;
        path.push(ro[i].key.clone());
        proof {
            assert(strs_model(path@) =~= strs_model(path0).push(ro@[i as int].key@));
        }
        let ps = render_pointer(&*path);
        let _popped = path.pop();
        proof {
            assert(path@ =~= path0);
        }
        let mut v: Vec<Operation> = Vec::new();
        v.push(Operation::Add(AddOp { path: ps, value: dup(&ro[i].val) }));
        proof {
            assert(ops_model(v@) =~= seq![
                OpModel::Add { path: render_ptr(ptr.push(rm[i as int].0)), value: rm[i as int].1 },
            ]);
        }
        v
    };
    let ghost headm = head@;
    let mut out = head;
    let mut rest = diff_obj_adds_exec(lo, ro, i + 1, path);
    let ghost restm = rest@;
    out.append(&mut rest);
    proof {
        assert(ops_model(out@) =~= ops_model(headm) + ops_model(restm));
    }
    out
}

} // verus!
