//! Laws of the differ and the patcher, proved once and for all.

use vstd::prelude::*;
use crate::value::{ValueModel, wf_model, wf_seq, wf_entries};
use crate::pointer::{parse_ptr, render_ptr, split_segs, lemma_first_slash_at};
use crate::sem::{
    ApplyError, obj_index, obj_has, lemma_obj_index, contains_elem, elem_index, lemma_elem_index,
    child_of, spec_get, spec_replace, replace_child, spec_add_child, spec_remove_child,
    spec_add_root, spec_remove_root, spec_apply_set, spec_apply_add, spec_apply_remove,
};
use crate::diff::{
    spec_diff, diff_arr_pass1, diff_arr_pass2, diff_shared, diff_obj_pass1, diff_obj_adds,
    is_composite,
};
use crate::ops::{OpModel, spec_apply_ops};

verus! {

proof fn lemma_wf_seq_index(s: Seq<ValueModel>)
    requires
        wf_seq(s),
    ensures
        forall|i: int| 0 <= i < s.len() ==> wf_model(#[trigger] s[i]),
    decreases s.len(),
{
    if s.len() > 0 {
        let t = s.subrange(1, s.len() as int);
        lemma_wf_seq_index(t);
        assert forall|i: int| 0 <= i < s.len() implies wf_model(#[trigger] s[i]) by {
            if i > 0 {
                assert(t[i - 1] == s[i]);
            }
        }
    }
}

proof fn lemma_wf_entries_index(s: Seq<(Seq<char>, ValueModel)>)
    requires
        wf_entries(s),
    ensures
        forall|i: int| 0 <= i < s.len() ==> wf_model((#[trigger] s[i]).1),
    decreases s.len(),
{
    if s.len() > 0 {
        let t = s.subrange(1, s.len() as int);
        lemma_wf_entries_index(t);
        assert forall|i: int| 0 <= i < s.len() implies wf_model((#[trigger] s[i]).1) by {
            if i > 0 {
                assert(t[i - 1] == s[i]);
            }
        }
    }
}

/// The no-op law: diffing a well-formed document against itself yields the
/// empty edit script, whatever the position; documents with `Null` leaves
/// included, since `Null` on the left never emits an operation.
pub proof fn lemma_diff_self_empty(m: ValueModel, ptr: Seq<Seq<char>>)
    requires
        wf_model(m),
    ensures
        spec_diff(m, m, ptr) == Some(Seq::<OpModel>::empty()),
    decreases m, 0int,
{
    match m {
        ValueModel::Arr(elems) => {
            lemma_arr_pass1_self(elems, 0, ptr);
            lemma_arr_pass2_self(elems, 0, ptr);
            assert(Seq::<OpModel>::empty() + Seq::<OpModel>::empty() =~= Seq::<
                OpModel,
            >::empty());
        },
        ValueModel::Obj(entries) => {
            lemma_obj_pass1_self(entries, 0, ptr);
            lemma_obj_adds_self(entries, 0, ptr);
            assert(Seq::<OpModel>::empty() + Seq::<OpModel>::empty() =~= Seq::<
                OpModel,
            >::empty());
        },
        _ => {},
    }
}

proof fn lemma_arr_pass1_self(s: Seq<ValueModel>, i: int, ptr: Seq<Seq<char>>)
    requires
        wf_seq(s),
        0 <= i,
    ensures
        diff_arr_pass1(s, s, i, ptr) == Some(Seq::<OpModel>::empty()),
    decreases s, s.len() - i,
{
    if i < s.len() {
        lemma_wf_seq_index(s);
        if is_composite(s[i]) {
            lemma_diff_self_empty(s[i], ptr.push(crate::pointer::dec_of(i)));
        } else {
            assert(contains_elem(s, s[i]));
        }
        lemma_arr_pass1_self(s, i + 1, ptr);
        assert(Seq::<OpModel>::empty() + Seq::<OpModel>::empty() =~= Seq::<OpModel>::empty());
    }
}

proof fn lemma_arr_pass2_self(s: Seq<ValueModel>, i: int, ptr: Seq<Seq<char>>)
    requires
        wf_seq(s),
        0 <= i,
    ensures
        diff_arr_pass2(s, s, i, ptr) == Some(Seq::<OpModel>::empty()),
    decreases s, s.len() - i,
{
    if i < s.len() {
        lemma_wf_seq_index(s);
        if is_composite(s[i]) {
            lemma_diff_self_empty(s[i], ptr.push(crate::pointer::dec_of(i)));
        } else {
            assert(contains_elem(s, s[i]));
        }
        lemma_arr_pass2_self(s, i + 1, ptr);
        assert(Seq::<OpModel>::empty() + Seq::<OpModel>::empty() =~= Seq::<OpModel>::empty());
    }
}

proof fn lemma_shared_self(e: (Seq<char>, ValueModel), ptr: Seq<Seq<char>>)
    requires
        wf_model(e.1),
    ensures
        diff_shared(e, e.1, ptr) == Some(Seq::<OpModel>::empty()),
    decreases e, 0int,
{
    lemma_diff_self_empty(e.1, ptr.push(e.0));
}

proof fn lemma_obj_pass1_self(s: Seq<(Seq<char>, ValueModel)>, i: int, ptr: Seq<Seq<char>>)
    requires
        wf_entries(s),
        forall|a: int, b: int| 0 <= a < b < s.len() ==> (#[trigger] s[a]).0 != (#[trigger] s[b]).0,
        0 <= i,
    ensures
        diff_obj_pass1(s, s, i, ptr) == Some(Seq::<OpModel>::empty()),
    decreases s, s.len() - i,
{
    if i < s.len() {
        lemma_wf_entries_index(s);
        assert(obj_has(s, s[i].0));
        lemma_obj_index(s, s[i].0);
        let j = obj_index(s, s[i].0);
        assert(j == i);
        lemma_shared_self(s[i], ptr);
        lemma_obj_pass1_self(s, i + 1, ptr);
        assert(Seq::<OpModel>::empty() + Seq::<OpModel>::empty() =~= Seq::<OpModel>::empty());
    }
}

proof fn lemma_obj_adds_self(s: Seq<(Seq<char>, ValueModel)>, i: int, ptr: Seq<Seq<char>>)
    requires
        0 <= i,
    ensures
        diff_obj_adds(s, s, i, ptr) == Seq::<OpModel>::empty(),
    decreases s.len() - i,
{
    if i < s.len() {
        assert(obj_has(s, s[i].0));
        lemma_obj_adds_self(s, i + 1, ptr);
        assert(Seq::<OpModel>::empty() + Seq::<OpModel>::empty() =~= Seq::<OpModel>::empty());
    }
}

/// Replacing succeeds exactly where resolving succeeds: both walk the same
/// child at every step.
pub proof fn lemma_replace_iff_get(m: ValueModel, p: Seq<Seq<char>>, nv: ValueModel)
    ensures
        spec_replace(m, p, nv) is Some <==> spec_get(m, p) is Some,
    decreases p.len(),
{
    if p.len() > 0 {
        match m {
            ValueModel::Obj(entries) => {
                if obj_has(entries, p[0]) {
                    lemma_obj_index(entries, p[0]);
                    lemma_replace_iff_get(
                        entries[obj_index(entries, p[0])].1,
                        p.subrange(1, p.len() as int),
                        nv,
                    );
                }
            },
            ValueModel::Arr(elems) => {
                match crate::pointer::seg_index(p[0]) {
                    Some(ix) => {
                        if 0 <= ix < elems.len() {
                            lemma_replace_iff_get(elems[ix], p.subrange(1, p.len() as int), nv);
                        }
                    },
                    None => {},
                }
            },
            _ => {},
        }
    }
}

/// `Set` never creates a location: it succeeds exactly on a pointer that
/// resolves to an existing node, and fails with `PointerResolution`
/// otherwise.
pub proof fn lemma_set_requires_target(m: ValueModel, path: Seq<char>, v: ValueModel)
    ensures
        spec_apply_set(m, path, v) is Ok <==> (parse_ptr(path) matches Some(segs) && spec_get(
            m,
            segs,
        ) is Some),
        spec_apply_set(m, path, v) is Err ==> spec_apply_set(m, path, v)
            == Err::<ValueModel, ApplyError>(ApplyError::PointerResolution),
{
    match parse_ptr(path) {
        Some(segs) => {
            lemma_replace_iff_get(m, segs, v);
        },
        None => {},
    }
}

/// Updating an entry without changing its key leaves every key lookup
/// unchanged.
proof fn lemma_obj_index_update_same_key(
    s: Seq<(Seq<char>, ValueModel)>,
    i: int,
    x: (Seq<char>, ValueModel),
    k: Seq<char>,
)
    requires
        0 <= i < s.len(),
        x.0 == s[i].0,
    ensures
        obj_index(s.update(i, x), k) == obj_index(s, k),
    decreases s.len(),
{
    let u = s.update(i, x);
    if i == 0 {
        assert(u[0].0 == s[0].0);
        assert(u.subrange(1, u.len() as int) =~= s.subrange(1, s.len() as int));
    } else {
        assert(u[0] == s[0]);
        let t = s.subrange(1, s.len() as int);
        assert(u.subrange(1, u.len() as int) =~= t.update(i - 1, x));
        assert(t[i - 1] == s[i]);
        lemma_obj_index_update_same_key(t, i - 1, x, k);
    }
}

/// Replacing the same node with the same value a second time changes
/// nothing.
pub proof fn lemma_replace_idem(m: ValueModel, p: Seq<Seq<char>>, v: ValueModel)
    ensures
        spec_replace(m, p, v) matches Some(m2) ==> spec_replace(m2, p, v) == Some(m2),
    decreases p.len(),
{
    if p.len() == 0 {
    } else {
        match m {
            ValueModel::Obj(entries) => {
                if obj_has(entries, p[0]) {
                    lemma_obj_index(entries, p[0]);
                    let i = obj_index(entries, p[0]);
                    let c = entries[i].1;
                    let tail = p.subrange(1, p.len() as int);
                    lemma_replace_idem(c, tail, v);
                    match spec_replace(c, tail, v) {
                        Some(c2) => {
                            let u = entries.update(i, (entries[i].0, c2));
                            assert(u[i].0 == entries[i].0);
                            lemma_obj_index_update_same_key(entries, i, (entries[i].0, c2), p[0]);
                            assert(obj_index(u, p[0]) == i);
                            assert(obj_has(u, p[0])) by {
                                assert(u[i].0 == p[0]);
                            }
                            assert(u[i].1 == c2);
                            assert(u.update(i, (u[i].0, c2)) =~= u);
                        },
                        None => {},
                    }
                }
            },
            ValueModel::Arr(elems) => {
                match crate::pointer::seg_index(p[0]) {
                    Some(ix) => {
                        if 0 <= ix < elems.len() {
                            let tail = p.subrange(1, p.len() as int);
                            lemma_replace_idem(elems[ix], tail, v);
                            match spec_replace(elems[ix], tail, v) {
                                Some(c2) => {
                                    let u = elems.update(ix, c2);
                                    assert(u[ix] == c2);
                                    assert(u.update(ix, c2) =~= u);
                                },
                                None => {},
                            }
                        }
                    },
                    None => {},
                }
            },
            _ => {},
        }
    }
}

/// The re-apply law for `Set`: once a `Set` has succeeded, applying the
/// same `Set` to the result changes nothing.
pub proof fn lemma_set_reapply(m: ValueModel, path: Seq<char>, v: ValueModel)
    ensures
        spec_apply_set(m, path, v) matches Ok(m2) ==> spec_apply_set(m2, path, v)
            == Ok::<ValueModel, ApplyError>(m2),
{
    match parse_ptr(path) {
        Some(segs) => {
            lemma_replace_idem(m, segs, v);
        },
        None => {},
    }
}

/// The round-trip law for scalars: for two scalar documents of the same
/// kind, applying the computed script to the left document yields the
/// right one.
pub proof fn lemma_round_trip_scalar(l: ValueModel, r: ValueModel)
    requires
        (l is Bool && r is Bool) || (l is Num && r is Num) || (l is Text && r is Text),
    ensures
        spec_diff(l, r, Seq::empty()) matches Some(ops) && spec_apply_ops(ops, l)
            == Ok::<ValueModel, ApplyError>(r),
{
    let empty_ptr = Seq::<Seq<char>>::empty();
    if l == r {
        let ops = Seq::<OpModel>::empty();
        assert(spec_diff(l, r, empty_ptr) == Some(ops));
        assert(spec_apply_ops(ops, l) == Ok::<ValueModel, ApplyError>(r));
    } else {
        let op = OpModel::Replace { path: crate::pointer::render_ptr(empty_ptr), value: r };
        let ops = seq![op];
        assert(spec_diff(l, r, empty_ptr) == Some(ops));
        assert(crate::pointer::render_ptr(empty_ptr) == Seq::<char>::empty());
        assert(parse_ptr(Seq::<char>::empty()) == Some(empty_ptr));
        assert(spec_replace(l, empty_ptr, r) == Some(r));
        assert(spec_apply_set(l, crate::pointer::render_ptr(empty_ptr), r)
            == Ok::<ValueModel, ApplyError>(r));
        assert(ops.subrange(1, 1) =~= Seq::<OpModel>::empty());
        assert(spec_apply_ops(ops.subrange(1, 1), r) == Ok::<ValueModel, ApplyError>(r));
        assert(spec_apply_ops(ops, l) == Ok::<ValueModel, ApplyError>(r));
    }
}

/// Scripts compose sequentially: applying a concatenation is applying the
/// first part, then the second to its result, stopping at the first
/// failure.
pub proof fn lemma_apply_ops_append(a: Seq<OpModel>, b: Seq<OpModel>, m: ValueModel)
    ensures
        spec_apply_ops(a + b, m) == (match spec_apply_ops(a, m) {
            Ok(m2) => spec_apply_ops(b, m2),
            Err(e) => Err(e),
        }),
    decreases a.len(),
{
    if a.len() == 0 {
        assert(a + b =~= b);
    } else {
        assert((a + b)[0] == a[0]);
        assert((a + b).subrange(1, (a + b).len() as int) =~= a.subrange(1, a.len() as int) + b);
        match crate::ops::spec_apply_op(a[0], m) {
            Ok(m2) => {
                lemma_apply_ops_append(a.subrange(1, a.len() as int), b, m2);
            },
            Err(e) => {},
        }
    }
}

/// After a successful replacement, the replaced path resolves to the new
/// value.
pub proof fn lemma_get_after_replace(m: ValueModel, p: Seq<Seq<char>>, nv: ValueModel)
    ensures
        spec_replace(m, p, nv) matches Some(m2) ==> spec_get(m2, p) == Some(nv),
    decreases p.len(),
{
    if p.len() > 0 {
        match m {
            ValueModel::Obj(entries) => {
                if obj_has(entries, p[0]) {
                    lemma_obj_index(entries, p[0]);
                    let i = obj_index(entries, p[0]);
                    let tail = p.subrange(1, p.len() as int);
                    lemma_get_after_replace(entries[i].1, tail, nv);
                    match spec_replace(entries[i].1, tail, nv) {
                        Some(c2) => {
                            let u = entries.update(i, (entries[i].0, c2));
                            lemma_obj_index_update_same_key(entries, i, (entries[i].0, c2), p[0]);
                            assert(obj_has(u, p[0])) by {
                                assert(u[i].0 == p[0]);
                            }
                            assert(u[i].1 == c2);
                        },
                        None => {},
                    }
                }
            },
            ValueModel::Arr(elems) => {
                match crate::pointer::seg_index(p[0]) {
                    Some(ix) => {
                        if 0 <= ix < elems.len() {
                            let tail = p.subrange(1, p.len() as int);
                            lemma_get_after_replace(elems[ix], tail, nv);
                        }
                    },
                    None => {},
                }
            },
            _ => {},
        }
    }
}

/// Replacing a node with the value it already holds changes nothing.
pub proof fn lemma_replace_with_current(m: ValueModel, p: Seq<Seq<char>>)
    ensures
        spec_get(m, p) matches Some(x) ==> spec_replace(m, p, x) == Some(m),
    decreases p.len(),
{
    if p.len() > 0 {
        match m {
            ValueModel::Obj(entries) => {
                if obj_has(entries, p[0]) {
                    lemma_obj_index(entries, p[0]);
                    let i = obj_index(entries, p[0]);
                    let tail = p.subrange(1, p.len() as int);
                    lemma_replace_with_current(entries[i].1, tail);
                    match spec_get(entries[i].1, tail) {
                        Some(x) => {
                            assert((entries[i].0, entries[i].1) == entries[i]);
                            assert(entries.update(i, entries[i]) =~= entries);
                        },
                        None => {},
                    }
                }
            },
            ValueModel::Arr(elems) => {
                match crate::pointer::seg_index(p[0]) {
                    Some(ix) => {
                        if 0 <= ix < elems.len() {
                            let tail = p.subrange(1, p.len() as int);
                            lemma_replace_with_current(elems[ix], tail);
                            match spec_get(elems[ix], tail) {
                                Some(x) => {
                                    assert(elems.update(ix, elems[ix]) =~= elems);
                                },
                                None => {},
                            }
                        }
                    },
                    None => {},
                }
            },
            _ => {},
        }
    }
}

/// Pushing an entry with a fresh key makes that key resolve to the pushed
/// value.
proof fn lemma_obj_index_push_new(
    s: Seq<(Seq<char>, ValueModel)>,
    x: (Seq<char>, ValueModel),
    k: Seq<char>,
)
    requires
        !obj_has(s, k),
        x.0 == k,
    ensures
        obj_index(s.push(x), k) == s.len(),
        obj_has(s.push(x), k),
    decreases s.len(),
{
    let u = s.push(x);
    assert(u[s.len() as int].0 == k);
    if s.len() == 0 {
    } else {
        assert(s[0].0 != k) by {
            assert(obj_has(s, k) || s[0].0 != k);
        }
        let t = s.subrange(1, s.len() as int);
        assert(!obj_has(t, k)) by {
            if obj_has(t, k) {
                let w = choose|i: int| 0 <= i < t.len() && (#[trigger] t[i]).0 == k;
                assert(s[w + 1] == t[w]);
            }
        }
        lemma_obj_index_push_new(t, x, k);
        assert(u.subrange(1, u.len() as int) =~= t.push(x));
    }
}

/// Once an `Add` has edited the parent, the same `Add` leaves it alone —
/// except when it created a fresh map key holding an array, which a second
/// `Add` would push into.
pub proof fn lemma_add_child_idem(p: ValueModel, last: Seq<char>, v: ValueModel)
    requires
        !(p is Obj && child_of(p, last) is None && v is Arr),
    ensures
        spec_add_child(spec_add_child(p, last, v), last, v) == spec_add_child(p, last, v),
{
    let p2 = spec_add_child(p, last, v);
    match child_of(p, last) {
        Some(c) => {
            match c {
                ValueModel::Arr(elems) => {
                    if contains_elem(elems, v) {
                        assert(p2 == p);
                    } else {
                        let c2 = ValueModel::Arr(elems.push(v));
                        assert(p2 == replace_child(p, last, c2));
                        match p {
                            ValueModel::Obj(entries) => {
                                lemma_obj_index(entries, last);
                                let i = obj_index(entries, last);
                                let u = entries.update(i, (entries[i].0, c2));
                                lemma_obj_index_update_same_key(
                                    entries,
                                    i,
                                    (entries[i].0, c2),
                                    last,
                                );
                                assert(obj_has(u, last)) by {
                                    assert(u[i].0 == last);
                                }
                                assert(child_of(p2, last) == Some(c2));
                                assert(contains_elem(elems.push(v), v)) by {
                                    assert(elems.push(v)[elems.len() as int] == v);
                                }
                            },
                            ValueModel::Arr(outer) => {
                                match crate::pointer::seg_index(last) {
                                    Some(ix) => {
                                        assert(child_of(p2, last) == Some(c2));
                                        assert(contains_elem(elems.push(v), v)) by {
                                            assert(elems.push(v)[elems.len() as int] == v);
                                        }
                                    },
                                    None => {},
                                }
                            },
                            _ => {},
                        }
                    }
                },
                _ => {
                    assert(p2 == p);
                },
            }
        },
        None => {
            match p {
                ValueModel::Obj(entries) => {
                    assert(!obj_has(entries, last)) by {
                        lemma_obj_index(entries, last);
                    }
                    let u = entries.push((last, v));
                    assert(p2 == ValueModel::Obj(u));
                    lemma_obj_index_push_new(entries, (last, v), last);
                    assert(child_of(p2, last) == Some(v));
                    assert(!(v is Arr));
                },
                _ => {
                    assert(p2 == p);
                },
            }
        },
    }
}

/// The re-apply law for `Add`: once an `Add` has succeeded, applying the
/// same `Add` to the result changes nothing — an empty pointer included,
/// since a root push deduplicates — except when it created a fresh map key
/// holding an array, which a second application would push into.
pub proof fn lemma_add_reapply(m: ValueModel, path: Seq<char>, v: ValueModel)
    requires
        match parse_ptr(path) {
            Some(segs) => segs.len() > 0 ==> match spec_get(m, segs.drop_last()) {
                Some(p) => !(p is Obj && child_of(p, segs.last()) is None && v is Arr),
                None => true,
            },
            None => true,
        },
    ensures
        spec_apply_add(m, path, v) matches Ok(m2) ==> spec_apply_add(m2, path, v)
            == Ok::<ValueModel, ApplyError>(m2),
{
    match parse_ptr(path) {
        Some(segs) => {
            if segs.len() > 0 {
                let parent = segs.drop_last();
                match spec_get(m, parent) {
                    Some(p) => {
                        let p2 = spec_add_child(p, segs.last(), v);
                        match spec_replace(m, parent, p2) {
                            Some(m2) => {
                                lemma_get_after_replace(m, parent, p2);
                                assert(spec_get(m2, parent) == Some(p2));
                                lemma_add_child_idem(p, segs.last(), v);
                                assert(spec_add_child(p2, segs.last(), v) == p2);
                                lemma_replace_with_current(m2, parent);
                                assert(spec_replace(m2, parent, p2) == Some(m2));
                            },
                            None => {},
                        }
                    },
                    None => {},
                }
            } else {
                let m2 = spec_add_root(m, v);
                match m {
                    ValueModel::Arr(elems) => {
                        if !contains_elem(elems, v) {
                            assert(contains_elem(elems.push(v), v)) by {
                                assert(elems.push(v)[elems.len() as int] == v);
                            }
                        }
                    },
                    _ => {},
                }
                assert(spec_add_root(m2, v) == m2);
            }
        },
        None => {},
    }
}

/// Once a `Remove` has dropped an array element, the same `Remove` leaves
/// the result alone, provided no further element equal to the carried
/// value remains.
pub proof fn lemma_remove_child_idem(p: ValueModel, last: Seq<char>, carried: Option<ValueModel>)
    requires
        child_of(p, last) matches Some(c) && c is Arr,
        match carried {
            Some(cv) => match child_of(p, last) {
                Some(c) => !contains_elem(c->Arr_0.remove(elem_index(c->Arr_0, cv)), cv),
                None => true,
            },
            None => true,
        },
    ensures
        spec_remove_child(p, last, carried) matches Ok(p2) ==> spec_remove_child(
            p2,
            last,
            carried,
        ) == Ok::<ValueModel, ApplyError>(p2),
{
    let c = child_of(p, last)->Some_0;
    let elems = c->Arr_0;
    match carried {
        Some(cv) => {
            lemma_elem_index(elems, cv);
            if contains_elem(elems, cv) {
                let c2 = ValueModel::Arr(elems.remove(elem_index(elems, cv)));
                let p2 = replace_child(p, last, c2);
                match p {
                    ValueModel::Obj(entries) => {
                        lemma_obj_index(entries, last);
                        let i = obj_index(entries, last);
                        let u = entries.update(i, (entries[i].0, c2));
                        lemma_obj_index_update_same_key(entries, i, (entries[i].0, c2), last);
                        assert(obj_has(u, last)) by {
                            assert(u[i].0 == last);
                        }
                        assert(child_of(p2, last) == Some(c2));
                        lemma_elem_index(c2->Arr_0, cv);
                    },
                    ValueModel::Arr(outer) => {
                        match crate::pointer::seg_index(last) {
                            Some(ix) => {
                                assert(child_of(p2, last) == Some(c2));
                                lemma_elem_index(c2->Arr_0, cv);
                            },
                            None => {},
                        }
                    },
                    _ => {},
                }
            }
        },
        None => {},
    }
}

/// The re-apply law for `Remove` on an array child or a root array: once
/// the carried value has been removed, applying the same `Remove` again
/// changes nothing, provided the array held at most one element equal to
/// it.
pub proof fn lemma_remove_reapply(m: ValueModel, path: Seq<char>, carried: Option<ValueModel>)
    requires
        match parse_ptr(path) {
            Some(segs) => if segs.len() == 0 {
                match carried {
                    Some(cv) => m matches ValueModel::Arr(elems) ==> !contains_elem(
                        elems.remove(elem_index(elems, cv)),
                        cv,
                    ),
                    None => true,
                }
            } else {
                match spec_get(m, segs.drop_last()) {
                    Some(p) => child_of(p, segs.last()) matches Some(c) && c is Arr && (match carried {
                        Some(cv) => !contains_elem(
                            c->Arr_0.remove(elem_index(c->Arr_0, cv)),
                            cv,
                        ),
                        None => true,
                    }),
                    None => true,
                }
            },
            None => true,
        },
    ensures
        spec_apply_remove(m, path, carried) matches Ok(m2) ==> spec_apply_remove(
            m2,
            path,
            carried,
        ) == Ok::<ValueModel, ApplyError>(m2),
{
    match parse_ptr(path) {
        Some(segs) => {
            if segs.len() > 0 {
                let parent = segs.drop_last();
                match spec_get(m, parent) {
                    Some(p) => {
                        match spec_remove_child(p, segs.last(), carried) {
                            Ok(p2) => {
                                match spec_replace(m, parent, p2) {
                                    Some(m2) => {
                                        lemma_get_after_replace(m, parent, p2);
                                        assert(spec_get(m2, parent) == Some(p2));
                                        lemma_remove_child_idem(p, segs.last(), carried);
                                        assert(spec_remove_child(p2, segs.last(), carried)
                                            == Ok::<ValueModel, ApplyError>(p2));
                                        lemma_replace_with_current(m2, parent);
                                        assert(spec_replace(m2, parent, p2) == Some(m2));
                                    },
                                    None => {},
                                }
                            },
                            Err(e) => {},
                        }
                    },
                    None => {},
                }
            }
        },
        None => {},
    }
}

/// Two scalar documents of the same kind.
pub open spec fn same_scalar_kind(l: ValueModel, r: ValueModel) -> bool {
    (l is Bool && r is Bool) || (l is Num && r is Num) || (l is Text && r is Text)
}

/// A one-segment pointer renders and parses back to itself, provided the
/// segment holds no `/`.
proof fn lemma_parse_render_single(k: Seq<char>)
    requires
        forall|j: int| 0 <= j < k.len() ==> k[j] != '/',
    ensures
        parse_ptr(render_ptr(seq![k])) == Some(seq![k]),
{
    let segs = seq![k];
    assert(segs.drop_last() =~= Seq::<Seq<char>>::empty());
    assert(segs.last() == k);
    assert(render_ptr(Seq::<Seq<char>>::empty()) == Seq::<char>::empty());
    let s = render_ptr(segs);
    assert(s == render_ptr(segs.drop_last()) + seq!['/'] + k);
    assert(s =~= seq!['/'] + k);
    assert(s.len() == 1 + k.len());
    assert(s[0] == '/');
    let body = s.subrange(1, s.len() as int);
    assert(body =~= k);
    lemma_first_slash_at(k, k.len() as int);
    assert(split_segs(k) == seq![k]);
    assert(parse_ptr(s) == Some(seq![k]));
}

/// A key that holds no `/`, so that it survives the rendering and parsing
/// of a pointer unchanged.
pub open spec fn slash_free(k: Seq<char>) -> bool {
    forall|c: int| 0 <= c < k.len() ==> k[c] != '/'
}

/// The entries of a flat round-trip document pair: same keys in the same
/// order, unique and slash-free, and scalar values of matching kinds.
pub open spec fn flat_pair(
    lent: Seq<(Seq<char>, ValueModel)>,
    rent: Seq<(Seq<char>, ValueModel)>,
) -> bool {
    &&& lent.len() == rent.len()
    &&& forall|j: int| 0 <= j < lent.len() ==> (#[trigger] lent[j]).0 == rent[j].0
    &&& forall|a: int, b: int|
        0 <= a < b < lent.len() ==> (#[trigger] lent[a]).0 != (#[trigger] lent[b]).0
    &&& forall|j: int| 0 <= j < lent.len() ==> same_scalar_kind((#[trigger] lent[j]).1, rent[j].1)
    &&& forall|j: int| 0 <= j < lent.len() ==> slash_free((#[trigger] lent[j]).0)
}

/// The document whose first `i` entries already hold the right values and
/// whose remaining entries still hold the left ones.
spec fn mix(
    lent: Seq<(Seq<char>, ValueModel)>,
    rent: Seq<(Seq<char>, ValueModel)>,
    i: int,
) -> Seq<(Seq<char>, ValueModel)> {
    Seq::new(lent.len(), |j: int| if j < i { rent[j] } else { lent[j] })
}

proof fn lemma_adds_all_shared(
    lent: Seq<(Seq<char>, ValueModel)>,
    rent: Seq<(Seq<char>, ValueModel)>,
    i: int,
    ptr: Seq<Seq<char>>,
)
    requires
        0 <= i,
        forall|j: int| 0 <= j < rent.len() ==> obj_has(lent, (#[trigger] rent[j]).0),
    ensures
        diff_obj_adds(lent, rent, i, ptr) == Seq::<OpModel>::empty(),
    decreases rent.len() - i,
{
    if i < rent.len() {
        assert(obj_has(lent, rent[i].0));
        lemma_adds_all_shared(lent, rent, i + 1, ptr);
        assert(Seq::<OpModel>::empty() + Seq::<OpModel>::empty() =~= Seq::<OpModel>::empty());
    }
}

#[verifier::rlimit(60)]
proof fn lemma_flat_pass1_apply(
    lent: Seq<(Seq<char>, ValueModel)>,
    rent: Seq<(Seq<char>, ValueModel)>,
    i: int,
)
    requires
        flat_pair(lent, rent),
        0 <= i <= lent.len(),
    ensures
        diff_obj_pass1(lent, rent, i, Seq::empty()) matches Some(ops) && spec_apply_ops(
            ops,
            ValueModel::Obj(mix(lent, rent, i)),
        ) == Ok::<ValueModel, ApplyError>(ValueModel::Obj(rent)),
    decreases lent.len() - i,
{
    if i == lent.len() {
        assert(mix(lent, rent, i) =~= rent);
    } else {
        let k = lent[i].0;
        let v = lent[i].1;
        let w = rent[i].1;
        // The right map holds the key, first at position i.
        assert(obj_has(rent, k)) by {
            assert(rent[i].0 == k);
        }
        lemma_obj_index(rent, k);
        assert(obj_index(rent, k) == i) by {
            assert(forall|j: int| 0 <= j < i ==> (#[trigger] rent[j]).0 == lent[j].0);
            assert(rent[i].0 == k);
        }
        let kp = Seq::<Seq<char>>::empty().push(k);
        assert(kp =~= seq![k]);
        let head = diff_shared(lent[i], w, Seq::empty());
        // The shared-key recursion on scalars: nothing, or one Set.
        let ghost head_ops: Seq<OpModel> = if v == w {
            Seq::<OpModel>::empty()
        } else {
            seq![OpModel::Replace { path: render_ptr(kp), value: w }]
        };
        assert(head == Some(head_ops));
        lemma_flat_pass1_apply(lent, rent, i + 1);
        let tail_ops = diff_obj_pass1(lent, rent, i + 1, Seq::empty())->Some_0;
        assert(diff_obj_pass1(lent, rent, i, Seq::empty()) == Some(head_ops + tail_ops));
        // Applying the head transforms mix(i) into mix(i + 1).
        let m_i = ValueModel::Obj(mix(lent, rent, i));
        let m_n = ValueModel::Obj(mix(lent, rent, i + 1));
        if v == w {
            assert((lent[i].0, lent[i].1) == lent[i]);
            assert((rent[i].0, rent[i].1) == rent[i]);
            assert(lent[i] == rent[i]);
            assert(mix(lent, rent, i) =~= mix(lent, rent, i + 1));
            assert(spec_apply_ops(head_ops, m_i) == Ok::<ValueModel, ApplyError>(m_n));
        } else {
            lemma_parse_render_single(k);
            assert(render_ptr(kp) == render_ptr(seq![k]));
            assert(parse_ptr(render_ptr(kp)) == Some(seq![k]));
            let mixed = mix(lent, rent, i);
            assert(forall|j: int| 0 <= j < i ==> (#[trigger] mixed[j]).0 == lent[j].0);
            assert(forall|j: int| i <= j < mixed.len() ==> (#[trigger] mixed[j]).0 == lent[j].0);
            assert(obj_has(mixed, k)) by {
                assert(mixed[i].0 == k);
            }
            lemma_obj_index(mixed, k);
            assert(obj_index(mixed, k) == i) by {
                assert(forall|j: int| 0 <= j < i ==> (#[trigger] mixed[j]).0 != k);
                assert(mixed[i].0 == k);
            }
            let tail1 = seq![k].subrange(1, 1);
            assert(tail1 =~= Seq::<Seq<char>>::empty());
            assert(spec_replace(mixed[i].1, tail1, w) == Some(w));
            assert(seq![k][0] == k);
            let u = mixed.update(i, (mixed[i].0, w));
            assert(spec_replace(m_i, seq![k], w) == Some(ValueModel::Obj(u)));
            assert((rent[i].0, rent[i].1) == rent[i]);
            assert(u =~= mix(lent, rent, i + 1));
            assert(spec_apply_set(m_i, render_ptr(kp), w) == Ok::<ValueModel, ApplyError>(m_n));
            assert(head_ops.subrange(1, 1) =~= Seq::<OpModel>::empty());
            assert(spec_apply_ops(head_ops.subrange(1, 1), m_n) == Ok::<ValueModel, ApplyError>(
                m_n,
            ));
            assert(spec_apply_ops(head_ops, m_i) == Ok::<ValueModel, ApplyError>(m_n));
        }
        lemma_apply_ops_append(head_ops, tail_ops, m_i);
        assert(spec_apply_ops(head_ops + tail_ops, m_i) == Ok::<ValueModel, ApplyError>(
            ValueModel::Obj(rent),
        ));
    }
}

/// The round-trip law for flat maps: for two maps over the same unique,
/// slash-free keys, holding scalar values of matching kinds, applying the
/// computed script to the left map yields the right one.
pub proof fn lemma_round_trip_flat_obj(
    lent: Seq<(Seq<char>, ValueModel)>,
    rent: Seq<(Seq<char>, ValueModel)>,
)
    requires
        flat_pair(lent, rent),
    ensures
        spec_diff(ValueModel::Obj(lent), ValueModel::Obj(rent), Seq::empty()) matches Some(ops)
            && spec_apply_ops(ops, ValueModel::Obj(lent)) == Ok::<ValueModel, ApplyError>(
            ValueModel::Obj(rent),
        ),
{
    lemma_flat_pass1_apply(lent, rent, 0);
    assert(forall|j: int| 0 <= j < rent.len() ==> obj_has(lent, (#[trigger] rent[j]).0)) by {
        assert forall|j: int| 0 <= j < rent.len() implies obj_has(lent, (#[trigger] rent[j]).0) by {
            assert(lent[j].0 == rent[j].0);
        }
    }
    lemma_adds_all_shared(lent, rent, 0, Seq::empty());
    let pass1_ops = diff_obj_pass1(lent, rent, 0, Seq::empty())->Some_0;
    assert(pass1_ops + Seq::<OpModel>::empty() =~= pass1_ops);
    assert(mix(lent, rent, 0) =~= lent);
}

proof fn lemma_flat_pass1_on_right(
    lent: Seq<(Seq<char>, ValueModel)>,
    rent: Seq<(Seq<char>, ValueModel)>,
    i: int,
)
    requires
        flat_pair(lent, rent),
        0 <= i <= lent.len(),
    ensures
        diff_obj_pass1(lent, rent, i, Seq::empty()) matches Some(ops) && spec_apply_ops(
            ops,
            ValueModel::Obj(rent),
        ) == Ok::<ValueModel, ApplyError>(ValueModel::Obj(rent)),
    decreases lent.len() - i,
{
    if i < lent.len() {
        let k = lent[i].0;
        let v = lent[i].1;
        let w = rent[i].1;
        assert(obj_has(rent, k)) by {
            assert(rent[i].0 == k);
        }
        lemma_obj_index(rent, k);
        assert(obj_index(rent, k) == i) by {
            assert(forall|j: int| 0 <= j < i ==> (#[trigger] rent[j]).0 == lent[j].0);
            assert(rent[i].0 == k);
        }
        let kp = Seq::<Seq<char>>::empty().push(k);
        assert(kp =~= seq![k]);
        let ghost head_ops: Seq<OpModel> = if v == w {
            Seq::<OpModel>::empty()
        } else {
            seq![OpModel::Replace { path: render_ptr(kp), value: w }]
        };
        assert(diff_shared(lent[i], w, Seq::empty()) == Some(head_ops));
        lemma_flat_pass1_on_right(lent, rent, i + 1);
        let tail_ops = diff_obj_pass1(lent, rent, i + 1, Seq::empty())->Some_0;
        assert(diff_obj_pass1(lent, rent, i, Seq::empty()) == Some(head_ops + tail_ops));
        let m_r = ValueModel::Obj(rent);
        if v == w {
            assert(spec_apply_ops(head_ops, m_r) == Ok::<ValueModel, ApplyError>(m_r));
        } else {
            lemma_parse_render_single(k);
            assert(parse_ptr(render_ptr(kp)) == Some(seq![k]));
            let tail1 = seq![k].subrange(1, 1);
            assert(tail1 =~= Seq::<Seq<char>>::empty());
            assert(spec_replace(rent[i].1, tail1, w) == Some(w));
            assert(seq![k][0] == k);
            let u = rent.update(i, (rent[i].0, w));
            assert(spec_replace(m_r, seq![k], w) == Some(ValueModel::Obj(u)));
            assert((rent[i].0, rent[i].1) == rent[i]);
            assert(u =~= rent);
            assert(spec_apply_set(m_r, render_ptr(kp), w) == Ok::<ValueModel, ApplyError>(m_r));
            assert(head_ops.subrange(1, 1) =~= Seq::<OpModel>::empty());
            assert(spec_apply_ops(head_ops.subrange(1, 1), m_r) == Ok::<ValueModel, ApplyError>(
                m_r,
            ));
            assert(spec_apply_ops(head_ops, m_r) == Ok::<ValueModel, ApplyError>(m_r));
        }
        lemma_apply_ops_append(head_ops, tail_ops, m_r);
    }
}

/// The re-apply law for whole differ scripts on flat maps: for two maps
/// over the same unique, slash-free keys holding scalar values of matching
/// kinds, applying the computed script a second time changes nothing.
pub proof fn lemma_reapply_flat_obj(
    lent: Seq<(Seq<char>, ValueModel)>,
    rent: Seq<(Seq<char>, ValueModel)>,
)
    requires
        flat_pair(lent, rent),
    ensures
        spec_diff(ValueModel::Obj(lent), ValueModel::Obj(rent), Seq::empty()) matches Some(ops)
            && spec_apply_ops(ops, ValueModel::Obj(lent)) matches Ok(once) && spec_apply_ops(
            ops,
            once,
        ) == Ok::<ValueModel, ApplyError>(once),
{
    lemma_round_trip_flat_obj(lent, rent);
    lemma_flat_pass1_on_right(lent, rent, 0);
    assert(forall|j: int| 0 <= j < rent.len() ==> obj_has(lent, (#[trigger] rent[j]).0)) by {
        assert forall|j: int| 0 <= j < rent.len() implies obj_has(lent, (#[trigger] rent[j]).0) by {
            assert(lent[j].0 == rent[j].0);
        }
    }
    lemma_adds_all_shared(lent, rent, 0, Seq::empty());
    let pass1_ops = diff_obj_pass1(lent, rent, 0, Seq::empty())->Some_0;
    assert(pass1_ops + Seq::<OpModel>::empty() =~= pass1_ops);
}

} // verus!
