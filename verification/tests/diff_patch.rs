use mzjd::{
    apply_diff, diff_tree, dup, value_eq, AddOp, ApplyError, DiffError, Entry, Operation, RemoveOp,
    SetOp, Value,
};

fn txt(x: &str) -> Value {
    Value::Text(x.to_string())
}

fn num(n: i64) -> Value {
    Value::Num(n)
}

fn arr(items: Vec<Value>) -> Value {
    Value::Arr(items)
}

fn obj(entries: Vec<(&str, Value)>) -> Value {
    Value::Obj(
        entries
            .into_iter()
            .map(|(k, v)| Entry { key: k.to_string(), val: v })
            .collect(),
    )
}

fn assert_value_eq(a: &Value, b: &Value) {
    assert!(value_eq(a, b));
}

#[test]
fn noop_diff_scalars() {
    for v in [Value::Null, Value::Bool(true), num(7), txt("x")] {
        let ops = diff_tree(&v, &dup(&v)).unwrap();
        assert!(ops.is_empty());
    }
}

#[test]
fn noop_diff_nested_with_null_leaf() {
    let x = obj(vec![
        ("a", num(1)),
        ("b", arr(vec![num(1), obj(vec![("c", Value::Null)])])),
        ("d", Value::Null),
    ]);
    let ops = diff_tree(&x, &dup(&x)).unwrap();
    assert!(ops.is_empty());
}

#[test]
fn null_source_emits_nothing() {
    // Null on the left never emits an operation, whatever stands on the right.
    let ops = diff_tree(&Value::Null, &num(5)).unwrap();
    assert!(ops.is_empty());
    let ops = diff_tree(&Value::Null, &obj(vec![("a", num(1))])).unwrap();
    assert!(ops.is_empty());
}

#[test]
fn scalar_array_set_semantics_diff() {
    // diff([1,2,3], [2,3,4]) yields Remove(value=1) and Add(value=4) against
    // the array's own pointer, not an index-qualified one.
    let l = arr(vec![num(1), num(2), num(3)]);
    let r = arr(vec![num(2), num(3), num(4)]);
    let ops = diff_tree(&l, &r).unwrap();
    assert_eq!(ops.len(), 2);
    match &ops[0] {
        Operation::Add(a) => {
            assert_eq!(a.path, "");
            assert!(value_eq(&a.value, &num(4)));
        },
        _ => panic!("expected an add first"),
    }
    match &ops[1] {
        Operation::Remove(rm) => {
            assert_eq!(rm.path, "");
            assert!(value_eq(rm.value.as_ref().unwrap(), &num(1)));
        },
        _ => panic!("expected a remove second"),
    }
}

#[test]
fn scalar_array_set_semantics_apply() {
    // Applying the root-array script to [1,2,3] yields exactly {2,3,4} in
    // append order [2,3,4], with no duplicate of 2 or 3.
    let l = arr(vec![num(1), num(2), num(3)]);
    let r = arr(vec![num(2), num(3), num(4)]);
    let ops = diff_tree(&l, &r).unwrap();
    let out = apply_diff(ops, dup(&l)).unwrap();
    assert_value_eq(&out, &arr(vec![num(2), num(3), num(4)]));
}

#[test]
fn scalar_array_set_semantics_apply_nested() {
    // The same semantics behind a key.
    let l = obj(vec![("k", arr(vec![num(1), num(2), num(3)]))]);
    let r = obj(vec![("k", arr(vec![num(2), num(3), num(4)]))]);
    let ops = diff_tree(&l, &r).unwrap();
    let out = apply_diff(ops, dup(&l)).unwrap();
    assert_value_eq(&out, &obj(vec![("k", arr(vec![num(2), num(3), num(4)]))]));
}

#[test]
fn add_at_root_array_deduplicates() {
    let script = vec![
        Operation::Add(AddOp { path: "".to_string(), value: num(2) }),
        Operation::Add(AddOp { path: "".to_string(), value: num(3) }),
    ];
    let out = apply_diff(script, arr(vec![num(1), num(2)])).unwrap();
    assert_value_eq(&out, &arr(vec![num(1), num(2), num(3)]));
}

#[test]
fn add_at_non_array_root_is_a_no_op() {
    let script = vec![Operation::Add(AddOp { path: "".to_string(), value: num(2) })];
    let out = apply_diff(script, num(1)).unwrap();
    assert_value_eq(&out, &num(1));
}

#[test]
fn remove_at_root_array_drops_first_equal_element() {
    let script = vec![Operation::Remove(RemoveOp {
        path: "".to_string(),
        value: Some(num(1)),
    })];
    let out = apply_diff(script, arr(vec![num(1), num(2), num(1)])).unwrap();
    assert_value_eq(&out, &arr(vec![num(2), num(1)]));
}

#[test]
fn remove_at_root_without_carried_value_is_a_no_op() {
    let script = vec![Operation::Remove(RemoveOp { path: "".to_string(), value: None })];
    let out = apply_diff(script, arr(vec![num(1)])).unwrap();
    assert_value_eq(&out, &arr(vec![num(1)]));
    let script = vec![Operation::Remove(RemoveOp { path: "".to_string(), value: None })];
    let out = apply_diff(script, num(7)).unwrap();
    assert_value_eq(&out, &num(7));
}

#[test]
fn object_add_remove() {
    // diff({"a":1}, {"b":2}) yields Remove("/a") then Add("/b", 2).
    let l = obj(vec![("a", num(1))]);
    let r = obj(vec![("b", num(2))]);
    let ops = diff_tree(&l, &r).unwrap();
    assert_eq!(ops.len(), 2);
    match &ops[0] {
        Operation::Remove(rm) => {
            assert_eq!(rm.path, "/a");
            assert!(rm.value.is_none());
        },
        _ => panic!("expected a remove first"),
    }
    match &ops[1] {
        Operation::Add(a) => {
            assert_eq!(a.path, "/b");
            assert!(value_eq(&a.value, &num(2)));
        },
        _ => panic!("expected an add second"),
    }
    let out = apply_diff(ops, dup(&l)).unwrap();
    assert_value_eq(&out, &r);
}

#[test]
fn full_replacement_on_kind_change() {
    // diff("x", 5) yields [Remove(path, None), Add(path, 5)].
    let ops = diff_tree(&txt("x"), &num(5)).unwrap();
    assert_eq!(ops.len(), 2);
    match (&ops[0], &ops[1]) {
        (Operation::Remove(rm), Operation::Add(a)) => {
            assert_eq!(rm.path, "");
            assert!(rm.value.is_none());
            assert_eq!(a.path, "");
            assert!(value_eq(&a.value, &num(5)));
        },
        _ => panic!("expected a remove then an add"),
    }
    // Behind pointer "/k" the pair applies: {"k":"x"} becomes {"k":5}.
    let l = obj(vec![("k", txt("x"))]);
    let r = obj(vec![("k", num(5))]);
    let ops = diff_tree(&l, &r).unwrap();
    let out = apply_diff(ops, dup(&l)).unwrap();
    assert_value_eq(&out, &r);
}

#[test]
fn fatal_on_missing_set_target() {
    // apply([Set{path:"/missing", value: 1}], {}) fails with a pointer
    // resolution error and never creates the key.
    let script = vec![Operation::Replace(SetOp {
        path: "/missing".to_string(),
        value: num(1),
    })];
    let r = apply_diff(script, obj(vec![]));
    assert_eq!(r.unwrap_err(), ApplyError::PointerResolution);
}

#[test]
fn set_overwrites_existing_target() {
    let doc = obj(vec![("a", num(1))]);
    let script = vec![Operation::Replace(SetOp { path: "/a".to_string(), value: txt("y") })];
    let out = apply_diff(script, doc).unwrap();
    assert_value_eq(&out, &obj(vec![("a", txt("y"))]));
}

#[test]
fn set_at_root_replaces_whole_document() {
    let script = vec![Operation::Replace(SetOp { path: "".to_string(), value: num(9) })];
    let out = apply_diff(script, obj(vec![("a", num(1))])).unwrap();
    assert_value_eq(&out, &num(9));
}

#[test]
fn add_inserts_new_key() {
    let script = vec![Operation::Add(AddOp { path: "/b".to_string(), value: num(2) })];
    let out = apply_diff(script, obj(vec![("a", num(1))])).unwrap();
    assert_value_eq(&out, &obj(vec![("a", num(1)), ("b", num(2))]));
}

#[test]
fn add_into_array_deduplicates() {
    let doc = obj(vec![("k", arr(vec![num(1), num(2)]))]);
    let script = vec![
        Operation::Add(AddOp { path: "/k".to_string(), value: num(2) }),
        Operation::Add(AddOp { path: "/k".to_string(), value: num(3) }),
    ];
    let out = apply_diff(script, doc).unwrap();
    assert_value_eq(&out, &obj(vec![("k", arr(vec![num(1), num(2), num(3)]))]));
}

#[test]
fn add_on_scalar_child_is_a_no_op() {
    let doc = obj(vec![("a", num(1))]);
    let script = vec![Operation::Add(AddOp { path: "/a".to_string(), value: num(2) })];
    let out = apply_diff(script, dup(&doc)).unwrap();
    assert_value_eq(&out, &doc);
}

#[test]
fn remove_deletes_key_regardless_of_carried_value() {
    let doc = obj(vec![("a", num(1)), ("b", num(2))]);
    let script = vec![Operation::Remove(RemoveOp { path: "/a".to_string(), value: None })];
    let out = apply_diff(script, doc).unwrap();
    assert_value_eq(&out, &obj(vec![("b", num(2))]));
}

#[test]
fn remove_first_equal_array_element() {
    let doc = obj(vec![("k", arr(vec![num(1), num(2), num(1)]))]);
    let script = vec![Operation::Remove(RemoveOp {
        path: "/k".to_string(),
        value: Some(num(1)),
    })];
    let out = apply_diff(script, doc).unwrap();
    assert_value_eq(&out, &obj(vec![("k", arr(vec![num(2), num(1)]))]));
}

#[test]
fn remove_of_missing_child_is_fatal() {
    let script = vec![Operation::Remove(RemoveOp {
        path: "/missing".to_string(),
        value: None,
    })];
    let r = apply_diff(script, obj(vec![]));
    assert_eq!(r.unwrap_err(), ApplyError::UnsupportedRemoveTarget);
}

#[test]
fn round_trip_scalars_of_same_kind() {
    let l = num(4);
    let r = num(7);
    let ops = diff_tree(&l, &r).unwrap();
    let out = apply_diff(ops, dup(&l)).unwrap();
    assert_value_eq(&out, &r);
    let l = txt("old");
    let r = txt("new");
    let ops = diff_tree(&l, &r).unwrap();
    let out = apply_diff(ops, dup(&l)).unwrap();
    assert_value_eq(&out, &r);
}

#[test]
fn round_trip_same_kind_document() {
    // apply(diff(L, R), L) == R for documents that change no kinds and add
    // no Null-valued fields.
    let l = obj(vec![
        ("name", txt("alpha")),
        ("count", num(3)),
        ("tags", arr(vec![num(1), num(2)])),
        ("inner", obj(vec![("x", Value::Bool(true)), ("y", txt("old"))])),
    ]);
    let r = obj(vec![
        ("name", txt("beta")),
        ("count", num(4)),
        ("tags", arr(vec![num(2), num(7)])),
        ("inner", obj(vec![("x", Value::Bool(false)), ("z", num(9))])),
    ]);
    let ops = diff_tree(&l, &r).unwrap();
    let out = apply_diff(ops, dup(&l)).unwrap();
    assert_value_eq(&out, &r);
}

#[test]
fn round_trip_null_gap() {
    // The known gap: a Null on the left emits nothing, so a field that was
    // Null stays behind what the right document holds.
    let l = obj(vec![("a", Value::Null)]);
    let r = obj(vec![("a", num(5))]);
    let ops = diff_tree(&l, &r).unwrap();
    assert!(ops.is_empty());
    let out = apply_diff(ops, dup(&l)).unwrap();
    assert_value_eq(&out, &l);
}

#[test]
fn reapply_is_idempotent_for_differ_script() {
    let l = obj(vec![("a", num(1)), ("c", arr(vec![num(1), num(2)]))]);
    let r = obj(vec![("a", num(3)), ("c", arr(vec![num(2), num(5)]))]);
    let ops = diff_tree(&l, &r).unwrap();
    let ops2 = diff_tree(&l, &r).unwrap();
    let once = apply_diff(ops, dup(&l)).unwrap();
    let twice = apply_diff(ops2, dup(&once)).unwrap();
    assert_value_eq(&once, &twice);
}

#[test]
fn reapply_gap_new_array_valued_key() {
    // The limit of re-application: an Add that creates a key holding an
    // array is pushed into that array when applied a second time.
    let l = obj(vec![]);
    let r = obj(vec![("k", arr(vec![num(1)]))]);
    let ops = diff_tree(&l, &r).unwrap();
    let ops2 = diff_tree(&l, &r).unwrap();
    let once = apply_diff(ops, dup(&l)).unwrap();
    assert_value_eq(&once, &r);
    let twice = apply_diff(ops2, once).unwrap();
    assert_value_eq(
        &twice,
        &obj(vec![("k", arr(vec![num(1), arr(vec![num(1)])]))]),
    );
}

#[test]
fn composite_array_elements_diff_positionally() {
    let l = arr(vec![obj(vec![("a", num(1))])]);
    let r = arr(vec![obj(vec![("a", num(2))])]);
    let ops = diff_tree(&l, &r).unwrap();
    assert_eq!(ops.len(), 2);
    for op in &ops {
        match op {
            Operation::Replace(sp) => {
                assert_eq!(sp.path, "/0/a");
                assert!(value_eq(&sp.value, &num(2)));
            },
            _ => panic!("expected a set"),
        }
    }
}

#[test]
fn composite_array_element_without_counterpart_is_an_error() {
    let l = arr(vec![arr(vec![num(1)])]);
    let r = arr(vec![]);
    let e = diff_tree(&l, &r).unwrap_err();
    assert_eq!(e, DiffError::IndexOutOfRange);
}

#[test]
fn array_kind_change_pair_carries_none() {
    // The replacement pair has one form for every kind change: the remove
    // carries no value, for an array on the left as for any other kind.
    let l = obj(vec![("k", arr(vec![num(1)]))]);
    let r = obj(vec![("k", num(2))]);
    let ops = diff_tree(&l, &r).unwrap();
    assert_eq!(ops.len(), 2);
    match &ops[0] {
        Operation::Remove(rm) => {
            assert_eq!(rm.path, "/k");
            assert!(rm.value.is_none());
        },
        _ => panic!("expected a remove first"),
    }
    // Applying does not round-trip here: the remove aims at the array child,
    // carries no value, and is a no-op; the add then pushes into the
    // still-existing array.  A known gap of the replacement pair on arrays.
    let out = apply_diff(ops, dup(&l)).unwrap();
    assert_value_eq(&out, &obj(vec![("k", arr(vec![num(1), num(2)]))]));
}

#[test]
fn apply_order_is_significant() {
    // Later operations see the effect of earlier ones.
    let script = vec![
        Operation::Add(AddOp { path: "/a".to_string(), value: obj(vec![]) }),
        Operation::Add(AddOp { path: "/a/b".to_string(), value: num(1) }),
    ];
    let out = apply_diff(script, obj(vec![])).unwrap();
    assert_value_eq(&out, &obj(vec![("a", obj(vec![("b", num(1))]))]));
}
