//! The meaning of the three edit operations, stated over document models.
//!
//! Every mutating operation splits its pointer into a parent path and a last
//! segment, resolves the parent, and edits one child of it; an empty pointer
//! applies the child edit to the root node itself.  `Set` resolves the whole
//! pointer and overwrites the node found there.

use vstd::prelude::*;
use crate::value::ValueModel;
use crate::pointer::{parse_ptr, seg_index};

verus! {

/// Why applying an operation failed.
#[derive(Clone, Copy, Debug, PartialEq, Eq, Structural)]
pub enum ApplyError {
    /// A pointer did not resolve to an existing node where one was required.
    PointerResolution,
    /// A remove named a child that does not exist at all.
    UnsupportedRemoveTarget,
}

/// The first index holding key `k`, or `entries.len()` if no entry does.
pub open spec fn obj_index(entries: Seq<(Seq<char>, ValueModel)>, k: Seq<char>) -> int
    decreases entries.len(),
{
    if entries.len() == 0 {
        0
    } else if entries[0].0 == k {
        0
    } else {
        1 + obj_index(entries.subrange(1, entries.len() as int), k)
    }
}

pub open spec fn obj_has(entries: Seq<(Seq<char>, ValueModel)>, k: Seq<char>) -> bool {
    exists|i: int| 0 <= i < entries.len() && (#[trigger] entries[i]).0 == k
}

pub proof fn lemma_obj_index(entries: Seq<(Seq<char>, ValueModel)>, k: Seq<char>)
    ensures
        0 <= obj_index(entries, k) <= entries.len(),
        obj_has(entries, k) <==> obj_index(entries, k) < entries.len(),
        obj_index(entries, k) < entries.len() ==> entries[obj_index(entries, k)].0 == k,
        forall|j: int| 0 <= j < obj_index(entries, k) ==> (#[trigger] entries[j]).0 != k,
    decreases entries.len(),
{
    if entries.len() > 0 && entries[0].0 != k {
        let t = entries.subrange(1, entries.len() as int);
        lemma_obj_index(t, k);
        assert forall|j: int| 0 <= j < obj_index(entries, k) implies (#[trigger] entries[j]).0
            != k by {
            if j > 0 {
                assert(t[j - 1] == entries[j]);
            }
        }
        if obj_has(entries, k) {
            let w = choose|i: int| 0 <= i < entries.len() && (#[trigger] entries[i]).0 == k;
            assert(t[w - 1] == entries[w]);
        }
        if obj_has(t, k) {
            let w = choose|i: int| 0 <= i < t.len() && (#[trigger] t[i]).0 == k;
            assert(entries[w + 1] == t[w]);
        }
    }
}

/// The first index of `x` in `s`, or `s.len()` if `x` is absent.
pub open spec fn elem_index(s: Seq<ValueModel>, x: ValueModel) -> int
    decreases s.len(),
{
    if s.len() == 0 {
        0
    } else if s[0] == x {
        0
    } else {
        1 + elem_index(s.subrange(1, s.len() as int), x)
    }
}

pub open spec fn contains_elem(s: Seq<ValueModel>, x: ValueModel) -> bool {
    exists|i: int| 0 <= i < s.len() && s[i] == x
}

pub proof fn lemma_elem_index(s: Seq<ValueModel>, x: ValueModel)
    ensures
        0 <= elem_index(s, x) <= s.len(),
        contains_elem(s, x) <==> elem_index(s, x) < s.len(),
        elem_index(s, x) < s.len() ==> s[elem_index(s, x)] == x,
        forall|j: int| 0 <= j < elem_index(s, x) ==> s[j] != x,
    decreases s.len(),
{
    if s.len() > 0 && s[0] != x {
        let t = s.subrange(1, s.len() as int);
        lemma_elem_index(t, x);
        assert forall|j: int| 0 <= j < elem_index(s, x) implies s[j] != x by {
            if j > 0 {
                assert(t[j - 1] == s[j]);
            }
        }
        if contains_elem(s, x) {
            let w = choose|i: int| 0 <= i < s.len() && s[i] == x;
            assert(t[w - 1] == s[w]);
        }
        if contains_elem(t, x) {
            let w = choose|i: int| 0 <= i < t.len() && t[i] == x;
            assert(s[w + 1] == t[w]);
        }
    }
}

/// The child of `m` named by segment `seg`: a map entry's value, or an array
/// element at a decimal index.
pub open spec fn child_of(m: ValueModel, seg: Seq<char>) -> Option<ValueModel> {
    match m {
        ValueModel::Obj(entries) => if obj_has(entries, seg) {
            Some(entries[obj_index(entries, seg)].1)
        } else {
            None
        },
        ValueModel::Arr(elems) => match seg_index(seg) {
            Some(i) => if 0 <= i < elems.len() {
                Some(elems[i])
            } else {
                None
            },
            None => None,
        },
        _ => None,
    }
}

/// The node of `m` at path `p`, if the path resolves.
pub open spec fn spec_get(m: ValueModel, p: Seq<Seq<char>>) -> Option<ValueModel>
    decreases p.len(),
{
    if p.len() == 0 {
        Some(m)
    } else {
        match child_of(m, p[0]) {
            Some(c) => spec_get(c, p.subrange(1, p.len() as int)),
            None => None,
        }
    }
}

/// `m` with the node at path `p` replaced by `nv`; `None` when `p` does not
/// resolve.
pub open spec fn spec_replace(m: ValueModel, p: Seq<Seq<char>>, nv: ValueModel) -> Option<
    ValueModel,
>
    decreases p.len(),
{
    if p.len() == 0 {
        Some(nv)
    } else {
        match m {
            ValueModel::Obj(entries) => if obj_has(entries, p[0]) {
                let i = obj_index(entries, p[0]);
                match spec_replace(entries[i].1, p.subrange(1, p.len() as int), nv) {
                    Some(c2) => Some(ValueModel::Obj(entries.update(i, (entries[i].0, c2)))),
                    None => None,
                }
            } else {
                None
            },
            ValueModel::Arr(elems) => match seg_index(p[0]) {
                Some(i) => if 0 <= i < elems.len() {
                    match spec_replace(elems[i], p.subrange(1, p.len() as int), nv) {
                        Some(c2) => Some(ValueModel::Arr(elems.update(i, c2))),
                        None => None,
                    }
                } else {
                    None
                },
                None => None,
            },
            _ => None,
        }
    }
}

/// `p` with the child named `last` replaced by `c2`.  Meaningful only when
/// that child exists.
pub open spec fn replace_child(p: ValueModel, last: Seq<char>, c2: ValueModel) -> ValueModel {
    match p {
        ValueModel::Obj(entries) => {
            let i = obj_index(entries, last);
            ValueModel::Obj(entries.update(i, (entries[i].0, c2)))
        },
        ValueModel::Arr(elems) => match seg_index(last) {
            Some(i) => ValueModel::Arr(elems.update(i, c2)),
            None => p,
        },
        _ => p,
    }
}

/// What `Add` does to the resolved parent `p`: push into an existing array
/// child unless the value is already present; insert a new map key; anything
/// else is left unchanged.
pub open spec fn spec_add_child(p: ValueModel, last: Seq<char>, nv: ValueModel) -> ValueModel {
    match child_of(p, last) {
        Some(c) => match c {
            ValueModel::Arr(elems) => if contains_elem(elems, nv) {
                p
            } else {
                replace_child(p, last, ValueModel::Arr(elems.push(nv)))
            },
            _ => p,
        },
        None => match p {
            ValueModel::Obj(entries) => ValueModel::Obj(entries.push((last, nv))),
            _ => p,
        },
    }
}

/// What `Remove` does to the resolved parent `p`: drop the first array
/// element equal to the carried value, or drop the named entry outright;
/// a child that does not exist is refused.
pub open spec fn spec_remove_child(
    p: ValueModel,
    last: Seq<char>,
    carried: Option<ValueModel>,
) -> Result<ValueModel, ApplyError> {
    match child_of(p, last) {
        Some(c) => match c {
            ValueModel::Arr(elems) => match carried {
                Some(cv) => if contains_elem(elems, cv) {
                    Ok(replace_child(p, last, ValueModel::Arr(elems.remove(elem_index(elems, cv)))))
                } else {
                    Ok(p)
                },
                None => Ok(p),
            },
            _ => match p {
                ValueModel::Obj(entries) => Ok(
                    ValueModel::Obj(entries.remove(obj_index(entries, last))),
                ),
                ValueModel::Arr(elems) => match seg_index(last) {
                    Some(i) => Ok(ValueModel::Arr(elems.remove(i))),
                    None => Ok(p),
                },
                _ => Ok(p),
            },
        },
        None => Err(ApplyError::UnsupportedRemoveTarget),
    }
}

/// What `Add` does when its pointer is empty: the child-edit semantics
/// applied to the root node itself — push into a root array unless a
/// structurally equal element is present; any other root is left unchanged.
pub open spec fn spec_add_root(m: ValueModel, v: ValueModel) -> ValueModel {
    match m {
        ValueModel::Arr(elems) => if contains_elem(elems, v) {
            m
        } else {
            ValueModel::Arr(elems.push(v))
        },
        _ => m,
    }
}

/// What `Remove` does when its pointer is empty: drop the first element of
/// a root array equal to the carried value (a no-op when the value is
/// absent or not found); any other root is left unchanged.
pub open spec fn spec_remove_root(m: ValueModel, carried: Option<ValueModel>) -> ValueModel {
    match m {
        ValueModel::Arr(elems) => match carried {
            Some(cv) => if contains_elem(elems, cv) {
                ValueModel::Arr(elems.remove(elem_index(elems, cv)))
            } else {
                m
            },
            None => m,
        },
        _ => m,
    }
}

/// The meaning of `Add { path, value }` on document `m`.
pub open spec fn spec_apply_add(m: ValueModel, path: Seq<char>, v: ValueModel) -> Result<
    ValueModel,
    ApplyError,
> {
    match parse_ptr(path) {
        Some(segs) => if segs.len() == 0 {
            Ok(spec_add_root(m, v))
        } else {
            let parent = segs.drop_last();
            match spec_get(m, parent) {
                Some(p) => match spec_replace(m, parent, spec_add_child(p, segs.last(), v)) {
                    Some(m2) => Ok(m2),
                    None => Err(ApplyError::PointerResolution),
                },
                None => Err(ApplyError::PointerResolution),
            }
        },
        None => Err(ApplyError::PointerResolution),
    }
}

/// The meaning of `Remove { path, value }` on document `m`.
pub open spec fn spec_apply_remove(
    m: ValueModel,
    path: Seq<char>,
    carried: Option<ValueModel>,
) -> Result<ValueModel, ApplyError> {
    match parse_ptr(path) {
        Some(segs) => if segs.len() == 0 {
            Ok(spec_remove_root(m, carried))
        } else {
            let parent = segs.drop_last();
            match spec_get(m, parent) {
                Some(p) => match spec_remove_child(p, segs.last(), carried) {
                    Ok(p2) => match spec_replace(m, parent, p2) {
                        Some(m2) => Ok(m2),
                        None => Err(ApplyError::PointerResolution),
                    },
                    Err(e) => Err(e),
                },
                None => Err(ApplyError::PointerResolution),
            }
        },
        None => Err(ApplyError::PointerResolution),
    }
}

/// The meaning of `Set { path, value }` on document `m`: overwrite the node
/// the whole pointer resolves to.
pub open spec fn spec_apply_set(m: ValueModel, path: Seq<char>, v: ValueModel) -> Result<
    ValueModel,
    ApplyError,
> {
    match parse_ptr(path) {
        Some(segs) => match spec_replace(m, segs, v) {
            Some(m2) => Ok(m2),
            None => Err(ApplyError::PointerResolution),
        },
        None => Err(ApplyError::PointerResolution),
    }
}

} // verus!
