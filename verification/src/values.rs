//! How the variables of a prefab become values of the host: as a list of
//! steps for a stack of values, which the driver carries out with the
//! host's own constructors.

use crate::literal::Literal;
use crate::prefabs::Binding;
use vstd::prelude::*;

verus! {

/// A step in building a value of the host. Each step works on a stack of
/// values.
#[derive(Clone, Copy, Debug, PartialEq, Eq)]
pub enum ValueOp<'s> {
    /// Push the number that the token spells.
    Number(&'s [u8]),
    /// Push a string.
    Text(&'s [u8]),
    /// Push the type that the path names.
    Path(&'s [u8]),
    /// Push the file of that name.
    File(&'s [u8]),
    /// Push the null value.
    Null,
    /// Warn that the value of the variable `name` was not understood, and
    /// push it as a string.
    Fallback { name: &'s [u8], text: &'s [u8] },
    /// Push a new, empty list.
    NewList,
    /// Pop a value and append it to the list that is then on top.
    Append,
    /// Pop a value, pop a key, and bind the key to the value in the list
    /// that is then on top.
    Bind,
}

/// The mathematical value of a step.
pub enum OpValue {
    Number(Seq<u8>),
    Text(Seq<u8>),
    Path(Seq<u8>),
    File(Seq<u8>),
    Null,
    Fallback { name: Seq<u8>, text: Seq<u8> },
    NewList,
    Append,
    Bind,
}

/// The step `op` with the bytes of its slices.
pub open spec fn op_value(op: ValueOp) -> OpValue {
    match op {
        ValueOp::Number(t) => OpValue::Number(t@),
        ValueOp::Text(t) => OpValue::Text(t@),
        ValueOp::Path(t) => OpValue::Path(t@),
        ValueOp::File(t) => OpValue::File(t@),
        ValueOp::Null => OpValue::Null,
        ValueOp::Fallback { name, text } => OpValue::Fallback { name: name@, text: text@ },
        ValueOp::NewList => OpValue::NewList,
        ValueOp::Append => OpValue::Append,
        ValueOp::Bind => OpValue::Bind,
    }
}

/// The values of a sequence of steps.
pub open spec fn ops_value(ops: Seq<ValueOp>) -> Seq<OpValue> {
    Seq::new(ops.len(), |i: int| op_value(ops[i]))
}

/// The steps that build the value of a literal bound to the variable
/// `name`: one push for a plain literal; for a list, a new list and then,
/// for each item, its steps and an append; for an associative list, a new
/// list and then, for each pair, the steps of the key, the steps of the
/// value and a bind.
pub open spec fn literal_ops(name: Seq<u8>, l: Literal) -> Seq<OpValue>
    decreases l, 0nat,
{
    match l {
        Literal::Number(t) => seq![OpValue::Number(t@)],
        Literal::String(t) => seq![OpValue::Text(t@)],
        Literal::Path(t) => seq![OpValue::Path(t@)],
        Literal::File(t) => seq![OpValue::File(t@)],
        Literal::Null => seq![OpValue::Null],
        Literal::Fallback(t) => seq![OpValue::Fallback { name, text: t@ }],
        Literal::List(items) => seq![OpValue::NewList] + items_ops(name, items, 0),
        Literal::AssocList(pairs) => seq![OpValue::NewList] + pairs_ops(name, pairs, 0),
    }
}

/// The steps of the items of a list from the `from`-th on.
pub open spec fn items_ops(name: Seq<u8>, items: Vec<Literal>, from: nat) -> Seq<OpValue>
    decreases items, items@.len() - from,
{
    if from >= items@.len() {
        Seq::empty()
    } else {
        literal_ops(name, items@[from as int]) + seq![OpValue::Append] + items_ops(
            name,
            items,
            from + 1,
        )
    }
}

/// The steps of the pairs of an associative list from the `from`-th on.
pub open spec fn pairs_ops(name: Seq<u8>, pairs: Vec<(Literal, Literal)>, from: nat) -> Seq<
    OpValue,
>
    decreases pairs, pairs@.len() - from,
{
    if from >= pairs@.len() {
        Seq::empty()
    } else {
        pair_ops(name, pairs@[from as int]) + pairs_ops(name, pairs, from + 1)
    }
}

/// The steps of one pair.
pub open spec fn pair_ops(name: Seq<u8>, pair: (Literal, Literal)) -> Seq<OpValue>
    decreases pair, 0nat,
{
    literal_ops(name, pair.0) + literal_ops(name, pair.1) + seq![OpValue::Bind]
}

/// The steps that build the list of the variables from the `from`-th on:
/// for each its name as a string, the steps of its value, and a bind.
pub open spec fn bindings_ops(vars: Seq<Binding>, from: int) -> Seq<OpValue>
    decreases vars.len() - from,
{
    if from < 0 || from >= vars.len() {
        Seq::empty()
    } else {
        seq![OpValue::Text(vars[from].0@)] + literal_ops(vars[from].0@, vars[from].1) + seq![
            OpValue::Bind,
        ] + bindings_ops(vars, from + 1)
    }
}

/// The steps that build the value that the host is given for the
/// variables of a prefab: null where the prefab has none, else a list that
/// binds each name to its value.
pub open spec fn vars_ops(vars: Option<Vec<Binding>>) -> Seq<OpValue> {
    match vars {
        Some(list) => seq![OpValue::NewList] + bindings_ops(list@, 0),
        None => seq![OpValue::Null],
    }
}

/// Adds to `out` the steps that build the value of `l`.
fn emit_literal<'s>(name: &'s [u8], l: &Literal<'s>, out: &mut Vec<ValueOp<'s>>)
    ensures
        ops_value(final(out)@) == ops_value(old(out)@) + literal_ops(name@, *l),
    decreases *l,
{
    let ghost before = out@;
    match l {
        Literal::Number(t) => {
            out.push(ValueOp::Number(t));
        },
        Literal::String(t) => {
            out.push(ValueOp::Text(t));
        },
        Literal::Path(t) => {
            out.push(ValueOp::Path(t));
        },
        Literal::File(t) => {
            out.push(ValueOp::File(t));
        },
        Literal::Null => {
            out.push(ValueOp::Null);
        },
        Literal::Fallback(t) => {
            out.push(ValueOp::Fallback { name, text: t });
        },
        Literal::List(items) => {
            out.push(ValueOp::NewList);
            let mut k: usize = 0;
            assert(ops_value(out@) =~= ops_value(before) + seq![OpValue::NewList]);
            while k < items.len()
                invariant
                    k <= items@.len(),
                    *l == Literal::List(*items),
                    ops_value(out@) + items_ops(name@, *items, k as nat) == ops_value(before)
                        + seq![OpValue::NewList] + items_ops(name@, *items, 0),
                decreases items@.len() - k,
            {
                let ghost so_far = out@;
                proof {
                    assert(decreases_to!(*items => items[k as int]));
                    assert(*l is List);
                    assert(decreases_to!(*l => l->List_0));
                    assert(l->List_0 == *items);
                }
                emit_literal(name, &items[k], out);
                let ghost with_item = out@;
                out.push(ValueOp::Append);
                proof {
                    assert(ops_value(out@) =~= ops_value(with_item) + seq![OpValue::Append]);
                    assert(ops_value(out@) + items_ops(name@, *items, (k + 1) as nat) =~= ops_value(
                        so_far,
                    ) + items_ops(name@, *items, k as nat));
                }
                k = k + 1;
            }
            assert(ops_value(out@) + items_ops(name@, *items, k as nat) =~= ops_value(out@));
            assert(ops_value(before) + seq![OpValue::NewList] + items_ops(name@, *items, 0)
                =~= ops_value(before) + literal_ops(name@, *l));
        },
        Literal::AssocList(pairs) => {
            out.push(ValueOp::NewList);
            let mut k: usize = 0;
            assert(ops_value(out@) =~= ops_value(before) + seq![OpValue::NewList]);
            while k < pairs.len()
                invariant
                    k <= pairs@.len(),
                    *l == Literal::AssocList(*pairs),
                    ops_value(out@) + pairs_ops(name@, *pairs, k as nat) == ops_value(before)
                        + seq![OpValue::NewList] + pairs_ops(name@, *pairs, 0),
                decreases pairs@.len() - k,
            {
                let ghost so_far = out@;
                proof {
                    assert(decreases_to!(*pairs => pairs[k as int]));
                    assert(*l is AssocList);
                    assert(decreases_to!(*l => l->AssocList_0));
                    assert(l->AssocList_0 == *pairs);
                    assert(decreases_to!(pairs[k as int] => pairs[k as int].0));
                    assert(decreases_to!(pairs[k as int] => pairs[k as int].1));
                }
                emit_literal(name, &pairs[k].0, out);
                let ghost with_key = out@;
                emit_literal(name, &pairs[k].1, out);
                let ghost with_value = out@;
                out.push(ValueOp::Bind);
                proof {
                    assert(ops_value(out@) =~= ops_value(with_value) + seq![OpValue::Bind]);
                    assert(ops_value(out@) =~= ops_value(so_far) + pair_ops(
                        name@,
                        pairs@[k as int],
                    ));
                    assert(ops_value(out@) + pairs_ops(name@, *pairs, (k + 1) as nat) =~= ops_value(
                        so_far,
                    ) + pairs_ops(name@, *pairs, k as nat));
                }
                k = k + 1;
            }
            assert(ops_value(out@) + pairs_ops(name@, *pairs, k as nat) =~= ops_value(out@));
            assert(ops_value(before) + seq![OpValue::NewList] + pairs_ops(name@, *pairs, 0)
                =~= ops_value(before) + literal_ops(name@, *l));
        },
    }
    proof {
        assert(ops_value(out@) =~= ops_value(before) + literal_ops(name@, *l));
    }
}

/// The steps that build the value of the literal `l`, bound to the
/// variable `name`.
pub fn convert_literal<'s>(name: &'s [u8], l: &Literal<'s>) -> (r: Vec<ValueOp<'s>>)
    ensures
        ops_value(r@) == literal_ops(name@, *l),
{
    let mut out: Vec<ValueOp<'s>> = Vec::new();
    emit_literal(name, l, &mut out);
    assert(ops_value(Seq::<ValueOp>::empty()) + literal_ops(name@, *l) =~= literal_ops(name@, *l));
    out
}

/// The steps that build the value that the host is given for the
/// variables of a prefab.
pub fn convert_vars_list_to_byondlist<'s>(vars: &Option<Vec<Binding<'s>>>) -> (r: Vec<ValueOp<'s>>)
    ensures
        ops_value(r@) == vars_ops(*vars),
{
    let mut out: Vec<ValueOp<'s>> = Vec::new();
    match vars {
        None => {
            out.push(ValueOp::Null);
            assert(ops_value(out@) =~= vars_ops(*vars));
        },
        Some(list) => {
            out.push(ValueOp::NewList);
            assert(ops_value(out@) =~= seq![OpValue::NewList]);
            let mut k: usize = 0;
            while k < list.len()
                invariant
                    k <= list@.len(),
                    ops_value(out@) + bindings_ops(list@, k as int) == seq![OpValue::NewList]
                        + bindings_ops(list@, 0),
                decreases list@.len() - k,
            {
                let ghost so_far = out@;
                let name = list[k].0;
                out.push(ValueOp::Text(name));
                let ghost with_name = out@;
                emit_literal(name, &list[k].1, &mut out);
                let ghost with_value = out@;
                out.push(ValueOp::Bind);
                proof {
                    assert(ops_value(with_name) =~= ops_value(so_far) + seq![OpValue::Text(name@)]);
                    assert(ops_value(out@) =~= ops_value(with_value) + seq![OpValue::Bind]);
                    assert(ops_value(out@) + bindings_ops(list@, k + 1) =~= ops_value(so_far)
                        + bindings_ops(list@, k as int));
                }
                k = k + 1;
            }
            assert(ops_value(out@) + bindings_ops(list@, k as int) =~= ops_value(out@));
        },
    }
    out
}

} // verus!
