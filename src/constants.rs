use vstd::prelude::*;
use crate::field::Felt;
use crate::resolver::{rep_index, resolved};
use crate::types::{
    Cell, LowerError, Operand, Tables, layout_ok, strictly_sorted, FIXED_COLUMN, INSTANCE_COLUMN,
};

verus! {

/// A row `< upto` of the column binds cell `c` to value `v`.
pub open spec fn claims(cells: Seq<Cell>, values: Seq<Option<Felt>>, upto: int, c: Cell, v: Felt) -> bool {
    exists|i: int| 0 <= i < upto && values[i] == Some(v) && #[trigger] cells[i] == c
}

/// Two assigned rows of one column bind the same cell.
pub open spec fn double_claim(cells: Seq<Cell>, values: Seq<Option<Felt>>) -> bool {
    exists|i: int, j: int|
        0 <= i < j < values.len() && values[i] is Some && values[j] is Some
            && #[trigger] cells[i] == #[trigger] cells[j]
}

/// An assigned row of one column and an assigned row of another bind the
/// same cell.
pub open spec fn cross_claim(
    cells1: Seq<Cell>, values1: Seq<Option<Felt>>, cells2: Seq<Cell>, values2: Seq<Option<Felt>>,
) -> bool {
    exists|i: int, j: int|
        0 <= i < values1.len() && 0 <= j < values2.len() && values1[i] is Some && values2[j] is Some
            && #[trigger] cells1[i] == #[trigger] cells2[j]
}

/// Some representative is bound to a constant more than once: by two
/// instance rows, by two fixed rows, or by an instance and a fixed row.
pub open spec fn ambiguous(t: &Tables) -> bool {
    let ic = t.permutation@[INSTANCE_COLUMN as int]@;
    let fc = t.permutation@[FIXED_COLUMN as int]@;
    double_claim(ic, t.instance@) || double_claim(fc, t.fixed@)
        || cross_claim(ic, t.instance@, fc, t.fixed@)
}

/// The constants bound to representatives, by representative index.
pub struct Constants {
    /// Values from the instance column.
    pub instance: Vec<Option<Felt>>,
    /// Values from the fixed column.
    pub fixed: Vec<Option<Felt>>,
}

/// `m` maps each representative index to the value that the column binds it
/// to, if any.
pub open spec fn binds(m: Seq<Option<Felt>>, reps: Seq<Cell>, cells: Seq<Cell>, values: Seq<Option<Felt>>) -> bool {
    &&& m.len() == reps.len()
    &&& forall|k: int, v: Felt| 0 <= k < m.len() ==>
        (m[k] == Some(v) <==> #[trigger] claims(cells, values, values.len() as int, reps[k], v))
}

/// The constants are those of the tables: `instance` holds what the instance
/// column binds and `fixed` what the fixed column binds.
pub open spec fn constants_of(t: &Tables, reps: Seq<Cell>, c: &Constants) -> bool {
    &&& binds(c.instance@, reps, t.permutation@[INSTANCE_COLUMN as int]@, t.instance@)
    &&& binds(c.fixed@, reps, t.permutation@[FIXED_COLUMN as int]@, t.fixed@)
}

/// No representative is bound both by the instance and by the fixed column.
pub open spec fn disjoint(c: &Constants) -> bool {
    forall|k: int| 0 <= k < c.instance@.len() && k < c.fixed@.len()
        ==> !(#[trigger] c.instance@[k] is Some && c.fixed@[k] is Some)
}

/// Binds each representative that an assigned row of the column names to that
/// row's value; fails where two rows, or a row and `other`, bind one
/// representative.
fn bind_column(
    cells: &Vec<Cell>,
    values: &Vec<Option<Felt>>,
    reps: &Vec<Cell>,
    other: &Vec<Option<Felt>>,
) -> (r: Result<Vec<Option<Felt>>, LowerError>)
    requires
        cells@.len() == values@.len(),
        strictly_sorted(reps@),
        forall|i: int| 0 <= i < cells@.len() ==> reps@.contains(#[trigger] cells@[i]),
        other@.len() == reps@.len(),
    ensures
        r is Ok <==> !double_claim(cells@, values@) && !(exists|i: int, k: int|
            0 <= i < values@.len() && 0 <= k < reps@.len() && values@[i] is Some
                && #[trigger] cells@[i] == #[trigger] reps@[k] && other@[k] is Some),
        r is Err ==> r == Err::<Vec<Option<Felt>>, LowerError>(LowerError::AmbiguousConstant),
        r matches Ok(m) ==> binds(m@, reps@, cells@, values@)
            && forall|k: int| 0 <= k < m@.len() && #[trigger] m@[k] is Some ==> other@[k] is None,
{
    let mut m: Vec<Option<Felt>> = Vec::new();
    let mut k: usize = 0;
    while k < reps.len()
        invariant
            0 <= k <= reps@.len(),
            m@.len() == k,
            forall|p: int| 0 <= p < k ==> #[trigger] m@[p] is None,
        decreases reps@.len() - k,
    {
        m.push(None);
        k += 1;
    }
    let mut i: usize = 0;
    while i < values.len()
        invariant
            0 <= i <= values@.len(),
            cells@.len() == values@.len(),
            strictly_sorted(reps@),
            forall|i: int| 0 <= i < cells@.len() ==> reps@.contains(#[trigger] cells@[i]),
            other@.len() == reps@.len(),
            m@.len() == reps@.len(),
            forall|k: int, v: Felt| 0 <= k < m@.len() ==>
                (m@[k] == Some(v) <==> #[trigger] claims(cells@, values@, i as int, reps@[k], v)),
            forall|k: int| 0 <= k < m@.len() && #[trigger] m@[k] is Some ==> other@[k] is None,
            !(exists|a: int, b: int|
                0 <= a < b < i && values@[a] is Some && values@[b] is Some
                    && #[trigger] cells@[a] == #[trigger] cells@[b]),
            !(exists|a: int, k: int|
                0 <= a < i && 0 <= k < reps@.len() && values@[a] is Some
                    && #[trigger] cells@[a] == #[trigger] reps@[k] && other@[k] is Some),
        decreases values@.len() - i,
    {
        if let Some(v) = values[i] {
            let c = cells[i];
            assert(reps@.contains(cells@[i as int]));
            let idx = match rep_index(reps, c) {
                Some(idx) => idx,
                None => { return Err(LowerError::AmbiguousConstant); },
            };
            if m[idx].is_some() {
                proof {
                    let w = m@[idx as int].unwrap();
                    assert(m@[idx as int] == Some(w));
                    assert(claims(cells@, values@, i as int, reps@[idx as int], w));
                    let a = choose|a: int| 0 <= a < i && values@[a] == Some(w) && #[trigger] cells@[a] == reps@[idx as int];
                    assert(cells@[a] == cells@[i as int]);
                }
                return Err(LowerError::AmbiguousConstant);
            }
            if other[idx].is_some() {
                assert(cells@[i as int] == reps@[idx as int]);
                return Err(LowerError::AmbiguousConstant);
            }
            let ghost old_m = m@;
            m.set(idx, Some(v));
            proof {
                assert forall|k: int, w: Felt| 0 <= k < m@.len() implies
                    (m@[k] == Some(w) <==> #[trigger] claims(cells@, values@, i + 1, reps@[k], w)) by {
                    if k == idx {
                        if m@[k] == Some(w) {
                            assert(values@[i as int] == Some(w) && cells@[i as int] == reps@[k]);
                        }
                        if claims(cells@, values@, i + 1, reps@[k], w) {
                            let a = choose|a: int| 0 <= a < i + 1 && values@[a] == Some(w) && #[trigger] cells@[a] == reps@[k];
                            if a < i {
                                assert(claims(cells@, values@, i as int, reps@[k], w));
                                assert(old_m[k] == Some(w));
                            }
                        }
                    } else {
                        assert(m@[k] == old_m[k]);
                        assert(old_m[k] == Some(w) <==> claims(cells@, values@, i as int, reps@[k], w));
                        if claims(cells@, values@, i + 1, reps@[k], w) {
                            let a = choose|a: int| 0 <= a < i + 1 && values@[a] == Some(w) && #[trigger] cells@[a] == reps@[k];
                            if a == i {
                                assert(reps@[k] == reps@[idx as int]);
                                if k < idx {
                                    assert(crate::types::cell_lt(reps@[k], reps@[idx as int]));
                                } else {
                                    assert(crate::types::cell_lt(reps@[idx as int], reps@[k]));
                                }
                            }
                            assert(claims(cells@, values@, i as int, reps@[k], w));
                        }
                    }
                }
                assert forall|a: int, b: int|
                    0 <= a < b < i + 1 && values@[a] is Some && values@[b] is Some
                        implies #[trigger] cells@[a] != #[trigger] cells@[b] by {
                    if b == i && cells@[a] == cells@[b] {
                        let w = values@[a].unwrap();
                        assert(claims(cells@, values@, i as int, reps@[idx as int], w));
                        assert(old_m[idx as int] == Some(w));
                    }
                }
            }
        } else {
            proof {
                assert forall|k: int, w: Felt| 0 <= k < m@.len() implies
                    (m@[k] == Some(w) <==> #[trigger] claims(cells@, values@, i + 1, reps@[k], w)) by {
                    if claims(cells@, values@, i + 1, reps@[k], w) {
                        let a = choose|a: int| 0 <= a < i + 1 && values@[a] == Some(w) && #[trigger] cells@[a] == reps@[k];
                        assert(claims(cells@, values@, i as int, reps@[k], w));
                    }
                    assert(m@[k] == Some(w) <==> claims(cells@, values@, i as int, reps@[k], w));
                }
            }
        }
        i += 1;
    }
    Ok(m)
}

/// Finds the constants that the instance and fixed columns bind to
/// representatives; fails exactly where a representative is bound twice.
pub fn classify(t: &Tables, reps: &Vec<Cell>) -> (r: Result<Constants, LowerError>)
    requires
        layout_ok(t),
        resolved(t.permutation@, reps@),
    ensures
        r is Ok <==> !ambiguous(t),
        r is Err ==> r == Err::<Constants, LowerError>(LowerError::AmbiguousConstant),
        r matches Ok(c) ==> constants_of(t, reps@, &c) && disjoint(&c),
{
    let ic = &t.permutation[INSTANCE_COLUMN];
    let fc = &t.permutation[FIXED_COLUMN];
    proof {
        assert forall|i: int| 0 <= i < ic@.len() implies reps@.contains(#[trigger] ic@[i]) by {
            assert(t.permutation@[INSTANCE_COLUMN as int]@[i] == ic@[i]);
            assert(crate::types::in_table(t.permutation@, ic@[i]));
        }
        assert forall|i: int| 0 <= i < fc@.len() implies reps@.contains(#[trigger] fc@[i]) by {
            assert(t.permutation@[FIXED_COLUMN as int]@[i] == fc@[i]);
            assert(crate::types::in_table(t.permutation@, fc@[i]));
        }
    }
    let mut none: Vec<Option<Felt>> = Vec::new();
    let mut k: usize = 0;
    while k < reps.len()
        invariant
            0 <= k <= reps@.len(),
            none@.len() == k,
            forall|p: int| 0 <= p < k ==> #[trigger] none@[p] is None,
        decreases reps@.len() - k,
    {
        none.push(None);
        k += 1;
    }
    let instance = match bind_column(ic, &t.instance, reps, &none) {
        Ok(m) => m,
        Err(e) => {
            return Err(e);
        },
    };
    let fixed = bind_column(fc, &t.fixed, reps, &instance);
    proof {
        let cross = exists|i: int, k: int|
            0 <= i < t.fixed@.len() && 0 <= k < reps@.len() && t.fixed@[i] is Some
                && #[trigger] fc@[i] == #[trigger] reps@[k] && instance@[k] is Some;
        if cross {
            let (i, k) = choose|i: int, k: int|
                0 <= i < t.fixed@.len() && 0 <= k < reps@.len() && t.fixed@[i] is Some
                    && #[trigger] fc@[i] == #[trigger] reps@[k] && instance@[k] is Some;
            let w = instance@[k].unwrap();
            assert(claims(ic@, t.instance@, t.instance@.len() as int, reps@[k], w));
            let j = choose|j: int| 0 <= j < t.instance@.len() && t.instance@[j] == Some(w) && #[trigger] ic@[j] == reps@[k];
            assert(ic@[j] == fc@[i]);
            assert(cross_claim(ic@, t.instance@, fc@, t.fixed@));
        }
        if cross_claim(ic@, t.instance@, fc@, t.fixed@) {
            let (j, i) = choose|j: int, i: int|
                0 <= j < t.instance@.len() && 0 <= i < t.fixed@.len() && t.instance@[j] is Some
                    && t.fixed@[i] is Some && #[trigger] ic@[j] == #[trigger] fc@[i];
            assert(reps@.contains(fc@[i]));
            let k = choose|k: int| 0 <= k < reps@.len() && reps@[k] == fc@[i];
            let w = t.instance@[j].unwrap();
            assert(claims(ic@, t.instance@, t.instance@.len() as int, reps@[k], w));
            assert(instance@[k] == Some(w));
            assert(fc@[i] == reps@[k]);
        }
    }
    match fixed {
        Ok(fixed) => Ok(Constants { instance, fixed }),
        Err(e) => Err(e),
    }
}

/// `op` is the operand of a slot that names `cell`: the constant bound to its
/// representative (instance first), or else a memory reference to it.
pub open spec fn resolves_to(reps: Seq<Cell>, c: &Constants, cell: Cell, op: Operand) -> bool {
    match op {
        Operand::Constant(v) => exists|k: int| 0 <= k < reps.len() && #[trigger] reps[k] == cell
            && (c.instance@[k] == Some(v) || (c.instance@[k] is None && c.fixed@[k] == Some(v))),
        Operand::Memory { rep, index } => rep == cell && index < reps.len() && reps[index as int] == cell
            && c.instance@[index as int] is None && c.fixed@[index as int] is None,
    }
}

/// Resolves every slot of the permutation table, `[column][row]`, to its
/// operand.
pub fn build_operands(t: &Tables, reps: &Vec<Cell>, c: &Constants) -> (ops: Vec<Vec<Operand>>)
    requires
        resolved(t.permutation@, reps@),
        c.instance@.len() == reps@.len(),
        c.fixed@.len() == reps@.len(),
    ensures
        ops@.len() == t.permutation@.len(),
        forall|s: int| 0 <= s < ops@.len() ==> (#[trigger] ops@[s])@.len() == t.permutation@[s]@.len(),
        forall|s: int, row: int| 0 <= s < ops@.len() && 0 <= row < ops@[s]@.len()
            ==> resolves_to(reps@, c, t.permutation@[s]@[row], #[trigger] ops@[s]@[row]),
{
    let mut ops: Vec<Vec<Operand>> = Vec::new();
    let mut s: usize = 0;
    while s < t.permutation.len()
        invariant
            0 <= s <= t.permutation@.len(),
            resolved(t.permutation@, reps@),
            c.instance@.len() == reps@.len(),
            c.fixed@.len() == reps@.len(),
            ops@.len() == s,
            forall|p: int| 0 <= p < s ==> (#[trigger] ops@[p])@.len() == t.permutation@[p]@.len(),
            forall|p: int, row: int| 0 <= p < s && 0 <= row < ops@[p]@.len()
                ==> resolves_to(reps@, c, t.permutation@[p]@[row], #[trigger] ops@[p]@[row]),
        decreases t.permutation@.len() - s,
    {
        let col = &t.permutation[s];
        let mut out: Vec<Operand> = Vec::new();
        let mut row: usize = 0;
        while row < col.len()
            invariant
                0 <= s < t.permutation@.len(),
                col@ == t.permutation@[s as int]@,
                resolved(t.permutation@, reps@),
                c.instance@.len() == reps@.len(),
                c.fixed@.len() == reps@.len(),
                0 <= row <= col@.len(),
                out@.len() == row,
                forall|r: int| 0 <= r < row ==> resolves_to(reps@, c, col@[r], #[trigger] out@[r]),
            decreases col@.len() - row,
        {
            let cell = col[row];
            proof {
                assert(t.permutation@[s as int]@[row as int] == cell);
                assert(crate::types::in_table(t.permutation@, cell));
            }
            let k = match rep_index(reps, cell) {
                Some(k) => k,
                None => { proof { assert(false); } 0 },
            };
            let op = match c.instance[k] {
                Some(v) => Operand::Constant(v),
                None => match c.fixed[k] {
                    Some(v) => Operand::Constant(v),
                    None => Operand::Memory { rep: cell, index: k },
                },
            };
            out.push(op);
            proof {
                assert(resolves_to(reps@, c, col@[row as int], out@[row as int]));
                assert forall|r: int| 0 <= r < row + 1 implies resolves_to(reps@, c, col@[r], #[trigger] out@[r]) by {
                    if r < row {
                        assert(out@[r] == out@.drop_last()[r]);
                    }
                }
            }
            row += 1;
        }
        ops.push(out);
        proof {
            assert forall|p: int, row: int| 0 <= p < s + 1 && 0 <= row < ops@[p]@.len()
                implies resolves_to(reps@, c, t.permutation@[p]@[row], #[trigger] ops@[p]@[row]) by {
                if p == s {
                    assert(ops@[p]@[row] == out@[row]);
                }
            }
        }
        s += 1;
    }
    ops
}

} // verus!
