use vstd::prelude::*;
use crate::field::Felt;
use itertools::Itertools;
use crate::allocator::{Allocator, law_addresses_stable, lemma_owners_distinct};
use crate::constants::{Constants, ambiguous, build_operands, classify, claims, constants_of, resolves_to};
use crate::resolver::{resolve, resolved};
use crate::types::{
    Cell, Gate, LowerError, Operand, Tables, advice_at, arity, check_layout, gate_spec, layout_ok,
    rows, ADVICE_COLUMNS, FIXED_COLUMN, INSTANCE_COLUMN, MEMORY_CAPACITY, SELECTOR_COLUMNS,
};

verus! {

/// The selector columns among the first `m` that are active at `row`, in
/// increasing order.
pub open spec fn active_gates(sel: Seq<Vec<bool>>, row: int, m: int) -> Seq<usize>
    decreases m,
{
    if m <= 0 {
        Seq::empty()
    } else {
        let p = active_gates(sel, row, m - 1);
        if sel[m - 1]@[row] { p.push((m - 1) as usize) } else { p }
    }
}

/// The active selectors of a row.
pub open spec fn active_at(sel: Seq<Vec<bool>>, row: int) -> Seq<usize> {
    active_gates(sel, row, sel.len() as int)
}

/// Number of rows below `upto` with exactly one active selector.
pub open spec fn single_rows(sel: Seq<Vec<bool>>, upto: int) -> nat
    decreases upto,
{
    if upto <= 0 {
        0
    } else {
        single_rows(sel, upto - 1) + if active_at(sel, upto - 1).len() == 1 { 1nat } else { 0nat }
    }
}

/// The gates of the rows below `upto` with exactly one active selector, in
/// row order.
pub open spec fn program_gates(sel: Seq<Vec<bool>>, upto: int) -> Seq<Gate>
    decreases upto,
{
    if upto <= 0 {
        Seq::empty()
    } else {
        let p = program_gates(sel, upto - 1);
        let a = active_at(sel, upto - 1);
        if a.len() == 1 { p.push(gate_spec(a[0] as int)) } else { p }
    }
}

/// The rows below `upto` with exactly one active selector, in order.
pub open spec fn program_rows(sel: Seq<Vec<bool>>, upto: int) -> Seq<int>
    decreases upto,
{
    if upto <= 0 {
        Seq::empty()
    } else {
        let p = program_rows(sel, upto - 1);
        if active_at(sel, upto - 1).len() == 1 { p.push(upto - 1) } else { p }
    }
}

/// Relies on itertools' `Itertools::positions`: the indices, in increasing
/// order, of the columns that are set at `row`.
#[verifier::external_body]
fn active_selectors(selectors: &Vec<Vec<bool>>, row: usize) -> (r: Vec<usize>)
    requires
        forall|i: int| 0 <= i < selectors@.len() ==> row < (#[trigger] selectors@[i])@.len(),
    ensures
        r@ == active_at(selectors@, row as int),
{
    selectors.iter().positions(|x| x[row]).collect()
}

/// One instruction: a gate and the addresses of its operands.
pub struct Instruction {
    pub gate: Gate,
    pub operands: Vec<usize>,
}

/// The next free address after the addresses `f` are used in order, starting
/// with `h` addresses in use.
pub open spec fn high(h: nat, f: Seq<usize>) -> nat
    decreases f.len(),
{
    if f.len() == 0 {
        h
    } else {
        let p = high(h, f.drop_last());
        if (f.last() as nat) + 1 > p { (f.last() + 1) as nat } else { p }
    }
}

/// The addresses `f` are handed out in order of first use, starting with `h`
/// addresses in use: each is one already in use or the next free one.
pub open spec fn first_use(h: nat, f: Seq<usize>) -> bool {
    forall|q: int| 0 <= q < f.len() ==> #[trigger] f[q] <= high(h, f.subrange(0, q))
}

/// The operands of a program, instruction after instruction.
pub open spec fn flat(p: Seq<Instruction>) -> Seq<usize>
    decreases p.len(),
{
    if p.len() == 0 { Seq::empty() } else { flat(p.drop_last()) + p.last().operands@ }
}

proof fn lemma_high_concat(h: nat, b: Seq<usize>, o: Seq<usize>)
    ensures
        high(h, b + o) == high(high(h, b), o),
    decreases o.len(),
{
    if o.len() == 0 {
        assert(b + o =~= b);
    } else {
        assert((b + o).drop_last() =~= b + o.drop_last());
        lemma_high_concat(h, b, o.drop_last());
    }
}

proof fn lemma_first_use_concat(h: nat, b: Seq<usize>, o: Seq<usize>)
    requires
        first_use(h, b),
        first_use(high(h, b), o),
    ensures
        first_use(h, b + o),
{
    let f = b + o;
    assert forall|q: int| 0 <= q < f.len() implies #[trigger] f[q] <= high(h, f.subrange(0, q)) by {
        if q < b.len() {
            assert(f.subrange(0, q) =~= b.subrange(0, q));
            assert(f[q] == b[q]);
        } else {
            let r = q - b.len();
            assert(f.subrange(0, q) =~= b + o.subrange(0, r));
            lemma_high_concat(h, b, o.subrange(0, r));
            assert(f[q] == o[r]);
        }
    }
}

/// The slot `(column, row)` of the permutation table that operand `j` of a
/// gate lowered at `row` is read from: the first two from columns 0 and 1 of
/// the row, the accumulator of `Dot` from column 2 of the row before, and the
/// destination from column 2 of the row.
pub open spec fn operand_slot(g: Gate, row: int, j: int) -> (int, int) {
    if j < 2 {
        (j, row)
    } else if g == Gate::Dot && j == 2 {
        (2, row - 1)
    } else {
        (2, row)
    }
}

/// Operand `j` of `ins` is the address that `al` gives the operand of its slot.
pub open spec fn operand_at(ops: Seq<Vec<Operand>>, al: &Allocator, g: Gate, row: int, j: int, a: usize) -> bool {
    let (s, r) = operand_slot(g, row, j);
    ops[s]@[r] matches Operand::Memory { index, .. } && al.slots@[index as int] == Some(a)
}

/// The operand table `ops` is the one built for `t`.
pub open spec fn operands_of(t: &Tables, reps: Seq<Cell>, c: &Constants, ops: Seq<Vec<Operand>>) -> bool {
    &&& ops.len() == t.permutation@.len()
    &&& forall|s: int| 0 <= s < ops.len() ==> (#[trigger] ops[s])@.len() == t.permutation@[s]@.len()
    &&& forall|s: int, row: int| 0 <= s < ops.len() && 0 <= row < ops[s]@.len()
        ==> resolves_to(reps, c, t.permutation@[s]@[row], #[trigger] ops[s]@[row])
}

/// The cell that operand `j` of gate `g` lowered at `row` is read from.
pub open spec fn slot_cell(t: &Tables, g: Gate, row: int, j: int) -> Cell {
    let (s, r) = operand_slot(g, row, j);
    t.permutation@[s]@[r]
}

/// An assigned instance or fixed row binds the cell to a constant.
pub open spec fn bound_constant(t: &Tables, c: Cell) -> bool {
    (exists|i: int| 0 <= i < t.instance@.len() && t.instance@[i] is Some
        && #[trigger] t.permutation@[INSTANCE_COLUMN as int]@[i] == c)
    || (exists|i: int| 0 <= i < t.fixed@.len() && t.fixed@[i] is Some
        && #[trigger] t.permutation@[FIXED_COLUMN as int]@[i] == c)
}

/// The cell lies in an advice column, within the rows.
pub open spec fn in_advice(t: &Tables, c: Cell) -> bool {
    c.column < ADVICE_COLUMNS && c.row < rows(t)
}

/// Operand `j` of gate `g` at `row` can have an address: its cell is bound
/// to no constant and is an assigned advice cell.
pub open spec fn operand_ok(t: &Tables, g: Gate, row: int, j: int) -> bool {
    let c = slot_cell(t, g, row, j);
    !bound_constant(t, c) && in_advice(t, c) && advice_at(t, c) is Some
}

/// Why operand `j` of gate `g` at `row` cannot have an address.
pub open spec fn operand_error(t: &Tables, g: Gate, row: int, j: int) -> LowerError {
    let c = slot_cell(t, g, row, j);
    if bound_constant(t, c) {
        LowerError::UnsupportedOperand
    } else if !in_advice(t, c) {
        LowerError::LayoutMismatch
    } else {
        LowerError::UnassignedAdvice
    }
}

/// Gate `g` can be lowered at `row`, memory permitting.
pub open spec fn gate_ok(t: &Tables, g: Gate, row: int) -> bool {
    &&& arity(g) > 0
    &&& !(g == Gate::Dot && row == 0)
    &&& forall|j: int| 0 <= j < arity(g) ==> #[trigger] operand_ok(t, g, row, j)
}

/// The cells that the operands read before operand `j` of `row`, rows being
/// lowered in order; each of them has an address by then.
pub open spec fn used_cells(t: &Tables, row: int, j: int) -> Set<Cell> {
    let sel = t.selectors@;
    Set::new(|c: Cell|
        (exists|r: int, p: int| 0 <= r < row && single(sel, r) && 0 <= p < arity(row_gate(sel, r))
            && #[trigger] slot_cell(t, row_gate(sel, r), r, p) == c)
        || (exists|p: int| 0 <= p < j && #[trigger] slot_cell(t, row_gate(sel, row), row, p) == c))
}

proof fn lemma_used_step(t: &Tables, row: int, j: int)
    requires
        0 <= j,
    ensures
        used_cells(t, row, j + 1) == used_cells(t, row, j).insert(slot_cell(t, row_gate(t.selectors@, row), row, j)),
{
    let g = row_gate(t.selectors@, row);
    let cell = slot_cell(t, g, row, j);
    assert forall|x: Cell| #[trigger] used_cells(t, row, j + 1).contains(x)
        <==> used_cells(t, row, j).insert(cell).contains(x) by {
        if x == cell {
            assert(slot_cell(t, g, row, j) == x);
        }
        if exists|p: int| 0 <= p < j + 1 && #[trigger] slot_cell(t, g, row, p) == x {
            let p = choose|p: int| 0 <= p < j + 1 && #[trigger] slot_cell(t, g, row, p) == x;
            if p < j {
                assert(used_cells(t, row, j).contains(x));
            }
        }
        if used_cells(t, row, j).contains(x) {
            if exists|p: int| 0 <= p < j && #[trigger] slot_cell(t, g, row, p) == x {
                let p = choose|p: int| 0 <= p < j && #[trigger] slot_cell(t, g, row, p) == x;
                assert(slot_cell(t, g, row, p) == x && p < j + 1);
            }
        }
    }
    assert(used_cells(t, row, j + 1) =~= used_cells(t, row, j).insert(cell));
}

/// `e` is the first failure of lowering gate `g` at `row`: `g` has no
/// lowering, `Dot` has no row before, or, in operand order, the first operand
/// that cannot have an address, or the first that finds the memory full.
pub open spec fn gate_error(t: &Tables, g: Gate, row: int, e: LowerError) -> bool {
    if arity(g) == 0 {
        e == LowerError::Unimplemented(g)
    } else if g == Gate::Dot && row == 0 {
        e == LowerError::LayoutMismatch
    } else {
        exists|j: int| 0 <= j < arity(g)
            && (forall|p: int| 0 <= p < j ==> #[trigger] operand_ok(t, g, row, p))
            && used_cells(t, row, j).len() <= MEMORY_CAPACITY
            && if operand_ok(t, g, row, j) {
                &&& e == LowerError::CapacityOverflow
                &&& used_cells(t, row, j).len() >= MEMORY_CAPACITY
                &&& !used_cells(t, row, j).contains(slot_cell(t, g, row, j))
            } else {
                e == operand_error(t, g, row, j)
            }
    }
}

/// A slot resolves to a constant exactly where its cell is bound to one.
proof fn lemma_constant_iff_bound(t: &Tables, reps: Seq<Cell>, c: &Constants, cell: Cell, op: Operand)
    requires
        layout_ok(t),
        constants_of(t, reps, c),
        resolves_to(reps, c, cell, op),
    ensures
        op is Constant <==> bound_constant(t, cell),
{
    let ic = t.permutation@[INSTANCE_COLUMN as int]@;
    let fc = t.permutation@[FIXED_COLUMN as int]@;
    match op {
        Operand::Constant(v) => {
            let k = choose|k: int| 0 <= k < reps.len() && #[trigger] reps[k] == cell
                && (c.instance@[k] == Some(v) || (c.instance@[k] is None && c.fixed@[k] == Some(v)));
            if c.instance@[k] == Some(v) {
                assert(claims(ic, t.instance@, t.instance@.len() as int, reps[k], v));
            } else {
                assert(claims(fc, t.fixed@, t.fixed@.len() as int, reps[k], v));
            }
        },
        Operand::Memory { rep, index } => {
            if exists|i: int| 0 <= i < t.instance@.len() && t.instance@[i] is Some && #[trigger] ic[i] == cell {
                let i = choose|i: int| 0 <= i < t.instance@.len() && t.instance@[i] is Some && #[trigger] ic[i] == cell;
                let w = t.instance@[i].unwrap();
                assert(claims(ic, t.instance@, t.instance@.len() as int, reps[index as int], w));
            }
            if exists|i: int| 0 <= i < t.fixed@.len() && t.fixed@[i] is Some && #[trigger] fc[i] == cell {
                let i = choose|i: int| 0 <= i < t.fixed@.len() && t.fixed@[i] is Some && #[trigger] fc[i] == cell;
                let w = t.fixed@[i].unwrap();
                assert(claims(fc, t.fixed@, t.fixed@.len() as int, reps[index as int], w));
            }
        },
    }
}

/// Lowers the active gate of `row` to its instruction, giving addresses to its
/// operands in operand order.
fn lower_row(
    t: &Tables,
    reps: &Vec<Cell>,
    c: &Constants,
    ops: &Vec<Vec<Operand>>,
    al: &mut Allocator,
    row: usize,
    g: Gate,
) -> (r: Result<Instruction, LowerError>)
    requires
        layout_ok(t),
        row < rows(t),
        c.instance@.len() == reps@.len(),
        c.fixed@.len() == reps@.len(),
        constants_of(t, reps@, c),
        operands_of(t, reps@, c, ops@),
        old(al).wf(t, reps@),
        forall|a: int| 0 <= a < old(al).memory@.len() ==> !bound_constant(t, #[trigger] old(al).owners@[a]),
        crate::types::strictly_sorted(reps@),
        g == row_gate(t.selectors@, row as int),
        old(al).capacity == MEMORY_CAPACITY,
        old(al).owners@.to_set() == used_cells(t, row as int, 0),
    ensures
        r is Ok ==> final(al).owners@.to_set() == used_cells(t, row as int, arity(g) as int),
        forall|a: int| 0 <= a < final(al).memory@.len() ==> !bound_constant(t, #[trigger] final(al).owners@[a]),
        r matches Err(e) ==> gate_error(t, g, row as int, e),
        r == Err::<Instruction, LowerError>(LowerError::CapacityOverflow) ==> reps@.len() > old(al).capacity,
        r is Ok ==> gate_ok(t, g, row as int),
        final(al).wf(t, reps@),
        old(al).extended_by(final(al)),
        r matches Ok(ins) ==> {
            &&& ins.gate == g
            &&& ins.operands@.len() == arity(g) > 0
            &&& forall|j: int| 0 <= j < ins.operands@.len() ==> #[trigger] ins.operands@[j] < final(al).memory@.len()
            &&& forall|j: int| 0 <= j < ins.operands@.len()
                ==> operand_at(ops@, final(al), g, row as int, j, #[trigger] ins.operands@[j])
            &&& forall|j: int| 0 <= j < ins.operands@.len()
                ==> final(al).owners@[#[trigger] ins.operands@[j] as int] == slot_cell(t, g, row as int, j)
            &&& first_use(old(al).memory@.len(), ins.operands@)
            &&& final(al).memory@.len() == high(old(al).memory@.len(), ins.operands@)
        },
{
    let n: usize = match g {
        Gate::Add | Gate::Mult => 3,
        Gate::Dot => 4,
        Gate::Div128 | Gate::Relu => 2,
        _ => { return Err(LowerError::Unimplemented(g)); },
    };
    if g == Gate::Dot && row == 0 {
        return Err(LowerError::LayoutMismatch);
    }
    let mut operands: Vec<usize> = Vec::new();
    let mut j: usize = 0;
    while j < n
        invariant
            layout_ok(t),
            row < rows(t),
            n == arity(g),
            g == Gate::Dot ==> row > 0,
            c.instance@.len() == reps@.len(),
            c.fixed@.len() == reps@.len(),
            constants_of(t, reps@, c),
            operands_of(t, reps@, c, ops@),
            al.wf(t, reps@),
            old(al).extended_by(al),
            0 <= j <= n,
            operands@.len() == j,
            forall|p: int| 0 <= p < j ==> #[trigger] operands@[p] < al.memory@.len(),
            forall|p: int| 0 <= p < j ==> operand_at(ops@, al, g, row as int, p, #[trigger] operands@[p]),
            forall|p: int| 0 <= p < j ==> al.owners@[#[trigger] operands@[p] as int] == slot_cell(t, g, row as int, p),
            first_use(old(al).memory@.len(), operands@),
            al.memory@.len() == high(old(al).memory@.len(), operands@),
            forall|a: int| 0 <= a < al.memory@.len() ==> !bound_constant(t, #[trigger] al.owners@[a]),
            forall|p: int| 0 <= p < j ==> #[trigger] operand_ok(t, g, row as int, p),
            crate::types::strictly_sorted(reps@),
            g == row_gate(t.selectors@, row as int),
            al.capacity == MEMORY_CAPACITY,
            al.owners@.to_set() == used_cells(t, row as int, j as int),
        decreases n - j,
    {
        let (s, rr) = if j < 2 {
            (j, row)
        } else if g == Gate::Dot && j == 2 {
            (2, row - 1)
        } else {
            (2, row)
        };
        proof {
            assert(t.permutation@[s as int]@.len() == rows(t));
            assert(resolves_to(reps@, c, t.permutation@[s as int]@[rr as int], ops@[s as int]@[rr as int]));
        }
        let op = ops[s][rr];
        let ghost before = *al;
        let a = match al.allocate_or_get(t, reps, op) {
            Ok(a) => a,
            Err(e) => {
                proof {
                    assert(operand_slot(g, row as int, j as int) == (s as int, rr as int));
                    let cell = slot_cell(t, g, row as int, j as int);
                    lemma_constant_iff_bound(t, reps@, c, cell, op);
                    if cell.column < ADVICE_COLUMNS {
                        assert(t.advice@[cell.column as int]@.len() == rows(t));
                    }
                    if operand_ok(t, g, row as int, j as int) {
                        assert(e == LowerError::CapacityOverflow);
                        lemma_owners_distinct(al, t, reps@);
                        al.owners@.unique_seq_to_set();
                        if let Operand::Memory { rep, .. } = op {
                            assert(rep == cell);
                            assert(!al.owners@.contains(cell));
                            assert(!al.owners@.to_set().contains(cell));
                        }
                    } else {
                        assert(e == operand_error(t, g, row as int, j as int));
                    }
                    assert(forall|p: int| 0 <= p < j ==> #[trigger] operand_ok(t, g, row as int, p));
                    lemma_owners_distinct(al, t, reps@);
                    al.owners@.unique_seq_to_set();
                    assert(used_cells(t, row as int, j as int).len() <= MEMORY_CAPACITY);
                    assert(gate_error(t, g, row as int, e));
                }
                return Err(e);
            },
        };
        proof {
            assert forall|p: int| 0 <= p < j implies operand_at(ops@, al, g, row as int, p, #[trigger] operands@[p]) by {
                let (s2, r2) = operand_slot(g, row as int, p);
                assert(operand_at(ops@, &before, g, row as int, p, operands@[p]));
                if let Operand::Memory { index, .. } = ops@[s2]@[r2] {
                    assert(before.slots@[index as int] is Some);
                }
            }
            if let Operand::Memory { index, .. } = op {
                assert(al.slots@[index as int] == Some(a));
            }
            law_addresses_stable(old(al), &before, al);
        }
        proof {
            assert(operand_slot(g, row as int, j as int) == (s as int, rr as int));
            if let Operand::Memory { index, .. } = op {
                assert(al.owner_index@[a as int] == index);
            }
            assert forall|p: int| 0 <= p < j implies al.owners@[#[trigger] operands@[p] as int] == slot_cell(t, g, row as int, p) by {
                assert(before.owners@[operands@[p] as int] == slot_cell(t, g, row as int, p));
            }
        }
        proof {
            let cell = slot_cell(t, g, row as int, j as int);
            lemma_constant_iff_bound(t, reps@, c, cell, op);
            if let Operand::Memory { index, .. } = op {
                assert(al.owner_index@[a as int] == index);
                assert(al.owners@[a as int] == cell);
                if cell.column < ADVICE_COLUMNS {
                    assert(t.advice@[cell.column as int]@.len() == rows(t));
                }
            }
            assert(operand_ok(t, g, row as int, j as int));
            assert forall|x: Cell| al.owners@.contains(x) <==> before.owners@.contains(x) || x == cell by {
                if al.owners@.len() > before.owners@.len() {
                    assert(al.owners@ == before.owners@.push(cell));
                    if before.owners@.contains(x) {
                        let q = choose|q: int| 0 <= q < before.owners@.len() && before.owners@[q] == x;
                        assert(al.owners@[q] == x);
                    }
                    if al.owners@.contains(x) && x != cell {
                        let q = choose|q: int| 0 <= q < al.owners@.len() && al.owners@[q] == x;
                        assert(before.owners@[q] == x);
                    }
                } else {
                    assert(al.owners@ == before.owners@);
                }
            }
            assert(al.owners@.to_set() =~= before.owners@.to_set().insert(cell));
            lemma_used_step(t, row as int, j as int);
            assert forall|b: int| 0 <= b < al.memory@.len() implies !bound_constant(t, #[trigger] al.owners@[b]) by {
                if b < before.memory@.len() {
                    assert(al.memory@[b] == before.memory@[b]);
                    assert(!bound_constant(t, before.owners@[b]));
                } else {
                    assert(al.owners@[b] == cell);
                }
            }
        }
        let ghost prev = operands@;
        operands.push(a);
        proof {
            let h0 = old(al).memory@.len();
            assert(operands@.drop_last() =~= prev);
            assert(operands@.subrange(0, j as int) =~= prev);
            assert forall|q: int| 0 <= q < operands@.len() implies #[trigger] operands@[q] <= high(h0, operands@.subrange(0, q)) by {
                if q < j {
                    assert(operands@.subrange(0, q) =~= prev.subrange(0, q));
                    assert(operands@[q] == prev[q]);
                }
            }
            assert forall|p: int| 0 <= p < j + 1 implies operand_at(ops@, al, g, row as int, p, #[trigger] operands@[p]) by {
                if p < j {
                    assert(operands@[p] == operands@.drop_last()[p]);
                }
            }
            assert forall|p: int| 0 <= p < j + 1 implies al.owners@[#[trigger] operands@[p] as int] == slot_cell(t, g, row as int, p) by {
                if p < j {
                    assert(operands@[p] == operands@.drop_last()[p]);
                }
            }
        }
        j += 1;
    }
    Ok(Instruction { gate: g, operands })
}

/// Every active selector of a row is one of the columns scanned.
proof fn lemma_active_in_range(sel: Seq<Vec<bool>>, row: int, m: int)
    requires
        0 <= m <= sel.len(),
        m <= usize::MAX,
    ensures
        forall|i: int| 0 <= i < active_gates(sel, row, m).len() ==> #[trigger] active_gates(sel, row, m)[i] < m,
    decreases m,
{
    if m > 0 {
        lemma_active_in_range(sel, row, m - 1);
        let p = active_gates(sel, row, m - 1);
        assert forall|i: int| 0 <= i < active_gates(sel, row, m).len() implies
            #[trigger] active_gates(sel, row, m)[i] < m by {
            if i < p.len() {
                assert(active_gates(sel, row, m)[i] == p[i]);
            }
        }
    }
}

/// The program and memory image of a lowering.
pub struct Lowered {
    /// One instruction per row with an active gate, in row order.
    pub program: Vec<Instruction>,
    /// The value at each allocated address.
    pub memory: Vec<Felt>,
    /// The representative cell stored at each allocated address.
    pub owners: Vec<Cell>,
}

/// `out` is a lowering of `t`: one instruction for each row with one active
/// selector, with that row's gate, whose operands are allocated addresses; each
/// address holds the advice value of one representative, and no two addresses
/// hold the same representative.
pub open spec fn lowered(t: &Tables, out: &Lowered) -> bool {
    let sel = t.selectors@;
    let n = rows(t);
    &&& layout_ok(t)
    &&& !ambiguous(t)
    &&& forall|row: int| 0 <= row < n ==> #[trigger] row_ok(t, row)
    &&& out.program@.len() == single_rows(sel, n)
    &&& out.program@.len() == program_gates(sel, n).len()
    &&& forall|j: int| 0 <= j < out.program@.len() ==> (#[trigger] out.program@[j]).gate == program_gates(sel, n)[j]
    &&& forall|j: int| 0 <= j < out.program@.len() ==> (#[trigger] out.program@[j]).operands@.len() == arity(out.program@[j].gate)
    &&& forall|j: int, p: int| 0 <= j < out.program@.len() && 0 <= p < out.program@[j].operands@.len()
        ==> #[trigger] out.program@[j].operands@[p] < out.memory@.len()
    &&& out.program@.len() == program_rows(sel, n).len()
    &&& forall|j: int, p: int| 0 <= j < out.program@.len() && 0 <= p < out.program@[j].operands@.len()
        ==> out.owners@[#[trigger] out.program@[j].operands@[p] as int]
            == slot_cell(t, out.program@[j].gate, program_rows(sel, n)[j], p)
    &&& forall|j: int| 0 <= j < out.program@.len() ==> arity((#[trigger] out.program@[j]).gate) > 0
    &&& forall|a: int| 0 <= a < out.owners@.len() ==> !bound_constant(t, #[trigger] out.owners@[a])
    &&& first_use(0, flat(out.program@))
    &&& out.memory@.len() == high(0, flat(out.program@))
    &&& out.memory@.len() <= MEMORY_CAPACITY
    &&& out.owners@.len() == out.memory@.len()
    &&& forall|a: int| 0 <= a < out.memory@.len() ==> advice_at(t, #[trigger] out.owners@[a]) == Some(out.memory@[a])
    &&& forall|a: int, b: int| 0 <= a < b < out.owners@.len() ==> #[trigger] out.owners@[a] != #[trigger] out.owners@[b]
}

/// Exactly one selector is active at the row.
pub open spec fn single(sel: Seq<Vec<bool>>, row: int) -> bool {
    active_at(sel, row).len() == 1
}

/// Which gate the selector active at the row stands for.
pub open spec fn row_gate(sel: Seq<Vec<bool>>, row: int) -> Gate {
    gate_spec(active_at(sel, row)[0] as int)
}

/// The row can be lowered: at most one selector is active, a single active
/// selector has a gate that can be lowered, and the cells read up to this
/// row fit the memory.
pub open spec fn row_ok(t: &Tables, row: int) -> bool {
    &&& active_at(t.selectors@, row).len() <= 1
    &&& single(t.selectors@, row) ==> gate_ok(t, row_gate(t.selectors@, row), row)
    &&& used_cells(t, row + 1, 0).len() <= MEMORY_CAPACITY
}

/// `e` is the first failure of lowering the row.
pub open spec fn row_error(t: &Tables, row: int, e: LowerError) -> bool {
    if active_at(t.selectors@, row).len() > 1 {
        e == LowerError::ConflictingSelectors { row: row as usize }
    } else {
        single(t.selectors@, row) && gate_error(t, row_gate(t.selectors@, row), row, e)
    }
}

/// `e` is the first failure of lowering the tables: a wrong layout, a
/// constant bound twice, or else the first failure of the first row that
/// fails, rows being lowered in order.
pub open spec fn lower_fails(t: &Tables, e: LowerError) -> bool {
    if !layout_ok(t) {
        e == LowerError::LayoutMismatch
    } else if ambiguous(t) {
        e == LowerError::AmbiguousConstant
    } else {
        exists|row: int| 0 <= row < rows(t)
            && (forall|r: int| 0 <= r < row ==> #[trigger] row_ok(t, r))
            && #[trigger] row_error(t, row, e)
    }
}

/// Lowers the tables to a program and its memory image. Rows are scanned in
/// order; addresses go to representatives in the order of first use.
pub fn lower(t: &Tables) -> (r: Result<Lowered, LowerError>)
    ensures
        !layout_ok(t) ==> r == Err::<Lowered, LowerError>(LowerError::LayoutMismatch),
        layout_ok(t) && ambiguous(t) ==> r == Err::<Lowered, LowerError>(LowerError::AmbiguousConstant),
        r matches Err(e) ==> lower_fails(t, e),
        r == Err::<Lowered, LowerError>(LowerError::CapacityOverflow) ==> exists|reps: Seq<Cell>|
            resolved(t.permutation@, reps) && reps.len() > MEMORY_CAPACITY,
        r matches Ok(out) ==> lowered(t, &out),
{
    check_layout(t)?;
    let reps = resolve(&t.permutation);
    let consts = classify(t, &reps)?;
    let ops = build_operands(t, &reps, &consts);
    let mut al = Allocator::new(reps.len(), MEMORY_CAPACITY);
    let mut program: Vec<Instruction> = Vec::new();
    let n = t.permutation[0].len();
    let ghost sel = t.selectors@;
    proof {
        assert(al.owners@.to_set() =~= used_cells(t, 0, 0));
    }
    let mut row: usize = 0;
    while row < n
        invariant
            layout_ok(t),
            !ambiguous(t),
            n == rows(t),
            sel == t.selectors@,
            resolved(t.permutation@, reps@),
            consts.instance@.len() == reps@.len(),
            consts.fixed@.len() == reps@.len(),
            constants_of(t, reps@, &consts),
            operands_of(t, reps@, &consts, ops@),
            al.wf(t, reps@),
            al.capacity == MEMORY_CAPACITY,
            0 <= row <= n,
            forall|r: int| 0 <= r < row ==> #[trigger] row_ok(t, r),
            al.owners@.to_set() == used_cells(t, row as int, 0),
            program@.len() == single_rows(sel, row as int),
            program@.len() == program_gates(sel, row as int).len(),
            forall|j: int| 0 <= j < program@.len() ==> (#[trigger] program@[j]).gate == program_gates(sel, row as int)[j],
            forall|j: int| 0 <= j < program@.len() ==> (#[trigger] program@[j]).operands@.len() == arity(program@[j].gate),
            forall|j: int, p: int| 0 <= j < program@.len() && 0 <= p < program@[j].operands@.len()
                ==> #[trigger] program@[j].operands@[p] < al.memory@.len(),
            first_use(0, flat(program@)),
            al.memory@.len() == high(0, flat(program@)),
            forall|j: int| 0 <= j < program@.len() ==> arity((#[trigger] program@[j]).gate) > 0,
            forall|a: int| 0 <= a < al.memory@.len() ==> !bound_constant(t, #[trigger] al.owners@[a]),
            program@.len() == program_rows(sel, row as int).len(),
            forall|j: int, p: int| 0 <= j < program@.len() && 0 <= p < program@[j].operands@.len()
                ==> al.owners@[#[trigger] program@[j].operands@[p] as int]
                    == slot_cell(t, program@[j].gate, program_rows(sel, row as int)[j], p),
        decreases n - row,
    {
        proof {
            assert forall|i: int| 0 <= i < t.selectors@.len() implies row < (#[trigger] t.selectors@[i])@.len() by {}
        }
        let active = active_selectors(&t.selectors, row);
        if active.len() > 1 {
            proof {
                assert(row_error(t, row as int, LowerError::ConflictingSelectors { row }));
            }
            return Err(LowerError::ConflictingSelectors { row });
        }
        if active.len() == 1 {
            proof {
                lemma_active_in_range(sel, row as int, sel.len() as int);
            }
            let g = Gate::from_selector(active[0]);
            let ghost before = al;
            let ins = match lower_row(t, &reps, &consts, &ops, &mut al, row, g) {
                Ok(ins) => ins,
                Err(e) => {
                    proof {
                        assert(single(sel, row as int));
                        assert(row_gate(sel, row as int) == g);
                        assert(row_error(t, row as int, e));
                    }
                    return Err(e);
                },
            };
            let ghost old_program = program@;
            program.push(ins);
            proof {
                assert forall|j: int| 0 <= j < program@.len() implies (#[trigger] program@[j]).gate
                    == program_gates(sel, row + 1)[j] by {
                    if j < old_program.len() {
                        assert(program@[j] == old_program[j]);
                    }
                }
                assert forall|j: int, p: int| 0 <= j < program@.len() && 0 <= p < program@[j].operands@.len()
                    implies #[trigger] program@[j].operands@[p] < al.memory@.len() by {
                    if j < old_program.len() {
                        assert(program@[j] == old_program[j]);
                        assert(old_program[j].operands@[p] < before.memory@.len());
                    } else {
                        assert(program@[j].operands@[p] == ins.operands@[p]);
                    }
                }
                assert(program_rows(sel, row + 1) == program_rows(sel, row as int).push(row as int));
                assert forall|j: int| 0 <= j < program@.len() implies arity((#[trigger] program@[j]).gate) > 0 by {
                    if j < old_program.len() {
                        assert(program@[j] == old_program[j]);
                    }
                }
                assert(program@.drop_last() =~= old_program);
                assert(flat(program@) == flat(old_program) + ins.operands@);
                lemma_first_use_concat(0, flat(old_program), ins.operands@);
                lemma_high_concat(0, flat(old_program), ins.operands@);
                assert forall|j: int, p: int| 0 <= j < program@.len() && 0 <= p < program@[j].operands@.len()
                    implies al.owners@[#[trigger] program@[j].operands@[p] as int]
                        == slot_cell(t, program@[j].gate, program_rows(sel, row + 1)[j], p) by {
                    if j < old_program.len() {
                        assert(program@[j] == old_program[j]);
                        assert(old_program[j].operands@[p] < before.memory@.len());
                        let x = old_program[j].operands@[p] as int;
                        assert(al.memory@[x] == before.memory@[x]);
                        assert(before.owners@[x]
                            == slot_cell(t, old_program[j].gate, program_rows(sel, row as int)[j], p));
                    } else {
                        assert(program@[j].operands@[p] == ins.operands@[p]);
                        assert(program_rows(sel, row + 1)[j] == row);
                        assert(al.owners@[ins.operands@[p] as int] == slot_cell(t, g, row as int, p));
                    }
                }
            }
        }
        proof {
            assert forall|x: Cell| #[trigger] used_cells(t, row + 1, 0).contains(x)
                <==> (if single(sel, row as int) { used_cells(t, row as int, arity(row_gate(sel, row as int)) as int) }
                    else { used_cells(t, row as int, 0) }).contains(x) by {
                if exists|r: int, p: int| 0 <= r < row + 1 && single(sel, r) && 0 <= p < arity(row_gate(sel, r))
                    && #[trigger] slot_cell(t, row_gate(sel, r), r, p) == x {
                    let (r, p) = choose|r: int, p: int| 0 <= r < row + 1 && single(sel, r) && 0 <= p < arity(row_gate(sel, r))
                        && #[trigger] slot_cell(t, row_gate(sel, r), r, p) == x;
                    if r < row {
                        assert(used_cells(t, row as int, 0).contains(x));
                    }
                }
                if single(sel, row as int) {
                    let g = row_gate(sel, row as int);
                    if exists|p: int| 0 <= p < arity(g) && #[trigger] slot_cell(t, g, row as int, p) == x {
                        let p = choose|p: int| 0 <= p < arity(g) && #[trigger] slot_cell(t, g, row as int, p) == x;
                        assert(used_cells(t, row + 1, 0).contains(x));
                    }
                }
            }
            if single(sel, row as int) {
                assert(used_cells(t, row + 1, 0) =~= used_cells(t, row as int, arity(row_gate(sel, row as int)) as int));
            } else {
                assert(used_cells(t, row + 1, 0) =~= used_cells(t, row as int, 0));
            }
            lemma_owners_distinct(&al, t, reps@);
            al.owners@.unique_seq_to_set();
            assert(used_cells(t, row + 1, 0).len() <= MEMORY_CAPACITY);
            assert(row_ok(t, row as int));
        }
        row += 1;
    }
    proof {
        assert forall|a: int, b: int| 0 <= a < b < al.owners@.len() implies
            #[trigger] al.owners@[a] != #[trigger] al.owners@[b] by {
            let ka = al.owner_index@[a] as int;
            let kb = al.owner_index@[b] as int;
            if ka < kb {
                assert(crate::types::cell_lt(reps@[ka], reps@[kb]));
            } else if kb < ka {
                assert(crate::types::cell_lt(reps@[kb], reps@[ka]));
            }
        }
    }
    let out = Lowered { program, memory: al.memory, owners: al.owners };
    proof {
        assert(out.program@.len() == single_rows(sel, n as int));
        assert(forall|j: int| 0 <= j < out.program@.len() ==> (#[trigger] out.program@[j]).gate == program_gates(sel, n as int)[j]);
        assert(out.memory@.len() <= MEMORY_CAPACITY);
        assert forall|a: int| 0 <= a < out.memory@.len() implies advice_at(t, #[trigger] out.owners@[a]) == Some(out.memory@[a]) by {
            let k = al.owner_index@[a];
        }
    }
    Ok(out)
}

} // verus!
