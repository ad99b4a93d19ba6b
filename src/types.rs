use vstd::prelude::*;
use crate::field::Felt;

verus! {

/// A cell of the permutation table: a permutation column and a row.
#[derive(Clone, Copy, Debug, PartialEq, Eq, Structural)]
pub struct Cell {
    pub column: usize,
    pub row: usize,
}

impl Cell {
    pub fn new(column: usize, row: usize) -> (r: Cell)
        ensures
            r.column == column,
            r.row == row,
    {
        Cell { column, row }
    }
}

/// Row-major order on cells: by row, then by column.
pub open spec fn cell_lt(a: Cell, b: Cell) -> bool {
    a.row < b.row || (a.row == b.row && a.column < b.column)
}

/// Each cell comes strictly before the next one in row-major order.
pub open spec fn strictly_sorted(s: Seq<Cell>) -> bool {
    forall|i: int, j: int| 0 <= i < j < s.len() ==> cell_lt(#[trigger] s[i], #[trigger] s[j])
}

/// The cell occurs somewhere in the permutation table.
pub open spec fn in_table(table: Seq<Vec<Cell>>, c: Cell) -> bool {
    exists|i: int, j: int| 0 <= i < table.len() && 0 <= j < table[i]@.len() && #[trigger] table[i]@[j] == c
}

/// Number of permutation columns: three advice, one fixed, one instance.
pub const PERMUTATION_COLUMNS: usize = 5;
/// Permutation columns `0..ADVICE_COLUMNS` are the advice columns.
pub const ADVICE_COLUMNS: usize = 3;
/// The permutation column of the fixed column.
pub const FIXED_COLUMN: usize = 3;
/// The permutation column of the instance column.
pub const INSTANCE_COLUMN: usize = 4;
/// Number of selector columns, one per gate.
pub const SELECTOR_COLUMNS: usize = 12;
/// Number of words in the machine's memory.
pub const MEMORY_CAPACITY: usize = 65536;

/// The evaluated constraint system. A value is `None` where its cell was not
/// assigned.
pub struct Tables {
    /// Advice values, `[column][row]`.
    pub advice: Vec<Vec<Option<Felt>>>,
    /// Values of the fixed column, by row.
    pub fixed: Vec<Option<Felt>>,
    /// Values of the instance column, by row.
    pub instance: Vec<Option<Felt>>,
    /// Copy constraints: `[column][row]` gives the cell that stands for the
    /// class of that cell.
    pub permutation: Vec<Vec<Cell>>,
    /// Selector activations, `[selector][row]`.
    pub selectors: Vec<Vec<bool>>,
}

/// Number of rows of the tables.
pub open spec fn rows(t: &Tables) -> int {
    if t.permutation@.len() > 0 { t.permutation@[0]@.len() as int } else { 0 }
}

/// The tables have the expected columns, all of one length.
pub open spec fn layout_ok(t: &Tables) -> bool {
    let n = rows(t);
    &&& t.permutation@.len() == PERMUTATION_COLUMNS
    &&& t.advice@.len() == ADVICE_COLUMNS
    &&& t.selectors@.len() == SELECTOR_COLUMNS
    &&& t.fixed@.len() == n
    &&& t.instance@.len() == n
    &&& forall|i: int| 0 <= i < t.permutation@.len() ==> (#[trigger] t.permutation@[i])@.len() == n
    &&& forall|i: int| 0 <= i < t.advice@.len() ==> (#[trigger] t.advice@[i])@.len() == n
    &&& forall|i: int| 0 <= i < t.selectors@.len() ==> (#[trigger] t.selectors@[i])@.len() == n
}

/// The advice value that a cell holds, where the cell is an assigned advice
/// cell.
pub open spec fn advice_at(t: &Tables, c: Cell) -> Option<Felt> {
    if c.column < t.advice@.len() && c.row < t.advice@[c.column as int]@.len() {
        t.advice@[c.column as int]@[c.row as int]
    } else {
        None
    }
}

/// The gates of the circuit, one per selector column, in column order.
#[derive(Clone, Copy, Debug, PartialEq, Eq, Structural)]
pub enum Gate {
    Add,
    Sub,
    Dot,
    Cumprod,
    Sum,
    Neg,
    Mult,
    IsZero,
    Identity,
    IsBool,
    Div128,
    Relu,
}

/// Which gate a selector column activates.
pub open spec fn gate_spec(selector: int) -> Gate {
    if selector == 0 { Gate::Add }
    else if selector == 1 { Gate::Sub }
    else if selector == 2 { Gate::Dot }
    else if selector == 3 { Gate::Cumprod }
    else if selector == 4 { Gate::Sum }
    else if selector == 5 { Gate::Neg }
    else if selector == 6 { Gate::Mult }
    else if selector == 7 { Gate::IsZero }
    else if selector == 8 { Gate::Identity }
    else if selector == 9 { Gate::IsBool }
    else if selector == 10 { Gate::Div128 }
    else { Gate::Relu }
}

/// Number of memory operands of a gate's instruction; zero for a gate with no
/// lowering.
pub open spec fn arity(g: Gate) -> nat {
    match g {
        Gate::Add | Gate::Mult => 3,
        Gate::Dot => 4,
        Gate::Div128 | Gate::Relu => 2,
        _ => 0,
    }
}

impl Gate {
    /// Which gate a selector column activates.
    pub fn from_selector(selector: usize) -> (g: Gate)
        requires
            selector < SELECTOR_COLUMNS,
        ensures
            g == gate_spec(selector as int),
    {
        if selector == 0 { Gate::Add }
        else if selector == 1 { Gate::Sub }
        else if selector == 2 { Gate::Dot }
        else if selector == 3 { Gate::Cumprod }
        else if selector == 4 { Gate::Sum }
        else if selector == 5 { Gate::Neg }
        else if selector == 6 { Gate::Mult }
        else if selector == 7 { Gate::IsZero }
        else if selector == 8 { Gate::Identity }
        else if selector == 9 { Gate::IsBool }
        else if selector == 10 { Gate::Div128 }
        else { Gate::Relu }
    }
}

/// Why a lowering failed.
#[derive(Clone, Copy, Debug, PartialEq, Eq, Structural)]
pub enum LowerError {
    /// The tables do not have the expected columns, or a cell lies outside
    /// them.
    LayoutMismatch,
    /// More than one selector is active on a row.
    ConflictingSelectors { row: usize },
    /// A representative is bound to a constant more than once.
    AmbiguousConstant,
    /// An advice cell that a gate reads holds no value.
    UnassignedAdvice,
    /// This gate has no lowering yet.
    Unimplemented(Gate),
    /// An operand is a constant where the instruction needs an address.
    UnsupportedOperand,
    /// More addresses are needed than the memory holds.
    CapacityOverflow,
}

/// A resolved operand slot.
#[derive(Clone, Copy)]
pub enum Operand {
    /// The class is bound to an instance or fixed value.
    Constant(Felt),
    /// The class lives in memory; `index` is its representative's index.
    Memory { rep: Cell, index: usize },
}

/// Checks the shape of the tables.
#[verifier::loop_isolation(false)]
pub fn check_layout(t: &Tables) -> (r: Result<(), LowerError>)
    ensures
        r is Ok <==> layout_ok(t),
        r is Err ==> r == Err::<(), LowerError>(LowerError::LayoutMismatch),
{
    if t.permutation.len() != PERMUTATION_COLUMNS || t.advice.len() != ADVICE_COLUMNS
        || t.selectors.len() != SELECTOR_COLUMNS {
        return Err(LowerError::LayoutMismatch);
    }
    let n = t.permutation[0].len();
    if t.fixed.len() != n || t.instance.len() != n {
        return Err(LowerError::LayoutMismatch);
    }
    let mut i: usize = 0;
    while i < PERMUTATION_COLUMNS
        invariant
            0 <= i <= PERMUTATION_COLUMNS,
            t.permutation@.len() == PERMUTATION_COLUMNS,
            n == rows(t),
            forall|k: int| 0 <= k < i ==> (#[trigger] t.permutation@[k])@.len() == n,
        decreases PERMUTATION_COLUMNS - i,
    {
        if t.permutation[i].len() != n {
            return Err(LowerError::LayoutMismatch);
        }
        i += 1;
    }
    let mut i: usize = 0;
    while i < ADVICE_COLUMNS
        invariant
            0 <= i <= ADVICE_COLUMNS,
            t.advice@.len() == ADVICE_COLUMNS,
            forall|k: int| 0 <= k < i ==> (#[trigger] t.advice@[k])@.len() == n,
        decreases ADVICE_COLUMNS - i,
    {
        if t.advice[i].len() != n {
            return Err(LowerError::LayoutMismatch);
        }
        i += 1;
    }
    let mut i: usize = 0;
    while i < SELECTOR_COLUMNS
        invariant
            0 <= i <= SELECTOR_COLUMNS,
            t.selectors@.len() == SELECTOR_COLUMNS,
            forall|k: int| 0 <= k < i ==> (#[trigger] t.selectors@[k])@.len() == n,
        decreases SELECTOR_COLUMNS - i,
    {
        if t.selectors[i].len() != n {
            return Err(LowerError::LayoutMismatch);
        }
        i += 1;
    }
    Ok(())
}

} // verus!
