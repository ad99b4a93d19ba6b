use vstd::prelude::*;
use crate::types::{Cell, cell_lt, in_table, strictly_sorted};

verus! {

/// Order of `(row, column)` keys as std orders tuples: lexicographically.
pub open spec fn key_le(a: (usize, usize), b: (usize, usize)) -> bool {
    a.0 < b.0 || (a.0 == b.0 && a.1 <= b.1)
}

/// Relies on `slice::sort`: the same keys afterwards, in ascending order of
/// std's lexicographic `Ord` for tuples.
#[verifier::external_body]
fn sort_keys(v: &mut Vec<(usize, usize)>)
    ensures
        final(v)@.to_multiset() == old(v)@.to_multiset(),
        forall|i: int, j: int| 0 <= i < j < final(v)@.len() ==> key_le(final(v)@[i], final(v)@[j]),
{
    v.sort();
}

/// The cell that a `(row, column)` key names.
pub open spec fn cell_of(k: (usize, usize)) -> Cell {
    Cell { column: k.1, row: k.0 }
}

/// `reps` is the resolution of `table`: every cell of the table once, in
/// row-major order. Its positions are the representatives' indices.
pub open spec fn resolved(table: Seq<Vec<Cell>>, reps: Seq<Cell>) -> bool {
    &&& strictly_sorted(reps)
    &&& forall|c: Cell| reps.contains(c) <==> in_table(table, c)
}

/// Lists every cell named in the permutation table once, ordered by row and
/// then by column.
pub fn resolve(table: &Vec<Vec<Cell>>) -> (reps: Vec<Cell>)
    ensures
        resolved(table@, reps@),
{
    let mut keys: Vec<(usize, usize)> = Vec::new();
    let mut i: usize = 0;
    while i < table.len()
        invariant
            0 <= i <= table.len(),
            forall|k: (usize, usize)| keys@.contains(k) <==>
                exists|a: int, b: int| 0 <= a < i && 0 <= b < table@[a]@.len()
                    && #[trigger] table@[a]@[b] == cell_of(k),
        decreases table.len() - i,
    {
        let col = &table[i];
        let mut j: usize = 0;
        while j < col.len()
            invariant
                0 <= i < table.len(),
                0 <= j <= col.len(),
                col@ == table@[i as int]@,
                forall|k: (usize, usize)| keys@.contains(k) <==>
                    (exists|a: int, b: int| 0 <= a < i && 0 <= b < table@[a]@.len()
                        && #[trigger] table@[a]@[b] == cell_of(k))
                    || (exists|b: int| 0 <= b < j && #[trigger] col@[b] == cell_of(k)),
            decreases col.len() - j,
        {
            let c = col[j];
            let ghost old_keys = keys@;
            keys.push((c.row, c.column));
            proof {
                assert forall|k: (usize, usize)| keys@.contains(k) <==>
                    (exists|a: int, b: int| 0 <= a < i && 0 <= b < table@[a]@.len()
                        && #[trigger] table@[a]@[b] == cell_of(k))
                    || (exists|b: int| 0 <= b < j + 1 && #[trigger] col@[b] == cell_of(k)) by {
                    if keys@.contains(k) {
                        let p = choose|p: int| 0 <= p < keys@.len() && keys@[p] == k;
                        if p == old_keys.len() {
                            assert(col@[j as int] == cell_of(k));
                        } else {
                            assert(old_keys.contains(k));
                        }
                    }
                    if exists|b: int| 0 <= b < j + 1 && #[trigger] col@[b] == cell_of(k) {
                        let b = choose|b: int| 0 <= b < j + 1 && #[trigger] col@[b] == cell_of(k);
                        if b == j {
                            assert(keys@[old_keys.len() as int] == k);
                        } else {
                            assert(old_keys.contains(k));
                            assert(keys@[old_keys.index_of(k)] == k);
                        }
                    }
                    if exists|a: int, b: int| 0 <= a < i && 0 <= b < table@[a]@.len()
                        && #[trigger] table@[a]@[b] == cell_of(k) {
                        assert(old_keys.contains(k));
                        assert(keys@[old_keys.index_of(k)] == k);
                    }
                }
            }
            j += 1;
        }
        proof {
            assert forall|k: (usize, usize)| keys@.contains(k) <==>
                exists|a: int, b: int| 0 <= a < i + 1 && 0 <= b < table@[a]@.len()
                    && #[trigger] table@[a]@[b] == cell_of(k) by {
                if exists|b: int| 0 <= b < col@.len() && #[trigger] col@[b] == cell_of(k) {
                    let b = choose|b: int| 0 <= b < col@.len() && #[trigger] col@[b] == cell_of(k);
                    assert(table@[i as int]@[b] == cell_of(k));
                }
                if exists|a: int, b: int| 0 <= a < i + 1 && 0 <= b < table@[a]@.len()
                    && #[trigger] table@[a]@[b] == cell_of(k) {
                    let (a, b) = choose|a: int, b: int| 0 <= a < i + 1 && 0 <= b < table@[a]@.len()
                        && #[trigger] table@[a]@[b] == cell_of(k);
                    if a == i {
                        assert(col@[b] == cell_of(k));
                    }
                }
            }
        }
        i += 1;
    }
    let ghost unsorted = keys@;
    sort_keys(&mut keys);
    proof {
        unsorted.to_multiset_ensures();
        keys@.to_multiset_ensures();
    }
    let mut reps: Vec<Cell> = Vec::new();
    let mut i: usize = 0;
    while i < keys.len()
        invariant
            0 <= i <= keys.len(),
            forall|a: int, b: int| 0 <= a < b < keys@.len() ==> key_le(keys@[a], keys@[b]),
            strictly_sorted(reps@),
            i == 0 ==> reps@.len() == 0,
            i > 0 ==> reps@.len() > 0 && reps@.last() == cell_of(keys@[i - 1]),
            forall|c: Cell| reps@.contains(c) <==>
                exists|p: int| 0 <= p < i && #[trigger] keys@[p] == (c.row, c.column),
        decreases keys.len() - i,
    {
        let k = keys[i];
        let c = Cell { column: k.1, row: k.0 };
        let ghost old_reps = reps@;
        if reps.len() == 0 || reps[reps.len() - 1] != c {
            reps.push(c);
            proof {
                if old_reps.len() > 0 {
                    assert(key_le(keys@[i - 1], keys@[i as int]));
                    assert(cell_lt(old_reps.last(), c));
                }
                assert forall|a: int, b: int| 0 <= a < b < reps@.len() implies cell_lt(#[trigger] reps@[a], #[trigger] reps@[b]) by {
                    if b == old_reps.len() && a < old_reps.len() - 1 {
                        assert(cell_lt(old_reps[a], old_reps.last()));
                    }
                }
                assert forall|c2: Cell| reps@.contains(c2) <==>
                    exists|p: int| 0 <= p < i + 1 && #[trigger] keys@[p] == (c2.row, c2.column) by {
                    if reps@.contains(c2) && c2 != c {
                        let q = choose|q: int| 0 <= q < reps@.len() && reps@[q] == c2;
                        assert(old_reps[q] == c2);
                        assert(old_reps.contains(c2));
                    }
                    if exists|p: int| 0 <= p < i + 1 && #[trigger] keys@[p] == (c2.row, c2.column) {
                        if c2 == c {
                            assert(reps@[old_reps.len() as int] == c2);
                        } else {
                            assert(old_reps.contains(c2));
                            assert(reps@[old_reps.index_of(c2)] == c2);
                        }
                    }
                }
            }
        } else {
            proof {
                assert forall|c2: Cell| reps@.contains(c2) <==>
                    exists|p: int| 0 <= p < i + 1 && #[trigger] keys@[p] == (c2.row, c2.column) by {
                    if c2 == c {
                        assert(reps@[reps@.len() - 1] == c2);
                        assert(keys@[i - 1] == (c2.row, c2.column));
                    }
                }
            }
        }
        i += 1;
    }
    proof {
        assert forall|c: Cell| reps@.contains(c) <==> in_table(table@, c) by {
            if in_table(table@, c) {
                let (a, b) = choose|a: int, b: int| 0 <= a < table@.len() && 0 <= b < table@[a]@.len()
                    && #[trigger] table@[a]@[b] == c;
                assert(table@[a]@[b] == cell_of((c.row, c.column)));
                assert(unsorted.contains((c.row, c.column)));
                assert(unsorted.to_multiset().count((c.row, c.column)) > 0);
                assert(keys@.contains((c.row, c.column)));
                let p = choose|p: int| 0 <= p < keys@.len() && keys@[p] == (c.row, c.column);
            }
            if reps@.contains(c) {
                let p = choose|p: int| 0 <= p < keys@.len() && #[trigger] keys@[p] == (c.row, c.column);
                assert(keys@.contains((c.row, c.column)));
                assert(keys@.to_multiset().count((c.row, c.column)) > 0);
                assert(unsorted.contains((c.row, c.column)));
                let q = choose|q: int| 0 <= q < unsorted.len() && unsorted[q] == (c.row, c.column);
                assert(exists|a: int, b: int| 0 <= a < table@.len() && 0 <= b < table@[a]@.len()
                    && #[trigger] table@[a]@[b] == cell_of(unsorted[q]));
                assert(cell_of(unsorted[q]) == c);
            }
        }
    }
    reps
}

/// Two row-major sorted lists without repeats that hold the same cells are
/// the same list.
proof fn lemma_sorted_unique(a: Seq<Cell>, b: Seq<Cell>)
    requires
        strictly_sorted(a),
        strictly_sorted(b),
        forall|c: Cell| a.contains(c) <==> b.contains(c),
    ensures
        a == b,
    decreases a.len(),
{
    if a.len() == 0 {
        if b.len() > 0 {
            assert(b.contains(b[0]));
        }
    } else {
        assert(a.contains(a[0]));
        assert(b.contains(a[0]));
        assert(b.contains(b[0]));
        assert(a.contains(b[0]));
        let j = choose|j: int| 0 <= j < b.len() && b[j] == a[0];
        let k = choose|k: int| 0 <= k < a.len() && a[k] == b[0];
        if j > 0 {
            assert(cell_lt(b[0], b[j]));
            if k > 0 {
                assert(cell_lt(a[0], a[k]));
            }
        }
        assert(a[0] == b[0]);
        let (ta, tb) = (a.drop_first(), b.drop_first());
        assert forall|c: Cell| ta.contains(c) <==> tb.contains(c) by {
            if ta.contains(c) {
                let p = choose|p: int| 0 <= p < ta.len() && ta[p] == c;
                assert(cell_lt(a[0], a[p + 1]));
                assert(b.contains(c));
                let q = choose|q: int| 0 <= q < b.len() && b[q] == c;
                assert(q != 0);
                assert(tb[q - 1] == c);
            }
            if tb.contains(c) {
                let p = choose|p: int| 0 <= p < tb.len() && tb[p] == c;
                assert(cell_lt(b[0], b[p + 1]));
                assert(a.contains(c));
                let q = choose|q: int| 0 <= q < a.len() && a[q] == c;
                assert(q != 0);
                assert(ta[q - 1] == c);
            }
        }
        lemma_sorted_unique(ta, tb);
        assert(a =~= seq![a[0]] + ta);
        assert(b =~= seq![b[0]] + tb);
    }
}

/// Resolution is a function of the table: any two resolutions of one table
/// are the same list, so every cell gets the same representative index.
pub proof fn law_resolution_deterministic(table: Seq<Vec<Cell>>, r1: Seq<Cell>, r2: Seq<Cell>)
    requires
        resolved(table, r1),
        resolved(table, r2),
    ensures
        r1 == r2,
{
    lemma_sorted_unique(r1, r2);
}

/// The index of a cell in a resolution, where it occurs.
pub fn rep_index(reps: &Vec<Cell>, c: Cell) -> (r: Option<usize>)
    requires
        strictly_sorted(reps@),
    ensures
        match r {
            Some(i) => i < reps@.len() && reps@[i as int] == c,
            None => !reps@.contains(c),
        },
{
    let mut lo: usize = 0;
    let mut hi: usize = reps.len();
    while lo < hi
        invariant
            0 <= lo <= hi <= reps@.len(),
            strictly_sorted(reps@),
            forall|p: int| 0 <= p < lo ==> cell_lt(#[trigger] reps@[p], c),
            forall|p: int| hi <= p < reps@.len() ==> cell_lt(c, #[trigger] reps@[p]),
        decreases hi - lo,
    {
        let mid = lo + (hi - lo) / 2;
        let m = reps[mid];
        if m == c {
            return Some(mid);
        } else if m.row < c.row || (m.row == c.row && m.column < c.column) {
            proof {
                assert forall|p: int| 0 <= p < mid + 1 implies cell_lt(#[trigger] reps@[p], c) by {
                    if p < mid {
                        assert(cell_lt(reps@[p], reps@[mid as int]));
                    }
                }
            }
            lo = mid + 1;
        } else {
            proof {
                assert forall|p: int| mid <= p < reps@.len() implies cell_lt(c, #[trigger] reps@[p]) by {
                    if p > mid {
                        assert(cell_lt(reps@[mid as int], reps@[p]));
                    }
                }
            }
            hi = mid;
        }
    }
    proof {
        if reps@.contains(c) {
            let p = choose|p: int| 0 <= p < reps@.len() && reps@[p] == c;
            if p < lo {
                assert(cell_lt(reps@[p], c));
            } else {
                assert(cell_lt(c, reps@[p]));
            }
        }
    }
    None
}

} // verus!
