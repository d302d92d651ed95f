//! The RAM table: its rows, how it is filled from a trace, and how it is
//! padded to the height that the proof system asks for.

use crate::bezout::{
    bezout_coefficients, bezout_columns, bezout_fault_of, bezout_identity_of,
    bezout_is_canonical, canonical_coefficients, RamTableError,
};
use crate::field::{
    b_sub, bfe_inverse_or_zero, bfe_sub, canonical, is_inverse_or_zero, reduce, P,
};
use crate::trace::{
    addresses, block, blocks, distinct, distinct_addresses, layout, lemma_addresses,
    lemma_layout_is_permutation, lemma_layout_rows, trace_wf, AlgebraicExecutionTrace,
    ProcessorRow,
};
use vstd::prelude::*;

verus! {

/// One row of the RAM table.
#[derive(Clone, Copy, Debug, PartialEq, Eq, Structural)]
pub struct RamRow {
    /// The clock cycle of the access.
    pub clk: u64,
    /// The memory address that is accessed.
    pub ramp: u64,
    /// The value at that address.
    pub ramv: u64,
    /// The inverse of the difference between the next row's address and
    /// this one, or zero where the two are the same.
    pub iord: u64,
    /// A coefficient of the first Bézout coefficient polynomial.
    pub bcpc0: u64,
    /// A coefficient of the second Bézout coefficient polynomial.
    pub bcpc1: u64,
    /// The inverse of the difference between the next row's clock and this
    /// one, less one, or zero where the clock advances by exactly one.
    pub clk_di: u64,
}

impl RamRow {
    /// Whether all seven columns hold canonical field elements.
    pub open spec fn wf(self) -> bool {
        &&& self.clk < P
        &&& self.ramp < P
        &&& self.ramv < P
        &&& self.iord < P
        &&& self.bcpc0 < P
        &&& self.bcpc1 < P
        &&& self.clk_di < P
    }

    /// The access that the row records.
    pub open spec fn access(self) -> ProcessorRow {
        ProcessorRow { clk: self.clk, ramp: self.ramp, ramv: self.ramv }
    }

    /// The row with every column zero.
    pub open spec fn zero_row() -> RamRow {
        RamRow { clk: 0, ramp: 0, ramv: 0, iord: 0, bcpc0: 0, bcpc1: 0, clk_di: 0 }
    }

    /// The row with every column zero.
    pub fn zero() -> (r: RamRow)
        ensures
            r == RamRow::zero_row(),
            r.wf(),
    {
        RamRow { clk: 0, ramp: 0, ramv: 0, iord: 0, bcpc0: 0, bcpc1: 0, clk_di: 0 }
    }
}

/// Whether every row of a table holds canonical field elements.
pub open spec fn rows_wf(rows: Seq<RamRow>) -> bool {
    forall|i: int| 0 <= i < rows.len() ==> (#[trigger] rows[i]).wf()
}

/// The place of `address` among the distinct addresses `addrs`.
pub open spec fn address_index(addrs: Seq<u64>, address: u64) -> int {
    addrs.index_of(address)
}

/// The entry of a Bézout coefficient column that belongs to `address`: the
/// entries are handed out from the last one down, in the order of the
/// addresses.
pub open spec fn entry_for(column: Seq<u64>, addrs: Seq<u64>, address: u64) -> u64 {
    column[addrs.len() - 1 - address_index(addrs, address)]
}

/// The table row of an access before its two inverse columns are set.
pub open spec fn bare_row(
    access: ProcessorRow,
    addrs: Seq<u64>,
    columns: (Seq<u64>, Seq<u64>),
) -> RamRow {
    RamRow {
        clk: access.clk,
        ramp: access.ramp,
        ramv: access.ramv,
        iord: 0,
        bcpc0: entry_for(columns.0, addrs, access.ramp),
        bcpc1: entry_for(columns.1, addrs, access.ramp),
        clk_di: 0,
    }
}

/// The clock differences above one between neighbouring rows at the same
/// address, in the order of the rows.
pub open spec fn clock_jumps(rows: Seq<ProcessorRow>) -> Seq<u64>
    decreases rows.len(),
{
    if rows.len() < 2 {
        Seq::empty()
    } else {
        let earlier = clock_jumps(rows.drop_last());
        let current = rows[rows.len() - 2];
        let next = rows[rows.len() - 1];
        if current.ramp == next.ramp && b_sub(next.clk, current.clk) > 1 {
            earlier.push(b_sub(next.clk, current.clk))
        } else {
            earlier
        }
    }
}

/// Whether `row` is the filled row of the access `current`: it records the
/// access and its address's pair of Bézout entries, and its two inverse
/// columns fit the access `next` that follows it. The last row has no
/// successor and keeps the inverse columns of `before`.
pub open spec fn is_filled_row(
    row: RamRow,
    current: ProcessorRow,
    next: Option<ProcessorRow>,
    before: RamRow,
    addrs: Seq<u64>,
    columns: (Seq<u64>, Seq<u64>),
) -> bool {
    &&& row.access() == current
    &&& row.bcpc0 == entry_for(columns.0, addrs, current.ramp)
    &&& row.bcpc1 == entry_for(columns.1, addrs, current.ramp)
    &&& match next {
        Some(next) => {
            &&& is_inverse_or_zero(b_sub(next.ramp, current.ramp), row.iord)
            &&& is_inverse_or_zero(b_sub(b_sub(next.clk, current.clk), 1), row.clk_di)
        },
        None => row.iord == before.iord && row.clk_di == before.clk_di,
    }
}

/// The access that follows the `i`-th of `rows`, if there is one.
pub open spec fn successor(rows: Seq<ProcessorRow>, i: int) -> Option<ProcessorRow> {
    if i + 1 < rows.len() {
        Some(rows[i + 1])
    } else {
        None
    }
}

/// Whether the table `after` is the table `before` filled from `trace`: its
/// first rows are the filled rows of the regrouped trace, and the rows
/// beyond the length of the trace are untouched.
pub open spec fn is_filled(trace: Seq<ProcessorRow>, before: Seq<RamRow>, after: Seq<RamRow>) -> bool {
    &&& after.len() == before.len()
    &&& trace.len() <= after.len()
    &&& forall|i: int| trace.len() <= i < after.len() ==> after[i] == before[i]
    &&& forall|i: int|
        0 <= i < trace.len() ==> is_filled_row(
            #[trigger] after[i],
            layout(trace)[i],
            successor(layout(trace), i),
            before[i],
            addresses(trace),
            bezout_columns(addresses(trace)),
        )
}

/// Whether the `r`-th row is the first of the first `n` rows whose clock is
/// the last clock cycle of a trace of `n` cycles.
pub open spec fn is_max_clock_row(rows: Seq<RamRow>, n: int, r: int) -> bool {
    &&& 0 <= r < n
    &&& rows[r].clk == n - 1
    &&& forall|i: int| 0 <= i < r ==> (#[trigger] rows[i]).clk != n - 1
}

/// Whether one of the first `n` rows holds the last clock cycle of a trace
/// of `n` cycles.
pub open spec fn has_max_clock_row(rows: Seq<RamRow>, n: int) -> bool {
    exists|r: int| is_max_clock_row(rows, n, r)
}

/// The first of the first `n` rows that holds the last clock cycle.
pub open spec fn max_clock_row(rows: Seq<RamRow>, n: int) -> int {
    choose|r: int| is_max_clock_row(rows, n, r)
}

/// The `i`-th row of the table `before` once it is padded.
///
/// The table holds `n` real rows, the `r`-th of which holds the last clock
/// cycle. The rows up to that one stay. The real rows after it move to the
/// end of the table. The gap is filled with copies of the `r`-th row whose
/// clocks count on from `n`. The rows from the `r`-th to the last of the
/// gap have both inverse columns at zero, but for the last of them where
/// real rows follow it: that row keeps the address inverse of the `r`-th
/// row, and its clock inverse is `patch`.
pub open spec fn padded_row(before: Seq<RamRow>, n: int, r: int, i: int, patch: u64) -> RamRow {
    let gap = before.len() - n;
    let template = RamRow { iord: 0, clk_di: 0, ..before[r] };
    if i < r {
        before[i]
    } else if i > r + gap {
        before[i - gap]
    } else {
        let copy = if i == r {
            template
        } else {
            RamRow { clk: reduce(n + i - r - 1), ..template }
        };
        if i == r + gap && r + 1 < n {
            RamRow { iord: before[r].iord, clk_di: patch, ..copy }
        } else {
            copy
        }
    }
}

/// Whether the table `after` is the table `before` padded: `before` holds
/// `n` real rows, the `r`-th of which holds the last clock cycle. Where real
/// rows are moved to the end, the clock inverse of the row before them
/// relates the last clock of the padding to the clock of the first of them.
pub open spec fn is_padded(before: Seq<RamRow>, n: int, r: int, after: Seq<RamRow>) -> bool {
    let end = r + before.len() - n;
    &&& after.len() == before.len()
    &&& r + 1 < n ==> is_inverse_or_zero(
        b_sub(b_sub(before[r + 1].clk, reduce(before.len() - 1)), 1),
        after[end].clk_di,
    )
    &&& forall|i: int|
        0 <= i < after.len() ==> #[trigger] after[i] == padded_row(
            before,
            n,
            r,
            i,
            after[end].clk_di,
        )
}

/// The RAM table, one row per cycle and padding row.
#[derive(Clone, Debug)]
pub struct RamTable {
    pub rows: Vec<RamRow>,
}

/// In a sequence of distinct values, each value is found at its own place.
pub proof fn lemma_index_of_distinct(addrs: Seq<u64>, j: int)
    requires
        distinct(addrs),
        0 <= j < addrs.len(),
    ensures
        address_index(addrs, addrs[j]) == j,
{
    let i = addrs.index_of(addrs[j]);
    assert(0 <= i < addrs.len() && addrs[i] == addrs[j]);
    if i < j {
        assert(addrs[i] != addrs[j]);
    } else if j < i {
        assert(addrs[j] != addrs[i]);
    }
}

/// The regrouped rows that are complete once the blocks of the first `j`
/// addresses and the first `i` rows of the trace for the next address are
/// laid out.
pub open spec fn partial_layout(
    trace: Seq<ProcessorRow>,
    addrs: Seq<u64>,
    j: int,
    i: int,
) -> Seq<ProcessorRow> {
    blocks(trace, addrs.take(j)) + block(trace.take(i), addrs[j])
}

/// Regroups the trace by the given addresses and gives every row the pair
/// of Bézout entries of its address. The inverse columns are left at zero.
pub fn lay_out(trace: &Vec<ProcessorRow>, addrs: &Vec<u64>, c0: &Vec<u64>, c1: &Vec<u64>) -> (rows:
    Vec<RamRow>)
    requires
        distinct(addrs@),
        c0.len() == addrs.len(),
        c1.len() == addrs.len(),
    ensures
        rows.len() == blocks(trace@, addrs@).len(),
        forall|k: int|
            0 <= k < rows.len() ==> #[trigger] rows@[k] == bare_row(
                blocks(trace@, addrs@)[k],
                addrs@,
                (c0@, c1@),
            ),
{
    let mut rows: Vec<RamRow> = Vec::new();
    let mut j: usize = 0;
    assert(addrs@.take(0) =~= Seq::empty());
    while j < addrs.len()
        invariant
            j <= addrs.len(),
            distinct(addrs@),
            c0.len() == addrs.len(),
            c1.len() == addrs.len(),
            rows.len() == blocks(trace@, addrs@.take(j as int)).len(),
            forall|k: int|
                0 <= k < rows.len() ==> #[trigger] rows@[k] == bare_row(
                    blocks(trace@, addrs@.take(j as int))[k],
                    addrs@,
                    (c0@, c1@),
                ),
        decreases addrs.len() - j,
    {
        let address = addrs[j];
        let entry0 = c0[addrs.len() - 1 - j];
        let entry1 = c1[addrs.len() - 1 - j];
        proof {
            lemma_index_of_distinct(addrs@, j as int);
            assert(trace@.take(0) =~= Seq::empty());
            assert(partial_layout(trace@, addrs@, j as int, 0) =~= blocks(
                trace@,
                addrs@.take(j as int),
            ));
        }
        let mut i: usize = 0;
        while i < trace.len()
            invariant
                i <= trace.len(),
                j < addrs.len(),
                address == addrs@[j as int],
                address_index(addrs@, address) == j,
                entry0 == entry_for(c0@, addrs@, address),
                entry1 == entry_for(c1@, addrs@, address),
                rows.len() == partial_layout(trace@, addrs@, j as int, i as int).len(),
                forall|k: int|
                    0 <= k < rows.len() ==> #[trigger] rows@[k] == bare_row(
                        partial_layout(trace@, addrs@, j as int, i as int)[k],
                        addrs@,
                        (c0@, c1@),
                    ),
            decreases trace.len() - i,
        {
            let access = trace[i];
            proof {
                assert(trace@.take(i + 1).drop_last() =~= trace@.take(i as int));
                if access.ramp == address {
                    assert(partial_layout(trace@, addrs@, j as int, i + 1) =~= partial_layout(
                        trace@,
                        addrs@,
                        j as int,
                        i as int,
                    ).push(access));
                } else {
                    assert(partial_layout(trace@, addrs@, j as int, i + 1) =~= partial_layout(
                        trace@,
                        addrs@,
                        j as int,
                        i as int,
                    ));
                }
            }
            if access.ramp == address {
                rows.push(
                    RamRow {
                        clk: access.clk,
                        ramp: access.ramp,
                        ramv: access.ramv,
                        iord: 0,
                        bcpc0: entry0,
                        bcpc1: entry1,
                        clk_di: 0,
                    },
                );
            }
            i += 1;
        }
        proof {
            assert(trace@.take(trace.len() as int) =~= trace@);
            assert(addrs@.take(j + 1).drop_last() =~= addrs@.take(j as int));
            assert(partial_layout(trace@, addrs@, j as int, trace.len() as int) =~= blocks(
                trace@,
                addrs@.take(j + 1),
            ));
        }
        j += 1;
    }
    proof {
        assert(addrs@.take(addrs.len() as int) =~= addrs@);
    }
    rows
}

impl RamTable {
    /// A table of `height` rows, every column zero.
    pub fn new(height: usize) -> (table: RamTable)
        ensures
            table.rows.len() == height,
            forall|i: int| 0 <= i < height ==> #[trigger] table.rows@[i] == RamRow::zero_row(),
            rows_wf(table.rows@),
    {
        let mut rows: Vec<RamRow> = Vec::new();
        let mut i: usize = 0;
        while i < height
            invariant
                i <= height,
                rows.len() == i,
                forall|k: int| 0 <= k < i ==> #[trigger] rows@[k] == RamRow::zero_row(),
            decreases height - i,
        {
            rows.push(RamRow::zero());
            i += 1;
        }
        RamTable { rows }
    }

    /// Fills the first rows of the table from the trace and returns the
    /// clock jump differences greater than one, in the order of the rows.
    ///
    /// The accesses are regrouped by address; every row gets the pair of
    /// Bézout entries of its address; every row but the last gets the two
    /// inverses that relate it to the row after it. The rows beyond the
    /// length of the trace are left alone. Where the Bézout coefficients of
    /// the addresses are at fault, the table is left as it was.
    pub fn fill_trace(ram_table: &mut RamTable, aet: &AlgebraicExecutionTrace) -> (r: Result<
        Vec<u64>,
        RamTableError,
    >)
        requires
            trace_wf(aet.processor_matrix@),
            0 < aet.processor_matrix.len() <= old(ram_table).rows.len(),
            aet.processor_matrix.len() < usize::MAX - 1,
        ensures
            match r {
                Ok(jumps) => {
                    &&& bezout_fault_of(addresses(aet.processor_matrix@)) is None
                    &&& is_filled(
                        aet.processor_matrix@,
                        old(ram_table).rows@,
                        final(ram_table).rows@,
                    )
                    &&& jumps@ == clock_jumps(layout(aet.processor_matrix@))
                },
                Err(e) => {
                    &&& bezout_fault_of(addresses(aet.processor_matrix@)) == Some(e)
                    &&& final(ram_table).rows@ == old(ram_table).rows@
                },
            },
            rows_wf(old(ram_table).rows@) ==> rows_wf(final(ram_table).rows@),
            bezout_identity_of(addresses(aet.processor_matrix@)),
            bezout_is_canonical(addresses(aet.processor_matrix@)),
            canonical_coefficients(addresses(aet.processor_matrix@)),
    {
        let trace = &aet.processor_matrix;
        let n = trace.len();
        let addrs = distinct_addresses(trace);
        proof {
            lemma_addresses(trace@);
            lemma_layout_is_permutation(trace@);
            lemma_layout_rows(trace@);
        }
        let (c0, c1) = match bezout_coefficients(&addrs) {
            Ok(pair) => pair,
            Err(e) => {
                return Err(e);
            },
        };
        let mut rows = lay_out(trace, &addrs, &c0, &c1);
        let ghost laid = layout(trace@);
        let ghost columns = (c0@, c1@);
        let untouched = ram_table.rows[n - 1];
        let last = rows[n - 1];
        rows.set(n - 1, RamRow { iord: untouched.iord, clk_di: untouched.clk_di, ..last });
        let mut jumps: Vec<u64> = Vec::new();
        let mut i: usize = 0;
        assert(laid.take(1).len() == 1);
        while i < n - 1
            invariant
                0 < n == rows.len(),
                n == laid.len(),
                i <= n - 1,
                trace_wf(laid),
                forall|k: int|
                    0 <= k < n ==> {
                        &&& (#[trigger] rows@[k]).access() == laid[k]
                        &&& rows@[k].bcpc0 == entry_for(columns.0, addrs@, laid[k].ramp)
                        &&& rows@[k].bcpc1 == entry_for(columns.1, addrs@, laid[k].ramp)
                    },
                forall|k: int|
                    0 <= k < i ==> {
                        &&& is_inverse_or_zero(
                            b_sub(laid[k + 1].ramp, laid[k].ramp),
                            (#[trigger] rows@[k]).iord,
                        )
                        &&& is_inverse_or_zero(
                            b_sub(b_sub(laid[k + 1].clk, laid[k].clk), 1),
                            rows@[k].clk_di,
                        )
                    },
                rows@[n - 1].iord == untouched.iord,
                rows@[n - 1].clk_di == untouched.clk_di,
                jumps@ == clock_jumps(laid.take(i + 1)),
            decreases n - 1 - i,
        {
            let current = rows[i];
            let next = rows[i + 1];
            proof {
                assert(rows@[i as int].access() == laid[i as int]);
                assert(rows@[i + 1].access() == laid[i + 1]);
                assert(laid[i as int].wf() && laid[i + 1].wf());
                assert(laid.take(i + 2).drop_last() =~= laid.take(i + 1));
            }
            let clk_diff = bfe_sub(next.clk, current.clk);
            let clk_di = bfe_inverse_or_zero(bfe_sub(clk_diff, 1));
            let iord = bfe_inverse_or_zero(bfe_sub(next.ramp, current.ramp));
            rows.set(i, RamRow { iord, clk_di, ..current });
            if current.ramp == next.ramp && clk_diff > 1 {
                jumps.push(clk_diff);
            }
            i += 1;
        }
        proof {
            assert(laid.take(n as int) =~= laid);
        }
        let mut k: usize = 0;
        while k < n
            invariant
                k <= n == rows.len(),
                n <= ram_table.rows.len(),
                ram_table.rows.len() == old(ram_table).rows.len(),
                forall|m: int| 0 <= m < k ==> #[trigger] ram_table.rows@[m] == rows@[m],
                forall|m: int|
                    k <= m < ram_table.rows.len() ==> #[trigger] ram_table.rows@[m] == old(
                        ram_table,
                    ).rows@[m],
            decreases n - k,
        {
            let row = rows[k];
            ram_table.rows.set(k, row);
            k += 1;
        }
        proof {
            let after = ram_table.rows@;
            let before = old(ram_table).rows@;
            assert forall|m: int| 0 <= m < n implies is_filled_row(
                #[trigger] after[m],
                laid[m],
                successor(laid, m),
                before[m],
                addresses(trace@),
                bezout_columns(addresses(trace@)),
            ) by {
                assert(after[m] == rows@[m]);
            }
            if rows_wf(before) {
                assert forall|m: int| 0 <= m < after.len() implies (#[trigger] after[m]).wf() by {
                    if m < n {
                        assert(after[m] == rows@[m]);
                        assert(laid[m].wf());
                        lemma_entry_canonical(c0@, addrs@, laid[m].ramp);
                        lemma_entry_canonical(c1@, addrs@, laid[m].ramp);
                        if m == n - 1 {
                            assert(before[m].wf());
                        }
                    } else {
                        assert(before[m].wf());
                    }
                }
            }
        }
        Ok(jumps)
    }

    /// The first of the first `processor_table_len` rows that holds the
    /// last clock cycle, if one of them does.
    pub fn find_max_clock_row(&self, processor_table_len: usize) -> (found: Option<usize>)
        requires
            0 < processor_table_len <= self.rows.len(),
        ensures
            match found {
                Some(r) => {
                    &&& has_max_clock_row(self.rows@, processor_table_len as int)
                    &&& r == max_clock_row(self.rows@, processor_table_len as int)
                    &&& is_max_clock_row(self.rows@, processor_table_len as int, r as int)
                },
                None => !has_max_clock_row(self.rows@, processor_table_len as int),
            },
    {
        let n = processor_table_len;
        let ghost rows = self.rows@;
        let mut r: usize = 0;
        while r < n && self.rows[r].clk != (n - 1) as u64
            invariant
                r <= n <= self.rows.len(),
                forall|i: int| 0 <= i < r ==> (#[trigger] self.rows@[i]).clk != n - 1,
            decreases n - r,
        {
            r += 1;
        }
        if r == n {
            proof {
                if has_max_clock_row(rows, n as int) {
                    let x = choose|x: int| is_max_clock_row(rows, n as int, x);
                    assert(rows[x].clk != n - 1);
                }
            }
            return None;
        }
        proof {
            assert(is_max_clock_row(rows, n as int, r as int));
            let x = max_clock_row(rows, n as int);
            assert(is_max_clock_row(rows, n as int, x));
            if x < r {
                assert(rows[x].clk != n - 1);
            } else if r < x {
                assert(rows[r as int].clk != n - 1);
            }
        }
        Some(r)
    }

    /// Pads the table, whose first `processor_table_len` rows are filled,
    /// to its full height. One of the filled rows must hold the last clock
    /// cycle.
    ///
    /// The real rows after the row with the last clock cycle move to the
    /// end of the table; the gap is filled with copies of that row whose
    /// clocks keep increasing by one.
    pub fn pad_trace(ram_table: &mut RamTable, processor_table_len: usize)
        requires
            0 < processor_table_len <= old(ram_table).rows.len(),
            rows_wf(old(ram_table).rows@),
            has_max_clock_row(old(ram_table).rows@, processor_table_len as int),
        ensures
            is_padded(
                old(ram_table).rows@,
                processor_table_len as int,
                max_clock_row(old(ram_table).rows@, processor_table_len as int),
                final(ram_table).rows@,
            ),
            rows_wf(final(ram_table).rows@),
    {
        let n = processor_table_len;
        let height = ram_table.rows.len();
        let gap = height - n;
        let ghost before = ram_table.rows@;
        let r = ram_table.find_max_clock_row(n).unwrap();
        let last_real = ram_table.rows[r];
        assert(last_real.wf());
        let patch: u64 = if r + 1 < n {
            let first_moved = ram_table.rows[r + 1];
            assert(first_moved.wf());
            let last_clock = canonical((height - 1) as u64);
            bfe_inverse_or_zero(bfe_sub(bfe_sub(first_moved.clk, last_clock), 1))
        } else {
            0
        };
        let mut rows: Vec<RamRow> = Vec::new();
        let mut i: usize = 0;
        while i < height
            invariant
                i <= height,
                r < n <= height,
                gap == height - n,
                height == before.len(),
                ram_table.rows@ == before,
                rows_wf(before),
                last_real == before[r as int],
                patch < P,
                rows.len() == i,
                rows_wf(rows@),
                forall|k: int|
                    0 <= k < i ==> #[trigger] rows@[k] == padded_row(
                        before,
                        n as int,
                        r as int,
                        k,
                        patch,
                    ),
            decreases height - i,
        {
            let row = if i < r {
                ram_table.rows[i]
            } else if i - r > gap {
                ram_table.rows[i - gap]
            } else {
                let clk: u64 = if i == r {
                    last_real.clk
                } else {
                    canonical((n + (i - r - 1)) as u64)
                };
                if i - r == gap && r + 1 < n {
                    RamRow { clk, clk_di: patch, ..last_real }
                } else {
                    RamRow { clk, iord: 0, clk_di: 0, ..last_real }
                }
            };
            proof {
                assert(before[i as int].wf());
                if i - r > gap {
                    assert(before[i - gap].wf());
                }
            }
            rows.push(row);
            i += 1;
        }
        ram_table.rows = rows;
    }
}

/// The Bézout entry of an address among the addresses is an entry of the
/// column, and canonical where the column is.
pub proof fn lemma_entry_canonical(column: Seq<u64>, addrs: Seq<u64>, address: u64)
    requires
        canonical_coefficients(column),
        column.len() == addrs.len(),
        addrs.contains(address),
    ensures
        entry_for(column, addrs, address) < P,
{
    let j = addrs.index_of(address);
    assert(0 <= j < addrs.len());
    assert(column[addrs.len() - 1 - j] < P);
}

} // verus!
