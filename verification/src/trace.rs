//! The record of a program run, and how its memory accesses are regrouped.

use crate::field::P;
use vstd::prelude::*;

verus! {

/// The registers of one cycle that the RAM table reads: the clock, the
/// memory address and the memory value.
#[derive(Clone, Copy, Debug, PartialEq, Eq, Structural)]
pub struct ProcessorRow {
    /// The clock: the number of the cycle.
    pub clk: u64,
    /// The memory address.
    pub ramp: u64,
    /// The value in the memory at that address.
    pub ramv: u64,
}

impl ProcessorRow {
    /// Whether the three registers hold canonical field elements.
    pub open spec fn wf(self) -> bool {
        self.clk < P && self.ramp < P && self.ramv < P
    }
}

/// The record of a program run: one row of processor registers per cycle,
/// and the rows that the hash coprocessor recorded.
#[derive(Clone, Debug)]
pub struct AlgebraicExecutionTrace {
    pub processor_matrix: Vec<ProcessorRow>,
    pub hash_matrix: Vec<Vec<u64>>,
}

impl Default for AlgebraicExecutionTrace {
    /// The record of a run that has not begun: no row of either kind.
    fn default() -> (aet: AlgebraicExecutionTrace)
        ensures
            aet.processor_matrix@ == Seq::<ProcessorRow>::empty(),
            aet.hash_matrix@ == Seq::<Vec<u64>>::empty(),
    {
        AlgebraicExecutionTrace { processor_matrix: Vec::new(), hash_matrix: Vec::new() }
    }
}

/// Whether every row of a trace holds canonical field elements.
pub open spec fn trace_wf(trace: Seq<ProcessorRow>) -> bool {
    forall|i: int| 0 <= i < trace.len() ==> (#[trigger] trace[i]).wf()
}

/// The distinct addresses of a trace, in the order of their first access.
pub open spec fn addresses(trace: Seq<ProcessorRow>) -> Seq<u64>
    decreases trace.len(),
{
    if trace.len() == 0 {
        Seq::empty()
    } else {
        let earlier = addresses(trace.drop_last());
        if earlier.contains(trace.last().ramp) {
            earlier
        } else {
            earlier.push(trace.last().ramp)
        }
    }
}

/// The rows of a trace that access `address`, in the order of the trace.
pub open spec fn block(trace: Seq<ProcessorRow>, address: u64) -> Seq<ProcessorRow>
    decreases trace.len(),
{
    if trace.len() == 0 {
        Seq::empty()
    } else if trace.last().ramp == address {
        block(trace.drop_last(), address).push(trace.last())
    } else {
        block(trace.drop_last(), address)
    }
}

/// The blocks of the given addresses, one after the other.
pub open spec fn blocks(trace: Seq<ProcessorRow>, addrs: Seq<u64>) -> Seq<ProcessorRow>
    decreases addrs.len(),
{
    if addrs.len() == 0 {
        Seq::empty()
    } else {
        blocks(trace, addrs.drop_last()) + block(trace, addrs.last())
    }
}

/// The rows of a trace regrouped by address: the block of each distinct
/// address, in the order in which the addresses were first accessed.
pub open spec fn layout(trace: Seq<ProcessorRow>) -> Seq<ProcessorRow> {
    blocks(trace, addresses(trace))
}

/// Whether no value occurs twice in `s`.
pub open spec fn distinct(s: Seq<u64>) -> bool {
    forall|i: int, j: int| 0 <= i < j < s.len() ==> s[i] != s[j]
}

/// The addresses of a trace are pairwise distinct, and they are exactly the
/// addresses that the trace accesses.
pub proof fn lemma_addresses(trace: Seq<ProcessorRow>)
    ensures
        distinct(addresses(trace)),
        addresses(trace).len() <= trace.len(),
        forall|i: int| 0 <= i < trace.len() ==> addresses(trace).contains(#[trigger] trace[i].ramp),
        forall|j: int|
            0 <= j < addresses(trace).len() ==> exists|i: int|
                0 <= i < trace.len() && trace[i].ramp == #[trigger] addresses(trace)[j],
    decreases trace.len(),
{
    if trace.len() > 0 {
        let shorter = trace.drop_last();
        lemma_addresses(shorter);
        let earlier = addresses(shorter);
        let now = addresses(trace);
        assert forall|i: int| 0 <= i < trace.len() implies now.contains(#[trigger] trace[i].ramp) by {
            if i < shorter.len() {
                assert(shorter[i] == trace[i]);
                let k = choose|k: int| 0 <= k < earlier.len() && earlier[k] == shorter[i].ramp;
                assert(now[k] == trace[i].ramp);
            } else {
                if earlier.contains(trace.last().ramp) {
                } else {
                    assert(now[earlier.len() as int] == trace[i].ramp);
                }
            }
        }
        assert forall|j: int| 0 <= j < now.len() implies exists|i: int|
            0 <= i < trace.len() && trace[i].ramp == #[trigger] now[j] by {
            if j < earlier.len() {
                let i = choose|i: int| 0 <= i < shorter.len() && shorter[i].ramp == earlier[j];
                assert(trace[i].ramp == now[j]);
            } else {
                assert(trace[trace.len() - 1].ramp == now[j]);
            }
        }
    }
}

/// Every row of a block is a row of the trace at the block's address.
pub proof fn lemma_block_rows(trace: Seq<ProcessorRow>, address: u64)
    ensures
        block(trace, address).len() <= trace.len(),
        forall|k: int|
            0 <= k < block(trace, address).len() ==> (#[trigger] block(trace, address)[k]).ramp
                == address && trace.contains(block(trace, address)[k]),
        !addresses(trace).contains(address) ==> block(trace, address).len() == 0,
    decreases trace.len(),
{
    if trace.len() > 0 {
        let shorter = trace.drop_last();
        lemma_block_rows(shorter, address);
        lemma_addresses(trace);
        let b = block(trace, address);
        assert forall|k: int| 0 <= k < b.len() implies (#[trigger] b[k]).ramp == address
            && trace.contains(b[k]) by {
            if k < block(shorter, address).len() {
                let i = choose|i: int| 0 <= i < shorter.len() && shorter[i] == b[k];
                assert(trace[i] == b[k]);
            } else {
                assert(trace[trace.len() - 1] == b[k]);
            }
        }
        if !addresses(trace).contains(address) {
            assert(addresses(trace).contains(trace[trace.len() - 1].ramp));
            if addresses(shorter).contains(address) {
                let k = choose|k: int|
                    0 <= k < addresses(shorter).len() && addresses(shorter)[k] == address;
                assert(addresses(trace)[k] == address);
            }
        }
    }
}

/// Every row of a run of blocks sits at one of the given addresses.
pub proof fn lemma_blocks_rows(trace: Seq<ProcessorRow>, addrs: Seq<u64>)
    ensures
        forall|k: int|
            0 <= k < blocks(trace, addrs).len() ==> addrs.contains(
                (#[trigger] blocks(trace, addrs)[k]).ramp,
            ),
    decreases addrs.len(),
{
    if addrs.len() > 0 {
        let front = addrs.drop_last();
        lemma_blocks_rows(trace, front);
        lemma_block_rows(trace, addrs.last());
        let all = blocks(trace, addrs);
        assert forall|k: int| 0 <= k < all.len() implies addrs.contains((#[trigger] all[k]).ramp) by {
            if k < blocks(trace, front).len() {
                let j = choose|j: int| 0 <= j < front.len() && front[j] == all[k].ramp;
                assert(addrs[j] == all[k].ramp);
            } else {
                assert(all[k] == block(trace, addrs.last())[k - blocks(trace, front).len()]);
                assert(addrs[addrs.len() - 1] == all[k].ramp);
            }
        }
    }
}

/// Appending a row to the trace adds that row to the blocks of any distinct
/// addresses among which its own address is found, and to no others.
pub proof fn lemma_blocks_push(trace: Seq<ProcessorRow>, row: ProcessorRow, addrs: Seq<u64>)
    requires
        distinct(addrs),
    ensures
        blocks(trace.push(row), addrs).to_multiset() =~= if addrs.contains(row.ramp) {
            blocks(trace, addrs).to_multiset().insert(row)
        } else {
            blocks(trace, addrs).to_multiset()
        },
    decreases addrs.len(),
{
    broadcast use vstd::seq_lib::lemma_multiset_commutative, vstd::seq_lib::to_multiset_build;

    let longer = trace.push(row);
    if addrs.len() > 0 {
        let front = addrs.drop_last();
        let a = addrs.last();
        lemma_blocks_push(trace, row, front);
        assert(longer.drop_last() =~= trace);
        if front.contains(row.ramp) {
            let j = choose|j: int| 0 <= j < front.len() && front[j] == row.ramp;
            assert(addrs[j] == row.ramp);
            assert(a != row.ramp);
        } else if a == row.ramp {
            assert(addrs[addrs.len() - 1] == row.ramp);
        } else {
            if addrs.contains(row.ramp) {
                let j = choose|j: int| 0 <= j < addrs.len() && addrs[j] == row.ramp;
                assert(front[j] == row.ramp);
            }
        }
    }
}

/// The regrouped rows are a rearrangement of the trace: every row of the
/// trace occurs among them as often as it occurs in the trace, and the two
/// have the same length.
pub proof fn lemma_layout_is_permutation(trace: Seq<ProcessorRow>)
    ensures
        layout(trace).to_multiset() =~= trace.to_multiset(),
        layout(trace).len() == trace.len(),
    decreases trace.len(),
{
    broadcast use
        vstd::seq_lib::lemma_multiset_commutative,
        vstd::seq_lib::to_multiset_build,
        vstd::seq_lib::to_multiset_len,
    ;

    if trace.len() == 0 {
        assert(layout(trace) =~= Seq::empty());
        assert(trace =~= Seq::empty());
    } else {
        let shorter = trace.drop_last();
        let row = trace.last();
        assert(trace == shorter.push(row)) by {
            assert(trace =~= shorter.push(row));
        }
        lemma_layout_is_permutation(shorter);
        lemma_addresses(shorter);
        let earlier = addresses(shorter);
        lemma_blocks_push(shorter, row, earlier);
        assert(shorter.push(row).to_multiset() =~= shorter.to_multiset().insert(row));
        if earlier.contains(row.ramp) {
            assert(addresses(trace) == earlier);
            assert(layout(trace) == blocks(shorter.push(row), earlier));
            assert(layout(trace).to_multiset() =~= trace.to_multiset());
        } else {
            let now = earlier.push(row.ramp);
            assert(addresses(trace) == now);
            assert(now.drop_last() =~= earlier);
            lemma_block_rows(shorter, row.ramp);
            assert(block(shorter, row.ramp) =~= Seq::empty());
            let single = Seq::<ProcessorRow>::empty().push(row);
            assert(block(trace, row.ramp) =~= single);
            assert(layout(trace) == blocks(trace, earlier).push(row)) by {
                assert(blocks(trace, earlier) + single =~= blocks(trace, earlier).push(row));
            }
            assert(blocks(trace, earlier).push(row).to_multiset() =~= blocks(
                trace,
                earlier,
            ).to_multiset().insert(row));
            assert(layout(trace).to_multiset() =~= trace.to_multiset());
        }
        assert(layout(trace).to_multiset() =~= trace.to_multiset());
        assert(layout(trace).to_multiset().len() == trace.to_multiset().len());
    }
}

/// Whether equal addresses are never separated by another address.
pub open spec fn contiguous(rows: Seq<ProcessorRow>) -> bool {
    forall|i: int, j: int, k: int|
        0 <= i <= j <= k < rows.len() && rows[i].ramp == rows[k].ramp ==> rows[j].ramp
            == rows[i].ramp
}

/// The blocks of distinct addresses, one after the other, never return to an
/// address that they have left.
pub proof fn lemma_blocks_contiguous(trace: Seq<ProcessorRow>, addrs: Seq<u64>)
    requires
        distinct(addrs),
    ensures
        contiguous(blocks(trace, addrs)),
    decreases addrs.len(),
{
    if addrs.len() > 0 {
        let front = addrs.drop_last();
        let a = addrs.last();
        lemma_blocks_contiguous(trace, front);
        lemma_blocks_rows(trace, front);
        lemma_block_rows(trace, a);
        let head = blocks(trace, front);
        let all = blocks(trace, addrs);
        assert forall|i: int, j: int, k: int|
            0 <= i <= j <= k < all.len() && all[i].ramp == all[k].ramp implies all[j].ramp
            == all[i].ramp by {
            if k < head.len() {
                assert(head[i] == all[i] && head[j] == all[j] && head[k] == all[k]);
            } else if i >= head.len() {
                assert(all[i] == block(trace, a)[i - head.len()]);
                assert(all[j] == block(trace, a)[j - head.len()]);
            } else {
                assert(head[i] == all[i]);
                assert(all[k] == block(trace, a)[k - head.len()]);
                let m = choose|m: int| 0 <= m < front.len() && front[m] == head[i].ramp;
                assert(addrs[m] == addrs[addrs.len() - 1]);
            }
        }
    }
}

/// In the regrouped rows every address forms exactly one contiguous block.
pub proof fn lemma_layout_is_contiguous(trace: Seq<ProcessorRow>)
    ensures
        contiguous(layout(trace)),
{
    lemma_addresses(trace);
    lemma_blocks_contiguous(trace, addresses(trace));
}

/// The first address of a trace is the address of its first row.
pub proof fn lemma_first_address(trace: Seq<ProcessorRow>)
    requires
        trace.len() > 0,
    ensures
        addresses(trace).len() > 0,
        addresses(trace)[0] == trace[0].ramp,
    decreases trace.len(),
{
    let shorter = trace.drop_last();
    if trace.len() > 1 {
        lemma_first_address(shorter);
        assert(shorter[0] == trace[0]);
    } else {
        assert(addresses(shorter).len() == 0);
        assert(addresses(trace) == addresses(shorter).push(trace[0].ramp));
    }
}

/// The block of the address of the first row starts with the first row.
pub proof fn lemma_first_of_block(trace: Seq<ProcessorRow>)
    requires
        trace.len() > 0,
    ensures
        block(trace, trace[0].ramp).len() > 0,
        block(trace, trace[0].ramp)[0] == trace[0],
    decreases trace.len(),
{
    let shorter = trace.drop_last();
    if trace.len() > 1 {
        lemma_first_of_block(shorter);
        assert(shorter[0] == trace[0]);
    } else {
        assert(block(shorter, trace[0].ramp).len() == 0);
        assert(block(trace, trace[0].ramp) == block(shorter, trace[0].ramp).push(trace[0]));
    }
}

/// A run of blocks starts with the first row of its first block.
pub proof fn lemma_first_of_blocks(trace: Seq<ProcessorRow>, addrs: Seq<u64>)
    requires
        addrs.len() > 0,
        block(trace, addrs[0]).len() > 0,
    ensures
        blocks(trace, addrs).len() > 0,
        blocks(trace, addrs)[0] == block(trace, addrs[0])[0],
    decreases addrs.len(),
{
    if addrs.len() > 1 {
        lemma_first_of_blocks(trace, addrs.drop_last());
    } else {
        assert(blocks(trace, addrs.drop_last()) =~= Seq::<ProcessorRow>::empty());
    }
}

/// An address that a row of the trace accesses has a block with a row in
/// it.
pub proof fn lemma_block_is_not_empty(trace: Seq<ProcessorRow>, address: u64, i: int)
    requires
        0 <= i < trace.len(),
        trace[i].ramp == address,
    ensures
        block(trace, address).len() > 0,
    decreases trace.len(),
{
    if i < trace.len() - 1 {
        lemma_block_is_not_empty(trace.drop_last(), address, i);
    }
}

/// Every regrouped row is a row of the trace, at an address of the trace.
pub proof fn lemma_layout_rows(trace: Seq<ProcessorRow>)
    ensures
        forall|k: int|
            0 <= k < layout(trace).len() ==> trace.contains(#[trigger] layout(trace)[k])
                && addresses(trace).contains(layout(trace)[k].ramp),
        trace_wf(trace) ==> trace_wf(layout(trace)),
{
    broadcast use vstd::seq_lib::to_multiset_contains;

    lemma_layout_is_permutation(trace);
    lemma_blocks_rows(trace, addresses(trace));
    let laid = layout(trace);
    assert forall|k: int| 0 <= k < laid.len() implies trace.contains(#[trigger] laid[k]) by {
        assert(laid.contains(laid[k]));
        assert(laid.to_multiset().count(laid[k]) > 0);
        assert(trace.to_multiset().count(laid[k]) > 0);
    }
    if trace_wf(trace) {
        assert forall|k: int| 0 <= k < laid.len() implies (#[trigger] laid[k]).wf() by {
            let i = choose|i: int| 0 <= i < trace.len() && trace[i] == laid[k];
            assert(trace[i].wf());
        }
    }
}

/// The distinct addresses of a trace, in the order of their first access.
pub fn distinct_addresses(trace: &Vec<ProcessorRow>) -> (addrs: Vec<u64>)
    ensures
        addrs@ == addresses(trace@),
        addrs.len() <= trace.len(),
        trace_wf(trace@) ==> forall|j: int| 0 <= j < addrs.len() ==> #[trigger] addrs@[j] < P,
{
    let mut addrs: Vec<u64> = Vec::new();
    let mut i: usize = 0;
    while i < trace.len()
        invariant
            i <= trace.len(),
            addrs@ == addresses(trace@.take(i as int)),
        decreases trace.len() - i,
    {
        let address = trace[i].ramp;
        let known = holds(&addrs, address);
        proof {
            assert(trace@.take(i + 1).drop_last() =~= trace@.take(i as int));
        }
        if !known {
            addrs.push(address);
        }
        i += 1;
    }
    proof {
        assert(trace@.take(trace.len() as int) =~= trace@);
        lemma_addresses(trace@);
        if trace_wf(trace@) {
            assert forall|j: int| 0 <= j < addrs.len() implies #[trigger] addrs@[j] < P by {
                let i = choose|i: int| 0 <= i < trace.len() && trace@[i].ramp == addrs@[j];
                assert(trace@[i].wf());
            }
        }
    }
    addrs
}

/// Whether `value` occurs in `values`.
pub fn holds(values: &Vec<u64>, value: u64) -> (found: bool)
    ensures
        found == values@.contains(value),
{
    let mut i: usize = 0;
    while i < values.len()
        invariant
            i <= values.len(),
            forall|k: int| 0 <= k < i ==> values@[k] != value,
        decreases values.len() - i,
    {
        if values[i] == value {
            return true;
        }
        i += 1;
    }
    false
}

} // verus!
