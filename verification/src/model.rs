//! Whole-session reasoning against a model target.
//!
//! `ModelTarget` is the programmer's view of a cooperating part: reset
//! extension entered, NVMCTRL always ready, and a flash array that retains
//! block writes and returns them on block reads.  `run_from` runs a
//! session to completion against this model.  The theorems at the bottom
//! show that a whole `program` session succeeds and establishes every
//! planned row in flash — each row erased and written exactly where the
//! plan says — and that a whole `verify` session over that flash succeeds
//! with no mismatch.

use vstd::prelude::*;

use crate::ErrorKind;
use crate::sam::{
    erased_flash, first_diff_from, next, park_complete, plan_ordered, plan_wf, row_addr,
    chunk_plan_wf, lemma_first_diff_equal, ActionV, ChunkPlanV, EventV, MState, OpKind, BCCD1_BIT,
    CMD_CHIPERASE, CMD_INIT, CRSTEXT_BIT, DSU_BCC0_ADDR, DSU_BCC1_ADDR, DSU_STATUSA_ADDR,
    NVMCTRL_STATUS_ADDR, NVMCTRL_STATUS_READY, ROW_SIZE, SIG_CMD_SUCCESS, SIG_CMD_VALID, SIG_COMM,
};

verus! {

/// The state a cooperating target exposes to the programmer: its flash
/// and the Boot ROM command channel.  The DSU and NVMCTRL answer as a
/// healthy part in reset extension does: `CRSTEXT` set, no Boot ROM
/// diagnostics posted, flash controller always ready; commands written to
/// `BCC0` are answered on `BCC1`, and a chip erase completes after one
/// in-progress poll.
#[verifier::ext_equal]
pub struct ModelTarget {
    pub flash: Seq<u8>,
    /// The response word the next `BCC1` read returns.
    pub bcc1: u32,
    /// A chip erase is in progress: the next `BCC1` read still sees
    /// `SIG_CMD_VALID`, the one after `SIG_CMD_SUCCESS`.
    pub erase_pending: bool,
}

/// `f` with `bytes` written at `addr`.
pub open spec fn write_bytes(f: Seq<u8>, addr: int, bytes: Seq<u8>) -> Seq<u8> {
    Seq::new(
        f.len(),
        |i: int|
            if addr <= i < addr + bytes.len() {
                bytes[i - addr]
            } else {
                f[i]
            },
    )
}

/// The event the model target answers an action with.
pub open spec fn model_event(m: ModelTarget, a: ActionV) -> EventV {
    match a {
        ActionV::ReadByte { addr } => EventV::Byte(
            if addr == DSU_STATUSA_ADDR {
                CRSTEXT_BIT
            } else if addr == NVMCTRL_STATUS_ADDR {
                NVMCTRL_STATUS_READY
            } else {
                0
            },
        ),
        ActionV::ReadWord { addr } => EventV::Word(
            if addr == DSU_BCC1_ADDR {
                m.bcc1
            } else {
                0
            },
        ),
        ActionV::ReadBlock { addr, len } => EventV::Blob(
            m.flash.subrange(addr as int, addr + len),
        ),
        _ => EventV::Ack,
    }
}

/// How an action changes the model target: block writes land in flash,
/// Boot ROM commands set up the `BCC1` response, the chip erase blanks
/// the flash, and a `BCC1` read lets a pending erase complete.  The row
/// erase needs no separate modeling because every row write covers its
/// full row.
pub open spec fn model_apply(m: ModelTarget, a: ActionV) -> ModelTarget {
    match a {
        ActionV::WriteBlock { addr, bytes } => ModelTarget {
            flash: write_bytes(m.flash, addr as int, bytes),
            ..m
        },
        ActionV::WriteWord { addr, value } => {
            if addr == DSU_BCC0_ADDR {
                if value == CMD_INIT {
                    ModelTarget { bcc1: SIG_COMM, erase_pending: false, ..m }
                } else if value == CMD_CHIPERASE {
                    ModelTarget {
                        flash: erased_flash(m.flash.len()),
                        bcc1: SIG_CMD_VALID,
                        erase_pending: true,
                    }
                } else {
                    m
                }
            } else {
                m
            }
        },
        ActionV::ReadWord { addr } => {
            if addr == DSU_BCC1_ADDR && m.erase_pending {
                ModelTarget { bcc1: SIG_CMD_SUCCESS, erase_pending: false, ..m }
            } else {
                m
            }
        },
        _ => m,
    }
}

/// Run a session from state `s` holding event `ev`, answering every
/// action from the model, for at most `fuel` steps.  `None` means the
/// fuel ran out before the session finished.
pub open spec fn run_from(
    op: OpKind,
    plan: Seq<ChunkPlanV>,
    s: MState,
    ev: EventV,
    m: ModelTarget,
    fuel: nat,
) -> Option<(MState, ModelTarget, Result<(), ErrorKind>)>
    decreases fuel,
{
    if fuel == 0 {
        None
    } else {
        let (s2, a) = next(op, plan, s, ev);
        match a {
            ActionV::Finish { result } => Some((s2, m, result)),
            _ => run_from(op, plan, s2, model_event(m, a), model_apply(m, a), (fuel - 1) as nat),
        }
    }
}

/// Run a whole session from its start.
pub open spec fn run_session(op: OpKind, plan: Seq<ChunkPlanV>, m: ModelTarget, fuel: nat) -> Option<
    (MState, ModelTarget, Result<(), ErrorKind>),
> {
    run_from(op, plan, MState::Start, EventV::Start, m, fuel)
}

/// Steps enough to program all chunks from `c` on: four per row plus the
/// write-enable step of each chunk.
pub open spec fn chunks_fuel(plan: Seq<ChunkPlanV>, c: int) -> int
    decreases plan.len() - c,
{
    if c < 0 || c >= plan.len() {
        0
    } else {
        4 * plan[c].rows.len() + 1 + chunks_fuel(plan, c + 1)
    }
}

/// Steps enough to program the rows from `(ci, ri)` on.
pub open spec fn rows_fuel(plan: Seq<ChunkPlanV>, ci: int, ri: int) -> int {
    4 * (plan[ci].rows.len() - ri) + chunks_fuel(plan, ci + 1)
}

/// The number of rows from chunk `c` on.
pub open spec fn sum_rows_from(plan: Seq<ChunkPlanV>, c: int) -> int
    decreases plan.len() - c,
{
    if c < 0 || c >= plan.len() {
        0
    } else {
        plan[c].rows.len() + sum_rows_from(plan, c + 1)
    }
}

/// Position `pos` lies in the row span of some row at or after `(ci, ri)`
/// in session order.
pub open spec fn in_span_from(plan: Seq<ChunkPlanV>, ci: int, ri: int, pos: int) -> bool {
    exists|c: int, r: int|
        0 <= c < plan.len() && 0 <= r < plan[c].rows.len() && (c > ci || (c == ci && r >= ri)) && (
        #[trigger] row_addr(plan, c, r)) <= pos < row_addr(plan, c, r) + 256
}

/// The flash holds row `r` of chunk `c` at its row address.
pub open spec fn flash_holds_row(f: Seq<u8>, plan: Seq<ChunkPlanV>, c: int, r: int) -> bool {
    forall|j: int| 0 <= j < 256 ==> f[row_addr(plan, c, r) + j] == #[trigger] plan[c].rows[r][j]
}

/// The flash holds every row at or after `(ci, ri)` in session order.
pub open spec fn flash_holds_from(f: Seq<u8>, plan: Seq<ChunkPlanV>, ci: int, ri: int) -> bool {
    forall|c: int, r: int|
        0 <= c < plan.len() && 0 <= r < plan[c].rows.len() && (c > ci || (c == ci && r >= ri))
            ==> #[trigger] flash_holds_row(f, plan, c, r)
}

/// The flash holds the whole plan.
pub open spec fn flash_holds_plan(f: Seq<u8>, plan: Seq<ChunkPlanV>) -> bool {
    plan.len() == 0 || flash_holds_from(f, plan, 0, 0)
}

/// One non-final step of the run unfolds to the run from the successor.
proof fn lemma_run_step(
    op: OpKind,
    plan: Seq<ChunkPlanV>,
    s: MState,
    ev: EventV,
    m: ModelTarget,
    fuel: nat,
)
    requires
        fuel > 0,
        !(next(op, plan, s, ev).1 is Finish),
    ensures
        run_from(op, plan, s, ev, m, fuel) == run_from(
            op,
            plan,
            next(op, plan, s, ev).0,
            model_event(m, next(op, plan, s, ev).1),
            model_apply(m, next(op, plan, s, ev).1),
            (fuel - 1) as nat,
        ),
{
}

/// The row address is its exact arithmetic value and the row fits in the
/// 32-bit address space.
proof fn lemma_row_addr_val(plan: Seq<ChunkPlanV>, c: int, r: int)
    requires
        plan_wf(plan),
        0 <= c < plan.len(),
        0 <= r < plan[c].rows.len(),
    ensures
        row_addr(plan, c, r) == plan[c].address + r * 256,
        plan[c].address + r * 256 + 256 <= 0x1_0000_0000,
{
    assert(chunk_plan_wf(plan[c]));
    assert(plan[c].address + #[trigger] (r * 256) + 256 <= 0x1_0000_0000);
}

/// In an ordered plan every earlier chunk's rows end before a later chunk
/// starts.
proof fn lemma_chunk_rows_end_before(plan: Seq<ChunkPlanV>, c1: int, c2: int)
    requires
        plan_wf(plan),
        plan_ordered(plan),
        0 <= c1 < c2 < plan.len(),
    ensures
        plan[c1].address + plan[c1].rows.len() * 256 <= plan[c2].address,
    decreases c2 - c1,
{
    assert(plan[c1].address + plan[c1].rows.len() * 256 <= plan[(c1) + 1].address);
    if c1 + 1 < c2 {
        lemma_chunk_rows_end_before(plan, c1 + 1, c2);
    }
}

/// Row spans in session order are disjoint: an earlier row ends at or
/// before a later row starts.
proof fn lemma_spans_disjoint(plan: Seq<ChunkPlanV>, c1: int, r1: int, c2: int, r2: int)
    requires
        plan_wf(plan),
        plan_ordered(plan),
        0 <= c1 < plan.len(),
        0 <= r1 < plan[c1].rows.len(),
        0 <= c2 < plan.len(),
        0 <= r2 < plan[c2].rows.len(),
        c1 < c2 || (c1 == c2 && r1 < r2),
    ensures
        row_addr(plan, c1, r1) + 256 <= row_addr(plan, c2, r2),
{
    lemma_row_addr_val(plan, c1, r1);
    lemma_row_addr_val(plan, c2, r2);
    if c1 == c2 {
        assert(r1 * 256 + 256 <= r2 * 256) by (nonlinear_arith)
            requires
                r1 + 1 <= r2,
        ;
    } else {
        lemma_chunk_rows_end_before(plan, c1, c2);
        assert(r1 * 256 + 256 <= plan[c1].rows.len() * 256) by (nonlinear_arith)
            requires
                r1 + 1 <= plan[c1].rows.len(),
        ;
        assert(r2 * 256 >= 0) by (nonlinear_arith)
            requires
                r2 >= 0,
        ;
    }
}

proof fn lemma_chunks_fuel_nonneg(plan: Seq<ChunkPlanV>, c: int)
    ensures
        chunks_fuel(plan, c) >= 0,
    decreases plan.len() - c,
{
    if 0 <= c < plan.len() {
        lemma_chunks_fuel_nonneg(plan, c + 1);
    }
}

/// Composition step of the programming induction: if the flash after the
/// rest of the run holds every row strictly after `(ci, ri)` and leaves
/// the rest of the just-written flash alone, then it holds every row from
/// `(ci, ri)` on and leaves everything outside those spans alone.
proof fn lemma_compose_row(
    plan: Seq<ChunkPlanV>,
    ci: int,
    ri: int,
    nci: int,
    nri: int,
    m: ModelTarget,
    m3: ModelTarget,
    mfin: ModelTarget,
)
    requires
        plan_wf(plan),
        plan_ordered(plan),
        0 <= ci < plan.len(),
        0 <= ri < plan[ci].rows.len(),
        0 <= nci < plan.len(),
        0 <= nri < plan[nci].rows.len(),
        // The next position is either the next row of the same chunk or
        // the first row of the next chunk after the last row of this one.
        (nci == ci && nri == ri + 1 && ri + 1 < plan[ci].rows.len()) || (nci == ci + 1 && nri == 0
            && ri == plan[ci].rows.len() - 1),
        m.flash.len() == 0x1_0000_0000,
        m3.flash == write_bytes(m.flash, row_addr(plan, ci, ri) as int, plan[ci].rows[ri]),
        mfin.flash.len() == m3.flash.len(),
        flash_holds_from(mfin.flash, plan, nci, nri),
        forall|p: int|
            0 <= p < m3.flash.len() && !in_span_from(plan, nci, nri, p) ==> mfin.flash[p]
                == m3.flash[p],
    ensures
        mfin.flash.len() == m.flash.len(),
        flash_holds_from(mfin.flash, plan, ci, ri),
        forall|p: int|
            0 <= p < m.flash.len() && !in_span_from(plan, ci, ri, p) ==> mfin.flash[p]
                == m.flash[p],
{
    lemma_row_addr_val(plan, ci, ri);
    assert(chunk_plan_wf(plan[ci]));
    let base = row_addr(plan, ci, ri) as int;
    let bytes = plan[ci].rows[ri];
    assert(bytes.len() == 256);

    // The just-written row is outside every remaining span, so the rest of
    // the run does not disturb it.
    assert forall|j: int| 0 <= j < 256 implies mfin.flash[base + j] == bytes[j] by {
        let pos = base + j;
        if in_span_from(plan, nci, nri, pos) {
            let (c2, r2) = choose|c2: int, r2: int|
                0 <= c2 < plan.len() && 0 <= r2 < plan[c2].rows.len() && (c2 > nci || (c2 == nci
                    && r2 >= nri)) && (#[trigger] row_addr(plan, c2, r2)) <= pos < row_addr(
                    plan,
                    c2,
                    r2,
                ) + 256;
            if nci == ci {
                assert(c2 > ci || (c2 == ci && r2 > ri));
            } else {
                assert(c2 > ci);
            }
            lemma_spans_disjoint(plan, ci, ri, c2, r2);
            assert(false);
        }
        assert(mfin.flash[pos] == m3.flash[pos]);
        assert(m3.flash[pos] == bytes[j]);
    }
    assert(flash_holds_row(mfin.flash, plan, ci, ri));

    assert forall|c: int, r: int|
        0 <= c < plan.len() && 0 <= r < plan[c].rows.len() && (c > ci || (c == ci && r
            >= ri)) implies #[trigger] flash_holds_row(mfin.flash, plan, c, r) by {
        if c == ci && r == ri {
        } else {
            if nci == ci {
                assert(c > nci || (c == nci && r >= nri));
            } else {
                assert(c > ci);
                assert(c > nci || (c == nci && r >= nri));
            }
            assert(flash_holds_row(mfin.flash, plan, c, r));
        }
    }

    assert forall|p: int|
        0 <= p < m.flash.len() && !in_span_from(plan, ci, ri, p) implies mfin.flash[p]
        == m.flash[p] by {
        // Outside the spans from (ci, ri) means outside the spans from the
        // next position, and outside the just-written row.
        if in_span_from(plan, nci, nri, p) {
            let (c2, r2) = choose|c2: int, r2: int|
                0 <= c2 < plan.len() && 0 <= r2 < plan[c2].rows.len() && (c2 > nci || (c2 == nci
                    && r2 >= nri)) && (#[trigger] row_addr(plan, c2, r2)) <= p < row_addr(
                    plan,
                    c2,
                    r2,
                ) + 256;
            if nci == ci {
                assert(c2 > ci || (c2 == ci && r2 >= ri));
            } else {
                assert(c2 > ci);
            }
            assert(in_span_from(plan, ci, ri, p));
        }
        assert(mfin.flash[p] == m3.flash[p]);
        if base <= p < base + 256 {
            assert(in_span_from(plan, ci, ri, p));
        }
        assert(m3.flash[p] == m.flash[p]);
    }
}

/// The final row of the plan: writing it establishes it, and nothing
/// outside its span changes.
proof fn lemma_final_row(plan: Seq<ChunkPlanV>, ci: int, ri: int, m: ModelTarget, m3: ModelTarget)
    requires
        plan_wf(plan),
        plan_ordered(plan),
        0 <= ci < plan.len(),
        0 <= ri < plan[ci].rows.len(),
        ci == plan.len() - 1,
        ri == plan[ci].rows.len() - 1,
        m.flash.len() == 0x1_0000_0000,
        m3.flash == write_bytes(m.flash, row_addr(plan, ci, ri) as int, plan[ci].rows[ri]),
    ensures
        m3.flash.len() == m.flash.len(),
        flash_holds_from(m3.flash, plan, ci, ri),
        forall|p: int|
            0 <= p < m.flash.len() && !in_span_from(plan, ci, ri, p) ==> m3.flash[p]
                == m.flash[p],
{
    lemma_row_addr_val(plan, ci, ri);
    assert(chunk_plan_wf(plan[ci]));
    let base = row_addr(plan, ci, ri) as int;
    let bytes = plan[ci].rows[ri];
    assert(bytes.len() == 256);
    assert forall|c: int, r: int|
        0 <= c < plan.len() && 0 <= r < plan[c].rows.len() && (c > ci || (c == ci && r
            >= ri)) implies #[trigger] flash_holds_row(m3.flash, plan, c, r) by {
        assert(c == ci && r == ri);
        assert forall|j: int| 0 <= j < 256 implies m3.flash[base + j] == #[trigger] bytes[j] by {
            assert(m3.flash[base + j] == bytes[j]);
        }
    }
    assert forall|p: int|
        0 <= p < m.flash.len() && !in_span_from(plan, ci, ri, p) implies m3.flash[p]
        == m.flash[p] by {
        if base <= p < base + 256 {
            assert(in_span_from(plan, ci, ri, p));
        }
    }
}

/// Running the `program` session from the `ADDR` write of row `(ci, ri)`
/// erases and writes that row and every later one in plan order, then
/// finishes successfully.  Flash outside the remaining row spans is
/// untouched.
proof fn lemma_program_rows(plan: Seq<ChunkPlanV>, ci: usize, ri: usize, m: ModelTarget, fuel: nat)
    requires
        plan_wf(plan),
        plan_ordered(plan),
        plan.len() <= usize::MAX,
        m.flash.len() == 0x1_0000_0000,
        (ci as int) < plan.len(),
        (ri as int) < plan[ci as int].rows.len(),
        fuel >= rows_fuel(plan, ci as int, ri as int),
    ensures
        ({
            let r = run_from(
                OpKind::Program,
                plan,
                MState::AddrSent { ci, ri },
                EventV::Ack,
                m,
                fuel,
            );
            &&& r is Some
            &&& r->Some_0.0 is Done
            &&& r->Some_0.2 == Ok::<(), ErrorKind>(())
            &&& r->Some_0.1.flash.len() == m.flash.len()
            &&& flash_holds_from(r->Some_0.1.flash, plan, ci as int, ri as int)
            &&& forall|p: int|
                0 <= p < m.flash.len() && !in_span_from(plan, ci as int, ri as int, p)
                    ==> r->Some_0.1.flash[p] == m.flash[p]
        }),
    decreases plan.len() - ci, plan[ci as int].rows.len() - ri,
{
    let cii = ci as int;
    let rii = ri as int;
    lemma_chunks_fuel_nonneg(plan, cii + 1);
    assert(chunk_plan_wf(plan[cii]));

    let s0 = MState::AddrSent { ci, ri };
    let step0 = next(OpKind::Program, plan, s0, EventV::Ack);
    lemma_run_step(OpKind::Program, plan, s0, EventV::Ack, m, fuel);
    let s1 = step0.0;
    assert(model_apply(m, step0.1) == m);
    assert(model_event(m, step0.1) == EventV::Ack);

    let step1 = next(OpKind::Program, plan, s1, EventV::Ack);
    lemma_run_step(OpKind::Program, plan, s1, EventV::Ack, m, (fuel - 1) as nat);
    let s2 = step1.0;
    assert(model_apply(m, step1.1) == m);
    let ev2 = model_event(m, step1.1);
    assert(ev2 == EventV::Byte(NVMCTRL_STATUS_READY));

    assert(NVMCTRL_STATUS_READY & NVMCTRL_STATUS_READY != 0) by (bit_vector);
    let step2 = next(OpKind::Program, plan, s2, ev2);
    lemma_run_step(OpKind::Program, plan, s2, ev2, m, (fuel - 2) as nat);
    let s3 = step2.0;
    let a3 = step2.1;
    assert(a3 == (ActionV::WriteBlock {
        addr: row_addr(plan, cii, rii),
        bytes: plan[cii].rows[rii],
    }));
    let m3 = model_apply(m, a3);
    assert(m3.flash == write_bytes(m.flash, row_addr(plan, cii, rii) as int, plan[cii].rows[rii]));
    assert(m3.flash.len() == m.flash.len());
    assert(model_event(m, a3) == EventV::Ack);

    let step3 = next(OpKind::Program, plan, s3, EventV::Ack);

    if rii + 1 < plan[cii].rows.len() {
        assert(step3.0 == MState::AddrSent { ci, ri: (ri + 1) as usize });
        lemma_run_step(OpKind::Program, plan, s3, EventV::Ack, m3, (fuel - 3) as nat);
        assert(model_apply(m3, step3.1) == m3);
        assert(model_event(m3, step3.1) == EventV::Ack);
        lemma_program_rows(plan, ci, (ri + 1) as usize, m3, (fuel - 4) as nat);
        let r = run_from(
            OpKind::Program,
            plan,
            MState::AddrSent { ci, ri: (ri + 1) as usize },
            EventV::Ack,
            m3,
            (fuel - 4) as nat,
        );
        lemma_compose_row(plan, cii, rii, cii, rii + 1, m, m3, r->Some_0.1);
    } else if cii + 1 < plan.len() {
        lemma_chunks_fuel_nonneg(plan, cii + 2);
        assert(chunk_plan_wf(plan[cii + 1]));
        assert(plan[cii + 1].rows.len() >= 1);
        assert(rows_fuel(plan, cii, rii) == 4 + chunks_fuel(plan, cii + 1));
        assert(chunks_fuel(plan, cii + 1) == 4 * plan[cii + 1].rows.len() + 1 + chunks_fuel(
            plan,
            cii + 2,
        ));
        assert(fuel >= 9);
        assert(fuel - 5 >= rows_fuel(plan, cii + 1, 0));
        assert(step3.0 == MState::CtrlcSent { ci: (ci + 1) as usize });
        lemma_run_step(OpKind::Program, plan, s3, EventV::Ack, m3, (fuel - 3) as nat);
        assert(model_apply(m3, step3.1) == m3);
        assert(model_event(m3, step3.1) == EventV::Ack);
        let s4 = step3.0;
        let step4 = next(OpKind::Program, plan, s4, EventV::Ack);
        assert(step4.0 == MState::AddrSent { ci: (ci + 1) as usize, ri: 0 });
        lemma_run_step(OpKind::Program, plan, s4, EventV::Ack, m3, (fuel - 4) as nat);
        assert(model_apply(m3, step4.1) == m3);
        assert(model_event(m3, step4.1) == EventV::Ack);
        lemma_program_rows(plan, (ci + 1) as usize, 0, m3, (fuel - 5) as nat);
        let r = run_from(
            OpKind::Program,
            plan,
            MState::AddrSent { ci: (ci + 1) as usize, ri: 0 },
            EventV::Ack,
            m3,
            (fuel - 5) as nat,
        );
        lemma_compose_row(plan, cii, rii, cii + 1, 0, m, m3, r->Some_0.1);
    } else {
        assert(step3.1 == (ActionV::Finish { result: Ok::<(), ErrorKind>(()) }));
        assert(step3.0 is Done);
        assert(run_from(OpKind::Program, plan, s3, EventV::Ack, m3, (fuel - 3) as nat) == Some(
            (step3.0, m3, Ok::<(), ErrorKind>(())),
        ));
        lemma_final_row(plan, cii, rii, m, m3);
    }
}

proof fn lemma_sum_rows_nonneg(plan: Seq<ChunkPlanV>, c: int)
    ensures
        sum_rows_from(plan, c) >= 0,
    decreases plan.len() - c,
{
    if 0 <= c < plan.len() {
        lemma_sum_rows_nonneg(plan, c + 1);
    }
}

/// The exit-to-park polling loop runs its full budget on a quiet target
/// (no diagnostics posted) and hands over to the flash phase, leaving the
/// model untouched.
proof fn lemma_park_loop(op: OpKind, plan: Seq<ChunkPlanV>, i: u8, m: ModelTarget, fuel: nat)
    requires
        op is Program || op is Verify,
        i < 20,
        fuel >= 2 * (20 - i),
    ensures
        run_from(op, plan, MState::ParkStatusbPending { i }, EventV::Byte(0), m, fuel) == ({
            if plan.len() > 0 {
                run_from(
                    op,
                    plan,
                    park_complete(op, plan).0,
                    model_event(m, park_complete(op, plan).1),
                    m,
                    (fuel - 2 * (20 - i)) as nat,
                )
            } else {
                Some((MState::Done, m, Ok::<(), ErrorKind>(())))
            }
        }),
    decreases 20 - i,
{
    let s0 = MState::ParkStatusbPending { i };
    assert(0u8 & BCCD1_BIT == 0) by (bit_vector);
    let step0 = next(op, plan, s0, EventV::Byte(0));
    assert(step0.0 == MState::ParkSleep { i });
    lemma_run_step(op, plan, s0, EventV::Byte(0), m, fuel);
    assert(model_apply(m, step0.1) == m);
    assert(model_event(m, step0.1) == EventV::Ack);
    let step1 = next(op, plan, MState::ParkSleep { i }, EventV::Ack);
    if i + 1 < 20 {
        assert(step1.0 == MState::ParkStatusbPending { i: (i + 1) as u8 });
        lemma_run_step(op, plan, MState::ParkSleep { i }, EventV::Ack, m, (fuel - 1) as nat);
        assert(model_apply(m, step1.1) == m);
        assert(model_event(m, step1.1) == EventV::Byte(0));
        lemma_park_loop(op, plan, (i + 1) as u8, m, (fuel - 2) as nat);
    } else {
        assert(step1 == park_complete(op, plan));
        if plan.len() == 0 {
            assert(step1.1 == (ActionV::Finish { result: Ok::<(), ErrorKind>(()) }));
            assert(step1.0 is Done);
        } else {
            lemma_run_step(op, plan, MState::ParkSleep { i }, EventV::Ack, m, (fuel - 1) as nat);
            assert(model_apply(m, step1.1) == m);
        }
    }
}

/// From the start of a `program` or `verify` session the prologue — pin
/// sequence, initialization, reset-extension exit, exit to park — runs on
/// the model target without touching it, and the flash phase begins.
proof fn lemma_session_prologue(op: OpKind, plan: Seq<ChunkPlanV>, m: ModelTarget, fuel: nat)
    requires
        op is Program || op is Verify,
        fuel >= 51,
    ensures
        run_session(op, plan, m, fuel) == ({
            if plan.len() > 0 {
                run_from(
                    op,
                    plan,
                    park_complete(op, plan).0,
                    model_event(m, park_complete(op, plan).1),
                    m,
                    (fuel - 51) as nat,
                )
            } else {
                Some((MState::Done, m, Ok::<(), ErrorKind>(())))
            }
        }),
{
    let t0 = next(op, plan, MState::Start, EventV::Start);
    assert(t0.0 == MState::ExtPins { k: 1 });
    lemma_run_step(op, plan, MState::Start, EventV::Start, m, fuel);
    assert(model_apply(m, t0.1) == m && model_event(m, t0.1) == EventV::Ack);

    let t1 = next(op, plan, MState::ExtPins { k: 1 }, EventV::Ack);
    assert(t1.0 == MState::ExtPins { k: 2 });
    lemma_run_step(op, plan, MState::ExtPins { k: 1 }, EventV::Ack, m, (fuel - 1) as nat);
    assert(model_apply(m, t1.1) == m && model_event(m, t1.1) == EventV::Ack);

    let t2 = next(op, plan, MState::ExtPins { k: 2 }, EventV::Ack);
    assert(t2.0 == MState::ExtPins { k: 3 });
    lemma_run_step(op, plan, MState::ExtPins { k: 2 }, EventV::Ack, m, (fuel - 2) as nat);
    assert(model_apply(m, t2.1) == m && model_event(m, t2.1) == EventV::Ack);

    let t3 = next(op, plan, MState::ExtPins { k: 3 }, EventV::Ack);
    assert(t3.0 == MState::ExtPins { k: 4 });
    lemma_run_step(op, plan, MState::ExtPins { k: 3 }, EventV::Ack, m, (fuel - 3) as nat);
    assert(model_apply(m, t3.1) == m && model_event(m, t3.1) == EventV::Ack);

    let t4 = next(op, plan, MState::ExtPins { k: 4 }, EventV::Ack);
    assert(t4.0 == MState::InitSent);
    lemma_run_step(op, plan, MState::ExtPins { k: 4 }, EventV::Ack, m, (fuel - 4) as nat);
    assert(model_apply(m, t4.1) == m && model_event(m, t4.1) == EventV::Ack);

    let t5 = next(op, plan, MState::InitSent, EventV::Ack);
    assert(t5.0 == MState::StatusaPending);
    assert(t5.1 == (ActionV::ReadByte { addr: DSU_STATUSA_ADDR }));
    lemma_run_step(op, plan, MState::InitSent, EventV::Ack, m, (fuel - 5) as nat);
    assert(model_apply(m, t5.1) == m);
    assert(model_event(m, t5.1) == EventV::Byte(CRSTEXT_BIT));

    assert(CRSTEXT_BIT & CRSTEXT_BIT != 0) by (bit_vector);
    let t6 = next(op, plan, MState::StatusaPending, EventV::Byte(CRSTEXT_BIT));
    assert(t6.0 == MState::ClearPending);
    lemma_run_step(op, plan, MState::StatusaPending, EventV::Byte(CRSTEXT_BIT), m, (fuel - 6) as nat);
    assert(model_apply(m, t6.1) == m && model_event(m, t6.1) == EventV::Ack);

    let t7 = next(op, plan, MState::ClearPending, EventV::Ack);
    assert(t7.0 == MState::SecuritySleep);
    lemma_run_step(op, plan, MState::ClearPending, EventV::Ack, m, (fuel - 7) as nat);
    assert(model_apply(m, t7.1) == m && model_event(m, t7.1) == EventV::Ack);

    let t8 = next(op, plan, MState::SecuritySleep, EventV::Ack);
    assert(t8.0 == MState::StatusbPending);
    lemma_run_step(op, plan, MState::SecuritySleep, EventV::Ack, m, (fuel - 8) as nat);
    assert(model_apply(m, t8.1) == m);
    assert(model_event(m, t8.1) == EventV::Byte(0));

    let t9 = next(op, plan, MState::StatusbPending, EventV::Byte(0));
    assert(t9.0 == MState::ExitCmdSent);
    lemma_run_step(op, plan, MState::StatusbPending, EventV::Byte(0), m, (fuel - 9) as nat);
    assert(model_apply(m, t9.1) == m && model_event(m, t9.1) == EventV::Ack);

    let t10 = next(op, plan, MState::ExitCmdSent, EventV::Ack);
    assert(t10.0 == MState::ParkStatusbPending { i: 0 });
    lemma_run_step(op, plan, MState::ExitCmdSent, EventV::Ack, m, (fuel - 10) as nat);
    assert(model_apply(m, t10.1) == m);
    assert(model_event(m, t10.1) == EventV::Byte(0));

    lemma_park_loop(op, plan, 0, m, (fuel - 11) as nat);
}

/// Running the `verify` session from the read-back of row `(ci, ri)` over
/// a flash that holds every remaining row finishes successfully with no
/// mismatch, touching nothing.
proof fn lemma_verify_rows(plan: Seq<ChunkPlanV>, ci: usize, ri: usize, m: ModelTarget, fuel: nat)
    requires
        plan_wf(plan),
        plan.len() <= usize::MAX,
        m.flash.len() == 0x1_0000_0000,
        (ci as int) < plan.len(),
        (ri as int) < plan[ci as int].rows.len(),
        flash_holds_from(m.flash, plan, ci as int, ri as int),
        fuel >= plan[ci as int].rows.len() - ri + sum_rows_from(plan, ci + 1),
    ensures
        run_from(
            OpKind::Verify,
            plan,
            MState::RowReadPending { ci, ri },
            EventV::Blob(
                m.flash.subrange(
                    row_addr(plan, ci as int, ri as int) as int,
                    row_addr(plan, ci as int, ri as int) + 256,
                ),
            ),
            m,
            fuel,
        ) == Some((MState::Done, m, Ok::<(), ErrorKind>(()))),
    decreases plan.len() - ci, plan[ci as int].rows.len() - ri,
{
    let cii = ci as int;
    let rii = ri as int;
    lemma_sum_rows_nonneg(plan, cii + 1);
    assert(chunk_plan_wf(plan[cii]));
    lemma_row_addr_val(plan, cii, rii);
    let base = row_addr(plan, cii, rii) as int;
    let exp = plan[cii].rows[rii];
    let v = m.flash.subrange(base, base + 256);
    assert(flash_holds_row(m.flash, plan, cii, rii));
    assert(exp.len() == 256);
    assert(v =~= exp);
    lemma_first_diff_equal(exp, 0);
    assert(first_diff_from(exp, v, 0) == 256);

    let s0 = MState::RowReadPending { ci, ri };
    let step = next(OpKind::Verify, plan, s0, EventV::Blob(v));
    if rii + 1 < plan[cii].rows.len() {
        assert(step.0 == MState::RowReadPending { ci, ri: (ri + 1) as usize });
        assert(step.1 == (ActionV::ReadBlock { addr: row_addr(plan, cii, rii + 1), len: ROW_SIZE }));
        lemma_run_step(OpKind::Verify, plan, s0, EventV::Blob(v), m, fuel);
        assert(model_apply(m, step.1) == m);
        lemma_row_addr_val(plan, cii, rii + 1);
        assert(model_event(m, step.1) == EventV::Blob(
            m.flash.subrange(
                row_addr(plan, cii, rii + 1) as int,
                row_addr(plan, cii, rii + 1) + 256,
            ),
        ));
        lemma_verify_rows(plan, ci, (ri + 1) as usize, m, (fuel - 1) as nat);
    } else if cii + 1 < plan.len() {
        assert(chunk_plan_wf(plan[cii + 1]));
        assert(plan[cii + 1].rows.len() >= 1);
        assert(sum_rows_from(plan, cii + 1) == plan[cii + 1].rows.len() + sum_rows_from(
            plan,
            cii + 2,
        ));
        lemma_sum_rows_nonneg(plan, cii + 2);
        assert(step.0 == MState::RowReadPending { ci: (ci + 1) as usize, ri: 0 });
        assert(step.1 == (ActionV::ReadBlock { addr: row_addr(plan, cii + 1, 0), len: ROW_SIZE }));
        lemma_run_step(OpKind::Verify, plan, s0, EventV::Blob(v), m, fuel);
        assert(model_apply(m, step.1) == m);
        lemma_row_addr_val(plan, cii + 1, 0);
        assert(model_event(m, step.1) == EventV::Blob(
            m.flash.subrange(
                row_addr(plan, cii + 1, 0) as int,
                row_addr(plan, cii + 1, 0) + 256,
            ),
        ));
        assert forall|c: int, r: int|
            0 <= c < plan.len() && 0 <= r < plan[c].rows.len() && (c > cii + 1 || (c == cii + 1
                && r >= 0)) implies #[trigger] flash_holds_row(m.flash, plan, c, r) by {
            assert(c > cii || (c == cii && r >= rii));
        }
        lemma_verify_rows(plan, (ci + 1) as usize, 0, m, (fuel - 1) as nat);
    } else {
        assert(step.1 == (ActionV::Finish { result: Ok::<(), ErrorKind>(()) }));
        assert(step.0 is Done);
        assert(fuel >= 1);
    }
}

/// Programming an image and then verifying it on a target that retains
/// the writes never reports a mismatch.  The whole `program` session
/// finishes successfully and leaves exactly the planned rows in flash;
/// the whole `verify` session over that flash then finishes successfully.
/// By `sam::lemma_image_plan_admissible` the plan of every well-formed,
/// row-aligned image — the plan `Atsaml10::program` and
/// `Atsaml10::verify` run over — meets the three plan conditions.
pub proof fn theorem_program_then_verify(plan: Seq<ChunkPlanV>, m0: ModelTarget, f1: nat, f2: nat)
    requires
        plan_wf(plan),
        plan_ordered(plan),
        plan.len() <= usize::MAX,
        m0.flash.len() == 0x1_0000_0000,
        f1 >= 52 + chunks_fuel(plan, 0),
        f2 >= 52 + sum_rows_from(plan, 0),
    ensures
        run_session(OpKind::Program, plan, m0, f1) is Some,
        ({
            let r1 = run_session(OpKind::Program, plan, m0, f1)->Some_0;
            &&& r1.0 is Done
            &&& r1.2 == Ok::<(), ErrorKind>(())
            &&& r1.1.flash.len() == m0.flash.len()
            &&& flash_holds_plan(r1.1.flash, plan)
            &&& run_session(OpKind::Verify, plan, r1.1, f2) == Some(
                (MState::Done, r1.1, Ok::<(), ErrorKind>(())),
            )
        }),
{
    lemma_chunks_fuel_nonneg(plan, 0);
    lemma_sum_rows_nonneg(plan, 0);
    lemma_session_prologue(OpKind::Program, plan, m0, f1);
    if plan.len() == 0 {
        lemma_session_prologue(OpKind::Verify, plan, m0, f2);
    } else {
        assert(chunk_plan_wf(plan[0]));
        assert(plan[0].rows.len() >= 1);
        assert(chunks_fuel(plan, 0) == 4 * plan[0].rows.len() + 1 + chunks_fuel(plan, 1));
        lemma_chunks_fuel_nonneg(plan, 1);

        let pc = park_complete(OpKind::Program, plan);
        assert(pc.0 == MState::CtrlcSent { ci: 0 });
        assert(model_event(m0, pc.1) == EventV::Ack);
        let stepc = next(OpKind::Program, plan, pc.0, EventV::Ack);
        assert(stepc.0 == MState::AddrSent { ci: 0, ri: 0 });
        lemma_run_step(OpKind::Program, plan, pc.0, EventV::Ack, m0, (f1 - 51) as nat);
        assert(model_apply(m0, stepc.1) == m0);
        assert(model_event(m0, stepc.1) == EventV::Ack);
        assert(f1 - 52 >= rows_fuel(plan, 0, 0));
        lemma_program_rows(plan, 0, 0, m0, (f1 - 52) as nat);
        let r = run_from(
            OpKind::Program,
            plan,
            MState::AddrSent { ci: 0, ri: 0 },
            EventV::Ack,
            m0,
            (f1 - 52) as nat,
        );
        let m1 = r->Some_0.1;

        lemma_session_prologue(OpKind::Verify, plan, m1, f2);
        let pcv = park_complete(OpKind::Verify, plan);
        assert(pcv.0 == MState::RowReadPending { ci: 0, ri: 0 });
        assert(pcv.1 == (ActionV::ReadBlock { addr: row_addr(plan, 0, 0), len: ROW_SIZE }));
        assert(model_event(m1, pcv.1) == EventV::Blob(
            m1.flash.subrange(row_addr(plan, 0, 0) as int, row_addr(plan, 0, 0) + 256),
        ));
        assert(sum_rows_from(plan, 0) == plan[0].rows.len() + sum_rows_from(plan, 1));
        lemma_verify_rows(plan, 0, 0, m1, (f2 - 51) as nat);
    }
}

/// A whole `erase` session on the model target succeeds: the pin
/// sequence, the extension exit, the Boot ROM handshake, the chip-erase
/// command, its acknowledgement and the status poll all complete, and the
/// flash reads back blank everywhere.
pub proof fn theorem_erase_succeeds(m0: ModelTarget, fuel: nat)
    requires
        m0.flash.len() == 0x1_0000_0000,
        fuel >= 15,
    ensures
        run_session(OpKind::Erase, Seq::empty(), m0, fuel) is Some,
        ({
            let r = run_session(OpKind::Erase, Seq::empty(), m0, fuel)->Some_0;
            &&& r.0 is Done
            &&& r.2 == Ok::<(), ErrorKind>(())
            &&& r.1.flash == erased_flash(m0.flash.len())
        }),
{
    let op = OpKind::Erase;
    let plan = Seq::<ChunkPlanV>::empty();

    let t0 = next(op, plan, MState::Start, EventV::Start);
    assert(t0.0 == MState::ExtPins { k: 1 });
    lemma_run_step(op, plan, MState::Start, EventV::Start, m0, fuel);
    assert(model_apply(m0, t0.1) == m0 && model_event(m0, t0.1) == EventV::Ack);

    let t1 = next(op, plan, MState::ExtPins { k: 1 }, EventV::Ack);
    assert(t1.0 == MState::ExtPins { k: 2 });
    lemma_run_step(op, plan, MState::ExtPins { k: 1 }, EventV::Ack, m0, (fuel - 1) as nat);
    assert(model_apply(m0, t1.1) == m0 && model_event(m0, t1.1) == EventV::Ack);

    let t2 = next(op, plan, MState::ExtPins { k: 2 }, EventV::Ack);
    assert(t2.0 == MState::ExtPins { k: 3 });
    lemma_run_step(op, plan, MState::ExtPins { k: 2 }, EventV::Ack, m0, (fuel - 2) as nat);
    assert(model_apply(m0, t2.1) == m0 && model_event(m0, t2.1) == EventV::Ack);

    let t3 = next(op, plan, MState::ExtPins { k: 3 }, EventV::Ack);
    assert(t3.0 == MState::ExtPins { k: 4 });
    lemma_run_step(op, plan, MState::ExtPins { k: 3 }, EventV::Ack, m0, (fuel - 3) as nat);
    assert(model_apply(m0, t3.1) == m0 && model_event(m0, t3.1) == EventV::Ack);

    let t4 = next(op, plan, MState::ExtPins { k: 4 }, EventV::Ack);
    assert(t4.0 == MState::InitSent);
    lemma_run_step(op, plan, MState::ExtPins { k: 4 }, EventV::Ack, m0, (fuel - 4) as nat);
    assert(model_apply(m0, t4.1) == m0 && model_event(m0, t4.1) == EventV::Ack);

    let t5 = next(op, plan, MState::InitSent, EventV::Ack);
    assert(t5.0 == MState::StatusaPending);
    lemma_run_step(op, plan, MState::InitSent, EventV::Ack, m0, (fuel - 5) as nat);
    assert(model_apply(m0, t5.1) == m0);
    assert(model_event(m0, t5.1) == EventV::Byte(CRSTEXT_BIT));

    assert(CRSTEXT_BIT & CRSTEXT_BIT != 0) by (bit_vector);
    let t6 = next(op, plan, MState::StatusaPending, EventV::Byte(CRSTEXT_BIT));
    assert(t6.0 == MState::ClearPending);
    lemma_run_step(op, plan, MState::StatusaPending, EventV::Byte(CRSTEXT_BIT), m0, (fuel - 6) as nat);
    assert(model_apply(m0, t6.1) == m0 && model_event(m0, t6.1) == EventV::Ack);

    let t7 = next(op, plan, MState::ClearPending, EventV::Ack);
    assert(t7.0 == MState::SecuritySleep);
    lemma_run_step(op, plan, MState::ClearPending, EventV::Ack, m0, (fuel - 7) as nat);
    assert(model_apply(m0, t7.1) == m0 && model_event(m0, t7.1) == EventV::Ack);

    let t8 = next(op, plan, MState::SecuritySleep, EventV::Ack);
    assert(t8.0 == MState::StatusbPending);
    lemma_run_step(op, plan, MState::SecuritySleep, EventV::Ack, m0, (fuel - 8) as nat);
    assert(model_apply(m0, t8.1) == m0);
    assert(model_event(m0, t8.1) == EventV::Byte(0));

    let t9 = next(op, plan, MState::StatusbPending, EventV::Byte(0));
    assert(t9.0 == MState::InitCmdSent);
    assert(t9.1 == (ActionV::WriteWord { addr: DSU_BCC0_ADDR, value: CMD_INIT }));
    lemma_run_step(op, plan, MState::StatusbPending, EventV::Byte(0), m0, (fuel - 9) as nat);
    let m1 = model_apply(m0, t9.1);
    assert(m1.bcc1 == SIG_COMM && !m1.erase_pending && m1.flash == m0.flash);
    assert(model_event(m0, t9.1) == EventV::Ack);

    let t10 = next(op, plan, MState::InitCmdSent, EventV::Ack);
    assert(t10.0 == MState::CommPending);
    assert(t10.1 == (ActionV::ReadWord { addr: DSU_BCC1_ADDR }));
    lemma_run_step(op, plan, MState::InitCmdSent, EventV::Ack, m1, (fuel - 10) as nat);
    assert(model_apply(m1, t10.1) == m1);
    assert(model_event(m1, t10.1) == EventV::Word(SIG_COMM));

    let t11 = next(op, plan, MState::CommPending, EventV::Word(SIG_COMM));
    assert(t11.0 == MState::EraseCmdSent);
    assert(t11.1 == (ActionV::WriteWord { addr: DSU_BCC0_ADDR, value: CMD_CHIPERASE }));
    lemma_run_step(op, plan, MState::CommPending, EventV::Word(SIG_COMM), m1, (fuel - 11) as nat);
    let m2 = model_apply(m1, t11.1);
    assert(m2.flash == erased_flash(m0.flash.len()));
    assert(m2.bcc1 == SIG_CMD_VALID && m2.erase_pending);
    assert(model_event(m1, t11.1) == EventV::Ack);

    let t12 = next(op, plan, MState::EraseCmdSent, EventV::Ack);
    assert(t12.0 == MState::EraseAckPending);
    assert(t12.1 == (ActionV::ReadWord { addr: DSU_BCC1_ADDR }));
    lemma_run_step(op, plan, MState::EraseCmdSent, EventV::Ack, m2, (fuel - 12) as nat);
    let m3 = model_apply(m2, t12.1);
    assert(m3.bcc1 == SIG_CMD_SUCCESS && !m3.erase_pending && m3.flash == m2.flash);
    assert(model_event(m2, t12.1) == EventV::Word(SIG_CMD_VALID));

    let t13 = next(op, plan, MState::EraseAckPending, EventV::Word(SIG_CMD_VALID));
    assert(t13.0 == MState::ErasePollPending { i: 0 });
    assert(t13.1 == (ActionV::ReadWord { addr: DSU_BCC1_ADDR }));
    lemma_run_step(
        op,
        plan,
        MState::EraseAckPending,
        EventV::Word(SIG_CMD_VALID),
        m3,
        (fuel - 13) as nat,
    );
    assert(model_apply(m3, t13.1) == m3);
    assert(model_event(m3, t13.1) == EventV::Word(SIG_CMD_SUCCESS));

    let t14 = next(op, plan, MState::ErasePollPending { i: 0 }, EventV::Word(SIG_CMD_SUCCESS));
    assert(t14.1 == (ActionV::Finish { result: Ok::<(), ErrorKind>(()) }));
    assert(t14.0 is Done);
    assert(run_from(
        op,
        plan,
        MState::ErasePollPending { i: 0 },
        EventV::Word(SIG_CMD_SUCCESS),
        m3,
        (fuel - 14) as nat,
    ) == Some((t14.0, m3, Ok::<(), ErrorKind>(()))));
}

/// `erase; erase` behaves as `erase`: a second chip-erase session on the
/// model target succeeds just the same and leaves the flash exactly where
/// the first left it — blank everywhere.
pub proof fn theorem_erase_idempotent(m0: ModelTarget, f1: nat, f2: nat)
    requires
        m0.flash.len() == 0x1_0000_0000,
        f1 >= 15,
        f2 >= 15,
    ensures
        ({
            let r1 = run_session(OpKind::Erase, Seq::empty(), m0, f1);
            &&& r1 is Some
            &&& r1->Some_0.2 == Ok::<(), ErrorKind>(())
            &&& run_session(OpKind::Erase, Seq::empty(), r1->Some_0.1, f2) is Some
            &&& run_session(OpKind::Erase, Seq::empty(), r1->Some_0.1, f2)->Some_0.2 == Ok::<
                (),
                ErrorKind,
            >(())
            &&& run_session(OpKind::Erase, Seq::empty(), r1->Some_0.1, f2)->Some_0.1.flash
                == r1->Some_0.1.flash
        }),
{
    theorem_erase_succeeds(m0, f1);
    let m1 = run_session(OpKind::Erase, Seq::empty(), m0, f1)->Some_0.1;
    theorem_erase_succeeds(m1, f2);
    assert(erased_flash(m1.flash.len()) == m1.flash);
}

} // verus!
