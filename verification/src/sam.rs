//! ATSAML10 programming protocol driver.
//!
//! Each operation (`erase`, `program`, `verify`, `reset`) is a `Session`: an
//! explicit state machine over the probe transport.  The embedder owns the
//! probe; it repeatedly calls `Session::step`, performs the returned
//! `Action` (a pin sequence, an MMIO access, a sleep), and hands the outcome
//! back as the next `Event`.  Every decision the protocol takes — which
//! register to poke next, how to pad a row, when an observed value is a
//! failure — is made here and verified against the transition function
//! `next`.

use vstd::prelude::*;
use vstd::arithmetic::div_mod::lemma_fundamental_div_mod;
use vstd::arithmetic::div_mod::lemma_fundamental_div_mod_converse_div;
use vstd::arithmetic::div_mod::lemma_fundamental_div_mod_converse_mod;

use crate::ErrorKind;
use crate::elf::DataChunk;
use crate::elf::FlashData;

verus! {

// DSU MMIO registers (base 0x4100_2100), ATSAML10 datasheet.
/// `DSU.STATUSA`, 8-bit; `CRSTEXT` is bit 1, write-1-to-clear.
pub const DSU_STATUSA_ADDR: u32 = 0x4100_2101;
/// `DSU.STATUSB`, 8-bit; `BCCD1` is bit 7.
pub const DSU_STATUSB_ADDR: u32 = 0x4100_2102;
/// `DSU.BCC0`, 32-bit host-to-target command word.
pub const DSU_BCC0_ADDR: u32 = 0x4100_2120;
/// `DSU.BCC1`, 32-bit target-to-host response word.
pub const DSU_BCC1_ADDR: u32 = 0x4100_2124;
/// `CRSTEXT` bit of `DSU.STATUSA`.
pub const CRSTEXT_BIT: u8 = 0x02;
/// `BCCD1` bit of `DSU.STATUSB`.
pub const BCCD1_BIT: u8 = 0x80;

// NVMCTRL MMIO registers (base 0x4100_4000).
/// `NVMCTRL.CTRLA`, command register, written in the high half of a 32-bit
/// store.
pub const NVMCTRL_CTRLA_ADDR: u32 = 0x4100_4000;
/// `NVMCTRL.CTRLC`; zero enables automatic page writes.
pub const NVMCTRL_CTRLC_ADDR: u32 = 0x4100_4008;
/// `NVMCTRL.STATUS`; `READY` is bit 2.
pub const NVMCTRL_STATUS_ADDR: u32 = 0x4100_4018;
/// `NVMCTRL.ADDR`, target flash address of the next command.
pub const NVMCTRL_ADDR_ADDR: u32 = 0x4100_401C;
/// `READY` bit of `NVMCTRL.STATUS`.
pub const NVMCTRL_STATUS_READY: u8 = 0x04;
/// Row erase command, written to the `CTRLA` half.
pub const NVMCTRL_CTRLA_ER_CMD: u16 = 0xA502;
/// Row erase command positioned in the upper half of the 32-bit store; the
/// low half deliberately rewrites the first two `CTRLB` bytes with their
/// reset value of zero.
pub const NVMCTRL_CTRLA_ER_CMD32: u32 = 0xA502_0000;

// Boot Interactive Mode commands, written to `BCC0`.
/// Enter interactive mode.
pub const CMD_INIT: u32 = 0x4442_4755;
/// Exit interactive mode to park.
pub const CMD_EXIT: u32 = 0x4442_47AA;
/// Chip erase, SAM L10 variant.
pub const CMD_CHIPERASE: u32 = 0x4442_47E3;

// Boot Interactive Mode response signatures, read from `BCC1`.
/// Ready to take commands.
pub const SIG_COMM: u32 = 0xEC00_0020;
/// Command finished successfully.
pub const SIG_CMD_SUCCESS: u32 = 0xEC00_0021;
/// Command accepted, work in progress.
pub const SIG_CMD_VALID: u32 = 0xEC00_0024;
/// Exit-to-park acknowledged.
pub const SIG_BOOTOK: u32 = 0xEC00_0039;

/// Flash row size in bytes; flash is erased and programmed one row at a
/// time.
pub const ROW_SIZE: u32 = 256;

// CMSIS-DAP pin numbering used by `swj_pins`.
/// nRESET is pin bit 7.
pub const NRESET_PIN: u8 = 0x80;
/// SWCLK/TCK is pin bit 0.
pub const SWCLK_PIN: u8 = 0x01;
/// nRESET and SWCLK together.
pub const NRESET_SWCLK_PINS: u8 = 0x81;

/// Number of chip-erase status polls, one second apart.
pub const ERASE_POLLS: u8 = 20;
/// Number of exit-to-park status polls, fifty milliseconds apart.
pub const PARK_POLLS: u8 = 20;

/// The bytes of a chunk, cut out of the backing buffer.
pub open spec fn chunk_bytes(bin: Seq<u8>, c: DataChunk) -> Seq<u8> {
    bin.subrange(c.segment_offset as int, c.segment_offset + c.segment_filesize)
}

/// How many rows a chunk of `len` bytes occupies.
pub open spec fn n_rows(len: int) -> int {
    if len % 256 == 0 {
        len / 256
    } else {
        len / 256 + 1
    }
}

/// Row `ri` of the payload, padded to the full row with `0xFF`, the value
/// of blank flash.
pub open spec fn padded_row(bytes: Seq<u8>, ri: int) -> Seq<u8> {
    Seq::new(
        256,
        |j: int|
            if ri * 256 + j < bytes.len() {
                bytes[ri * 256 + j]
            } else {
                0xFFu8
            },
    )
}

/// All rows of a payload, each padded to the full row size.
pub open spec fn padded_rows(bytes: Seq<u8>) -> Seq<Seq<u8>> {
    Seq::new(n_rows(bytes.len() as int) as nat, |ri: int| padded_row(bytes, ri))
}

/// The row-level plan of one chunk: its start address and its padded rows.
#[verifier::ext_equal]
pub struct ChunkPlanV {
    pub address: u32,
    pub rows: Seq<Seq<u8>>,
}

/// Executable counterpart of `ChunkPlanV`.
pub struct ChunkPlan {
    pub address: u32,
    pub rows: Vec<Vec<u8>>,
}

impl View for ChunkPlan {
    type V = ChunkPlanV;

    open spec fn view(&self) -> ChunkPlanV {
        ChunkPlanV {
            address: self.address,
            rows: Seq::new(self.rows@.len(), |i: int| self.rows@[i]@),
        }
    }
}

/// The plan a `program` or `verify` session follows for an image: one entry
/// per chunk, in image order.
pub open spec fn plan_of(bin: Seq<u8>, chunks: Seq<DataChunk>) -> Seq<ChunkPlanV> {
    Seq::new(
        chunks.len(),
        |i: int|
            ChunkPlanV {
                address: chunks[i].address,
                rows: padded_rows(chunk_bytes(bin, chunks[i])),
            },
    )
}

/// A well-formed chunk plan: at least one row, every row exactly
/// `ROW_SIZE` bytes, a row-aligned start, and every row lying within the
/// 32-bit address space.
pub open spec fn chunk_plan_wf(c: ChunkPlanV) -> bool {
    &&& c.rows.len() >= 1
    &&& forall|r: int| 0 <= r < c.rows.len() ==> (#[trigger] c.rows[r]).len() == 256
    &&& c.address % 256 == 0
    &&& forall|r: int|
        0 <= r < c.rows.len() ==> c.address + #[trigger] (r * 256) + 256 <= 0x1_0000_0000
}

pub open spec fn plan_wf(plan: Seq<ChunkPlanV>) -> bool {
    forall|i: int| 0 <= i < plan.len() ==> chunk_plan_wf(#[trigger] plan[i])
}

/// The row spans of the plan's chunks are disjoint and in address order:
/// each chunk's rows, padding included, end at or before the next chunk
/// starts.  Row-aligned disjoint image chunks always satisfy this.
pub open spec fn plan_ordered(plan: Seq<ChunkPlanV>) -> bool {
    forall|i: int|
        0 <= i < plan.len() - 1 ==> plan[i].address + plan[i].rows.len() * 256
            <= #[trigger] plan[i + 1].address
}

/// The device address of row `ri` of chunk `ci`.
pub open spec fn row_addr(plan: Seq<ChunkPlanV>, ci: int, ri: int) -> u32 {
    (plan[ci].address + ri * 256) as u32
}

/// Which operation a session performs.
#[derive(Clone, Copy, Debug, PartialEq, Eq, Structural)]
pub enum OpKind {
    Erase,
    Program,
    Verify,
    Reset,
}

/// One probe transaction the embedder must perform next.
#[derive(Debug)]
#[allow(inconsistent_fields)]
pub enum Action {
    /// Drive the open-drain pins named in `mask` to the levels in `out`
    /// through `swj_pins`, then wait `wait_ms` milliseconds.
    Pins { out: u8, mask: u8, wait_ms: u64 },
    /// Bring up DP/AP enumeration and obtain the default memory port
    /// (DP Default, AP 0).
    Initialize,
    /// 8-bit MMIO read; answer with `Event::Byte`.
    ReadByte { addr: u32 },
    /// 8-bit MMIO write; answer with `Event::Ack`.
    WriteByte { addr: u32, value: u8 },
    /// 32-bit MMIO read; answer with `Event::Word`.
    ReadWord { addr: u32 },
    /// 32-bit MMIO write; answer with `Event::Ack`.
    WriteWord { addr: u32, value: u32 },
    /// Block write of `bytes` starting at `addr`; answer with `Event::Ack`.
    WriteBlock { addr: u32, bytes: Vec<u8> },
    /// Block read of `len` bytes starting at `addr`; answer with
    /// `Event::Blob`.
    ReadBlock { addr: u32, len: u32 },
    /// Suspend the thread for `ms` milliseconds; answer with `Event::Ack`.
    SleepMs { ms: u64 },
    /// The session is over.  `Ok` means the operation succeeded and the
    /// probe goes back to the caller; `Err` carries the failure and the
    /// probe is released.
    Finish { result: Result<(), ErrorKind> },
}

/// Specification view of an `Action`.
#[verifier::ext_equal]
#[allow(inconsistent_fields)]
pub enum ActionV {
    Pins { out: u8, mask: u8, wait_ms: u64 },
    Initialize,
    ReadByte { addr: u32 },
    WriteByte { addr: u32, value: u8 },
    ReadWord { addr: u32 },
    WriteWord { addr: u32, value: u32 },
    WriteBlock { addr: u32, bytes: Seq<u8> },
    ReadBlock { addr: u32, len: u32 },
    SleepMs { ms: u64 },
    Finish { result: Result<(), ErrorKind> },
}

impl View for Action {
    type V = ActionV;

    open spec fn view(&self) -> ActionV {
        match self {
            Action::Pins { out, mask, wait_ms } => ActionV::Pins {
                out: *out,
                mask: *mask,
                wait_ms: *wait_ms,
            },
            Action::Initialize => ActionV::Initialize,
            Action::ReadByte { addr } => ActionV::ReadByte { addr: *addr },
            Action::WriteByte { addr, value } => ActionV::WriteByte {
                addr: *addr,
                value: *value,
            },
            Action::ReadWord { addr } => ActionV::ReadWord { addr: *addr },
            Action::WriteWord { addr, value } => ActionV::WriteWord {
                addr: *addr,
                value: *value,
            },
            Action::WriteBlock { addr, bytes } => ActionV::WriteBlock {
                addr: *addr,
                bytes: bytes@,
            },
            Action::ReadBlock { addr, len } => ActionV::ReadBlock { addr: *addr, len: *len },
            Action::SleepMs { ms } => ActionV::SleepMs { ms: *ms },
            Action::Finish { result } => ActionV::Finish { result: *result },
        }
    }
}

/// The outcome of the previous `Action`, handed back by the embedder.
#[derive(Debug)]
pub enum Event {
    /// Starts the session; answers nothing.
    Start,
    /// A write, pin drive, initialization or sleep completed.
    Ack,
    /// The value an 8-bit read returned.
    Byte(u8),
    /// The value a 32-bit read returned.
    Word(u32),
    /// The bytes a block read returned.
    Blob(Vec<u8>),
}

/// Specification view of an `Event`.
#[verifier::ext_equal]
pub enum EventV {
    Start,
    Ack,
    Byte(u8),
    Word(u32),
    Blob(Seq<u8>),
}

impl View for Event {
    type V = EventV;

    open spec fn view(&self) -> EventV {
        match self {
            Event::Start => EventV::Start,
            Event::Ack => EventV::Ack,
            Event::Byte(b) => EventV::Byte(*b),
            Event::Word(w) => EventV::Word(*w),
            Event::Blob(v) => EventV::Blob(v@),
        }
    }
}

/// The driver's position in the protocol.  A state names the action that is
/// outstanding; the event that answers it decides the transition.
#[derive(Clone, Copy, Debug)]
pub enum MState {
    /// Nothing issued yet.
    Start,
    /// Reset-extension pin pulse `k` of four is pending.
    ExtPins { k: u8 },
    /// DP/AP initialization is pending.
    InitSent,
    /// The `DSU.STATUSA` read checking `CRSTEXT` is pending.
    StatusaPending,
    /// The write-1-to-clear of `CRSTEXT` is pending.
    ClearPending,
    /// The wait for the Boot ROM security checks is pending.
    SecuritySleep,
    /// The diagnostic `DSU.STATUSB` read is pending.
    StatusbPending,
    /// `CMD_INIT` write to `BCC0` is pending.
    InitCmdSent,
    /// The single `BCC1` read expecting `SIG_COMM` is pending.
    CommPending,
    /// `CMD_CHIPERASE` write to `BCC0` is pending.
    EraseCmdSent,
    /// The `BCC1` read expecting `SIG_CMD_VALID` is pending.
    EraseAckPending,
    /// Chip-erase status poll `i`: a `BCC1` read is pending.
    ErasePollPending { i: u8 },
    /// Chip-erase status poll `i`: the one-second wait is pending; `last`
    /// is the value the poll read.
    ErasePollSleep { i: u8, last: u32 },
    /// `CMD_EXIT` write to `BCC0` is pending.
    ExitCmdSent,
    /// Exit-to-park poll `i`: the `DSU.STATUSB` read is pending.
    ParkStatusbPending { i: u8 },
    /// Exit-to-park poll `i`: `BCCD1` was set, the `BCC1` read is pending.
    ParkBccPending { i: u8 },
    /// Exit-to-park poll `i`: the fifty-millisecond wait is pending.
    ParkSleep { i: u8 },
    /// The `CTRLC` write enabling automatic page writes for chunk `ci` is
    /// pending.
    CtrlcSent { ci: usize },
    /// The `NVMCTRL.ADDR` write for row `ri` of chunk `ci` is pending.
    AddrSent { ci: usize, ri: usize },
    /// The `CTRLA` row-erase write for row `ri` of chunk `ci` is pending.
    EraseRowSent { ci: usize, ri: usize },
    /// An `NVMCTRL.STATUS` read of the `READY` spin-poll is pending.
    ReadyPending { ci: usize, ri: usize },
    /// The payload write of row `ri` of chunk `ci` is pending.
    RowWriteSent { ci: usize, ri: usize },
    /// The read-back of row `ri` of chunk `ci` is pending.
    RowReadPending { ci: usize, ri: usize },
    /// The two-millisecond reset pulse with SWCLK high is pending.
    ResetPulseSent,
    /// The nRESET release is pending.
    ResetReleaseSent,
    /// The session emitted its `Finish`.
    Done,
}

/// Which event shape answers the action outstanding in state `s`.
pub open spec fn expects(s: MState, ev: EventV) -> bool {
    match s {
        MState::Start => ev is Start,
        MState::ExtPins { .. } => ev is Ack,
        MState::InitSent => ev is Ack,
        MState::StatusaPending => ev is Byte,
        MState::ClearPending => ev is Ack,
        MState::SecuritySleep => ev is Ack,
        MState::StatusbPending => ev is Byte,
        MState::InitCmdSent => ev is Ack,
        MState::CommPending => ev is Word,
        MState::EraseCmdSent => ev is Ack,
        MState::EraseAckPending => ev is Word,
        MState::ErasePollPending { .. } => ev is Word,
        MState::ErasePollSleep { .. } => ev is Ack,
        MState::ExitCmdSent => ev is Ack,
        MState::ParkStatusbPending { .. } => ev is Byte,
        MState::ParkBccPending { .. } => ev is Word,
        MState::ParkSleep { .. } => ev is Ack,
        MState::CtrlcSent { .. } => ev is Ack,
        MState::AddrSent { .. } => ev is Ack,
        MState::EraseRowSent { .. } => ev is Ack,
        MState::ReadyPending { .. } => ev is Byte,
        MState::RowWriteSent { .. } => ev is Ack,
        MState::RowReadPending { .. } => ev matches EventV::Blob(v) && v.len() == 256,
        MState::ResetPulseSent => ev is Ack,
        MState::ResetReleaseSent => ev is Ack,
        MState::Done => false,
    }
}

/// State indices stay within the plan, and each family of states belongs to
/// the operation that uses it.
pub open spec fn state_wf(op: OpKind, plan: Seq<ChunkPlanV>, s: MState) -> bool {
    match s {
        MState::Start => true,
        MState::ExtPins { k } => !(op is Reset) && 1 <= k <= 4,
        MState::InitSent => !(op is Reset),
        MState::StatusaPending => !(op is Reset),
        MState::ClearPending => !(op is Reset),
        MState::SecuritySleep => !(op is Reset),
        MState::StatusbPending => !(op is Reset),
        MState::InitCmdSent => op is Erase,
        MState::CommPending => op is Erase,
        MState::EraseCmdSent => op is Erase,
        MState::EraseAckPending => op is Erase,
        MState::ErasePollPending { i } => op is Erase && i < ERASE_POLLS,
        MState::ErasePollSleep { i, .. } => op is Erase && i < ERASE_POLLS,
        MState::ExitCmdSent => op is Program || op is Verify,
        MState::ParkStatusbPending { i } => (op is Program || op is Verify) && i < PARK_POLLS,
        MState::ParkBccPending { i } => (op is Program || op is Verify) && i < PARK_POLLS,
        MState::ParkSleep { i } => (op is Program || op is Verify) && i < PARK_POLLS,
        MState::CtrlcSent { ci } => op is Program && ci < plan.len(),
        MState::AddrSent { ci, ri } => op is Program && ci < plan.len() && ri < plan[
            ci as int
        ].rows.len(),
        MState::EraseRowSent { ci, ri } => op is Program && ci < plan.len() && ri < plan[
            ci as int
        ].rows.len(),
        MState::ReadyPending { ci, ri } => op is Program && ci < plan.len() && ri < plan[
            ci as int
        ].rows.len(),
        MState::RowWriteSent { ci, ri } => op is Program && ci < plan.len() && ri < plan[
            ci as int
        ].rows.len(),
        MState::RowReadPending { ci, ri } => op is Verify && ci < plan.len() && ri < plan[
            ci as int
        ].rows.len(),
        MState::ResetPulseSent => op is Reset,
        MState::ResetReleaseSent => op is Reset,
        MState::Done => true,
    }
}

/// Transition taken on an event that does not answer the outstanding
/// action; unreachable under `expects`.
pub open spec fn stray_event() -> (MState, ActionV) {
    (MState::Done, ActionV::Finish { result: Err(ErrorKind::TransportError) })
}

/// After the exit-to-park polling budget, `program` starts flashing and
/// `verify` starts reading back.
pub open spec fn park_complete(op: OpKind, plan: Seq<ChunkPlanV>) -> (MState, ActionV) {
    if plan.len() == 0 {
        (MState::Done, ActionV::Finish { result: Ok(()) })
    } else if op is Program {
        (
            MState::CtrlcSent { ci: 0 },
            ActionV::WriteByte { addr: NVMCTRL_CTRLC_ADDR, value: 0 },
        )
    } else {
        (
            MState::RowReadPending { ci: 0, ri: 0 },
            ActionV::ReadBlock { addr: row_addr(plan, 0, 0), len: ROW_SIZE },
        )
    }
}

/// After a row is written: the next row of the chunk, the next chunk, or
/// the end of the session.
pub open spec fn program_advance(plan: Seq<ChunkPlanV>, ci: int, ri: int) -> (MState, ActionV) {
    if ri + 1 < plan[ci].rows.len() {
        (
            MState::AddrSent { ci: ci as usize, ri: (ri + 1) as usize },
            ActionV::WriteWord { addr: NVMCTRL_ADDR_ADDR, value: row_addr(plan, ci, ri + 1) },
        )
    } else if ci + 1 < plan.len() {
        (
            MState::CtrlcSent { ci: (ci + 1) as usize },
            ActionV::WriteByte { addr: NVMCTRL_CTRLC_ADDR, value: 0 },
        )
    } else {
        (MState::Done, ActionV::Finish { result: Ok(()) })
    }
}

/// After a row read back equal: the next row, the next chunk, or success.
pub open spec fn verify_advance(plan: Seq<ChunkPlanV>, ci: int, ri: int) -> (MState, ActionV) {
    if ri + 1 < plan[ci].rows.len() {
        (
            MState::RowReadPending { ci: ci as usize, ri: (ri + 1) as usize },
            ActionV::ReadBlock { addr: row_addr(plan, ci, ri + 1), len: ROW_SIZE },
        )
    } else if ci + 1 < plan.len() {
        (
            MState::RowReadPending { ci: (ci + 1) as usize, ri: 0 },
            ActionV::ReadBlock { addr: row_addr(plan, ci + 1, 0), len: ROW_SIZE },
        )
    } else {
        (MState::Done, ActionV::Finish { result: Ok(()) })
    }
}

/// Index of the first disagreement between `exp` and `got` at or after `i`,
/// or `exp.len()` when they agree throughout.
pub open spec fn first_diff_from(exp: Seq<u8>, got: Seq<u8>, i: int) -> int
    decreases exp.len() - i,
{
    if i < 0 || i >= exp.len() {
        exp.len() as int
    } else if got[i] != exp[i] {
        i
    } else {
        first_diff_from(exp, got, i + 1)
    }
}

/// The transition function of the programming protocol: from the current
/// state and the event answering the outstanding action, to the next state
/// and the next action.  This is the complete specification of the driver;
/// `Session::step` is verified to implement it exactly.
pub open spec fn next(op: OpKind, plan: Seq<ChunkPlanV>, s: MState, ev: EventV) -> (
    MState,
    ActionV,
) {
    match s {
        MState::Start => match op {
            OpKind::Reset => (
                MState::ResetPulseSent,
                ActionV::Pins { out: SWCLK_PIN, mask: NRESET_SWCLK_PINS, wait_ms: 2 },
            ),
            _ => (
                MState::ExtPins { k: 1 },
                ActionV::Pins { out: NRESET_PIN, mask: NRESET_PIN, wait_ms: 1 },
            ),
        },
        MState::ExtPins { k } => {
            if k == 1 {
                (
                    MState::ExtPins { k: 2 },
                    ActionV::Pins { out: 0, mask: NRESET_PIN, wait_ms: 1 },
                )
            } else if k == 2 {
                (
                    MState::ExtPins { k: 3 },
                    ActionV::Pins { out: 0, mask: NRESET_SWCLK_PINS, wait_ms: 1 },
                )
            } else if k == 3 {
                (
                    MState::ExtPins { k: 4 },
                    ActionV::Pins { out: NRESET_PIN, mask: NRESET_PIN, wait_ms: 1 },
                )
            } else {
                (MState::InitSent, ActionV::Initialize)
            }
        },
        MState::InitSent => (MState::StatusaPending, ActionV::ReadByte { addr: DSU_STATUSA_ADDR }),
        MState::StatusaPending => match ev {
            EventV::Byte(b) => {
                if b & CRSTEXT_BIT == 0 {
                    (
                        MState::Done,
                        ActionV::Finish { result: Err(ErrorKind::ResetExtensionFailed) },
                    )
                } else {
                    (
                        MState::ClearPending,
                        ActionV::WriteByte { addr: DSU_STATUSA_ADDR, value: CRSTEXT_BIT },
                    )
                }
            },
            _ => stray_event(),
        },
        MState::ClearPending => (MState::SecuritySleep, ActionV::SleepMs { ms: 5 }),
        MState::SecuritySleep => (
            MState::StatusbPending,
            ActionV::ReadByte { addr: DSU_STATUSB_ADDR },
        ),
        MState::StatusbPending => match ev {
            // A set BCCD1 here means the Boot ROM posted a diagnostic; it is
            // tolerated and the protocol proceeds either way.
            EventV::Byte(_) => match op {
                OpKind::Erase => (
                    MState::InitCmdSent,
                    ActionV::WriteWord { addr: DSU_BCC0_ADDR, value: CMD_INIT },
                ),
                _ => (
                    MState::ExitCmdSent,
                    ActionV::WriteWord { addr: DSU_BCC0_ADDR, value: CMD_EXIT },
                ),
            },
            _ => stray_event(),
        },
        MState::InitCmdSent => (MState::CommPending, ActionV::ReadWord { addr: DSU_BCC1_ADDR }),
        MState::CommPending => match ev {
            EventV::Word(w) => {
                if w != SIG_COMM {
                    (
                        MState::Done,
                        ActionV::Finish { result: Err(ErrorKind::BootRomHandshakeFailed) },
                    )
                } else {
                    (
                        MState::EraseCmdSent,
                        ActionV::WriteWord { addr: DSU_BCC0_ADDR, value: CMD_CHIPERASE },
                    )
                }
            },
            _ => stray_event(),
        },
        MState::EraseCmdSent => (
            MState::EraseAckPending,
            ActionV::ReadWord { addr: DSU_BCC1_ADDR },
        ),
        MState::EraseAckPending => match ev {
            EventV::Word(w) => {
                if w != SIG_CMD_VALID {
                    (MState::Done, ActionV::Finish { result: Err(ErrorKind::EraseRejected) })
                } else {
                    (
                        MState::ErasePollPending { i: 0 },
                        ActionV::ReadWord { addr: DSU_BCC1_ADDR },
                    )
                }
            },
            _ => stray_event(),
        },
        MState::ErasePollPending { i } => match ev {
            EventV::Word(w) => {
                if w != SIG_CMD_VALID && w != 0 {
                    if w == SIG_CMD_SUCCESS {
                        (MState::Done, ActionV::Finish { result: Ok(()) })
                    } else {
                        (
                            MState::Done,
                            ActionV::Finish { result: Err(ErrorKind::EraseFailed(w)) },
                        )
                    }
                } else {
                    (MState::ErasePollSleep { i, last: w }, ActionV::SleepMs { ms: 1000 })
                }
            },
            _ => stray_event(),
        },
        MState::ErasePollSleep { i, last } => {
            if i + 1 < ERASE_POLLS {
                (
                    MState::ErasePollPending { i: (i + 1) as u8 },
                    ActionV::ReadWord { addr: DSU_BCC1_ADDR },
                )
            } else {
                (MState::Done, ActionV::Finish { result: Err(ErrorKind::EraseFailed(last)) })
            }
        },
        MState::ExitCmdSent => (
            MState::ParkStatusbPending { i: 0 },
            ActionV::ReadByte { addr: DSU_STATUSB_ADDR },
        ),
        MState::ParkStatusbPending { i } => match ev {
            EventV::Byte(b) => {
                if b & BCCD1_BIT != 0 {
                    (MState::ParkBccPending { i }, ActionV::ReadWord { addr: DSU_BCC1_ADDR })
                } else {
                    (MState::ParkSleep { i }, ActionV::SleepMs { ms: 50 })
                }
            },
            _ => stray_event(),
        },
        MState::ParkBccPending { i } => match ev {
            // A value other than SIG_BOOTOK is only diagnostic; the loop
            // always runs its full budget to give the ROM time to settle.
            EventV::Word(_) => (MState::ParkSleep { i }, ActionV::SleepMs { ms: 50 }),
            _ => stray_event(),
        },
        MState::ParkSleep { i } => {
            if i + 1 < PARK_POLLS {
                (
                    MState::ParkStatusbPending { i: (i + 1) as u8 },
                    ActionV::ReadByte { addr: DSU_STATUSB_ADDR },
                )
            } else {
                park_complete(op, plan)
            }
        },
        MState::CtrlcSent { ci } => (
            MState::AddrSent { ci, ri: 0 },
            ActionV::WriteWord { addr: NVMCTRL_ADDR_ADDR, value: row_addr(plan, ci as int, 0) },
        ),
        MState::AddrSent { ci, ri } => (
            MState::EraseRowSent { ci, ri },
            ActionV::WriteWord { addr: NVMCTRL_CTRLA_ADDR, value: NVMCTRL_CTRLA_ER_CMD32 },
        ),
        MState::EraseRowSent { ci, ri } => (
            MState::ReadyPending { ci, ri },
            ActionV::ReadByte { addr: NVMCTRL_STATUS_ADDR },
        ),
        MState::ReadyPending { ci, ri } => match ev {
            EventV::Byte(b) => {
                if b & NVMCTRL_STATUS_READY == 0 {
                    (
                        MState::ReadyPending { ci, ri },
                        ActionV::ReadByte { addr: NVMCTRL_STATUS_ADDR },
                    )
                } else {
                    (
                        MState::RowWriteSent { ci, ri },
                        ActionV::WriteBlock {
                            addr: row_addr(plan, ci as int, ri as int),
                            bytes: plan[ci as int].rows[ri as int],
                        },
                    )
                }
            },
            _ => stray_event(),
        },
        MState::RowWriteSent { ci, ri } => program_advance(plan, ci as int, ri as int),
        MState::RowReadPending { ci, ri } => match ev {
            EventV::Blob(v) => {
                let exp = plan[ci as int].rows[ri as int];
                let d = first_diff_from(exp, v, 0);
                if d == 256 {
                    verify_advance(plan, ci as int, ri as int)
                } else {
                    (
                        MState::Done,
                        ActionV::Finish {
                            result: Err(
                                ErrorKind::VerifyMismatch {
                                    address: (row_addr(plan, ci as int, ri as int) + d) as u32,
                                    expected: exp[d],
                                    actual: v[d],
                                },
                            ),
                        },
                    )
                }
            },
            _ => stray_event(),
        },
        MState::ResetPulseSent => (
            MState::ResetReleaseSent,
            ActionV::Pins { out: NRESET_SWCLK_PINS, mask: NRESET_SWCLK_PINS, wait_ms: 0 },
        ),
        MState::ResetReleaseSent => (MState::Done, ActionV::Finish { result: Ok(()) }),
        MState::Done => stray_event(),
    }
}

/// One in-flight programmer operation.
pub struct Session {
    pub op: OpKind,
    pub plan: Vec<ChunkPlan>,
    pub state: MState,
}

/// The specification view of an executable plan.
pub open spec fn plan_views(plan: Seq<ChunkPlan>) -> Seq<ChunkPlanV> {
    Seq::new(plan.len(), |i: int| plan[i]@)
}

impl Session {
    pub open spec fn plan_view(&self) -> Seq<ChunkPlanV> {
        plan_views(self.plan@)
    }

    pub open spec fn wf(&self) -> bool {
        &&& plan_wf(self.plan_view())
        &&& state_wf(self.op, self.plan_view(), self.state)
        &&& (self.op is Erase || self.op is Reset) ==> self.plan_view().len() == 0
    }

    pub open spec fn done(&self) -> bool {
        self.state is Done
    }

    pub fn is_done(&self) -> (b: bool)
        ensures
            b == self.done(),
    {
        match self.state {
            MState::Done => true,
            _ => false,
        }
    }

    /// Feed the outcome of the previous action and get the next one.  The
    /// returned action and the new state are exactly those of the
    /// transition function `next`.
    pub fn step(&mut self, ev: Event) -> (act: Action)
        requires
            old(self).wf(),
            !old(self).done(),
            expects(old(self).state, ev@),
        ensures
            final(self).wf(),
            final(self).op == old(self).op,
            final(self).plan_view() == old(self).plan_view(),
            (final(self).state, act@) == next(
                old(self).op,
                old(self).plan_view(),
                old(self).state,
                ev@,
            ),
    {
        let ghost pv = self.plan_view();
        let st = self.state;
        match st {
            MState::Start => match self.op {
                OpKind::Reset => {
                    self.state = MState::ResetPulseSent;
                    Action::Pins { out: SWCLK_PIN, mask: NRESET_SWCLK_PINS, wait_ms: 2 }
                },
                _ => {
                    self.state = MState::ExtPins { k: 1 };
                    Action::Pins { out: NRESET_PIN, mask: NRESET_PIN, wait_ms: 1 }
                },
            },
            MState::ExtPins { k } => {
                if k == 1 {
                    self.state = MState::ExtPins { k: 2 };
                    Action::Pins { out: 0, mask: NRESET_PIN, wait_ms: 1 }
                } else if k == 2 {
                    self.state = MState::ExtPins { k: 3 };
                    Action::Pins { out: 0, mask: NRESET_SWCLK_PINS, wait_ms: 1 }
                } else if k == 3 {
                    self.state = MState::ExtPins { k: 4 };
                    Action::Pins { out: NRESET_PIN, mask: NRESET_PIN, wait_ms: 1 }
                } else {
                    self.state = MState::InitSent;
                    Action::Initialize
                }
            },
            MState::InitSent => {
                self.state = MState::StatusaPending;
                Action::ReadByte { addr: DSU_STATUSA_ADDR }
            },
            MState::StatusaPending => match ev {
                Event::Byte(b) => {
                    if b & CRSTEXT_BIT == 0 {
                        self.state = MState::Done;
                        Action::Finish { result: Err(ErrorKind::ResetExtensionFailed) }
                    } else {
                        self.state = MState::ClearPending;
                        Action::WriteByte { addr: DSU_STATUSA_ADDR, value: CRSTEXT_BIT }
                    }
                },
                _ => self.stray(),
            },
            MState::ClearPending => {
                self.state = MState::SecuritySleep;
                Action::SleepMs { ms: 5 }
            },
            MState::SecuritySleep => {
                self.state = MState::StatusbPending;
                Action::ReadByte { addr: DSU_STATUSB_ADDR }
            },
            MState::StatusbPending => match ev {
                Event::Byte(_) => match self.op {
                    OpKind::Erase => {
                        self.state = MState::InitCmdSent;
                        Action::WriteWord { addr: DSU_BCC0_ADDR, value: CMD_INIT }
                    },
                    _ => {
                        self.state = MState::ExitCmdSent;
                        Action::WriteWord { addr: DSU_BCC0_ADDR, value: CMD_EXIT }
                    },
                },
                _ => self.stray(),
            },
            MState::InitCmdSent => {
                self.state = MState::CommPending;
                Action::ReadWord { addr: DSU_BCC1_ADDR }
            },
            MState::CommPending => match ev {
                Event::Word(w) => {
                    if w != SIG_COMM {
                        self.state = MState::Done;
                        Action::Finish { result: Err(ErrorKind::BootRomHandshakeFailed) }
                    } else {
                        self.state = MState::EraseCmdSent;
                        Action::WriteWord { addr: DSU_BCC0_ADDR, value: CMD_CHIPERASE }
                    }
                },
                _ => self.stray(),
            },
            MState::EraseCmdSent => {
                self.state = MState::EraseAckPending;
                Action::ReadWord { addr: DSU_BCC1_ADDR }
            },
            MState::EraseAckPending => match ev {
                Event::Word(w) => {
                    if w != SIG_CMD_VALID {
                        self.state = MState::Done;
                        Action::Finish { result: Err(ErrorKind::EraseRejected) }
                    } else {
                        self.state = MState::ErasePollPending { i: 0 };
                        Action::ReadWord { addr: DSU_BCC1_ADDR }
                    }
                },
                _ => self.stray(),
            },
            MState::ErasePollPending { i } => match ev {
                Event::Word(w) => {
                    if w != SIG_CMD_VALID && w != 0 {
                        self.state = MState::Done;
                        if w == SIG_CMD_SUCCESS {
                            Action::Finish { result: Ok(()) }
                        } else {
                            Action::Finish { result: Err(ErrorKind::EraseFailed(w)) }
                        }
                    } else {
                        self.state = MState::ErasePollSleep { i, last: w };
                        Action::SleepMs { ms: 1000 }
                    }
                },
                _ => self.stray(),
            },
            MState::ErasePollSleep { i, last } => {
                if i + 1 < ERASE_POLLS {
                    self.state = MState::ErasePollPending { i: i + 1 };
                    Action::ReadWord { addr: DSU_BCC1_ADDR }
                } else {
                    self.state = MState::Done;
                    Action::Finish { result: Err(ErrorKind::EraseFailed(last)) }
                }
            },
            MState::ExitCmdSent => {
                self.state = MState::ParkStatusbPending { i: 0 };
                Action::ReadByte { addr: DSU_STATUSB_ADDR }
            },
            MState::ParkStatusbPending { i } => match ev {
                Event::Byte(b) => {
                    if b & BCCD1_BIT != 0 {
                        self.state = MState::ParkBccPending { i };
                        Action::ReadWord { addr: DSU_BCC1_ADDR }
                    } else {
                        self.state = MState::ParkSleep { i };
                        Action::SleepMs { ms: 50 }
                    }
                },
                _ => self.stray(),
            },
            MState::ParkBccPending { i } => match ev {
                Event::Word(_) => {
                    self.state = MState::ParkSleep { i };
                    Action::SleepMs { ms: 50 }
                },
                _ => self.stray(),
            },
            MState::ParkSleep { i } => {
                if i + 1 < PARK_POLLS {
                    self.state = MState::ParkStatusbPending { i: i + 1 };
                    Action::ReadByte { addr: DSU_STATUSB_ADDR }
                } else if self.plan.len() == 0 {
                    self.state = MState::Done;
                    Action::Finish { result: Ok(()) }
                } else {
                    match self.op {
                        OpKind::Program => {
                            self.state = MState::CtrlcSent { ci: 0 };
                            Action::WriteByte { addr: NVMCTRL_CTRLC_ADDR, value: 0 }
                        },
                        _ => {
                            let addr = self.row_address(0, 0);
                            self.state = MState::RowReadPending { ci: 0, ri: 0 };
                            Action::ReadBlock { addr, len: ROW_SIZE }
                        },
                    }
                }
            },
            MState::CtrlcSent { ci } => {
                let addr = self.row_address(ci, 0);
                self.state = MState::AddrSent { ci, ri: 0 };
                Action::WriteWord { addr: NVMCTRL_ADDR_ADDR, value: addr }
            },
            MState::AddrSent { ci, ri } => {
                self.state = MState::EraseRowSent { ci, ri };
                Action::WriteWord { addr: NVMCTRL_CTRLA_ADDR, value: NVMCTRL_CTRLA_ER_CMD32 }
            },
            MState::EraseRowSent { ci, ri } => {
                self.state = MState::ReadyPending { ci, ri };
                Action::ReadByte { addr: NVMCTRL_STATUS_ADDR }
            },
            MState::ReadyPending { ci, ri } => match ev {
                Event::Byte(b) => {
                    if b & NVMCTRL_STATUS_READY == 0 {
                        self.state = MState::ReadyPending { ci, ri };
                        Action::ReadByte { addr: NVMCTRL_STATUS_ADDR }
                    } else {
                        let addr = self.row_address(ci, ri);
                        let bytes = clone_row(&self.plan[ci].rows[ri]);
                        self.state = MState::RowWriteSent { ci, ri };
                        Action::WriteBlock { addr, bytes }
                    }
                },
                _ => self.stray(),
            },
            MState::RowWriteSent { ci, ri } => {
                proof {
                    assert(pv[ci as int] == self.plan@[ci as int]@);
                    assert(chunk_plan_wf(pv[ci as int]));
                    assert(ci < self.plan.len());
                    assert(self.plan@[ci as int].rows.len() == self.plan@[
                        ci as int
                    ].rows@.len());
                    assert(ri < self.plan@[ci as int].rows.len());
                }
                if ri + 1 < self.plan[ci].rows.len() {
                    let addr = self.row_address(ci, ri + 1);
                    self.state = MState::AddrSent { ci, ri: ri + 1 };
                    Action::WriteWord { addr: NVMCTRL_ADDR_ADDR, value: addr }
                } else if ci + 1 < self.plan.len() {
                    self.state = MState::CtrlcSent { ci: ci + 1 };
                    Action::WriteByte { addr: NVMCTRL_CTRLC_ADDR, value: 0 }
                } else {
                    self.state = MState::Done;
                    Action::Finish { result: Ok(()) }
                }
            },
            MState::RowReadPending { ci, ri } => match ev {
                Event::Blob(v) => {
                    proof {
                        assert(pv[ci as int] == self.plan@[ci as int]@);
                        assert(chunk_plan_wf(pv[ci as int]));
                        assert(ci < self.plan.len());
                        assert(self.plan@[ci as int].rows.len() == self.plan@[
                            ci as int
                        ].rows@.len());
                        assert(ri < self.plan@[ci as int].rows.len());
                        assert(pv[ci as int].rows[ri as int] == self.plan@[ci as int].rows@[
                            ri as int
                        ]@);
                        lemma_first_diff_bounds(pv[ci as int].rows[ri as int], v@, 0);
                    }
                    let exp = &self.plan[ci].rows[ri];
                    let d = find_first_diff(exp, &v);
                    if d == 256 {
                        if ri + 1 < self.plan[ci].rows.len() {
                            let addr = self.row_address(ci, ri + 1);
                            self.state = MState::RowReadPending { ci, ri: ri + 1 };
                            Action::ReadBlock { addr, len: ROW_SIZE }
                        } else if ci + 1 < self.plan.len() {
                            let addr = self.row_address(ci + 1, 0);
                            self.state = MState::RowReadPending { ci: ci + 1, ri: 0 };
                            Action::ReadBlock { addr, len: ROW_SIZE }
                        } else {
                            self.state = MState::Done;
                            Action::Finish { result: Ok(()) }
                        }
                    } else {
                        let base = self.row_address(ci, ri);
                        let expected = self.plan[ci].rows[ri][d];
                        let actual = v[d];
                        self.state = MState::Done;
                        Action::Finish {
                            result: Err(
                                ErrorKind::VerifyMismatch {
                                    address: base + d as u32,
                                    expected,
                                    actual,
                                },
                            ),
                        }
                    }
                },
                _ => self.stray(),
            },
            MState::ResetPulseSent => {
                self.state = MState::ResetReleaseSent;
                Action::Pins { out: NRESET_SWCLK_PINS, mask: NRESET_SWCLK_PINS, wait_ms: 0 }
            },
            MState::ResetReleaseSent => {
                self.state = MState::Done;
                Action::Finish { result: Ok(()) }
            },
            MState::Done => self.stray(),
        }
    }

    /// Transition for an event that does not answer the outstanding action;
    /// unreachable when the embedder honours `expects`.
    fn stray(&mut self) -> (act: Action)
        ensures
            final(self).op == old(self).op,
            final(self).plan == old(self).plan,
            (final(self).state, act@) == stray_event(),
    {
        self.state = MState::Done;
        Action::Finish { result: Err(ErrorKind::TransportError) }
    }

    /// The device address of row `ri` of chunk `ci`.
    fn row_address(&self, ci: usize, ri: usize) -> (addr: u32)
        requires
            plan_wf(self.plan_view()),
            ci < self.plan_view().len(),
            ri < self.plan_view()[ci as int].rows.len(),
        ensures
            addr == row_addr(self.plan_view(), ci as int, ri as int),
    {
        proof {
            assert(chunk_plan_wf(self.plan_view()[ci as int]));
            assert(self.plan_view()[ci as int].address + (ri as int) * 256 + 256
                <= 0x1_0000_0000);
        }
        self.plan[ci].address + (ri as u32) * 256
    }
}

/// Byte-for-byte copy of one row buffer.
fn clone_row(r: &Vec<u8>) -> (out: Vec<u8>)
    ensures
        out@ == r@,
{
    let mut out: Vec<u8> = Vec::new();
    let mut i: usize = 0;
    while i < r.len()
        invariant
            i <= r.len(),
            out@ == r@.take(i as int),
        decreases r.len() - i,
    {
        out.push(r[i]);
        proof {
            assert(out@ =~= r@.take(i + 1));
        }
        i += 1;
    }
    proof {
        assert(r@.take(r@.len() as int) =~= r@);
    }
    out
}

/// If `exp` and `got` agree on everything before `i`, the first
/// disagreement overall is the first at or after `i`.
proof fn lemma_first_diff_skip(exp: Seq<u8>, got: Seq<u8>, i: int)
    requires
        0 <= i <= exp.len(),
        forall|j: int| 0 <= j < i ==> got[j] == exp[j],
    ensures
        first_diff_from(exp, got, 0) == first_diff_from(exp, got, i),
    decreases i,
{
    if i > 0 {
        lemma_first_diff_skip(exp, got, i - 1);
    }
}

/// The first disagreement lies between `i` and the length; at it the two
/// sequences differ, and below it they agree.
pub proof fn lemma_first_diff_bounds(exp: Seq<u8>, got: Seq<u8>, i: int)
    requires
        0 <= i <= exp.len(),
    ensures
        i <= first_diff_from(exp, got, i) <= exp.len(),
        first_diff_from(exp, got, i) < exp.len() ==> got[first_diff_from(exp, got, i)]
            != exp[first_diff_from(exp, got, i)],
        forall|j: int|
            i <= j < first_diff_from(exp, got, i) ==> got[j] == exp[j],
    decreases exp.len() - i,
{
    if i < exp.len() && got[i] == exp[i] {
        lemma_first_diff_bounds(exp, got, i + 1);
    }
}

/// Equal sequences have no first disagreement.
pub proof fn lemma_first_diff_equal(a: Seq<u8>, i: int)
    requires
        0 <= i <= a.len(),
    ensures
        first_diff_from(a, a, i) == a.len(),
    decreases a.len() - i,
{
    if i < a.len() {
        lemma_first_diff_equal(a, i + 1);
    }
}

/// Every row index below `n_rows` starts strictly inside the payload.
proof fn lemma_row_index_in_chunk(len: int, r: int)
    requires
        0 < len,
        0 <= r < n_rows(len),
    ensures
        r * 256 < len,
{
    lemma_fundamental_div_mod(len, 256);
}

/// A row-aligned gap of at least `len` bytes between two aligned addresses
/// holds all the rows of a chunk of `len` bytes, padding included.
proof fn lemma_aligned_gap_fits_rows(a1: int, len: int, a2: int)
    requires
        a1 >= 0,
        0 < len,
        a1 % 256 == 0,
        a2 % 256 == 0,
        a1 + len <= a2,
    ensures
        a1 + n_rows(len) * 256 <= a2,
{
    let n = n_rows(len);
    lemma_fundamental_div_mod(len, 256);
    // n * 256 < len + 256 in both the exact and the padded case.
    assert(n * 256 < len + 256);
    let d = a2 - a1;
    lemma_fundamental_div_mod(a1, 256);
    lemma_fundamental_div_mod(a2, 256);
    let q1 = a1 / 256;
    let q2 = a2 / 256;
    assert(d == 256 * (q2 - q1));
    // A multiple of 256 strictly above another multiple exceeds it by a
    // full 256, so n * 256 <= d follows from n * 256 < d + 256.
    assert(n * 256 < 256 * (q2 - q1) + 256);
    assert(n < q2 - q1 + 1);
    assert(n * 256 <= (q2 - q1) * 256) by (nonlinear_arith)
        requires
            n <= q2 - q1,
    ;
    assert((q2 - q1) * 256 == d) by (nonlinear_arith)
        requires
            d == 256 * (q2 - q1),
    ;
}

/// A row that starts inside a row-aligned chunk lying within the 32-bit
/// address space also ends within it.
proof fn lemma_rows_fit(address: int, len: int, r: int)
    requires
        address >= 0,
        address % 256 == 0,
        0 < len,
        address + len <= 0x1_0000_0000,
        0 <= r,
        r * 256 < len,
    ensures
        address + r * 256 + 256 <= 0x1_0000_0000,
{
    lemma_fundamental_div_mod(address, 256);
    let a = address / 256;
    assert(address == 256 * a);
    // 256 * r < len <= 256 * (0x100_0000 - a), so r <= 0x100_0000 - a - 1.
    assert(r * 256 < 256 * (0x100_0000 - a));
    assert(r <= 0x100_0000 - a - 1);
    assert(r * 256 <= (0x100_0000 - a - 1) * 256) by (nonlinear_arith)
        requires
            r <= 0x100_0000 - a - 1,
    ;
    assert((0x100_0000 - a - 1) * 256 == 0x1_0000_0000 - 256 * a - 256) by (nonlinear_arith);
}

/// Index of the first disagreement between two equal-length buffers, or
/// their length when equal.
fn find_first_diff(exp: &Vec<u8>, got: &Vec<u8>) -> (d: usize)
    requires
        exp@.len() == got@.len(),
    ensures
        d == first_diff_from(exp@, got@, 0),
{
    let n = exp.len();
    let mut i: usize = 0;
    while i < n
        invariant
            i <= n,
            n == exp@.len(),
            exp@.len() == got@.len(),
            forall|j: int| 0 <= j < i ==> got@[j] == exp@[j],
        decreases n - i,
    {
        if exp[i] != got[i] {
            proof {
                lemma_first_diff_skip(exp@, got@, i as int);
            }
            return i;
        }
        i += 1;
    }
    proof {
        lemma_first_diff_skip(exp@, got@, n as int);
    }
    n
}

/// Row `ri` of the chunk, padded to the full row size with `0xFF`.
fn build_row(bin: &Vec<u8>, off: usize, len: usize, ri: usize) -> (row: Vec<u8>)
    requires
        off + len <= bin.len(),
        (ri as int) * 256 < len,
    ensures
        row@ == padded_row(bin@.subrange(off as int, off + len), ri as int),
{
    let base = ri * 256;
    let mut row: Vec<u8> = Vec::new();
    let mut j: usize = 0;
    while j < 256
        invariant
            j <= 256,
            base == (ri as int) * 256,
            base < len,
            off + len <= bin.len(),
            row@.len() == j,
            forall|t: int|
                0 <= t < j ==> row@[t] == (if base + t < len {
                    bin@[off + base + t]
                } else {
                    0xFFu8
                }),
        decreases 256 - j,
    {
        if j < len - base {
            row.push(bin[off + base + j]);
        } else {
            row.push(0xFFu8);
        }
        j += 1;
    }
    proof {
        assert(row@ =~= padded_row(bin@.subrange(off as int, off + len), ri as int));
    }
    row
}

/// The row plan of one chunk: its padded rows, in order.
fn build_chunk(bin: &Vec<u8>, c: DataChunk) -> (cp: ChunkPlan)
    requires
        c.segment_filesize > 0,
        c.segment_offset + c.segment_filesize <= bin.len(),
        c.address % 256 == 0,
        c.address + c.segment_filesize <= 0x1_0000_0000,
    ensures
        cp@ == (ChunkPlanV {
            address: c.address,
            rows: padded_rows(chunk_bytes(bin@, c)),
        }),
        chunk_plan_wf(cp@),
{
    let off = c.segment_offset as usize;
    let len = c.segment_filesize as usize;
    let ghost bytes = chunk_bytes(bin@, c);
    proof {
        assert(bytes.len() == len);
    }
    let nfull = len / 256;
    let nrows = if len % 256 == 0 {
        nfull
    } else {
        nfull + 1
    };
    proof {
        assert(nrows == n_rows(len as int));
        assert(nrows >= 1) by {
            lemma_fundamental_div_mod(len as int, 256);
        }
    }
    let mut rows: Vec<Vec<u8>> = Vec::new();
    let mut ri: usize = 0;
    while ri < nrows
        invariant
            ri <= nrows,
            nrows == n_rows(len as int),
            0 < len,
            off + len <= bin.len(),
            off == c.segment_offset,
            len == c.segment_filesize,
            bytes == chunk_bytes(bin@, c),
            rows@.len() == ri,
            forall|t: int| 0 <= t < ri ==> (#[trigger] rows@[t])@ == padded_row(bytes, t),
        decreases nrows - ri,
    {
        proof {
            lemma_row_index_in_chunk(len as int, ri as int);
        }
        let row = build_row(bin, off, len, ri);
        proof {
            assert(bin@.subrange(off as int, off + len) == bytes);
        }
        rows.push(row);
        ri += 1;
    }
    let cp = ChunkPlan { address: c.address, rows };
    proof {
        assert(cp@.rows =~~= padded_rows(bytes));
        assert(cp@ =~~= ChunkPlanV { address: c.address, rows: padded_rows(bytes) });
        assert forall|r: int| 0 <= r < cp@.rows.len() implies (#[trigger] cp@.rows[r]).len()
            == 256 by {
            assert(cp@.rows[r] == padded_row(bytes, r));
        }
        assert forall|r: int|
            0 <= r < cp@.rows.len() implies cp@.address + #[trigger] (r * 256) + 256
            <= 0x1_0000_0000 by {
            lemma_row_index_in_chunk(len as int, r);
            lemma_rows_fit(c.address as int, len as int, r);
        }
    }
    cp
}

/// The full row plan of an image, one entry per chunk.
fn build_plan(data: &FlashData) -> (plan: Vec<ChunkPlan>)
    requires
        data.wf(),
        data.row_aligned(),
    ensures
        plan_views(plan@) == plan_of(data.bin_data@, data.chunks@),
        plan_wf(plan_views(plan@)),
        plan_ordered(plan_views(plan@)),
{
    let n = data.chunks.len();
    let mut plan: Vec<ChunkPlan> = Vec::new();
    let mut i: usize = 0;
    while i < n
        invariant
            i <= n,
            n == data.chunks@.len(),
            data.wf(),
            data.row_aligned(),
            plan@.len() == i,
            forall|t: int|
                0 <= t < i ==> (#[trigger] plan@[t])@ == (ChunkPlanV {
                    address: data.chunks@[t].address,
                    rows: padded_rows(chunk_bytes(data.bin_data@, data.chunks@[t])),
                }) && chunk_plan_wf(plan@[t]@),
        decreases n - i,
    {
        let c = data.chunks[i];
        proof {
            assert(data.chunks@[i as int].segment_filesize > 0);
            assert(crate::elf::chunk_file_end(data.chunks@[i as int]) <= data.bin_data@.len());
            assert(crate::elf::chunk_end(data.chunks@[i as int]) <= 0x1_0000_0000);
            assert(data.bin_data@.len() == data.bin_data.len());
        }
        let cp = build_chunk(&data.bin_data, c);
        plan.push(cp);
        i += 1;
    }
    proof {
        assert(plan_views(plan@) =~~= plan_of(data.bin_data@, data.chunks@));
        assert forall|t: int| 0 <= t < plan_views(plan@).len() implies chunk_plan_wf(
            #[trigger] plan_views(plan@)[t],
        ) by {
            assert(plan_views(plan@)[t] == plan@[t]@);
        }
        let pv = plan_views(plan@);
        assert forall|t: int|
            0 <= t < pv.len() - 1 implies pv[t].address + pv[t].rows.len() * 256
            <= #[trigger] pv[t + 1].address by {
            let a = data.chunks@[t];
            let c = data.chunks@[t + 1];
            assert(pv[t] == plan@[t]@);
            assert(pv[t + 1] == plan@[t + 1]@);
            assert(pv[t].rows.len() == n_rows(a.segment_filesize as int));
            assert(crate::elf::chunk_end(a) <= data.chunks@[(t) + 1].address);
            assert(a.segment_filesize > 0);
            lemma_aligned_gap_fits_rows(
                a.address as int,
                a.segment_filesize as int,
                c.address as int,
            );
        }
    }
    plan
}

/// The ATSAML10 device: a factory for the four programmer sessions, which
/// must run in the order `erase`, `program`, `verify`, `reset`.
pub struct Atsaml10(());

impl Atsaml10 {
    pub fn new() -> (s: Self) {
        Atsaml10(())
    }

    /// Begin a chip-erase session: reset extension, exit from extension,
    /// Boot ROM interactive mode, chip erase, status polling.
    pub fn erase(&self) -> (m: Session)
        ensures
            m.op is Erase,
            m.state is Start,
            m.wf(),
    {
        let m = Session { op: OpKind::Erase, plan: Vec::new(), state: MState::Start };
        proof {
            assert(m.plan_view() =~= Seq::<ChunkPlanV>::empty());
        }
        m
    }

    /// Begin a programming session for `data`: reset extension, exit to
    /// park, then per chunk the row erase/write loop of the plan
    /// `plan_of(data)`.
    pub fn program(&self, data: &FlashData) -> (m: Session)
        requires
            data.wf(),
            data.row_aligned(),
        ensures
            m.op is Program,
            m.state is Start,
            m.wf(),
            m.plan_view() == plan_of(data.bin_data@, data.chunks@),
            plan_ordered(m.plan_view()),
    {
        Session { op: OpKind::Program, plan: build_plan(data), state: MState::Start }
    }

    /// Begin a verify session for `data`: reset extension, exit to park,
    /// then a row-by-row read-back compared against `plan_of(data)`.
    pub fn verify(&self, data: &FlashData) -> (m: Session)
        requires
            data.wf(),
            data.row_aligned(),
        ensures
            m.op is Verify,
            m.state is Start,
            m.wf(),
            m.plan_view() == plan_of(data.bin_data@, data.chunks@),
            plan_ordered(m.plan_view()),
    {
        Session { op: OpKind::Verify, plan: build_plan(data), state: MState::Start }
    }

    /// Begin the final board-level reset: a two-millisecond nRESET pulse
    /// with SWCLK held high so the part boots user code instead of
    /// re-entering reset extension.
    pub fn reset(&self) -> (m: Session)
        ensures
            m.op is Reset,
            m.state is Start,
            m.wf(),
    {
        let m = Session { op: OpKind::Reset, plan: Vec::new(), state: MState::Start };
        proof {
            assert(m.plan_view() =~= Seq::<ChunkPlanV>::empty());
        }
        m
    }
}

/// The plan of any well-formed, row-aligned image is admissible: every
/// chunk plan is well-formed and the row spans of consecutive chunks do
/// not overlap.  `program` and `verify` sessions run over exactly this
/// plan.
pub proof fn lemma_image_plan_admissible(data: FlashData)
    requires
        data.wf(),
        data.row_aligned(),
    ensures
        plan_wf(plan_of(data.bin_data@, data.chunks@)),
        plan_ordered(plan_of(data.bin_data@, data.chunks@)),
        plan_of(data.bin_data@, data.chunks@).len() <= usize::MAX,
{
    let plan = plan_of(data.bin_data@, data.chunks@);
    assert(data.chunks@.len() == data.chunks.len());
    assert forall|i: int| 0 <= i < plan.len() implies chunk_plan_wf(#[trigger] plan[i]) by {
        let c = data.chunks@[i];
        let len = c.segment_filesize as int;
        assert(c.segment_filesize > 0);
        assert(crate::elf::chunk_end(c) <= 0x1_0000_0000);
        assert(chunk_bytes(data.bin_data@, c).len() == len);
        assert(plan[i].rows == padded_rows(chunk_bytes(data.bin_data@, c)));
        assert(plan[i].rows.len() == n_rows(len));
        assert(n_rows(len) >= 1) by {
            lemma_fundamental_div_mod(len, 256);
        }
        assert forall|r: int|
            0 <= r < plan[i].rows.len() implies plan[i].address + #[trigger] (r * 256) + 256
            <= 0x1_0000_0000 by {
            lemma_row_index_in_chunk(len, r);
            lemma_rows_fit(c.address as int, len, r);
        }
    }
    assert forall|i: int|
        0 <= i < plan.len() - 1 implies plan[i].address + plan[i].rows.len() * 256
        <= #[trigger] plan[i + 1].address by {
        let a = data.chunks@[i];
        let b = data.chunks@[i + 1];
        assert(crate::elf::chunk_end(a) <= data.chunks@[(i) + 1].address);
        assert(plan[i].rows.len() == n_rows(a.segment_filesize as int));
        lemma_aligned_gap_fits_rows(
            a.address as int,
            a.segment_filesize as int,
            b.address as int,
        );
    }
}

/// A flash of `len` blank cells.
pub open spec fn erased_flash(len: nat) -> Seq<u8> {
    Seq::new(len, |i: int| 0xFFu8)
}

/// Within one row the protocol order is fixed: the `NVMCTRL.ADDR` write is
/// followed by the `CTRLA` row-erase command, the erase by the `READY`
/// poll, the payload is written only once `READY` is observed, and the row
/// pointer advances only after the payload write completes.
pub proof fn lemma_row_protocol_order(plan: Seq<ChunkPlanV>, ci: usize, ri: usize, status: u8)
    requires
        plan_wf(plan),
        (ci as int) < plan.len(),
        (ri as int) < plan[ci as int].rows.len(),
    ensures
        next(OpKind::Program, plan, MState::AddrSent { ci, ri }, EventV::Ack) == (
            MState::EraseRowSent { ci, ri },
            ActionV::WriteWord { addr: NVMCTRL_CTRLA_ADDR, value: NVMCTRL_CTRLA_ER_CMD32 },
        ),
        next(OpKind::Program, plan, MState::EraseRowSent { ci, ri }, EventV::Ack) == (
            MState::ReadyPending { ci, ri },
            ActionV::ReadByte { addr: NVMCTRL_STATUS_ADDR },
        ),
        status & NVMCTRL_STATUS_READY == 0 ==> next(
            OpKind::Program,
            plan,
            MState::ReadyPending { ci, ri },
            EventV::Byte(status),
        ) == (MState::ReadyPending { ci, ri }, ActionV::ReadByte { addr: NVMCTRL_STATUS_ADDR }),
        status & NVMCTRL_STATUS_READY != 0 ==> next(
            OpKind::Program,
            plan,
            MState::ReadyPending { ci, ri },
            EventV::Byte(status),
        ) == (
            MState::RowWriteSent { ci, ri },
            ActionV::WriteBlock {
                addr: row_addr(plan, ci as int, ri as int),
                bytes: plan[ci as int].rows[ri as int],
            },
        ),
        next(OpKind::Program, plan, MState::RowWriteSent { ci, ri }, EventV::Ack)
            == program_advance(plan, ci as int, ri as int),
{
}

/// A row whose payload is all `0xFF` still goes through the full
/// erase-then-write protocol: the transition sequence does not depend on
/// the payload bytes.
pub proof fn lemma_blank_row_protocol(plan: Seq<ChunkPlanV>, ci: usize, ri: usize, status: u8)
    requires
        plan_wf(plan),
        (ci as int) < plan.len(),
        (ri as int) < plan[ci as int].rows.len(),
        plan[ci as int].rows[ri as int] == erased_flash(256),
    ensures
        next(OpKind::Program, plan, MState::AddrSent { ci, ri }, EventV::Ack) == (
            MState::EraseRowSent { ci, ri },
            ActionV::WriteWord { addr: NVMCTRL_CTRLA_ADDR, value: NVMCTRL_CTRLA_ER_CMD32 },
        ),
        status & NVMCTRL_STATUS_READY != 0 ==> next(
            OpKind::Program,
            plan,
            MState::ReadyPending { ci, ri },
            EventV::Byte(status),
        ) == (
            MState::RowWriteSent { ci, ri },
            ActionV::WriteBlock {
                addr: row_addr(plan, ci as int, ri as int),
                bytes: erased_flash(256),
            },
        ),
{
    lemma_row_protocol_order(plan, ci, ri, status);
}

/// `CRSTEXT` observed clear right after the reset-extension pin sequence
/// ends the session with exactly one `ResetExtensionFailed`.
pub proof fn lemma_reset_extension_failure(op: OpKind, plan: Seq<ChunkPlanV>, statusa: u8)
    requires
        statusa & CRSTEXT_BIT == 0,
    ensures
        next(op, plan, MState::StatusaPending, EventV::Byte(statusa)) == (
            MState::Done,
            ActionV::Finish { result: Err::<(), ErrorKind>(ErrorKind::ResetExtensionFailed) },
        ),
{
}

/// Every session emits exactly one terminal `Finish`: a step emits a
/// `Finish` exactly when it moves the session to `Done`, and `step`
/// requires the session not yet done, so nothing follows a `Finish`.  The
/// embedder that owns the probe returns it on `Finish(Ok)` and releases it
/// on `Finish(Err)`.
pub proof fn lemma_single_finish(op: OpKind, plan: Seq<ChunkPlanV>, s: MState, ev: EventV)
    ensures
        (next(op, plan, s, ev).1 is Finish) <==> (next(op, plan, s, ev).0 is Done),
{
}

/// What `program` writes for a row is byte-for-byte what `verify` expects
/// at the same address: a read-back that returns the written bytes
/// advances without a mismatch, so `program(image); verify(image)` on a
/// part that retains the writes reports none.
pub proof fn lemma_program_verify_agree(plan: Seq<ChunkPlanV>, ci: usize, ri: usize, status: u8)
    requires
        plan_wf(plan),
        (ci as int) < plan.len(),
        (ri as int) < plan[ci as int].rows.len(),
        status & NVMCTRL_STATUS_READY != 0,
    ensures
        next(OpKind::Program, plan, MState::ReadyPending { ci, ri }, EventV::Byte(status)).1
            == (ActionV::WriteBlock {
            addr: row_addr(plan, ci as int, ri as int),
            bytes: plan[ci as int].rows[ri as int],
        }),
        next(
            OpKind::Verify,
            plan,
            MState::RowReadPending { ci, ri },
            EventV::Blob(plan[ci as int].rows[ri as int]),
        ) == verify_advance(plan, ci as int, ri as int),
        !(verify_advance(plan, ci as int, ri as int).1 matches ActionV::Finish { result }
            && result is Err),
{
    assert(chunk_plan_wf(plan[ci as int]));
    assert(plan[ci as int].rows[ri as int].len() == 256);
    lemma_first_diff_equal(plan[ci as int].rows[ri as int], 0);
}

/// A final partial row is padded with `0xFF` up to the row size: the row
/// written (and expected back by `verify`) carries the payload bytes first
/// and blank-flash bytes after.
pub proof fn lemma_partial_row_padding(bytes: Seq<u8>, r: int)
    requires
        0 <= r,
        r * 256 < bytes.len(),
        bytes.len() < r * 256 + 256,
    ensures
        padded_rows(bytes).len() == r + 1,
        padded_rows(bytes)[r].len() == 256,
        forall|j: int|
            0 <= j < 256 && r * 256 + j < bytes.len() ==> #[trigger] padded_rows(bytes)[r][j]
                == bytes[r * 256 + j],
        forall|j: int|
            0 <= j < 256 && r * 256 + j >= bytes.len() ==> #[trigger] padded_rows(bytes)[r][j]
                == 0xFFu8,
{
    let len = bytes.len() as int;
    lemma_fundamental_div_mod_converse_div(len, 256, r, len - r * 256);
    lemma_fundamental_div_mod_converse_mod(len, 256, r, len - r * 256);
    assert(n_rows(len) == r + 1);
}

/// A chunk of exactly one row size programs in one row with no padding.
pub proof fn lemma_single_row_no_padding(bytes: Seq<u8>)
    requires
        bytes.len() == 256,
    ensures
        padded_rows(bytes) == seq![bytes],
{
    assert(n_rows(256) == 1);
    assert(padded_row(bytes, 0) =~= bytes);
    assert(padded_rows(bytes) =~~= seq![bytes]);
}

} // verus!
