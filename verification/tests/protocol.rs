//! End-to-end scenarios against a simulated target: a model of the DSU,
//! the NVMCTRL and a 16 KiB flash array, driven through the sessions'
//! action/event interface exactly as a probe-owning embedder would.

use saml10::ErrorKind;
use saml10::elf::DataChunk;
use saml10::elf::FlashData;
use saml10::sam::Action;
use saml10::sam::Atsaml10;
use saml10::sam::Event;
use saml10::sam::Session;
use saml10::sam::BCCD1_BIT;
use saml10::sam::CMD_CHIPERASE;
use saml10::sam::CMD_EXIT;
use saml10::sam::CMD_INIT;
use saml10::sam::CRSTEXT_BIT;
use saml10::sam::DSU_BCC0_ADDR;
use saml10::sam::DSU_BCC1_ADDR;
use saml10::sam::DSU_STATUSA_ADDR;
use saml10::sam::DSU_STATUSB_ADDR;
use saml10::sam::NVMCTRL_ADDR_ADDR;
use saml10::sam::NVMCTRL_CTRLA_ADDR;
use saml10::sam::NVMCTRL_CTRLA_ER_CMD32;
use saml10::sam::NVMCTRL_CTRLC_ADDR;
use saml10::sam::NVMCTRL_STATUS_ADDR;
use saml10::sam::NVMCTRL_STATUS_READY;
use saml10::sam::SIG_BOOTOK;
use saml10::sam::SIG_CMD_SUCCESS;
use saml10::sam::SIG_CMD_VALID;
use saml10::sam::SIG_COMM;

const FLASH_SIZE: usize = 16 * 1024;

/// A simulated ATSAML10: DSU registers, the Boot ROM command channel, the
/// NVMCTRL row machinery, and a blank 16 KiB flash.
struct Sim {
    flash: Vec<u8>,
    /// Whether the part honours the cold-plug pin pattern by entering
    /// reset extension; clear simulates a missed reset extension.
    reset_extension_works: bool,
    /// Current value of the `CRSTEXT` bit; set by the pin sequence,
    /// cleared by the W1C write.
    crstext_set: bool,
    /// The cold-plug pattern (nRESET and SWCLK both driven low) has been
    /// seen; the next nRESET rise enters reset extension.
    armed_cold_plug: bool,
    bccd1: bool,
    bcc1: u32,
    /// Chip-erase in progress: `VALID` reads remaining before `SUCCESS`.
    erase_countdown: Option<u32>,
    /// Never complete the chip erase: report `SIG_CMD_VALID` forever.
    erase_forever_valid: bool,
    nvm_addr: u32,
    addr_set_since_erase: bool,
    row_erased: Option<u32>,
    ctrlc_zeroed: bool,
    sleep_ms: u64,
    row_erases: Vec<u32>,
    block_writes: Vec<(u32, usize)>,
    block_reads: usize,
    /// Kinds of actions performed, for determinism checks.
    action_log: Vec<String>,
}

impl Sim {
    fn new() -> Sim {
        Sim {
            flash: vec![0xFF; FLASH_SIZE],
            reset_extension_works: true,
            crstext_set: false,
            armed_cold_plug: false,
            bccd1: false,
            bcc1: 0,
            erase_countdown: None,
            erase_forever_valid: false,
            nvm_addr: 0,
            addr_set_since_erase: false,
            row_erased: None,
            ctrlc_zeroed: false,
            sleep_ms: 0,
            row_erases: Vec::new(),
            block_writes: Vec::new(),
            block_reads: 0,
            action_log: Vec::new(),
        }
    }

    fn handle(&mut self, act: &Action) -> Event {
        match act {
            Action::Pins { out, mask, .. } => {
                self.action_log.push("pins".to_string());
                if *mask == 0x81 && *out == 0 {
                    self.armed_cold_plug = true;
                } else if *out & 0x80 != 0 && self.armed_cold_plug {
                    self.crstext_set = self.reset_extension_works;
                    self.armed_cold_plug = false;
                }
                Event::Ack
            }
            Action::Initialize => {
                self.action_log.push("init".to_string());
                Event::Ack
            }
            Action::SleepMs { ms } => {
                self.action_log.push(format!("sleep{}", ms));
                self.sleep_ms += ms;
                Event::Ack
            }
            Action::ReadByte { addr } => {
                self.action_log.push(format!("rb{:08x}", addr));
                let v = match *addr {
                    DSU_STATUSA_ADDR => {
                        if self.crstext_set {
                            CRSTEXT_BIT
                        } else {
                            0
                        }
                    }
                    DSU_STATUSB_ADDR => {
                        if self.bccd1 {
                            BCCD1_BIT
                        } else {
                            0
                        }
                    }
                    NVMCTRL_STATUS_ADDR => NVMCTRL_STATUS_READY,
                    _ => 0,
                };
                Event::Byte(v)
            }
            Action::WriteByte { addr, value } => {
                self.action_log.push(format!("wb{:08x}", addr));
                if *addr == DSU_STATUSA_ADDR && value & CRSTEXT_BIT != 0 {
                    // W1C semantics.
                    self.crstext_set = false;
                }
                if *addr == NVMCTRL_CTRLC_ADDR && *value == 0 {
                    self.ctrlc_zeroed = true;
                }
                Event::Ack
            }
            Action::ReadWord { addr } => {
                self.action_log.push(format!("rw{:08x}", addr));
                if *addr == DSU_BCC1_ADDR {
                    let v = self.bcc1;
                    if v == SIG_CMD_VALID && !self.erase_forever_valid {
                        if let Some(left) = self.erase_countdown {
                            if left == 0 {
                                self.bcc1 = SIG_CMD_SUCCESS;
                                self.flash = vec![0xFF; FLASH_SIZE];
                                self.erase_countdown = None;
                            } else {
                                self.erase_countdown = Some(left - 1);
                            }
                        }
                    }
                    Event::Word(v)
                } else {
                    Event::Word(0)
                }
            }
            Action::WriteWord { addr, value } => {
                self.action_log.push(format!("ww{:08x}", addr));
                match *addr {
                    DSU_BCC0_ADDR => match *value {
                        CMD_INIT => self.bcc1 = SIG_COMM,
                        CMD_CHIPERASE => {
                            self.bcc1 = SIG_CMD_VALID;
                            self.erase_countdown = Some(1);
                        }
                        CMD_EXIT => {
                            self.bcc1 = SIG_BOOTOK;
                            self.bccd1 = true;
                        }
                        _ => {}
                    },
                    NVMCTRL_ADDR_ADDR => {
                        self.nvm_addr = *value;
                        self.addr_set_since_erase = true;
                    }
                    NVMCTRL_CTRLA_ADDR => {
                        if *value == NVMCTRL_CTRLA_ER_CMD32 {
                            // The ADDR write must precede every row erase.
                            assert!(self.addr_set_since_erase, "row erase without ADDR");
                            assert!(self.ctrlc_zeroed, "row erase before CTRLC setup");
                            let a = self.nvm_addr as usize;
                            for b in self.flash[a..a + 256].iter_mut() {
                                *b = 0xFF;
                            }
                            self.row_erases.push(self.nvm_addr);
                            self.row_erased = Some(self.nvm_addr);
                            self.addr_set_since_erase = false;
                        }
                    }
                    _ => {}
                }
                Event::Ack
            }
            Action::WriteBlock { addr, bytes } => {
                self.action_log.push(format!("wr{:08x}", addr));
                // The erase of this very row must precede its payload.
                assert_eq!(self.row_erased, Some(*addr), "row written before erased");
                self.row_erased = None;
                let a = *addr as usize;
                self.flash[a..a + bytes.len()].copy_from_slice(bytes);
                self.block_writes.push((*addr, bytes.len()));
                Event::Ack
            }
            Action::ReadBlock { addr, len } => {
                self.action_log.push(format!("rd{:08x}", addr));
                self.block_reads += 1;
                let a = *addr as usize;
                Event::Blob(self.flash[a..a + *len as usize].to_vec())
            }
            Action::Finish { .. } => unreachable!("Finish is handled by the driver"),
        }
    }
}

/// Drive one session to its end, the way a probe-owning embedder would.
fn run(mut sess: Session, sim: &mut Sim) -> Result<(), ErrorKind> {
    let mut act = sess.step(Event::Start);
    let mut steps: u64 = 0;
    loop {
        if let Action::Finish { result } = act {
            assert!(sess.is_done());
            return result;
        }
        let ev = sim.handle(&act);
        act = sess.step(ev);
        steps += 1;
        assert!(steps < 1_000_000, "session does not terminate");
    }
}

fn image(chunks: Vec<(u32, Vec<u8>)>) -> FlashData {
    let mut bin_data = Vec::new();
    let mut descrs = Vec::new();
    for (address, bytes) in chunks {
        descrs.push(DataChunk {
            address,
            segment_offset: bin_data.len() as u64,
            segment_filesize: bytes.len() as u64,
        });
        bin_data.extend_from_slice(&bytes);
    }
    let fd = FlashData {
        bin_data,
        chunks: descrs,
    };
    assert!(fd.check_wf());
    assert!(fd.check_row_aligned());
    fd
}

/// Happy path, single row: erase, program, verify, reset all succeed;
/// row 0 holds the payload and every other row stays blank.
#[test]
fn happy_path_single_row() {
    let bytes: Vec<u8> = (0..=255u8).collect();
    let fd = image(vec![(0x0000_0000, bytes.clone())]);
    let dev = Atsaml10::new();
    let mut sim = Sim::new();

    run(dev.erase(), &mut sim).unwrap();
    run(dev.program(&fd), &mut sim).unwrap();
    run(dev.verify(&fd), &mut sim).unwrap();
    run(dev.reset(), &mut sim).unwrap();

    assert_eq!(&sim.flash[0..256], &bytes[..]);
    assert!(sim.flash[256..].iter().all(|&b| b == 0xFF));
    assert_eq!(sim.block_writes, vec![(0, 256)]);
    assert_eq!(sim.row_erases, vec![0]);
}

/// Two contiguous chunks fuse into one that spans two rows; the second row
/// is padded with 0xFF and verify passes.
#[test]
fn fused_chunks_span_two_rows() {
    let a: Vec<u8> = (0..200u32).map(|i| (i & 0xFF) as u8).collect();
    let b: Vec<u8> = (0..120u32).map(|i| (0x40 + (i & 0xFF)) as u8).collect();
    // One fused chunk at 0x0000, length 320 (see the extraction tests for
    // the ELF-level fusion itself).
    let mut fused = a.clone();
    fused.extend_from_slice(&b);
    let fd = image(vec![(0x0000_0000, fused.clone())]);
    let dev = Atsaml10::new();
    let mut sim = Sim::new();

    run(dev.program(&fd), &mut sim).unwrap();
    run(dev.verify(&fd), &mut sim).unwrap();

    assert_eq!(&sim.flash[0..200], &a[..]);
    assert_eq!(&sim.flash[200..320], &b[..]);
    assert!(sim.flash[320..512].iter().all(|&x| x == 0xFF));
    assert_eq!(sim.block_writes, vec![(0, 256), (256, 256)]);
    assert_eq!(sim.row_erases, vec![0, 256]);
}

/// Reset extension missed: CRSTEXT reads clear, erase fails with exactly
/// `ResetExtensionFailed` and no flash row is touched.
#[test]
fn reset_extension_missed() {
    let dev = Atsaml10::new();
    let mut sim = Sim::new();
    sim.reset_extension_works = false;

    let r = run(dev.erase(), &mut sim);
    assert_eq!(r, Err(ErrorKind::ResetExtensionFailed));
    assert!(sim.row_erases.is_empty());
    assert!(sim.block_writes.is_empty());
    assert!(sim.flash.iter().all(|&b| b == 0xFF));
}

/// Chip erase never completes: BCC1 stays `SIG_CMD_VALID`; after the full
/// twenty-poll budget the session fails `EraseFailed(SIG_CMD_VALID)`
/// having waited at least twenty simulated seconds.
#[test]
fn chip_erase_never_completes() {
    let dev = Atsaml10::new();
    let mut sim = Sim::new();
    sim.erase_forever_valid = true;

    let r = run(dev.erase(), &mut sim);
    assert_eq!(r, Err(ErrorKind::EraseFailed(SIG_CMD_VALID)));
    let polls = sim
        .action_log
        .iter()
        .filter(|s| *s == &format!("sleep{}", 1000))
        .count();
    assert_eq!(polls, 20);
    assert!(sim.sleep_ms >= 20_000);
}

/// Verify mismatch: one corrupted byte is reported with its absolute
/// address, the expected byte and the observed byte, and no later row is
/// read.
#[test]
fn verify_mismatch_reports_first() {
    let bytes: Vec<u8> = (0..768u32).map(|i| (i & 0xFF) as u8).collect();
    let fd = image(vec![(0x0000_0000, bytes.clone())]);
    let dev = Atsaml10::new();
    let mut sim = Sim::new();

    run(dev.program(&fd), &mut sim).unwrap();
    sim.flash[0x0104] = 0xAA;
    sim.block_reads = 0;

    let r = run(dev.verify(&fd), &mut sim);
    assert_eq!(
        r,
        Err(ErrorKind::VerifyMismatch {
            address: 0x0104,
            expected: bytes[0x0104],
            actual: 0xAA,
        })
    );
    // Row 0 read and found equal, row 1 read and found corrupt; row 2 is
    // never read.
    assert_eq!(sim.block_reads, 2);
}

/// Non-row-aligned final chunk length: 260 bytes program as two rows, the
/// second with 4 payload bytes and 252 bytes of 0xFF padding; verify
/// succeeds.
#[test]
fn non_row_multiple_final_chunk() {
    let bytes: Vec<u8> = (0..260u32).map(|i| (7 + i & 0xFF) as u8).collect();
    let fd = image(vec![(0x0000_0000, bytes.clone())]);
    let dev = Atsaml10::new();
    let mut sim = Sim::new();

    run(dev.program(&fd), &mut sim).unwrap();
    run(dev.verify(&fd), &mut sim).unwrap();

    assert_eq!(sim.block_writes, vec![(0, 256), (256, 256)]);
    assert_eq!(&sim.flash[0..260], &bytes[..]);
    assert!(sim.flash[260..512].iter().all(|&x| x == 0xFF));
}

/// A final partial row is padded with 0xFF and the read-back verifies
/// equal.
#[test]
fn partial_row_padded_with_ff() {
    let bytes: Vec<u8> = vec![1, 2, 3, 4, 5, 6, 7, 8, 9, 10];
    let fd = image(vec![(0x0000_0100, bytes.clone())]);
    let dev = Atsaml10::new();
    let mut sim = Sim::new();

    run(dev.program(&fd), &mut sim).unwrap();
    run(dev.verify(&fd), &mut sim).unwrap();

    assert_eq!(&sim.flash[0x100..0x10A], &bytes[..]);
    assert!(sim.flash[0x10A..0x200].iter().all(|&x| x == 0xFF));
    assert_eq!(sim.block_writes, vec![(0x100, 256)]);
}

/// A chunk of exactly one row size programs in a single row write with no
/// padding beyond the payload.
#[test]
fn exact_row_no_padding() {
    let bytes: Vec<u8> = (0..256u32).map(|i| (i & 0xFF) as u8).collect();
    let fd = image(vec![(0x0000_0000, bytes.clone())]);
    let dev = Atsaml10::new();
    let mut sim = Sim::new();

    run(dev.program(&fd), &mut sim).unwrap();

    assert_eq!(sim.block_writes, vec![(0, 256)]);
    assert_eq!(sim.row_erases, vec![0]);
    assert_eq!(&sim.flash[0..256], &bytes[..]);
}

/// A chunk whose bytes are all 0xFF still goes through the erase-then-
/// write protocol for each of its rows.
#[test]
fn all_ff_chunk_still_erases_and_writes() {
    let bytes: Vec<u8> = vec![0xFF; 512];
    let fd = image(vec![(0x0000_0000, bytes)]);
    let dev = Atsaml10::new();
    let mut sim = Sim::new();

    run(dev.program(&fd), &mut sim).unwrap();

    assert_eq!(sim.row_erases, vec![0, 256]);
    assert_eq!(sim.block_writes, vec![(0, 256), (256, 256)]);
    assert!(sim.flash[0..512].iter().all(|&x| x == 0xFF));
}

/// Erase is idempotent: a second erase succeeds, performs the same
/// transaction sequence, and leaves the flash exactly as the first did.
#[test]
fn erase_twice_behaves_as_once() {
    let dev = Atsaml10::new();

    let mut sim1 = Sim::new();
    // Leave traces of earlier programming in the flash.
    sim1.flash[0..4].copy_from_slice(&[1, 2, 3, 4]);
    run(dev.erase(), &mut sim1).unwrap();
    let first_flash = sim1.flash.clone();
    let first_log = sim1.action_log.clone();

    sim1.action_log.clear();
    run(dev.erase(), &mut sim1).unwrap();

    assert_eq!(sim1.flash, first_flash);
    assert!(sim1.flash.iter().all(|&b| b == 0xFF));
    assert_eq!(sim1.action_log, first_log);
}

/// Programming an erased part and verifying the same image reports no
/// mismatch, for a multi-chunk image with padding in both chunks.
#[test]
fn program_then_verify_clean() {
    let c1: Vec<u8> = (0..300u32).map(|i| (i * 7 & 0xFF) as u8).collect();
    let c2: Vec<u8> = (0..40u32).map(|i| (i * 3 & 0xFF) as u8).collect();
    let fd = image(vec![(0x0000_0000, c1), (0x0000_0400, c2)]);
    let dev = Atsaml10::new();
    let mut sim = Sim::new();

    run(dev.erase(), &mut sim).unwrap();
    run(dev.program(&fd), &mut sim).unwrap();
    let r = run(dev.verify(&fd), &mut sim);
    assert_eq!(r, Ok(()));
}

/// The final reset drives the pins with SWCLK high so the part boots user
/// code; the session performs exactly two pin actions and succeeds.
#[test]
fn reset_is_two_pin_actions() {
    let dev = Atsaml10::new();
    let mut sim = Sim::new();
    let r = run(dev.reset(), &mut sim);
    assert_eq!(r, Ok(()));
    assert_eq!(sim.action_log, vec!["pins".to_string(), "pins".to_string()]);
}

/// A wrong Boot ROM handshake value fails the erase with
/// `BootRomHandshakeFailed`.
#[test]
fn bad_handshake_fails_erase() {
    let dev = Atsaml10::new();
    let mut sim = Sim::new();
    // Answer CMD_INIT with a stale value instead of SIG_COMM.
    let mut sess = dev.erase();
    let mut act = sess.step(Event::Start);
    let r = loop {
        if let Action::Finish { result } = act {
            break result;
        }
        let ev = match &act {
            Action::WriteWord { addr, value }
                if *addr == DSU_BCC0_ADDR && *value == CMD_INIT =>
            {
                sim.bcc1 = 0xDEAD_BEEF;
                Event::Ack
            }
            other => sim.handle(other),
        };
        act = sess.step(ev);
    };
    assert_eq!(r, Err(ErrorKind::BootRomHandshakeFailed));
}

/// A chip-erase command that is not acknowledged `SIG_CMD_VALID` fails
/// with `EraseRejected`.
#[test]
fn erase_rejected() {
    let dev = Atsaml10::new();
    let mut sim = Sim::new();
    let mut sess = dev.erase();
    let mut act = sess.step(Event::Start);
    let r = loop {
        if let Action::Finish { result } = act {
            break result;
        }
        let ev = match &act {
            Action::WriteWord { addr, value }
                if *addr == DSU_BCC0_ADDR && *value == CMD_CHIPERASE =>
            {
                sim.bcc1 = 0;
                Event::Ack
            }
            other => sim.handle(other),
        };
        act = sess.step(ev);
    };
    assert_eq!(r, Err(ErrorKind::EraseRejected));
}

/// A chip-erase poll that settles on an unexpected signature fails with
/// `EraseFailed` carrying that signature.
#[test]
fn erase_failed_carries_observed_value() {
    let dev = Atsaml10::new();
    let mut sim = Sim::new();
    let mut sess = dev.erase();
    let mut act = sess.step(Event::Start);
    let mut after_chiperase = false;
    let r = loop {
        if let Action::Finish { result } = act {
            break result;
        }
        let ev = match &act {
            Action::WriteWord { addr, value }
                if *addr == DSU_BCC0_ADDR && *value == CMD_CHIPERASE =>
            {
                after_chiperase = true;
                sim.bcc1 = SIG_CMD_VALID;
                Event::Ack
            }
            Action::ReadWord { addr } if *addr == DSU_BCC1_ADDR && after_chiperase => {
                let v = sim.bcc1;
                // After the VALID acknowledgement, post a bogus signature.
                sim.bcc1 = 0x1234_5678;
                Event::Word(v)
            }
            other => sim.handle(other),
        };
        act = sess.step(ev);
    };
    assert_eq!(r, Err(ErrorKind::EraseFailed(0x1234_5678)));
}

/// The erase session tolerates a posted Boot ROM diagnostic (`BCCD1` set
/// after the reset-extension exit) and still succeeds.
#[test]
fn bccd1_diagnostic_is_tolerated() {
    let dev = Atsaml10::new();
    let mut sim = Sim::new();
    sim.bccd1 = true;
    let r = run(dev.erase(), &mut sim);
    assert_eq!(r, Ok(()));
}

/// An empty image programs and verifies successfully without touching
/// flash.
#[test]
fn empty_image_programs_nothing() {
    let fd = image(vec![]);
    let dev = Atsaml10::new();
    let mut sim = Sim::new();
    run(dev.program(&fd), &mut sim).unwrap();
    run(dev.verify(&fd), &mut sim).unwrap();
    assert!(sim.block_writes.is_empty());
    assert!(sim.row_erases.is_empty());
    assert_eq!(sim.block_reads, 0);
}
