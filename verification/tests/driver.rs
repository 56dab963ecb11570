//! Runtime-driver tests: CSR encoding, bring-up, bulk framing, events.
#![allow(dead_code)]

use std::collections::BTreeMap;

use darwinn::csr::{self, RunControl};
use darwinn::{DescriptorTag, Driver, Error, PerformanceMode, Timeouts, Transport};
use embedded_hal::delay::DelayNs;

// ---------------------------------------------------------------------------
// Recorded transfers
// ---------------------------------------------------------------------------

/// One recorded USB transfer.
#[derive(Debug, Clone, PartialEq, Eq)]
pub enum Xfer {
    ControlIn {
        req_type: u8,
        request: u8,
        value: u16,
        index: u16,
        len: usize,
        timeout_us: u32,
    },
    ControlOut {
        req_type: u8,
        request: u8,
        value: u16,
        index: u16,
        data: Vec<u8>,
        timeout_us: u32,
    },
    BulkOut {
        ep: u8,
        data: Vec<u8>,
        timeout_us: u32,
    },
    BulkIn {
        ep: u8,
        len: usize,
        timeout_us: u32,
    },
    InterruptIn {
        ep: u8,
        len: usize,
        timeout_us: u32,
    },
}

/// A CSR transfer decoded back out of a [`Xfer`], for golden-sequence asserts.
#[derive(Debug, Clone, Copy, PartialEq, Eq)]
pub enum CsrOp {
    R32(u64),
    W32(u64, u32),
    R64(u64),
    W64(u64, u64),
}

impl Xfer {
    /// Rebuilds the CSR register address from `wValue`/`wIndex`.
    fn csr_reg(value: u16, index: u16) -> u64 {
        u64::from(value) | (u64::from(index) << 16)
    }

    /// Decodes this transfer as a CSR access, if it is one.
    pub fn as_csr(&self) -> Option<CsrOp> {
        match self {
            Xfer::ControlIn {
                req_type: 0xC0,
                request,
                value,
                index,
                ..
            } => Some(match request {
                1 => CsrOp::R32(Self::csr_reg(*value, *index)),
                _ => CsrOp::R64(Self::csr_reg(*value, *index)),
            }),
            Xfer::ControlOut {
                req_type: 0x40,
                request,
                value,
                index,
                data,
                ..
            } => {
                let reg = Self::csr_reg(*value, *index);
                Some(if *request == 1 {
                    CsrOp::W32(reg, u32::from_le_bytes(data[..4].try_into().unwrap()))
                } else {
                    CsrOp::W64(reg, u64::from_le_bytes(data[..8].try_into().unwrap()))
                })
            }
            _ => None,
        }
    }
}

/// Error type of [`Mock`].
#[derive(Debug, Clone, Copy, PartialEq, Eq)]
pub struct MockError;

// ---------------------------------------------------------------------------
// The mock device
// ---------------------------------------------------------------------------

pub struct Mock {
    /// Every transfer, in order.
    pub log: Vec<Xfer>,
    /// CSR register file. Unlisted registers read as zero.
    pub regs: BTreeMap<u64, u64>,
    /// When false, writes to `scu_ctrl_3` do not update `cur_pwr_state`, which
    /// is what a wedged chip looks like to the bring-up polls.
    pub power_state_follows: bool,
    /// Device-side DFU storage: what has been downloaded so far.
    pub dfu_flash: Vec<u8>,
    /// If set, `DFU_UPLOAD` serves these bytes instead of `dfu_flash`, so a
    /// read-back mismatch can be provoked.
    pub dfu_upload_override: Option<Vec<u8>>,
    /// `bStatus` returned by `DFU_GETSTATUS`.
    pub dfu_status: u8,
    /// `bState` returned by `DFU_GETSTATUS`.
    pub dfu_state: u8,
    /// Bytes served on the next bulk IN reads of the data endpoint, in order.
    pub bulk_in_data: Vec<Vec<u8>>,
    /// Bytes served on the event endpoint.
    pub event_data: Vec<u8>,
    /// What `interrupt_in` returns.
    pub interrupt_data: Option<Vec<u8>>,
    /// Block size the device-side DFU model uses to place blocks.
    pub dfu_block_size: usize,
    /// Registers that ignore writes, for modelling a broken control path.
    pub readonly_regs: Vec<u64>,
    /// Bytes to withhold from every control IN, for testing short transfers.
    pub control_in_short_by: usize,
}

impl Default for Mock {
    fn default() -> Self {
        let mut regs = BTreeMap::new();
        // A healthy part reports the Beagle chip ID.
        regs.insert(csr::OMC0_00, csr::CHIP_ID);
        // Arbitrary non-zero power-on values, so read-modify-writes are visible
        // in the recorded trace rather than being indistinguishable from zero.
        regs.insert(csr::SCU_CTRL_0, 0x0000_0941);
        regs.insert(csr::SCU_CTRL_2, 0x0000_0000);
        regs.insert(csr::SCU_CTRL_3, 0x8005_0410);
        regs.insert(csr::SCALAR_CORE_RUN_CONTROL, 0);
        Mock {
            log: Vec::new(),
            regs,
            power_state_follows: true,
            dfu_flash: Vec::new(),
            dfu_upload_override: None,
            dfu_status: 0,
            dfu_state: 2,
            bulk_in_data: Vec::new(),
            event_data: Vec::new(),
            interrupt_data: None,
            dfu_block_size: darwinn::DFU_BLOCK_SIZE,
            readonly_regs: Vec::new(),
            control_in_short_by: 0,
        }
    }
}

impl Mock {
    pub fn new() -> Self {
        Self::default()
    }

    /// Every recorded transfer decoded as a CSR access, non-CSR ones dropped.
    pub fn csr_ops(&self) -> Vec<CsrOp> {
        self.log.iter().filter_map(Xfer::as_csr).collect()
    }

    /// Every recorded bulk-OUT payload, in order.
    pub fn bulk_writes(&self) -> Vec<Vec<u8>> {
        self.log
            .iter()
            .filter_map(|x| match x {
                Xfer::BulkOut { data, .. } => Some(data.clone()),
                _ => None,
            })
            .collect()
    }

    fn reg(&self, addr: u64) -> u64 {
        self.regs.get(&addr).copied().unwrap_or(0)
    }

    /// Applies a CSR write, modelling the side effects the bring-up polls wait
    /// on.
    fn write_reg(&mut self, addr: u64, value: u64) {
        if self.readonly_regs.contains(&addr) {
            return;
        }
        self.regs.insert(addr, value);
        if addr == csr::SCU_CTRL_3 && self.power_state_follows {
            let force_sleep = csr::get_field(
                value,
                csr::SCU_CTRL_3_FORCE_SLEEP.0,
                csr::SCU_CTRL_3_FORCE_SLEEP.1,
            );
            let state = match force_sleep {
                csr::FORCE_SLEEP_RESET => csr::PWR_STATE_SLEEP,
                csr::FORCE_SLEEP_RUN => csr::PWR_STATE_ACTIVE,
                _ => return,
            };
            let updated = csr::set_field(
                value,
                csr::SCU_CTRL_3_CUR_PWR_STATE.0,
                csr::SCU_CTRL_3_CUR_PWR_STATE.1,
                state,
            );
            self.regs.insert(addr, updated);
        }
    }

    fn dfu_upload(&self, block: u16, buf: &mut [u8]) -> usize {
        let src = self.dfu_upload_override.as_ref().unwrap_or(&self.dfu_flash);
        let start = usize::from(block) * self.dfu_block_size;
        let end = (start + buf.len()).min(src.len());
        if start >= end {
            return 0;
        }
        let n = end - start;
        buf[..n].copy_from_slice(&src[start..end]);
        n
    }
}

impl Transport for Mock {
    type Error = MockError;

    fn control_in(
        &mut self,
        req_type: u8,
        request: u8,
        value: u16,
        index: u16,
        buf: &mut [u8],
        timeout_us: u32,
    ) -> Result<usize, Self::Error> {
        self.log.push(Xfer::ControlIn {
            req_type,
            request,
            value,
            index,
            len: buf.len(),
            timeout_us,
        });
        match req_type {
            // Vendor IN: a CSR read.
            0xC0 => {
                let raw = self.reg(Xfer::csr_reg(value, index));
                let bytes = raw.to_le_bytes();
                buf.copy_from_slice(&bytes[..buf.len()]);
                Ok(buf.len() - self.control_in_short_by.min(buf.len()))
            }
            // Class IN: DFU_GETSTATUS or DFU_UPLOAD.
            0xA1 => match request {
                0x03 => {
                    let status = [self.dfu_status, 0, 0, 0, self.dfu_state, 0];
                    buf.copy_from_slice(&status[..buf.len()]);
                    Ok(buf.len())
                }
                0x02 => Ok(self.dfu_upload(value, buf)),
                _ => Err(MockError),
            },
            _ => Err(MockError),
        }
    }

    fn control_out(
        &mut self,
        req_type: u8,
        request: u8,
        value: u16,
        index: u16,
        data: &[u8],
        timeout_us: u32,
    ) -> Result<(), Self::Error> {
        self.log.push(Xfer::ControlOut {
            req_type,
            request,
            value,
            index,
            data: data.to_vec(),
            timeout_us,
        });
        match req_type {
            // Vendor OUT: a CSR write.
            0x40 => {
                let mut raw = [0u8; 8];
                raw[..data.len()].copy_from_slice(data);
                self.write_reg(Xfer::csr_reg(value, index), u64::from_le_bytes(raw));
                Ok(())
            }
            // Class OUT: DFU_DNLOAD or DFU_DETACH.
            0x21 => {
                // The zero-length DNLOAD that terminates a download must not
                // extend the image.
                if request == 0x01 && !data.is_empty() {
                    let start = usize::from(value) * self.dfu_block_size;
                    if self.dfu_flash.len() < start + data.len() {
                        self.dfu_flash.resize(start + data.len(), 0);
                    }
                    self.dfu_flash[start..start + data.len()].copy_from_slice(data);
                }
                Ok(())
            }
            // Standard OUT to an interface: SET_INTERFACE.
            0x01 => Ok(()),
            _ => Err(MockError),
        }
    }

    fn bulk_out(&mut self, ep: u8, data: &[u8], timeout_us: u32) -> Result<(), Self::Error> {
        self.log.push(Xfer::BulkOut {
            ep,
            data: data.to_vec(),
            timeout_us,
        });
        Ok(())
    }

    fn bulk_in(&mut self, ep: u8, buf: &mut [u8], timeout_us: u32) -> Result<usize, Self::Error> {
        self.log.push(Xfer::BulkIn {
            ep,
            len: buf.len(),
            timeout_us,
        });
        if ep == darwinn::EVENT_ENDPOINT {
            let n = self.event_data.len().min(buf.len());
            buf[..n].copy_from_slice(&self.event_data[..n]);
            return Ok(n);
        }
        if self.bulk_in_data.is_empty() {
            // Default: fill with a recognisable ramp so relayout tests have
            // deterministic source bytes.
            for (i, b) in buf.iter_mut().enumerate() {
                *b = i as u8;
            }
            return Ok(buf.len());
        }
        let chunk = self.bulk_in_data.remove(0);
        let n = chunk.len().min(buf.len());
        buf[..n].copy_from_slice(&chunk[..n]);
        Ok(n)
    }

    fn interrupt_in(
        &mut self,
        ep: u8,
        buf: &mut [u8],
        timeout_us: u32,
    ) -> Result<Option<usize>, Self::Error> {
        self.log.push(Xfer::InterruptIn {
            ep,
            len: buf.len(),
            timeout_us,
        });
        match &self.interrupt_data {
            Some(data) => {
                let n = data.len().min(buf.len());
                buf[..n].copy_from_slice(&data[..n]);
                Ok(Some(n))
            }
            None => Ok(None),
        }
    }
}

/// A [`DelayNs`](embedded_hal::delay::DelayNs) that records what it was asked
/// to wait for instead of waiting.
#[derive(Default)]
pub struct MockDelay {
    pub waits_ns: Vec<u32>,
}

impl embedded_hal::delay::DelayNs for MockDelay {
    fn delay_ns(&mut self, ns: u32) {
        self.waits_ns.push(ns);
    }
}

/// Bring-up with the wait in the middle.
fn init(
    d: &mut Driver<Mock>,
    mode: PerformanceMode,
    delay: &mut MockDelay,
) -> Result<(), Error<MockError>> {
    let us = d.init(mode)?;
    delay.delay_us(us);
    d.finish_init()
}

fn driver(mock: Mock) -> Driver<Mock> {
    Driver::new(mock, Timeouts::default())
}

// ---------------------------------------------------------------------------
// CSR encoding
// ---------------------------------------------------------------------------

#[test]
fn csr_read32_encoding() {
    let mut d = driver(Mock::new());
    d.csr_read32(csr::OMC0_00).unwrap();
    assert_eq!(
        d.transport().log[0],
        Xfer::ControlIn {
            // TYPE_VENDOR | RECIPIENT_DEVICE | DIR_IN.
            req_type: 0xC0,
            // bRequest 1 selects a 32-bit register.
            request: 1,
            value: 0xA000,
            index: 0x0001,
            len: 4,
            timeout_us: 200_000,
        }
    );
}

#[test]
fn csr_write32_encoding() {
    let mut d = driver(Mock::new());
    d.csr_write32(csr::SCU_CTRL_3, 0xDEAD_BEEF).unwrap();
    assert_eq!(
        d.transport().log[0],
        Xfer::ControlOut {
            // TYPE_VENDOR | RECIPIENT_DEVICE | DIR_OUT.
            req_type: 0x40,
            request: 1,
            value: 0xA318,
            index: 0x0001,
            data: vec![0xEF, 0xBE, 0xAD, 0xDE],
            timeout_us: 200_000,
        }
    );
}

#[test]
fn csr_read64_encoding() {
    let mut d = driver(Mock::new());
    d.csr_read64(csr::SCALAR_CORE_RUN_CONTROL).unwrap();
    assert_eq!(
        d.transport().log[0],
        Xfer::ControlIn {
            req_type: 0xC0,
            // bRequest 0 selects a 64-bit register.
            request: 0,
            value: 0x4018,
            index: 0x0004,
            len: 8,
            timeout_us: 200_000,
        }
    );
}

#[test]
fn csr_write64_encoding() {
    let mut d = driver(Mock::new());
    d.csr_write64(csr::TILECONFIG0, 0x7F).unwrap();
    assert_eq!(
        d.transport().log[0],
        Xfer::ControlOut {
            req_type: 0x40,
            request: 0,
            value: 0x8788,
            index: 0x0004,
            data: vec![0x7F, 0, 0, 0, 0, 0, 0, 0],
            timeout_us: 200_000,
        }
    );
}

#[test]
fn csr_address_splits_across_wvalue_and_windex() {
    // wValue = reg & 0xFFFF, wIndex = reg >> 16.
    // Bits 32-63 never reach the wire, which caps the CSR space at 32 bits.
    let mut d = driver(Mock::new());
    d.csr_read32(0xDEAD_1234_5678).unwrap();
    match &d.transport().log[0] {
        Xfer::ControlIn { value, index, .. } => {
            assert_eq!(*value, 0x5678);
            assert_eq!(*index, 0x1234);
        }
        other => panic!("{other:?}"),
    }
}

#[test]
fn csr_round_trip_through_the_register_file() {
    let mut d = driver(Mock::new());
    d.csr_write64(csr::DEEP_SLEEP, csr::DEEP_SLEEP_INIT)
        .unwrap();
    assert_eq!(d.csr_read64(csr::DEEP_SLEEP).unwrap(), 0x1E02);
    d.csr_write32(csr::GCBB_CREDIT0, 0xF).unwrap();
    assert_eq!(d.csr_read32(csr::GCBB_CREDIT0).unwrap(), 0xF);
}

#[test]
fn short_csr_read_is_rejected() {
    // A truncated read must not silently yield a half-filled register.
    let mut mock = Mock::new();
    mock.control_in_short_by = 1;
    let mut d = driver(mock);
    assert_eq!(
        d.csr_read32(csr::OMC0_00).unwrap_err(),
        Error::ShortTransfer {
            expected: 4,
            actual: 3
        }
    );
}

// ---------------------------------------------------------------------------
// Bit-field helpers
// ---------------------------------------------------------------------------

#[test]
fn bitfield_set_preserves_other_bits_and_masks_the_value() {
    assert_eq!(csr::set_field(0x0000_0941, 8, 3, 0), 0x0000_0841);
    assert_eq!(csr::get_field(0x0000_0941, 8, 3), 1);
    // A value wider than the field is masked, not shifted out.
    assert_eq!(csr::set_field(0, 4, 2, 0xFF), 0x30);
}

#[test]
fn idle_register_write_value_matches_the_vendor_read_modify_write() {
    // Bring-up starts from the 0x9000 reset value, clears
    // disable_idle (already clear) and sets counter = 1. counter is
    // Bitfield<0, 31>, so its mask wipes the 0x9000: the word that reaches the
    // wire is 0x1.
    let raw = csr::set_field(0x9000, 31, 1, 0);
    assert_eq!(csr::set_field(raw, 0, 31, 1), csr::IDLE_REGISTER_RUN);
    assert_eq!(csr::IDLE_REGISTER_RUN, 0x1);
}

#[test]
fn deep_sleep_and_tileconfig_constants() {
    // to_sleep_delay = 2, to_wake_delay = 30.
    let raw = csr::set_field(
        0,
        csr::DEEP_SLEEP_TO_SLEEP_DELAY.0,
        csr::DEEP_SLEEP_TO_SLEEP_DELAY.1,
        2,
    );
    let raw = csr::set_field(
        raw,
        csr::DEEP_SLEEP_TO_WAKE_DELAY.0,
        csr::DEEP_SLEEP_TO_WAKE_DELAY.1,
        30,
    );
    assert_eq!(raw, csr::DEEP_SLEEP_INIT);
    // TileConfig<7>::set_broadcast() sets all seven tile bits.
    assert_eq!(csr::TILECONFIG_BROADCAST, 0x7F);
}

// ---------------------------------------------------------------------------
// init()
// ---------------------------------------------------------------------------

/// The complete CSR trace bring-up produces, in order, starting from the
/// power-on register values in [`Mock::default`].
fn expected_init_trace() -> Vec<CsrOp> {
    let mut e = vec![
        // 1-2. Chip ID, then the test_reg0 write/read-back self-test.
        CsrOp::R32(csr::OMC0_00),
        CsrOp::W32(csr::OMC0_00, 0x00AA_089A),
        CsrOp::R32(csr::OMC0_00),
        // 3. Disable inactive PHY mode, plus its discard read.
        CsrOp::R32(csr::SCU_CTRL_0),
        CsrOp::W32(csr::SCU_CTRL_0, 0x0000_0041),
        CsrOp::R32(csr::SCU_CTRL_0),
        // 4. Clock gating off for bring-up, plus its discard read.
        CsrOp::R32(csr::SCU_CTRL_2),
        CsrOp::W32(csr::SCU_CTRL_2, 0x0008_0000),
        CsrOp::R32(csr::SCU_CTRL_2),
        // 5. Into reset: force sleep, poll, pulse the bridge credit.
        CsrOp::R32(csr::SCU_CTRL_3),
        CsrOp::W32(csr::SCU_CTRL_3, 0x80C5_0410),
        CsrOp::R32(csr::SCU_CTRL_3),
        CsrOp::W32(csr::GCBB_CREDIT0, 0xF),
        CsrOp::W32(csr::GCBB_CREDIT0, 0x0),
        // 6. Clocks for PerformanceMode::Max, then out of reset.
        CsrOp::R32(csr::SCU_CTRL_3),
        CsrOp::W32(csr::SCU_CTRL_3, 0x0085_0610),
        CsrOp::R32(csr::SCU_CTRL_3),
        // 7. Reset exit confirmed on a known 64-bit register.
        CsrOp::R64(csr::SCALAR_CORE_RUN_CONTROL),
        // 8. Idle, tile broadcast, deep sleep.
        CsrOp::W64(csr::IDLE_REGISTER, csr::IDLE_REGISTER_RUN),
        CsrOp::W64(csr::TILECONFIG0, csr::TILECONFIG_BROADCAST),
        CsrOp::R64(csr::TILECONFIG0),
        CsrOp::W64(csr::DEEP_SLEEP, csr::DEEP_SLEEP_INIT),
        // 9. Clock gating back on.
        CsrOp::R32(csr::SCU_CTRL_2),
        CsrOp::W32(csr::SCU_CTRL_2, 0x0004_0000),
        // 10. USB HIB: single-endpoint framing.
        CsrOp::W64(csr::USB_DESCR_EP, 0xF0),
        CsrOp::W64(csr::USB_MULTI_BO_EP, 0),
        CsrOp::W64(csr::USB_OUTFEED_CHUNK_LENGTH, 0x20),
        // 11. Temperature sensor: clock, input ports, 100 us, flow.
        CsrOp::R32(csr::OMC0_D0),
        CsrOp::W32(csr::OMC0_D0, 0x0000_0C80),
        CsrOp::R32(csr::OMC0_D8),
        CsrOp::W32(csr::OMC0_D8, 0x0000_0007),
        CsrOp::R32(csr::OMC0_DC),
        CsrOp::W32(csr::OMC0_DC, 0x0000_0001),
    ];
    // 12. Run control, MoveToRun.
    e.extend(expected_run_control_trace(RunControl::MoveToRun));
    e
}

fn expected_run_control_trace(state: RunControl) -> Vec<CsrOp> {
    let v = state as u64;
    let mut e = Vec::new();
    for reg in csr::SCALAR_RUN_CONTROL_SEQUENCE {
        e.push(CsrOp::W64(reg, v));
    }
    e.push(CsrOp::W64(csr::TILECONFIG0, csr::TILECONFIG_BROADCAST));
    e.push(CsrOp::R64(csr::TILECONFIG0));
    for reg in csr::TILE_RUN_CONTROL_SEQUENCE {
        e.push(CsrOp::W64(reg, v));
    }
    e
}

#[test]
fn init_emits_the_exact_vendor_register_sequence() {
    let mut d = driver(Mock::new());
    let mut delay = MockDelay::default();
    init(&mut d, PerformanceMode::Max, &mut delay).unwrap();
    assert_eq!(d.transport().csr_ops(), expected_init_trace());
}

#[test]
fn init_sequence_length() {
    let mut d = driver(Mock::new());
    let mut delay = MockDelay::default();
    init(&mut d, PerformanceMode::Max, &mut delay).unwrap();
    // 33 CSR operations of bring-up plus 17 of run control.
    assert_eq!(d.transport().csr_ops().len(), 50);
    assert_eq!(expected_run_control_trace(RunControl::MoveToRun).len(), 17);
}

#[test]
fn init_waits_100_us_before_enabling_the_tempsense_flow() {
    // The only hardware settling delay in bring-up.
    let mut d = driver(Mock::new());
    let mut delay = MockDelay::default();
    init(&mut d, PerformanceMode::Max, &mut delay).unwrap();
    assert_eq!(delay.waits_ns, vec![100_000]);
}

#[test]
fn init_programs_the_clock_triplet_for_each_performance_mode() {
    // gcb divider 0/1/2/3 selects 500/250/125/63 MHz; rg_axi_clk_125m is 1 for
    // 125 MHz; rg_8051_clk_250m is 1 for 250 MHz.
    for (mode, expected) in [
        (PerformanceMode::Max, 0x0085_0610u32),
        (PerformanceMode::High, 0x5085_0610),
        (PerformanceMode::Medium, 0x6085_0610),
        (PerformanceMode::Low, 0xF085_0610),
    ] {
        let mut d = driver(Mock::new());
        let mut delay = MockDelay::default();
        init(&mut d, mode, &mut delay).unwrap();
        // The second scu_ctrl_3 write is the exit-reset/clock one.
        let writes: Vec<u32> = d
            .transport()
            .csr_ops()
            .into_iter()
            .filter_map(|op| match op {
                CsrOp::W32(r, v) if r == csr::SCU_CTRL_3 => Some(v),
                _ => None,
            })
            .collect();
        assert_eq!(writes[1], expected, "mode {mode:?}");
        assert_eq!(
            csr::get_field(
                u64::from(writes[1]),
                csr::SCU_CTRL_3_FORCE_SLEEP.0,
                csr::SCU_CTRL_3_FORCE_SLEEP.1
            ),
            csr::FORCE_SLEEP_RUN
        );
    }
}

#[test]
fn init_skips_the_force_sleep_block_when_already_in_reset() {
    // The whole entry-into-reset block is conditional on rg_force_sleep != 3.
    let mut mock = Mock::new();
    mock.regs.insert(csr::SCU_CTRL_3, 0x80C5_0610);
    let mut d = driver(mock);
    let mut delay = MockDelay::default();
    init(&mut d, PerformanceMode::Max, &mut delay).unwrap();

    let ops = d.transport().csr_ops();
    assert!(!ops.contains(&CsrOp::W32(csr::GCBB_CREDIT0, 0xF)));
    assert!(!ops.contains(&CsrOp::W32(csr::SCU_CTRL_3, 0x80C5_0410)));
    // Four fewer operations than the full path: one write, one poll read and
    // the two credit writes.
    assert_eq!(ops.len(), 50 - 4);
}

#[test]
fn init_rejects_a_wrong_chip_id() {
    let mut mock = Mock::new();
    mock.regs.insert(csr::OMC0_00, 0x0123);
    let mut d = driver(mock);
    let mut delay = MockDelay::default();
    assert_eq!(
        init(&mut d, PerformanceMode::Max, &mut delay).unwrap_err(),
        Error::ChipId { found: 0x123 }
    );
    // Nothing is written before the identity is confirmed.
    assert_eq!(d.transport().csr_ops().len(), 1);
}

#[test]
fn init_rejects_a_failed_control_path_self_test() {
    // omc0_00 accepts reads but drops writes: the read direction works and the
    // write direction does not.
    let mut mock = Mock::new();
    mock.readonly_regs.push(csr::OMC0_00);
    let mut d = driver(mock);
    let mut delay = MockDelay::default();
    assert_eq!(
        init(&mut d, PerformanceMode::Max, &mut delay).unwrap_err(),
        Error::SelfTest { found: 0 }
    );
}

#[test]
fn init_polls_are_bounded() {
    // A chip that never wakes must fail, not spin forever.
    let mut mock = Mock::new();
    mock.power_state_follows = false;
    mock.regs.insert(csr::SCU_CTRL_3, 0x80C5_0610);
    let mut d = Driver::new(
        mock,
        Timeouts {
            poll_attempts: 5,
            ..Timeouts::default()
        },
    );
    let mut delay = MockDelay::default();
    assert_eq!(
        init(&mut d, PerformanceMode::Max, &mut delay).unwrap_err(),
        Error::PollTimeout("scu_ctrl_3.cur_pwr_state == active")
    );
    // Exactly the bound, not one more: two non-poll reads of scu_ctrl_3 (the
    // force-sleep test at step 5 and the read-modify-write at step 6) plus the
    // five allowed poll reads.
    let reads = d
        .transport()
        .csr_ops()
        .into_iter()
        .filter(|op| *op == CsrOp::R32(csr::SCU_CTRL_3))
        .count();
    assert_eq!(reads, 2 + 5);
}

#[test]
fn run_control_write_order() {
    let mut d = driver(Mock::new());
    d.run_control(RunControl::MoveToIdle).unwrap();
    assert_eq!(
        d.transport().csr_ops(),
        expected_run_control_trace(RunControl::MoveToIdle)
    );
    // The re-broadcast of tileconfig0 sits between the scalar-core writes and
    // the tile writes because the hardware does not order them.
    let ops = d.transport().csr_ops();
    assert_eq!(ops[5], CsrOp::W64(csr::TILECONFIG0, 0x7F));
    assert_eq!(ops[6], CsrOp::R64(csr::TILECONFIG0));
    assert_eq!(ops[7], CsrOp::W64(csr::OP_RUN_CONTROL, 0));
}

#[test]
fn temperature_uses_the_vendor_transfer_function() {
    // (662 - data) * 250 + 550 millidegrees.
    let mut mock = Mock::new();
    mock.regs.insert(
        csr::OMC0_DC,
        csr::set_field(0, csr::OMC0_DC_DATA.0, csr::OMC0_DC_DATA.1, 500),
    );
    let mut d = driver(mock);
    assert_eq!(
        d.temperature_millicelsius().unwrap(),
        (662 - 500) * 250 + 550
    );
}

// ---------------------------------------------------------------------------
// Bulk framing
// ---------------------------------------------------------------------------

#[test]
fn header_layout() {
    // The length as a little-endian u32 in bytes 0-3, the tag's low nibble in
    // byte 4, zero padding to eight bytes.
    let h = Driver::<Mock>::build_header(DescriptorTag::Parameters, 0x0102_0304);
    assert_eq!(h, [0x04, 0x03, 0x02, 0x01, 2, 0, 0, 0]);
    assert_eq!(
        Driver::<Mock>::build_header(DescriptorTag::Instructions, 1)[4],
        0
    );
    assert_eq!(
        Driver::<Mock>::build_header(DescriptorTag::InputActivations, 1)[4],
        1
    );
    // Only the low nibble is used, so the interrupt tags stay in range.
    assert_eq!(
        Driver::<Mock>::build_header(DescriptorTag::Interrupt3, 1)[4],
        7
    );
}

#[test]
fn send_data_is_a_header_transfer_then_a_payload_transfer() {
    // Two separate bulk transfers, not one.
    let mut d = driver(Mock::new());
    d.send_instructions(&[0xAA, 0xBB, 0xCC]).unwrap();
    assert_eq!(
        d.transport().bulk_writes(),
        vec![vec![3, 0, 0, 0, 0, 0, 0, 0], vec![0xAA, 0xBB, 0xCC]]
    );
    // Everything goes out on endpoint 1.
    assert!(d.transport().log.iter().all(|x| matches!(
        x,
        Xfer::BulkOut {
            ep: darwinn::BULK_OUT_ENDPOINT,
            ..
        }
    )));
}

#[test]
fn stream_tags() {
    let mut d = driver(Mock::new());
    d.send_instructions(&[1]).unwrap();
    d.send_inputs(&[2]).unwrap();
    d.send_parameters(&[3]).unwrap();
    let tags: Vec<u8> = d
        .transport()
        .bulk_writes()
        .iter()
        .step_by(2)
        .map(|h| h[4])
        .collect();
    assert_eq!(tags, [0, 1, 2]);
}

#[test]
fn bulk_out_chunks_at_thirty_two_kib() {
    // MAX_BULK_CHUNK = 32 * 1024.
    let payload = vec![0x5Au8; 40_000];
    let mut d = driver(Mock::new());
    d.send_parameters(&payload).unwrap();
    let sizes: Vec<usize> = d.transport().bulk_writes().iter().map(Vec::len).collect();
    assert_eq!(sizes, [8, 32_768, 7_232]);
}

#[test]
fn get_outputs_sends_no_header_and_reassembles_short_reads() {
    // Outputs come back raw, and the device may answer a request in more than
    // one transfer.
    let mut mock = Mock::new();
    mock.bulk_in_data = vec![vec![1, 2, 3], vec![4, 5]];
    let mut d = driver(mock);
    let mut out = [0u8; 5];
    d.get_outputs(&mut out).unwrap();
    assert_eq!(out, [1, 2, 3, 4, 5]);
    assert!(!d
        .transport()
        .log
        .iter()
        .any(|x| matches!(x, Xfer::BulkOut { .. })));
}

#[test]
fn a_stalled_bulk_in_does_not_spin() {
    let mut mock = Mock::new();
    mock.bulk_in_data = vec![Vec::new()];
    let mut d = driver(mock);
    let mut out = [0u8; 4];
    assert_eq!(
        d.get_outputs(&mut out).unwrap_err(),
        Error::ShortTransfer {
            expected: 4,
            actual: 0
        }
    );
}

#[test]
fn read_event_parses_the_sixteen_byte_completion_payload() {
    // Eight address bytes, four length bytes, a tag nibble, and three bytes
    // that stand for nothing known.
    let mut mock = Mock::new();
    mock.event_data = vec![
        1, 2, 3, 4, 5, 6, 7, 8, // address
        0x10, 0x20, 0, 0,    // length
        0x33, // tag nibble
        0xFF, 0xFF, 0xFF,
    ];
    let mut d = driver(mock);
    let event = d.read_event().unwrap();
    assert_eq!(event.address, 0x0807_0605_0403_0201);
    assert_eq!(event.length, 0x2010);
    assert_eq!(event.tag, 3);
    // It is a bulk read on endpoint 2, not an interrupt transfer.
    assert_eq!(
        d.transport().log[0],
        Xfer::BulkIn {
            ep: darwinn::EVENT_ENDPOINT,
            len: 16,
            timeout_us: 200_000,
        }
    );
}

#[test]
fn read_event_rejects_a_short_payload() {
    let mut mock = Mock::new();
    mock.event_data = vec![0; 8];
    let mut d = driver(mock);
    assert_eq!(
        d.read_event().unwrap_err(),
        Error::ShortTransfer {
            expected: 16,
            actual: 8
        }
    );
}

#[test]
fn interrupt_endpoint_is_available_but_idle() {
    // Nothing is known to arrive on this pipe.
    let mut d = driver(Mock::new());
    let mut buf = [0u8; 8];
    assert_eq!(d.poll_interrupt(&mut buf, 1_000).unwrap(), None);
    assert_eq!(
        d.transport().log[0],
        Xfer::InterruptIn {
            ep: darwinn::INTERRUPT_ENDPOINT,
            len: 8,
            timeout_us: 1_000,
        }
    );
}
