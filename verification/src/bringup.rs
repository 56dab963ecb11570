//! Bring-up: from a cold chip to the run state, and run control.
//!
//! The register traffic is described as data. A [`Step`] is one register
//! operation, a script is a sequence of steps, and [`did_script`] says what
//! history a script leaves behind: the steps' transfers in order, up to and
//! including the first step that fails.
use vstd::prelude::*;

use crate::bytes;
use crate::csr;
use crate::driver;
use crate::driver::{Driver, Timeouts};
use crate::error::Error;
use crate::transport;
use crate::transport::{Transfer, Transport};

verus! {

/// Clock rates selected during bring-up.
///
/// | mode | GCB | AXI | USB 8051 |
/// |---|---|---|---|
/// | [`PerformanceMode::Max`] | 500 MHz | 250 MHz | 500 MHz |
/// | [`PerformanceMode::High`] | 250 MHz | 125 MHz | 500 MHz |
/// | [`PerformanceMode::Medium`] | 125 MHz | 125 MHz | 500 MHz |
/// | [`PerformanceMode::Low`] | 63 MHz | 125 MHz | 250 MHz |
///
/// `High` is the vendor default.
#[derive(Debug, Clone, Copy, PartialEq, Eq)]
pub enum PerformanceMode {
    /// 63 MHz GCB, 125 MHz AXI, 250 MHz USB.
    Low,
    /// 125 MHz GCB, 125 MHz AXI, 500 MHz USB.
    Medium,
    /// 250 MHz GCB, 125 MHz AXI, 500 MHz USB. The vendor default.
    High,
    /// 500 MHz GCB, 250 MHz AXI, 500 MHz USB.
    Max,
}

impl Default for PerformanceMode {
    fn default() -> (r: Self)
        ensures
            r == PerformanceMode::High,
    {
        PerformanceMode::High
    }
}

impl PerformanceMode {
    /// `(rg_gcb_clkdiv, rg_axi_clk_125m, rg_8051_clk_250m)` for this mode.
    pub open spec fn clocks(self) -> (u64, u64, u64) {
        match self {
            PerformanceMode::Max => (0, 0, 0),
            PerformanceMode::High => (1, 1, 0),
            PerformanceMode::Medium => (2, 1, 0),
            PerformanceMode::Low => (3, 1, 1),
        }
    }

    /// `(rg_gcb_clkdiv, rg_axi_clk_125m, rg_8051_clk_250m)` for this mode.
    ///
    /// GCB divider 0/1/2/3 selects 500/250/125/63 MHz; `rg_axi_clk_125m` is 1
    /// for 125 MHz; `rg_8051_clk_250m` is 1 for 250 MHz.
    fn clock_bits(self) -> (r: (u64, u64, u64))
        ensures
            r == self.clocks(),
    {
        match self {
            PerformanceMode::Max => (0, 0, 0),
            PerformanceMode::High => (1, 1, 0),
            PerformanceMode::Medium => (2, 1, 0),
            PerformanceMode::Low => (3, 1, 1),
        }
    }
}

/// How long the temperature sensor's input ports need to settle before its
/// measurement flow may be enabled, in microseconds.
pub const SENSOR_SETTLE_US: u32 = 100;

// ---------------------------------------------------------------------------
// Model: scripts
// ---------------------------------------------------------------------------

/// One register operation of a script.
#[allow(inconsistent_fields)]
pub enum Step {
    /// Read a 32-bit register and discard the value.
    Read32 {
        /// The register.
        reg: u64,
    },
    /// Write a 32-bit register.
    Write32 {
        /// The register.
        reg: u64,
        /// What is written.
        value: u32,
    },
    /// Write a 64-bit register.
    Write64 {
        /// The register.
        reg: u64,
        /// What is written.
        value: u64,
    },
    /// Read a 32-bit register and write it back with some fields set.
    Modify32 {
        /// The register.
        reg: u64,
        /// Field and value pairs, set in turn.
        fields: Seq<((u32, u32), u64)>,
    },
    /// Read the scratch register back and hold it against the test pattern.
    SelfTest,
    /// Read a 32-bit register until a field holds a value.
    Poll32 {
        /// The register.
        reg: u64,
        /// What is being waited for.
        what: &'static str,
        /// The field.
        field: (u32, u32),
        /// The value.
        want: u64,
    },
    /// Read a 64-bit register until it holds a value.
    Poll64 {
        /// The register.
        reg: u64,
        /// What is being waited for.
        what: &'static str,
        /// The value.
        want: u64,
    },
}

/// The outcome without the value that came with success.
pub open spec fn outcome<A, E>(r: Result<A, Error<E>>) -> Result<(), Error<E>> {
    match r {
        Ok(_) => Ok(()),
        Err(e) => Err(e),
    }
}

/// What holding the scratch register against the test pattern yields.
pub open spec fn self_test<E>(r: Result<u32, Error<E>>) -> Result<(), Error<E>> {
    match r {
        Ok(v) => {
            let found = csr::field(
                v as u64,
                csr::OMC0_00_TEST_REG0.0,
                csr::OMC0_00_TEST_REG0.1,
            );
            if found == csr::TEST_REG0_PATTERN {
                Ok(())
            } else {
                Err(Error::SelfTest { found })
            }
        },
        Err(e) => Err(e),
    }
}

/// The history went from `t0` to `t1` by one step, with this outcome.
pub open spec fn did_step<E>(
    s: Step,
    t0: Seq<Transfer<E>>,
    t1: Seq<Transfer<E>>,
    lim: Timeouts,
    res: Result<(), Error<E>>,
) -> bool {
    match s {
        Step::Read32 { reg } => exists|r: Result<u32, Error<E>>|
            driver::did_read32(t0, t1, reg, lim.control_us, r) && res == outcome(r),
        Step::Write32 { reg, value } => driver::did_write32(
            t0,
            t1,
            reg,
            value,
            lim.control_us,
            res,
        ),
        Step::Write64 { reg, value } => driver::did_write64(
            t0,
            t1,
            reg,
            value,
            lim.control_us,
            res,
        ),
        Step::Modify32 { reg, fields } => exists|r: Result<u32, Error<E>>|
            driver::did_modify32(t0, t1, reg, fields, lim.control_us, r) && res == outcome(r),
        Step::SelfTest => exists|r: Result<u32, Error<E>>|
            driver::did_read32(t0, t1, csr::OMC0_00, lim.control_us, r) && res == self_test(r),
        Step::Poll32 { reg, what, field, want } => exists|r: Result<u32, Error<E>>|
            driver::did_poll32(t0, t1, reg, what, field, want, lim, r) && res == outcome(r),
        Step::Poll64 { reg, what, want } => exists|r: Result<u64, Error<E>>|
            driver::did_poll64(t0, t1, reg, what, want, lim, r) && res == outcome(r),
    }
}

/// The history went from `t0` to `t` by the first `k` steps of a script, all
/// of them successful.
pub open spec fn ran<E>(
    script: Seq<Step>,
    k: int,
    t0: Seq<Transfer<E>>,
    t: Seq<Transfer<E>>,
    lim: Timeouts,
) -> bool
    decreases k,
{
    if k <= 0 {
        t == t0
    } else {
        exists|tm: Seq<Transfer<E>>|
            ran(script, k - 1, t0, tm, lim) && #[trigger] did_step(
                script[k - 1],
                tm,
                t,
                lim,
                Ok(()),
            )
    }
}

/// The history went from `t0` to `t1` by a script: all of it, or up to and
/// including the first step that failed, whose error is the script's.
pub open spec fn did_script<E>(
    script: Seq<Step>,
    t0: Seq<Transfer<E>>,
    t1: Seq<Transfer<E>>,
    lim: Timeouts,
    res: Result<(), Error<E>>,
) -> bool {
    match res {
        Ok(()) => ran(script, script.len() as int, t0, t1, lim),
        Err(e) => exists|k: int, tm: Seq<Transfer<E>>|
            0 <= k < script.len() && #[trigger] ran(script, k, t0, tm, lim) && did_step(
                script[k],
                tm,
                t1,
                lim,
                Err(e),
            ),
    }
}

proof fn lemma_step<E>(
    script: Seq<Step>,
    k: int,
    t0: Seq<Transfer<E>>,
    tm: Seq<Transfer<E>>,
    t1: Seq<Transfer<E>>,
    lim: Timeouts,
    res: Result<(), Error<E>>,
)
    requires
        0 <= k < script.len(),
        ran(script, k, t0, tm, lim),
        did_step(script[k], tm, t1, lim, res),
    ensures
        res is Ok ==> ran(script, k + 1, t0, t1, lim),
        res is Err ==> did_script(script, t0, t1, lim, res),
{
    if res is Ok {
        assert(did_step(script[(k + 1) - 1], tm, t1, lim, Ok(())));
    }
}

// ---------------------------------------------------------------------------
// Model: the bring-up scripts
// ---------------------------------------------------------------------------

/// What follows the chip-ID check, given the `omc0_00` word it was made on:
/// the scratch-register round trip, inactive PHY mode off, clock gating off.
/// The last two each end in a read whose result is discarded.
pub open spec fn prepare_script(omc0_00: u32) -> Seq<Step> {
    seq![
        Step::Write32 {
            reg: csr::OMC0_00,
            value: csr::with_field(
                omc0_00 as u64,
                csr::OMC0_00_TEST_REG0.0,
                csr::OMC0_00_TEST_REG0.1,
                csr::TEST_REG0_PATTERN,
            ) as u32,
        },
        Step::SelfTest,
        Step::Modify32 {
            reg: csr::SCU_CTRL_0,
            fields: seq![
                (csr::SCU_CTRL_0_PCIE_INACT_PHY_MODE, 0u64),
                (csr::SCU_CTRL_0_USB_INACT_PHY_MODE, 0u64),
            ],
        },
        Step::Read32 { reg: csr::SCU_CTRL_0 },
        Step::Modify32 {
            reg: csr::SCU_CTRL_2,
            fields: seq![(csr::SCU_CTRL_2_GATED_GCB, 2u64)],
        },
        Step::Read32 { reg: csr::SCU_CTRL_2 },
    ]
}

/// The trip into reset: force sleep, wait for it, pulse the bridge credit.
/// Empty where the `scu_ctrl_3` word says that the chip is there already.
pub open spec fn reset_script(scu3: u32) -> Seq<Step> {
    if csr::field(scu3 as u64, csr::SCU_CTRL_3_FORCE_SLEEP.0, csr::SCU_CTRL_3_FORCE_SLEEP.1)
        == csr::FORCE_SLEEP_RESET {
        Seq::empty()
    } else {
        seq![
            Step::Write32 {
                reg: csr::SCU_CTRL_3,
                value: csr::with_field(
                    scu3 as u64,
                    csr::SCU_CTRL_3_FORCE_SLEEP.0,
                    csr::SCU_CTRL_3_FORCE_SLEEP.1,
                    csr::FORCE_SLEEP_RESET,
                ) as u32,
            },
            Step::Poll32 {
                reg: csr::SCU_CTRL_3,
                what: "scu_ctrl_3.cur_pwr_state == sleep",
                field: csr::SCU_CTRL_3_CUR_PWR_STATE,
                want: csr::PWR_STATE_SLEEP,
            },
            Step::Write32 { reg: csr::GCBB_CREDIT0, value: 0xF },
            Step::Write32 { reg: csr::GCBB_CREDIT0, value: 0 },
        ]
    }
}

/// From reset to the point where the temperature sensor has to settle: clock
/// rates and out of reset, reset exit confirmed, idle, tile broadcast, deep
/// sleep, clock gating on, USB framing, sensor clock and input ports.
pub open spec fn start_script(mode: PerformanceMode) -> Seq<Step> {
    seq![
        Step::Modify32 {
            reg: csr::SCU_CTRL_3,
            fields: seq![
                (csr::SCU_CTRL_3_FORCE_SLEEP, csr::FORCE_SLEEP_RUN),
                (csr::SCU_CTRL_3_GCB_CLKDIV, mode.clocks().0),
                (csr::SCU_CTRL_3_AXI_CLK_125M, mode.clocks().1),
                (csr::SCU_CTRL_3_8051_CLK_250M, mode.clocks().2),
            ],
        },
        Step::Poll32 {
            reg: csr::SCU_CTRL_3,
            what: "scu_ctrl_3.cur_pwr_state == active",
            field: csr::SCU_CTRL_3_CUR_PWR_STATE,
            want: csr::PWR_STATE_ACTIVE,
        },
        Step::Poll64 {
            reg: csr::SCALAR_CORE_RUN_CONTROL,
            what: "scalarCoreRunControl == 0",
            want: 0,
        },
        Step::Write64 { reg: csr::IDLE_REGISTER, value: csr::IDLE_REGISTER_RUN },
        Step::Write64 { reg: csr::TILECONFIG0, value: csr::TILECONFIG_BROADCAST },
        Step::Poll64 {
            reg: csr::TILECONFIG0,
            what: "tileconfig0 broadcast",
            want: csr::TILECONFIG_BROADCAST,
        },
        Step::Write64 { reg: csr::DEEP_SLEEP, value: csr::DEEP_SLEEP_INIT },
        Step::Modify32 {
            reg: csr::SCU_CTRL_2,
            fields: seq![(csr::SCU_CTRL_2_GATED_GCB, 1u64)],
        },
        Step::Write64 { reg: csr::USB_DESCR_EP, value: csr::USB_DESCR_EP_INIT },
        Step::Write64 { reg: csr::USB_MULTI_BO_EP, value: csr::USB_MULTI_BO_EP_INIT },
        Step::Write64 {
            reg: csr::USB_OUTFEED_CHUNK_LENGTH,
            value: csr::USB_OUTFEED_CHUNK_LENGTH_INIT,
        },
        Step::Modify32 {
            reg: csr::OMC0_D0,
            fields: seq![
                (csr::OMC0_D0_CLK_EN, 1u64),
                (csr::OMC0_D0_ADR, 0xCu64),
                (csr::OMC0_D0_TREF, 0u64),
                (csr::OMC0_D0_TSLOPE, 0u64),
                (csr::OMC0_D0_T_SETTING, 0u64),
            ],
        },
        Step::Modify32 {
            reg: csr::OMC0_D8,
            fields: seq![
                (csr::OMC0_D8_ENBG, 1u64),
                (csr::OMC0_D8_ENVR, 1u64),
                (csr::OMC0_D8_ENAD, 1u64),
            ],
        },
    ]
}

/// Run control: the five scalar-core registers, a broadcast of `tileconfig0`
/// with a read-back poll, then the ten tile registers.
pub open spec fn run_control_script(state: csr::RunControl) -> Seq<Step> {
    Seq::new(
        5,
        |i: int|
            Step::Write64 { reg: csr::SCALAR_RUN_CONTROL_SEQUENCE@[i], value: state.number() },
    ) + seq![
        Step::Write64 { reg: csr::TILECONFIG0, value: csr::TILECONFIG_BROADCAST },
        Step::Poll64 {
            reg: csr::TILECONFIG0,
            what: "tileconfig0 broadcast (run control)",
            want: csr::TILECONFIG_BROADCAST,
        },
    ] + Seq::new(
        10,
        |i: int|
            Step::Write64 { reg: csr::TILE_RUN_CONTROL_SEQUENCE@[i], value: state.number() },
    )
}

/// What is left of bring-up once the sensor has settled: its measurement flow
/// on, then everything running.
pub open spec fn finish_script() -> Seq<Step> {
    seq![
        Step::Modify32 { reg: csr::OMC0_DC, fields: seq![(csr::OMC0_DC_ENTHMC, 1u64)] },
    ] + run_control_script(csr::RunControl::MoveToRun)
}

/// The history went from `t0` to `t1` by the second part of bring-up: a read
/// of `scu_ctrl_3`, the trip into reset where that word calls for it, and the
/// way out of it.
pub open spec fn did_restart<E>(
    t0: Seq<Transfer<E>>,
    t1: Seq<Transfer<E>>,
    mode: PerformanceMode,
    lim: Timeouts,
    res: Result<(), Error<E>>,
) -> bool {
    exists|r: Result<u32, Error<E>>, tm: Seq<Transfer<E>>|
        #[trigger] driver::did_read32(t0, tm, csr::SCU_CTRL_3, lim.control_us, r) && match r {
            Ok(scu3) => did_script(reset_script(scu3) + start_script(mode), tm, t1, lim, res),
            Err(e) => t1 == tm && res == Err::<(), Error<E>>(e),
        }
}

/// The history went from `ta` to `t1` by what follows the read of `omc0_00`
/// that yielded `r`: nothing where it failed or the chip ID is wrong, else the
/// preparation and, where that succeeded, the restart.
pub open spec fn init_after<E>(
    r: Result<u32, Error<E>>,
    ta: Seq<Transfer<E>>,
    t1: Seq<Transfer<E>>,
    mode: PerformanceMode,
    lim: Timeouts,
    res: Result<(), Error<E>>,
) -> bool {
    match r {
        Err(e) => t1 == ta && res == Err::<(), Error<E>>(e),
        Ok(omc0_00) => {
            let id = csr::field(omc0_00 as u64, csr::OMC0_00_CHIP_ID.0, csr::OMC0_00_CHIP_ID.1);
            if id != csr::CHIP_ID {
                t1 == ta && res == Err::<(), Error<E>>(Error::ChipId { found: id })
            } else {
                exists|p: Result<(), Error<E>>, tb: Seq<Transfer<E>>|
                    #[trigger] did_script(prepare_script(omc0_00), ta, tb, lim, p) && match p {
                        Err(e) => t1 == tb && res == Err::<(), Error<E>>(e),
                        Ok(()) => did_restart(tb, t1, mode, lim, res),
                    }
            }
        },
    }
}

/// The history went from `t0` to `t1` by bring-up as far as the sensor's
/// settling wait.
///
/// `omc0_00` is read first, and its chip ID decides whether anything else
/// happens.
pub open spec fn did_init<E>(
    t0: Seq<Transfer<E>>,
    t1: Seq<Transfer<E>>,
    mode: PerformanceMode,
    lim: Timeouts,
    res: Result<(), Error<E>>,
) -> bool {
    exists|r: Result<u32, Error<E>>, ta: Seq<Transfer<E>>|
        #[trigger] driver::did_read32(t0, ta, csr::OMC0_00, lim.control_us, r) && init_after(
            r,
            ta,
            t1,
            mode,
            lim,
            res,
        )
}

// ---------------------------------------------------------------------------
// Laws
// ---------------------------------------------------------------------------

/// The most transfers a step can make.
pub open spec fn step_cost(s: Step, attempts: u32) -> int {
    match s {
        Step::Modify32 { .. } => 2,
        Step::Poll32 { .. } => attempts as int,
        Step::Poll64 { .. } => attempts as int,
        _ => 1,
    }
}

/// The most transfers the first `k` steps of a script can make.
pub open spec fn cost(script: Seq<Step>, k: int, attempts: u32) -> int
    decreases k,
{
    if k <= 0 {
        0
    } else {
        cost(script, k - 1, attempts) + step_cost(script[k - 1], attempts)
    }
}

/// `x` is a control transfer with this timeout.
pub open spec fn is_control<E>(x: Transfer<E>, us: u32) -> bool {
    match x {
        Transfer::ControlIn { timeout_us, .. } => timeout_us == us,
        Transfer::ControlOut { timeout_us, .. } => timeout_us == us,
        _ => false,
    }
}

/// The history grew, by control transfers with this timeout alone, and by no
/// more than `most` of them.
pub open spec fn only_control<E>(
    t0: Seq<Transfer<E>>,
    t1: Seq<Transfer<E>>,
    us: u32,
    most: int,
) -> bool {
    &&& transport::grown(t0, t1, t1.len() - t0.len())
    &&& t1.len() - t0.len() <= most
    &&& forall|i: int| t0.len() <= i < t1.len() ==> is_control(#[trigger] t1[i], us)
}

/// The step is a poll for `what`.
pub open spec fn polls_for(s: Step, what: &'static str) -> bool {
    match s {
        Step::Poll32 { what: w, .. } => w == what,
        Step::Poll64 { what: w, .. } => w == what,
        _ => false,
    }
}

proof fn lemma_one_more_only_control<E>(t0: Seq<Transfer<E>>, t1: Seq<Transfer<E>>, us: u32)
    requires
        transport::one_more(t0, t1),
        is_control(t1.last(), us),
    ensures
        only_control(t0, t1, us, 1),
{
    transport::lemma_one_more(t0, t1);
    assert(t1.take(t0.len() as int) =~= t0);
}

proof fn lemma_only_control_twice<E>(
    t0: Seq<Transfer<E>>,
    t1: Seq<Transfer<E>>,
    t2: Seq<Transfer<E>>,
    us: u32,
    a: int,
    b: int,
)
    requires
        only_control(t0, t1, us, a),
        only_control(t1, t2, us, b),
    ensures
        only_control(t0, t2, us, a + b),
{
    transport::lemma_grown_twice(t0, t1, t2);
    assert forall|i: int| t0.len() <= i < t2.len() implies is_control(#[trigger] t2[i], us) by {
        if i < t1.len() {
            assert(t2[i] == t1[i]);
        }
    }
}

pub(crate) proof fn lemma_step_traffic<E>(
    s: Step,
    t0: Seq<Transfer<E>>,
    t1: Seq<Transfer<E>>,
    lim: Timeouts,
    res: Result<(), Error<E>>,
)
    requires
        did_step(s, t0, t1, lim, res),
    ensures
        only_control(t0, t1, lim.control_us, step_cost(s, lim.poll_attempts)),
        res matches Err(e) ==> !(e is ChipId),
        res matches Err(Error::PollTimeout(w)) ==> polls_for(s, w),
        res matches Err(Error::PollTimeout(w)) ==> t1.len() == t0.len() + lim.poll_attempts,
{
    let us = lim.control_us;
    match s {
        Step::Modify32 { reg, fields } => {
            let r = choose|r: Result<u32, Error<E>>|
                driver::did_modify32(t0, t1, reg, fields, us, r) && res == outcome(r);
            let tm = t1.take(t0.len() + 1int);
            if driver::read32_result(tm.last()) is Err {
                lemma_one_more_only_control(t0, t1, us);
            } else {
                lemma_one_more_only_control(t0, tm, us);
                lemma_one_more_only_control(tm, t1, us);
                lemma_only_control_twice(t0, tm, t1, us, 1, 1);
            }
        },
        Step::Poll32 { .. } => {},
        Step::Poll64 { .. } => {},
        _ => {
            lemma_one_more_only_control(t0, t1, us);
        },
    }
}

proof fn lemma_ran_traffic<E>(
    script: Seq<Step>,
    k: int,
    t0: Seq<Transfer<E>>,
    t: Seq<Transfer<E>>,
    lim: Timeouts,
)
    requires
        0 <= k,
        ran(script, k, t0, t, lim),
    ensures
        only_control(t0, t, lim.control_us, cost(script, k, lim.poll_attempts)),
    decreases k,
{
    if k > 0 {
        let tm = choose|tm: Seq<Transfer<E>>|
            ran(script, k - 1, t0, tm, lim) && #[trigger] did_step(
                script[k - 1],
                tm,
                t,
                lim,
                Ok(()),
            );
        lemma_ran_traffic(script, k - 1, t0, tm, lim);
        lemma_step_traffic(script[k - 1], tm, t, lim, Ok(()));
        lemma_only_control_twice(
            t0,
            tm,
            t,
            lim.control_us,
            cost(script, k - 1, lim.poll_attempts),
            step_cost(script[k - 1], lim.poll_attempts),
        );
    } else {
        assert(t.take(t.len() as int) =~= t);
    }
}

proof fn lemma_cost_grows(script: Seq<Step>, k: int, m: int, attempts: u32)
    requires
        0 <= k <= m,
    ensures
        cost(script, k, attempts) <= cost(script, m, attempts),
    decreases m - k,
{
    if k < m {
        lemma_cost_grows(script, k, m - 1, attempts);
    }
}

proof fn lemma_cost_prefix(a: Seq<Step>, b: Seq<Step>, k: int, attempts: u32)
    requires
        k <= a.len(),
    ensures
        cost(a + b, k, attempts) == cost(a, k, attempts),
    decreases k,
{
    if k > 0 {
        lemma_cost_prefix(a, b, k - 1, attempts);
    }
}

proof fn lemma_cost_concat(a: Seq<Step>, b: Seq<Step>, k: int, attempts: u32)
    requires
        0 <= k <= b.len(),
    ensures
        cost(a + b, a.len() + k, attempts) == cost(a, a.len() as int, attempts) + cost(
            b,
            k,
            attempts,
        ),
    decreases k,
{
    if k > 0 {
        lemma_cost_concat(a, b, k - 1, attempts);
        assert((a + b)[a.len() + k - 1] == b[k - 1]);
    } else {
        lemma_cost_prefix(a, b, a.len() as int, attempts);
    }
}

proof fn lemma_cost_prepare(omc0_00: u32, attempts: u32)
    ensures
        cost(prepare_script(omc0_00), prepare_script(omc0_00).len() as int, attempts) == 8,
{
    reveal_with_fuel(cost, 7);
}

proof fn lemma_cost_restart(scu3: u32, mode: PerformanceMode, attempts: u32)
    ensures
        ({
            let z = reset_script(scu3) + start_script(mode);
            cost(z, z.len() as int, attempts) <= 17 + 4 * attempts
        }),
{
    let a = reset_script(scu3);
    let b = start_script(mode);
    lemma_cost_concat(a, b, b.len() as int, attempts);
    assert(cost(a, a.len() as int, attempts) <= 3 + attempts) by {
        reveal_with_fuel(cost, 5);
    }
    assert(cost(b, b.len() as int, attempts) == 14 + 3 * attempts) by {
        reveal_with_fuel(cost, 14);
    }
}

/// Law: whatever the device answers, a script makes control transfers only,
/// each with the control timeout, and no more of them than its steps allow.
/// A poll that is given up names a poll of the script.
pub proof fn law_script_traffic<E>(
    script: Seq<Step>,
    t0: Seq<Transfer<E>>,
    t1: Seq<Transfer<E>>,
    lim: Timeouts,
    res: Result<(), Error<E>>,
)
    requires
        did_script(script, t0, t1, lim, res),
    ensures
        only_control(
            t0,
            t1,
            lim.control_us,
            cost(script, script.len() as int, lim.poll_attempts),
        ),
        res matches Err(e) ==> !(e is ChipId),
        res matches Err(Error::PollTimeout(w)) ==> exists|k: int|
            0 <= k < script.len() && polls_for(#[trigger] script[k], w),
{
    let n = script.len() as int;
    match res {
        Ok(()) => lemma_ran_traffic(script, n, t0, t1, lim),
        Err(e) => {
            let (k, tm) = choose|k: int, tm: Seq<Transfer<E>>|
                0 <= k < script.len() && #[trigger] ran(script, k, t0, tm, lim) && did_step(
                    script[k],
                    tm,
                    t1,
                    lim,
                    Err(e),
                );
            lemma_ran_traffic(script, k, t0, tm, lim);
            lemma_step_traffic(script[k], tm, t1, lim, res);
            lemma_only_control_twice(
                t0,
                tm,
                t1,
                lim.control_us,
                cost(script, k, lim.poll_attempts),
                step_cost(script[k], lim.poll_attempts),
            );
            lemma_cost_grows(script, k + 1, n, lim.poll_attempts);
        },
    }
}

/// Law: a script that succeeded has made each of its 64-bit writes.
pub proof fn law_writes_are_made<E>(
    script: Seq<Step>,
    t0: Seq<Transfer<E>>,
    t1: Seq<Transfer<E>>,
    lim: Timeouts,
    k: int,
    reg: u64,
    value: u64,
)
    requires
        did_script(script, t0, t1, lim, Ok(())),
        0 <= k < script.len(),
        script[k] == (Step::Write64 { reg, value }),
    ensures
        exists|i: int|
            t0.len() <= i < t1.len() && driver::is_csr_write(
                #[trigger] t1[i],
                reg,
                driver::CSR_REQUEST_64,
                bytes::le_bytes(value as nat, 8),
                lim.control_us,
            ),
{
    lemma_write_is_made(script, script.len() as int, t0, t1, lim, k, reg, value);
}

proof fn lemma_write_is_made<E>(
    script: Seq<Step>,
    n: int,
    t0: Seq<Transfer<E>>,
    t1: Seq<Transfer<E>>,
    lim: Timeouts,
    k: int,
    reg: u64,
    value: u64,
)
    requires
        ran(script, n, t0, t1, lim),
        0 <= k < n,
        script[k] == (Step::Write64 { reg, value }),
    ensures
        exists|i: int|
            t0.len() <= i < t1.len() && driver::is_csr_write(
                #[trigger] t1[i],
                reg,
                driver::CSR_REQUEST_64,
                bytes::le_bytes(value as nat, 8),
                lim.control_us,
            ),
    decreases n,
{
    let tm = choose|tm: Seq<Transfer<E>>|
        ran(script, n - 1, t0, tm, lim) && #[trigger] did_step(
            script[n - 1],
            tm,
            t1,
            lim,
            Ok(()),
        );
    lemma_ran_traffic(script, n - 1, t0, tm, lim);
    if k == n - 1 {
        assert(driver::is_csr_write(
            t1[t1.len() - 1],
            reg,
            driver::CSR_REQUEST_64,
            bytes::le_bytes(value as nat, 8),
            lim.control_us,
        ));
    } else {
        lemma_write_is_made(script, n - 1, t0, tm, lim, k, reg, value);
        lemma_step_traffic(script[n - 1], tm, t1, lim, Ok(()));
        transport::lemma_grown_twice(t0, tm, t1);
        let i = choose|i: int|
            t0.len() <= i < tm.len() && driver::is_csr_write(
                #[trigger] tm[i],
                reg,
                driver::CSR_REQUEST_64,
                bytes::le_bytes(value as nat, 8),
                lim.control_us,
            );
        assert(t1[i] == tm[i]);
    }
}

/// Law: run control that succeeded has written the state to each of the five
/// scalar-core registers and each of the ten tile registers.
pub proof fn law_run_control_reaches_every_register<E>(
    t0: Seq<Transfer<E>>,
    t1: Seq<Transfer<E>>,
    state: csr::RunControl,
    lim: Timeouts,
    reg: u64,
)
    requires
        did_script(run_control_script(state), t0, t1, lim, Ok(())),
        csr::SCALAR_RUN_CONTROL_SEQUENCE@.contains(reg)
            || csr::TILE_RUN_CONTROL_SEQUENCE@.contains(reg),
    ensures
        exists|i: int|
            t0.len() <= i < t1.len() && driver::is_csr_write(
                #[trigger] t1[i],
                reg,
                driver::CSR_REQUEST_64,
                bytes::le_bytes(state.number() as nat, 8),
                lim.control_us,
            ),
{
    let s = run_control_script(state);
    if csr::SCALAR_RUN_CONTROL_SEQUENCE@.contains(reg) {
        let k = csr::SCALAR_RUN_CONTROL_SEQUENCE@.index_of(reg);
        law_writes_are_made(s, t0, t1, lim, k, reg, state.number());
    } else {
        let k = csr::TILE_RUN_CONTROL_SEQUENCE@.index_of(reg);
        law_writes_are_made(s, t0, t1, lim, 7 + k, reg, state.number());
    }
}

/// Law: whatever the device answers, [`Driver::init`] ends after at most 27
/// transfers outside its four polls, each poll reading at most
/// `poll_attempts` times, and every transfer is a control transfer with the
/// control timeout.
pub proof fn law_init_bounded<E>(
    t0: Seq<Transfer<E>>,
    t1: Seq<Transfer<E>>,
    mode: PerformanceMode,
    lim: Timeouts,
    res: Result<(), Error<E>>,
)
    requires
        did_init(t0, t1, mode, lim, res),
    ensures
        only_control(t0, t1, lim.control_us, 27 + 4 * lim.poll_attempts),
{
    lemma_init(t0, t1, mode, lim, res);
}

proof fn lemma_cost_writes(script: Seq<Step>, k: int, attempts: u32)
    requires
        0 <= k <= script.len(),
        forall|i: int| 0 <= i < k ==> #[trigger] script[i] is Write64,
    ensures
        cost(script, k, attempts) == k,
    decreases k,
{
    if k > 0 {
        lemma_cost_writes(script, k - 1, attempts);
        assert(script[k - 1] is Write64);
    }
}

proof fn lemma_cost_finish(attempts: u32)
    ensures
        cost(finish_script(), finish_script().len() as int, attempts) == 18 + attempts,
{
    let state = csr::RunControl::MoveToRun;
    let a = Seq::new(
        5,
        |i: int|
            Step::Write64 { reg: csr::SCALAR_RUN_CONTROL_SEQUENCE@[i], value: state.number() },
    );
    let b = seq![
        Step::Write64 { reg: csr::TILECONFIG0, value: csr::TILECONFIG_BROADCAST },
        Step::Poll64 {
            reg: csr::TILECONFIG0,
            what: "tileconfig0 broadcast (run control)",
            want: csr::TILECONFIG_BROADCAST,
        },
    ];
    let c = Seq::new(
        10,
        |i: int|
            Step::Write64 { reg: csr::TILE_RUN_CONTROL_SEQUENCE@[i], value: state.number() },
    );
    let first = seq![
        Step::Modify32 { reg: csr::OMC0_DC, fields: seq![(csr::OMC0_DC_ENTHMC, 1u64)] },
    ];
    assert(finish_script() == first + (a + b + c));
    lemma_cost_concat(first, a + b + c, 17, attempts);
    lemma_cost_concat(a + b, c, 10, attempts);
    lemma_cost_concat(a, b, 2, attempts);
    lemma_cost_writes(a, 5, attempts);
    lemma_cost_writes(c, 10, attempts);
    reveal_with_fuel(cost, 3);
}

/// Law: whatever the device answers, bring-up as a whole ends after at most 45
/// transfers outside its five polls, each poll reading at most `poll_attempts`
/// times, and every transfer is a control transfer with the control timeout.
pub proof fn law_bring_up_bounded<E>(
    t0: Seq<Transfer<E>>,
    t1: Seq<Transfer<E>>,
    t2: Seq<Transfer<E>>,
    mode: PerformanceMode,
    lim: Timeouts,
    res: Result<(), Error<E>>,
)
    requires
        did_init(t0, t1, mode, lim, Ok(())),
        did_script(finish_script(), t1, t2, lim, res),
    ensures
        only_control(t0, t2, lim.control_us, 45 + 5 * lim.poll_attempts),
{
    law_init_bounded(t0, t1, mode, lim, Ok(()));
    law_script_traffic(finish_script(), t1, t2, lim, res);
    lemma_cost_finish(lim.poll_attempts);
    lemma_only_control_twice(
        t0,
        t1,
        t2,
        lim.control_us,
        27 + 4 * lim.poll_attempts,
        18 + lim.poll_attempts,
    );
}

/// Law: a device with the wrong chip ID is read once and otherwise left alone.
pub proof fn law_wrong_chip_is_left_alone<E>(
    t0: Seq<Transfer<E>>,
    t1: Seq<Transfer<E>>,
    mode: PerformanceMode,
    lim: Timeouts,
    res: Result<(), Error<E>>,
)
    requires
        did_init(t0, t1, mode, lim, res),
        res matches Err(e) && e is ChipId,
    ensures
        transport::one_more(t0, t1),
        driver::is_csr_read(t1.last(), csr::OMC0_00, driver::CSR_REQUEST_32, 4, lim.control_us),
{
    lemma_init(t0, t1, mode, lim, res);
}

proof fn lemma_init<E>(
    t0: Seq<Transfer<E>>,
    t1: Seq<Transfer<E>>,
    mode: PerformanceMode,
    lim: Timeouts,
    res: Result<(), Error<E>>,
)
    requires
        did_init(t0, t1, mode, lim, res),
    ensures
        only_control(t0, t1, lim.control_us, 27 + 4 * lim.poll_attempts),
        (res matches Err(e) && e is ChipId) ==> {
            &&& transport::one_more(t0, t1)
            &&& driver::is_csr_read(
                t1.last(),
                csr::OMC0_00,
                driver::CSR_REQUEST_32,
                4,
                lim.control_us,
            )
        },
{
    let us = lim.control_us;
    let (r, ta) = choose|r: Result<u32, Error<E>>, ta: Seq<Transfer<E>>|
        #[trigger] driver::did_read32(t0, ta, csr::OMC0_00, us, r) && init_after(
            r,
            ta,
            t1,
            mode,
            lim,
            res,
        );
    lemma_one_more_only_control(t0, ta, us);
    if let Ok(omc0_00) = r {
        if t1 != ta {
            let s = prepare_script(omc0_00);
            let (p, tb) = choose|p: Result<(), Error<E>>, tb: Seq<Transfer<E>>|
                #[trigger] did_script(s, ta, tb, lim, p) && match p {
                    Err(e) => t1 == tb && res == Err::<(), Error<E>>(e),
                    Ok(()) => did_restart(tb, t1, mode, lim, res),
                };
            law_script_traffic(s, ta, tb, lim, p);
            lemma_cost_prepare(omc0_00, lim.poll_attempts);
            lemma_only_control_twice(t0, ta, tb, us, 1, 8);
            if p is Ok {
                let (q, tc) = choose|q: Result<u32, Error<E>>, tc: Seq<Transfer<E>>|
                    #[trigger] driver::did_read32(tb, tc, csr::SCU_CTRL_3, us, q) && match q {
                        Ok(scu3) => did_script(
                            reset_script(scu3) + start_script(mode),
                            tc,
                            t1,
                            lim,
                            res,
                        ),
                        Err(e) => t1 == tc && res == Err::<(), Error<E>>(e),
                    };
                lemma_one_more_only_control(tb, tc, us);
                lemma_only_control_twice(t0, tb, tc, us, 9, 1);
                if let Ok(scu3) = q {
                    let z = reset_script(scu3) + start_script(mode);
                    law_script_traffic(z, tc, t1, lim, res);
                    lemma_cost_restart(scu3, mode, lim.poll_attempts);
                    lemma_only_control_twice(
                        t0,
                        tc,
                        t1,
                        us,
                        10,
                        cost(z, z.len() as int, lim.poll_attempts),
                    );
                }
            }
        }
    }
}

// ---------------------------------------------------------------------------
// Steps
// ---------------------------------------------------------------------------

impl<T: Transport> Driver<T> {
    /// Step `k` of a script: a read whose value is discarded.
    fn step_read32(
        &mut self,
        reg: u64,
        Ghost(script): Ghost<Seq<Step>>,
        Ghost(k): Ghost<int>,
        Ghost(t0): Ghost<Seq<Transfer<T::Error>>>,
    ) -> (r: Result<(), Error<T::Error>>)
        requires
            0 <= k < script.len(),
            script[k] == (Step::Read32 { reg }),
            ran(script, k, t0, old(self).trace(), old(self).limits()),
        ensures
            final(self).limits() == old(self).limits(),
            r is Ok ==> ran(script, k + 1, t0, final(self).trace(), old(self).limits()),
            r is Err ==> did_script(script, t0, final(self).trace(), old(self).limits(), r),
    {
        let ghost before = self.trace();
        let r = self.csr_read32(reg);
        proof {
            assert(did_step(script[k], before, self.trace(), self.limits(), outcome(r)));
            lemma_step(script, k, t0, before, self.trace(), self.limits(), outcome(r));
        }
        match r {
            Ok(_) => Ok(()),
            Err(e) => Err(e),
        }
    }

    /// Step `k` of a script: a 32-bit write.
    fn step_write32(
        &mut self,
        reg: u64,
        value: u32,
        Ghost(script): Ghost<Seq<Step>>,
        Ghost(k): Ghost<int>,
        Ghost(t0): Ghost<Seq<Transfer<T::Error>>>,
    ) -> (r: Result<(), Error<T::Error>>)
        requires
            0 <= k < script.len(),
            script[k] == (Step::Write32 { reg, value }),
            ran(script, k, t0, old(self).trace(), old(self).limits()),
        ensures
            final(self).limits() == old(self).limits(),
            r is Ok ==> ran(script, k + 1, t0, final(self).trace(), old(self).limits()),
            r is Err ==> did_script(script, t0, final(self).trace(), old(self).limits(), r),
    {
        let ghost before = self.trace();
        let r = self.csr_write32(reg, value);
        proof {
            assert(did_step(script[k], before, self.trace(), self.limits(), r));
            lemma_step(script, k, t0, before, self.trace(), self.limits(), r);
        }
        r
    }

    /// Step `k` of a script: a 64-bit write.
    fn step_write64(
        &mut self,
        reg: u64,
        value: u64,
        Ghost(script): Ghost<Seq<Step>>,
        Ghost(k): Ghost<int>,
        Ghost(t0): Ghost<Seq<Transfer<T::Error>>>,
    ) -> (r: Result<(), Error<T::Error>>)
        requires
            0 <= k < script.len(),
            script[k] == (Step::Write64 { reg, value }),
            ran(script, k, t0, old(self).trace(), old(self).limits()),
        ensures
            final(self).limits() == old(self).limits(),
            r is Ok ==> ran(script, k + 1, t0, final(self).trace(), old(self).limits()),
            r is Err ==> did_script(script, t0, final(self).trace(), old(self).limits(), r),
    {
        let ghost before = self.trace();
        let r = self.csr_write64(reg, value);
        proof {
            assert(did_step(script[k], before, self.trace(), self.limits(), r));
            lemma_step(script, k, t0, before, self.trace(), self.limits(), r);
        }
        r
    }

    /// Step `k` of a script: a read-modify-write.
    fn step_modify32(
        &mut self,
        reg: u64,
        fields: &[((u32, u32), u64)],
        Ghost(script): Ghost<Seq<Step>>,
        Ghost(k): Ghost<int>,
        Ghost(t0): Ghost<Seq<Transfer<T::Error>>>,
    ) -> (r: Result<(), Error<T::Error>>)
        requires
            0 <= k < script.len(),
            script[k] matches Step::Modify32 { reg: q, fields: f } && q == reg && f =~= fields@,
            ran(script, k, t0, old(self).trace(), old(self).limits()),
        ensures
            final(self).limits() == old(self).limits(),
            r is Ok ==> ran(script, k + 1, t0, final(self).trace(), old(self).limits()),
            r is Err ==> did_script(script, t0, final(self).trace(), old(self).limits(), r),
    {
        let ghost before = self.trace();
        let r = self.modify32(reg, fields);
        proof {
            assert(did_step(script[k], before, self.trace(), self.limits(), outcome(r)));
            lemma_step(script, k, t0, before, self.trace(), self.limits(), outcome(r));
        }
        match r {
            Ok(_) => Ok(()),
            Err(e) => Err(e),
        }
    }

    /// Step `k` of a script: a bounded 32-bit poll.
    fn step_poll32(
        &mut self,
        reg: u64,
        what: &'static str,
        field: (u32, u32),
        want: u64,
        Ghost(script): Ghost<Seq<Step>>,
        Ghost(k): Ghost<int>,
        Ghost(t0): Ghost<Seq<Transfer<T::Error>>>,
    ) -> (r: Result<(), Error<T::Error>>)
        requires
            0 <= k < script.len(),
            script[k] == (Step::Poll32 { reg, what, field, want }),
            ran(script, k, t0, old(self).trace(), old(self).limits()),
        ensures
            final(self).limits() == old(self).limits(),
            r is Ok ==> ran(script, k + 1, t0, final(self).trace(), old(self).limits()),
            r is Err ==> did_script(script, t0, final(self).trace(), old(self).limits(), r),
    {
        let ghost before = self.trace();
        let r = self.poll32(reg, what, field, want);
        proof {
            assert(did_step(script[k], before, self.trace(), self.limits(), outcome(r)));
            lemma_step(script, k, t0, before, self.trace(), self.limits(), outcome(r));
        }
        match r {
            Ok(_) => Ok(()),
            Err(e) => Err(e),
        }
    }

    /// Step `k` of a script: a bounded 64-bit poll.
    fn step_poll64(
        &mut self,
        reg: u64,
        what: &'static str,
        want: u64,
        Ghost(script): Ghost<Seq<Step>>,
        Ghost(k): Ghost<int>,
        Ghost(t0): Ghost<Seq<Transfer<T::Error>>>,
    ) -> (r: Result<(), Error<T::Error>>)
        requires
            0 <= k < script.len(),
            script[k] == (Step::Poll64 { reg, what, want }),
            ran(script, k, t0, old(self).trace(), old(self).limits()),
        ensures
            final(self).limits() == old(self).limits(),
            r is Ok ==> ran(script, k + 1, t0, final(self).trace(), old(self).limits()),
            r is Err ==> did_script(script, t0, final(self).trace(), old(self).limits(), r),
    {
        let ghost before = self.trace();
        let r = self.poll64(reg, what, want);
        proof {
            assert(did_step(script[k], before, self.trace(), self.limits(), outcome(r)));
            lemma_step(script, k, t0, before, self.trace(), self.limits(), outcome(r));
        }
        match r {
            Ok(_) => Ok(()),
            Err(e) => Err(e),
        }
    }

    /// Step `k` of a script: the self-test of the control path.
    fn step_self_test(
        &mut self,
        Ghost(script): Ghost<Seq<Step>>,
        Ghost(k): Ghost<int>,
        Ghost(t0): Ghost<Seq<Transfer<T::Error>>>,
    ) -> (r: Result<(), Error<T::Error>>)
        requires
            0 <= k < script.len(),
            script[k] == Step::SelfTest,
            ran(script, k, t0, old(self).trace(), old(self).limits()),
        ensures
            final(self).limits() == old(self).limits(),
            r is Ok ==> ran(script, k + 1, t0, final(self).trace(), old(self).limits()),
            r is Err ==> did_script(script, t0, final(self).trace(), old(self).limits(), r),
    {
        let ghost before = self.trace();
        let r = self.csr_read32(csr::OMC0_00);
        proof {
            assert(did_step(script[k], before, self.trace(), self.limits(), self_test(r)));
            lemma_step(script, k, t0, before, self.trace(), self.limits(), self_test(r));
        }
        let read_back: u32 = match r {
            Ok(v) => v,
            Err(e) => {
                return Err(e);
            },
        };
        let found: u64 = csr::get_field(
            read_back as u64,
            csr::OMC0_00_TEST_REG0.0,
            csr::OMC0_00_TEST_REG0.1,
        );
        if found != csr::TEST_REG0_PATTERN {
            Err(Error::SelfTest { found })
        } else {
            Ok(())
        }
    }

    // -----------------------------------------------------------------------
    // Bring-up
    // -----------------------------------------------------------------------

    /// Steps 2 to 4 of bring-up.
    fn prepare(&mut self, omc0_00: u32) -> (r: Result<(), Error<T::Error>>)
        ensures
            final(self).limits() == old(self).limits(),
            did_script(
                prepare_script(omc0_00),
                old(self).trace(),
                final(self).trace(),
                old(self).limits(),
                r,
            ),
    {
        let ghost s = prepare_script(omc0_00);
        let ghost t0 = self.trace();

        // 2. Scratch-register round trip.
        let patched: u64 = csr::set_field(
            omc0_00 as u64,
            csr::OMC0_00_TEST_REG0.0,
            csr::OMC0_00_TEST_REG0.1,
            csr::TEST_REG0_PATTERN,
        );
        self.step_write32(csr::OMC0_00, patched as u32, Ghost(s), Ghost(0), Ghost(t0))?;
        self.step_self_test(Ghost(s), Ghost(1), Ghost(t0))?;

        // 3. Disable inactive PHY mode.
        self.step_modify32(
            csr::SCU_CTRL_0,
            &[
                (csr::SCU_CTRL_0_PCIE_INACT_PHY_MODE, 0),
                (csr::SCU_CTRL_0_USB_INACT_PHY_MODE, 0),
            ],
            Ghost(s),
            Ghost(2),
            Ghost(t0),
        )?;
        self.step_read32(csr::SCU_CTRL_0, Ghost(s), Ghost(3), Ghost(t0))?;

        // 4. Disable clock gating.
        self.step_modify32(
            csr::SCU_CTRL_2,
            &[(csr::SCU_CTRL_2_GATED_GCB, 0x2)],
            Ghost(s),
            Ghost(4),
            Ghost(t0),
        )?;
        self.step_read32(csr::SCU_CTRL_2, Ghost(s), Ghost(5), Ghost(t0))
    }

    /// Steps 5 to 11 of bring-up, as far as the settling wait, for the value
    /// of `scu_ctrl_3` that was read last.
    fn restart(&mut self, scu3: u32, mode: PerformanceMode) -> (r: Result<(), Error<T::Error>>)
        ensures
            final(self).limits() == old(self).limits(),
            did_script(
                reset_script(scu3) + start_script(mode),
                old(self).trace(),
                final(self).trace(),
                old(self).limits(),
                r,
            ),
    {
        let ghost s = reset_script(scu3) + start_script(mode);
        let ghost b = reset_script(scu3).len() as int;
        let ghost t0 = self.trace();

        // 5. Enter reset, if not already there.
        if csr::get_field(
            scu3 as u64,
            csr::SCU_CTRL_3_FORCE_SLEEP.0,
            csr::SCU_CTRL_3_FORCE_SLEEP.1,
        ) != csr::FORCE_SLEEP_RESET {
            let forced: u64 = csr::set_field(
                scu3 as u64,
                csr::SCU_CTRL_3_FORCE_SLEEP.0,
                csr::SCU_CTRL_3_FORCE_SLEEP.1,
                csr::FORCE_SLEEP_RESET,
            );
            self.step_write32(csr::SCU_CTRL_3, forced as u32, Ghost(s), Ghost(0), Ghost(t0))?;
            self.step_poll32(
                csr::SCU_CTRL_3,
                "scu_ctrl_3.cur_pwr_state == sleep",
                csr::SCU_CTRL_3_CUR_PWR_STATE,
                csr::PWR_STATE_SLEEP,
                Ghost(s),
                Ghost(1),
                Ghost(t0),
            )?;
            self.step_write32(csr::GCBB_CREDIT0, 0xF, Ghost(s), Ghost(2), Ghost(t0))?;
            self.step_write32(csr::GCBB_CREDIT0, 0x0, Ghost(s), Ghost(3), Ghost(t0))?;
        }
        assert(ran(s, b, t0, self.trace(), self.limits()));

        // 6. Clock rates, then exit reset.
        let (gcb_div, axi_125m, usb_250m) = mode.clock_bits();
        self.step_modify32(
            csr::SCU_CTRL_3,
            &[
                (csr::SCU_CTRL_3_FORCE_SLEEP, csr::FORCE_SLEEP_RUN),
                (csr::SCU_CTRL_3_GCB_CLKDIV, gcb_div),
                (csr::SCU_CTRL_3_AXI_CLK_125M, axi_125m),
                (csr::SCU_CTRL_3_8051_CLK_250M, usb_250m),
            ],
            Ghost(s),
            Ghost(b),
            Ghost(t0),
        )?;
        self.step_poll32(
            csr::SCU_CTRL_3,
            "scu_ctrl_3.cur_pwr_state == active",
            csr::SCU_CTRL_3_CUR_PWR_STATE,
            csr::PWR_STATE_ACTIVE,
            Ghost(s),
            Ghost(b + 1),
            Ghost(t0),
        )?;

        // 7. Confirm reset exit through a known register.
        self.step_poll64(
            csr::SCALAR_CORE_RUN_CONTROL,
            "scalarCoreRunControl == 0",
            0,
            Ghost(s),
            Ghost(b + 2),
            Ghost(t0),
        )?;

        // 8. Idle, tile config, deep sleep.
        self.step_write64(
            csr::IDLE_REGISTER,
            csr::IDLE_REGISTER_RUN,
            Ghost(s),
            Ghost(b + 3),
            Ghost(t0),
        )?;
        self.step_write64(
            csr::TILECONFIG0,
            csr::TILECONFIG_BROADCAST,
            Ghost(s),
            Ghost(b + 4),
            Ghost(t0),
        )?;
        self.step_poll64(
            csr::TILECONFIG0,
            "tileconfig0 broadcast",
            csr::TILECONFIG_BROADCAST,
            Ghost(s),
            Ghost(b + 5),
            Ghost(t0),
        )?;
        self.step_write64(
            csr::DEEP_SLEEP,
            csr::DEEP_SLEEP_INIT,
            Ghost(s),
            Ghost(b + 6),
            Ghost(t0),
        )?;

        // 9. Re-enable clock gating.
        self.step_modify32(
            csr::SCU_CTRL_2,
            &[(csr::SCU_CTRL_2_GATED_GCB, 1)],
            Ghost(s),
            Ghost(b + 7),
            Ghost(t0),
        )?;

        // 10. USB HIB framing configuration.
        self.step_write64(
            csr::USB_DESCR_EP,
            csr::USB_DESCR_EP_INIT,
            Ghost(s),
            Ghost(b + 8),
            Ghost(t0),
        )?;
        self.step_write64(
            csr::USB_MULTI_BO_EP,
            csr::USB_MULTI_BO_EP_INIT,
            Ghost(s),
            Ghost(b + 9),
            Ghost(t0),
        )?;
        self.step_write64(
            csr::USB_OUTFEED_CHUNK_LENGTH,
            csr::USB_OUTFEED_CHUNK_LENGTH_INIT,
            Ghost(s),
            Ghost(b + 10),
            Ghost(t0),
        )?;

        // 11. Temperature sensor: clock, then input ports.
        self.step_modify32(
            csr::OMC0_D0,
            &[
                (csr::OMC0_D0_CLK_EN, 0x1),
                (csr::OMC0_D0_ADR, 0xC),
                (csr::OMC0_D0_TREF, 0),
                (csr::OMC0_D0_TSLOPE, 0),
                (csr::OMC0_D0_T_SETTING, 0),
            ],
            Ghost(s),
            Ghost(b + 11),
            Ghost(t0),
        )?;
        self.step_modify32(
            csr::OMC0_D8,
            &[(csr::OMC0_D8_ENBG, 0x1), (csr::OMC0_D8_ENVR, 0x1), (csr::OMC0_D8_ENAD, 0x1)],
            Ghost(s),
            Ghost(b + 12),
            Ghost(t0),
        )
    }

    /// Brings the chip out of reset, as far as the one wait that bring-up
    /// needs.
    ///
    /// In order:
    ///
    /// 1. Read `omc0_00`, require `chip_id == 0x89A`.
    /// 2. Write `test_reg0 = 0xAA` and read it back, a round-trip self-test of
    ///    the control path.
    /// 3. `scu_ctrl_0`: clear `rg_pcie_inact_phy_mode` and
    ///    `rg_usb_inact_phy_mode` (disable inactive PHY mode).
    /// 4. `scu_ctrl_2`: `rg_gated_gcb = 2` (clock gating off for bring-up).
    /// 5. If `scu_ctrl_3.rg_force_sleep != 3`, force sleep, poll
    ///    `cur_pwr_state == 2`, then pulse `gcbb_credit0` `0xF` then `0`.
    /// 6. `scu_ctrl_3`: `rg_force_sleep = 2` plus the clock triplet for `mode`;
    ///    poll `cur_pwr_state == 0`.
    /// 7. Poll `scalarCoreRunControl` (64-bit) until it reads `0`.
    /// 8. `idleRegister = 1`, `tileconfig0 = 0x7F` (poll for read-back),
    ///    `deepSleep = 0x1E02`.
    /// 9. `scu_ctrl_2`: `rg_gated_gcb = 1` (clock gating back on).
    /// 10. USB HIB: `descr_ep = 0xF0`, `multi_bo_ep = 0`,
    ///     `outfeed_chunk_length = 0x20`.
    /// 11. Temperature sensor: `omc0_d0`, `omc0_d8`.
    ///
    /// On success the result is the number of microseconds to wait, the
    /// settling time between enabling the temperature sensor's input ports and
    /// its measurement flow. [`Driver::finish_init`] does the rest, and the
    /// chip runs only after it.
    ///
    /// Steps 3 and 4 each end in a read whose result is discarded. It is on
    /// the wire in the known-good sequence and may act as a write barrier, so
    /// it stays.
    pub fn init(&mut self, mode: PerformanceMode) -> (r: Result<u32, Error<T::Error>>)
        ensures
            final(self).limits() == old(self).limits(),
            did_init(
                old(self).trace(),
                final(self).trace(),
                mode,
                old(self).limits(),
                outcome(r),
            ),
            r matches Ok(us) ==> us == SENSOR_SETTLE_US && us == 100,
    {
        let ghost t0 = self.trace();

        // 1. Chip ID.
        let r = self.csr_read32(csr::OMC0_00);
        let ghost ta = self.trace();
        let omc0_00: u32 = match r {
            Ok(v) => v,
            Err(e) => {
                return Err(e);
            },
        };
        let chip_id: u64 = csr::get_field(
            omc0_00 as u64,
            csr::OMC0_00_CHIP_ID.0,
            csr::OMC0_00_CHIP_ID.1,
        );
        if chip_id != csr::CHIP_ID {
            return Err(Error::ChipId { found: chip_id });
        }
        // 2 to 4.

        match self.prepare(omc0_00) {
            Ok(()) => {},
            Err(e) => {
                return Err(e);
            },
        }
        let ghost tb = self.trace();

        // 5 to 11.
        let scu3: u32 = match self.csr_read32(csr::SCU_CTRL_3) {
            Ok(v) => v,
            Err(e) => {
                return Err(e);
            },
        };
        match self.restart(scu3, mode) {
            Ok(()) => {
                assert(did_restart(tb, self.trace(), mode, self.limits(), Ok(())));
                Ok(SENSOR_SETTLE_US)
            },
            Err(e) => {
                assert(did_restart(tb, self.trace(), mode, self.limits(), Err(e)));
                Err(e)
            },
        }
    }

    /// Finishes what [`Driver::init`] began, once its wait is over: the
    /// temperature sensor's measurement flow (`omc0_dc.enthmc = 1`), then
    /// [`Driver::run_control`] with [`csr::RunControl::MoveToRun`].
    pub fn finish_init(&mut self) -> (r: Result<(), Error<T::Error>>)
        ensures
            final(self).limits() == old(self).limits(),
            did_script(
                finish_script(),
                old(self).trace(),
                final(self).trace(),
                old(self).limits(),
                r,
            ),
    {
        let ghost s = finish_script();
        let ghost t0 = self.trace();
        self.step_modify32(
            csr::OMC0_DC,
            &[(csr::OMC0_DC_ENTHMC, 0x1)],
            Ghost(s),
            Ghost(0),
            Ghost(t0),
        )?;
        self.run_control_steps(csr::RunControl::MoveToRun, Ghost(s), Ghost(1), Ghost(t0))
    }

    /// Writes `state` to every scalar-core and tile run-control register.
    ///
    /// The five scalar-core registers, then a re-broadcast of `tileconfig0`
    /// with a read-back poll, then the ten tile registers.
    ///
    /// The re-broadcast is not redundant: tile writes are routed by whatever
    /// `tileconfig0` selects, and the hardware does not order them against the
    /// previous write, so the poll is what makes them land.
    pub fn run_control(&mut self, state: csr::RunControl) -> (r: Result<(), Error<T::Error>>)
        ensures
            final(self).limits() == old(self).limits(),
            did_script(
                run_control_script(state),
                old(self).trace(),
                final(self).trace(),
                old(self).limits(),
                r,
            ),
    {
        let ghost s = run_control_script(state);
        let ghost t0 = self.trace();
        self.run_control_steps(state, Ghost(s), Ghost(0), Ghost(t0))
    }

    /// Run control as the steps from `b` to the end of a script.
    fn run_control_steps(
        &mut self,
        state: csr::RunControl,
        Ghost(s): Ghost<Seq<Step>>,
        Ghost(b): Ghost<int>,
        Ghost(t0): Ghost<Seq<Transfer<T::Error>>>,
    ) -> (r: Result<(), Error<T::Error>>)
        requires
            0 <= b <= s.len(),
            s.skip(b) =~= run_control_script(state),
            ran(s, b, t0, old(self).trace(), old(self).limits()),
        ensures
            final(self).limits() == old(self).limits(),
            did_script(s, t0, final(self).trace(), old(self).limits(), r),
    {
        let value: u64 = state.wire_number();
        let ghost rc = run_control_script(state);
        assert(forall|k: int| 0 <= k < rc.len() ==> s[b + k] == #[trigger] rc[k]) by {
            assert forall|k: int| 0 <= k < rc.len() implies s[b + k] == #[trigger] rc[k] by {
                assert(s.skip(b)[k] == s[b + k]);
            }
        }
        let mut i: usize = 0;
        while i < 5
            invariant
                i <= 5,
                value == state.number(),
                rc == run_control_script(state),
                0 <= b,
                s.len() == b + rc.len(),
                forall|k: int| 0 <= k < rc.len() ==> s[b + k] == #[trigger] rc[k],
                self.limits() == old(self).limits(),
                ran(s, b + i, t0, self.trace(), self.limits()),
            decreases 5 - i,
        {
            assert(rc[i as int] == s[b + i]);
            self.step_write64(
                csr::SCALAR_RUN_CONTROL_SEQUENCE[i],
                value,
                Ghost(s),
                Ghost(b + i),
                Ghost(t0),
            )?;
            i = i + 1;
        }
        assert(rc[5] == s[b + 5]);
        assert(rc[6] == s[b + 6]);
        self.step_write64(
            csr::TILECONFIG0,
            csr::TILECONFIG_BROADCAST,
            Ghost(s),
            Ghost(b + 5),
            Ghost(t0),
        )?;
        self.step_poll64(
            csr::TILECONFIG0,
            "tileconfig0 broadcast (run control)",
            csr::TILECONFIG_BROADCAST,
            Ghost(s),
            Ghost(b + 6),
            Ghost(t0),
        )?;
        let mut j: usize = 0;
        while j < 10
            invariant
                j <= 10,
                value == state.number(),
                rc == run_control_script(state),
                0 <= b,
                s.len() == b + rc.len(),
                forall|k: int| 0 <= k < rc.len() ==> s[b + k] == #[trigger] rc[k],
                self.limits() == old(self).limits(),
                ran(s, b + 7 + j, t0, self.trace(), self.limits()),
            decreases 10 - j,
        {
            assert(rc[7 + j as int] == s[b + (7 + j)]);
            self.step_write64(
                csr::TILE_RUN_CONTROL_SEQUENCE[j],
                value,
                Ghost(s),
                Ghost(b + 7 + j),
                Ghost(t0),
            )?;
            j = j + 1;
        }
        Ok(())
    }
}

} // verus!
