//! What bring-up looks like to the chip.
use vstd::prelude::*;

use crate::bringup;
use crate::bringup::{PerformanceMode, Step};
use crate::csr;
use crate::csr::RunControl;
use crate::driver;
use crate::driver::Timeouts;
use crate::error::Error;
use crate::transport::Transfer;
use crate::wire;

verus! {

// ---------------------------------------------------------------------------
// Register operations on the wire
// ---------------------------------------------------------------------------

/// The word a 32-bit register read was answered with.
pub open spec fn answer32<E>(x: Transfer<E>) -> int {
    wire::word32(x->ControlIn_data, 0)
}

/// The word a 64-bit register read was answered with.
pub open spec fn answer64<E>(x: Transfer<E>) -> int {
    wire::word64(x->ControlIn_data, 0)
}

/// The 32-bit register `reg` was read, and the read was answered.
pub open spec fn read_at<E>(t: Seq<Transfer<E>>, i: int, reg: int, us: u32) -> bool {
    0 <= i < t.len() && wire::got32(t[i], reg, answer32(t[i]), us)
}

/// The 32-bit register `reg` was written.
pub open spec fn write_at<E>(t: Seq<Transfer<E>>, i: int, reg: int, v: int, us: u32) -> bool {
    0 <= i < t.len() && wire::put32(t[i], reg, v, us)
}

/// The 64-bit register `reg` was written.
pub open spec fn wide_write_at<E>(t: Seq<Transfer<E>>, i: int, reg: int, v: int, us: u32) -> bool {
    0 <= i < t.len() && wire::put64(t[i], reg, v, us)
}

/// From `a` up to `b` the 32-bit register `reg` was read until its two bits
/// 9:8 were `want`, and not again.
pub open spec fn power_polled<E>(
    t: Seq<Transfer<E>>,
    a: int,
    b: int,
    reg: int,
    want: int,
    us: u32,
) -> bool {
    &&& 0 <= a < b <= t.len()
    &&& forall|i: int|
        a <= i < b ==> wire::got32(#[trigger] t[i], reg, answer32(t[i]), us) && (answer32(t[i])
            / 0x100 % 4 == want) == (i == b - 1)
}

/// From `a` up to `b` the 64-bit register `reg` was read until it was `want`,
/// and not again.
pub open spec fn wide_polled<E>(
    t: Seq<Transfer<E>>,
    a: int,
    b: int,
    reg: int,
    want: int,
    us: u32,
) -> bool {
    &&& 0 <= a < b <= t.len()
    &&& forall|i: int|
        a <= i < b ==> wire::got64(#[trigger] t[i], reg, answer64(t[i]), us) && (answer64(t[i])
            == want) == (i == b - 1)
}

/// `a` is the beginning of `b`.
spec fn begins<E>(a: Seq<Transfer<E>>, b: Seq<Transfer<E>>) -> bool {
    a.len() <= b.len() && forall|i: int| 0 <= i < a.len() ==> #[trigger] b[i] == a[i]
}

proof fn lemma_begins_twice<E>(a: Seq<Transfer<E>>, b: Seq<Transfer<E>>, c: Seq<Transfer<E>>)
    requires
        begins(a, b),
        begins(b, c),
    ensures
        begins(a, c),
{
    assert forall|i: int| 0 <= i < a.len() implies #[trigger] c[i] == a[i] by {
        assert(c[i] == b[i]);
        assert(b[i] == a[i]);
    }
}

proof fn lemma_step_begins<E>(
    s: Step,
    t0: Seq<Transfer<E>>,
    t1: Seq<Transfer<E>>,
    lim: Timeouts,
    res: Result<(), Error<E>>,
)
    requires
        bringup::did_step(s, t0, t1, lim, res),
    ensures
        begins(t0, t1),
{
    bringup::lemma_step_traffic(s, t0, t1, lim, res);
    assert forall|i: int| 0 <= i < t0.len() implies #[trigger] t1[i] == t0[i] by {
        assert(t1.take(t0.len() as int)[i] == t1[i]);
    }
}

/// The histories between the steps of a script.
proof fn lemma_histories<E>(
    script: Seq<Step>,
    k: int,
    t0: Seq<Transfer<E>>,
    t: Seq<Transfer<E>>,
    lim: Timeouts,
) -> (hs: Seq<Seq<Transfer<E>>>)
    requires
        0 <= k,
        bringup::ran(script, k, t0, t, lim),
    ensures
        hs.len() == k + 1,
        hs[0] == t0,
        hs[k] == t,
        forall|i: int|
            0 <= i < k ==> bringup::did_step(#[trigger] script[i], hs[i], hs[i + 1], lim, Ok(())),
        forall|i: int| 0 <= i <= k ==> begins(#[trigger] hs[i], t),
    decreases k,
{
    if k == 0 {
        seq![t0]
    } else {
        let tm = choose|tm: Seq<Transfer<E>>|
            bringup::ran(script, k - 1, t0, tm, lim) && #[trigger] bringup::did_step(
                script[k - 1],
                tm,
                t,
                lim,
                Ok(()),
            );
        let rest = lemma_histories(script, k - 1, t0, tm, lim);
        let hs = rest.push(t);
        lemma_step_begins(script[k - 1], tm, t, lim, Ok(()));
        assert forall|i: int| 0 <= i <= k implies begins(#[trigger] hs[i], t) by {
            if i < k {
                assert(hs[i] == rest[i]);
                lemma_begins_twice(rest[i], tm, t);
            }
        }
        assert forall|i: int| 0 <= i < k implies bringup::did_step(
            #[trigger] script[i],
            hs[i],
            hs[i + 1],
            lim,
            Ok(()),
        ) by {
            if i < k - 1 {
                assert(hs[i] == rest[i] && hs[i + 1] == rest[i + 1]);
            }
        }
        hs
    }
}

/// What one step of a script that succeeded put on the wire.
proof fn lemma_step_on_the_wire<E>(
    s: Step,
    ta: Seq<Transfer<E>>,
    tb: Seq<Transfer<E>>,
    t: Seq<Transfer<E>>,
    lim: Timeouts,
)
    requires
        bringup::did_step(s, ta, tb, lim, Ok(())),
        begins(tb, t),
    ensures
        ({
            let (a, b, us) = (ta.len() as int, tb.len() as int, lim.control_us);
            match s {
                Step::Read32 { reg } => b == a + 1 && read_at(
                    t,
                    a,
                    reg as int % 0x1_0000_0000,
                    us,
                ),
                Step::Write32 { reg, value } => b == a + 1 && write_at(
                    t,
                    a,
                    reg as int % 0x1_0000_0000,
                    value as int,
                    us,
                ),
                Step::Write64 { reg, value } => b == a + 1 && wide_write_at(
                    t,
                    a,
                    reg as int % 0x1_0000_0000,
                    value as int,
                    us,
                ),
                Step::Modify32 { reg, fields } => {
                    let v = answer32(t[a]);
                    &&& b == a + 2
                    &&& 0 <= v < 0x1_0000_0000
                    &&& read_at(t, a, reg as int % 0x1_0000_0000, us)
                    &&& write_at(
                        t,
                        a + 1,
                        reg as int % 0x1_0000_0000,
                        (driver::set_fields(v as u64, fields) as u32) as int,
                        us,
                    )
                },
                Step::SelfTest => {
                    &&& b == a + 1
                    &&& 0 <= answer32(t[a]) < 0x1_0000_0000
                    &&& read_at(t, a, csr::OMC0_00 as int, us)
                    &&& csr::field(
                        answer32(t[a]) as u64,
                        csr::OMC0_00_TEST_REG0.0,
                        csr::OMC0_00_TEST_REG0.1,
                    ) == csr::TEST_REG0_PATTERN
                },
                Step::Poll32 { reg, field, want, .. } => {
                    &&& a < b
                    &&& forall|i: int|
                        a <= i < b ==> {
                            &&& wire::got32(
                                #[trigger] t[i],
                                reg as int % 0x1_0000_0000,
                                answer32(t[i]),
                                us,
                            )
                            &&& 0 <= answer32(t[i]) < 0x1_0000_0000
                            &&& (csr::field(answer32(t[i]) as u64, field.0, field.1) == want) == (i
                                == b - 1)
                        }
                },
                Step::Poll64 { reg, want, .. } => wide_polled(
                    t,
                    a,
                    b,
                    reg as int % 0x1_0000_0000,
                    want as int,
                    us,
                ),
            }
        }),
{
    let us = lim.control_us;
    let a = ta.len() as int;
    let b = tb.len() as int;
    match s {
        Step::Read32 { reg } => {
            let r = choose|r: Result<u32, Error<E>>|
                driver::did_read32(ta, tb, reg, us, r) && Ok::<(), Error<E>>(())
                    == bringup::outcome(r);
            wire::law_read32_on_the_wire(ta, tb, reg, us, r);
            assert(t[a] == tb[a]);
        },
        Step::Write32 { reg, value } => {
            wire::law_write32_on_the_wire(ta, tb, reg, value, us, Ok(()));
            assert(t[a] == tb[a]);
        },
        Step::Write64 { reg, value } => {
            wire::law_write64_on_the_wire(ta, tb, reg, value, us, Ok(()));
            assert(t[a] == tb[a]);
        },
        Step::Modify32 { reg, fields } => {
            let r = choose|r: Result<u32, Error<E>>|
                driver::did_modify32(ta, tb, reg, fields, us, r) && Ok::<(), Error<E>>(())
                    == bringup::outcome(r);
            let tm = tb.take(a + 1);
            let v = driver::read32_result(tm.last())->Ok_0;
            wire::law_read32_on_the_wire(ta, tm, reg, us, Ok(v));
            let w = driver::set_fields(v as u64, fields) as u32;
            wire::law_write32_on_the_wire(tm, tb, reg, w, us, Ok(()));
            assert(t[a] == tb[a] && tb[a] == tm[a]);
            assert(t[a + 1] == tb[a + 1]);
        },
        Step::SelfTest => {
            let r = choose|r: Result<u32, Error<E>>|
                driver::did_read32(ta, tb, csr::OMC0_00, us, r) && Ok::<(), Error<E>>(())
                    == bringup::self_test(r);
            wire::law_read32_on_the_wire(ta, tb, csr::OMC0_00, us, r);
            assert(t[a] == tb[a]);
        },
        Step::Poll32 { reg, what, field, want } => {
            let r = choose|r: Result<u32, Error<E>>|
                driver::did_poll32(ta, tb, reg, what, field, want, lim, r) && Ok::<(), Error<E>>(())
                    == bringup::outcome(r);
            assert forall|i: int| a <= i < b implies {
                &&& wire::got32(#[trigger] t[i], reg as int % 0x1_0000_0000, answer32(t[i]), us)
                &&& 0 <= answer32(t[i]) < 0x1_0000_0000
                &&& (csr::field(answer32(t[i]) as u64, field.0, field.1) == want) == (i == b - 1)
            } by {
                assert(t[i] == tb[i]);
                lemma_poll_read(tb[i], reg, us);
                if i == b - 1 {
                    assert(tb[i] == tb.last());
                } else {
                    assert(driver::missed32(tb[i], field, want));
                }
            }
        },
        Step::Poll64 { reg, what, want } => {
            let r = choose|r: Result<u64, Error<E>>|
                driver::did_poll64(ta, tb, reg, what, want, lim, r) && Ok::<(), Error<E>>(())
                    == bringup::outcome(r);
            assert forall|i: int| a <= i < b implies wire::got64(
                #[trigger] t[i],
                reg as int % 0x1_0000_0000,
                answer64(t[i]),
                us,
            ) && (answer64(t[i]) == want) == (i == b - 1) by {
                assert(t[i] == tb[i]);
                lemma_wide_poll_read(tb[i], reg, us);
                if i == b - 1 {
                    assert(tb[i] == tb.last());
                } else {
                    assert(driver::missed64(tb[i], want));
                }
            }
        },
    }
}

/// What a 32-bit read yields.
proof fn lemma_poll_read<E>(x: Transfer<E>, reg: u64, us: u32)
    requires
        driver::is_csr_read(x, reg, driver::CSR_REQUEST_32, 4, us),
    ensures
        match driver::read32_result(x) {
            Ok(v) => wire::got32(x, reg as int % 0x1_0000_0000, answer32(x), us) && v as int
                == answer32(x),
            Err(e) => wire::broke(x, e),
        },
        0 <= answer32(x) < 0x1_0000_0000,
{
    let d = x->ControlIn_data;
    assert(d.subrange(0, 4) =~= d);
    wire::lemma_word32(d, 0);
}

/// What a 64-bit read yields.
proof fn lemma_wide_poll_read<E>(x: Transfer<E>, reg: u64, us: u32)
    requires
        driver::is_csr_read(x, reg, driver::CSR_REQUEST_64, 8, us),
    ensures
        match driver::read64_result(x) {
            Ok(v) => wire::got64(x, reg as int % 0x1_0000_0000, answer64(x), us) && v as int
                == answer64(x),
            Err(e) => wire::broke(x, e),
        },
        0 <= answer64(x) < 0x1_0000_0000_0000_0000,
{
    let d = x->ControlIn_data;
    assert(d.subrange(0, 8) =~= d);
    wire::lemma_word64(d, 0);
}

// ---------------------------------------------------------------------------
// Fields as numbers
// ---------------------------------------------------------------------------

proof fn lemma_ones()
    ensures
        csr::ones(1) == 1,
        csr::ones(2) == 3,
        csr::ones(3) == 7,
        csr::ones(4) == 15,
        csr::ones(5) == 31,
        csr::ones(10) == 1023,
        csr::ones(15) == 0x7fff,
        csr::ones(23) == 0x7f_ffff,
{
    assert(1u64 << 1u32 == 2 && 1u64 << 2u32 == 4 && 1u64 << 3u32 == 8 && 1u64 << 4u32 == 16 && 1u64
        << 5u32 == 32 && 1u64 << 10u32 == 1024 && 1u64 << 15u32 == 0x8000 && 1u64 << 23u32
        == 0x80_0000) by (bit_vector);
}

proof fn lemma_set_more(raw: u64, fields: Seq<((u32, u32), u64)>, f: ((u32, u32), u64))
    ensures
        driver::set_fields(raw, fields.push(f)) == csr::with_field(
            driver::set_fields(raw, fields),
            f.0.0,
            f.0.1,
            f.1,
        ),
{
    assert(fields.push(f).drop_last() =~= fields);
}

/// The power state of the `scu_ctrl_3` word, and its sleep control.
proof fn lemma_power_fields(v: u64)
    requires
        v < 0x1_0000_0000,
    ensures
        csr::field(v, 8, 2) == v / 0x100 % 4,
        csr::field(v, 22, 2) == v / 0x40_0000 % 4,
{
    lemma_ones();
    assert((v >> 8u32) & 3 == v / 0x100 % 4 && (v >> 22u32) & 3 == v / 0x40_0000 % 4)
        by (bit_vector);
}

/// The chip ID and the test pattern of the `omc0_00` word.
proof fn lemma_chip_fields(v: u64)
    requires
        v < 0x1_0000_0000,
    ensures
        csr::field(v, 0, 15) == v % 0x8000,
        csr::field(v, 16, 23) == v / 0x1_0000,
        csr::with_field(v, 16, 23, 0xAA) == v % 0x1_0000 + 0xAA_0000,
{
    lemma_ones();
    assert((v >> 0u32) & 0x7fff == v % 0x8000) by (bit_vector);
    assert((v >> 16u32) & 0x7f_ffff == v / 0x1_0000) by (bit_vector)
        requires
            v < 0x1_0000_0000,
    ;
    assert((v & !(0x7f_ffffu64 << 16u32)) | ((0xAAu64 & 0x7f_ffff) << 16u32) == v % 0x1_0000
        + 0xAA_0000) by (bit_vector)
        requires
            v < 0x1_0000_0000,
    ;
}

proof fn lemma_phy_mode(v: u64)
    requires
        v < 0x1_0000_0000,
    ensures
        driver::set_fields(v, seq![((8u32, 3u32), 0u64), ((11u32, 3u32), 0u64)]) == v - v / 0x100
            % 0x40 * 0x100,
{
    lemma_ones();
    let e = Seq::<((u32, u32), u64)>::empty();
    let (f, g) = (((8u32, 3u32), 0u64), ((11u32, 3u32), 0u64));
    lemma_set_more(v, e, f);
    lemma_set_more(v, e.push(f), g);
    assert(seq![f, g] =~= e.push(f).push(g));
    assert((((v & !(7u64 << 8u32)) | ((0u64 & 7) << 8u32)) & !(7u64 << 11u32)) | ((0u64 & 7)
        << 11u32) == v - v / 0x100 % 0x40 * 0x100) by (bit_vector)
        requires
            v < 0x1_0000_0000,
    ;
}

proof fn lemma_gating(v: u64, g: u64)
    requires
        v < 0x1_0000_0000,
        g < 4,
    ensures
        driver::set_fields(v, seq![((18u32, 2u32), g)]) == v - v / 0x4_0000 % 4 * 0x4_0000 + g
            * 0x4_0000,
{
    lemma_ones();
    let e = Seq::<((u32, u32), u64)>::empty();
    let f = ((18u32, 2u32), g);
    lemma_set_more(v, e, f);
    assert(seq![f] =~= e.push(f));
    assert((v & !(3u64 << 18u32)) | ((g & 3) << 18u32) == v - v / 0x4_0000 % 4 * 0x4_0000 + g
        * 0x4_0000) by (bit_vector)
        requires
            v < 0x1_0000_0000,
            g < 4,
    ;
}

proof fn lemma_force_sleep(v: u64)
    requires
        v < 0x1_0000_0000,
    ensures
        csr::with_field(v, 22, 2, 3) == v - v / 0x40_0000 % 4 * 0x40_0000 + 0xC0_0000,
{
    lemma_ones();
    assert((v & !(3u64 << 22u32)) | ((3u64 & 3) << 22u32) == v - v / 0x40_0000 % 4 * 0x40_0000
        + 0xC0_0000) by (bit_vector)
        requires
            v < 0x1_0000_0000,
    ;
}

proof fn lemma_clocks(v: u64, g: u64, x: u64, u: u64)
    requires
        v < 0x1_0000_0000,
        g < 4,
        x < 2,
        u < 2,
    ensures
        driver::set_fields(
            v,
            seq![
                ((22u32, 2u32), 2u64),
                ((28u32, 2u32), g),
                ((30u32, 1u32), x),
                ((31u32, 1u32), u),
            ],
        ) == v % 0x40_0000 + 0x80_0000 + v / 0x100_0000 % 0x10 * 0x100_0000 + g * 0x1000_0000 + x
            * 0x4000_0000 + u * 0x8000_0000,
{
    lemma_ones();
    let e = Seq::<((u32, u32), u64)>::empty();
    let (f0, f1, f2, f3) = (
        ((22u32, 2u32), 2u64),
        ((28u32, 2u32), g),
        ((30u32, 1u32), x),
        ((31u32, 1u32), u),
    );
    lemma_set_more(v, e, f0);
    lemma_set_more(v, e.push(f0), f1);
    lemma_set_more(v, e.push(f0).push(f1), f2);
    lemma_set_more(v, e.push(f0).push(f1).push(f2), f3);
    assert(seq![f0, f1, f2, f3] =~= e.push(f0).push(f1).push(f2).push(f3));
    let a = (v & !(3u64 << 22u32)) | ((2u64 & 3) << 22u32);
    let b = (a & !(3u64 << 28u32)) | ((g & 3) << 28u32);
    let c = (b & !(1u64 << 30u32)) | ((x & 1) << 30u32);
    let d = (c & !(1u64 << 31u32)) | ((u & 1) << 31u32);
    assert(d == v % 0x40_0000 + 0x80_0000 + v / 0x100_0000 % 0x10 * 0x100_0000 + g * 0x1000_0000 + x
        * 0x4000_0000 + u * 0x8000_0000) by (bit_vector)
        requires
            v < 0x1_0000_0000,
            g < 4,
            x < 2,
            u < 2,
            a == (v & !(3u64 << 22u32)) | ((2u64 & 3) << 22u32),
            b == (a & !(3u64 << 28u32)) | ((g & 3) << 28u32),
            c == (b & !(1u64 << 30u32)) | ((x & 1) << 30u32),
            d == (c & !(1u64 << 31u32)) | ((u & 1) << 31u32),
    ;
}

proof fn lemma_sensor_clock(v: u64)
    requires
        v < 0x1_0000_0000,
    ensures
        driver::set_fields(
            v,
            seq![
                ((7u32, 1u32), 1u64),
                ((8u32, 5u32), 0xCu64),
                ((16u32, 4u32), 0u64),
                ((20u32, 4u32), 0u64),
                ((24u32, 4u32), 0u64),
            ],
        ) == v % 0x80 + 0x80 + 0xC00 + v / 0x2000 % 8 * 0x2000 + v / 0x1000_0000 * 0x1000_0000,
{
    lemma_ones();
    let e = Seq::<((u32, u32), u64)>::empty();
    let (f0, f1, f2, f3, f4) = (
        ((7u32, 1u32), 1u64),
        ((8u32, 5u32), 0xCu64),
        ((16u32, 4u32), 0u64),
        ((20u32, 4u32), 0u64),
        ((24u32, 4u32), 0u64),
    );
    lemma_set_more(v, e, f0);
    lemma_set_more(v, e.push(f0), f1);
    lemma_set_more(v, e.push(f0).push(f1), f2);
    lemma_set_more(v, e.push(f0).push(f1).push(f2), f3);
    lemma_set_more(v, e.push(f0).push(f1).push(f2).push(f3), f4);
    assert(seq![f0, f1, f2, f3, f4] =~= e.push(f0).push(f1).push(f2).push(f3).push(f4));
    let a = (v & !(1u64 << 7u32)) | ((1u64 & 1) << 7u32);
    let b = (a & !(31u64 << 8u32)) | ((0xCu64 & 31) << 8u32);
    let c = (b & !(15u64 << 16u32)) | ((0u64 & 15) << 16u32);
    let d = (c & !(15u64 << 20u32)) | ((0u64 & 15) << 20u32);
    let w = (d & !(15u64 << 24u32)) | ((0u64 & 15) << 24u32);
    assert(w == v % 0x80 + 0x80 + 0xC00 + v / 0x2000 % 8 * 0x2000 + v / 0x1000_0000 * 0x1000_0000)
        by (bit_vector)
        requires
            v < 0x1_0000_0000,
            a == (v & !(1u64 << 7u32)) | ((1u64 & 1) << 7u32),
            b == (a & !(31u64 << 8u32)) | ((0xCu64 & 31) << 8u32),
            c == (b & !(15u64 << 16u32)) | ((0u64 & 15) << 16u32),
            d == (c & !(15u64 << 20u32)) | ((0u64 & 15) << 20u32),
            w == (d & !(15u64 << 24u32)) | ((0u64 & 15) << 24u32),
    ;
}

proof fn lemma_sensor_ports(v: u64)
    requires
        v < 0x1_0000_0000,
    ensures
        driver::set_fields(
            v,
            seq![((0u32, 1u32), 1u64), ((1u32, 1u32), 1u64), ((2u32, 1u32), 1u64)],
        ) == v / 8 * 8 + 7,
        driver::set_fields(v, seq![((0u32, 1u32), 1u64)]) == v / 2 * 2 + 1,
{
    lemma_ones();
    let e = Seq::<((u32, u32), u64)>::empty();
    let (f0, f1, f2) = (((0u32, 1u32), 1u64), ((1u32, 1u32), 1u64), ((2u32, 1u32), 1u64));
    lemma_set_more(v, e, f0);
    lemma_set_more(v, e.push(f0), f1);
    lemma_set_more(v, e.push(f0).push(f1), f2);
    assert(seq![f0, f1, f2] =~= e.push(f0).push(f1).push(f2));
    assert(seq![f0] =~= e.push(f0));
    let a = (v & !(1u64 << 0u32)) | ((1u64 & 1) << 0u32);
    let b = (a & !(1u64 << 1u32)) | ((1u64 & 1) << 1u32);
    let c = (b & !(1u64 << 2u32)) | ((1u64 & 1) << 2u32);
    assert(a == v / 2 * 2 + 1 && c == v / 8 * 8 + 7) by (bit_vector)
        requires
            v < 0x1_0000_0000,
            a == (v & !(1u64 << 0u32)) | ((1u64 & 1) << 0u32),
            b == (a & !(1u64 << 1u32)) | ((1u64 & 1) << 1u32),
            c == (b & !(1u64 << 2u32)) | ((1u64 & 1) << 2u32),
    ;
}

// ---------------------------------------------------------------------------
// Bring-up
// ---------------------------------------------------------------------------

/// From `a` on, nine transfers prepare the chip: `omc0_00` has the chip's ID,
/// takes the test pattern and gives it back; the inactive PHY modes are
/// switched off; clock gating is switched off. The last two each end in one
/// more read.
pub open spec fn prepared<E>(t: Seq<Transfer<E>>, a: int, us: u32) -> bool {
    let (id, phy, gate) = (answer32(t[a]), answer32(t[a + 3]), answer32(t[a + 6]));
    &&& read_at(t, a, 0x1_a000, us)
    &&& id % 0x8000 == 0x89A
    &&& write_at(t, a + 1, 0x1_a000, id % 0x1_0000 + 0xAA_0000, us)
    &&& read_at(t, a + 2, 0x1_a000, us)
    &&& answer32(t[a + 2]) / 0x1_0000 == 0xAA
    &&& read_at(t, a + 3, 0x1_a30c, us)
    &&& write_at(t, a + 4, 0x1_a30c, phy - phy / 0x100 % 0x40 * 0x100, us)
    &&& read_at(t, a + 5, 0x1_a30c, us)
    &&& read_at(t, a + 6, 0x1_a314, us)
    &&& write_at(t, a + 7, 0x1_a314, gate - gate / 0x4_0000 % 4 * 0x4_0000 + 0x8_0000, us)
    &&& read_at(t, a + 8, 0x1_a314, us)
}

/// From `a` up to `q`, a chip whose `scu_ctrl_3` was read as `v` is taken into
/// reset. Where bits 23:22 are both set it is there already and nothing is
/// done. Else they are set, bits 9:8 are awaited to be 2, and the bridge
/// credit is pulsed.
pub open spec fn taken_into_reset<E>(
    t: Seq<Transfer<E>>,
    a: int,
    q: int,
    v: int,
    us: u32,
) -> bool {
    if v / 0x40_0000 % 4 == 3 {
        q == a
    } else {
        &&& a + 3 < q
        &&& write_at(t, a, 0x1_a318, v - v / 0x40_0000 % 4 * 0x40_0000 + 0xC0_0000, us)
        &&& power_polled(t, a + 1, q - 2, 0x1_a318, 2, us)
        &&& write_at(t, q - 2, 0x1_907c, 0xF, us)
        &&& write_at(t, q - 1, 0x1_907c, 0, us)
    }
}

/// The clock bits 31:28 of `scu_ctrl_3` that a mode asks for: the divider in
/// 29:28, 125 MHz for the AXI in 30, 250 MHz for USB in 31.
pub open spec fn clock_bits_of(mode: PerformanceMode) -> int {
    match mode {
        PerformanceMode::Max => 0x0,
        PerformanceMode::High => 0x5,
        PerformanceMode::Medium => 0x6,
        PerformanceMode::Low => 0xF,
    }
}

/// From `q` on, the chip is taken out of reset at its clock rate and set up:
/// bits 23:22 of `scu_ctrl_3` become 2, bits 9:8 are awaited to be 0 up to
/// `r`, `scalarCoreRunControl` is awaited to be 0 up to `s`, and `tileconfig0`
/// is awaited to be read back up to `u`. Ten more transfers follow.
pub open spec fn taken_out_of_reset<E>(
    t: Seq<Transfer<E>>,
    mode: PerformanceMode,
    q: int,
    r: int,
    s: int,
    u: int,
    us: u32,
) -> bool {
    let (scu, gate, clock, ports) = (
        answer32(t[q]),
        answer32(t[u + 1]),
        answer32(t[u + 6]),
        answer32(t[u + 8]),
    );
    &&& read_at(t, q, 0x1_a318, us)
    &&& write_at(
        t,
        q + 1,
        0x1_a318,
        scu % 0x40_0000 + 0x80_0000 + scu / 0x100_0000 % 0x10 * 0x100_0000 + clock_bits_of(mode)
            * 0x1000_0000,
        us,
    )
    &&& power_polled(t, q + 2, r, 0x1_a318, 0, us)
    &&& wide_polled(t, r, s, 0x4_4018, 0, us)
    &&& wide_write_at(t, s, 0x4_a000, 1, us)
    &&& wide_write_at(t, s + 1, 0x4_8788, 0x7F, us)
    &&& wide_polled(t, s + 2, u, 0x4_8788, 0x7F, us)
    &&& wide_write_at(t, u, 0x4_0020, 0x1E02, us)
    &&& read_at(t, u + 1, 0x1_a314, us)
    &&& write_at(t, u + 2, 0x1_a314, gate - gate / 0x4_0000 % 4 * 0x4_0000 + 0x4_0000, us)
    &&& wide_write_at(t, u + 3, 0x4_c148, 0xF0, us)
    &&& wide_write_at(t, u + 4, 0x4_c160, 0, us)
    &&& wide_write_at(t, u + 5, 0x4_c058, 0x20, us)
    &&& read_at(t, u + 6, 0x1_a0d0, us)
    &&& write_at(
        t,
        u + 7,
        0x1_a0d0,
        clock % 0x80 + 0xC80 + clock / 0x2000 % 8 * 0x2000 + clock / 0x1000_0000 * 0x1000_0000,
        us,
    )
    &&& read_at(t, u + 8, 0x1_a0d8, us)
    &&& write_at(t, u + 9, 0x1_a0d8, ports / 8 * 8 + 7, us)
    &&& t.len() == u + 10
}

/// Step `i` of the preparation.
proof fn lemma_prepare_step<E>(
    omc: u32,
    hs: Seq<Seq<Transfer<E>>>,
    t: Seq<Transfer<E>>,
    lim: Timeouts,
    i: int,
)
    requires
        hs.len() == 7,
        forall|i: int|
            0 <= i < 6 ==> bringup::did_step(
                #[trigger] bringup::prepare_script(omc)[i],
                hs[i],
                hs[i + 1],
                lim,
                Ok(()),
            ),
        forall|i: int| 0 <= i <= 6 ==> begins(#[trigger] hs[i], t),
        0 <= i < 6,
    ensures
        ({
            let (a, e, us) = (hs[i].len() as int, hs[i + 1].len() as int, lim.control_us);
            let v = answer32(t[a]);
            if i == 0 {
                e == a + 1 && write_at(t, a, 0x1_a000, omc as int % 0x1_0000 + 0xAA_0000, us)
            } else if i == 1 {
                e == a + 1 && read_at(t, a, 0x1_a000, us) && v / 0x1_0000 == 0xAA
            } else if i == 2 {
                e == a + 2 && read_at(t, a, 0x1_a30c, us) && write_at(
                    t,
                    a + 1,
                    0x1_a30c,
                    v - v / 0x100 % 0x40 * 0x100,
                    us,
                )
            } else if i == 3 {
                e == a + 1 && read_at(t, a, 0x1_a30c, us)
            } else if i == 4 {
                e == a + 2 && read_at(t, a, 0x1_a314, us) && write_at(
                    t,
                    a + 1,
                    0x1_a314,
                    v - v / 0x4_0000 % 4 * 0x4_0000 + 0x8_0000,
                    us,
                )
            } else {
                e == a + 1 && read_at(t, a, 0x1_a314, us)
            }
        }),
{
    let z = bringup::prepare_script(omc);
    assert(begins(hs[i + 1], t));
    lemma_step_on_the_wire(z[i], hs[i], hs[i + 1], t, lim);
    let v = answer32(t[hs[i].len() as int]) as u64;
    if i == 0 {
        lemma_chip_fields(omc as u64);
    } else if i == 1 {
        lemma_chip_fields(v);
    } else if i == 2 {
        lemma_phy_mode(v);
    } else if i == 4 {
        lemma_gating(v, 2);
    }
}

proof fn lemma_prepare_on_the_wire<E>(
    omc: u32,
    ta: Seq<Transfer<E>>,
    tb: Seq<Transfer<E>>,
    t: Seq<Transfer<E>>,
    lim: Timeouts,
)
    requires
        bringup::did_script(bringup::prepare_script(omc), ta, tb, lim, Ok(())),
        begins(tb, t),
        0 < ta.len(),
        read_at(t, ta.len() - 1, 0x1_a000, lim.control_us),
        answer32(t[ta.len() - 1]) == omc,
        omc % 0x8000 == 0x89A,
    ensures
        prepared(t, ta.len() - 1, lim.control_us),
        tb.len() == ta.len() + 8,
{
    let hs = lemma_histories(bringup::prepare_script(omc), 6, ta, tb, lim);
    assert forall|i: int| 0 <= i <= 6 implies begins(#[trigger] hs[i], t) by {
        lemma_begins_twice(hs[i], tb, t);
    }
    lemma_prepare_step(omc, hs, t, lim, 0);
    lemma_prepare_step(omc, hs, t, lim, 1);
    lemma_prepare_step(omc, hs, t, lim, 2);
    lemma_prepare_step(omc, hs, t, lim, 3);
    lemma_prepare_step(omc, hs, t, lim, 4);
    lemma_prepare_step(omc, hs, t, lim, 5);
}

/// A poll for the power state.
proof fn lemma_power_polled<E>(
    s: Step,
    ta: Seq<Transfer<E>>,
    tb: Seq<Transfer<E>>,
    t: Seq<Transfer<E>>,
    want: u64,
    lim: Timeouts,
)
    requires
        bringup::did_step(s, ta, tb, lim, Ok(())),
        begins(tb, t),
        s matches Step::Poll32 { reg, field, want: w, .. } && reg == 0x1_a318 && field == (
            8u32,
            2u32,
        ) && w == want,
    ensures
        power_polled(t, ta.len() as int, tb.len() as int, 0x1_a318, want as int, lim.control_us),
{
    lemma_step_on_the_wire(s, ta, tb, t, lim);
    let (a, b) = (ta.len() as int, tb.len() as int);
    assert forall|i: int| a <= i < b implies wire::got32(
        #[trigger] t[i],
        0x1_a318,
        answer32(t[i]),
        lim.control_us,
    ) && (answer32(t[i]) / 0x100 % 4 == want) == (i == b - 1) by {
        lemma_power_fields(answer32(t[i]) as u64);
    }
}

proof fn lemma_restart_on_the_wire<E>(
    scu3: u32,
    mode: PerformanceMode,
    ta: Seq<Transfer<E>>,
    t: Seq<Transfer<E>>,
    lim: Timeouts,
) -> (marks: (int, int, int, int))
    requires
        bringup::did_script(
            bringup::reset_script(scu3) + bringup::start_script(mode),
            ta,
            t,
            lim,
            Ok(()),
        ),
    ensures
        taken_into_reset(t, ta.len() as int, marks.0, scu3 as int, lim.control_us),
        taken_out_of_reset(t, mode, marks.0, marks.1, marks.2, marks.3, lim.control_us),
{
    let r = bringup::reset_script(scu3);
    let w = bringup::start_script(mode);
    let z = r + w;
    let b = r.len() as int;
    let hs = lemma_histories(z, z.len() as int, ta, t, lim);
    lemma_power_fields(scu3 as u64);
    if b > 0 {
        assert forall|i: int| 0 <= i < 4 implies bringup::did_step(
            #[trigger] r[i],
            hs[i],
            hs[i + 1],
            lim,
            Ok(()),
        ) by {
            assert(z[i] == r[i]);
        }
        lemma_reset_on_the_wire(scu3, hs, t, lim);
    }
    assert forall|i: int| 0 <= i < 13 implies z[b + i] == #[trigger] w[i] by {}
    lemma_start_on_the_wire(mode, z, b, hs, t, lim)
}

/// The trip into reset.
proof fn lemma_reset_on_the_wire<E>(
    scu3: u32,
    hs: Seq<Seq<Transfer<E>>>,
    t: Seq<Transfer<E>>,
    lim: Timeouts,
)
    requires
        bringup::reset_script(scu3).len() > 0,
        hs.len() > 4,
        forall|i: int|
            0 <= i < 4 ==> bringup::did_step(
                #[trigger] bringup::reset_script(scu3)[i],
                hs[i],
                hs[i + 1],
                lim,
                Ok(()),
            ),
        forall|i: int| 0 <= i <= 4 ==> begins(#[trigger] hs[i], t),
    ensures
        taken_into_reset(
            t,
            hs[0].len() as int,
            hs[4].len() as int,
            scu3 as int,
            lim.control_us,
        ),
{
    let r = bringup::reset_script(scu3);
    lemma_power_fields(scu3 as u64);
    lemma_force_sleep(scu3 as u64);
    assert(begins(hs[1], t) && begins(hs[2], t) && begins(hs[3], t) && begins(hs[4], t));
    lemma_step_on_the_wire(r[0], hs[0], hs[1], t, lim);
    lemma_power_polled(r[1], hs[1], hs[2], t, 2, lim);
    lemma_step_on_the_wire(r[2], hs[2], hs[3], t, lim);
    lemma_step_on_the_wire(r[3], hs[3], hs[4], t, lim);
}

proof fn lemma_start_on_the_wire<E>(
    mode: PerformanceMode,
    z: Seq<Step>,
    b: int,
    hs: Seq<Seq<Transfer<E>>>,
    t: Seq<Transfer<E>>,
    lim: Timeouts,
) -> (marks: (int, int, int, int))
    requires
        0 <= b,
        z.len() == b + 13,
        hs.len() == z.len() + 1,
        hs[b + 13] == t,
        forall|i: int| 0 <= i < 13 ==> z[b + i] == #[trigger] bringup::start_script(mode)[i],
        forall|i: int|
            0 <= i < b + 13 ==> bringup::did_step(#[trigger] z[i], hs[i], hs[i + 1], lim, Ok(())),
        forall|i: int| 0 <= i <= b + 13 ==> begins(#[trigger] hs[i], t),
    ensures
        marks.0 == hs[b].len(),
        taken_out_of_reset(t, mode, marks.0, marks.1, marks.2, marks.3, lim.control_us),
{
    let (q, r, s, u) = (
        hs[b].len() as int,
        hs[b + 2].len() as int,
        hs[b + 3].len() as int,
        hs[b + 6].len() as int,
    );
    lemma_start_step(mode, z, b, hs, t, lim, 0);
    lemma_start_step(mode, z, b, hs, t, lim, 1);
    lemma_start_step(mode, z, b, hs, t, lim, 2);
    lemma_start_step(mode, z, b, hs, t, lim, 3);
    lemma_start_step(mode, z, b, hs, t, lim, 4);
    lemma_start_step(mode, z, b, hs, t, lim, 5);
    lemma_start_step(mode, z, b, hs, t, lim, 6);
    lemma_start_step(mode, z, b, hs, t, lim, 7);
    lemma_start_step(mode, z, b, hs, t, lim, 8);
    lemma_start_step(mode, z, b, hs, t, lim, 9);
    lemma_start_step(mode, z, b, hs, t, lim, 10);
    lemma_start_step(mode, z, b, hs, t, lim, 11);
    lemma_start_step(mode, z, b, hs, t, lim, 12);
    (q, r, s, u)
}

/// What step `i` of the way out of reset puts on the wire between `a` and `e`.
spec fn start_fact<E>(
    mode: PerformanceMode,
    i: int,
    t: Seq<Transfer<E>>,
    a: int,
    e: int,
    us: u32,
) -> bool {
    let v = answer32(t[a]);
    if i == 0 {
        e == a + 2 && read_at(t, a, 0x1_a318, us) && write_at(
            t,
            a + 1,
            0x1_a318,
            v % 0x40_0000 + 0x80_0000 + v / 0x100_0000 % 0x10 * 0x100_0000 + clock_bits_of(
                mode,
            ) * 0x1000_0000,
            us,
        )
    } else if i == 1 {
        power_polled(t, a, e, 0x1_a318, 0, us)
    } else if i == 2 {
        wide_polled(t, a, e, 0x4_4018, 0, us)
    } else if i == 3 {
        e == a + 1 && wide_write_at(t, a, 0x4_a000, 1, us)
    } else if i == 4 {
        e == a + 1 && wide_write_at(t, a, 0x4_8788, 0x7F, us)
    } else if i == 5 {
        wide_polled(t, a, e, 0x4_8788, 0x7F, us)
    } else if i == 6 {
        e == a + 1 && wide_write_at(t, a, 0x4_0020, 0x1E02, us)
    } else if i == 7 {
        e == a + 2 && read_at(t, a, 0x1_a314, us) && write_at(
            t,
            a + 1,
            0x1_a314,
            v - v / 0x4_0000 % 4 * 0x4_0000 + 0x4_0000,
            us,
        )
    } else if i == 8 {
        e == a + 1 && wide_write_at(t, a, 0x4_c148, 0xF0, us)
    } else if i == 9 {
        e == a + 1 && wide_write_at(t, a, 0x4_c160, 0, us)
    } else if i == 10 {
        e == a + 1 && wide_write_at(t, a, 0x4_c058, 0x20, us)
    } else if i == 11 {
        e == a + 2 && read_at(t, a, 0x1_a0d0, us) && write_at(
            t,
            a + 1,
            0x1_a0d0,
            v % 0x80 + 0xC80 + v / 0x2000 % 8 * 0x2000 + v / 0x1000_0000 * 0x1000_0000,
            us,
        )
    } else {
        e == a + 2 && read_at(t, a, 0x1_a0d8, us) && write_at(
            t,
            a + 1,
            0x1_a0d8,
            v / 8 * 8 + 7,
            us,
        )
    }
}

proof fn lemma_start_modifies<E>(
    mode: PerformanceMode,
    i: int,
    ta: Seq<Transfer<E>>,
    tb: Seq<Transfer<E>>,
    t: Seq<Transfer<E>>,
    lim: Timeouts,
)
    requires
        bringup::did_step(bringup::start_script(mode)[i], ta, tb, lim, Ok(())),
        begins(tb, t),
        i == 0 || i == 7 || i == 11 || i == 12,
    ensures
        start_fact(mode, i, t, ta.len() as int, tb.len() as int, lim.control_us),
{
    let s = bringup::start_script(mode)[i];
    lemma_step_on_the_wire(s, ta, tb, t, lim);
    let v = answer32(t[ta.len() as int]) as u64;
    if i == 0 {
        let c = mode.clocks();
        lemma_clocks(v, c.0, c.1, c.2);
    } else if i == 7 {
        lemma_gating(v, 1);
    } else if i == 11 {
        lemma_sensor_clock(v);
    } else {
        lemma_sensor_ports(v);
    }
}

proof fn lemma_start_writes<E>(
    mode: PerformanceMode,
    i: int,
    ta: Seq<Transfer<E>>,
    tb: Seq<Transfer<E>>,
    t: Seq<Transfer<E>>,
    lim: Timeouts,
)
    requires
        bringup::did_step(bringup::start_script(mode)[i], ta, tb, lim, Ok(())),
        begins(tb, t),
        1 <= i <= 6 || 8 <= i <= 10,
    ensures
        start_fact(mode, i, t, ta.len() as int, tb.len() as int, lim.control_us),
{
    let s = bringup::start_script(mode)[i];
    if i == 1 {
        lemma_power_polled(s, ta, tb, t, 0, lim);
    } else {
        lemma_step_on_the_wire(s, ta, tb, t, lim);
    }
}

/// Step `i` of the way out of reset, where the script has it from `b` on.
proof fn lemma_start_step<E>(
    mode: PerformanceMode,
    z: Seq<Step>,
    b: int,
    hs: Seq<Seq<Transfer<E>>>,
    t: Seq<Transfer<E>>,
    lim: Timeouts,
    i: int,
)
    requires
        0 <= b,
        z.len() == b + 13,
        hs.len() == z.len() + 1,
        forall|i: int| 0 <= i < 13 ==> z[b + i] == #[trigger] bringup::start_script(mode)[i],
        forall|i: int|
            0 <= i < b + 13 ==> bringup::did_step(#[trigger] z[i], hs[i], hs[i + 1], lim, Ok(())),
        forall|i: int| 0 <= i <= b + 13 ==> begins(#[trigger] hs[i], t),
        0 <= i < 13,
    ensures
        start_fact(
            mode,
            i,
            t,
            hs[b + i].len() as int,
            hs[b + i + 1].len() as int,
            lim.control_us,
        ),
{
    assert(z[b + i] == bringup::start_script(mode)[i]);
    assert(begins(hs[b + i + 1], t));
    if i == 0 || i == 7 || i == 11 || i == 12 {
        lemma_start_modifies(mode, i, hs[b + i], hs[b + i + 1], t, lim);
    } else {
        lemma_start_writes(mode, i, hs[b + i], hs[b + i + 1], t, lim);
    }
}

/// Law: the transfers of a bring-up that succeeded, as far as the wait, are
/// these and no others, in this order: nine that prepare the chip, a read of
/// `scu_ctrl_3`, the trip into reset unless that word says the chip is there,
/// and the way out of it at the clock rate asked for.
pub proof fn law_bring_up_on_the_wire<E>(
    t0: Seq<Transfer<E>>,
    t1: Seq<Transfer<E>>,
    mode: PerformanceMode,
    lim: Timeouts,
) -> (marks: (int, int, int, int))
    requires
        bringup::did_init(t0, t1, mode, lim, Ok(())),
    ensures
        t0.len() <= t1.len(),
        forall|i: int| 0 <= i < t0.len() ==> #[trigger] t1[i] == t0[i],
        prepared(t1, t0.len() as int, lim.control_us),
        read_at(t1, t0.len() + 9int, 0x1_a318, lim.control_us),
        taken_into_reset(
            t1,
            t0.len() + 10int,
            marks.0,
            answer32(t1[t0.len() + 9int]),
            lim.control_us,
        ),
        taken_out_of_reset(t1, mode, marks.0, marks.1, marks.2, marks.3, lim.control_us),
{
    let us = lim.control_us;
    let a = t0.len() as int;
    let (r, ta) = choose|r: Result<u32, Error<E>>, ta: Seq<Transfer<E>>|
        #[trigger] driver::did_read32(t0, ta, csr::OMC0_00, us, r) && bringup::init_after(
            r,
            ta,
            t1,
            mode,
            lim,
            Ok(()),
        );
    let omc = r->Ok_0;
    let (p, tb) = choose|p: Result<(), Error<E>>, tb: Seq<Transfer<E>>|
        #[trigger] bringup::did_script(bringup::prepare_script(omc), ta, tb, lim, p) && match p {
            Err(e) => t1 == tb && Ok::<(), Error<E>>(()) == Err::<(), Error<E>>(e),
            Ok(()) => bringup::did_restart(tb, t1, mode, lim, Ok(())),
        };
    let (w, tc) = choose|w: Result<u32, Error<E>>, tc: Seq<Transfer<E>>|
        #[trigger] driver::did_read32(tb, tc, csr::SCU_CTRL_3, us, w) && match w {
            Ok(scu3) => bringup::did_script(
                bringup::reset_script(scu3) + bringup::start_script(mode),
                tc,
                t1,
                lim,
                Ok(()),
            ),
            Err(e) => t1 == tc && Ok::<(), Error<E>>(()) == Err::<(), Error<E>>(e),
        };
    let scu3 = w->Ok_0;
    let z = bringup::reset_script(scu3) + bringup::start_script(mode);
    wire::law_read32_on_the_wire(t0, ta, csr::OMC0_00, us, r);
    wire::law_read32_on_the_wire(tb, tc, csr::SCU_CTRL_3, us, w);
    let hs = lemma_histories(z, z.len() as int, tc, t1, lim);
    assert(begins(hs[0], t1));
    let ps = lemma_histories(bringup::prepare_script(omc), 6, ta, tb, lim);
    assert(begins(ps[0], tb));
    assert(begins(tb, tc));
    assert(begins(t0, ta));
    lemma_begins_twice(tb, tc, t1);
    lemma_begins_twice(ta, tb, t1);
    lemma_begins_twice(t0, ta, t1);
    assert(t1[a] == ta[a]);
    lemma_chip_fields(omc as u64);
    assert(read_at(t1, a, 0x1_a000, us));
    lemma_prepare_on_the_wire(omc, ta, tb, t1, lim);
    assert(t1[a + 9] == tc[a + 9]);
    lemma_restart_on_the_wire(scu3, mode, tc, t1, lim)
}

/// The five scalar-core registers and the ten tile registers, in the order in
/// which run control writes them.
pub open spec fn run_register(i: int) -> int {
    seq![
        0x4_4018int,
        0x4_4158,
        0x4_4198,
        0x4_41d8,
        0x4_4218,
        0x4_00c0,
        0x4_0150,
        0x4_0110,
        0x4_0250,
        0x4_0298,
        0x4_02e0,
        0x4_0328,
        0x4_0190,
        0x4_01d0,
        0x4_0210,
    ][i]
}

/// The number of a run-control state.
pub open spec fn run_number(state: RunControl) -> int {
    match state {
        RunControl::MoveToIdle => 0,
        RunControl::MoveToRun => 1,
        RunControl::MoveToHalt => 2,
        RunControl::MoveToSingleStep => 3,
    }
}

/// From `a` on, the state is written to the five scalar-core registers,
/// `tileconfig0` is set to broadcast and awaited to be read back up to `u`, and
/// the state is written to the ten tile registers.
pub open spec fn run_control_sent<E>(
    t: Seq<Transfer<E>>,
    state: RunControl,
    a: int,
    u: int,
    us: u32,
) -> bool {
    &&& forall|i: int|
        0 <= i < 5 ==> wide_write_at(t, a + i, #[trigger] run_register(i), run_number(state), us)
    &&& wide_write_at(t, a + 5, 0x4_8788, 0x7F, us)
    &&& wide_polled(t, a + 6, u, 0x4_8788, 0x7F, us)
    &&& forall|i: int|
        5 <= i < 15 ==> wide_write_at(
            t,
            u + i - 5,
            #[trigger] run_register(i),
            run_number(state),
            us,
        )
    &&& t.len() == u + 10
}

proof fn lemma_run_control<E>(
    state: RunControl,
    z: Seq<Step>,
    b: int,
    hs: Seq<Seq<Transfer<E>>>,
    t: Seq<Transfer<E>>,
    lim: Timeouts,
) -> (u: int)
    requires
        0 <= b,
        z.len() == b + 17,
        hs.len() == z.len() + 1,
        hs[b + 17] == t,
        forall|i: int|
            0 <= i < 17 ==> z[b + i] == #[trigger] bringup::run_control_script(state)[i],
        forall|i: int|
            0 <= i < b + 17 ==> bringup::did_step(#[trigger] z[i], hs[i], hs[i + 1], lim, Ok(())),
        forall|i: int| 0 <= i <= b + 17 ==> begins(#[trigger] hs[i], t),
    ensures
        run_control_sent(t, state, hs[b].len() as int, u, lim.control_us),
{
    let a = hs[b].len() as int;
    let us = lim.control_us;
    let w = bringup::run_control_script(state);
    lemma_run_step(state, z, b, hs, t, lim, 0);
    lemma_run_step(state, z, b, hs, t, lim, 1);
    lemma_run_step(state, z, b, hs, t, lim, 2);
    lemma_run_step(state, z, b, hs, t, lim, 3);
    lemma_run_step(state, z, b, hs, t, lim, 4);
    lemma_run_step(state, z, b, hs, t, lim, 5);
    lemma_run_step(state, z, b, hs, t, lim, 6);
    let u = hs[b + 7].len() as int;
    lemma_run_step(state, z, b, hs, t, lim, 7);
    lemma_run_step(state, z, b, hs, t, lim, 8);
    lemma_run_step(state, z, b, hs, t, lim, 9);
    lemma_run_step(state, z, b, hs, t, lim, 10);
    lemma_run_step(state, z, b, hs, t, lim, 11);
    lemma_run_step(state, z, b, hs, t, lim, 12);
    lemma_run_step(state, z, b, hs, t, lim, 13);
    lemma_run_step(state, z, b, hs, t, lim, 14);
    lemma_run_step(state, z, b, hs, t, lim, 15);
    lemma_run_step(state, z, b, hs, t, lim, 16);
    u
}

/// Step `i` of run control, where the script has it from `b` on.
proof fn lemma_run_step<E>(
    state: RunControl,
    z: Seq<Step>,
    b: int,
    hs: Seq<Seq<Transfer<E>>>,
    t: Seq<Transfer<E>>,
    lim: Timeouts,
    i: int,
)
    requires
        0 <= b,
        z.len() == b + 17,
        hs.len() == z.len() + 1,
        forall|i: int|
            0 <= i < 17 ==> z[b + i] == #[trigger] bringup::run_control_script(state)[i],
        forall|i: int|
            0 <= i < b + 17 ==> bringup::did_step(#[trigger] z[i], hs[i], hs[i + 1], lim, Ok(())),
        forall|i: int| 0 <= i <= b + 17 ==> begins(#[trigger] hs[i], t),
        0 <= i < 17,
    ensures
        ({
            let (a, e, us) = (hs[b + i].len() as int, hs[b + i + 1].len() as int, lim.control_us);
            if i < 5 {
                e == a + 1 && wide_write_at(t, a, run_register(i), run_number(state), us)
            } else if i == 5 {
                e == a + 1 && wide_write_at(t, a, 0x4_8788, 0x7F, us)
            } else if i == 6 {
                wide_polled(t, a, e, 0x4_8788, 0x7F, us)
            } else {
                e == a + 1 && wide_write_at(t, a, run_register(i - 2), run_number(state), us)
            }
        }),
{
    let w = bringup::run_control_script(state);
    assert(z[b + i] == w[i]);
    assert(begins(hs[b + i + 1], t));
    lemma_step_on_the_wire(z[b + i], hs[b + i], hs[b + i + 1], t, lim);
}

/// Law: run control that succeeded has written the state to the five
/// scalar-core registers, set `tileconfig0` to broadcast and seen it read back,
/// and written the state to the ten tile registers, in that order and with
/// nothing in between.
pub proof fn law_run_control_on_the_wire<E>(
    t0: Seq<Transfer<E>>,
    t1: Seq<Transfer<E>>,
    state: RunControl,
    lim: Timeouts,
) -> (u: int)
    requires
        bringup::did_script(bringup::run_control_script(state), t0, t1, lim, Ok(())),
    ensures
        t0.len() <= t1.len(),
        forall|i: int| 0 <= i < t0.len() ==> #[trigger] t1[i] == t0[i],
        run_control_sent(t1, state, t0.len() as int, u, lim.control_us),
{
    let z = bringup::run_control_script(state);
    let hs = lemma_histories(z, 17, t0, t1, lim);
    assert(begins(hs[0], t1));
    lemma_run_control(state, z, 0, hs, t1, lim)
}

/// Law: the second part of a bring-up that succeeded has switched the sensor's
/// measurement on, bit 0 of `omc0_dc`, and then everything to run.
pub proof fn law_finish_on_the_wire<E>(
    t0: Seq<Transfer<E>>,
    t1: Seq<Transfer<E>>,
    lim: Timeouts,
) -> (u: int)
    requires
        bringup::did_script(bringup::finish_script(), t0, t1, lim, Ok(())),
    ensures
        t0.len() <= t1.len(),
        forall|i: int| 0 <= i < t0.len() ==> #[trigger] t1[i] == t0[i],
        read_at(t1, t0.len() as int, 0x1_a0dc, lim.control_us),
        write_at(
            t1,
            t0.len() + 1int,
            0x1_a0dc,
            answer32(t1[t0.len() as int]) / 2 * 2 + 1,
            lim.control_us,
        ),
        run_control_sent(t1, RunControl::MoveToRun, t0.len() + 2int, u, lim.control_us),
{
    let z = bringup::finish_script();
    let rc = bringup::run_control_script(RunControl::MoveToRun);
    let hs = lemma_histories(z, 18, t0, t1, lim);
    assert(begins(hs[0], t1) && begins(hs[1], t1));
    lemma_step_on_the_wire(z[0], hs[0], hs[1], t1, lim);
    lemma_sensor_ports(answer32(t1[t0.len() as int]) as u64);
    assert forall|i: int| 0 <= i < 17 implies z[1 + i] == #[trigger] rc[i] by {}
    lemma_run_control(RunControl::MoveToRun, z, 1, hs, t1, lim)
}

// ---------------------------------------------------------------------------
// Failures
// ---------------------------------------------------------------------------

/// The last `n` transfers read the 32-bit register `reg`, and its bits 9:8 were
/// never `want`.
pub open spec fn power_awaited_in_vain<E>(
    t: Seq<Transfer<E>>,
    n: int,
    reg: int,
    want: int,
    us: u32,
) -> bool {
    &&& n <= t.len()
    &&& forall|i: int|
        t.len() - n <= i < t.len() ==> wire::got32(#[trigger] t[i], reg, answer32(t[i]), us)
            && answer32(t[i]) / 0x100 % 4 != want
}

/// The last `n` transfers read the 64-bit register `reg`, and it was never
/// `want`.
pub open spec fn word_awaited_in_vain<E>(
    t: Seq<Transfer<E>>,
    n: int,
    reg: int,
    want: int,
    us: u32,
) -> bool {
    &&& n <= t.len()
    &&& forall|i: int|
        t.len() - n <= i < t.len() ==> wire::got64(#[trigger] t[i], reg, answer64(t[i]), us)
            && answer64(t[i]) != want
}

/// A poll was given up after as many reads as allowed, none of which showed
/// what the error says was waited for.
pub open spec fn gave_up<E>(t: Seq<Transfer<E>>, what: &'static str, lim: Timeouts) -> bool {
    let (n, us) = (lim.poll_attempts as int, lim.control_us);
    ||| what == "scu_ctrl_3.cur_pwr_state == sleep" && power_awaited_in_vain(t, n, 0x1_a318, 2, us)
    ||| what == "scu_ctrl_3.cur_pwr_state == active" && power_awaited_in_vain(
        t,
        n,
        0x1_a318,
        0,
        us,
    )
    ||| what == "scalarCoreRunControl == 0" && word_awaited_in_vain(t, n, 0x4_4018, 0, us)
    ||| what == "tileconfig0 broadcast" && word_awaited_in_vain(t, n, 0x4_8788, 0x7F, us)
    ||| what == "tileconfig0 broadcast (run control)" && word_awaited_in_vain(
        t,
        n,
        0x4_8788,
        0x7F,
        us,
    )
}

/// The scratch register did not give the test pattern back.
pub open spec fn test_failed<E>(t: Seq<Transfer<E>>, e: Error<E>, us: u32) -> bool {
    let i = t.len() - 1;
    read_at(t, i, 0x1_a000, us) && answer32(t[i]) / 0x1_0000 != 0xAA && e == (Error::<E>::SelfTest {
        found: (answer32(t[i]) / 0x1_0000) as u64,
    })
}

/// The error of a step is one of these.
spec fn has_reason<E>(
    t0: Seq<Transfer<E>>,
    t: Seq<Transfer<E>>,
    e: Error<E>,
    lim: Timeouts,
) -> bool {
    ||| t.len() > t0.len() && wire::broke(t.last(), e)
    ||| t.len() > t0.len() && test_failed(t, e, lim.control_us)
    ||| e matches Error::PollTimeout(what) && gave_up(t, what, lim)
}

/// The error of a step other than the self-test is one of these.
spec fn has_plain_reason<E>(
    t0: Seq<Transfer<E>>,
    t: Seq<Transfer<E>>,
    e: Error<E>,
    lim: Timeouts,
) -> bool {
    ||| t.len() > t0.len() && wire::broke(t.last(), e)
    ||| e matches Error::PollTimeout(what) && gave_up(t, what, lim)
}

/// A poll of the power state that is one of bring-up's.
spec fn known_poll32(reg: u64, what: &'static str, field: (u32, u32), want: u64) -> bool {
    reg == 0x1_a318 && field == (8u32, 2u32) && ((what == "scu_ctrl_3.cur_pwr_state == sleep"
        && want == 2) || (what == "scu_ctrl_3.cur_pwr_state == active" && want == 0))
}

/// A poll of a 64-bit register that is one of bring-up's.
spec fn known_poll64(reg: u64, what: &'static str, want: u64) -> bool {
    ||| reg == 0x4_4018 && what == "scalarCoreRunControl == 0" && want == 0
    ||| reg == 0x4_8788 && what == "tileconfig0 broadcast" && want == 0x7F
    ||| reg == 0x4_8788 && what == "tileconfig0 broadcast (run control)" && want == 0x7F
}

/// A step whose polls are all bring-up's.
spec fn known(s: Step) -> bool {
    match s {
        Step::Poll32 { reg, what, field, want } => known_poll32(reg, what, field, want),
        Step::Poll64 { reg, what, want } => known_poll64(reg, what, want),
        _ => true,
    }
}

proof fn lemma_poll_fails<E>(
    s: Step,
    ta: Seq<Transfer<E>>,
    tb: Seq<Transfer<E>>,
    lim: Timeouts,
    e: Error<E>,
)
    requires
        bringup::did_step(s, ta, tb, lim, Err(e)),
        known(s),
        s is Poll32 || s is Poll64,
    ensures
        has_plain_reason(ta, tb, e, lim),
{
    let us = lim.control_us;
    let (a, b) = (ta.len() as int, tb.len() as int);
    match s {
        Step::Poll32 { reg, what, field, want } => {
            let r = choose|r: Result<u32, Error<E>>|
                driver::did_poll32(ta, tb, reg, what, field, want, lim, r) && Err::<(), Error<E>>(e)
                    == bringup::outcome(r);
            if b > a {
                lemma_poll_read(tb[b - 1], reg, us);
            }
            if !(b > a && wire::broke(tb.last(), e)) {
                assert forall|i: int| a <= i < b implies wire::got32(
                    #[trigger] tb[i],
                    0x1_a318,
                    answer32(tb[i]),
                    us,
                ) && answer32(tb[i]) / 0x100 % 4 != want by {
                    lemma_poll_read(tb[i], reg, us);
                    lemma_power_fields(answer32(tb[i]) as u64);
                    if i < b - 1 {
                        assert(driver::missed32(tb[i], field, want));
                    } else {
                        assert(tb[i] == tb.last());
                    }
                }
                assert(power_awaited_in_vain(tb, b - a, 0x1_a318, want as int, us));
            }
        },
        Step::Poll64 { reg, what, want } => {
            let r = choose|r: Result<u64, Error<E>>|
                driver::did_poll64(ta, tb, reg, what, want, lim, r) && Err::<(), Error<E>>(e)
                    == bringup::outcome(r);
            if b > a {
                lemma_wide_poll_read(tb[b - 1], reg, us);
            }
            if !(b > a && wire::broke(tb.last(), e)) {
                assert forall|i: int| a <= i < b implies wire::got64(
                    #[trigger] tb[i],
                    reg as int,
                    answer64(tb[i]),
                    us,
                ) && answer64(tb[i]) != want by {
                    lemma_wide_poll_read(tb[i], reg, us);
                    if i < b - 1 {
                        assert(driver::missed64(tb[i], want));
                    } else {
                        assert(tb[i] == tb.last());
                    }
                }
                assert(word_awaited_in_vain(tb, b - a, reg as int, want as int, us));
            }
        },
        _ => {},
    }
}

proof fn lemma_step_fails<E>(
    s: Step,
    ta: Seq<Transfer<E>>,
    tb: Seq<Transfer<E>>,
    lim: Timeouts,
    e: Error<E>,
)
    requires
        bringup::did_step(s, ta, tb, lim, Err(e)),
        known(s),
    ensures
        has_reason(ta, tb, e, lim),
        !(s is SelfTest) ==> has_plain_reason(ta, tb, e, lim),
{
    let us = lim.control_us;
    match s {
        Step::Read32 { reg } => {
            let r = choose|r: Result<u32, Error<E>>|
                driver::did_read32(ta, tb, reg, us, r) && Err::<(), Error<E>>(e)
                    == bringup::outcome(r);
            wire::law_read32_on_the_wire(ta, tb, reg, us, r);
        },
        Step::Write32 { reg, value } => {
            wire::law_write32_on_the_wire(ta, tb, reg, value, us, Err(e));
        },
        Step::Write64 { reg, value } => {
            wire::law_write64_on_the_wire(ta, tb, reg, value, us, Err(e));
        },
        Step::Modify32 { reg, fields } => {
            let r = choose|r: Result<u32, Error<E>>|
                driver::did_modify32(ta, tb, reg, fields, us, r) && Err::<(), Error<E>>(e)
                    == bringup::outcome(r);
            let tm = tb.take(ta.len() + 1int);
            if let Ok(v) = driver::read32_result(tm.last()) {
                let w = driver::set_fields(v as u64, fields) as u32;
                wire::law_write32_on_the_wire(tm, tb, reg, w, us, Err(e));
            } else {
                wire::law_read32_on_the_wire(ta, tb, reg, us, Err(e));
            }
        },
        Step::SelfTest => {
            let r = choose|r: Result<u32, Error<E>>|
                driver::did_read32(ta, tb, csr::OMC0_00, us, r) && Err::<(), Error<E>>(e)
                    == bringup::self_test(r);
            wire::law_read32_on_the_wire(ta, tb, csr::OMC0_00, us, r);
            if let Ok(v) = r {
                lemma_chip_fields(v as u64);
            }
        },
        _ => {
            lemma_poll_fails(s, ta, tb, lim, e);
        },
    }
}

proof fn lemma_script_fails<E>(
    z: Seq<Step>,
    ta: Seq<Transfer<E>>,
    tb: Seq<Transfer<E>>,
    lim: Timeouts,
    e: Error<E>,
)
    requires
        bringup::did_script(z, ta, tb, lim, Err(e)),
        forall|i: int| 0 <= i < z.len() ==> known(#[trigger] z[i]),
    ensures
        has_reason(ta, tb, e, lim),
        (forall|i: int| 0 <= i < z.len() ==> !((#[trigger] z[i]) is SelfTest)) ==> has_plain_reason(
            ta,
            tb,
            e,
            lim,
        ),
{
    let (k, tm) = choose|k: int, tm: Seq<Transfer<E>>|
        0 <= k < z.len() && #[trigger] bringup::ran(z, k, ta, tm, lim) && bringup::did_step(
            z[k],
            tm,
            tb,
            lim,
            Err(e),
        );
    let hs = lemma_histories(z, k, ta, tm, lim);
    assert(begins(hs[0], tm));
    assert(known(z[k]));
    lemma_step_fails(z[k], tm, tb, lim, e);
    lemma_step_begins(z[k], tm, tb, lim, Err(e));
}

/// Law: bring-up fails for a reason. The last transfer failed; or the chip's
/// ID, bits 14:0 of `omc0_00`, is not `0x89A`, and that word is all that was
/// read; or the scratch register did not give the test pattern back; or a poll
/// was given up that saw nothing of what it waited for.
pub proof fn law_bring_up_fails_for_a_reason<E>(
    t0: Seq<Transfer<E>>,
    t1: Seq<Transfer<E>>,
    mode: PerformanceMode,
    lim: Timeouts,
    e: Error<E>,
)
    requires
        bringup::did_init(t0, t1, mode, lim, Err(e)),
    ensures
        t1.len() > t0.len(),
        ({
            ||| wire::broke(t1.last(), e)
            ||| {
                &&& t1.len() == t0.len() + 1
                &&& read_at(t1, t0.len() as int, 0x1_a000, lim.control_us)
                &&& answer32(t1[t0.len() as int]) % 0x8000 != 0x89A
                &&& e == (Error::<E>::ChipId {
                    found: (answer32(t1[t0.len() as int]) % 0x8000) as u64,
                })
            }
            ||| test_failed(t1, e, lim.control_us)
            ||| e matches Error::PollTimeout(what) && gave_up(t1, what, lim)
        }),
{
    let us = lim.control_us;
    let (r, ta) = choose|r: Result<u32, Error<E>>, ta: Seq<Transfer<E>>|
        #[trigger] driver::did_read32(t0, ta, csr::OMC0_00, us, r) && bringup::init_after(
            r,
            ta,
            t1,
            mode,
            lim,
            Err(e),
        );
    wire::law_read32_on_the_wire(t0, ta, csr::OMC0_00, us, r);
    if let Ok(omc) = r {
        lemma_chip_fields(omc as u64);
        let id = csr::field(omc as u64, csr::OMC0_00_CHIP_ID.0, csr::OMC0_00_CHIP_ID.1);
        if id == csr::CHIP_ID {
            let z = bringup::prepare_script(omc);
            let (p, tb) = choose|p: Result<(), Error<E>>, tb: Seq<Transfer<E>>|
                #[trigger] bringup::did_script(z, ta, tb, lim, p) && match p {
                    Err(f) => t1 == tb && Err::<(), Error<E>>(e) == Err::<(), Error<E>>(f),
                    Ok(()) => bringup::did_restart(tb, t1, mode, lim, Err(e)),
                };
            bringup::law_script_traffic(z, ta, tb, lim, p);
            if p is Err {
                lemma_script_fails(z, ta, tb, lim, e);
            } else {
                lemma_restart_fails(tb, t1, mode, lim, e);
            }
        }
    }
}

proof fn lemma_restart_fails<E>(
    tb: Seq<Transfer<E>>,
    t1: Seq<Transfer<E>>,
    mode: PerformanceMode,
    lim: Timeouts,
    e: Error<E>,
)
    requires
        bringup::did_restart(tb, t1, mode, lim, Err(e)),
    ensures
        t1.len() > tb.len(),
        has_reason(tb, t1, e, lim),
{
    let us = lim.control_us;
    let (w, tc) = choose|w: Result<u32, Error<E>>, tc: Seq<Transfer<E>>|
        #[trigger] driver::did_read32(tb, tc, csr::SCU_CTRL_3, us, w) && match w {
            Ok(scu3) => bringup::did_script(
                bringup::reset_script(scu3) + bringup::start_script(mode),
                tc,
                t1,
                lim,
                Err(e),
            ),
            Err(f) => t1 == tc && Err::<(), Error<E>>(e) == Err::<(), Error<E>>(f),
        };
    wire::law_read32_on_the_wire(tb, tc, csr::SCU_CTRL_3, us, w);
    if let Ok(scu3) = w {
        let z = bringup::reset_script(scu3) + bringup::start_script(mode);
        bringup::law_script_traffic(z, tc, t1, lim, Err(e));
        lemma_script_fails(z, tc, t1, lim, e);
    }
}

/// Law: run control, and the second part of bring-up, fail for a reason: the
/// last transfer failed, or the poll was given up that saw `tileconfig0` never
/// read back.
pub proof fn law_run_control_fails_for_a_reason<E>(
    t0: Seq<Transfer<E>>,
    t1: Seq<Transfer<E>>,
    state: RunControl,
    lim: Timeouts,
    e: Error<E>,
)
    requires
        bringup::did_script(bringup::run_control_script(state), t0, t1, lim, Err(e))
            || bringup::did_script(bringup::finish_script(), t0, t1, lim, Err(e)),
    ensures
        ({
            ||| t1.len() > t0.len() && wire::broke(t1.last(), e)
            ||| e matches Error::PollTimeout(what) && gave_up(t1, what, lim)
        }),
{
    if bringup::did_script(bringup::run_control_script(state), t0, t1, lim, Err(e)) {
        lemma_script_fails(bringup::run_control_script(state), t0, t1, lim, e);
    } else {
        lemma_script_fails(bringup::finish_script(), t0, t1, lim, e);
    }
}

/// Law: the temperature is read from bits 25:16 of `omc0_dc`, and falls by a
/// quarter of a degree with each step of them; 662 stands for 0.55 degrees.
pub proof fn law_temperature_on_the_wire<E>(x: Transfer<E>, us: u32, v: u32)
    ensures
        driver::is_csr_read(x, csr::OMC0_DC, driver::CSR_REQUEST_32, 4, us) ==> wire::asks(
            x,
            0x1_a0dc,
            1,
            4,
            us,
        ),
        driver::millicelsius(
            csr::field(v as u64, csr::OMC0_DC_DATA.0, csr::OMC0_DC_DATA.1) as int,
        ) == (662 - v as int / 0x1_0000 % 0x400) * 250 + 550,
{
    lemma_ones();
    assert((v as u64 >> 16u32) & 1023 == v as u64 / 0x1_0000 % 0x400) by (bit_vector);
}

/// Law: an outcome is a success where there was one, and else the error there
/// was.
pub proof fn law_outcome_keeps_the_error<A, E>(r: Result<A, Error<E>>)
    ensures
        match r {
            Ok(_) => bringup::outcome(r) == Ok::<(), Error<E>>(()),
            Err(e) => bringup::outcome(r) == Err::<(), Error<E>>(e),
        },
{
}

} // verus!
