//! Transports for the JTAG engine: one that drives a device through a
//! byte-oriented serial bridge, and one that records every clock edge.

use vstd::prelude::*;
use crate::jtag::{Drive, JtagPhy, PhyEvent};

verus! {

/// Control byte high bits for a cycle whose clock the bridge pulses.
pub const SYNC_UART_CODE: u8 = 0x60;
/// Control byte high bits for a cycle whose clock line is set directly.
pub const ASYNC_UART_CODE: u8 = 0x40;
/// Control byte bit carrying TCK (direct clocking only).
pub const MASK_TCK: u8 = 0x4;
/// Control byte bit carrying TMS.
pub const MASK_TMS: u8 = 0x2;
/// Control byte bit carrying TDI.
pub const MASK_TDI: u8 = 0x1;
/// The response byte that reports TDO high (ASCII '1').
pub const TDO_HIGH: u8 = 0x31;

/// A serial link to the JTAG bridge.
pub trait UartLink {
    /// Sends one byte.
    fn write(&mut self, byte: u8);

    /// Receives one byte, waiting for it.
    fn read(&mut self) -> u8;

    /// Waits `us` microseconds.
    fn delay_us(&mut self, us: u32);
}

/// The control byte for a bridge-clocked cycle.
pub open spec fn sync_code(tdi: bool, tms: bool) -> u8 {
    SYNC_UART_CODE | (if tms { MASK_TMS } else { 0 }) | (if tdi { MASK_TDI } else { 0 })
}

/// The control byte for a cycle that sets the clock line to `tck`.
pub open spec fn nosync_code(tdi: bool, tms: bool, tck: bool) -> u8 {
    ASYNC_UART_CODE | (if tck { MASK_TCK } else { 0 }) | (if tms { MASK_TMS } else { 0 }) | (if tdi {
        MASK_TDI
    } else {
        0
    })
}

/// Encodes a bridge-clocked cycle.
pub fn sync_byte(tdi: bool, tms: bool) -> (r: u8)
    ensures
        r == sync_code(tdi, tms),
{
    let m: u8 = if tms { MASK_TMS } else { 0 };
    let d: u8 = if tdi { MASK_TDI } else { 0 };
    SYNC_UART_CODE | m | d
}

/// Encodes a cycle that sets the clock line to `tck`.
pub fn nosync_byte(tdi: bool, tms: bool, tck: bool) -> (r: u8)
    ensures
        r == nosync_code(tdi, tms, tck),
{
    let t: u8 = if tck { MASK_TCK } else { 0 };
    let m: u8 = if tms { MASK_TMS } else { 0 };
    let d: u8 = if tdi { MASK_TDI } else { 0 };
    ASYNC_UART_CODE | t | m | d
}

/// Decodes the bridge's response byte into TDO.
pub fn response_bit(b: u8) -> (r: bool)
    ensures
        r == (b == TDO_HIGH),
{
    b == TDO_HIGH
}

/// A transport that drives the device through a serial JTAG bridge: one
/// control byte out and one response byte back per cycle.
pub struct JtagUartPhy<L: UartLink> {
    uart: L,
    log: Ghost<Seq<PhyEvent>>,
}

impl<L: UartLink> JtagUartPhy<L> {
    pub fn new(uart: L) -> (r: Self)
        ensures
            r.link() == uart,
            r.events() == Seq::<PhyEvent>::empty(),
    {
        JtagUartPhy { uart, log: Ghost(Seq::empty()) }
    }

    /// The serial link.
    pub closed spec fn link(&self) -> L {
        self.uart
    }
}

impl<L: UartLink> JtagPhy for JtagUartPhy<L> {
    closed spec fn events(&self) -> Seq<PhyEvent> {
        self.log@
    }

    fn sync(&mut self, tdi: bool, tms: bool) -> (r: bool) {
        self.uart.write(sync_byte(tdi, tms));
        let r = response_bit(self.uart.read());
        self.log = Ghost(self.log@.push(PhyEvent { drive: Drive::Cycle { tdi, tms }, tdo: r }));
        r
    }

    fn nosync(&mut self, tdi: bool, tms: bool, tck: bool) -> (r: bool) {
        self.uart.write(nosync_byte(tdi, tms, tck));
        let r = response_bit(self.uart.read());
        self.log = Ghost(self.log@.push(PhyEvent { drive: Drive::Clock { tdi, tms, tck }, tdo: r }));
        r
    }

    fn pause(&mut self, us: u32) {
        self.uart.delay_us(us);
        self.log = Ghost(self.log@.push(PhyEvent { drive: Drive::Pause { us }, tdo: false }));
    }
}

/// Virtual time, in microseconds, of a fresh trace.
pub const TRACE_START_US: u64 = 50_000;

/// One sampled instant of the JTAG lines.
#[derive(Copy, Clone, PartialEq, Eq, Structural)]
pub struct TraceRow {
    pub time_us: u64,
    pub clk: bool,
    pub tdo: bool,
    pub tms: bool,
    pub tdi: bool,
}

/// The three rows of one clock cycle that starts at time `t`: clock low,
/// high, low, one microsecond apart, TDO always low.
pub open spec fn cycle_rows(t: u64, tdi: bool, tms: bool) -> Seq<TraceRow> {
    seq![
        TraceRow { time_us: (t + 1) as u64, clk: false, tdo: false, tms, tdi },
        TraceRow { time_us: (t + 2) as u64, clk: true, tdo: false, tms, tdi },
        TraceRow { time_us: (t + 3) as u64, clk: false, tdo: false, tms, tdi },
    ]
}

/// A transport with no device behind it: it records three rows per cycle
/// on a virtual clock and always reads TDO low.
pub struct TracePhy {
    time_us: u64,
    rows: Vec<TraceRow>,
    driven: Ghost<Seq<Drive>>,
}

impl TracePhy {
    /// Every TDO value the trace transport has returned is low.
    pub proof fn lemma_reads_low(&self)
        ensures
            all_low(self.events()),
    {
    }

    pub fn new() -> (r: Self)
        ensures
            r.now() == TRACE_START_US,
            r.trace() == Seq::<TraceRow>::empty(),
            r.events() == Seq::<PhyEvent>::empty(),
    {
        let r = TracePhy { time_us: TRACE_START_US, rows: Vec::new(), driven: Ghost(Seq::empty()) };
        assert(r.events() =~= Seq::<PhyEvent>::empty());
        r
    }

    /// The virtual time of the last row, in microseconds.
    pub closed spec fn now(&self) -> u64 {
        self.time_us
    }

    /// The rows recorded so far.
    pub closed spec fn trace(&self) -> Seq<TraceRow> {
        self.rows@
    }

    /// The virtual time of the last row, in microseconds.
    pub fn time_us(&self) -> (r: u64)
        ensures
            r == self.now(),
    {
        self.time_us
    }

    /// The rows recorded so far.
    pub fn rows(&self) -> (r: &Vec<TraceRow>)
        ensures
            r@ == self.trace(),
    {
        &self.rows
    }

    /// Records one clock cycle and returns TDO, which is always low. The
    /// clock stops at the largest time it can hold.
    pub fn cycle(&mut self, tdi: bool, tms: bool) -> (r: bool)
        ensures
            !r,
            old(self).now() <= u64::MAX - 3 ==> final(self).now() == old(self).now() + 3
                && final(self).trace() == old(self).trace() + cycle_rows(old(self).now(), tdi, tms),
            final(self).now() >= old(self).now(),
            final(self).trace().len() == old(self).trace().len() + 3,
            final(self).events() == old(self).events(),
    {
        let ghost t = self.time_us;
        let ghost start = self.rows@;
        self.time_us = self.time_us.saturating_add(1);
        self.rows.push(TraceRow { time_us: self.time_us, clk: false, tdo: false, tms, tdi });
        self.time_us = self.time_us.saturating_add(1);
        self.rows.push(TraceRow { time_us: self.time_us, clk: true, tdo: false, tms, tdi });
        self.time_us = self.time_us.saturating_add(1);
        self.rows.push(TraceRow { time_us: self.time_us, clk: false, tdo: false, tms, tdi });
        assert(t <= u64::MAX - 3 ==> self.rows@ =~= start + cycle_rows(t, tdi, tms));
        false
    }

    /// Advances the virtual clock by `us` microseconds, stopping at the
    /// largest time it can hold.
    pub fn wait(&mut self, us: u32)
        ensures
            final(self).now() == (if old(self).now() + us <= u64::MAX {
                (old(self).now() + us) as u64
            } else {
                u64::MAX
            }),
            final(self).trace() == old(self).trace(),
            final(self).events() == old(self).events(),
    {
        self.time_us = self.time_us.saturating_add(us as u64);
    }
}

impl JtagPhy for TracePhy {
    /// What was driven, each call answered with TDO low.
    closed spec fn events(&self) -> Seq<PhyEvent> {
        self.driven@.map_values(|d: Drive| PhyEvent { drive: d, tdo: false })
    }

    fn sync(&mut self, tdi: bool, tms: bool) -> (r: bool)
        ensures
            !r,
    {
        let r = self.cycle(tdi, tms);
        self.driven = Ghost(self.driven@.push(Drive::Cycle { tdi, tms }));
        assert(self.events() =~= old(self).events().push(
            PhyEvent { drive: Drive::Cycle { tdi, tms }, tdo: r },
        ));
        r
    }

    fn nosync(&mut self, tdi: bool, tms: bool, tck: bool) -> (r: bool)
        ensures
            !r,
    {
        let r = self.cycle(tdi, tms);
        self.driven = Ghost(self.driven@.push(Drive::Clock { tdi, tms, tck }));
        assert(self.events() =~= old(self).events().push(
            PhyEvent { drive: Drive::Clock { tdi, tms, tck }, tdo: r },
        ));
        r
    }

    fn pause(&mut self, us: u32) {
        self.wait(us);
        self.driven = Ghost(self.driven@.push(Drive::Pause { us }));
        assert(self.events() =~= old(self).events().push(
            PhyEvent { drive: Drive::Pause { us }, tdo: false },
        ));
    }
}

/// Every TDO value the trace transport has returned is low.
pub open spec fn all_low(e: Seq<PhyEvent>) -> bool {
    forall|i: int| 0 <= i < e.len() ==> !(#[trigger] e[i]).tdo
}

} // verus!
