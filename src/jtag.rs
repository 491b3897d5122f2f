//! A bit-banged JTAG test-access-port engine.
//!
//! Callers queue transactions ("legs"), each a bit vector bound for the
//! instruction or the data register, and drive the TAP state machine one
//! clock transition at a time through a [`JtagPhy`]. Completed legs carry
//! the bits captured from the device and are read back from the done queue.
//! Both queues are first in, first out.

use vstd::prelude::*;

verus! {

/// The states of the JTAG TAP graph. `Pause` and `Exit2` are part of the
/// graph but never entered by the engine's own transitions.
pub enum JtagState {
    TestReset,
    RunIdle,
    Select,
    Capture,
    Shift,
    Exit1,
    Pause,
    Exit2,
    Update,
}

/// The register a leg targets.
#[derive(Copy, Clone, PartialEq, Eq, Structural)]
pub enum JtagChain {
    DR,
    IR,
}

/// The bit order used when converting between an integer and a leg's bits.
#[derive(Copy, Clone, PartialEq, Eq, Structural)]
pub enum JtagEndian {
    /// MSB-first shift-out
    Big,
    /// LSB-first shift-out
    Little,
}

/// The mathematical content of a leg.
pub struct LegView {
    pub chain: JtagChain,
    /// bits still to send; the last one goes out first
    pub outbound: Seq<bool>,
    /// bits captured so far; the last one was captured most recently
    pub inbound: Seq<bool>,
    pub tag: Seq<char>,
}

/// One queued transaction: a chain selector, the bits to shift out, the
/// bits shifted in, and a tag the caller uses to recognise it.
#[derive(Clone)]
pub struct JtagLeg {
    c: JtagChain,
    o: Vec<bool>,
    i: Vec<bool>,
    tag: String,
}

impl View for JtagLeg {
    type V = LegView;

    closed spec fn view(&self) -> LegView {
        LegView { chain: self.c, outbound: self.o@, inbound: self.i@, tag: self.tag@ }
    }
}

/// The bits that `push_u32` appends for `data`, `count` and `endian`:
/// bit `i` of `data` at position `i` for `Little`; bit `count - i` at
/// position `i` for `Big`.
pub open spec fn push_bits_u32(data: u32, count: nat, endian: JtagEndian) -> Seq<bool> {
    Seq::new(
        count,
        |i: int|
            match endian {
                JtagEndian::Little => data & (1u32 << (i as u32)) != 0,
                JtagEndian::Big => data & (1u32 << ((count - i) as u32)) != 0,
            },
    )
}

/// As [`push_bits_u32`], for a 128-bit integer.
pub open spec fn push_bits_u128(data: u128, count: nat, endian: JtagEndian) -> Seq<bool> {
    Seq::new(
        count,
        |i: int|
            match endian {
                JtagEndian::Little => data & (1u128 << (i as u128)) != 0,
                JtagEndian::Big => data & (1u128 << ((count - i) as u128)) != 0,
            },
    )
}

/// The integer assembled by popping every bit of `t`, last bit first: `Big`
/// shifts left and inserts at bit 0, so the first bit popped ends up most
/// significant; `Little` puts the `k`-th bit popped at bit `k`, so the first
/// bit popped is bit 0. Bits that fall outside 32 bits are dropped.
pub open spec fn assemble_u32(t: Seq<bool>, endian: JtagEndian) -> u32
    decreases t.len(),
{
    if t.len() == 0 {
        0
    } else {
        let rest = assemble_u32(t.subrange(1, t.len() as int), endian);
        match endian {
            JtagEndian::Big => (rest << 1u32) | (if t[0] { 1u32 } else { 0u32 }),
            JtagEndian::Little => rest | (if t[0] && t.len() <= 32 {
                1u32 << ((t.len() - 1) as u32)
            } else {
                0u32
            }),
        }
    }
}

/// As [`assemble_u32`], for a 128-bit integer.
pub open spec fn assemble_u128(t: Seq<bool>, endian: JtagEndian) -> u128
    decreases t.len(),
{
    if t.len() == 0 {
        0
    } else {
        let rest = assemble_u128(t.subrange(1, t.len() as int), endian);
        match endian {
            JtagEndian::Big => (rest << 1u128) | (if t[0] { 1u128 } else { 0u128 }),
            JtagEndian::Little => rest | (if t[0] && t.len() <= 128 {
                1u128 << ((t.len() - 1) as u128)
            } else {
                0u128
            }),
        }
    }
}

/// The last `count` bits of `s`.
pub open spec fn tail(s: Seq<bool>, count: nat) -> Seq<bool> {
    s.subrange(s.len() - count, s.len() as int)
}

/// The bits in reverse order: what a transport that answers each bit with
/// the bit it was sent captures while a leg's outbound bits are shifted out.
pub open spec fn reversed(s: Seq<bool>) -> Seq<bool> {
    Seq::new(s.len(), |i: int| s[s.len() - 1 - i])
}

/// A run of bits that are all low assembles to zero, in either order.
pub proof fn lemma_assemble_low(t: Seq<bool>, endian: JtagEndian)
    requires
        forall|i: int| 0 <= i < t.len() ==> !t[i],
    ensures
        assemble_u32(t, endian) == 0,
    decreases t.len(),
{
    if t.len() > 0 {
        lemma_assemble_low(t.subrange(1, t.len() as int), endian);
        assert((0u32 << 1u32) | 0u32 == 0 && 0u32 | 0u32 == 0) by (bit_vector);
    }
}

/// The low `n` bits of `v`.
pub open spec fn low_bits(v: u32, n: nat) -> u32 {
    v & !(0xFFFF_FFFFu32 << (n as u32))
}

/// Pushing `n < 32` bits of `v` Little-endian, shifting them through a
/// transport that echoes each bit, then popping `n` bits Little-endian,
/// gives back the low `n` bits of `v`.
pub proof fn lemma_little_echo_round_trip(v: u32, n: nat)
    requires
        n < 32,
    ensures
        assemble_u32(reversed(push_bits_u32(v, n, JtagEndian::Little)), JtagEndian::Little)
            == low_bits(v, n),
    decreases n,
{
    let t = reversed(push_bits_u32(v, n, JtagEndian::Little));
    if n == 0 {
        assert(v & !(0xFFFF_FFFFu32 << 0u32) == 0) by (bit_vector);
    } else {
        let m = (n - 1) as nat;
        lemma_little_echo_round_trip(v, m);
        assert(t.subrange(1, t.len() as int) =~= reversed(push_bits_u32(v, m, JtagEndian::Little)));
        let prev = low_bits(v, m);
        let k = m as u32;
        let b = t[0];
        assert(b == (v & (1u32 << k) != 0));
        assert(prev == v & !(0xFFFF_FFFFu32 << k));
        assert(b ==> prev | (1u32 << k) == v & !(0xFFFF_FFFFu32 << ((k + 1) as u32))) by (bit_vector)
            requires
                k < 31,
                b == (v & (1u32 << k) != 0),
                prev == v & !(0xFFFF_FFFFu32 << k),
        ;
        assert(!b ==> prev | 0u32 == v & !(0xFFFF_FFFFu32 << ((k + 1) as u32))) by (bit_vector)
            requires
                k < 31,
                b == (v & (1u32 << k) != 0),
                prev == v & !(0xFFFF_FFFFu32 << k),
        ;
    }
}

impl JtagLeg {
    pub fn new(chain_type: JtagChain, mytag: &str) -> (r: Self)
        ensures
            r@.chain == chain_type,
            r@.outbound == Seq::<bool>::empty(),
            r@.inbound == Seq::<bool>::empty(),
            r@.tag == mytag@,
    {
        JtagLeg { c: chain_type, o: Vec::new(), i: Vec::new(), tag: mytag.to_string() }
    }

    /// Appends `count` bits of `data` to the bits to send. With `Big`, the
    /// bits read are `count` down to 1.
    pub fn push_u32(&mut self, data: u32, count: usize, endian: JtagEndian)
        requires
            count < 32,
        ensures
            final(self)@.outbound == old(self)@.outbound + push_bits_u32(data, count as nat, endian),
            final(self)@.inbound == old(self)@.inbound,
            final(self)@.chain == old(self)@.chain,
            final(self)@.tag == old(self)@.tag,
    {
        let ghost start = self.o@;
        let mut i: usize = 0;
        while i < count
            invariant
                i <= count,
                count < 32,
                self.o@ == start + push_bits_u32(data, count as nat, endian).subrange(0, i as int),
                self.i@ == old(self).i@,
                self.c == old(self).c,
                self.tag@ == old(self).tag@,
            decreases count - i,
        {
            let bit: bool = match endian {
                JtagEndian::Little => (data & (1u32 << (i as u32))) != 0,
                JtagEndian::Big => (data & (1u32 << ((count - i) as u32))) != 0,
            };
            self.o.push(bit);
            proof {
                assert(push_bits_u32(data, count as nat, endian).subrange(0, i + 1) =~= push_bits_u32(
                    data,
                    count as nat,
                    endian,
                ).subrange(0, i as int).push(bit));
            }
            i = i + 1;
        }
        assert(push_bits_u32(data, count as nat, endian).subrange(0, count as int) =~= push_bits_u32(
            data,
            count as nat,
            endian,
        ));
    }

    /// As [`JtagLeg::push_u32`], for up to 127 bits of a 128-bit integer.
    pub fn push_u128(&mut self, data: u128, count: usize, endian: JtagEndian)
        requires
            count < 128,
        ensures
            final(self)@.outbound == old(self)@.outbound + push_bits_u128(data, count as nat, endian),
            final(self)@.inbound == old(self)@.inbound,
            final(self)@.chain == old(self)@.chain,
            final(self)@.tag == old(self)@.tag,
    {
        let ghost start = self.o@;
        let mut i: usize = 0;
        while i < count
            invariant
                i <= count,
                count < 128,
                self.o@ == start + push_bits_u128(data, count as nat, endian).subrange(0, i as int),
                self.i@ == old(self).i@,
                self.c == old(self).c,
                self.tag@ == old(self).tag@,
            decreases count - i,
        {
            let bit: bool = match endian {
                JtagEndian::Little => (data & (1u128 << (i as u128))) != 0,
                JtagEndian::Big => (data & (1u128 << ((count - i) as u128))) != 0,
            };
            self.o.push(bit);
            proof {
                assert(push_bits_u128(data, count as nat, endian).subrange(0, i + 1)
                    =~= push_bits_u128(data, count as nat, endian).subrange(0, i as int).push(bit));
            }
            i = i + 1;
        }
        assert(push_bits_u128(data, count as nat, endian).subrange(0, count as int)
            =~= push_bits_u128(data, count as nat, endian));
    }

    /// Removes the last `count` captured bits and assembles them into an
    /// integer. Returns `None`, leaving the leg unchanged, when fewer than
    /// `count` bits have been captured.
    pub fn pop_u32(&mut self, count: usize, endian: JtagEndian) -> (r: Option<u32>)
        ensures
            old(self)@.inbound.len() < count ==> r is None && *final(self) == *old(self),
            old(self)@.inbound.len() >= count ==> {
                &&& r == Some(assemble_u32(tail(old(self)@.inbound, count as nat), endian))
                &&& final(self)@.inbound == old(self)@.inbound.subrange(
                    0,
                    old(self)@.inbound.len() - count,
                )
                &&& final(self)@.outbound == old(self)@.outbound
                &&& final(self)@.chain == old(self)@.chain
                &&& final(self)@.tag == old(self)@.tag
            },
    {
        if self.i.len() < count {
            return None;
        }
        let ghost full = self.i@;
        let ghost n = full.len();
        let mut data: u32 = 0;
        let mut k: usize = 0;
        while k < count
            invariant
                k <= count,
                count <= n,
                n == full.len(),
                self.i@ == full.subrange(0, n - k),
                data == assemble_u32(full.subrange(n - k, n as int), endian),
                self.o@ == old(self).o@,
                self.c == old(self).c,
                self.tag@ == old(self).tag@,
            decreases count - k,
        {
            let ghost prev = data;
            let b: bool = self.i.pop().unwrap();
            match endian {
                JtagEndian::Big => {
                    data = data << 1u32;
                    if b {
                        data = data | 0x1;
                    }
                },
                JtagEndian::Little => {
                    if b && k < 32 {
                        data = data | (1u32 << (k as u32));
                    }
                },
            }
            proof {
                let s = full.subrange(n - k - 1, n as int);
                assert(s.subrange(1, s.len() as int) =~= full.subrange(n - k, n as int));
                assert(s[0] == b);
                let rest = assemble_u32(full.subrange(n - k, n as int), endian);
                assert(rest == prev);
                assert((prev << 1u32) | 0u32 == prev << 1u32) by (bit_vector);
                assert(prev | 0u32 == prev) by (bit_vector);
                assert(data == assemble_u32(s, endian));
                assert(self.i@ =~= full.subrange(0, n - (k + 1)));
            }
            k = k + 1;
        }
        Some(data)
    }

    /// As [`JtagLeg::pop_u32`], into a 128-bit integer.
    pub fn pop_u128(&mut self, count: usize, endian: JtagEndian) -> (r: Option<u128>)
        ensures
            old(self)@.inbound.len() < count ==> r is None && *final(self) == *old(self),
            old(self)@.inbound.len() >= count ==> {
                &&& r == Some(assemble_u128(tail(old(self)@.inbound, count as nat), endian))
                &&& final(self)@.inbound == old(self)@.inbound.subrange(
                    0,
                    old(self)@.inbound.len() - count,
                )
                &&& final(self)@.outbound == old(self)@.outbound
                &&& final(self)@.chain == old(self)@.chain
                &&& final(self)@.tag == old(self)@.tag
            },
    {
        if self.i.len() < count {
            return None;
        }
        let ghost full = self.i@;
        let ghost n = full.len();
        let mut data: u128 = 0;
        let mut k: usize = 0;
        while k < count
            invariant
                k <= count,
                count <= n,
                n == full.len(),
                self.i@ == full.subrange(0, n - k),
                data == assemble_u128(full.subrange(n - k, n as int), endian),
                self.o@ == old(self).o@,
                self.c == old(self).c,
                self.tag@ == old(self).tag@,
            decreases count - k,
        {
            let ghost prev = data;
            let b: bool = self.i.pop().unwrap();
            match endian {
                JtagEndian::Big => {
                    data = data << 1u128;
                    if b {
                        data = data | 0x1;
                    }
                },
                JtagEndian::Little => {
                    if b && k < 128 {
                        data = data | (1u128 << (k as u128));
                    }
                },
            }
            proof {
                let s = full.subrange(n - k - 1, n as int);
                assert(s.subrange(1, s.len() as int) =~= full.subrange(n - k, n as int));
                assert(s[0] == b);
                let rest = assemble_u128(full.subrange(n - k, n as int), endian);
                assert(rest == prev);
                assert((prev << 1u128) | 0u128 == prev << 1u128) by (bit_vector);
                assert(prev | 0u128 == prev) by (bit_vector);
                assert(data == assemble_u128(s, endian));
                assert(self.i@ =~= full.subrange(0, n - (k + 1)));
            }
            k = k + 1;
        }
        Some(data)
    }

    /// A copy of the leg's tag.
    pub fn tag(&self) -> (r: String)
        ensures
            r@ == self@.tag,
    {
        self.tag.clone()
    }
}


/// What a transport was asked to do in one call.
pub enum Drive {
    /// present TDI and TMS and pulse the clock
    Cycle { tdi: bool, tms: bool },
    /// present TDI and TMS and set the clock line to TCK
    Clock { tdi: bool, tms: bool, tck: bool },
    /// wait without touching the clock
    Pause { us: u32 },
}

/// One call made on a transport and the TDO it returned (low for a pause).
pub struct PhyEvent {
    pub drive: Drive,
    pub tdo: bool,
}

/// The transport that carries TAP clock cycles to the device.
pub trait JtagPhy {
    /// Every call made on the transport so far, oldest first. Each
    /// implementation defines it; the default stands for one that records
    /// nothing.
    open spec fn events(&self) -> Seq<PhyEvent> {
        Seq::empty()
    }

    /// Presents `tdi` and `tms`, pulses the clock once, and returns the TDO
    /// that was sampled.
    fn sync(&mut self, tdi: bool, tms: bool) -> (r: bool)
        ensures
            final(self).events() == old(self).events().push(
                (PhyEvent { drive: Drive::Cycle { tdi, tms }, tdo: r }),
            ),
    ;

    /// As `sync`, but sets the clock line to `tck` instead of pulsing it.
    fn nosync(&mut self, tdi: bool, tms: bool, tck: bool) -> (r: bool)
        ensures
            final(self).events() == old(self).events().push(
                (PhyEvent { drive: Drive::Clock { tdi, tms, tck }, tdo: r }),
            ),
    ;

    /// Waits `us` microseconds without touching the clock.
    fn pause(&mut self, us: u32)
        ensures
            final(self).events() == old(self).events().push(
                (PhyEvent { drive: Drive::Pause { us }, tdo: false }),
            ),
    ;
}

/// A clock cycle with `tdi` and `tms`.
pub open spec fn cyc(tdi: bool, tms: bool) -> Drive {
    Drive::Cycle { tdi, tms }
}

/// What was asked of the transport in `e`.
pub open spec fn drives(e: Seq<PhyEvent>) -> Seq<Drive> {
    e.map_values(|ev: PhyEvent| ev.drive)
}

/// The TDO values returned in `e`.
pub open spec fn tdos(e: Seq<PhyEvent>) -> Seq<bool> {
    e.map_values(|ev: PhyEvent| ev.tdo)
}

/// `after` is `before` with more events appended.
pub open spec fn extends(before: Seq<PhyEvent>, after: Seq<PhyEvent>) -> bool {
    before.len() <= after.len() && after.subrange(0, before.len() as int) == before
}

/// The events of `after` that follow `before`.
pub open spec fn since(before: Seq<PhyEvent>, after: Seq<PhyEvent>) -> Seq<PhyEvent> {
    after.subrange(before.len() as int, after.len() as int)
}

/// The TDO values of the `k` shift cycles that precede the three exit
/// cycles ending `e`.
pub open spec fn shifted_in(e: Seq<PhyEvent>, k: nat) -> Seq<bool> {
    tdos(e).subrange(e.len() - 3 - k, e.len() - 3)
}

/// The TMS-high pulses that lead from `RunIdle` to the select state of `chain`.
pub open spec fn select_pulses(chain: JtagChain) -> Seq<Drive> {
    match chain {
        JtagChain::DR => seq![cyc(false, true)],
        JtagChain::IR => seq![cyc(false, true), cyc(false, true)],
    }
}

/// The shift cycles that send `out`, last bit first.
pub open spec fn shift_drives(out: Seq<bool>) -> Seq<Drive> {
    Seq::new(out.len(), |i: int| cyc(out[out.len() - 1 - i], false))
}

/// The cycles from `Shift` with nothing left to send back to `RunIdle`.
pub open spec fn exit_drives() -> Seq<Drive> {
    seq![cyc(false, true), cyc(false, true), cyc(false, true)]
}

/// The cycles that finish a traversal from `state` with leg `c` in flight.
pub open spec fn finish_drives(state: JtagState, c: LegView) -> Seq<Drive> {
    match state {
        JtagState::Select => seq![cyc(false, false), cyc(false, false)] + shift_drives(c.outbound)
            + exit_drives(),
        JtagState::Capture => seq![cyc(false, false)] + shift_drives(c.outbound) + exit_drives(),
        JtagState::Shift => shift_drives(c.outbound) + exit_drives(),
        JtagState::Exit1 => seq![cyc(false, true), cyc(false, true)],
        JtagState::Pause => exit_drives(),
        JtagState::Exit2 => seq![cyc(false, true), cyc(false, true)],
        JtagState::Update => seq![cyc(false, true)],
        _ => Seq::empty(),
    }
}

/// The cycles of a full traversal from `RunIdle` of a leg on `chain` that
/// sends `out`.
pub open spec fn leg_drives(chain: JtagChain, out: Seq<bool>) -> Seq<Drive> {
    select_pulses(chain) + seq![cyc(false, false), cyc(false, false)] + shift_drives(out)
        + exit_drives()
}

/// The cycles one call of [`JtagMach::step`] issues from `a`.
pub open spec fn step_drives(a: MachView) -> Seq<Drive> {
    match a.state {
        JtagState::TestReset => seq![cyc(false, false)],
        JtagState::RunIdle => {
            if a.current is Some {
                select_pulses(a.current.unwrap().chain)
            } else if a.pending.len() == 0 {
                seq![cyc(false, false)]
            } else {
                Seq::empty()
            }
        },
        JtagState::Select => seq![cyc(false, false)],
        JtagState::Capture => seq![cyc(false, false)],
        JtagState::Shift => {
            let out = a.current.unwrap().outbound;
            if out.len() > 0 {
                seq![cyc(out.last(), false)]
            } else {
                seq![cyc(false, true)]
            }
        },
        _ => seq![cyc(false, true)],
    }
}

/// The cycle that takes the TAP out of `TestReset` before a leg starts.
pub open spec fn wake_drives(a: MachView) -> Seq<Drive> {
    if a.state is TestReset {
        seq![cyc(false, false)]
    } else {
        Seq::empty()
    }
}

/// The cycles still due at rest before a leg on `chain` reaches `Select`.
pub open spec fn start_left(m: MachView, chain: JtagChain) -> Seq<Drive> {
    match m.state {
        JtagState::TestReset => seq![cyc(false, false)] + select_pulses(chain),
        JtagState::RunIdle => select_pulses(chain),
        _ => Seq::empty(),
    }
}

/// The states from which a traversal still has its shift cycles ahead or
/// under way.
pub open spec fn in_shift_phase(s: JtagState) -> bool {
    s is Select || s is Capture || s is Shift
}

/// The number of cycles a traversal from `s` issues before its first shift.
pub open spec fn shift_offset(s: JtagState) -> int {
    match s {
        JtagState::Select => 2,
        JtagState::Capture => 1,
        _ => 0,
    }
}

proof fn lemma_finish_step(b: MachView, b2: MachView)
    requires
        b.wf(),
        !parked(b.state),
        step_relation(b, b2),
    ensures
        parked(b2.state) ==> finish_drives(b.state, b.current.unwrap()) == step_drives(b),
        !parked(b2.state) ==> finish_drives(b.state, b.current.unwrap()) == step_drives(b)
            + finish_drives(b2.state, b2.current.unwrap()),
{
    let c = b.current.unwrap();
    let x = exit_drives();
    match b.state {
        JtagState::Select => {
            assert(finish_drives(b.state, c) =~= seq![cyc(false, false)] + finish_drives(
                JtagState::Capture,
                c,
            ));
        },
        JtagState::Capture => {
            assert(finish_drives(b.state, c) =~= seq![cyc(false, false)] + finish_drives(
                JtagState::Shift,
                c,
            ));
        },
        JtagState::Shift => {
            if c.outbound.len() > 0 {
                let c2 = b2.current.unwrap();
                assert(shift_drives(c.outbound) =~= seq![cyc(c.outbound.last(), false)]
                    + shift_drives(c2.outbound));
                assert(finish_drives(b.state, c) =~= step_drives(b) + finish_drives(b2.state, c2));
            } else {
                assert(shift_drives(c.outbound) =~= Seq::<Drive>::empty());
                assert(finish_drives(b.state, c) =~= step_drives(b) + finish_drives(b2.state, c));
            }
        },
        JtagState::Exit1 => {
            assert(finish_drives(b.state, c) =~= step_drives(b) + finish_drives(b2.state, c));
        },
        JtagState::Pause => {
            assert(finish_drives(b.state, c) =~= step_drives(b) + finish_drives(b2.state, c));
        },
        JtagState::Exit2 => {
            assert(finish_drives(b.state, c) =~= step_drives(b) + finish_drives(b2.state, c));
        },
        _ => {},
    }
}

pub proof fn lemma_since_concat(e0: Seq<PhyEvent>, e1: Seq<PhyEvent>, e2: Seq<PhyEvent>)
    requires
        extends(e0, e1),
        extends(e1, e2),
    ensures
        extends(e0, e2),
        since(e0, e2) == since(e0, e1) + since(e1, e2),
        drives(since(e0, e2)) == drives(since(e0, e1)) + drives(since(e1, e2)),
        tdos(since(e0, e2)) == tdos(since(e0, e1)) + tdos(since(e1, e2)),
{
    assert(e2.subrange(0, e0.len() as int) =~= e1.subrange(0, e0.len() as int));
    assert(since(e0, e2) =~= since(e0, e1) + since(e1, e2));
    assert(drives(since(e0, e2)) =~= drives(since(e0, e1)) + drives(since(e1, e2)));
    assert(tdos(since(e0, e2)) =~= tdos(since(e0, e1)) + tdos(since(e1, e2)));
}

/// The mathematical content of a [`JtagMach`].
pub struct MachView {
    pub state: JtagState,
    pub pending: Seq<LegView>,
    pub current: Option<LegView>,
    pub done: Seq<LegView>,
}

/// The engine rests in `RunIdle` or `TestReset` between legs.
pub open spec fn parked(s: JtagState) -> bool {
    s is RunIdle || s is TestReset
}

/// `c2` is `c1` after one bit was shifted out and one captured.
pub open spec fn shift_one(c1: LegView, c2: LegView) -> bool {
    &&& c2.chain == c1.chain
    &&& c2.tag == c1.tag
    &&& c1.outbound.len() > 0
    &&& c2.outbound == c1.outbound.drop_last()
    &&& c2.inbound.len() == c1.inbound.len() + 1
    &&& c2.inbound.drop_last() == c1.inbound
}

/// `c` is `l` after some of its outbound bits were shifted out, each one
/// answered by one captured bit.
pub open spec fn shifted_from(c: LegView, l: LegView) -> bool {
    &&& c.chain == l.chain
    &&& c.tag == l.tag
    &&& c.outbound.len() <= l.outbound.len()
    &&& c.outbound == l.outbound.subrange(0, c.outbound.len() as int)
    &&& c.inbound.len() + c.outbound.len() == l.inbound.len() + l.outbound.len()
    &&& c.inbound.subrange(0, l.inbound.len() as int) == l.inbound
}

/// `c` is `l` with every outbound bit shifted out.
pub open spec fn completed_from(c: LegView, l: LegView) -> bool {
    shifted_from(c, l) && c.outbound.len() == 0
}

impl MachView {
    /// Every leg the engine holds, in the order it handles them: completed,
    /// in flight, waiting.
    pub open spec fn legs(self) -> Seq<LegView> {
        self.done + (match self.current {
            Some(c) => seq![c],
            None => Seq::empty(),
        }) + self.pending
    }

    /// The tags of [`MachView::legs`].
    pub open spec fn tags(self) -> Seq<Seq<char>> {
        self.legs().map_values(|l: LegView| l.tag)
    }

    /// A leg is in flight whenever the engine is away from its resting
    /// states, and all its bits are out once it has left `Shift`.
    pub open spec fn wf(self) -> bool {
        &&& !parked(self.state) ==> self.current is Some
        &&& (self.state is Exit1 || self.state is Update || self.state is Pause
            || self.state is Exit2) ==> self.current.unwrap().outbound.len() == 0
    }

    /// The leg that the next traversal from a resting state carries.
    pub open spec fn next_leg(self) -> LegView {
        match self.current {
            Some(c) => c,
            None => self.pending[0],
        }
    }

    /// The waiting legs once [`MachView::next_leg`] is in flight.
    pub open spec fn pending_after_start(self) -> Seq<LegView> {
        match self.current {
            Some(_) => self.pending,
            None => self.pending.drop_first(),
        }
    }

    /// Steps left before the engine is back at rest.
    pub open spec fn steps_to_park(self) -> nat {
        let k = match self.current {
            Some(c) => c.outbound.len(),
            None => 0,
        };
        match self.state {
            JtagState::TestReset => 0,
            JtagState::RunIdle => 0,
            JtagState::Select => k + 5,
            JtagState::Capture => k + 4,
            JtagState::Shift => k + 3,
            JtagState::Exit1 => 2,
            JtagState::Pause => 3,
            JtagState::Exit2 => 2,
            JtagState::Update => 1,
        }
    }

    /// Steps left at rest before a traversal begins.
    pub open spec fn steps_to_start(self) -> nat {
        match self.state {
            JtagState::TestReset => 3,
            JtagState::RunIdle => if self.current is Some {
                1
            } else {
                2
            },
            _ => 0,
        }
    }
}

/// The completed legs come first among the legs the engine holds, so when
/// the tags held are distinct (as they are when the tags added were, since
/// `add`, `step` and `next` keep the tag sequence), no tag appears in the
/// done queue more than once.
pub proof fn lemma_done_tags_distinct(m: MachView)
    requires
        m.tags().no_duplicates(),
    ensures
        m.done.map_values(|l: LegView| l.tag) == m.tags().subrange(0, m.done.len() as int),
        m.done.map_values(|l: LegView| l.tag).no_duplicates(),
{
    let d = m.done.map_values(|l: LegView| l.tag);
    assert(d =~= m.tags().subrange(0, m.done.len() as int));
    assert forall|i: int, j: int| 0 <= i < d.len() && 0 <= j < d.len() && i != j implies d[i]
        != d[j] by {
        assert(d[i] == m.tags()[i] && d[j] == m.tags()[j]);
    }
}

/// What one call of [`JtagMach::step`] does, from `a` to `b`.
pub open spec fn step_relation(a: MachView, b: MachView) -> bool {
    match a.state {
        JtagState::TestReset => b == MachView { state: JtagState::RunIdle, ..a },
        JtagState::RunIdle => {
            if a.current is Some {
                b == MachView { state: JtagState::Select, ..a }
            } else if a.pending.len() == 0 {
                b == a
            } else {
                b == MachView {
                    current: Some(a.pending[0]),
                    pending: a.pending.drop_first(),
                    ..a
                }
            }
        },
        JtagState::Select => b == MachView { state: JtagState::Capture, ..a },
        JtagState::Capture => b == MachView { state: JtagState::Shift, ..a },
        JtagState::Shift => {
            if a.current.unwrap().outbound.len() > 0 {
                &&& b.state is Shift
                &&& b.pending == a.pending
                &&& b.done == a.done
                &&& b.current is Some
                &&& shift_one(a.current.unwrap(), b.current.unwrap())
            } else {
                b == MachView { state: JtagState::Exit1, ..a }
            }
        },
        JtagState::Exit1 => b == MachView { state: JtagState::Update, ..a },
        JtagState::Pause => b == MachView { state: JtagState::Exit2, ..a },
        JtagState::Exit2 => b == MachView { state: JtagState::Update, ..a },
        JtagState::Update => b == MachView {
            state: JtagState::RunIdle,
            done: a.done.push(a.current.unwrap()),
            current: None,
            ..a
        },
    }
}

/// The TAP engine: its state, the legs waiting, the leg in flight, and the
/// legs completed.
pub struct JtagMach {
    s: JtagState,
    pending: Vec<JtagLeg>,
    done: Vec<JtagLeg>,
    current: Option<JtagLeg>,
}

impl View for JtagMach {
    type V = MachView;

    closed spec fn view(&self) -> MachView {
        MachView {
            state: self.s,
            pending: self.pending@.map_values(|l: JtagLeg| l@),
            current: match self.current {
                Some(c) => Some(c@),
                None => None,
            },
            done: self.done@.map_values(|l: JtagLeg| l@),
        }
    }
}

impl JtagMach {
    pub fn new() -> (r: Self)
        ensures
            r@.state is TestReset,
            r@.pending == Seq::<LegView>::empty(),
            r@.current is None,
            r@.done == Seq::<LegView>::empty(),
            r@.wf(),
    {
        let r = JtagMach { s: JtagState::TestReset, pending: Vec::new(), done: Vec::new(), current: None };
        assert(r@.pending =~= Seq::<LegView>::empty());
        assert(r@.done =~= Seq::<LegView>::empty());
        r
    }

    /// Appends a leg to the pending queue.
    pub fn add(&mut self, leg: JtagLeg)
        ensures
            final(self)@ == (MachView { pending: old(self)@.pending.push(leg@), ..old(self)@ }),
            final(self)@.tags() == old(self)@.tags().push(leg@.tag),
            final(self)@.tags().to_multiset() == old(self)@.tags().to_multiset().insert(leg@.tag),
    {
        let ghost a = self@;
        self.pending.push(leg);
        assert(self@.pending =~= a.pending.push(leg@));
        assert(self@.legs() =~= a.legs().push(leg@));
        assert(self@.tags() =~= a.tags().push(leg@.tag));
        proof {
            a.tags().to_multiset_ensures();
        }
    }

    /// Removes and returns the oldest completed leg, if any.
    pub fn get(&mut self) -> (r: Option<JtagLeg>)
        ensures
            old(self)@.done.len() == 0 ==> r is None && final(self)@ == old(self)@,
            old(self)@.done.len() > 0 ==> {
                &&& r is Some
                &&& r.unwrap()@ == old(self)@.done[0]
                &&& final(self)@ == (MachView { done: old(self)@.done.drop_first(), ..old(self)@ })
            },
    {
        if self.done.len() == 0 {
            return None;
        }
        let ghost a = self@;
        let leg = self.done.remove(0);
        assert(self@.done =~= a.done.drop_first());
        Some(leg)
    }

    /// Whether any leg waits in the pending queue.
    pub fn has_pending(&self) -> (r: bool)
        ensures
            r == (self@.pending.len() > 0),
    {
        self.pending.len() > 0
    }

    /// Whether the engine rests in `RunIdle` or `TestReset`.
    pub fn is_parked(&self) -> (r: bool)
        ensures
            r == parked(self@.state),
    {
        match self.s {
            JtagState::RunIdle | JtagState::TestReset => true,
            _ => false,
        }
    }

    /// Whether a leg has been taken up and not yet completed.
    pub fn has_in_flight(&self) -> (r: bool)
        ensures
            r == (self@.current is Some),
    {
        self.current.is_some()
    }

    /// Whether any completed leg waits to be read out.
    pub fn has_done(&self) -> (r: bool)
        ensures
            r == (self@.done.len() > 0),
    {
        self.done.len() > 0
    }
    /// Advances the TAP state machine by one transition, issuing one or two
    /// clock cycles (none when a waiting leg is only taken up).
    pub fn step<P: JtagPhy>(&mut self, phy: &mut P)
        requires
            old(self)@.wf(),
        ensures
            final(self)@.wf(),
            step_relation(old(self)@, final(self)@),
            final(self)@.tags() == old(self)@.tags(),
            final(self)@.tags().to_multiset() == old(self)@.tags().to_multiset(),
            extends(old(phy).events(), final(phy).events()),
            drives(since(old(phy).events(), final(phy).events())) == step_drives(old(self)@),
            old(self)@.state is Shift && old(self)@.current.unwrap().outbound.len() > 0
                ==> final(self)@.current.unwrap().inbound.last() == final(phy).events().last().tdo,
    {
        let ghost a = self@;
        let ghost e0 = phy.events();
        match self.s {
            JtagState::TestReset => {
                phy.sync(false, false);
                self.s = JtagState::RunIdle;
            },
            JtagState::RunIdle => {
                if self.current.is_none() {
                    if self.pending.len() == 0 {
                        phy.sync(false, false);
                        self.s = JtagState::RunIdle;
                    } else {
                        let leg = self.pending.remove(0);
                        self.current = Some(leg);
                        assert(self@.pending =~= a.pending.drop_first());
                        assert(self@.legs() =~= a.legs());
                    }
                } else {
                    let is_dr = match &self.current {
                        Some(c) => c.c == JtagChain::DR,
                        None => true,
                    };
                    if is_dr {
                        phy.sync(false, true);
                    } else {
                        phy.sync(false, true);
                        phy.sync(false, true);
                    }
                    self.s = JtagState::Select;
                }
            },
            JtagState::Select => {
                phy.sync(false, false);
                self.s = JtagState::Capture;
            },
            JtagState::Capture => {
                phy.sync(false, false);
                self.s = JtagState::Shift;
            },
            JtagState::Shift => {
                let mut cur = self.current.take().unwrap();
                if cur.o.len() > 0 {
                    let tdi: bool = cur.o.pop().unwrap();
                    let tdo: bool = phy.sync(tdi, false);
                    cur.i.push(tdo);
                    assert(cur@.inbound.drop_last() =~= a.current.unwrap().inbound);
                } else {
                    phy.sync(false, true);
                    self.s = JtagState::Exit1;
                }
                self.current = Some(cur);
                assert(self@.legs().map_values(|l: LegView| l.tag) =~= a.legs().map_values(
                    |l: LegView| l.tag,
                ));
            },
            JtagState::Exit1 => {
                phy.sync(false, true);
                self.s = JtagState::Update;
            },
            JtagState::Pause => {
                phy.sync(false, true);
                self.s = JtagState::Exit2;
            },
            JtagState::Exit2 => {
                phy.sync(false, true);
                self.s = JtagState::Update;
            },
            JtagState::Update => {
                phy.sync(false, true);
                self.s = JtagState::RunIdle;
                let cur = self.current.take().unwrap();
                self.done.push(cur);
                assert(self@.done =~= a.done.push(a.current.unwrap()));
                assert(self@.legs() =~= a.legs());
            },
        }
        assert(phy.events().subrange(0, e0.len() as int) =~= e0);
        assert(drives(since(e0, phy.events())) =~= step_drives(a));
    }

    /// Returns the TAP to `TestReset` from any state with five TMS-high
    /// cycles. A leg in flight is abandoned; the queues are kept.
    pub fn reset<P: JtagPhy>(&mut self, phy: &mut P)
        ensures
            final(self)@.state is TestReset,
            final(self)@.current is None,
            final(self)@.pending == old(self)@.pending,
            final(self)@.done == old(self)@.done,
            final(self)@.wf(),
            extends(old(phy).events(), final(phy).events()),
            drives(since(old(phy).events(), final(phy).events())) == Seq::new(
                5,
                |i: int| cyc(false, true),
            ),
    {
        let ghost e0 = phy.events();
        let mut n: u32 = 0;
        assert(e0.subrange(0, e0.len() as int) =~= e0);
        assert(drives(since(e0, phy.events())) =~= Seq::new(0, |i: int| cyc(false, true)));
        while n < 5
            invariant
                n <= 5,
                extends(e0, phy.events()),
                drives(since(e0, phy.events())) == Seq::new(n as nat, |i: int| cyc(false, true)),
            decreases 5 - n,
        {
            let ghost e1 = phy.events();
            phy.sync(false, true);
            proof {
                assert(phy.events().subrange(0, e1.len() as int) =~= e1);
                lemma_since_concat(e0, e1, phy.events());
                assert(drives(since(e1, phy.events())) =~= seq![cyc(false, true)]);
            }
            assert(drives(since(e0, phy.events())) =~= Seq::new(
                (n + 1) as nat,
                |i: int| cyc(false, true),
            ));
            n = n + 1;
        }
        self.s = JtagState::TestReset;
        self.current = None;
    }
    /// Runs the engine until it rests again. At rest with work to do it
    /// carries exactly one leg through a full traversal; at rest with
    /// nothing to do it takes one idle step; mid-traversal it finishes the
    /// leg in flight without starting another. The captured bits of the
    /// completed leg are the TDO values of its shift cycles.
    #[verifier::rlimit(80)]
    pub fn next<P: JtagPhy>(&mut self, phy: &mut P)
        requires
            old(self)@.wf(),
        ensures
            final(self)@.wf(),
            final(self)@.tags() == old(self)@.tags(),
            final(self)@.tags().to_multiset() == old(self)@.tags().to_multiset(),
            extends(old(phy).events(), final(phy).events()),
            parked(old(self)@.state) && old(self)@.current is None && old(self)@.pending.len() == 0
                ==> {
                &&& final(self)@ == (MachView { state: JtagState::RunIdle, ..old(self)@ })
                &&& drives(since(old(phy).events(), final(phy).events())) == seq![cyc(false, false)]
            },
            parked(old(self)@.state) && (old(self)@.current is Some || old(self)@.pending.len() > 0)
                ==> {
                &&& final(self)@.state is RunIdle
                &&& final(self)@.current is None
                &&& final(self)@.pending == old(self)@.pending_after_start()
                &&& final(self)@.done.len() == old(self)@.done.len() + 1
                &&& final(self)@.done.drop_last() == old(self)@.done
                &&& completed_from(final(self)@.done.last(), old(self)@.next_leg())
                &&& drives(since(old(phy).events(), final(phy).events())) == wake_drives(old(self)@)
                    + leg_drives(old(self)@.next_leg().chain, old(self)@.next_leg().outbound)
                &&& final(self)@.done.last().inbound == old(self)@.next_leg().inbound + shifted_in(
                    since(old(phy).events(), final(phy).events()),
                    old(self)@.next_leg().outbound.len(),
                )
            },
            !parked(old(self)@.state) ==> {
                &&& final(self)@.state is RunIdle
                &&& final(self)@.current is None
                &&& final(self)@.pending == old(self)@.pending
                &&& final(self)@.done.len() == old(self)@.done.len() + 1
                &&& final(self)@.done.drop_last() == old(self)@.done
                &&& completed_from(final(self)@.done.last(), old(self)@.current.unwrap())
                &&& drives(since(old(phy).events(), final(phy).events())) == finish_drives(
                    old(self)@.state,
                    old(self)@.current.unwrap(),
                )
                &&& in_shift_phase(old(self)@.state) ==> final(self)@.done.last().inbound == old(
                    self,
                )@.current.unwrap().inbound + shifted_in(
                    since(old(phy).events(), final(phy).events()),
                    old(self)@.current.unwrap().outbound.len(),
                )
            },
    {
        let ghost a = self@;
        let ghost e0 = phy.events();
        assert(e0.subrange(0, e0.len() as int) =~= e0);
        let at_rest = match self.s {
            JtagState::RunIdle | JtagState::TestReset => true,
            _ => false,
        };
        if at_rest && self.current.is_none() && self.pending.len() == 0 {
            self.step(phy);
            return;
        }
        if at_rest {
            let ghost leg = a.next_leg();
            let ghost rest = a.pending_after_start();
            assert(drives(since(e0, phy.events())) =~= Seq::<Drive>::empty());
            assert(wake_drives(a) + select_pulses(leg.chain) =~= Seq::<Drive>::empty() + start_left(
                a,
                leg.chain,
            ));
            loop
                invariant
                    self@.wf(),
                    self@.tags() == a.tags(),
                    self@.done == a.done,
                    parked(self@.state) || self@.state is Select,
                    leg == a.next_leg(),
                    rest == a.pending_after_start(),
                    self@.current is Some ==> self@.current.unwrap() == leg && self@.pending == rest,
                    self@.current is None ==> self@.pending == a.pending && a.current is None
                        && a.pending.len() > 0,
                    extends(e0, phy.events()),
                    drives(since(e0, phy.events())) + start_left(self@, leg.chain) == wake_drives(a)
                        + select_pulses(leg.chain),
                ensures
                    self@.state is Select,
                    self@.current is Some,
                    self@.current.unwrap() == leg,
                    self@.pending == rest,
                    self@.done == a.done,
                    self@.tags() == a.tags(),
                    self@.wf(),
                    extends(e0, phy.events()),
                    drives(since(e0, phy.events())) == wake_drives(a) + select_pulses(leg.chain),
                decreases self@.steps_to_start(),
            {
                match self.s {
                    JtagState::RunIdle | JtagState::TestReset => {
                        assert(a.current is None ==> leg == a.pending[0] && rest
                            == a.pending.drop_first());
                        let ghost b = self@;
                        let ghost e1 = phy.events();
                        self.step(phy);
                        proof {
                            lemma_since_concat(e0, e1, phy.events());
                            assert(step_drives(b) + start_left(self@, leg.chain) =~= start_left(
                                b,
                                leg.chain,
                            ));
                            assert(drives(since(e0, phy.events())) + start_left(self@, leg.chain)
                                =~= drives(since(e0, e1)) + start_left(b, leg.chain));
                        }
                    },
                    _ => {
                        assert(drives(since(e0, phy.events())) =~= drives(since(e0, phy.events()))
                            + start_left(self@, leg.chain));
                        break;
                    },
                }
            }
        }
        let ghost leg = self@.current.unwrap();
        let ghost d0 = self@.done;
        let ghost p0 = self@.pending;
        let ghost s0 = self@.state;
        let ghost em = phy.events();
        let ghost total = finish_drives(s0, leg);
        let ghost off = shift_offset(s0);
        assert(leg.outbound.subrange(0, leg.outbound.len() as int) =~= leg.outbound);
        assert(leg.inbound.subrange(0, leg.inbound.len() as int) =~= leg.inbound);
        assert(em.subrange(0, em.len() as int) =~= em);
        assert(drives(since(em, em)) + total =~= total);
        assert(off == 0 ==> leg.inbound + tdos(since(em, em)).subrange(off, off) =~= leg.inbound);
        loop
            invariant
                self@.wf(),
                self@.tags() == a.tags(),
                self@.pending == p0,
                d0 == a.done,
                parked(a.state) ==> leg == a.next_leg() && p0 == a.pending_after_start() && s0
                    is Select && extends(e0, em) && drives(since(e0, em)) == wake_drives(a)
                    + select_pulses(leg.chain),
                !parked(a.state) ==> leg == a.current.unwrap() && p0 == a.pending && s0 == a.state
                    && em == e0,
                !parked(s0),
                total == finish_drives(s0, leg),
                off == shift_offset(s0),
                leg.outbound.len() > 0 ==> in_shift_phase(s0),
                in_shift_phase(self@.state) ==> in_shift_phase(s0),
                extends(em, phy.events()),
                parked(self@.state) ==> {
                    &&& self@.state is RunIdle
                    &&& self@.current is None
                    &&& self@.done.len() == d0.len() + 1
                    &&& self@.done.drop_last() == d0
                    &&& completed_from(self@.done.last(), leg)
                    &&& drives(since(em, phy.events())) == total
                    &&& self@.done.last().inbound == leg.inbound + tdos(since(em, phy.events())).subrange(
                        off,
                        off + leg.outbound.len(),
                    )
                },
                !parked(self@.state) ==> {
                    &&& self@.done == d0
                    &&& shifted_from(self@.current.unwrap(), leg)
                    &&& drives(since(em, phy.events())) + finish_drives(
                        self@.state,
                        self@.current.unwrap(),
                    ) == total
                    &&& (self@.state is Select || self@.state is Capture) ==> self@.current.unwrap().inbound
                        == leg.inbound
                    &&& !(self@.state is Select || self@.state is Capture) ==> self@.current.unwrap().inbound
                        == leg.inbound + tdos(since(em, phy.events())).subrange(
                        off,
                        off + (self@.current.unwrap().inbound.len() - leg.inbound.len()),
                    )
                },
            ensures
                self@.wf(),
                self@.tags() == a.tags(),
                self@.pending == p0,
                self@.state is RunIdle,
                self@.current is None,
                self@.done.len() == d0.len() + 1,
                self@.done.drop_last() == d0,
                completed_from(self@.done.last(), leg),
                extends(em, phy.events()),
                drives(since(em, phy.events())) == total,
                self@.done.last().inbound == leg.inbound + tdos(since(em, phy.events())).subrange(
                    off,
                    off + leg.outbound.len(),
                ),
            decreases self@.steps_to_park(),
        {
            match self.s {
                JtagState::RunIdle | JtagState::TestReset => break,
                _ => {
                    let ghost b = self@;
                    let ghost e1 = phy.events();
                    self.step(phy);
                    proof {
                        let e2 = phy.events();
                        lemma_since_concat(em, e1, e2);
                        lemma_finish_step(b, self@);
                        let n1 = since(em, e1);
                        let n2 = since(em, e2);
                        let c1 = b.current.unwrap();
                        if parked(self@.state) {
                            assert(drives(n2) =~= drives(n1) + step_drives(b));
                            assert(drives(n1) + finish_drives(b.state, c1) == total);
                            assert(drives(n2) =~= total);
                        } else {
                            let c2 = self@.current.unwrap();
                            assert(drives(n2) + finish_drives(self@.state, c2) =~= drives(n1) + (
                            step_drives(b) + finish_drives(self@.state, c2)));
                        }
                        if b.state is Shift && c1.outbound.len() > 0 {
                            let c2 = self@.current.unwrap();
                            assert(c2.outbound =~= leg.outbound.subrange(0, c2.outbound.len() as int));
                            assert(c2.inbound.subrange(0, leg.inbound.len() as int) =~= c1.inbound.subrange(
                                0,
                                leg.inbound.len() as int,
                            ));
                            let m = (c1.inbound.len() - leg.inbound.len()) as int;
                            assert(drives(n1).len() + finish_drives(b.state, c1).len() == total.len());
                            assert(n1.len() == off + m);
                            assert(since(e1, e2).len() == 1);
                            assert(n2 =~= n1.push(e2.last()));
                            assert(tdos(n2).subrange(off, off + m + 1) =~= tdos(n1).subrange(
                                off,
                                off + m,
                            ).push(e2.last().tdo));
                            assert(c2.inbound =~= c1.inbound.push(e2.last().tdo));
                            assert(c2.inbound =~= leg.inbound + tdos(n2).subrange(off, off + m + 1));
                        } else if !(b.state is Select || b.state is Capture) {
                            let m = (c1.inbound.len() - leg.inbound.len()) as int;
                            assert(drives(n1).len() + finish_drives(b.state, c1).len() == total.len());
                            assert(tdos(n2).subrange(off, off + m) =~= tdos(n1).subrange(off, off + m));
                        } else if b.state is Capture {
                            assert(tdos(n2).subrange(off, off) =~= Seq::<bool>::empty());
                            assert(leg.inbound + tdos(n2).subrange(off, off) =~= leg.inbound);
                        }
                        if b.state is Update {
                            assert(self@.done.drop_last() =~= d0);
                        }
                    }
                },
            }
        }
        proof {
            let e2 = phy.events();
            let k = leg.outbound.len();
            if parked(a.state) {
                lemma_since_concat(e0, em, e2);
                assert(drives(since(e0, e2)) =~= wake_drives(a) + leg_drives(leg.chain, leg.outbound));
                assert(shifted_in(since(e0, e2), k) =~= tdos(since(em, e2)).subrange(off, off + k));
            } else {
                assert(since(e0, e2) == since(em, e2));
                if in_shift_phase(a.state) {
                    assert(shifted_in(since(e0, e2), k) =~= tdos(since(em, e2)).subrange(
                        off,
                        off + k,
                    ));
                }
            }
        }
    }
}

} // verus!
