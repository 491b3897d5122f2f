//! Reading and programming the device's one-time-programmable eFuses over
//! the JTAG engine.
//!
//! A session fetches the burned values (the snapshot), stages candidate
//! values, checks with [`EfuseApi::is_valid`] that no candidate clears a
//! bit that is already burned, and only then burns.

use vstd::prelude::*;
use crate::jtag::{
    Drive, JtagChain, JtagEndian, JtagLeg, JtagMach, JtagPhy, MachView, PhyEvent,
    assemble_u32, completed_from, drives, extends, leg_drives, parked, push_bits_u128,
    push_bits_u32, shifted_in, since, tail, wake_drives,
};

verus! {

/// Instruction opcode that selects the key fuse register for reading.
pub const FUSE_KEY_OPCODE: u32 = 0b110001;
/// Instruction opcode that selects the user fuse register for reading.
pub const FUSE_USER_OPCODE: u32 = 0b110011;
/// Instruction opcode that selects the control fuse register for reading.
pub const FUSE_CNTL_OPCODE: u32 = 0b110100;
/// Instruction opcode that selects the device identity register.
pub const IDCODE_OPCODE: u32 = 0b001001;
/// Width in bits of an instruction opcode.
pub const OPCODE_BITS: usize = 6;

/// Number of key bytes.
pub const KEY_BYTES: usize = 32;
/// Fuse bit index of user bit 0; key bits come first.
pub const USER_BASE: u32 = 256;
/// Fuse bit index of control bit 0; user bits come second.
pub const CNTL_BASE: u32 = 288;
/// Number of fuse bits, key, user and control together.
pub const FUSE_BITS: u32 = 296;

/// Device-specific values of the burn sequence: the programming opcode and
/// the 64-bit data words that unlock the fuse bank, select it, address one
/// bit and commit, with the settling time between operations.
#[derive(Copy, Clone)]
pub struct BurnConfig {
    /// instruction opcode under which every programming word is written
    pub program_opcode: u32,
    /// written twice to unlock the fuse bank
    pub unlock: u64,
    /// selects the fuse bank
    pub bank_select: u64,
    /// the bit select word; the fuse bit index is ORed into its low bits
    pub bit_select_base: u64,
    /// latches every addressed bit at once
    pub commit: u64,
    /// settling time after a bank or bit select, in microseconds
    pub settle_us: u32,
}

/// The mathematical content of an [`EfuseApi`]: the burned values and the
/// staged candidates.
pub struct EfuseView {
    pub phy_key: Seq<u8>,
    pub phy_user: u32,
    pub phy_cntl: u8,
    pub key: Seq<u8>,
    pub user: u32,
    pub cntl: u8,
}

/// Every bit set in `snap` is set in `cand`.
pub open spec fn covers_u8(snap: u8, cand: u8) -> bool {
    snap & !cand == 0
}

/// Every bit set in `snap` is set in `cand`.
pub open spec fn covers_u32(snap: u32, cand: u32) -> bool {
    snap & !cand == 0
}

/// Fuse bit `idx` of a key, user word and control byte: key bit `idx` for
/// `idx < 256`, then the user bits, then the control bits.
pub open spec fn fuse_bit(key: Seq<u8>, user: u32, cntl: u8, idx: u32) -> bool {
    if idx < USER_BASE {
        (key[(idx / 8) as int] >> ((idx % 8) as u8)) & 1u8 == 1u8
    } else if idx < CNTL_BASE {
        (user >> (idx - USER_BASE) as u32) & 1u32 == 1u32
    } else {
        (cntl >> (idx - CNTL_BASE) as u8) & 1u8 == 1u8
    }
}

impl EfuseView {
    /// The candidate may be burned over the snapshot: no field clears a
    /// burned bit.
    pub open spec fn valid(self) -> bool {
        &&& forall|i: int| 0 <= i < KEY_BYTES ==> covers_u8(self.phy_key[i], #[trigger] self.key[i])
        &&& covers_u32(self.phy_user, self.user)
        &&& covers_u8(self.phy_cntl, self.cntl)
    }

    /// Fuse bit `idx` is set in the candidate and clear in the snapshot.
    pub open spec fn to_burn(self, idx: u32) -> bool {
        fuse_bit(self.key, self.user, self.cntl, idx) && !fuse_bit(
            self.phy_key,
            self.phy_user,
            self.phy_cntl,
            idx,
        )
    }

    /// The indices below `n` of the bits to burn, in increasing order.
    pub open spec fn burn_list(self, n: u32) -> Seq<u32>
        decreases n,
    {
        if n == 0 {
            Seq::empty()
        } else {
            let p = self.burn_list((n - 1) as u32);
            if self.to_burn((n - 1) as u32) {
                p.push((n - 1) as u32)
            } else {
                p
            }
        }
    }
}

/// The session state: the snapshot of burned values and the staged
/// candidates.
pub struct EfuseApi {
    phy_key: [u8; 32],
    phy_user: u32,
    phy_cntl: u8,
    key: [u8; 32],
    user: u32,
    cntl: u8,
}

impl View for EfuseApi {
    type V = EfuseView;

    closed spec fn view(&self) -> EfuseView {
        EfuseView {
            phy_key: self.phy_key@,
            phy_user: self.phy_user,
            phy_cntl: self.phy_cntl,
            key: self.key@,
            user: self.user,
            cntl: self.cntl,
        }
    }
}

/// The engine rests with nothing queued, in flight or unread.
pub open spec fn quiet(m: MachView) -> bool {
    &&& parked(m.state)
    &&& m.current is None
    &&& m.pending.len() == 0
    &&& m.done.len() == 0
}

/// The engine rests with nothing queued, in flight or unread.
pub fn is_quiet(jm: &JtagMach) -> (r: bool)
    ensures
        r == quiet(jm@),
{
    jm.is_parked() && !jm.has_in_flight() && !jm.has_pending() && !jm.has_done()
}

/// Carries one leg through a quiet engine and returns it completed, its
/// captured bits being the TDO values of its shift cycles; returns `None`,
/// touching nothing, when the engine is not quiet.
pub fn run_leg<P: JtagPhy>(jm: &mut JtagMach, phy: &mut P, leg: JtagLeg) -> (r: Option<JtagLeg>)
    requires
        old(jm)@.wf(),
    ensures
        final(jm)@.wf(),
        extends(old(phy).events(), final(phy).events()),
        !quiet(old(jm)@) ==> r is None && final(jm)@ == old(jm)@ && final(phy).events() == old(
            phy,
        ).events(),
        quiet(old(jm)@) ==> {
            &&& r is Some
            &&& completed_from(r.unwrap()@, leg@)
            &&& quiet(final(jm)@)
            &&& final(jm)@.state is RunIdle
            &&& drives(since(old(phy).events(), final(phy).events())) == wake_drives(old(jm)@)
                + leg_drives(leg@.chain, leg@.outbound)
            &&& r.unwrap()@.inbound == leg@.inbound + shifted_in(
                since(old(phy).events(), final(phy).events()),
                leg@.outbound.len(),
            )
        },
{
    if !is_quiet(jm) {
        proof {
            assert(phy.events().subrange(0, phy.events().len() as int) =~= phy.events());
        }
        return None;
    }
    jm.add(leg);
    assert(jm@.next_leg() == leg@);
    jm.next(phy);
    jm.get()
}

/// Bits that are all zero.
pub open spec fn zero_bits(n: nat) -> Seq<bool> {
    Seq::new(n, |i: int| false)
}

/// The bits sent for instruction `opcode`.
pub open spec fn opcode_bits(opcode: u32) -> Seq<bool> {
    push_bits_u32(opcode, OPCODE_BITS as nat, JtagEndian::Little)
}

/// The bits sent for a 64-bit data word.
pub open spec fn word_bits(word: u64) -> Seq<bool> {
    push_bits_u128(word as u128, 64, JtagEndian::Little)
}

/// The cycles that shift `opcode` into the instruction register and then
/// capture `count` bits of the data register it selects.
pub open spec fn read_drives(opcode: u32, count: nat) -> Seq<Drive> {
    leg_drives(JtagChain::IR, opcode_bits(opcode)) + leg_drives(JtagChain::DR, zero_bits(count))
}

/// The cycles that shift `opcode` into the instruction register and then
/// write `word` into the data register it selects.
pub open spec fn write_drives(opcode: u32, word: u64) -> Seq<Drive> {
    leg_drives(JtagChain::IR, opcode_bits(opcode)) + leg_drives(JtagChain::DR, word_bits(word))
}

/// A leg of `count` zero bits on `chain`, used to capture a register.
fn zero_leg(chain: JtagChain, tag: &str, count: usize) -> (r: JtagLeg)
    ensures
        r@.chain == chain,
        r@.tag == tag@,
        r@.outbound == zero_bits(count as nat),
        r@.inbound.len() == 0,
{
    let mut leg = JtagLeg::new(chain, tag);
    let mut k: usize = 0;
    while k < count
        invariant
            k <= count,
            leg@.chain == chain,
            leg@.tag == tag@,
            leg@.outbound == zero_bits(k as nat),
            leg@.inbound.len() == 0,
        decreases count - k,
    {
        leg.push_u32(0, 1, JtagEndian::Little);
        assert(push_bits_u32(0, 1, JtagEndian::Little)[0] == false) by (bit_vector);
        assert(zero_bits((k + 1) as nat) =~= zero_bits(k as nat) + push_bits_u32(
            0,
            1,
            JtagEndian::Little,
        ));
        k = k + 1;
    }
    leg
}

proof fn lemma_append(
    e0: Seq<PhyEvent>,
    e1: Seq<PhyEvent>,
    e2: Seq<PhyEvent>,
    first: Seq<Drive>,
    second: Seq<Drive>,
)
    requires
        extends(e0, e1),
        extends(e1, e2),
        drives(since(e0, e1)) == first,
        drives(since(e1, e2)) == second,
    ensures
        extends(e0, e2),
        drives(since(e0, e2)) == first + second,
        since(e0, e2) == since(e0, e1) + since(e1, e2),
        before_last(since(e0, e2), second.len()) == since(e0, e1),
        forall|n: nat|
            second.len() >= n + 3 ==> #[trigger] shifted_in(since(e0, e2), n) == shifted_in(
                since(e1, e2),
                n,
            ),
{
    crate::jtag::lemma_since_concat(e0, e1, e2);
    assert(before_last(since(e0, e2), second.len()) =~= since(e0, e1));
    assert forall|n: nat| second.len() >= n + 3 implies #[trigger] shifted_in(since(e0, e2), n)
        == shifted_in(since(e1, e2), n) by {
        assert(shifted_in(since(e0, e2), n) =~= shifted_in(since(e1, e2), n));
    }
}

/// The events of `e` but the last `n`.
pub open spec fn before_last(e: Seq<PhyEvent>, n: nat) -> Seq<PhyEvent> {
    e.subrange(0, e.len() - n)
}

/// Key word `w`: the 32 captured bits that the `w`-th Little-endian pop of
/// the key register takes.
pub open spec fn key_word(bits: Seq<bool>, w: int) -> u32 {
    assemble_u32(bits.subrange(256 - 32 * (w + 1), 256 - 32 * w), JtagEndian::Little)
}

/// The key bytes read from the 256 captured key bits: the bytes of each
/// key word, least significant first.
pub open spec fn key_from_bits(bits: Seq<bool>) -> Seq<u8> {
    Seq::new(32, |i: int| ((key_word(bits, i / 4) >> ((8 * (i % 4)) as u32)) & 0xFF) as u8)
}

/// The cycles of a fetch from a resting engine.
pub open spec fn fetch_drives() -> Seq<Drive> {
    read_drives(FUSE_KEY_OPCODE, 256) + read_drives(FUSE_USER_OPCODE, 32) + read_drives(
        FUSE_CNTL_OPCODE,
        32,
    )
}

/// Shifts `opcode` into the instruction register, then captures `count`
/// bits of the data register it selects. Returns the completed data leg.
fn read_register<P: JtagPhy>(jm: &mut JtagMach, phy: &mut P, opcode: u32, count: usize) -> (r:
    Option<JtagLeg>)
    requires
        old(jm)@.wf(),
    ensures
        final(jm)@.wf(),
        extends(old(phy).events(), final(phy).events()),
        quiet(old(jm)@) ==> {
            &&& r is Some
            &&& r.unwrap()@.inbound == shifted_in(
                since(old(phy).events(), final(phy).events()),
                count as nat,
            )
            &&& quiet(final(jm)@)
            &&& final(jm)@.state is RunIdle
            &&& drives(since(old(phy).events(), final(phy).events())) == wake_drives(old(jm)@)
                + read_drives(opcode, count as nat)
        },
{
    let ghost e0 = phy.events();
    let ghost a = jm@;
    let mut ir = JtagLeg::new(JtagChain::IR, "cmd");
    ir.push_u32(opcode, OPCODE_BITS, JtagEndian::Little);
    if run_leg(jm, phy, ir).is_none() {
        return None;
    }
    let ghost e1 = phy.events();
    let dr = zero_leg(JtagChain::DR, "data", count);
    let r = run_leg(jm, phy, dr);
    proof {
        assert(drives(since(e1, phy.events())) =~= leg_drives(JtagChain::DR, zero_bits(count as nat)));
        lemma_append(
            e0,
            e1,
            phy.events(),
            wake_drives(a) + leg_drives(JtagChain::IR, opcode_bits(opcode)),
            leg_drives(JtagChain::DR, zero_bits(count as nat)),
        );
        assert(shifted_in(since(e0, phy.events()), count as nat) == shifted_in(
            since(e1, phy.events()),
            count as nat,
        ));
        assert(wake_drives(a) + leg_drives(JtagChain::IR, opcode_bits(opcode)) + leg_drives(
            JtagChain::DR,
            zero_bits(count as nat),
        ) =~= wake_drives(a) + read_drives(opcode, count as nat));
        assert(Seq::<bool>::empty() + shifted_in(since(e1, phy.events()), count as nat)
            =~= shifted_in(since(e1, phy.events()), count as nat));
    }
    r
}

/// Shifts `opcode` into the instruction register, then writes `word` into
/// the 64-bit data register it selects.
fn write_register<P: JtagPhy>(jm: &mut JtagMach, phy: &mut P, opcode: u32, word: u64) -> (r: bool)
    requires
        old(jm)@.wf(),
    ensures
        final(jm)@.wf(),
        extends(old(phy).events(), final(phy).events()),
        quiet(old(jm)@) ==> {
            &&& r
            &&& quiet(final(jm)@)
            &&& final(jm)@.state is RunIdle
            &&& drives(since(old(phy).events(), final(phy).events())) == wake_drives(old(jm)@)
                + write_drives(opcode, word)
        },
{
    let ghost e0 = phy.events();
    let ghost a = jm@;
    let mut ir = JtagLeg::new(JtagChain::IR, "cmd");
    ir.push_u32(opcode, OPCODE_BITS, JtagEndian::Little);
    if run_leg(jm, phy, ir).is_none() {
        return false;
    }
    let ghost e1 = phy.events();
    let mut dr = JtagLeg::new(JtagChain::DR, "data");
    dr.push_u128(word as u128, 64, JtagEndian::Little);
    assert(dr@.outbound =~= word_bits(word));
    let r = run_leg(jm, phy, dr).is_some();
    proof {
        assert(drives(since(e1, phy.events())) =~= leg_drives(JtagChain::DR, word_bits(word)));
        lemma_append(
            e0,
            e1,
            phy.events(),
            wake_drives(a) + leg_drives(JtagChain::IR, opcode_bits(opcode)),
            leg_drives(JtagChain::DR, word_bits(word)),
        );
        assert(wake_drives(a) + leg_drives(JtagChain::IR, opcode_bits(opcode)) + leg_drives(
            JtagChain::DR,
            word_bits(word),
        ) =~= wake_drives(a) + write_drives(opcode, word));
    }
    r
}

/// The cycles that unlock the fuse bank twice and select it.
pub open spec fn unlock_drives(cfg: BurnConfig) -> Seq<Drive> {
    write_drives(cfg.program_opcode, cfg.unlock) + write_drives(cfg.program_opcode, cfg.unlock)
        + write_drives(cfg.program_opcode, cfg.bank_select)
}

/// The settling wait of the burn sequence.
pub open spec fn settle(cfg: BurnConfig) -> Seq<Drive> {
    seq![Drive::Pause { us: cfg.settle_us }]
}

/// The calls that address fuse bit `idx` for burning.
pub open spec fn bit_drives(cfg: BurnConfig, idx: u32) -> Seq<Drive> {
    unlock_drives(cfg) + settle(cfg) + write_drives(
        cfg.program_opcode,
        cfg.bit_select_base | (idx as u64),
    ) + settle(cfg)
}

/// The calls that address every bit of `plan`, in order.
pub open spec fn plan_drives(cfg: BurnConfig, plan: Seq<u32>) -> Seq<Drive>
    decreases plan.len(),
{
    if plan.len() == 0 {
        Seq::empty()
    } else {
        plan_drives(cfg, plan.drop_last()) + bit_drives(cfg, plan.last())
    }
}

/// The calls of a burn of `v` from a resting engine: every planned bit,
/// then unlock, bank select, commit, and an identity read.
pub open spec fn burn_drives(v: EfuseView, cfg: BurnConfig) -> Seq<Drive> {
    plan_drives(cfg, v.burn_list(FUSE_BITS)) + unlock_drives(cfg) + write_drives(
        cfg.program_opcode,
        cfg.commit,
    ) + read_drives(IDCODE_OPCODE, 32)
}

/// The part of the cycles so far that woke the engine: none while it is
/// still in `TestReset`.
pub open spec fn done_prefix(a: MachView, m: MachView) -> Seq<Drive> {
    if m.state is TestReset {
        Seq::empty()
    } else {
        wake_drives(a)
    }
}

proof fn lemma_append_after_rest(
    e0: Seq<PhyEvent>,
    e1: Seq<PhyEvent>,
    e2: Seq<PhyEvent>,
    a: MachView,
    m: MachView,
    done: Seq<Drive>,
    more: Seq<Drive>,
)
    requires
        extends(e0, e1),
        extends(e1, e2),
        parked(m.state),
        m.state is TestReset ==> a.state is TestReset,
        drives(since(e0, e1)) == done_prefix(a, m) + done,
        m.state is TestReset ==> done.len() == 0,
        drives(since(e1, e2)) == wake_drives(m) + more,
    ensures
        extends(e0, e2),
        drives(since(e0, e2)) == wake_drives(a) + (done + more),
{
    crate::jtag::lemma_since_concat(e0, e1, e2);
    assert(drives(since(e0, e2)) =~= wake_drives(a) + (done + more));
}

/// Fuse bit `idx` of a key, user word and control byte.
fn fuse_bit_exec(key: &[u8; 32], user: u32, cntl: u8, idx: u32) -> (r: bool)
    requires
        idx < FUSE_BITS,
    ensures
        r == fuse_bit(key@, user, cntl, idx),
{
    if idx < USER_BASE {
        (key[(idx / 8) as usize] >> ((idx % 8) as u8)) & 1u8 == 1u8
    } else if idx < CNTL_BASE {
        (user >> (idx - USER_BASE)) & 1u32 == 1u32
    } else {
        (cntl >> ((idx - CNTL_BASE) as u8)) & 1u8 == 1u8
    }
}

impl EfuseApi {
    /// A session whose snapshot and candidates are all zero.
    pub fn new() -> (r: Self)
        ensures
            r@.phy_key == Seq::new(32, |i: int| 0u8),
            r@.key == Seq::new(32, |i: int| 0u8),
            r@.phy_user == 0,
            r@.user == 0,
            r@.phy_cntl == 0,
            r@.cntl == 0,
    {
        let r = EfuseApi { phy_key: [0u8; 32], phy_user: 0, phy_cntl: 0, key: [0u8; 32], user: 0, cntl: 0 };
        assert(r@.phy_key =~= Seq::new(32, |i: int| 0u8));
        assert(r@.key =~= Seq::new(32, |i: int| 0u8));
        r
    }

    /// Stages a candidate key.
    pub fn set_key(&mut self, key: [u8; 32])
        ensures
            final(self)@ == (EfuseView { key: key@, ..old(self)@ }),
    {
        self.key = key;
    }

    /// Stages a candidate user word.
    pub fn set_user(&mut self, user: u32)
        ensures
            final(self)@ == (EfuseView { user: user, ..old(self)@ }),
    {
        self.user = user;
    }

    /// Stages a candidate control byte.
    pub fn set_cntl(&mut self, cntl: u8)
        ensures
            final(self)@ == (EfuseView { cntl: cntl, ..old(self)@ }),
    {
        self.cntl = cntl;
    }

    /// The burned key of the last fetch.
    pub fn phy_key(&self) -> (r: [u8; 32])
        ensures
            r@ == self@.phy_key,
    {
        self.phy_key
    }

    /// The burned user word of the last fetch.
    pub fn phy_user(&self) -> (r: u32)
        ensures
            r == self@.phy_user,
    {
        self.phy_user
    }

    /// The burned control byte of the last fetch.
    pub fn phy_cntl(&self) -> (r: u8)
        ensures
            r == self@.phy_cntl,
    {
        self.phy_cntl
    }

    /// Whether every candidate keeps every bit that is already burned.
    pub fn is_valid(&self) -> (r: bool)
        ensures
            r == self@.valid(),
    {
        let mut i: usize = 0;
        while i < KEY_BYTES
            invariant
                i <= KEY_BYTES,
                self@.phy_key.len() == 32,
                self@.key.len() == 32,
                forall|j: int| 0 <= j < i ==> covers_u8(self@.phy_key[j], #[trigger] self@.key[j]),
            decreases KEY_BYTES - i,
        {
            if self.phy_key[i] & !self.key[i] != 0 {
                return false;
            }
            i = i + 1;
        }
        (self.phy_user & !self.user) == 0 && (self.phy_cntl & !self.cntl) == 0
    }

    /// Reads the burned key, user word and control byte into the snapshot:
    /// each read shifts its opcode into the instruction register and then
    /// captures 256, 32 and 32 zero bits of the data register. The key is
    /// eight 32-bit Little-endian words, popped last first and stored low
    /// byte first; the control byte is the low byte of its word. On a quiet
    /// engine every read completes and `true` is returned; otherwise nothing
    /// changes and `false` is returned.
    pub fn fetch<P: JtagPhy>(&mut self, jm: &mut JtagMach, phy: &mut P) -> (r: bool)
        requires
            old(jm)@.wf(),
        ensures
            final(jm)@.wf(),
            final(self)@.key == old(self)@.key,
            final(self)@.user == old(self)@.user,
            final(self)@.cntl == old(self)@.cntl,
            final(self)@.phy_key.len() == KEY_BYTES,
            extends(old(phy).events(), final(phy).events()),
            !r ==> final(self)@ == old(self)@ && final(phy).events() == old(phy).events(),
            quiet(old(jm)@) <==> r,
            r ==> {
                let e = since(old(phy).events(), final(phy).events());
                &&& quiet(final(jm)@)
                &&& drives(e) == wake_drives(old(jm)@) + fetch_drives()
                &&& final(self)@.phy_key == key_from_bits(shifted_in(before_last(e, 102), 256))
                &&& final(self)@.phy_user == assemble_u32(
                    shifted_in(before_last(e, 51), 32),
                    JtagEndian::Little,
                )
                &&& final(self)@.phy_cntl == (assemble_u32(shifted_in(e, 32), JtagEndian::Little)
                    & 0xFF) as u8
            },
    {
        if !is_quiet(jm) {
            proof {
                assert(phy.events().subrange(0, phy.events().len() as int) =~= phy.events());
            }
            return false;
        }
        let ghost a = jm@;
        let ghost e0 = phy.events();
        let mut key_leg = read_register(jm, phy, FUSE_KEY_OPCODE, 256).unwrap();
        let ghost e1 = phy.events();
        let mut user_leg = read_register(jm, phy, FUSE_USER_OPCODE, 32).unwrap();
        let ghost e2 = phy.events();
        let mut cntl_leg = read_register(jm, phy, FUSE_CNTL_OPCODE, 32).unwrap();
        let ghost e3 = phy.events();
        let ghost kb = key_leg@.inbound;
        assert(drives(since(e0, e1)).len() == since(e0, e1).len());
        assert(read_drives(FUSE_KEY_OPCODE, 256).len() == 275);
        assert(kb.len() == 256);
        assert(key_leg@.inbound =~= kb.subrange(0, 256));
        let mut key: [u8; 32] = [0u8; 32];
        let mut w: usize = 0;
        while w < 8
            invariant
                w <= 8,
                kb.len() == 256,
                key_leg@.inbound == kb.subrange(0, 256 - 32 * w),
                forall|j: int| 0 <= j < 4 * w ==> key@[j] == #[trigger] key_from_bits(kb)[j],
            decreases 8 - w,
        {
            assert(tail(key_leg@.inbound, 32) =~= kb.subrange(256 - 32 * (w + 1), 256 - 32 * w));
            let word: u32 = key_leg.pop_u32(32, JtagEndian::Little).unwrap();
            assert(word == key_word(kb, w as int));
            assert(key_leg@.inbound =~= kb.subrange(0, 256 - 32 * (w + 1)));
            let mut b: usize = 0;
            while b < 4
                invariant
                    w < 8,
                    b <= 4,
                    kb.len() == 256,
                    word == key_word(kb, w as int),
                    forall|j: int| 0 <= j < 4 * w + b ==> key@[j] == #[trigger] key_from_bits(kb)[j],
                decreases 4 - b,
            {
                key[4 * w + b] = ((word >> ((8 * b) as u32)) & 0xFF) as u8;
                assert((4 * w + b) / 4 == w && (4 * w + b) % 4 == b) by (nonlinear_arith)
                    requires
                        b < 4,
                ;
                b = b + 1;
            }
            w = w + 1;
        }
        assert(drives(since(e1, e2)).len() == since(e1, e2).len());
        assert(drives(since(e2, e3)).len() == since(e2, e3).len());
        assert(user_leg@.inbound.len() == 32);
        assert(cntl_leg@.inbound.len() == 32);
        assert(tail(user_leg@.inbound, 32) =~= user_leg@.inbound);
        assert(tail(cntl_leg@.inbound, 32) =~= cntl_leg@.inbound);
        let user: u32 = user_leg.pop_u32(32, JtagEndian::Little).unwrap();
        let cntl: u32 = cntl_leg.pop_u32(32, JtagEndian::Little).unwrap();
        self.phy_key = key;
        self.phy_user = user;
        self.phy_cntl = (cntl & 0xFF) as u8;
        proof {
            let n1 = since(e0, e1);
            let n2 = since(e1, e2);
            let n3 = since(e2, e3);
            let r1 = wake_drives(a) + read_drives(FUSE_KEY_OPCODE, 256);
            assert(drives(n2) =~= read_drives(FUSE_USER_OPCODE, 32));
            assert(drives(n3) =~= read_drives(FUSE_CNTL_OPCODE, 32));
            lemma_append(e0, e1, e2, r1, read_drives(FUSE_USER_OPCODE, 32));
            lemma_append(e0, e2, e3, r1 + read_drives(FUSE_USER_OPCODE, 32), read_drives(
                FUSE_CNTL_OPCODE,
                32,
            ));
            let e = since(e0, e3);
            assert(drives(e) =~= wake_drives(a) + fetch_drives());
            assert(drives(n3).len() == 51 && drives(n2).len() == 51);
            assert(key@ =~= key_from_bits(kb));
            assert(before_last(e, 51) == since(e0, e2));
            assert(before_last(e, 102) =~= since(e0, e1));
            assert(shifted_in(e, 32) == shifted_in(n3, 32));
            assert(shifted_in(since(e0, e2), 32) == shifted_in(n2, 32));
        }
        true
    }

    /// The indices of the fuse bits that a burn sets: set in the candidate
    /// and clear in the snapshot, in increasing order.
    pub fn burn_plan(&self) -> (r: Vec<u32>)
        ensures
            r@ == self@.burn_list(FUSE_BITS),
    {
        let mut plan: Vec<u32> = Vec::new();
        let mut idx: u32 = 0;
        while idx < FUSE_BITS
            invariant
                idx <= FUSE_BITS,
                self@.key.len() == KEY_BYTES,
                self@.phy_key.len() == KEY_BYTES,
                plan@ == self@.burn_list(idx),
            decreases FUSE_BITS - idx,
        {
            let want = fuse_bit_exec(&self.key, self.user, self.cntl, idx);
            let have = fuse_bit_exec(&self.phy_key, self.phy_user, self.phy_cntl, idx);
            if want && !have {
                plan.push(idx);
            }
            idx = idx + 1;
        }
        plan
    }

    /// Burns every bit of [`EfuseApi::burn_plan`]: for each one it unlocks
    /// the fuse bank twice, selects the bank, waits, addresses the bit and
    /// waits; then it unlocks and selects the bank once more, commits, and
    /// reads the identity register back. The candidate is not validated
    /// here: callers check [`EfuseApi::is_valid`] first. Returns `true`
    /// exactly when the engine was quiet, in which case every transaction
    /// completes, the engine is left quiet, and the transport was driven
    /// through exactly [`burn_drives`].
    pub fn burn<P: JtagPhy>(&self, jm: &mut JtagMach, phy: &mut P, cfg: &BurnConfig) -> (r: bool)
        requires
            old(jm)@.wf(),
        ensures
            final(jm)@.wf(),
            extends(old(phy).events(), final(phy).events()),
            quiet(old(jm)@) <==> r,
            !r ==> final(phy).events() == old(phy).events(),
            r ==> quiet(final(jm)@) && drives(since(old(phy).events(), final(phy).events()))
                == wake_drives(old(jm)@) + burn_drives(self@, *cfg),
    {
        if !is_quiet(jm) {
            proof {
                assert(phy.events().subrange(0, phy.events().len() as int) =~= phy.events());
            }
            return false;
        }
        let ghost a = jm@;
        let ghost e0 = phy.events();
        let plan = self.burn_plan();
        assert(e0.subrange(0, e0.len() as int) =~= e0);
        assert(drives(since(e0, e0)) =~= done_prefix(a, jm@) + plan_drives(*cfg, plan@.subrange(0, 0)));
        let mut k: usize = 0;
        while k < plan.len()
            invariant
                k <= plan.len(),
                jm@.wf(),
                quiet(jm@),
                quiet(a),
                jm@.state is TestReset ==> a.state is TestReset && k == 0,
                extends(e0, phy.events()),
                drives(since(e0, phy.events())) == done_prefix(a, jm@) + plan_drives(
                    *cfg,
                    plan@.subrange(0, k as int),
                ),
            decreases plan.len() - k,
        {
            let idx = plan[k];
            let ghost e1 = phy.events();
            let ghost m1 = jm@;
            self.unlock_bank(jm, phy, cfg);
            let ghost e2 = phy.events();
            phy.pause(cfg.settle_us);
            let ghost e3 = phy.events();
            write_register(jm, phy, cfg.program_opcode, cfg.bit_select_base | (idx as u64));
            let ghost e4 = phy.events();
            phy.pause(cfg.settle_us);
            proof {
                let e5 = phy.events();
                let p = plan_drives(*cfg, plan@.subrange(0, k as int));
                let u = unlock_drives(*cfg);
                let wsel = write_drives(cfg.program_opcode, cfg.bit_select_base | (idx as u64));
                assert(k == 0 ==> plan@.subrange(0, k as int).len() == 0 && p.len() == 0);
                assert(e3.subrange(0, e2.len() as int) =~= e2);
                assert(e5.subrange(0, e4.len() as int) =~= e4);
                assert(drives(since(e2, e3)) =~= settle(*cfg));
                assert(drives(since(e4, e5)) =~= settle(*cfg));
                assert(drives(since(e3, e4)) =~= wsel);
                lemma_append_after_rest(e0, e1, e2, a, m1, p, u);
                lemma_append(e0, e2, e3, wake_drives(a) + (p + u), settle(*cfg));
                lemma_append(e0, e3, e4, wake_drives(a) + (p + u) + settle(*cfg), wsel);
                lemma_append(e0, e4, e5, wake_drives(a) + (p + u) + settle(*cfg) + wsel, settle(*cfg));
                let q = plan@.subrange(0, k + 1);
                assert(q.drop_last() =~= plan@.subrange(0, k as int));
                assert(plan_drives(*cfg, q) == p + bit_drives(*cfg, idx));
                assert(drives(since(e0, e5)) =~= done_prefix(a, jm@) + plan_drives(*cfg, q));
            }
            k = k + 1;
        }
        let ghost e1 = phy.events();
        let ghost m1 = jm@;
        let ghost p = plan_drives(*cfg, plan@);
        assert(plan@.subrange(0, plan@.len() as int) =~= plan@);
        self.unlock_bank(jm, phy, cfg);
        let ghost e2 = phy.events();
        write_register(jm, phy, cfg.program_opcode, cfg.commit);
        let ghost e3 = phy.events();
        let r = read_register(jm, phy, IDCODE_OPCODE, 32).is_some();
        proof {
            let e4 = phy.events();
            assert(plan@.len() == 0 ==> p.len() == 0);
            let u = unlock_drives(*cfg);
            let c = write_drives(cfg.program_opcode, cfg.commit);
            let id = read_drives(IDCODE_OPCODE, 32);
            assert(drives(since(e2, e3)) =~= c);
            assert(drives(since(e3, e4)) =~= id);
            lemma_append_after_rest(e0, e1, e2, a, m1, p, u);
            lemma_append(e0, e2, e3, wake_drives(a) + (p + u), c);
            lemma_append(e0, e3, e4, wake_drives(a) + (p + u) + c, id);
            assert(drives(since(e0, e4)) =~= wake_drives(a) + burn_drives(self@, *cfg));
        }
        r
    }

    /// Writes the unlock word twice and then the bank select word.
    fn unlock_bank<P: JtagPhy>(&self, jm: &mut JtagMach, phy: &mut P, cfg: &BurnConfig) -> (r: bool)
        requires
            old(jm)@.wf(),
        ensures
            final(jm)@.wf(),
            extends(old(phy).events(), final(phy).events()),
            quiet(old(jm)@) ==> {
                &&& r
                &&& quiet(final(jm)@)
                &&& final(jm)@.state is RunIdle
                &&& drives(since(old(phy).events(), final(phy).events())) == wake_drives(old(jm)@)
                    + unlock_drives(*cfg)
            },
    {
        let ghost a = jm@;
        let ghost e0 = phy.events();
        let r1 = write_register(jm, phy, cfg.program_opcode, cfg.unlock);
        let ghost e1 = phy.events();
        let r2 = write_register(jm, phy, cfg.program_opcode, cfg.unlock);
        let ghost e2 = phy.events();
        let r3 = write_register(jm, phy, cfg.program_opcode, cfg.bank_select);
        proof {
            if quiet(a) {
                let e3 = phy.events();
                let w = write_drives(cfg.program_opcode, cfg.unlock);
                let b = write_drives(cfg.program_opcode, cfg.bank_select);
                assert(drives(since(e1, e2)) =~= w);
                assert(drives(since(e2, e3)) =~= b);
                lemma_append(e0, e1, e2, wake_drives(a) + w, w);
                lemma_append(e0, e2, e3, wake_drives(a) + w + w, b);
                assert(drives(since(e0, e3)) =~= wake_drives(a) + unlock_drives(*cfg));
            } else {
                crate::jtag::lemma_since_concat(e0, e1, e2);
                crate::jtag::lemma_since_concat(e0, e2, phy.events());
            }
        }
        r1 && r2 && r3
    }
}


/// Bits `0 .. k` of `s` are each set in `c` too.
pub open spec fn keeps_low_bits_u32(s: u32, c: u32, k: u32) -> bool {
    forall|b: u32| b < k ==> (#[trigger] ((s >> b) & 1u32) == 1u32 ==> (c >> b) & 1u32 == 1u32)
}

proof fn lemma_covers_u32_from_bits(s: u32, c: u32, k: u32)
    requires
        k <= 32,
        keeps_low_bits_u32(s, c, k),
    ensures
        k < 32 ==> (s & !c) & !(0xFFFF_FFFFu32 << k) == 0,
        k == 32 ==> s & !c == 0,
    decreases k,
{
    if k == 0 {
        assert((s & !c) & !(0xFFFF_FFFFu32 << 0u32) == 0) by (bit_vector);
    } else {
        let j = (k - 1) as u32;
        lemma_covers_u32_from_bits(s, c, j);
        assert(((s >> j) & 1u32) == 1u32 ==> (c >> j) & 1u32 == 1u32);
        if k < 32 {
            assert((s & !c) & !(0xFFFF_FFFFu32 << k) == 0) by (bit_vector)
                requires
                    j < 31,
                    k == j + 1,
                    (s & !c) & !(0xFFFF_FFFFu32 << j) == 0,
                    ((s >> j) & 1u32) == 1u32 ==> (c >> j) & 1u32 == 1u32,
            ;
        } else {
            assert(s & !c == 0) by (bit_vector)
                requires
                    j == 31,
                    (s & !c) & !(0xFFFF_FFFFu32 << j) == 0,
                    ((s >> j) & 1u32) == 1u32 ==> (c >> j) & 1u32 == 1u32,
            ;
        }
    }
}

/// Bits `0 .. k` of `s` are each set in `c` too.
pub open spec fn keeps_low_bits_u8(s: u8, c: u8, k: u8) -> bool {
    forall|b: u8| b < k ==> (#[trigger] ((s >> b) & 1u8) == 1u8 ==> (c >> b) & 1u8 == 1u8)
}

proof fn lemma_covers_u8_from_bits(s: u8, c: u8, k: u8)
    requires
        k <= 8,
        keeps_low_bits_u8(s, c, k),
    ensures
        k < 8 ==> (s & !c) & !(0xFFu8 << k) == 0,
        k == 8 ==> s & !c == 0,
    decreases k,
{
    if k == 0 {
        assert((s & !c) & !(0xFFu8 << 0u8) == 0) by (bit_vector);
    } else {
        let j = (k - 1) as u8;
        lemma_covers_u8_from_bits(s, c, j);
        assert(((s >> j) & 1u8) == 1u8 ==> (c >> j) & 1u8 == 1u8);
        if k < 8 {
            assert((s & !c) & !(0xFFu8 << k) == 0) by (bit_vector)
                requires
                    j < 7,
                    k == j + 1,
                    (s & !c) & !(0xFFu8 << j) == 0,
                    ((s >> j) & 1u8) == 1u8 ==> (c >> j) & 1u8 == 1u8,
            ;
        } else {
            assert(s & !c == 0) by (bit_vector)
                requires
                    j == 7,
                    (s & !c) & !(0xFFu8 << j) == 0,
                    ((s >> j) & 1u8) == 1u8 ==> (c >> j) & 1u8 == 1u8,
            ;
        }
    }
}

proof fn lemma_covered_bit_u8(s: u8, c: u8, b: u8)
    requires
        covers_u8(s, c),
        b < 8,
        (s >> b) & 1u8 == 1u8,
    ensures
        (c >> b) & 1u8 == 1u8,
{
    assert((c >> b) & 1u8 == 1u8) by (bit_vector)
        requires
            s & !c == 0,
            b < 8,
            (s >> b) & 1u8 == 1u8,
    ;
}

proof fn lemma_covered_bit_u32(s: u32, c: u32, b: u32)
    requires
        covers_u32(s, c),
        b < 32,
        (s >> b) & 1u32 == 1u32,
    ensures
        (c >> b) & 1u32 == 1u32,
{
    assert((c >> b) & 1u32 == 1u32) by (bit_vector)
        requires
            s & !c == 0,
            b < 32,
            (s >> b) & 1u32 == 1u32,
    ;
}

/// Every fuse bit that is burned in the snapshot is set in the candidate.
pub open spec fn keeps_burned_bits(v: EfuseView) -> bool {
    forall|idx: u32|
        idx < FUSE_BITS ==> (#[trigger] fuse_bit(v.phy_key, v.phy_user, v.phy_cntl, idx) ==> fuse_bit(
            v.key,
            v.user,
            v.cntl,
            idx,
        ))
}

/// A candidate passes [`EfuseApi::is_valid`] exactly when it keeps every
/// fuse bit burned in the snapshot: clearing any burned bit makes it
/// invalid, and any bitwise superset of the snapshot is valid.
pub proof fn lemma_valid_iff_keeps_burned_bits(v: EfuseView)
    requires
        v.phy_key.len() == KEY_BYTES,
        v.key.len() == KEY_BYTES,
    ensures
        v.valid() <==> keeps_burned_bits(v),
{
    if v.valid() {
        assert forall|idx: u32|
            idx < FUSE_BITS && #[trigger] fuse_bit(
                v.phy_key,
                v.phy_user,
                v.phy_cntl,
                idx,
            ) implies fuse_bit(v.key, v.user, v.cntl, idx) by {
            if idx < USER_BASE {
                let i = (idx / 8) as int;
                assert(covers_u8(v.phy_key[i], v.key[i]));
                lemma_covered_bit_u8(v.phy_key[i], v.key[i], (idx % 8) as u8);
            } else if idx < CNTL_BASE {
                lemma_covered_bit_u32(v.phy_user, v.user, (idx - USER_BASE) as u32);
            } else {
                lemma_covered_bit_u8(v.phy_cntl, v.cntl, (idx - CNTL_BASE) as u8);
            }
        }
    }
    if keeps_burned_bits(v) {
        assert forall|i: int| 0 <= i < KEY_BYTES implies covers_u8(
            v.phy_key[i],
            #[trigger] v.key[i],
        ) by {
            assert forall|b: u8| b < 8 && #[trigger] ((v.phy_key[i] >> b) & 1u8) == 1u8 implies (
            v.key[i] >> b) & 1u8 == 1u8 by {
                let idx = (8 * i + b) as u32;
                assert(idx / 8 == i && idx % 8 == b) by (nonlinear_arith)
                    requires
                        idx == 8 * i + b,
                        0 <= i < 32,
                        b < 8,
                ;
                assert(fuse_bit(v.phy_key, v.phy_user, v.phy_cntl, idx) ==> fuse_bit(
                    v.key,
                    v.user,
                    v.cntl,
                    idx,
                ));
            }
            lemma_covers_u8_from_bits(v.phy_key[i], v.key[i], 8);
        }
        assert forall|b: u32| b < 32 && #[trigger] ((v.phy_user >> b) & 1u32) == 1u32 implies (
        v.user >> b) & 1u32 == 1u32 by {
            let idx = (USER_BASE + b) as u32;
            assert(fuse_bit(v.phy_key, v.phy_user, v.phy_cntl, idx) ==> fuse_bit(
                v.key,
                v.user,
                v.cntl,
                idx,
            ));
        }
        lemma_covers_u32_from_bits(v.phy_user, v.user, 32);
        assert forall|b: u8| b < 8 && #[trigger] ((v.phy_cntl >> b) & 1u8) == 1u8 implies (
        v.cntl >> b) & 1u8 == 1u8 by {
            let idx = (CNTL_BASE + b) as u32;
            assert(fuse_bit(v.phy_key, v.phy_user, v.phy_cntl, idx) ==> fuse_bit(
                v.key,
                v.user,
                v.cntl,
                idx,
            ));
        }
        lemma_covers_u8_from_bits(v.phy_cntl, v.cntl, 8);
    }
}

/// A candidate equal to the snapshot is valid.
pub proof fn lemma_snapshot_is_valid(v: EfuseView)
    requires
        v.phy_key.len() == KEY_BYTES,
        v.key == v.phy_key,
        v.user == v.phy_user,
        v.cntl == v.phy_cntl,
    ensures
        v.valid(),
{
    lemma_valid_iff_keeps_burned_bits(v);
}

} // verus!
