use jtag_efuse::jtag::{JtagChain, JtagEndian, JtagLeg, JtagMach, JtagPhy};
use jtag_efuse::phy::TracePhy;

/// Answers every cycle with the TDI it was given.
struct EchoPhy {
    cycles: usize,
}

impl JtagPhy for EchoPhy {
    fn sync(&mut self, tdi: bool, _tms: bool) -> bool {
        self.cycles += 1;
        tdi
    }

    fn nosync(&mut self, tdi: bool, _tms: bool, _tck: bool) -> bool {
        tdi
    }

    fn pause(&mut self, _us: u32) {}
}

fn run_one(leg: JtagLeg, phy: &mut EchoPhy) -> JtagLeg {
    let mut jm = JtagMach::new();
    jm.add(leg);
    jm.next(phy);
    jm.get().unwrap()
}

#[test]
fn lib_it_works() {
    assert_eq!(2 + 2, 4);
}

#[test]
fn pop_underflow_leaves_leg() {
    let mut leg = JtagLeg::new(JtagChain::DR, "x");
    leg.push_u32(0xF, 4, JtagEndian::Little);
    assert_eq!(leg.pop_u32(1, JtagEndian::Little), None);
    assert_eq!(leg.pop_u128(1, JtagEndian::Big), None);
    assert_eq!(leg.tag(), "x");
}

#[test]
fn echo_round_trip_little() {
    let mut phy = EchoPhy { cycles: 0 };
    let mut leg = JtagLeg::new(JtagChain::DR, "echo");
    leg.push_u32(0b1011, 4, JtagEndian::Little);
    let mut out = run_one(leg, &mut phy);
    assert_eq!(out.pop_u32(4, JtagEndian::Little), Some(0b1011));
    assert_eq!(out.pop_u32(1, JtagEndian::Little), None);
}

#[test]
fn echo_round_trip_little_masks_to_count() {
    for n in [1usize, 5, 16, 31] {
        let v: u32 = 0xDEAD_BEEF;
        let mut phy = EchoPhy { cycles: 0 };
        let mut leg = JtagLeg::new(JtagChain::DR, "echo");
        leg.push_u32(v, n, JtagEndian::Little);
        let mut out = run_one(leg, &mut phy);
        let low = v & ((1u32 << n) - 1);
        assert_eq!(out.pop_u32(n, JtagEndian::Little), Some(low));
    }
}

#[test]
fn single_captured_one_pops_as_one() {
    let mut phy = EchoPhy { cycles: 0 };
    let mut leg = JtagLeg::new(JtagChain::DR, "one");
    leg.push_u32(1, 1, JtagEndian::Little);
    let mut out = run_one(leg, &mut phy);
    assert_eq!(out.pop_u32(1, JtagEndian::Little), Some(1));
}

#[test]
fn big_push_reads_one_bit_above_count() {
    // with Big, bits count..1 are sent: bit 0 is skipped, bit `count` is read
    let mut phy = EchoPhy { cycles: 0 };
    let mut leg = JtagLeg::new(JtagChain::DR, "big");
    leg.push_u32(0b1_0110, 4, JtagEndian::Big);
    let mut out = run_one(leg, &mut phy);
    assert_eq!(out.pop_u32(4, JtagEndian::Big), Some(0b1011));
}

#[test]
fn u128_echo_round_trip() {
    let mut phy = EchoPhy { cycles: 0 };
    let mut leg = JtagLeg::new(JtagChain::DR, "wide");
    leg.push_u128(0x1234_5678_9ABC_DEF0, 64, JtagEndian::Little);
    let mut out = run_one(leg, &mut phy);
    assert_eq!(out.pop_u128(64, JtagEndian::Little), Some(0x1234_5678_9ABC_DEF0u128));
}

#[test]
fn ir_leg_cycle_count() {
    let mut phy = EchoPhy { cycles: 0 };
    let mut leg = JtagLeg::new(JtagChain::IR, "ir");
    leg.push_u32(0b001001, 6, JtagEndian::Little);
    run_one(leg, &mut phy);
    // reset exit 1, two TMS pulses, select 1, capture 1, six shifts, exit 1, exit1 1, update 1
    assert_eq!(phy.cycles, 14);
    let mut phy = EchoPhy { cycles: 0 };
    let mut leg = JtagLeg::new(JtagChain::DR, "dr");
    leg.push_u32(0, 6, JtagEndian::Little);
    run_one(leg, &mut phy);
    assert_eq!(phy.cycles, 13);
}

#[test]
fn legs_are_conserved_and_fifo() {
    let mut phy = EchoPhy { cycles: 0 };
    let mut jm = JtagMach::new();
    let mut a = JtagLeg::new(JtagChain::IR, "a");
    a.push_u32(1, 3, JtagEndian::Little);
    let mut b = JtagLeg::new(JtagChain::DR, "b");
    b.push_u32(2, 5, JtagEndian::Little);
    let c = JtagLeg::new(JtagChain::DR, "c");
    jm.add(a);
    jm.add(b);
    jm.next(&mut phy);
    jm.add(c);
    assert!(jm.has_pending());
    jm.next(&mut phy);
    jm.next(&mut phy);
    assert!(!jm.has_pending());
    assert!(jm.has_done());
    let tags: Vec<String> = std::iter::from_fn(|| jm.get()).map(|l| l.tag()).collect();
    assert_eq!(tags, vec!["a", "b", "c"]);
    assert!(!jm.has_done());
}

#[test]
fn idle_next_is_one_step() {
    let mut phy = EchoPhy { cycles: 0 };
    let mut jm = JtagMach::new();
    jm.next(&mut phy);
    assert_eq!(phy.cycles, 1);
    jm.next(&mut phy);
    assert_eq!(phy.cycles, 2);
    assert!(jm.get().is_none());
}

#[test]
fn reset_abandons_leg_in_flight() {
    let mut phy = EchoPhy { cycles: 0 };
    let mut jm = JtagMach::new();
    let mut a = JtagLeg::new(JtagChain::DR, "a");
    a.push_u32(0, 8, JtagEndian::Little);
    jm.add(a);
    jm.add(JtagLeg::new(JtagChain::DR, "b"));
    for _ in 0..6 {
        jm.step(&mut phy);
    }
    assert!(jm.has_in_flight());
    assert!(!jm.is_parked());
    let before = phy.cycles;
    jm.reset(&mut phy);
    assert_eq!(phy.cycles, before + 5);
    assert!(jm.is_parked());
    assert!(!jm.has_in_flight());
    assert!(jm.has_pending());
    jm.next(&mut phy);
    assert_eq!(jm.get().unwrap().tag(), "b");
    assert!(jm.get().is_none());
}

#[test]
fn next_mid_traversal_finishes_without_starting() {
    let mut phy = EchoPhy { cycles: 0 };
    let mut jm = JtagMach::new();
    let mut a = JtagLeg::new(JtagChain::DR, "a");
    a.push_u32(0b101, 3, JtagEndian::Little);
    jm.add(a);
    jm.add(JtagLeg::new(JtagChain::DR, "b"));
    for _ in 0..5 {
        jm.step(&mut phy);
    }
    assert!(!jm.is_parked());
    jm.next(&mut phy);
    assert!(jm.is_parked());
    assert!(jm.has_pending());
    let mut done = jm.get().unwrap();
    assert_eq!(done.tag(), "a");
    assert_eq!(done.pop_u32(3, JtagEndian::Big), Some(0b101));
}

#[test]
fn idcode_sequence() {
    let mut phy = TracePhy::new();
    let mut jm = JtagMach::new();
    jm.reset(&mut phy);
    let mut id_leg = JtagLeg::new(JtagChain::IR, "idcode");
    id_leg.push_u32(0b001001, 6, JtagEndian::Little);
    jm.add(id_leg);
    jm.next(&mut phy);
    assert!(jm.has_done());
    assert_eq!(jm.get().unwrap().tag(), "idcode");
    let mut data_leg = JtagLeg::new(JtagChain::DR, "iddata");
    data_leg.push_u32(0, 16, JtagEndian::Little);
    data_leg.push_u32(0, 16, JtagEndian::Little);
    jm.add(data_leg);
    jm.next(&mut phy);
    let mut iddata = jm.get().unwrap();
    assert_eq!(iddata.tag(), "iddata");
    assert_eq!(iddata.pop_u32(32, JtagEndian::Little), Some(0));
    assert!(!jm.has_pending());
    assert!(!jm.has_done());
}
