use jtag_efuse::efuse::{BurnConfig, EfuseApi, CNTL_BASE, USER_BASE};
use jtag_efuse::jtag::{JtagChain, JtagLeg, JtagMach, JtagPhy};
use jtag_efuse::phy::TracePhy;

fn config() -> BurnConfig {
    BurnConfig {
        program_opcode: 0b110000,
        unlock: 0xA08A_2800_0000_0000,
        bank_select: 0xA0A0_0000_0000_0000,
        bit_select_base: 0xA0C0_0000_0000_0000,
        commit: 0xA090_0000_0000_0000,
        settle_us: 12,
    }
}

#[test]
fn jtag_fetch() {
    let mut jm: JtagMach = JtagMach::new();
    let mut jp: TracePhy = TracePhy::new();
    let mut efuse: EfuseApi = EfuseApi::new();
    assert!(efuse.fetch(&mut jm, &mut jp));
    assert_eq!(efuse.phy_key(), [0u8; 32]);
    assert_eq!(efuse.phy_user(), 0);
    assert_eq!(efuse.phy_cntl(), 0);
}

#[test]
fn jtag_burn() {
    let mut jm: JtagMach = JtagMach::new();
    let mut jp: TracePhy = TracePhy::new();
    let mut efuse: EfuseApi = EfuseApi::new();
    efuse.fetch(&mut jm, &mut jp);
    let mut key: [u8; 32] = [0; 32];
    key[0] = 0xB;
    key[31] = 0xF0;
    key[29] = 0x1;
    efuse.set_key(key);
    efuse.set_user(0xA000_0002);
    efuse.set_cntl(0x3);
    assert!(efuse.is_valid());
    assert!(efuse.burn(&mut jm, &mut jp, &config()));
}

#[test]
fn burn_plan_lists_new_bits() {
    let mut efuse = EfuseApi::new();
    let mut key = [0u8; 32];
    key[0] = 0xB;
    key[31] = 0xF0;
    key[29] = 0x1;
    efuse.set_key(key);
    efuse.set_user(0xA000_0002);
    efuse.set_cntl(0x3);
    let plan = efuse.burn_plan();
    let expect: Vec<u32> = vec![
        0, 1, 3, 232, 252, 253, 254, 255,
        USER_BASE + 1, USER_BASE + 29, USER_BASE + 31,
        CNTL_BASE, CNTL_BASE + 1,
    ];
    assert_eq!(plan, expect);
}

#[test]
fn fresh_session_is_valid() {
    let efuse = EfuseApi::new();
    assert!(efuse.is_valid());
    assert!(efuse.burn_plan().is_empty());
}

#[test]
fn burn_on_busy_engine_fails() {
    let mut jm = JtagMach::new();
    let mut jp = TracePhy::new();
    jm.add(JtagLeg::new(JtagChain::DR, "other"));
    let mut efuse = EfuseApi::new();
    efuse.set_user(1);
    assert!(!efuse.burn(&mut jm, &mut jp, &config()));
    assert!(!efuse.fetch(&mut jm, &mut jp));
    assert!(jm.has_pending());
    assert!(jp.rows().is_empty());
}

#[test]
fn burn_trace_grows_with_bits() {
    let mut jm = JtagMach::new();
    let mut jp = TracePhy::new();
    let efuse = EfuseApi::new();
    assert!(efuse.burn(&mut jm, &mut jp, &config()));
    let none = jp.rows().len();
    let mut jm = JtagMach::new();
    let mut jp = TracePhy::new();
    let mut efuse = EfuseApi::new();
    efuse.set_cntl(1);
    assert!(efuse.burn(&mut jm, &mut jp, &config()));
    assert!(jp.rows().len() > none);
}

/// A device whose every fuse reads as burned.
struct AllOnes;

impl JtagPhy for AllOnes {
    fn sync(&mut self, _tdi: bool, _tms: bool) -> bool {
        true
    }

    fn nosync(&mut self, _tdi: bool, _tms: bool, _tck: bool) -> bool {
        true
    }

    fn pause(&mut self, _us: u32) {}
}

#[test]
fn clearing_a_burned_bit_is_invalid() {
    let mut jm = JtagMach::new();
    let mut efuse = EfuseApi::new();
    assert!(efuse.fetch(&mut jm, &mut AllOnes));
    assert_eq!(efuse.phy_key(), [0xFFu8; 32]);
    assert_eq!(efuse.phy_user(), 0xFFFF_FFFF);
    assert_eq!(efuse.phy_cntl(), 0xFF);
    assert!(!efuse.is_valid());
    efuse.set_key([0xFF; 32]);
    efuse.set_user(0xFFFF_FFFF);
    efuse.set_cntl(0xFF);
    assert!(efuse.is_valid());
    assert!(efuse.burn_plan().is_empty());
    efuse.set_user(0xFFFF_FFFE);
    assert!(!efuse.is_valid());
    efuse.set_user(0xFFFF_FFFF);
    let mut key = [0xFFu8; 32];
    key[17] = 0x7F;
    efuse.set_key(key);
    assert!(!efuse.is_valid());
    efuse.set_key([0xFF; 32]);
    efuse.set_cntl(0xFB);
    assert!(!efuse.is_valid());
}

#[test]
fn superset_candidate_is_valid() {
    let mut efuse = EfuseApi::new();
    efuse.set_user(0x8000_0001);
    assert!(efuse.is_valid());
    let mut key = [0u8; 32];
    key[3] = 0x10;
    efuse.set_key(key);
    efuse.set_cntl(0x80);
    assert!(efuse.is_valid());
}

#[test]
fn burn_cycle_counts() {
    // every data write is an instruction leg (13 cycles) and a 64-bit data
    // leg (70 cycles); a bank unlock is three writes; the identity read is
    // 13 + 38 cycles; one wake cycle leaves TestReset
    let cfg = config();
    let mut jm = JtagMach::new();
    let mut jp = TracePhy::new();
    let efuse = EfuseApi::new();
    assert!(efuse.burn(&mut jm, &mut jp, &cfg));
    assert_eq!(jp.rows().len(), 3 * (1 + 249 + 83 + 51));
    assert_eq!(jp.time_us(), 50_000 + 3 * 384);

    let mut jm = JtagMach::new();
    let mut jp = TracePhy::new();
    let mut efuse = EfuseApi::new();
    efuse.set_cntl(0x4);
    assert_eq!(efuse.burn_plan(), vec![CNTL_BASE + 2]);
    assert!(efuse.burn(&mut jm, &mut jp, &cfg));
    assert_eq!(jp.rows().len(), 3 * (1 + 249 + 83 + 249 + 83 + 51));
    assert_eq!(jp.time_us(), 50_000 + 3 * 716 + 2 * 12);
}

#[test]
fn fetch_cycle_count() {
    let mut jm = JtagMach::new();
    let mut jp = TracePhy::new();
    let mut efuse = EfuseApi::new();
    assert!(efuse.fetch(&mut jm, &mut jp));
    // wake, then three reads of 256, 32 and 32 bits, each n + 19 cycles
    assert_eq!(jp.rows().len(), 3 * (1 + 275 + 51 + 51));
}
