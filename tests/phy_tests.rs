use jtag_efuse::jtag::JtagPhy;
use jtag_efuse::phy::{nosync_byte, response_bit, sync_byte, JtagUartPhy, TracePhy, UartLink, TRACE_START_US};

struct Loop {
    sent: Vec<u8>,
    reply: u8,
    waited: u32,
}

impl UartLink for Loop {
    fn write(&mut self, byte: u8) {
        self.sent.push(byte);
    }

    fn read(&mut self) -> u8 {
        self.reply
    }

    fn delay_us(&mut self, us: u32) {
        self.waited += us;
    }
}

#[test]
fn control_bytes() {
    assert_eq!(sync_byte(false, false), 0x60);
    assert_eq!(sync_byte(true, false), 0x61);
    assert_eq!(sync_byte(false, true), 0x62);
    assert_eq!(sync_byte(true, true), 0x63);
    assert_eq!(nosync_byte(false, false, false), 0x40);
    assert_eq!(nosync_byte(true, true, true), 0x47);
    assert_eq!(nosync_byte(false, false, true), 0x44);
}

#[test]
fn response_byte() {
    assert!(response_bit(0x31));
    assert!(!response_bit(0x30));
    assert!(!response_bit(1));
}

#[test]
fn uart_phy_round_trip() {
    let mut phy = JtagUartPhy::new(Loop { sent: Vec::new(), reply: 0x31, waited: 0 });
    assert!(phy.sync(true, false));
    assert!(phy.nosync(false, true, true));
    phy.pause(7);
    let mut phy = JtagUartPhy::new(Loop { sent: Vec::new(), reply: b'0', waited: 0 });
    assert!(!phy.sync(true, true));
}

#[test]
fn trace_rows_per_cycle() {
    let mut phy = TracePhy::new();
    assert_eq!(phy.time_us(), TRACE_START_US);
    assert!(!phy.sync(true, false));
    assert!(!phy.sync(false, true));
    let rows = phy.rows();
    assert_eq!(rows.len(), 6);
    assert_eq!(rows[0].time_us, TRACE_START_US + 1);
    assert!(!rows[0].clk && rows[1].clk && !rows[2].clk);
    assert!(rows[0].tdi && !rows[0].tms);
    assert!(rows[3].tms && !rows[3].tdi);
    assert_eq!(rows[5].time_us, TRACE_START_US + 6);
    assert!(rows.iter().all(|r| !r.tdo));
    phy.pause(100);
    assert_eq!(phy.time_us(), TRACE_START_US + 106);
}
