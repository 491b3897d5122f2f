use jtag_efuse::ecc::add_ecc;

#[test]
fn it_works() {
    assert_eq!(2 + 2, 4);
}

#[test]
fn vectors() {
    let inputs: [u32; 7] = [0xFF_FFFD, 0xA003, 0xA00A, 0xF00A, 0xF00F, 0xB00F, 0x00C5_B000];
    let outputs: [u32; 7] = [0x25FFFFFD, 0x2400A003, 0x3600A00A, 0x1E00F00A, 0x1400F00F, 0x3700B00F, 0x2AC5B000];
    for i in 0..inputs.len() {
        assert_eq!(outputs[i], add_ecc(inputs[i]));
    }
}

#[test]
fn gen_test() {
    assert_eq!(0x2708_63C1, add_ecc(0x8_63C1));
    assert_eq!(0x2C02_A541, add_ecc(0x2_A541));
}

#[test]
fn ecc_of_zero_is_zero() {
    assert_eq!(add_ecc(0), 0);
}

#[test]
fn ecc_is_deterministic() {
    for d in [0u32, 1, 0xA003, 0x00FF_FFFF, 0x12_3456] {
        assert_eq!(add_ecc(d), add_ecc(d));
        assert_eq!(add_ecc(d) & 0x00FF_FFFF, d);
        assert_eq!(add_ecc(d) & 0xC000_0000, 0);
    }
}

#[test]
fn ecc_single_bit_records() {
    assert_eq!(add_ecc(0x1), 0x3D00_0001);
    assert_eq!(add_ecc(0x80_0000), 0x3880_0000);
}

#[test]
fn ecc_parity_replaces_bit_five() {
    // the normalized code of 0x10 has bit 5 set and odd parity over its
    // six bits: bit 5 of the transmitted code is that parity, 0
    assert_eq!(add_ecc(0x10), 0x1C00_0010);
}
