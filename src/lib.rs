//! Verified core of a JTAG test-access-port engine and the eFuse SECDED codec
//! used when programming one-time-programmable security fuses.

pub mod ecc;
pub mod jtag;
pub mod efuse;
pub mod phy;
