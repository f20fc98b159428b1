//! What a current sensor of the INA219 kind is set up with, and what is
//! taken from its readings.
use crate::ieee::{from_nat_spec, product_spec, quotient_spec, truncated, truncated_signed, Format};
use crate::single::Single;
use ina219::address::{Address, OutOfRange};
use ina219::calibration::{IntCalibration, MicroAmpere};
use vstd::prelude::*;

verus! {

/// A calibration of the sensor, as `ina219` holds it.
#[verifier::external_type_specification]
#[verifier::external_body]
pub struct ExIntCalibration(ina219::calibration::IntCalibration);

/// A bus address of the sensor, as `ina219` holds it.
#[verifier::external_type_specification]
#[verifier::external_body]
pub struct ExAddress(ina219::address::Address);

/// The error of `ina219` for a byte that is no address of the sensor.
#[verifier::external_type_specification]
#[verifier::external_body]
pub struct ExOutOfRange(ina219::address::OutOfRange);

/// The least product of the current of the last bit, in microamperes, and the
/// shunt, in microohms, that the sensor can be calibrated for.
pub const LEAST_PRODUCT: u64 = 625_009;

/// The greatest such product.
pub const GREATEST_PRODUCT: u64 = 20_480_000_000;

/// The first bus address of the sensor.
pub const FIRST_ADDRESS: u8 = 0x40;

/// The last bus address of the sensor.
pub const LAST_ADDRESS: u8 = 0x4f;

/// Whether the sensor can be calibrated for a current of the last bit and a
/// shunt.
pub open spec fn calibrates(current_lsb_ua: int, r_shunt_uohm: int) -> bool {
    &&& current_lsb_ua >= 0
    &&& LEAST_PRODUCT <= current_lsb_ua * r_shunt_uohm <= GREATEST_PRODUCT
}

/// Whether a byte is a bus address of the sensor.
pub open spec fn is_address(byte: u8) -> bool {
    FIRST_ADDRESS <= byte <= LAST_ADDRESS
}

/// `IntCalibration::new` of `ina219`: a calibration where the current is not
/// negative and its product with the shunt lies between 40 960 000 000 / 65 535
/// and 40 960 000 000 / 2, else nothing. The product is formed in `u64` and
/// has to fit there.
#[verifier::external_body]
fn new_calibration(current_lsb_ua: i64, r_shunt_uohm: u32) -> (r: Option<IntCalibration>)
    requires
        current_lsb_ua >= 0 ==> current_lsb_ua * r_shunt_uohm <= u64::MAX,
    ensures
        r is Some <==> calibrates(current_lsb_ua as int, r_shunt_uohm as int),
{
    IntCalibration::new(MicroAmpere(current_lsb_ua), r_shunt_uohm)
}

/// `Address::from_byte` of `ina219`: an address for a byte from 0x40 to 0x4f,
/// else its error.
#[verifier::external_body]
fn address_from_byte(byte: u8) -> (r: Result<Address, OutOfRange>)
    ensures
        r is Ok <==> is_address(byte),
{
    Address::from_byte(byte)
}

/// Why a sensor cannot be set up.
#[derive(Clone, Copy, Debug, PartialEq, Eq)]
pub enum SetupError {
    /// The sensor cannot be calibrated for the current and the shunt.
    Calibration,
    /// The byte is no bus address of the sensor.
    Address,
}

/// What a sensor is set up with: the numbers that were asked for, and the
/// values that `ina219` made of them.
pub struct SensorSetup {
    /// The current of the last bit, in microamperes.
    pub current_lsb_ua: i64,
    /// The shunt, in microohms.
    pub r_shunt_uohm: u32,
    /// The bus address as a byte.
    pub address_byte: u8,
    /// The calibration that the driver takes.
    pub calibration: IntCalibration,
    /// The address that the driver takes.
    pub address: Address,
}

/// The current of the last bit in microamperes for the greatest current
/// expected, in amperes: a 32768th of it, without its fraction.
pub open spec fn current_lsb_spec(max_amps: crate::ieee::Value) -> int {
    truncated_signed(
        quotient_spec(
            Format::Single,
            product_spec(Format::Single, max_amps, from_nat_spec(Format::Single, 1_000_000)),
            from_nat_spec(Format::Single, 32_768),
        ),
        i64::MAX as nat,
    )
}

/// The current of the last bit in microamperes for the greatest current
/// expected, in amperes.
pub fn current_lsb_ua(max_amps: Single) -> (r: i64)
    ensures
        r == current_lsb_spec(max_amps@),
{
    max_amps.mul(Single::from_u64(1_000_000)).div(Single::from_u64(32_768)).to_i64()
}

/// A shunt in microohms, from ohms, without its fraction.
pub fn shunt_uohm(shunt_ohms: Single) -> (r: u32)
    ensures
        r == truncated(
            product_spec(Format::Single, shunt_ohms@, from_nat_spec(Format::Single, 1_000_000)),
            u32::MAX as nat,
        ),
{
    shunt_ohms.mul(Single::from_u64(1_000_000)).to_u32()
}

/// The calibration and the address to set a sensor up with: the calibration
/// is looked at first. What comes back holds the three numbers as they were
/// given, beside the driver's values.
pub fn sensor_setup(current_lsb_ua: i64, r_shunt_uohm: u32, address: u8) -> (r: Result<
    SensorSetup,
    SetupError,
>)
    ensures
        r is Ok <==> calibrates(current_lsb_ua as int, r_shunt_uohm as int) && is_address(address),
        r is Ok ==> r->Ok_0.current_lsb_ua == current_lsb_ua && r->Ok_0.r_shunt_uohm
            == r_shunt_uohm && r->Ok_0.address_byte == address,
        r is Err && r->Err_0 == SetupError::Calibration <==> !calibrates(
            current_lsb_ua as int,
            r_shunt_uohm as int,
        ),
        r is Err && r->Err_0 == SetupError::Address <==> calibrates(
            current_lsb_ua as int,
            r_shunt_uohm as int,
        ) && !is_address(address),
{
    if current_lsb_ua >= 0 {
        assert(0 <= current_lsb_ua * r_shunt_uohm <= 0x7fff_ffff_ffff_ffff * 0xffff_ffff)
            by (nonlinear_arith)
            requires
                0 <= current_lsb_ua <= 0x7fff_ffff_ffff_ffff,
                0 <= r_shunt_uohm <= 0xffff_ffff,
        ;
        let product: u128 = (current_lsb_ua as u128) * (r_shunt_uohm as u128);
        if product > GREATEST_PRODUCT as u128 {
            return Err(SetupError::Calibration);
        }
    }
    let calibration: IntCalibration = match new_calibration(current_lsb_ua, r_shunt_uohm) {
        Some(c) => c,
        None => {
            return Err(SetupError::Calibration);
        },
    };
    let bus: Address = match address_from_byte(address) {
        Ok(a) => a,
        Err(_) => {
            return Err(SetupError::Address);
        },
    };
    Ok(
        SensorSetup {
            current_lsb_ua,
            r_shunt_uohm,
            address_byte: address,
            calibration,
            address: bus,
        },
    )
}

/// A reading as the loop takes it: millivolts, microamperes and microwatts,
/// each cut to 32 bits.
pub fn narrow(bus_mv: u16, current_ua: i64, power_uw: i64) -> (r: (i32, i32, i32))
    ensures
        r.0 == bus_mv,
        r.1 == current_ua as i32,
        r.2 == power_uw as i32,
{
    let current: i32 = #[verifier::truncate]
    (current_ua as i32);
    let power: i32 = #[verifier::truncate]
    (power_uw as i32);
    (bus_mv as i32, current, power)
}

} // verus!
