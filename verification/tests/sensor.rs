use ina219::address::Address;
use ina219::calibration::{IntCalibration, MicroAmpere};
use power_meter::sensor::{current_lsb_ua, narrow, sensor_setup, shunt_uohm, SetupError};
use power_meter::single::Single;

fn s(x: f32) -> Single {
    Single::from_bits(x.to_bits())
}

fn next(state: &mut u64) -> u32 {
    *state = state.wrapping_mul(6364136223846793005).wrapping_add(1442695040888963407);
    (*state >> 32) as u32
}

#[test]
fn constants_of_a_two_ampere_range() {
    assert_eq!(current_lsb_ua(s(2.0)), 61);
    assert_eq!(shunt_uohm(s(0.1)), 100_000);
    let setup = sensor_setup(61, 100_000, 0x44);
    assert!(setup.is_ok());
    let setup = setup.ok().unwrap();
    assert_eq!(setup.current_lsb_ua, 61);
    assert_eq!(setup.r_shunt_uohm, 100_000);
    assert_eq!(setup.address_byte, 0x44);
    assert_eq!(setup.address.as_byte(), 0x44);
    assert_eq!(setup.calibration.current_lsb(), MicroAmpere(61));
    assert_eq!(setup.calibration.r_shunt_uohm(), 100_000);
    assert_eq!(Some(setup.calibration), IntCalibration::new(MicroAmpere(61), 100_000));
}

#[test]
fn constants_match_machine_arithmetic() {
    let mut state: u64 = 41;
    for _ in 0..100000 {
        let x = f32::from_bits(next(&mut state));
        assert_eq!(current_lsb_ua(s(x)), (x * 1_000_000.0 / 32768.0) as i64, "{}", x);
        assert_eq!(shunt_uohm(s(x)), (x * 1_000_000.0) as u32, "{}", x);
    }
    for x in [f32::NAN, f32::INFINITY, f32::NEG_INFINITY, -0.0, 1.0e30, -1.0e30, 3.0e17, -3.0e17] {
        assert_eq!(current_lsb_ua(s(x)), (x * 1_000_000.0 / 32768.0) as i64, "{}", x);
        assert_eq!(shunt_uohm(s(x)), (x * 1_000_000.0) as u32, "{}", x);
    }
}

#[test]
fn setup_refuses_what_the_sensor_cannot_take() {
    assert!(matches!(sensor_setup(-1, 100_000, 0x44), Err(SetupError::Calibration)));
    assert!(matches!(sensor_setup(0, 100_000, 0x44), Err(SetupError::Calibration)));
    assert!(matches!(sensor_setup(61, 0, 0x44), Err(SetupError::Calibration)));
    assert!(matches!(sensor_setup(i64::MAX, u32::MAX, 0x44), Err(SetupError::Calibration)));
    assert!(matches!(sensor_setup(i64::MIN, u32::MAX, 0x44), Err(SetupError::Calibration)));
    assert!(matches!(sensor_setup(61, 100_000, 0x3f), Err(SetupError::Address)));
    assert!(matches!(sensor_setup(61, 100_000, 0x50), Err(SetupError::Address)));
    assert!(matches!(sensor_setup(61, 100_000, 42), Err(SetupError::Address)));
    assert!(matches!(sensor_setup(-1, 100_000, 42), Err(SetupError::Calibration)));
}

#[test]
fn setup_at_the_edges_of_the_range() {
    assert!(sensor_setup(625_009, 1, 0x40).is_ok());
    assert!(sensor_setup(625_008, 1, 0x40).is_err());
    assert!(sensor_setup(1, 625_009, 0x4f).is_ok());
    assert!(sensor_setup(20_480_000_000, 1, 0x4f).is_ok());
    assert!(sensor_setup(20_480_000_001, 1, 0x4f).is_err());
    assert!(sensor_setup(10, 2_048_000_000, 0x40).is_ok());
    assert!(sensor_setup(10, 2_048_000_001, 0x40).is_err());
}

#[test]
fn setup_agrees_with_the_driver() {
    let mut state: u64 = 42;
    for _ in 0..100000 {
        let lsb = match next(&mut state) % 3 {
            0 => (next(&mut state) % 200_000) as i64 - 1000,
            1 => (next(&mut state) % 300) as i64,
            _ => (next(&mut state) as i64) << (next(&mut state) % 3),
        };
        let shunt = match next(&mut state) % 3 {
            0 => next(&mut state) % 400_000,
            1 => next(&mut state) % 300,
            _ => next(&mut state),
        };
        let byte = (next(&mut state) % 256) as u8;
        let got = sensor_setup(lsb, shunt, byte);
        if lsb >= 0 && (lsb as u64).checked_mul(shunt as u64).is_none() {
            assert!(matches!(got, Err(SetupError::Calibration)));
            continue;
        }
        let calibration = IntCalibration::new(MicroAmpere(lsb), shunt);
        let address = Address::from_byte(byte);
        match got {
            Ok(setup) => {
                assert_eq!(Some(setup.calibration), calibration);
                assert_eq!(Ok(setup.address), address);
                assert_eq!(setup.current_lsb_ua, lsb);
                assert_eq!(setup.r_shunt_uohm, shunt);
                assert_eq!(setup.address_byte, byte);
                assert_eq!(setup.calibration.current_lsb(), MicroAmpere(lsb));
                assert_eq!(setup.calibration.r_shunt_uohm(), shunt);
                assert_eq!(setup.address.as_byte(), byte);
            }
            Err(SetupError::Calibration) => assert!(calibration.is_none()),
            Err(SetupError::Address) => assert!(calibration.is_some() && address.is_err()),
        }
    }
}

#[test]
fn readings_are_cut_to_32_bits() {
    assert_eq!(narrow(5000, 500_000, 2_500_000), (5000, 500_000, 2_500_000));
    assert_eq!(narrow(u16::MAX, -61, -1220), (65535, -61, -1220));
    assert_eq!(narrow(0, 0x1_0000_0005, -0x1_0000_0005), (0, 5, -5));
    assert_eq!(narrow(0, i64::MAX, i64::MIN), (0, -1, 0));
}
