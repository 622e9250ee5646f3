use trustmark::bits::{Bits, Error, Version};

const FRAME: &str = "1011011110011000111111000000011111011111011100000110110110111000110010101101111010011011000010000001";
const PAYLOAD: &str = "1011011110011000111111000000011111011111011100000110110110111";

#[test]
fn get_version() {
    let input = FRAME.to_owned();
    let bits = Bits(input);
    assert_eq!(bits.get_version(), Version::Bch5);
}

#[test]
fn get_data() {
    let input = FRAME.to_owned();
    let bits = Bits(input);
    assert_eq!(bits.get_data(), PAYLOAD);
}

#[test]
fn new() {
    let input = FRAME.to_owned();
    let bits = Bits::new(input).unwrap();
    assert_eq!(bits.get_data(), PAYLOAD);
}

#[test]
fn fully_corrupted() {
    let input = "0000000000000000000000000000000000000000000100000110110110111000110010101101111010011011000010000001".to_owned();
    let err = Bits::new(input).unwrap_err();
    assert_eq!(err.to_string(), "corrupt watermark");
}

#[test]
fn single_bitflip() {
    let input = "0011011110011000111111000000011111011111011100000110110110111000110010101101111010011011000010000001".to_owned();
    let bits = Bits::new(input).unwrap();
    assert_eq!(bits.get_data(), PAYLOAD);
}

#[test]
fn single_bitflip_and_corrupted_version() {
    let input = "0011011110011000111111000000011111011111011100000110110110111000110010101101111010011011000010000011".to_owned();
    let bits = Bits::new(input).unwrap();
    assert_eq!(bits.get_data(), PAYLOAD);
}

#[test]
fn invalid_bitstring() {
    let err =
        Bits::apply_error_correction_and_schema("hello".to_string(), Version::Bch5).unwrap_err();
    assert!(matches!(err, Error::InvalidChar));
}

#[test]
fn too_long_input() {
    let err = Bits::apply_error_correction_and_schema("0".repeat(200), Version::Bch5).unwrap_err();
    assert!(matches!(err, Error::InvalidDataLength { .. }));
}

#[test]
fn corrupt() {
    let err = Bits::new("1".repeat(100)).unwrap_err();
    assert!(matches!(err, Error::CorruptWatermark));
}

const VERSIONS: [Version; 4] = [Version::BchSuper, Version::Bch5, Version::Bch4, Version::Bch3];

fn payloads(v: Version) -> Vec<String> {
    let db = v.data_bits() as usize;
    let mut out = vec![
        String::new(),
        "1".to_owned(),
        "0".repeat(db),
        "1".repeat(db),
        PAYLOAD[..db.min(PAYLOAD.len())].to_owned(),
    ];
    let alternating: String = (0..db).map(|i| if i % 3 == 0 { '1' } else { '0' }).collect();
    out.push(alternating);
    out
}

fn flip(s: &str, i: usize) -> String {
    s.chars()
        .enumerate()
        .map(|(j, c)| if j == i { if c == '0' { '1' } else { '0' } } else { c })
        .collect()
}

#[test]
fn framed_round_trip_every_version() {
    for v in VERSIONS {
        let db = v.data_bits() as usize;
        for p in payloads(v) {
            let frame = Bits::apply_error_correction_and_schema(p.clone(), v).unwrap();
            let decoded = Bits::new(frame.0.clone()).unwrap();
            let mut expected = p.clone();
            expected.push_str(&"0".repeat(db - p.len()));
            assert_eq!(decoded.get_data(), expected);
        }
    }
}

#[test]
fn frame_layout_every_version() {
    for v in VERSIONS {
        for p in payloads(v) {
            let frame = Bits::apply_error_correction_and_schema(p.clone(), v).unwrap();
            let s = frame.0.clone();
            assert_eq!(s.len(), 100);
            assert!(s.chars().all(|c| c == '0' || c == '1'));
            assert_eq!(&s[96..98], "00");
            assert_eq!(&s[96..], v.bitstring());
            assert_eq!(&s[..p.len()], p);
            assert_eq!(frame.get_version(), v);
        }
    }
}

#[test]
fn known_frame_is_reproduced() {
    let frame = Bits::apply_error_correction_and_schema(PAYLOAD.to_owned(), Version::Bch5).unwrap();
    assert_eq!(frame.0, FRAME);
}

fn check_corrections(v: Version, flips: usize) {
    let db = v.data_bits() as usize;
    for p in payloads(v) {
        let frame = Bits::apply_error_correction_and_schema(p.clone(), v).unwrap().0;
        let mut expected = p.clone();
        expected.push_str(&"0".repeat(db - p.len()));
        for start in [0usize, 7, 30] {
            let mut damaged = frame.clone();
            for k in 0..flips {
                damaged = flip(&damaged, (start + 11 * k) % 96);
            }
            let decoded = Bits::new(damaged).unwrap();
            assert_eq!(decoded.get_data(), expected, "{v:?} {flips} flips from {start}");
        }
    }
}

#[test]
fn corrections_bch3() {
    for flips in 1..=3 {
        check_corrections(Version::Bch3, flips);
    }
}

#[test]
fn corrections_bch4() {
    for flips in 1..=4 {
        check_corrections(Version::Bch4, flips);
    }
}

#[test]
fn corrections_bch5() {
    for flips in 1..=5 {
        check_corrections(Version::Bch5, flips);
    }
}

#[test]
fn many_flips_fail_or_give_a_frame() {
    let frame = Bits::apply_error_correction_and_schema(PAYLOAD.to_owned(), Version::Bch5).unwrap().0;
    let mut damaged = frame.clone();
    for k in 0..20 {
        damaged = flip(&damaged, 3 * k);
    }
    match Bits::new(damaged) {
        Err(e) => assert_eq!(e, Error::CorruptWatermark),
        Ok(b) => assert_eq!(b.0.len(), 100),
    }
}

#[test]
fn new_rejects_bad_input() {
    assert_eq!(Bits::new("01x".to_owned()).unwrap_err(), Error::InvalidChar);
    assert_eq!(Bits::new("0101".to_owned()).unwrap_err(), Error::InvalidLength);
    assert_eq!(Bits::new("0".repeat(101)).unwrap_err(), Error::InvalidLength);
}

#[test]
fn data_length_error_fields_and_message() {
    let err = Bits::apply_error_correction_and_schema("0".repeat(200), Version::Bch5).unwrap_err();
    assert_eq!(err, Error::InvalidDataLength { version_allows: 61, bits: 200 });
    assert_eq!(
        err.to_string(),
        "input bitstring (200 bits) has more bits than version allows (61 bits)"
    );
    let err = Bits::apply_error_correction_and_schema("1".repeat(41), Version::BchSuper).unwrap_err();
    assert_eq!(err, Error::InvalidDataLength { version_allows: 40, bits: 41 });
    assert!(Bits::apply_error_correction_and_schema("1".repeat(40), Version::BchSuper).is_ok());
}

#[test]
fn version_tables() {
    let expected = [(8u8, 40u16, 56u16, "0000"), (5, 61, 35, "0001"), (4, 68, 28, "0010"), (3, 75, 21, "0011")];
    for (v, (t, db, eb, tag)) in VERSIONS.iter().zip(expected) {
        assert_eq!(v.allowed_bit_flips(), t);
        assert_eq!(v.data_bits(), db);
        assert_eq!(v.ecc_bits(), eb);
        assert_eq!(v.bitstring(), tag);
        assert_eq!(Version::from_bitstring(tag).unwrap(), *v);
    }
    assert_eq!(Version::from_bitstring("0100").unwrap_err(), Error::InvalidVersion);
    assert_eq!(Version::from_bitstring("001").unwrap_err(), Error::InvalidVersion);
}

#[test]
fn version_names() {
    for v in VERSIONS {
        assert_eq!(v.name().parse::<Version>().unwrap(), v);
    }
    assert_eq!("BCH_SUPER".parse::<Version>().unwrap(), Version::BchSuper);
    assert_eq!("BCH_5".parse::<Version>().unwrap(), Version::Bch5);
    assert_eq!("BCH_6".parse::<Version>().unwrap_err(), Error::InvalidVersion);
}

#[test]
fn logits_to_frame() {
    let negative: Vec<bool> = FRAME.chars().map(|c| c == '0').collect();
    let bits = Bits::from_negative_logits(&negative).unwrap();
    assert_eq!(bits.bit_values(), FRAME.chars().map(|c| c == '1').collect::<Vec<bool>>());
    assert_eq!(bits.get_data(), PAYLOAD);
    assert_eq!(Bits::from_negative_logits(&vec![true; 3]).unwrap_err(), Error::InvalidLength);
}
