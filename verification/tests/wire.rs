use arena_core::player::Player;
use arena_core::wire::{decode, encode, DecodeError};

fn record(id: &str, x: f32, y: f32, angle: f32, just_shot: bool, health: i32) -> Player {
    Player {
        id: String::from(id),
        position: (x.to_bits(), y.to_bits()),
        angle: angle.to_bits(),
        just_shot,
        current_health: health,
    }
}

fn same(a: &Player, b: &Player) -> bool {
    a.id == b.id
        && a.position == b.position
        && a.angle == b.angle
        && a.just_shot == b.just_shot
        && a.current_health == b.current_health
}

fn as_tuple(p: &Player) -> (String, (f32, f32), f32, bool, i32) {
    (
        p.id.clone(),
        (f32::from_bits(p.position.0), f32::from_bits(p.position.1)),
        f32::from_bits(p.angle),
        p.just_shot,
        p.current_health,
    )
}

fn samples() -> Vec<Player> {
    vec![
        record("abcde1", 0.0, 0.0, 0.0, false, 1000),
        record("qwerty", -1000.0, 0.0, 1.5707964, true, 800),
        record("", 1.0e-20, -3.5e12, -3.1415927, false, 0),
        record("zo\u{eb} \u{4e16}\u{754c} \u{1f680}", 4999.5, -4999.5, 0.1, true, -200),
        record("x", f32::MAX, f32::MIN_POSITIVE, f32::INFINITY, false, i32::MIN),
        record("y", -0.0, f32::NEG_INFINITY, 2.0, true, i32::MAX),
    ]
}

#[test]
fn encode_gives_the_documented_bytes() {
    let p = record("abcde1", 1.0, -2.5, 0.5, true, 800);
    let expected: Vec<u8> = vec![
        6, 0, 0, 0, 0, 0, 0, 0, // length of the id
        b'a', b'b', b'c', b'd', b'e', b'1', // the id
        0x00, 0x00, 0x80, 0x3f, // 1.0
        0x00, 0x00, 0x20, 0xc0, // -2.5
        0x00, 0x00, 0x00, 0x3f, // 0.5
        1, // just shot
        0x20, 0x03, 0x00, 0x00, // 800
    ];
    assert_eq!(encode(&p), expected);
}

#[test]
fn encode_writes_negative_health_in_twos_complement() {
    let p = record("", 0.0, 0.0, 0.0, false, -200);
    let bytes = encode(&p);
    assert_eq!(bytes.len(), 25);
    assert_eq!(&bytes[21..], &[0x38, 0xff, 0xff, 0xff]);
    let lowest = encode(&record("", 0.0, 0.0, 0.0, false, i32::MIN));
    assert_eq!(&lowest[21..], &[0x00, 0x00, 0x00, 0x80]);
}

#[test]
fn encoded_length_is_the_id_and_twenty_five_bytes() {
    for p in samples() {
        assert_eq!(encode(&p).len(), 8 + p.id.len() + 17);
    }
}

#[test]
fn decode_returns_what_was_encoded() {
    for p in samples() {
        let back = decode(&encode(&p)).expect("an encoded record decodes");
        assert!(same(&p, &back));
    }
}

#[test]
fn floats_cross_the_wire_bit_for_bit() {
    let nan = f32::from_bits(0x7fc0_1234);
    let p = record("nan", nan, -0.0, 1.0e-45, false, 600);
    let back = decode(&encode(&p)).unwrap();
    assert_eq!(back.position.0, 0x7fc0_1234);
    assert_eq!(back.position.1, 0x8000_0000);
    assert_eq!(back.angle, 1);
    assert_eq!(f32::from_bits(back.position.1).to_bits(), (-0.0f32).to_bits());
}

#[test]
fn decode_ignores_what_follows_the_record() {
    for p in samples() {
        let mut bytes = encode(&p);
        bytes.extend_from_slice(&[0xff, 0x00, 0x7f]);
        let back = decode(&bytes).expect("trailing bytes are ignored");
        assert!(same(&p, &back));
    }
}

#[test]
fn decode_reads_the_first_of_two_records() {
    let first = record("first1", 1.0, 2.0, 3.0, true, 400);
    let second = record("second", 4.0, 5.0, 6.0, false, 200);
    let mut bytes = encode(&first);
    bytes.extend_from_slice(&encode(&second));
    assert!(same(&decode(&bytes).unwrap(), &first));
}

#[test]
fn decode_rejects_every_proper_prefix() {
    for p in samples() {
        let bytes = encode(&p);
        for cut in 0..bytes.len() {
            assert_eq!(decode(&bytes[..cut]).err(), Some(DecodeError::UnexpectedEnd));
        }
    }
}

#[test]
fn decode_rejects_nothing_at_all() {
    assert_eq!(decode(&[]).err(), Some(DecodeError::UnexpectedEnd));
}

#[test]
fn decode_rejects_a_length_beyond_the_bytes() {
    let mut bytes = encode(&record("abcde1", 0.0, 0.0, 0.0, false, 1000));
    bytes[0] = 200;
    assert_eq!(decode(&bytes).err(), Some(DecodeError::UnexpectedEnd));
    let huge = [0xff; 40];
    assert_eq!(decode(&huge).err(), Some(DecodeError::UnexpectedEnd));
}

#[test]
fn decode_rejects_an_id_that_is_not_utf8() {
    let mut bytes = encode(&record("abcde1", 0.0, 0.0, 0.0, false, 1000));
    bytes[8] = 0xff;
    assert_eq!(decode(&bytes).err(), Some(DecodeError::InvalidText));
    let mut cut_short = encode(&record("\u{4e16}", 0.0, 0.0, 0.0, false, 1000));
    cut_short[10] = b'a';
    assert_eq!(decode(&cut_short).err(), Some(DecodeError::InvalidText));
}

#[test]
fn decode_rejects_a_flag_that_is_neither_zero_nor_one() {
    let mut bytes = encode(&record("abcde1", 0.0, 0.0, 0.0, true, 1000));
    let flag_at = 8 + 6 + 12;
    assert_eq!(bytes[flag_at], 1);
    bytes[flag_at] = 2;
    assert_eq!(decode(&bytes).err(), Some(DecodeError::InvalidFlag(2)));
    bytes[flag_at] = 0xff;
    assert_eq!(decode(&bytes).err(), Some(DecodeError::InvalidFlag(0xff)));
}

#[test]
fn decode_reports_the_first_fault_met() {
    // The id is malformed and the bytes end early: the id is read first.
    let mut bytes = encode(&record("abcde1", 0.0, 0.0, 0.0, false, 1000));
    bytes[8] = 0x80;
    bytes.truncate(8 + 6 + 3);
    assert_eq!(decode(&bytes).err(), Some(DecodeError::InvalidText));
    // The flag is malformed and the health is missing: the flag is read first.
    let mut bytes = encode(&record("abcde1", 0.0, 0.0, 0.0, false, 1000));
    bytes[8 + 6 + 12] = 7;
    bytes.truncate(8 + 6 + 13);
    assert_eq!(decode(&bytes).err(), Some(DecodeError::InvalidFlag(7)));
}

#[test]
fn encode_agrees_with_bincode() {
    for p in samples() {
        let theirs = bincode::serialize(&as_tuple(&p)).unwrap();
        assert_eq!(encode(&p), theirs);
    }
}

#[test]
fn decode_agrees_with_bincode_on_records() {
    for p in samples() {
        let mut bytes = bincode::serialize(&as_tuple(&p)).unwrap();
        bytes.push(9);
        let ours = decode(&bytes).unwrap();
        let theirs: (String, (u32, u32), u32, bool, i32) = bincode::deserialize(&bytes).unwrap();
        assert_eq!(ours.id, theirs.0);
        assert_eq!(ours.position, theirs.1);
        assert_eq!(ours.angle, theirs.2);
        assert_eq!(ours.just_shot, theirs.3);
        assert_eq!(ours.current_health, theirs.4);
    }
}

#[test]
fn decode_agrees_with_bincode_on_faults() {
    let good = encode(&record("abcde1", 1.0, 2.0, 3.0, true, 800));
    let mut cases: Vec<Vec<u8>> = Vec::new();
    for cut in 0..good.len() {
        cases.push(good[..cut].to_vec());
    }
    for at in 0..good.len() {
        for value in [0x00u8, 0x02, 0x7f, 0x80, 0xc3, 0xff] {
            let mut changed = good.clone();
            changed[at] = value;
            cases.push(changed);
        }
    }
    for bytes in cases {
        let ours = decode(&bytes);
        let theirs: Result<(String, (u32, u32), u32, bool, i32), _> = bincode::deserialize(&bytes);
        match (ours, theirs) {
            (Ok(a), Ok(b)) => {
                assert_eq!(a.id, b.0);
                assert_eq!(a.position, b.1);
                assert_eq!(a.angle, b.2);
                assert_eq!(a.just_shot, b.3);
                assert_eq!(a.current_health, b.4);
            }
            (Err(_), Err(_)) => {}
            (ours, theirs) => panic!(
                "disagreement on {:?}: {:?} against {:?}",
                bytes,
                ours.map(|p| p.id),
                theirs.map(|t| t.0)
            ),
        }
    }
}
