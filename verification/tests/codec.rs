use snake_compression::codec::{pack_values, unpack_values, UnpackError};
use snake_compression::direction::Direction;
use snake_compression::pos::Pos;

#[test]
fn snake_compression_test_pack_values() {
    assert_eq!(
        pack_values(&[Direction::Up, Direction::Right, Direction::Down]).0,
        vec![0b00_11_01_00]
    );
}

#[test]
fn snake_compression_test_unpack_values() {
    assert_eq!(
        unpack_values(&vec![0b00_11_01_00], 3).unwrap(),
        vec![Direction::Up, Direction::Right, Direction::Down]
    );
}

#[test]
fn test_pack_unpack_values() {
    let (packed, values_in_last_byte) =
        pack_values(&[Direction::Right, Direction::Right, Direction::Down]);
    assert_eq!(packed, vec![0b11_11_01_00]);

    assert_eq!(
        unpack_values(&vec![0b11_11_01_00], values_in_last_byte).unwrap(),
        vec![Direction::Right, Direction::Right, Direction::Down]
    );
}

#[test]
fn pack_unpack_values_test_pack_unpack_values() {
    let cases: Vec<(Vec<Direction>, Vec<u8>, u8)> = vec![
        (
            vec![Direction::Right, Direction::Right, Direction::Down],
            vec![0b11_11_01_00],
            3,
        ),
        (
            vec![
                Direction::Right,
                Direction::Right,
                Direction::Down,
                Direction::Left,
            ],
            vec![0b11_11_01_10],
            4,
        ),
        (vec![], vec![], 0),
        (
            vec![
                Direction::Right,
                Direction::Down,
                Direction::Left,
                Direction::Left,
                Direction::Down,
                Direction::Right,
            ],
            vec![0b11_01_10_10, 0b01_11_00_00],
            2,
        ),
    ];

    for (directions, expected_packing, expected_directions_encoded_in_last_byte) in cases {
        let (packed, values_in_last_byte) = pack_values(&directions);
        assert_eq!(packed.as_slice(), expected_packing.as_slice());
        assert_eq!(values_in_last_byte, expected_directions_encoded_in_last_byte);

        assert_eq!(
            unpack_values(packed.as_slice(), values_in_last_byte)
                .unwrap()
                .as_slice(),
            directions.as_slice()
        );
    }
}

#[test]
fn pack_values_test_pack_values() {
    assert_eq!(
        pack_values(&[Direction::Right, Direction::Right, Direction::Down]).0,
        vec![0b11_11_01_00]
    );
}

#[test]
fn unpack_values_test_unpack_values() {
    assert_eq!(
        unpack_values(&vec![0b00_11_01_00], 3).unwrap(),
        vec![Direction::Up, Direction::Right, Direction::Down]
    );
}

#[test]
fn test_empty_input() {
    let (packed, count) = pack_values(&[]);
    assert_eq!(packed, Vec::<u8>::new());
    assert_eq!(count, 0);
    assert_eq!(unpack_values(&[], 0), Ok(vec![]));
}

#[test]
fn test_round_trip_every_length() {
    let dirs = [
        Direction::Up,
        Direction::Right,
        Direction::Down,
        Direction::Left,
        Direction::Left,
        Direction::Down,
        Direction::Up,
        Direction::Right,
        Direction::Down,
    ];
    for n in 0..=dirs.len() {
        let input: Vec<Direction> = dirs[..n].to_vec();
        let (packed, count) = pack_values(&input);
        assert_eq!(unpack_values(&packed, count).unwrap(), input);
    }
}

#[test]
fn test_pack_length_and_count() {
    let dirs = vec![Direction::Left; 9];
    for n in 0..=9usize {
        let (packed, count) = pack_values(&dirs[..n]);
        assert_eq!(packed.len(), (n + 3) / 4);
        let expected_count = if n == 0 {
            0
        } else if n % 4 == 0 {
            4
        } else {
            (n % 4) as u8
        };
        assert_eq!(count, expected_count);
    }
}

#[test]
fn test_padding_bits_are_zero() {
    for n in 1..=9usize {
        if n % 4 == 0 {
            continue;
        }
        let dirs = vec![Direction::Right; n];
        let (packed, count) = pack_values(&dirs);
        let last = *packed.last().unwrap();
        let padding_bits = 2 * (4 - count as u32);
        assert_eq!(last % (1u8 << padding_bits), 0);
    }
}

#[test]
fn test_encode_decode_bijection() {
    let all = [
        Direction::Up,
        Direction::Down,
        Direction::Left,
        Direction::Right,
    ];
    for d in all {
        assert_eq!(Direction::decode(d.encode()), Some(d));
    }
    let codes: Vec<u8> = all.iter().map(|d| d.encode()).collect();
    assert_eq!(codes, vec![0b00, 0b01, 0b10, 0b11]);
    for c in 0u8..=3 {
        assert_eq!(Direction::decode(c).unwrap().encode(), c);
    }
}

#[test]
fn test_decode_rejects_invalid_code() {
    assert_eq!(Direction::decode(4), None);
    assert_eq!(Direction::decode(0b100), None);
    assert_eq!(Direction::decode(255), None);
}

#[test]
fn test_unpack_rejects_malformed_count() {
    assert_eq!(
        unpack_values(&[0b11_11_01_00], 0),
        Err(UnpackError::MalformedInput)
    );
    assert_eq!(
        unpack_values(&[0b11_11_01_00, 0], 5),
        Err(UnpackError::MalformedInput)
    );
    assert_eq!(unpack_values(&[], 1), Err(UnpackError::MalformedInput));
    assert_eq!(unpack_values(&[], 4), Err(UnpackError::MalformedInput));
}

#[test]
fn test_two_byte_scenario() {
    let input = vec![
        Direction::Right,
        Direction::Down,
        Direction::Left,
        Direction::Left,
        Direction::Down,
        Direction::Right,
    ];
    let (packed, count) = pack_values(&input);
    assert_eq!(packed, vec![0b11_01_10_10, 0b01_11_00_00]);
    assert_eq!(count, 2);
    assert_eq!(unpack_values(&packed, count).unwrap(), input);
}

#[test]
fn test_full_byte_scenario() {
    let (packed, count) = pack_values(&[
        Direction::Right,
        Direction::Right,
        Direction::Down,
        Direction::Left,
    ]);
    assert_eq!(packed, vec![0b11_11_01_10]);
    assert_eq!(count, 4);
}

#[test]
fn test_pos_new() {
    let p = Pos::new(-3, 7);
    assert_eq!(p.x, -3);
    assert_eq!(p.y, 7);
    assert_eq!(p, Pos::new(-3, 7));
}
