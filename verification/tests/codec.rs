use conways::codec::MalformedTemplate;
use conways::codec::decode;
use conways::world::World;

fn board_with(width: u16, height: u16, cells: Vec<(u16, u16)>) -> World {
    let mut w = World::create(width, height);
    w.replace_alive(cells);
    w
}

fn sorted_alive(w: &World) -> Vec<(u16, u16)> {
    let mut v = w.alive.clone();
    v.sort();
    v
}

#[test]
fn encode_empty_board_is_bare_header() {
    let w = World::create(3, 2);
    assert_eq!(w.encode(), b"3,2".to_vec());
}

#[test]
fn encode_lists_cells_in_order() {
    let w = board_with(42, 22, vec![(1, 2), (0, 0), (21, 41)]);
    assert_eq!(w.encode(), b"42,22;1,2;0,0;21,41".to_vec());
}

#[test]
fn decode_reads_dimensions_and_cells() {
    let b = decode(&b"9,7;5,4;5,5".to_vec()).unwrap();
    assert_eq!(b.width, 9);
    assert_eq!(b.height, 7);
    assert_eq!(sorted_alive(&b), vec![(5, 4), (5, 5)]);
}

#[test]
fn round_trip_returns_the_same_board() {
    let w = board_with(42, 22, vec![(9, 18), (0, 0), (21, 41), (3, 3)]);
    let b = decode(&w.encode()).unwrap();
    assert_eq!(b.width, w.width);
    assert_eq!(b.height, w.height);
    assert_eq!(sorted_alive(&b), sorted_alive(&w));
}

#[test]
fn round_trip_of_the_empty_board() {
    let w = World::create(0, 0);
    let b = decode(&w.encode()).unwrap();
    assert_eq!(b.width, 0);
    assert_eq!(b.height, 0);
    assert!(b.alive.is_empty());
}

#[test]
fn round_trip_of_the_pulsar() {
    let w = World::pulsar();
    let b = decode(&w.encode()).unwrap();
    assert_eq!(sorted_alive(&b), sorted_alive(&w));
}

#[test]
fn decode_empty_text_is_malformed() {
    assert!(matches!(decode(&b"".to_vec()), Err(MalformedTemplate)));
}

#[test]
fn decode_non_numeric_tokens_is_malformed() {
    assert!(matches!(decode(&b"abc".to_vec()), Err(MalformedTemplate)));
    assert!(matches!(decode(&b"4,x".to_vec()), Err(MalformedTemplate)));
    assert!(matches!(decode(&b"4,4;a,b".to_vec()), Err(MalformedTemplate)));
}

#[test]
fn decode_missing_pieces_is_malformed() {
    assert!(matches!(decode(&b"4".to_vec()), Err(MalformedTemplate)));
    assert!(matches!(decode(&b"4,".to_vec()), Err(MalformedTemplate)));
    assert!(matches!(decode(&b"4,4;".to_vec()), Err(MalformedTemplate)));
    assert!(matches!(decode(&b"4,4;1".to_vec()), Err(MalformedTemplate)));
    assert!(matches!(decode(&b"4,4;1,".to_vec()), Err(MalformedTemplate)));
    assert!(matches!(decode(&b"4,4;;1,1".to_vec()), Err(MalformedTemplate)));
}

#[test]
fn decode_extra_separators_are_malformed() {
    assert!(matches!(decode(&b"4,4,4".to_vec()), Err(MalformedTemplate)));
    assert!(matches!(decode(&b"4,4;1,1 ".to_vec()), Err(MalformedTemplate)));
}

#[test]
fn decode_leading_zero_is_malformed() {
    assert!(matches!(decode(&b"04,4".to_vec()), Err(MalformedTemplate)));
    assert!(matches!(decode(&b"4,4;01,1".to_vec()), Err(MalformedTemplate)));
}

#[test]
fn decode_zero_itself_is_fine() {
    let b = decode(&b"4,4;0,0".to_vec()).unwrap();
    assert!(b.is_alive(0, 0));
}

#[test]
fn decode_oversized_number_is_malformed() {
    assert!(matches!(decode(&b"65536,4".to_vec()), Err(MalformedTemplate)));
    assert!(matches!(decode(&b"4,4;1,99999999999999999999".to_vec()), Err(MalformedTemplate)));
}

#[test]
fn decode_sixteen_bit_limit_is_inclusive() {
    let b = decode(&b"65535,65535;65535,65535".to_vec()).unwrap();
    assert_eq!(b.width, 65535);
    assert!(b.is_alive(65535, 65535));
}

#[test]
fn decode_does_not_validate_cell_bounds() {
    let b = decode(&b"3,3;100,100".to_vec()).unwrap();
    assert!(b.is_alive(100, 100));
}
