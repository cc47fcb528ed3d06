use atris::state::{BitRange, State};

#[test]
fn get_from_extracts_ranges() {
    assert_eq!(State::get_from(0b11_10011_01u64, BitRange { pos: 2, len: 5 }), 0b10011u64);
    assert_eq!(State::get_from(0b1110011_01u64, BitRange { pos: 2, len: 0 }), 0u64);
    assert_eq!(State::get_from(0b11_10_01101u64, BitRange { pos: 5, len: 2 }), 0b10u64);
    assert_eq!(State::get_from(0b111001_101u64, BitRange { pos: 0, len: 3 }), 0b101u64);
}

#[test]
fn set_to_replaces_ranges() {
    assert_eq!(
        State::set_to(0b11_10011_01u64, BitRange { pos: 2, len: 5 }, 0b01000u64),
        0b11_01000_01u64
    );
    assert_eq!(
        State::set_to(0b1110011_01u64, BitRange { pos: 2, len: 0 }, 0b11u64),
        0b1110011_01u64
    );
    assert_eq!(
        State::set_to(0b11_10_01101u64, BitRange { pos: 5, len: 2 }, 0b00u64),
        0b11_00_01101u64
    );
    assert_eq!(
        State::set_to(0b111001_101u64, BitRange { pos: 0, len: 3 }, 0b110u64),
        0b111001_110u64
    );
}

#[test]
fn instance_get_and_set() {
    let mut state = State::from_value(0b1110_0110_1u64);
    let alive = BitRange { pos: 0, len: 1 };
    let age = BitRange { pos: 1, len: 4 };
    let children = BitRange { pos: 5, len: 4 };
    assert_eq!(state.get(alive), 0b1);
    assert_eq!(state.get(age), 0b0110);
    assert_eq!(state.get(children), 0b1110);
    let older = state.get(age) + 2;
    state.set(age, older);
    state.set(alive, 0);
    state.set(children, 0b0100);
    assert_eq!(state.get(alive), 0b0);
    assert_eq!(state.get(age), 0b1000);
    assert_eq!(state.get(children), 0b0100);
    assert_eq!(state.value(), 0b0100_1000_0u64);
}

#[test]
fn new_state_is_zero() {
    let s = State::new();
    assert_eq!(s.value(), 0);
    assert_eq!(s.get(BitRange { pos: 0, len: 64 }), 0);
}

#[test]
fn set_then_get_returns_value_modulo_length() {
    // For any value and in-range bit range, reading back a freshly written
    // range yields the value reduced modulo 2^len.
    let cases: Vec<(u64, u8, u8, u64)> = vec![
        (0xdead_beef_0123_4567, 3, 11, 0x7ff_u64 + 5),
        (0, 0, 0, 12345),
        (u64::MAX, 0, 64, 42),
        (u64::MAX, 63, 1, 3),
        (0x1234, 8, 16, 0xfffff),
    ];
    for (state, pos, len, value) in cases {
        let range = BitRange { pos, len };
        let written = State::set_to(state, range, value);
        let expect = if len == 0 {
            0
        } else if len == 64 {
            value
        } else {
            value % (1u64 << len)
        };
        assert_eq!(State::get_from(written, range), expect);
    }
}

#[test]
fn zero_length_range_is_a_no_op() {
    let state = 0xabcdu64;
    let range = BitRange { pos: 7, len: 0 };
    assert_eq!(State::set_to(state, range, u64::MAX), state);
    assert_eq!(State::get_from(state, range), 0);
}
