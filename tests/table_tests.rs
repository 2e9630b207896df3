use luster_table::table::{highest_bit, to_array_index, InvalidTableKey, TableKey, TableState};
use luster_table::value::{float_to_i64, is_nan, Value};

fn num(f: f64) -> Value {
    Value::Number(f.to_bits())
}

fn text(id: u64) -> Value {
    Value::String(id)
}

#[test]
fn integer_and_float_keys_are_one_key() {
    let mut t = TableState::new();
    assert_eq!(t.set(Value::Integer(5), text(1)), Ok(Value::Nil));
    assert_eq!(t.get(num(5.0)), text(1));
    assert_eq!(t.set(num(0.0), text(2)), Ok(Value::Nil));
    assert_eq!(t.get(num(-0.0)), text(2));
    assert_eq!(t.get(Value::Integer(0)), text(2));
    assert_eq!(t.set(num(5.0), text(3)), Ok(text(1)));
    assert_eq!(t.get(Value::Integer(5)), text(3));
}

#[test]
fn nil_and_nan_keys_are_refused() {
    let mut t = TableState::new();
    t.set(Value::Integer(1), text(1)).unwrap();
    assert_eq!(t.set(Value::Nil, text(2)), Err(InvalidTableKey::IsNil));
    assert_eq!(t.set(num(f64::NAN), text(2)), Err(InvalidTableKey::IsNaN));
    assert_eq!(t.get(Value::Nil), Value::Nil);
    assert_eq!(t.get(num(f64::NAN)), Value::Nil);
    assert_eq!(t.get(Value::Integer(1)), text(1));
    assert_eq!(t.hash_part_len(), 1);
    assert_eq!(t.length(), 1);
}

#[test]
fn error_messages() {
    assert_eq!(InvalidTableKey::IsNaN.message(), "table key is NaN");
    assert_eq!(InvalidTableKey::IsNil.message(), "table key is Nil");
}

#[test]
fn get_after_set_and_clear() {
    let mut t = TableState::new();
    let keys = [
        Value::Boolean(true),
        Value::Integer(-3),
        num(2.5),
        text(9),
        Value::Table(4),
        Value::Function(5),
        Value::Thread(6),
    ];
    for (i, k) in keys.iter().enumerate() {
        assert_eq!(t.set(*k, Value::Integer(i as i64)), Ok(Value::Nil));
    }
    for (i, k) in keys.iter().enumerate() {
        assert_eq!(t.get(*k), Value::Integer(i as i64));
    }
    assert_eq!(t.get(Value::Boolean(false)), Value::Nil);
    assert_eq!(t.set(num(2.5), Value::Nil), Ok(Value::Integer(2)));
    assert_eq!(t.get(num(2.5)), Value::Nil);
    assert_eq!(t.set(num(2.5), Value::Nil), Ok(Value::Nil));
    assert_eq!(t.hash_part_len(), 6);
}

#[test]
fn resetting_a_key_does_not_grow() {
    let mut t = TableState::new();
    t.set(text(1), Value::Integer(1)).unwrap();
    t.set(text(2), Value::Integer(2)).unwrap();
    let before = t.hash_part_len();
    assert_eq!(t.set(text(1), Value::Integer(3)), Ok(Value::Integer(1)));
    assert_eq!(t.hash_part_len(), before);
}

#[test]
fn sequential_keys_move_to_array_part() {
    let mut t = TableState::new();
    for i in 1..=8 {
        assert_eq!(t.set(Value::Integer(i), Value::Integer(i * 100)), Ok(Value::Nil));
    }
    assert_eq!(t.hash_part_len(), 0);
    assert_eq!(t.length(), 8);
    for i in 1..=8 {
        assert_eq!(t.get(Value::Integer(i)), Value::Integer(i * 100));
    }
}

#[test]
fn many_sequential_keys() {
    let mut t = TableState::new();
    for i in 1..=1000 {
        t.set(Value::Integer(i), text(i as u64)).unwrap();
        assert_eq!(t.length(), i);
    }
    for i in 1..=1000 {
        assert_eq!(t.get(num(i as f64)), text(i as u64));
    }
    assert_eq!(t.get(Value::Integer(1001)), Value::Nil);
}

#[test]
fn sequential_keys_from_zero() {
    let mut t = TableState::new();
    for i in 0..50 {
        t.set(Value::Integer(i), Value::Integer(-i)).unwrap();
    }
    for i in 0..50 {
        assert_eq!(t.get(Value::Integer(i)), Value::Integer(-i));
    }
    assert_eq!(t.length(), 49);
}

#[test]
fn length_of_small_tables() {
    let empty = TableState::new();
    assert_eq!(empty.length(), 0);

    let mut seq = TableState::new();
    seq.set(Value::Integer(1), text(1)).unwrap();
    seq.set(Value::Integer(2), text(2)).unwrap();
    seq.set(Value::Integer(3), text(3)).unwrap();
    assert_eq!(seq.length(), 3);

    let mut holes = TableState::new();
    holes.set(Value::Integer(1), text(1)).unwrap();
    holes.set(Value::Integer(2), text(2)).unwrap();
    holes.set(Value::Integer(4), text(4)).unwrap();
    let n = holes.length();
    assert!(n == 2 || n == 4);
}

#[test]
fn length_with_hole_in_array_part() {
    let mut t = TableState::new();
    for i in 1..=8 {
        t.set(Value::Integer(i), Value::Boolean(true)).unwrap();
    }
    assert_eq!(t.hash_part_len(), 0);
    t.set(Value::Integer(8), Value::Nil).unwrap();
    assert_eq!(t.length(), 7);
    t.set(Value::Integer(3), Value::Nil).unwrap();
    let n = t.length();
    assert!(n == 2 || n == 7);
}

#[test]
fn length_searches_hash_part_past_array() {
    let mut t = TableState::new();
    for i in 1..=8 {
        t.set(Value::Integer(i), Value::Boolean(true)).unwrap();
    }
    for i in 9..=12 {
        t.set(Value::Integer(i), Value::Boolean(true)).unwrap();
    }
    assert_eq!(t.hash_part_len(), 4);
    assert_eq!(t.length(), 12);
}

#[test]
fn length_of_extreme_key() {
    let mut t = TableState::new();
    t.set(Value::Integer(i64::MAX), Value::Boolean(true)).unwrap();
    assert_eq!(t.length(), 0);
    t.set(Value::Integer(1), Value::Boolean(true)).unwrap();
    assert_eq!(t.length(), 1);
}

#[test]
fn float_conversion() {
    assert_eq!(float_to_i64(5.0f64.to_bits()), Some(5));
    assert_eq!(float_to_i64((-7.0f64).to_bits()), Some(-7));
    assert_eq!(float_to_i64(0.0f64.to_bits()), Some(0));
    assert_eq!(float_to_i64((-0.0f64).to_bits()), Some(0));
    assert_eq!(float_to_i64(0.5f64.to_bits()), None);
    assert_eq!(float_to_i64(1e-310f64.to_bits()), None);
    assert_eq!(float_to_i64(4503599627370497.0f64.to_bits()), Some(4503599627370497));
    assert_eq!(float_to_i64(9007199254740992.0f64.to_bits()), Some(9007199254740992));
    assert_eq!(float_to_i64(1e18f64.to_bits()), Some(1_000_000_000_000_000_000));
    assert_eq!(float_to_i64(9223372036854775808.0f64.to_bits()), None);
    assert_eq!(float_to_i64((-9223372036854775808.0f64).to_bits()), Some(i64::MIN));
    assert_eq!(float_to_i64(f64::INFINITY.to_bits()), None);
    assert_eq!(float_to_i64(f64::NAN.to_bits()), None);
    assert!(is_nan(f64::NAN.to_bits()));
    assert!(!is_nan(f64::INFINITY.to_bits()));
    assert!(!is_nan(1.5f64.to_bits()));
}

#[test]
fn table_key_normalizes() {
    assert_eq!(TableKey::new(num(3.0)), Ok(TableKey(Value::Integer(3))));
    assert_eq!(TableKey::new(num(-0.0)), Ok(TableKey(Value::Integer(0))));
    assert_eq!(TableKey::new(num(3.5)), Ok(TableKey(num(3.5))));
    assert_eq!(TableKey::new(Value::Nil), Err(InvalidTableKey::IsNil));
    assert_eq!(TableKey::new(num(f64::NAN)), Err(InvalidTableKey::IsNaN));
    assert_eq!(TableKey::new(Value::Boolean(false)), Ok(TableKey(Value::Boolean(false))));
}

#[test]
fn array_indices() {
    assert_eq!(to_array_index(Value::Integer(1)), Some(0));
    assert_eq!(to_array_index(num(4.0)), Some(3));
    assert_eq!(to_array_index(Value::Integer(0)), None);
    assert_eq!(to_array_index(Value::Integer(-2)), None);
    assert_eq!(to_array_index(num(1.5)), None);
    assert_eq!(to_array_index(text(1)), None);
}

#[test]
fn highest_bits() {
    assert_eq!(highest_bit(0), 0);
    assert_eq!(highest_bit(1), 1);
    assert_eq!(highest_bit(2), 2);
    assert_eq!(highest_bit(3), 2);
    assert_eq!(highest_bit(255), 8);
    assert_eq!(highest_bit(256), 9);
    assert_eq!(highest_bit(usize::MAX), usize::BITS as usize);
}

#[test]
fn contents_lists_every_entry_once() {
    let mut t = TableState::new();
    for i in 1..=10 {
        t.set(Value::Integer(i), Value::Integer(i * i)).unwrap();
    }
    t.set(Value::Integer(4), Value::Nil).unwrap();
    t.set(text(7), Value::Boolean(true)).unwrap();
    t.set(num(0.25), Value::Boolean(false)).unwrap();
    let mut items = t.contents();
    assert_eq!(items.len(), 11);
    let mut ints: Vec<(i64, i64)> = items
        .iter()
        .filter_map(|(k, v)| match (k, v) {
            (Value::Integer(a), Value::Integer(b)) => Some((*a, *b)),
            _ => None,
        })
        .collect();
    ints.sort();
    let expected: Vec<(i64, i64)> = (1..=10).filter(|i| *i != 4).map(|i| (i, i * i)).collect();
    assert_eq!(ints, expected);
    items.retain(|(k, _)| !matches!(k, Value::Integer(_)));
    assert_eq!(items.len(), 2);
    assert!(items.contains(&(text(7), Value::Boolean(true))));
    assert!(items.contains(&(num(0.25), Value::Boolean(false))));
}

#[test]
fn setting_in_array_range_keeps_hash_part() {
    let mut t = TableState::new();
    for i in 1..=8 {
        t.set(Value::Integer(i), Value::Integer(i)).unwrap();
    }
    t.set(text(1), Value::Integer(0)).unwrap();
    assert_eq!(t.hash_part_len(), 1);
    assert_eq!(t.set(Value::Integer(3), Value::Nil), Ok(Value::Integer(3)));
    assert_eq!(t.hash_part_len(), 1);
    assert_eq!(t.get(Value::Integer(3)), Value::Nil);
    assert_eq!(t.set(num(3.0), Value::Integer(33)), Ok(Value::Nil));
    assert_eq!(t.get(Value::Integer(3)), Value::Integer(33));
    assert_eq!(t.hash_part_len(), 1);
}
