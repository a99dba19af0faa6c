use masim::value::{
    to_value, value_cmp, value_eq, Assoc, FloatBits, TypeMismatch, Value, ValueMap, ValueTyped,
};

fn bits(x: f32) -> FloatBits {
    FloatBits(x.to_bits())
}

fn lookup<'a, K: PartialEq, V>(m: &'a Assoc<K, V>, k: &K) -> Option<&'a V> {
    m.entries.iter().find(|(key, _)| key == k).map(|(_, v)| v)
}

#[test]
fn test_i32() {
    let val: Value = to_value(1_i32);
    let result: i32 = val.eq_type().unwrap();
    assert_eq!(1, result);
}

#[test]
fn test_u32() {
    let val: Value = to_value(1_u32);
    let result: u32 = val.eq_type().unwrap();
    assert_eq!(1, result);
}

#[test]
fn test_f32() {
    let val: Value = to_value(bits(1.0_f32));
    let result: FloatBits = val.eq_type().unwrap();
    assert_eq!(1., f32::from_bits(result.0));

    let val: Value = to_value(bits(0.2_f32));
    let result: FloatBits = val.eq_type().unwrap();
    assert_eq!(0.2, f32::from_bits(result.0));
}

#[test]
fn test_string() {
    let val: Value = to_value("Rust".to_string());
    let result: String = val.eq_type().unwrap();
    assert_eq!("Rust", result);
}

#[test]
fn test_bool() {
    let val: Value = to_value(true);
    let result: bool = val.eq_type().unwrap();
    assert_eq!(true, result);
}

#[test]
fn test_pair() {
    let val: Value = to_value((bits(123_f32), false));
    let result: (FloatBits, bool) = val.eq_type().unwrap();
    assert_eq!((123., false), (f32::from_bits(result.0 .0), result.1));
}

#[test]
fn test_vair() {
    let val: Value = to_value(Vec::from([1, 2, 3]));
    let result: Vec<i32> = val.eq_type().unwrap();
    assert_eq!(1, result[0]);
    assert_eq!(2, result[1]);
    assert_eq!(3, result[2]);

    let val: Value = to_value(Vec::from([true, false, true]));
    let result: Vec<bool> = val.eq_type().unwrap();
    assert_eq!(true, result[0]);
    assert_eq!(false, result[1]);
    assert_eq!(true, result[2]);
}

#[test]
fn test_map() {
    let val: Value = to_value(Assoc { entries: vec![(1, bits(3.4)), (2, bits(7.5))] });
    let result: Assoc<i32, FloatBits> = val.eq_type().unwrap();
    assert_eq!(lookup(&result, &1).map(|b| f32::from_bits(b.0)), Some(3.4));
    assert_eq!(lookup(&result, &2).map(|b| f32::from_bits(b.0)), Some(7.5));

    let mut val: Value = to_value(Assoc {
        entries: vec![("rusty".to_string(), bits(3.4)), ("crab".to_string(), bits(7.5))],
    });
    let result: Assoc<String, FloatBits> = val.eq_type().unwrap();
    assert_eq!(lookup(&result, &"rusty".to_string()).map(|b| f32::from_bits(b.0)), Some(3.4));
    assert_eq!(lookup(&result, &"crab".to_string()).map(|b| f32::from_bits(b.0)), Some(7.5));

    // inserting value from reference
    if let Some(map) = val.as_map_mut() {
        map.insert("caramel".to_string().to_value(), to_value(bits(5.3)));

        let value = map.get(&Value::VString("caramel".to_string())).unwrap();
        assert_eq!(to_value(bits(5.3)), value.clone())
    } else {
        panic!("a map value must give its entries");
    }
}

#[test]
fn wrong_variant_is_a_type_mismatch() {
    let val = to_value(7_i32);
    assert_eq!(val.eq_type::<u32>(), Err(TypeMismatch));
    assert_eq!(val.eq_type::<bool>(), Err(TypeMismatch));
    assert_eq!(val.eq_type::<String>(), Err(TypeMismatch));
    assert_eq!(val.eq_type::<FloatBits>(), Err(TypeMismatch));
    assert_eq!(val.eq_type::<Vec<i32>>(), Err(TypeMismatch));
    assert_eq!(val.eq_type::<(i32, i32)>(), Err(TypeMismatch));
    assert_eq!(val.eq_type::<Assoc<i32, i32>>(), Err(TypeMismatch));
    // u32 and float payloads are told apart by their variant.
    assert_eq!(to_value(bits(1.0)).eq_type::<u32>(), Err(TypeMismatch));
    assert_eq!(to_value(5_u32).eq_type::<FloatBits>(), Err(TypeMismatch));
}

#[test]
fn nested_mismatch_fails_the_whole_read() {
    let val = Value::VVec(vec![Value::VI32(1), Value::VBool(true)]);
    assert_eq!(val.eq_type::<Vec<i32>>(), Err(TypeMismatch));
    let pair = Value::VPair(Box::new(Value::VI32(1)), Box::new(Value::VI32(2)));
    assert_eq!(pair.eq_type::<(i32, bool)>(), Err(TypeMismatch));
    assert_eq!(pair.eq_type::<(i32, i32)>(), Ok((1, 2)));
}

#[test]
fn round_trip_value_native_value() {
    let values = vec![
        Value::VI32(-4),
        Value::VPair(Box::new(Value::VU32(3)), Box::new(Value::VString("x".to_string()))),
        Value::VVec(vec![Value::VBool(true), Value::VBool(false)]),
        Value::VMap(ValueMap::from_entries(&vec![(Value::VI32(1), Value::VFloat(2.5f32.to_bits()))])),
    ];
    let back0 = to_value(values[0].eq_type::<i32>().unwrap());
    let back1 = to_value(values[1].eq_type::<(u32, String)>().unwrap());
    let back2 = to_value(values[2].eq_type::<Vec<bool>>().unwrap());
    let back3 = to_value(values[3].eq_type::<Assoc<i32, FloatBits>>().unwrap());
    assert_eq!(back0, values[0]);
    assert_eq!(back1, values[1]);
    assert_eq!(back2, values[2]);
    assert_eq!(back3, values[3]);
}

#[test]
fn empty_collections_convert() {
    let empty: Vec<u32> = Vec::new();
    let val = to_value(empty);
    assert_eq!(val, Value::VVec(Vec::new()));
    assert_eq!(val.eq_type::<Vec<u32>>(), Ok(Vec::new()));
    let none: Assoc<u32, u32> = Assoc { entries: Vec::new() };
    assert_eq!(to_value(none), Value::VMap(ValueMap::new()));
}

#[test]
fn as_map_only_on_maps() {
    let mut v = Value::VBool(true);
    assert!(v.as_map().is_none());
    assert!(v.as_map_mut().is_none());
    let m = Value::VMap(ValueMap::from_entries(&vec![(Value::VI32(1), Value::VI32(2))]));
    assert_eq!(m.as_map().map(|e| e.len()), Some(1));
}

#[test]
fn equality_and_clone_are_deep() {
    let a = Value::VVec(vec![
        Value::VPair(Box::new(Value::VI32(1)), Box::new(Value::VString("s".to_string()))),
        Value::VMap(ValueMap::from_entries(&vec![(Value::VBool(true), Value::VFloat(0))])),
    ]);
    let b = a.clone();
    assert!(value_eq(&a, &b));
    assert_eq!(a, b);
    let c = Value::VVec(vec![Value::VI32(1)]);
    assert!(!value_eq(&a, &c));
    // Same payload, other variant: different values.
    assert!(!value_eq(&Value::VU32(3), &Value::VFloat(3)));
    assert!(!value_eq(&Value::VFloat(0), &Value::VFloat(0x8000_0000)));
}

#[test]
fn to_value_of_native_types() {
    assert_eq!(3_i32.to_value(), Value::VI32(3));
    assert_eq!(3_u32.to_value(), Value::VU32(3));
    assert_eq!(bits(2.0).to_value(), Value::VFloat(0x4000_0000));
    assert_eq!(<i32 as ValueTyped>::from_value(&Value::VI32(9)), Ok(9));
}

#[test]
fn map_keys_are_unique() {
    let mut m = ValueMap::new();
    m.insert(Value::VI32(1), Value::VBool(false));
    m.insert(Value::VI32(2), Value::VBool(false));
    m.insert(Value::VI32(1), Value::VBool(true));
    assert_eq!(m.len(), 2);
    assert_eq!(m.get(&Value::VI32(1)), Some(&Value::VBool(true)));
    assert_eq!(m.entries()[0], (Value::VI32(1), Value::VBool(true)));
    assert_eq!(m.get(&Value::VI32(3)), None);
    // A native map with a repeated key keeps its last value.
    let val = to_value(Assoc { entries: vec![(7_u32, true), (8, false), (7, false)] });
    let back: Assoc<u32, bool> = val.eq_type().unwrap();
    assert_eq!(back.entries, vec![(7, false), (8, false)]);
    let built = ValueMap::from_entries(&vec![
        (Value::VI32(5), Value::VI32(1)),
        (Value::VI32(5), Value::VI32(2)),
    ]);
    assert_eq!(built.len(), 1);
    assert_eq!(built.get(&Value::VI32(5)), Some(&Value::VI32(2)));
}

#[test]
fn fill_order_does_not_show() {
    let a = ValueMap::from_entries(&vec![
        (Value::VString("rusty".to_string()), Value::VI32(1)),
        (Value::VString("crab".to_string()), Value::VI32(2)),
        (Value::VI32(9), Value::VBool(true)),
    ]);
    let b = ValueMap::from_entries(&vec![
        (Value::VI32(9), Value::VBool(true)),
        (Value::VString("crab".to_string()), Value::VI32(2)),
        (Value::VString("rusty".to_string()), Value::VI32(1)),
    ]);
    assert_eq!(a, b);
    let (va, vb) = (Value::VMap(a), Value::VMap(b));
    assert!(value_eq(&va, &vb));
    let (a, b) = match (va, vb) {
        (Value::VMap(a), Value::VMap(b)) => (a, b),
        _ => unreachable!(),
    };
    // Keys come in increasing order: variant first, then payload.
    assert_eq!(a.entries()[0].0, Value::VI32(9));
    assert_eq!(a.entries()[1].0, Value::VString("crab".to_string()));
    assert_eq!(a.entries()[2].0, Value::VString("rusty".to_string()));
    assert_eq!(value_cmp(&Value::VI32(9), &Value::VString("a".to_string())), -1);
    assert_eq!(value_cmp(&Value::VString("b".to_string()), &Value::VString("ab".to_string())), 1);
    assert_eq!(value_cmp(&Value::VVec(vec![Value::VBool(true)]), &Value::VVec(vec![Value::VBool(true)])), 0);
    // As states, the two maps are one Q-table key.
    let mut t = masim::qtable::QTable::new();
    t.set_q_value(vec![Value::VMap(a)], 0, 7);
    assert_eq!(t.get_q_value(&vec![Value::VMap(b)], 0), 7);
}
