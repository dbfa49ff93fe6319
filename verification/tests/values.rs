use geng_db::keys::{compare_keys, KeyOrder};
use geng_db::members::{find_key, get_member, put_member, take_member, Slot};
use geng_db::value::{Member, Number, Value};
use geng_db::value_ops::{clone_members, sort_members};

fn v_member(key: &str, value: Value) -> Member {
    Member { key: key.to_string(), value }
}

#[test]
fn keys_are_ordered_by_their_bytes() {
    assert_eq!(compare_keys("a", "b"), KeyOrder::Before);
    assert_eq!(compare_keys("b", "a"), KeyOrder::After);
    assert_eq!(compare_keys("abc", "abc"), KeyOrder::Same);
    assert_eq!(compare_keys("", ""), KeyOrder::Same);
    assert_eq!(compare_keys("", "a"), KeyOrder::Before);
    assert_eq!(compare_keys("ab", "abc"), KeyOrder::Before);
    assert_eq!(compare_keys("abc", "ab"), KeyOrder::After);
    assert_eq!(compare_keys("Z", "a"), KeyOrder::Before);
    // Two bytes of UTF-8 come after every ASCII letter.
    assert_eq!(compare_keys("z", "é"), KeyOrder::Before);
    assert_eq!(compare_keys("é", "é"), KeyOrder::Same);
}

#[test]
fn key_order_agrees_with_the_order_of_strings() {
    let words = ["", "a", "ab", "b", "ä", "z", "Z", "10", "9", "日本"];
    for a in words.iter() {
        for b in words.iter() {
            let expected = if a < b {
                KeyOrder::Before
            } else if a > b {
                KeyOrder::After
            } else {
                KeyOrder::Same
            };
            assert_eq!(compare_keys(a, b), expected);
        }
    }
}

#[test]
fn members_are_found_where_they_stand() {
    let members = vec![
        v_member("a", Value::Null),
        v_member("c", Value::Bool(true)),
        v_member("e", Value::Bool(false)),
    ];
    assert_eq!(find_key(&members, "a"), Slot::Found(0));
    assert_eq!(find_key(&members, "c"), Slot::Found(1));
    assert_eq!(find_key(&members, "e"), Slot::Found(2));
    assert_eq!(find_key(&members, ""), Slot::Vacant(0));
    assert_eq!(find_key(&members, "b"), Slot::Vacant(1));
    assert_eq!(find_key(&members, "d"), Slot::Vacant(2));
    assert_eq!(find_key(&members, "f"), Slot::Vacant(3));
    assert_eq!(get_member(&members, "c"), Some(&Value::Bool(true)));
    assert_eq!(get_member(&members, "d"), None);
    assert_eq!(find_key(&Vec::new(), "a"), Slot::Vacant(0));
}

#[test]
fn putting_members_keeps_them_sorted() {
    let mut members: Vec<Member> = Vec::new();
    assert!(!put_member(&mut members, "m".to_string(), Value::from_u64(1)));
    assert!(!put_member(&mut members, "a".to_string(), Value::from_u64(2)));
    assert!(!put_member(&mut members, "z".to_string(), Value::from_u64(3)));
    assert!(put_member(&mut members, "m".to_string(), Value::from_u64(4)));
    assert_eq!(
        members,
        vec![
            v_member("a", Value::from_u64(2)),
            v_member("m", Value::from_u64(4)),
            v_member("z", Value::from_u64(3)),
        ]
    );
    assert_eq!(take_member(&mut members, "m"), Some(Value::from_u64(4)));
    assert_eq!(take_member(&mut members, "m"), None);
    assert_eq!(members, vec![v_member("a", Value::from_u64(2)), v_member("z", Value::from_u64(3))]);
}

#[test]
fn numbers_are_normalised() {
    assert_eq!(Number::from_i64(5), Number::PosInt(5));
    assert_eq!(Number::from_i64(0), Number::PosInt(0));
    assert_eq!(Number::from_i64(-5), Number::NegInt(-5));
    assert_eq!(Number::from_i64(i64::MIN), Number::NegInt(i64::MIN));
    assert_eq!(Number::from_u64(u64::MAX), Number::PosInt(u64::MAX));
    assert_eq!(Value::from_i64(7), Value::from_u64(7));
    assert_eq!(Number::from_float_bits(1.5f64.to_bits()), Some(Number::Float(1.5f64.to_bits())));
    assert_eq!(Number::from_float_bits(f64::NAN.to_bits()), None);
    assert_eq!(Number::from_float_bits(f64::INFINITY.to_bits()), None);
    assert_eq!(Number::from_float_bits(f64::NEG_INFINITY.to_bits()), None);
    assert_eq!(Value::from_float_bits(f64::NAN.to_bits()), Value::Null);
    assert_eq!(
        Value::from_float_bits((-0.0f64).to_bits()),
        Value::Number(Number::Float((-0.0f64).to_bits()))
    );
    assert_eq!(
        Value::from_float_bits(f64::MAX.to_bits()),
        Value::Number(Number::Float(f64::MAX.to_bits()))
    );
}

#[test]
fn well_formedness_is_checked_at_every_depth() {
    assert!(Value::Null.is_well_formed());
    assert!(Value::Number(Number::NegInt(-1)).is_well_formed());
    assert!(!Value::Number(Number::NegInt(0)).is_well_formed());
    assert!(!Value::Number(Number::NegInt(3)).is_well_formed());
    assert!(!Value::Number(Number::Float(f64::NAN.to_bits())).is_well_formed());
    assert!(Value::Number(Number::Float(0.5f64.to_bits())).is_well_formed());
    let sorted = Value::Object(vec![v_member("a", Value::Null), v_member("b", Value::Null)]);
    assert!(sorted.is_well_formed());
    let unsorted = Value::Object(vec![v_member("b", Value::Null), v_member("a", Value::Null)]);
    assert!(!unsorted.is_well_formed());
    let twice = Value::Object(vec![v_member("a", Value::Null), v_member("a", Value::Null)]);
    assert!(!twice.is_well_formed());
    let deep = Value::Array(vec![Value::Null, Value::Array(vec![unsorted])]);
    assert!(!deep.is_well_formed());
    let deep_member = Value::Object(vec![v_member("k", Value::Number(Number::NegInt(1)))]);
    assert!(!deep_member.is_well_formed());
}

#[test]
fn object_from_sorts_and_keeps_the_last_of_a_key() {
    let made = Value::object_from(vec![
        v_member("b", Value::from_u64(1)),
        v_member("a", Value::from_u64(2)),
        v_member("b", Value::from_u64(3)),
    ]);
    assert!(made.is_well_formed());
    assert_eq!(
        made,
        Value::Object(vec![v_member("a", Value::from_u64(2)), v_member("b", Value::from_u64(3))])
    );
    assert_eq!(Value::object_from(vec![]), Value::object());
    assert_eq!(
        sort_members(vec![v_member("z", Value::Null), v_member("y", Value::Null)]),
        vec![v_member("y", Value::Null), v_member("z", Value::Null)]
    );
}

#[test]
fn set_member_works_on_objects_only() {
    let mut object = Value::object();
    assert!(object.set_member("k", Value::string("v")));
    assert!(object.set_member("k", Value::string("w")));
    assert_eq!(object.member("k"), Some(&Value::string("w")));
    assert_eq!(object.member("other"), None);
    let mut array = Value::array(vec![Value::Null]);
    assert!(!array.set_member("k", Value::Null));
    assert_eq!(array, Value::Array(vec![Value::Null]));
    assert_eq!(array.member("k"), None);
    assert_eq!(array.item(0), Some(&Value::Null));
    assert_eq!(array.item(1), None);
    assert_eq!(object.item(0), None);
}

#[test]
fn a_copy_is_the_same_value() {
    let mut inner = Value::object();
    inner.set_member("list", Value::array(vec![Value::from_i64(-3), Value::string("x")]));
    inner.set_member("flag", Value::Bool(false));
    let mut outer = Value::object();
    outer.set_member("inner", inner);
    outer.set_member("pi", Value::from_float_bits(3.14159f64.to_bits()));
    let copy = outer.deep_clone();
    assert_eq!(copy, outer);
    assert!(copy.equals(&outer));
    assert!(copy.is_well_formed());
    let members = vec![v_member("a", Value::Null)];
    assert_eq!(clone_members(&members), members);
}

#[test]
fn equals_tells_values_apart() {
    let a = Value::array(vec![Value::from_u64(1), Value::from_u64(2)]);
    let b = Value::array(vec![Value::from_u64(1), Value::from_u64(2)]);
    let c = Value::array(vec![Value::from_u64(2), Value::from_u64(1)]);
    let d = Value::array(vec![Value::from_u64(1)]);
    assert!(a.equals(&b));
    assert!(!a.equals(&c));
    assert!(!a.equals(&d));
    assert!(!Value::Null.equals(&Value::Bool(false)));
    assert!(!Value::from_u64(1).equals(&Value::from_float_bits(1.0f64.to_bits())));
    assert!(!Value::from_i64(-1).equals(&Value::from_u64(u64::MAX)));
    assert!(Value::string("x").equals(&Value::string("x")));
    assert!(!Value::string("x").equals(&Value::string("y")));
    let mut o1 = Value::object();
    o1.set_member("a", Value::from_u64(1));
    o1.set_member("b", Value::from_u64(2));
    let mut o2 = Value::object();
    o2.set_member("b", Value::from_u64(2));
    o2.set_member("a", Value::from_u64(1));
    assert!(o1.equals(&o2));
    o2.set_member("b", Value::from_u64(3));
    assert!(!o1.equals(&o2));
    let mut o3 = Value::object();
    o3.set_member("a", Value::from_u64(1));
    assert!(!o1.equals(&o3));
    let mut o4 = Value::object();
    o4.set_member("a", Value::from_u64(1));
    o4.set_member("c", Value::from_u64(2));
    assert!(!o1.equals(&o4));
}
