use geng_db::hashing::{hash_string, hash_value};
use geng_db::path::hash_field_value;
use geng_db::value::{Member, Number, Value};

fn h_num(i: u64) -> Value {
    Value::Number(Number::PosInt(i))
}

fn h_text(s: &str) -> Value {
    Value::String(s.to_string())
}

fn h_member(key: &str, value: Value) -> Member {
    Member { key: key.to_string(), value }
}

#[test]
fn object_hash_ignores_insertion_order() {
    let mut ab = Value::object();
    ab.set_member("a", h_num(1));
    ab.set_member("b", h_num(2));
    let mut ba = Value::object();
    ba.set_member("b", h_num(2));
    ba.set_member("a", h_num(1));
    assert_eq!(ab, ba);
    assert_eq!(hash_value(&ab), hash_value(&ba));
    assert_eq!(hash_value(&ab), 10837090350047147138);
}

#[test]
fn nested_object_hash_ignores_insertion_order() {
    let mut inner_xy = Value::object();
    inner_xy.set_member("x", Value::Null);
    inner_xy.set_member("y", Value::Bool(true));
    let mut inner_yx = Value::object();
    inner_yx.set_member("y", Value::Bool(true));
    inner_yx.set_member("x", Value::Null);
    let one = Value::Array(vec![inner_xy]);
    let other = Value::Array(vec![inner_yx]);
    assert_eq!(hash_value(&one), hash_value(&other));
}

#[test]
fn array_hash_depends_on_order() {
    let one_two = Value::Array(vec![h_num(1), h_num(2)]);
    let two_one = Value::Array(vec![h_num(2), h_num(1)]);
    assert_ne!(hash_value(&one_two), hash_value(&two_one));
    assert_eq!(hash_value(&one_two), 9514518243060796915);
}

#[test]
fn integer_and_float_hash_apart() {
    // The integer 1 and the float 1.0 are different values to the hash: the
    // one is fed as the word 1, the other as the bits of the double.
    let integer = h_num(1);
    let float = Value::Number(Number::Float(1.0f64.to_bits()));
    assert_ne!(hash_value(&integer), hash_value(&float));
    assert_eq!(hash_value(&integer), 17736263552798753480);
    assert_eq!(hash_value(&float), 3430317320571044157);
}

#[test]
fn scalar_hashes_have_their_known_values() {
    assert_eq!(hash_value(&Value::Null), 7541581120933061747);
    assert_eq!(hash_value(&Value::Bool(true)), 5473066677718280640);
    assert_eq!(hash_value(&h_text("v")), 2855161283691614687);
    assert_eq!(hash_value(&Value::Number(Number::NegInt(-1))), 16551060705236397474);
}

#[test]
fn string_hashes_have_their_known_values() {
    assert_eq!(hash_string("abc"), 17224545590736200989);
    assert_eq!(hash_string(""), 3476900567878811119);
    assert_ne!(hash_string("abc"), hash_string("abd"));
}

#[test]
fn hash_is_the_same_on_every_call() {
    let v = Value::Object(vec![h_member("k", h_text("v")), h_member("n", Value::Null)]);
    assert_eq!(hash_value(&v), hash_value(&v));
    assert_eq!(hash_string("abc"), hash_string("abc"));
}

#[test]
fn kinds_hash_apart() {
    let values = vec![
        Value::Null,
        Value::Bool(false),
        Value::Bool(true),
        h_num(0),
        Value::Number(Number::NegInt(-1)),
        h_text(""),
        Value::Array(vec![]),
        Value::Object(vec![]),
    ];
    for i in 0..values.len() {
        for j in 0..values.len() {
            if i != j {
                assert_ne!(hash_value(&values[i]), hash_value(&values[j]));
            }
        }
    }
}

#[test]
fn a_string_and_the_array_of_it_hash_apart() {
    assert_ne!(hash_value(&h_text("a")), hash_value(&Value::Array(vec![h_text("a")])));
}

#[test]
fn field_hash_is_the_hash_of_the_field() {
    let mut user = Value::object();
    user.set_member("name", h_text("Ann"));
    let mut record = Value::object();
    record.set_member("user", user);
    assert_eq!(hash_field_value(&record, "user.name"), Some(hash_value(&h_text("Ann"))));
    assert_eq!(hash_field_value(&record, "user.age"), None);
    assert_eq!(hash_field_value(&record, "user"), Some(hash_value(record.member("user").unwrap())));
}
