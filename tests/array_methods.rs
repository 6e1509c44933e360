use avm2_array::array;
use avm2_array::realm::{ObjectData, PropKey, Realm};
use avm2_array::storage::ArrayStorage;
use avm2_array::value::{Error, Number, Value};

fn num(n: i64) -> Value {
    Value::Number(Number::Int(n))
}

fn text(s: &str) -> Value {
    Value::String(s.to_string())
}

fn realm_with_proto() -> (Realm, usize) {
    let mut realm = Realm::new();
    let proto = realm.allocate(ObjectData::plain(None));
    realm.set_array_proto(Some(proto));
    (realm, proto)
}

fn new_array(realm: &mut Realm, slots: Vec<Option<Value>>) -> usize {
    let proto = realm.array_proto();
    realm.allocate(ObjectData::array(ArrayStorage::from_storage(slots), proto))
}

fn storage(realm: &Realm, id: usize) -> ArrayStorage {
    realm.array_storage(id).unwrap().clone()
}

fn object_id(v: &Value) -> usize {
    match v {
        Value::Object(o) => *o,
        other => panic!("expected an object, got {:?}", other),
    }
}

#[test]
fn push_three_then_read_back() {
    let (mut realm, _) = realm_with_proto();
    let a = new_array(&mut realm, vec![]);
    let r = array::push(&mut realm, Some(a), &[num(1), num(2), num(3)]);
    assert_eq!(r, Ok(Value::Undefined));
    assert_eq!(array::length(&realm, Some(a), &[]), Ok(num(3)));
    assert_eq!(array::to_string(&realm, Some(a), &[]), Ok(text("1,2,3")));
    assert_eq!(array::index_of(&realm, Some(a), &[num(2)]), Ok(num(1)));
    assert_eq!(array::last_index_of(&realm, Some(a), &[num(2), num(0)]), Ok(num(-1)));
}

#[test]
fn construct_with_length_gives_holes() {
    let (mut realm, _) = realm_with_proto();
    let a = new_array(&mut realm, vec![]);
    assert_eq!(array::instance_init(&mut realm, Some(a), &[num(5)]), Ok(Value::Undefined));
    assert_eq!(array::length(&realm, Some(a), &[]), Ok(num(5)));
    let st = storage(&realm, a);
    for i in 0..5 {
        assert_eq!(st.get(i), None);
    }
    let first = array::resolve_array_hole(&realm, a, 0, st.get(0));
    assert_eq!(first, Ok(Value::Undefined));
    assert_eq!(realm.get_property(a, &PropKey::Index(0)), Value::Undefined);
}

#[test]
fn construct_with_elements() {
    let (mut realm, _) = realm_with_proto();
    let a = new_array(&mut realm, vec![]);
    assert_eq!(array::instance_init(&mut realm, Some(a), &[text("x"), num(7)]), Ok(Value::Undefined));
    assert_eq!(storage(&realm, a), ArrayStorage::from_storage(vec![Some(text("x")), Some(num(7))]));
}

#[test]
fn construct_with_negative_or_nan_length_fails() {
    let (mut realm, _) = realm_with_proto();
    let a = new_array(&mut realm, vec![]);
    assert!(matches!(array::instance_init(&mut realm, Some(a), &[num(-1)]), Err(Error::ArgumentError(_))));
    assert!(matches!(
        array::instance_init(&mut realm, Some(a), &[Value::Number(Number::NaN)]),
        Err(Error::ArgumentError(_))
    ));
    assert_eq!(array::length(&realm, Some(a), &[]), Ok(num(0)));
}

#[test]
fn hole_reads_prototype_value() {
    let mut realm = Realm::new();
    let mut proto = ObjectData::plain(None);
    proto.props.push((PropKey::Index(1), text("from proto")));
    let p = realm.allocate(proto);
    realm.set_array_proto(Some(p));
    let a = new_array(&mut realm, vec![Some(num(0)), None, Some(num(2))]);
    let slot = storage(&realm, a).get(1);
    assert_eq!(slot, None);
    assert_eq!(array::resolve_array_hole(&realm, a, 1, slot), Ok(text("from proto")));
    assert_eq!(realm.get_property(a, &PropKey::Index(1)), text("from proto"));
    assert_eq!(array::join(&realm, Some(a), &[text("-")]), Ok(text("0-from proto-2")));
    assert_eq!(array::index_of(&realm, Some(a), &[text("from proto")]), Ok(num(1)));
}

#[test]
fn push_then_pop_restores_length() {
    let (mut realm, _) = realm_with_proto();
    let a = new_array(&mut realm, vec![Some(num(4)), None]);
    array::push(&mut realm, Some(a), &[text("v")]).unwrap();
    assert_eq!(array::length(&realm, Some(a), &[]), Ok(num(3)));
    assert_eq!(array::pop(&mut realm, Some(a), &[]), Ok(text("v")));
    assert_eq!(array::length(&realm, Some(a), &[]), Ok(num(2)));
    assert_eq!(storage(&realm, a), ArrayStorage::from_storage(vec![Some(num(4)), None]));
}

#[test]
fn pop_on_empty_is_undefined() {
    let (mut realm, _) = realm_with_proto();
    let a = new_array(&mut realm, vec![]);
    assert_eq!(array::pop(&mut realm, Some(a), &[]), Ok(Value::Undefined));
    assert_eq!(array::length(&realm, Some(a), &[]), Ok(num(0)));
}

#[test]
fn shift_and_unshift() {
    let (mut realm, _) = realm_with_proto();
    let a = new_array(&mut realm, vec![Some(num(3))]);
    array::unshift(&mut realm, Some(a), &[num(1), num(2)]).unwrap();
    assert_eq!(array::to_string(&realm, Some(a), &[]), Ok(text("1,2,3")));
    assert_eq!(array::shift(&mut realm, Some(a), &[]), Ok(num(1)));
    assert_eq!(array::to_string(&realm, Some(a), &[]), Ok(text("2,3")));
}

#[test]
fn slice_halves_join_to_whole() {
    let (mut realm, _) = realm_with_proto();
    let a = new_array(&mut realm, vec![Some(num(1)), None, Some(num(3)), Some(num(4))]);
    let before = storage(&realm, a);
    for k in 0..=4 {
        let left = object_id(&array::slice(&mut realm, Some(a), &[num(0), num(k)]).unwrap());
        let right = object_id(&array::slice(&mut realm, Some(a), &[num(k), num(4)]).unwrap());
        let mut joined = storage(&realm, left);
        joined.append(&storage(&realm, right));
        assert_eq!(
            joined,
            ArrayStorage::from_storage(vec![Some(num(1)), Some(Value::Undefined), Some(num(3)), Some(num(4))])
        );
    }
    assert_eq!(storage(&realm, a), before);
}

#[test]
fn slice_with_negative_start() {
    let (mut realm, _) = realm_with_proto();
    let a = new_array(&mut realm, vec![Some(num(1)), Some(num(2)), Some(num(3))]);
    let s = object_id(&array::slice(&mut realm, Some(a), &[num(-2)]).unwrap());
    assert_eq!(storage(&realm, s), ArrayStorage::from_storage(vec![Some(num(2)), Some(num(3))]));
}

#[test]
fn resolve_index_clamps() {
    assert_eq!(array::resolve_index(&num(-2), 5), Ok(3));
    assert_eq!(array::resolve_index(&num(-9), 5), Ok(0));
    assert_eq!(array::resolve_index(&num(9), 5), Ok(5));
    assert_eq!(array::resolve_index(&num(2), 5), Ok(2));
    assert_eq!(array::resolve_index(&text("-1"), 5), Ok(4));
    assert_eq!(array::resolve_index(&Value::Undefined, 5), Ok(0));
}

#[test]
fn splice_removes_and_inserts() {
    let (mut realm, _) = realm_with_proto();
    let a = new_array(&mut realm, vec![Some(num(1)), Some(num(2)), Some(num(3)), Some(num(4))]);
    let removed = object_id(&array::splice(&mut realm, Some(a), &[num(1), num(2), text("x"), text("y"), text("z")]).unwrap());
    assert_eq!(storage(&realm, removed), ArrayStorage::from_storage(vec![Some(num(2)), Some(num(3))]));
    assert_eq!(array::to_string(&realm, Some(a), &[]), Ok(text("1,x,y,z,4")));
    assert_eq!(array::length(&realm, Some(a), &[]), Ok(num(5)));
}

#[test]
fn splice_count_is_clamped() {
    let (mut realm, _) = realm_with_proto();
    let a = new_array(&mut realm, vec![Some(num(1)), Some(num(2)), Some(num(3))]);
    let none = object_id(&array::splice(&mut realm, Some(a), &[num(1), num(-5)]).unwrap());
    assert_eq!(storage(&realm, none).length(), 0);
    assert_eq!(array::length(&realm, Some(a), &[]), Ok(num(3)));
    let rest = object_id(&array::splice(&mut realm, Some(a), &[num(1), num(50)]).unwrap());
    assert_eq!(storage(&realm, rest).length(), 2);
    assert_eq!(array::length(&realm, Some(a), &[]), Ok(num(1)));
    let all = object_id(&array::splice(&mut realm, Some(a), &[num(0)]).unwrap());
    assert_eq!(storage(&realm, all), ArrayStorage::from_storage(vec![Some(num(1))]));
    assert_eq!(array::splice(&mut realm, Some(a), &[]), Ok(Value::Undefined));
}

#[test]
fn splice_resolves_holes() {
    let (mut realm, _) = realm_with_proto();
    let a = new_array(&mut realm, vec![Some(num(1)), None, Some(num(3))]);
    array::splice(&mut realm, Some(a), &[num(0), num(0)]).unwrap();
    assert_eq!(
        storage(&realm, a),
        ArrayStorage::from_storage(vec![Some(num(1)), Some(Value::Undefined), Some(num(3))])
    );
}

#[test]
fn reverse_twice_restores_holes() {
    let (mut realm, _) = realm_with_proto();
    let slots = vec![Some(num(1)), Some(num(2)), None, Some(num(4))];
    let a = new_array(&mut realm, slots.clone());
    assert_eq!(array::reverse(&mut realm, Some(a), &[]), Ok(Value::Object(a)));
    assert_eq!(
        storage(&realm, a),
        ArrayStorage::from_storage(vec![Some(num(4)), None, Some(num(2)), Some(num(1))])
    );
    array::reverse(&mut realm, Some(a), &[]).unwrap();
    assert_eq!(storage(&realm, a), ArrayStorage::from_storage(slots));
}

#[test]
fn reverse_mirrors_trailing_holes() {
    let (mut realm, _) = realm_with_proto();
    let a = new_array(&mut realm, vec![Some(num(1)), Some(num(2)), None]);
    array::reverse(&mut realm, Some(a), &[]).unwrap();
    assert_eq!(storage(&realm, a), ArrayStorage::from_storage(vec![None, Some(num(2)), Some(num(1))]));
    let b = new_array(&mut realm, vec![None, Some(num(1)), None, None]);
    array::reverse(&mut realm, Some(b), &[]).unwrap();
    assert_eq!(storage(&realm, b), ArrayStorage::from_storage(vec![None, None, Some(num(1)), None]));
}

#[test]
fn join_formats_values() {
    let (mut realm, _) = realm_with_proto();
    let a = new_array(
        &mut realm,
        vec![Some(num(-42)), Some(Value::Null), Some(Value::Bool(true)), Some(Value::Number(Number::NaN)), None],
    );
    assert_eq!(array::join(&realm, Some(a), &[]), Ok(text("-42,,true,NaN,")));
    assert_eq!(array::join(&realm, Some(a), &[text(" | ")]), Ok(text("-42 |  | true | NaN | ")));
    assert_eq!(array::value_of(&realm, Some(a), &[]), Ok(text("-42,,true,NaN,")));
}

#[test]
fn concat_appends_arrays_and_values() {
    let (mut realm, _) = realm_with_proto();
    let a = new_array(&mut realm, vec![Some(num(1))]);
    let b = new_array(&mut realm, vec![None, Some(num(3))]);
    let c = object_id(&array::concat(&mut realm, Some(a), &[Value::Object(b), text("s")]).unwrap());
    assert_eq!(
        storage(&realm, c),
        ArrayStorage::from_storage(vec![Some(num(1)), None, Some(num(3)), Some(text("s"))])
    );
    assert_eq!(storage(&realm, a).length(), 1);
}

#[test]
fn concat_with_null_is_type_error() {
    let (mut realm, _) = realm_with_proto();
    let a = new_array(&mut realm, vec![Some(num(1))]);
    let count = realm.object_count();
    assert!(matches!(array::concat(&mut realm, Some(a), &[Value::Null]), Err(Error::TypeError(_))));
    assert_eq!(realm.object_count(), count);
}

#[test]
fn set_length_truncates_and_grows() {
    let (mut realm, _) = realm_with_proto();
    let a = new_array(&mut realm, vec![Some(num(1)), Some(num(2)), Some(num(3))]);
    array::set_length(&mut realm, Some(a), &[num(1)]).unwrap();
    assert_eq!(storage(&realm, a), ArrayStorage::from_storage(vec![Some(num(1))]));
    array::set_length(&mut realm, Some(a), &[text("3")]).unwrap();
    assert_eq!(storage(&realm, a), ArrayStorage::from_storage(vec![Some(num(1)), None, None]));
}

#[test]
fn index_of_uses_strict_equality() {
    let (mut realm, _) = realm_with_proto();
    let a = new_array(&mut realm, vec![Some(text("2")), Some(num(2)), Some(Value::Number(Number::NaN)), Some(num(2))]);
    assert_eq!(array::index_of(&realm, Some(a), &[num(2)]), Ok(num(1)));
    assert_eq!(array::index_of(&realm, Some(a), &[num(2), num(2)]), Ok(num(3)));
    assert_eq!(array::index_of(&realm, Some(a), &[Value::Number(Number::NaN)]), Ok(num(-1)));
    assert_eq!(array::last_index_of(&realm, Some(a), &[num(2)]), Ok(num(3)));
    assert_eq!(array::last_index_of(&realm, Some(a), &[num(2), num(2)]), Ok(num(1)));
}

#[test]
fn methods_on_non_arrays_give_undefined() {
    let (mut realm, _) = realm_with_proto();
    let o = realm.allocate(ObjectData::plain(None));
    assert_eq!(array::length(&realm, Some(o), &[]), Ok(Value::Undefined));
    assert_eq!(array::pop(&mut realm, Some(o), &[]), Ok(Value::Undefined));
    assert_eq!(array::join(&realm, None, &[]), Ok(Value::Undefined));
    assert_eq!(array::slice(&mut realm, Some(o), &[]), Ok(Value::Undefined));
}
