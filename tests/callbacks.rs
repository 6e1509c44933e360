use avm2_array::array;
use avm2_array::higher_order;
use avm2_array::host::{Host, Invoke};
use avm2_array::iter::ArrayIter;
use avm2_array::realm::{ObjectData, PropKey, Realm};
use avm2_array::storage::ArrayStorage;
use avm2_array::value::{Error, Number, Value};

fn num(n: i64) -> Value {
    Value::Number(Number::Int(n))
}

fn text(s: &str) -> Value {
    Value::String(s.to_string())
}

fn new_array(realm: &mut Realm, slots: Vec<Option<Value>>) -> usize {
    let proto = realm.array_proto();
    realm.allocate(ObjectData::array(ArrayStorage::from_storage(slots), proto))
}

fn storage(realm: &Realm, id: usize) -> ArrayStorage {
    realm.array_storage(id).unwrap().clone()
}

/// Doubles numbers and records what it was called with.
struct Doubler {
    seen: Vec<(Value, Value, Value)>,
}

impl Invoke for Doubler {
    fn call(
        &mut self,
        _realm: &mut Realm,
        _callee: &Value,
        _receiver: Option<usize>,
        args: &[Value],
    ) -> Result<Value, Error> {
        self.seen.push((args[0].clone(), args[1].clone(), args[2].clone()));
        match &args[0] {
            Value::Number(Number::Int(n)) => Ok(num(n * 2)),
            other => Ok(other.clone()),
        }
    }
}

/// Appends to the array under iteration on every call.
struct Grower {
    target: usize,
    calls: usize,
}

impl Invoke for Grower {
    fn call(
        &mut self,
        realm: &mut Realm,
        _callee: &Value,
        _receiver: Option<usize>,
        _args: &[Value],
    ) -> Result<Value, Error> {
        self.calls += 1;
        array::push(realm, Some(self.target), &[num(9)])?;
        Ok(Value::Bool(true))
    }
}

/// Empties the array under iteration on the first call.
struct Shrinker {
    target: usize,
    seen: Vec<Value>,
}

impl Invoke for Shrinker {
    fn call(
        &mut self,
        realm: &mut Realm,
        _callee: &Value,
        _receiver: Option<usize>,
        args: &[Value],
    ) -> Result<Value, Error> {
        self.seen.push(args[0].clone());
        array::set_length(realm, Some(self.target), &[num(0)])?;
        Ok(Value::Undefined)
    }
}

/// Truthy for even numbers.
struct IsEven;

impl Invoke for IsEven {
    fn call(
        &mut self,
        _realm: &mut Realm,
        _callee: &Value,
        _receiver: Option<usize>,
        args: &[Value],
    ) -> Result<Value, Error> {
        match &args[0] {
            Value::Number(Number::Int(n)) => Ok(Value::Bool(n % 2 == 0)),
            _ => Ok(Value::Bool(false)),
        }
    }
}

/// Gives each object's own `toLocaleString` result.
struct Locale;

impl Invoke for Locale {
    fn call(
        &mut self,
        _realm: &mut Realm,
        callee: &Value,
        _receiver: Option<usize>,
        _args: &[Value],
    ) -> Result<Value, Error> {
        Ok(callee.clone())
    }
}

#[test]
fn map_doubles_each_element() {
    let mut realm = Realm::new();
    let a = new_array(&mut realm, vec![Some(num(1)), None, Some(num(3))]);
    let mut host = Host::new(Doubler { seen: Vec::new() });
    let r = higher_order::map(&mut realm, &mut host, Some(a), &[text("f")]).unwrap();
    let id = match r {
        Value::Object(o) => o,
        other => panic!("expected an array, got {:?}", other),
    };
    assert_eq!(
        storage(&realm, id),
        ArrayStorage::from_storage(vec![Some(num(2)), Some(Value::Undefined), Some(num(6))])
    );
    assert_eq!(host.inner.seen[2], (num(3), num(2), Value::Object(a)));
}

#[test]
fn for_each_tolerates_growth() {
    let mut realm = Realm::new();
    let a = new_array(&mut realm, vec![Some(num(1)), Some(num(2)), Some(num(3))]);
    let mut host = Host::new(Grower { target: a, calls: 0 });
    assert_eq!(higher_order::for_each(&mut realm, &mut host, Some(a), &[text("f")]), Ok(Value::Undefined));
    assert_eq!(host.inner.calls, 3);
    assert_eq!(array::length(&realm, Some(a), &[]), Ok(num(6)));
}

#[test]
fn for_each_tolerates_shrinking() {
    let mut realm = Realm::new();
    let a = new_array(&mut realm, vec![Some(num(1)), Some(num(2)), Some(num(3))]);
    let mut host = Host::new(Shrinker { target: a, seen: Vec::new() });
    higher_order::for_each(&mut realm, &mut host, Some(a), &[text("f")]).unwrap();
    assert_eq!(host.inner.seen, vec![num(1), Value::Undefined, Value::Undefined]);
}

#[test]
fn filter_keeps_even() {
    let mut realm = Realm::new();
    let a = new_array(&mut realm, vec![Some(num(1)), Some(num(2)), Some(num(4)), Some(num(5))]);
    let r = higher_order::filter(&mut realm, &mut Host::new(IsEven), Some(a), &[text("f")]).unwrap();
    let id = match r {
        Value::Object(o) => o,
        other => panic!("expected an array, got {:?}", other),
    };
    assert_eq!(storage(&realm, id), ArrayStorage::from_storage(vec![Some(num(2)), Some(num(4))]));
}

#[test]
fn every_and_some() {
    let mut realm = Realm::new();
    let a = new_array(&mut realm, vec![Some(num(2)), Some(num(3))]);
    assert_eq!(higher_order::every(&mut realm, &mut Host::new(IsEven), Some(a), &[text("f")]), Ok(Value::Bool(false)));
    assert_eq!(higher_order::some(&mut realm, &mut Host::new(IsEven), Some(a), &[text("f")]), Ok(Value::Bool(true)));
    let empty = new_array(&mut realm, vec![]);
    assert_eq!(higher_order::every(&mut realm, &mut Host::new(IsEven), Some(empty), &[text("f")]), Ok(Value::Bool(true)));
    assert_eq!(higher_order::some(&mut realm, &mut Host::new(IsEven), Some(empty), &[text("f")]), Ok(Value::Bool(false)));
}

#[test]
fn missing_callback_is_type_error() {
    let mut realm = Realm::new();
    let a = new_array(&mut realm, vec![Some(num(2))]);
    assert!(matches!(higher_order::map(&mut realm, &mut Host::new(IsEven), Some(a), &[]), Err(Error::TypeError(_))));
    assert!(matches!(higher_order::for_each(&mut realm, &mut Host::new(IsEven), Some(a), &[Value::Null]), Err(Error::TypeError(_))));
}

#[test]
fn iterator_meets_in_the_middle() {
    let mut realm = Realm::new();
    let a = new_array(&mut realm, vec![Some(num(10)), Some(num(11)), Some(num(12))]);
    let mut it = ArrayIter::new(&realm, a).unwrap();
    assert_eq!(it.next(&realm), Some(Ok((0, num(10)))));
    assert_eq!(it.next_back(&realm), Some(Ok((2, num(12)))));
    assert_eq!(it.next(&realm), Some(Ok((1, num(11)))));
    assert_eq!(it.next(&realm), None);
    assert_eq!(it.next_back(&realm), None);
    let bounded = ArrayIter::with_bounds(&realm, a, 1, 1).unwrap();
    assert_eq!((bounded.index, bounded.rev_index), (1, 2));
}

#[test]
fn locale_string_calls_each_object() {
    let mut realm = Realm::new();
    let mut obj = ObjectData::plain(None);
    obj.props.push((PropKey::Name("toLocaleString".to_string()), text("one")));
    let o = realm.allocate(obj);
    let a = new_array(&mut realm, vec![Some(Value::Object(o)), Some(num(2)), Some(Value::Null)]);
    assert_eq!(higher_order::to_locale_string(&mut realm, &mut Host::new(Locale), Some(a), &[]), Ok(text("one,2,")));
}

/// Truthy for positive numbers, counting its calls.
struct Positive {
    calls: usize,
}

impl Invoke for Positive {
    fn call(
        &mut self,
        _realm: &mut Realm,
        _callee: &Value,
        _receiver: Option<usize>,
        args: &[Value],
    ) -> Result<Value, Error> {
        self.calls += 1;
        match &args[0] {
            Value::Number(Number::Int(n)) => Ok(Value::Bool(*n > 0)),
            _ => Ok(Value::Bool(false)),
        }
    }
}

#[test]
fn every_stops_at_first_falsy() {
    let mut realm = Realm::new();
    let a = new_array(&mut realm, vec![Some(num(1)), Some(num(-1)), Some(num(5))]);
    let mut host = Host::new(Positive { calls: 0 });
    assert_eq!(higher_order::every(&mut realm, &mut host, Some(a), &[text("f")]), Ok(Value::Bool(false)));
    assert_eq!(host.inner.calls, 2);
    let mut host = Host::new(Positive { calls: 0 });
    assert_eq!(higher_order::some(&mut realm, &mut host, Some(a), &[text("f")]), Ok(Value::Bool(true)));
    assert_eq!(host.inner.calls, 1);
}
