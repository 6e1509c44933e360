use avm2_array::array;
use avm2_array::host::{Host, Invoke};
use avm2_array::realm::{ObjectData, PropKey, Realm};
use avm2_array::sort::{
    self, compare_text, SortOptions, CASE_INSENSITIVE, DESCENDING, NUMERIC, RETURN_INDEXED_ARRAY, UNIQUE_SORT,
};
use avm2_array::storage::ArrayStorage;
use avm2_array::value::{Error, Number, Value};
use std::cmp::Ordering;

fn num(n: i64) -> Value {
    Value::Number(Number::Int(n))
}

fn text(s: &str) -> Value {
    Value::String(s.to_string())
}

struct NoCode;

impl Invoke for NoCode {
    fn call(
        &mut self,
        _realm: &mut Realm,
        _callee: &Value,
        _receiver: Option<usize>,
        _args: &[Value],
    ) -> Result<Value, Error> {
        Err(Error::TypeError("not callable".to_string()))
    }
}

/// Compares two numbers in descending order, as a user comparator would.
struct Descending {
    calls: usize,
}

impl Invoke for Descending {
    fn call(
        &mut self,
        _realm: &mut Realm,
        _callee: &Value,
        _receiver: Option<usize>,
        args: &[Value],
    ) -> Result<Value, Error> {
        self.calls += 1;
        match (&args[0], &args[1]) {
            (Value::Number(Number::Int(a)), Value::Number(Number::Int(b))) => Ok(num(b - a)),
            _ => Ok(num(0)),
        }
    }
}

struct Throws;

impl Invoke for Throws {
    fn call(
        &mut self,
        _realm: &mut Realm,
        _callee: &Value,
        _receiver: Option<usize>,
        _args: &[Value],
    ) -> Result<Value, Error> {
        Err(Error::Thrown(text("boom")))
    }
}

fn new_array(realm: &mut Realm, slots: Vec<Option<Value>>) -> usize {
    let proto = realm.array_proto();
    realm.allocate(ObjectData::array(ArrayStorage::from_storage(slots), proto))
}

fn storage(realm: &Realm, id: usize) -> ArrayStorage {
    realm.array_storage(id).unwrap().clone()
}

fn present(values: Vec<Value>) -> ArrayStorage {
    ArrayStorage::from_storage(values.into_iter().map(Some).collect())
}

fn record(realm: &mut Realm, a: Value, b: Value) -> Value {
    let mut data = ObjectData::plain(None);
    data.props.push((PropKey::Name("a".to_string()), a));
    data.props.push((PropKey::Name("b".to_string()), b));
    Value::Object(realm.allocate(data))
}

#[test]
fn numeric_sort_puts_nan_last() {
    let mut realm = Realm::new();
    let a = new_array(&mut realm, vec![Some(num(3)), Some(num(1)), Some(Value::Number(Number::NaN)), Some(num(2))]);
    let r = sort::sort(&mut realm, &mut Host::new(NoCode), Some(a), &[num(NUMERIC as i64)]);
    assert_eq!(r, Ok(Value::Object(a)));
    assert_eq!(storage(&realm, a), present(vec![num(1), num(2), num(3), Value::Number(Number::NaN)]));
}

#[test]
fn default_sort_compares_text() {
    let mut realm = Realm::new();
    let a = new_array(&mut realm, vec![Some(num(10)), Some(num(9)), Some(num(1))]);
    sort::sort(&mut realm, &mut Host::new(NoCode), Some(a), &[]).unwrap();
    assert_eq!(storage(&realm, a), present(vec![num(1), num(10), num(9)]));
}

#[test]
fn case_insensitive_sort_lowercases() {
    let mut realm = Realm::new();
    let a = new_array(&mut realm, vec![Some(text("b")), Some(text("a")), Some(text("B2")), Some(text("A1"))]);
    sort::sort(&mut realm, &mut Host::new(NoCode), Some(a), &[num(CASE_INSENSITIVE as i64)]).unwrap();
    assert_eq!(storage(&realm, a), present(vec![text("a"), text("A1"), text("b"), text("B2")]));
    let c = new_array(&mut realm, vec![Some(text("a")), Some(text("B"))]);
    sort::sort(&mut realm, &mut Host::new(NoCode), Some(c), &[]).unwrap();
    assert_eq!(storage(&realm, c), present(vec![text("B"), text("a")]));
    sort::sort(&mut realm, &mut Host::new(NoCode), Some(c), &[num(CASE_INSENSITIVE as i64)]).unwrap();
    assert_eq!(storage(&realm, c), present(vec![text("a"), text("B")]));
}

#[test]
fn compare_string_case_insensitive_folds_case() {
    assert_eq!(sort::compare_string_case_insensitive(&text("ABC"), &text("abc")), Ok(Ordering::Equal));
    assert_eq!(sort::compare_string_case_insensitive(&text("a"), &text("B")), Ok(Ordering::Less));
    assert_eq!(sort::compare_string_case_sensitive(&text("a"), &text("B")), Ok(Ordering::Greater));
    assert_eq!(sort::compare_numeric(&text("12"), &num(3)), Ok(Ordering::Greater));
    assert_eq!(sort::compare_numeric(&Value::Number(Number::NaN), &num(3)), Ok(Ordering::Greater));
    assert_eq!(compare_text("ab", "abc"), Ordering::Less);
}

#[test]
fn descending_sort_keeps_undefined_last() {
    let mut realm = Realm::new();
    let a = new_array(&mut realm, vec![Some(Value::Undefined), Some(num(1)), Some(num(3)), Some(num(2))]);
    sort::sort(&mut realm, &mut Host::new(NoCode), Some(a), &[num((NUMERIC | DESCENDING) as i64)]).unwrap();
    assert_eq!(storage(&realm, a), present(vec![num(3), num(2), num(1), Value::Undefined]));
    let b = new_array(&mut realm, vec![None, Some(num(1)), Some(num(2))]);
    sort::sort(&mut realm, &mut Host::new(NoCode), Some(b), &[num((NUMERIC | DESCENDING) as i64)]).unwrap();
    assert_eq!(storage(&realm, b), ArrayStorage::from_storage(vec![Some(num(2)), Some(num(1)), None]));
}

#[test]
fn unique_sort_declines_on_equal_values() {
    let mut realm = Realm::new();
    let slots = vec![Some(num(2)), Some(num(1)), Some(num(2))];
    let a = new_array(&mut realm, slots.clone());
    let r = sort::sort(&mut realm, &mut Host::new(NoCode), Some(a), &[num((NUMERIC | UNIQUE_SORT) as i64)]);
    assert_eq!(r, Ok(num(0)));
    assert_eq!(storage(&realm, a), ArrayStorage::from_storage(slots));
}

#[test]
fn unique_sort_succeeds_on_distinct_values() {
    let mut realm = Realm::new();
    let a = new_array(&mut realm, vec![Some(num(2)), Some(num(1)), Some(num(3))]);
    let r = sort::sort(&mut realm, &mut Host::new(NoCode), Some(a), &[num((NUMERIC | UNIQUE_SORT) as i64)]);
    assert_eq!(r, Ok(Value::Object(a)));
    assert_eq!(storage(&realm, a), present(vec![num(1), num(2), num(3)]));
}

#[test]
fn unique_sort_declines_on_two_undefined() {
    let mut realm = Realm::new();
    let a = new_array(&mut realm, vec![Some(Value::Undefined), Some(num(1)), None]);
    let r = sort::sort(&mut realm, &mut Host::new(NoCode), Some(a), &[num(UNIQUE_SORT as i64)]);
    assert_eq!(r, Ok(num(0)));
}

#[test]
fn indexed_sort_returns_indices() {
    let mut realm = Realm::new();
    let slots = vec![Some(text("c")), Some(text("a")), Some(text("b"))];
    let a = new_array(&mut realm, slots.clone());
    let r = sort::sort(&mut realm, &mut Host::new(NoCode), Some(a), &[num(RETURN_INDEXED_ARRAY as i64)]).unwrap();
    let id = match r {
        Value::Object(o) => o,
        other => panic!("expected an array, got {:?}", other),
    };
    assert_ne!(id, a);
    assert_eq!(storage(&realm, id), present(vec![num(1), num(2), num(0)]));
    assert_eq!(storage(&realm, a), ArrayStorage::from_storage(slots));
}

#[test]
fn user_comparator_orders() {
    let mut realm = Realm::new();
    let a = new_array(&mut realm, vec![Some(num(1)), Some(num(3)), Some(num(2))]);
    let mut host = Host::new(Descending { calls: 0 });
    let r = sort::sort(&mut realm, &mut host, Some(a), &[text("compare"), num(0)]);
    assert_eq!(r, Ok(Value::Object(a)));
    assert!(host.inner.calls > 0);
    assert_eq!(storage(&realm, a), present(vec![num(3), num(2), num(1)]));
}

#[test]
fn user_comparator_error_propagates() {
    let mut realm = Realm::new();
    let a = new_array(&mut realm, vec![Some(num(1)), Some(num(3))]);
    let r = sort::sort(&mut realm, &mut Host::new(Throws), Some(a), &[text("compare"), num(0)]);
    assert_eq!(r, Err(Error::Thrown(text("boom"))));
}

#[test]
fn null_comparator_is_type_error() {
    let mut realm = Realm::new();
    let a = new_array(&mut realm, vec![Some(num(1))]);
    assert!(matches!(sort::sort(&mut realm, &mut Host::new(NoCode), Some(a), &[Value::Null, num(0)]), Err(Error::TypeError(_))));
}

#[test]
fn sort_on_numeric_then_text() {
    let mut realm = Realm::new();
    let r1 = record(&mut realm, num(2), text("x"));
    let r2 = record(&mut realm, num(1), text("z"));
    let r3 = record(&mut realm, num(2), text("a"));
    let r4 = record(&mut realm, num(10), text("b"));
    let a = new_array(&mut realm, vec![Some(r1.clone()), Some(r2.clone()), Some(r3.clone()), Some(r4.clone())]);
    let fields = new_array(&mut realm, vec![Some(text("a")), Some(text("b"))]);
    let options = new_array(&mut realm, vec![Some(num(NUMERIC as i64)), Some(num(0))]);
    let r = sort::sort_on(&mut realm, &mut Host::new(NoCode), Some(a), &[Value::Object(fields), Value::Object(options)]);
    assert_eq!(r, Ok(Value::Object(a)));
    assert_eq!(storage(&realm, a), present(vec![r2, r3, r1, r4]));
}

#[test]
fn sort_on_pads_options_with_the_last() {
    let mut realm = Realm::new();
    let r1 = record(&mut realm, num(1), text("10"));
    let r2 = record(&mut realm, num(1), text("9"));
    let a = new_array(&mut realm, vec![Some(r1.clone()), Some(r2.clone())]);
    let fields = new_array(&mut realm, vec![Some(text("a")), Some(text("b"))]);
    sort::sort_on(&mut realm, &mut Host::new(NoCode), Some(a), &[Value::Object(fields), num(NUMERIC as i64)]).unwrap();
    assert_eq!(storage(&realm, a), present(vec![r2, r1]));
}

#[test]
fn sort_on_single_field_descending() {
    let mut realm = Realm::new();
    let r1 = record(&mut realm, text("p"), num(0));
    let r2 = record(&mut realm, text("q"), num(0));
    let a = new_array(&mut realm, vec![Some(r1.clone()), Some(r2.clone())]);
    sort::sort_on(&mut realm, &mut Host::new(NoCode), Some(a), &[text("a"), num(DESCENDING as i64)]).unwrap();
    assert_eq!(storage(&realm, a), present(vec![r2, r1]));
}

#[test]
fn sort_on_null_element_is_type_error() {
    let mut realm = Realm::new();
    let r1 = record(&mut realm, num(1), num(0));
    let a = new_array(&mut realm, vec![Some(r1), Some(Value::Null)]);
    assert!(matches!(sort::sort_on(&mut realm, &mut Host::new(NoCode), Some(a), &[text("a")]), Err(Error::TypeError(_))));
}

#[test]
fn sort_options_drop_unknown_bits() {
    let o = SortOptions::from_bits_truncate(0xFF);
    assert_eq!(o.bits(), 31);
    assert!(o.contains(NUMERIC));
    assert!(!SortOptions::empty().contains(DESCENDING));
    assert_eq!(o.intersection(UNIQUE_SORT | RETURN_INDEXED_ARRAY).bits(), 12);
}

#[test]
fn sort_on_non_array_is_zero() {
    let mut realm = Realm::new();
    let o = realm.allocate(ObjectData::plain(None));
    assert_eq!(sort::sort(&mut realm, &mut Host::new(NoCode), Some(o), &[]), Ok(num(0)));
    assert_eq!(sort::sort(&mut realm, &mut Host::new(NoCode), None, &[]), Ok(num(0)));
    assert_eq!(sort::sort_on(&mut realm, &mut Host::new(NoCode), Some(o), &[text("a")]), Ok(num(0)));
    let _ = array::length(&realm, Some(o), &[]);
}

/// Answers that every two values are equal, counting its calls.
struct AllEqual {
    calls: usize,
}

impl Invoke for AllEqual {
    fn call(
        &mut self,
        _realm: &mut Realm,
        _callee: &Value,
        _receiver: Option<usize>,
        _args: &[Value],
    ) -> Result<Value, Error> {
        self.calls += 1;
        Ok(num(0))
    }
}

/// Fails on its first call, counting its calls.
struct FailsOnce {
    calls: usize,
}

impl Invoke for FailsOnce {
    fn call(
        &mut self,
        _realm: &mut Realm,
        _callee: &Value,
        _receiver: Option<usize>,
        _args: &[Value],
    ) -> Result<Value, Error> {
        self.calls += 1;
        Err(Error::Thrown(num(7)))
    }
}

#[test]
fn user_comparator_equal_declines_unique_sort() {
    let mut realm = Realm::new();
    let slots = vec![Some(num(2)), Some(num(1)), Some(num(3))];
    let a = new_array(&mut realm, slots.clone());
    let mut host = Host::new(AllEqual { calls: 0 });
    let r = sort::sort(&mut realm, &mut host, Some(a), &[text("f"), num(UNIQUE_SORT as i64)]);
    assert_eq!(r, Ok(num(0)));
    assert!(host.inner.calls > 0);
    assert_eq!(storage(&realm, a), ArrayStorage::from_storage(slots));
}

#[test]
fn comparator_error_stops_the_sort() {
    let mut realm = Realm::new();
    let a = new_array(&mut realm, vec![Some(num(2)), Some(num(1)), Some(num(3)), Some(num(0))]);
    let mut host = Host::new(FailsOnce { calls: 0 });
    let r = sort::sort(&mut realm, &mut host, Some(a), &[text("f"), num(0)]);
    assert_eq!(r, Err(Error::Thrown(num(7))));
    assert_eq!(host.inner.calls, 1);
}

#[test]
fn user_comparator_indexed_result() {
    let mut realm = Realm::new();
    let slots = vec![Some(num(1)), Some(num(3)), Some(num(2))];
    let a = new_array(&mut realm, slots.clone());
    let mut host = Host::new(Descending { calls: 0 });
    let r = sort::sort(&mut realm, &mut host, Some(a), &[text("f"), num(RETURN_INDEXED_ARRAY as i64)]).unwrap();
    let id = match r {
        Value::Object(o) => o,
        other => panic!("expected an array, got {:?}", other),
    };
    assert_eq!(storage(&realm, id), present(vec![num(1), num(2), num(0)]));
    assert_eq!(storage(&realm, a), ArrayStorage::from_storage(slots));
}

#[test]
fn sort_on_string_length() {
    let mut realm = Realm::new();
    let a = new_array(&mut realm, vec![Some(text("ccc")), Some(text("a")), Some(text("bb"))]);
    sort::sort_on(&mut realm, &mut Host::new(NoCode), Some(a), &[text("length"), num(NUMERIC as i64)]).unwrap();
    assert_eq!(storage(&realm, a), present(vec![text("a"), text("bb"), text("ccc")]));
}
