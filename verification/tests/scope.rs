use lexical_scope::{Class, Construct, Func, Locked, Scope, Settable, Slot, Value};
use std::sync::Arc;

type Native = fn(i64) -> i64;

fn double(x: i64) -> i64 {
    2 * x
}

fn negate(x: i64) -> i64 {
    -x
}

struct Text;

impl Construct<Native> for Text {
    fn construct() -> Native {
        double
    }
}

impl Settable<Native> for Text {
    fn set() -> Native {
        negate
    }
}

fn names_of(scope: &Scope<Native>) -> Vec<String> {
    scope.iter().iter().map(|(name, _)| name.to_string()).collect()
}

#[test]
fn new_scope_is_empty() {
    let scope: Scope<Native> = Scope::new();
    assert!(scope.get("x").is_none());
    assert!(scope.get("").is_none());
    assert!(scope.iter().is_empty());
}

#[test]
fn name_is_absent_before_and_present_after_def_const() {
    let mut scope: Scope<Native> = Scope::new();
    assert!(scope.get("x").is_none());
    scope.def_const("x", Value::Int(7));
    let slot = scope.get("x").expect("x was defined");
    assert_eq!(slot.get(), Value::Int(7));
    assert!(scope.get("y").is_none());
}

#[test]
fn name_is_absent_before_and_present_after_def_mut() {
    let mut scope: Scope<Native> = Scope::new();
    assert!(scope.get("count").is_none());
    scope.def_mut("count", Value::Int(0));
    let slot = scope.get("count").expect("count was defined");
    assert!(!slot.locked());
    assert_eq!(slot.get(), Value::Int(0));
}

#[test]
fn name_is_absent_before_and_present_after_def_slot() {
    let mut scope: Scope<Native> = Scope::new();
    assert!(scope.get("s").is_none());
    scope.def_slot("s", Slot::new_mut(Value::Str("hi".to_string())));
    let slot = scope.get("s").expect("s was defined");
    assert_eq!(slot.get(), Value::Str("hi".to_string()));
}

#[test]
fn redefinition_replaces_the_binding() {
    let mut scope: Scope<Native> = Scope::new();
    scope.def_mut("x", Value::Int(1));
    let captured = scope.get("x").expect("x was defined").clone();
    scope.def_mut("x", Value::Int(2));
    assert_eq!(scope.get("x").expect("x is defined").get(), Value::Int(2));
    assert_eq!(captured.get(), Value::Int(1));
    assert_eq!(scope.iter().len(), 1);
    // The old slot is cut off from the name: writing it does not show.
    assert_eq!(captured.set(Value::Int(10)), Ok(()));
    assert_eq!(captured.get(), Value::Int(10));
    assert_eq!(scope.get("x").expect("x is defined").get(), Value::Int(2));
}

#[test]
fn redefinition_can_change_mutability() {
    let mut scope: Scope<Native> = Scope::new();
    scope.def_const("x", Value::Int(1));
    let captured = scope.get("x").expect("x was defined").clone();
    scope.def_mut("x", Value::Int(2));
    let now = scope.get("x").expect("x is defined");
    assert!(!now.locked());
    assert_eq!(now.set(Value::Int(3)), Ok(()));
    assert_eq!(now.get(), Value::Int(3));
    assert!(captured.locked());
    assert_eq!(captured.get(), Value::Int(1));
}

#[test]
fn constant_slot_rejects_writes_and_keeps_its_value() {
    let mut scope: Scope<Native> = Scope::new();
    scope.def_const("pi", Value::Int(3));
    let slot = scope.get("pi").expect("pi was defined");
    assert!(slot.locked());
    assert_eq!(slot.set(Value::Int(4)), Err(Locked));
    assert_eq!(slot.get(), Value::Int(3));
    assert_eq!(slot.set(Value::Unit), Err(Locked));
    assert_eq!(slot.get(), Value::Int(3));
}

#[test]
fn constant_slot_stays_locked_under_an_alias() {
    let mut scope: Scope<Native> = Scope::new();
    scope.def_const("pi", Value::Int(3));
    let handle = scope.get("pi").expect("pi was defined").clone();
    let mut other: Scope<Native> = Scope::new();
    other.def_slot("tau_half", handle.clone());
    let alias = other.get("tau_half").expect("alias was defined");
    assert!(alias.locked());
    assert_eq!(alias.set(Value::Int(0)), Err(Locked));
    assert_eq!(alias.get(), Value::Int(3));
    assert_eq!(handle.set(Value::Int(0)), Err(Locked));
    assert_eq!(scope.get("pi").expect("pi is defined").get(), Value::Int(3));
}

#[test]
fn mutable_slot_is_shared_between_names() {
    let mut scope: Scope<Native> = Scope::new();
    scope.def_mut("a", Value::Int(1));
    let handle = scope.get("a").expect("a was defined").clone();
    scope.def_slot("b", handle);
    assert_eq!(scope.get("b").expect("b was defined").set(Value::Int(5)), Ok(()));
    assert_eq!(scope.get("a").expect("a is defined").get(), Value::Int(5));
    assert_eq!(scope.get("b").expect("b is defined").get(), Value::Int(5));
}

#[test]
fn mutable_slot_takes_every_kind_of_value() {
    let slot: Slot<Native> = Slot::new_mut(Value::Unit);
    assert_eq!(slot.get(), Value::Unit);
    assert_eq!(slot.set(Value::Bool(true)), Ok(()));
    assert_eq!(slot.get(), Value::Bool(true));
    assert_eq!(slot.set(Value::Str("text".to_string())), Ok(()));
    assert_eq!(slot.get(), Value::Str("text".to_string()));
    assert_eq!(slot.get(), Value::Str("text".to_string()));
    assert_eq!(slot.set(Value::Func(Func::native("double", double as Native))), Ok(()));
    match slot.get() {
        Value::Func(f) => {
            assert_eq!(f.name, "double");
            assert_eq!((*f.native)(4), 8);
        }
        other => panic!("not a function: {:?}", other),
    }
}

#[test]
fn new_const_and_new_mut_differ_in_the_lock_only() {
    let c: Slot<Native> = Slot::new_const(Value::Int(9));
    let m: Slot<Native> = Slot::new_mut(Value::Int(9));
    assert!(c.locked());
    assert!(!m.locked());
    assert_eq!(c.get(), Value::Int(9));
    assert_eq!(m.get(), Value::Int(9));
}

#[test]
fn def_func_defines_a_constant_function() {
    let mut scope: Scope<Native> = Scope::new();
    assert!(scope.get("double").is_none());
    scope.def_func("double", double);
    let slot = scope.get("double").expect("double was defined");
    assert!(slot.locked());
    assert_eq!(slot.set(Value::Int(0)), Err(Locked));
    match slot.get() {
        Value::Func(f) => {
            assert_eq!(f.name, "double");
            assert_eq!((*f.native)(21), 42);
        }
        other => panic!("not a function: {:?}", other),
    }
}

#[test]
fn def_class_defines_a_constant_class() {
    let mut scope: Scope<Native> = Scope::new();
    assert!(scope.get("text").is_none());
    scope.def_class::<Text>("text");
    let slot = scope.get("text").expect("text was defined");
    assert!(slot.locked());
    assert_eq!(slot.set(Value::Int(0)), Err(Locked));
    match slot.get() {
        Value::Class(c) => {
            assert_eq!(c.name, "text");
            assert_eq!((*c.construct)(4), 8);
            assert_eq!((*c.set)(4), -4);
        }
        other => panic!("not a class: {:?}", other),
    }
}

#[test]
fn class_from_parts_keeps_the_parts() {
    let c: Class<Native> = Class::from_parts("node", negate, double);
    assert_eq!(c.name, "node");
    assert_eq!((*c.construct)(3), -3);
    assert_eq!((*c.set)(3), 6);
    let d: Class<Native> = Class::new::<Text>("text");
    assert_eq!(d.name, "text");
    assert_eq!((*d.construct)(3), 6);
    assert_eq!((*d.set)(3), -3);
}

#[test]
fn value_clone_is_equal() {
    let values: Vec<Value<Native>> = vec![
        Value::Unit,
        Value::Bool(false),
        Value::Int(-5),
        Value::Str("s".to_string()),
        Value::Func(Func::native("negate", negate as Native)),
        Value::Class(Class::from_parts("c", double as Native, negate as Native)),
    ];
    for v in values.iter() {
        assert_eq!(&v.clone(), v);
    }
}

#[test]
fn enumeration_is_sorted_by_name() {
    let mut scope: Scope<Native> = Scope::new();
    scope.def_const("b", Value::Int(2));
    scope.def_const("a", Value::Int(1));
    let listing: Vec<(String, Value<Native>)> =
        scope.iter().iter().map(|(name, slot)| (name.to_string(), slot.get())).collect();
    assert_eq!(
        listing,
        vec![("a".to_string(), Value::Int(1)), ("b".to_string(), Value::Int(2))]
    );
}

#[test]
fn enumeration_does_not_depend_on_insertion_order() {
    let mut first: Scope<Native> = Scope::new();
    first.def_const("a", Value::Int(1));
    first.def_const("b", Value::Int(2));
    let mut second: Scope<Native> = Scope::new();
    second.def_const("b", Value::Int(2));
    second.def_const("a", Value::Int(1));
    assert_eq!(names_of(&first), names_of(&second));
    assert_eq!(names_of(&first), vec!["a".to_string(), "b".to_string()]);
}

#[test]
fn enumeration_of_many_names() {
    let mut scope: Scope<Native> = Scope::new();
    let mut expected: Vec<String> = Vec::new();
    // 37 is coprime to 101, so this walks all residues in a scrambled order.
    for k in 0..101u32 {
        let n = (k * 37) % 101;
        let name = format!("v{:03}", n);
        scope.def_mut(&name, Value::Int(n as i64));
        expected.push(name);
    }
    expected.sort();
    assert_eq!(names_of(&scope), expected);
    for k in 0..101u32 {
        let name = format!("v{:03}", k);
        assert_eq!(scope.get(&name).expect("defined").get(), Value::Int(k as i64));
    }
    assert!(scope.get("v101").is_none());
    assert!(scope.get("v").is_none());
    assert!(scope.get("v0000").is_none());
}

#[test]
fn enumeration_orders_names_by_their_bytes() {
    let mut scope: Scope<Native> = Scope::new();
    for name in ["b", "", "ab", "a", "B", "é", "z", "abc", "a b"] {
        scope.def_const(name, Value::Unit);
    }
    assert_eq!(names_of(&scope), vec!["", "B", "a", "a b", "ab", "abc", "b", "z", "é"]);
}

#[test]
fn enumeration_is_restartable() {
    let mut scope: Scope<Native> = Scope::new();
    scope.def_const("x", Value::Int(1));
    scope.def_const("y", Value::Int(2));
    assert_eq!(names_of(&scope), names_of(&scope));
    assert_eq!(scope.iter().len(), 2);
}

#[test]
fn scopes_are_local() {
    let mut a: Scope<Native> = Scope::new();
    let mut b: Scope<Native> = Scope::new();
    a.def_const("x", Value::Int(1));
    assert!(b.get("x").is_none());
    b.def_const("y", Value::Int(2));
    assert!(a.get("y").is_none());
    assert_eq!(a.iter().len(), 1);
    assert_eq!(b.iter().len(), 1);
}

#[test]
fn cloned_scope_shares_its_slots() {
    let mut scope: Scope<Native> = Scope::new();
    scope.def_mut("n", Value::Int(1));
    scope.def_const("k", Value::Int(2));
    let copy = scope.clone();
    assert_eq!(names_of(&copy), vec!["k".to_string(), "n".to_string()]);
    assert_eq!(copy.get("n").expect("n is bound").set(Value::Int(5)), Ok(()));
    assert_eq!(scope.get("n").expect("n is bound").get(), Value::Int(5));
    assert_eq!(copy.get("k").expect("k is bound").set(Value::Int(5)), Err(Locked));
    // The bindings themselves are separate.
    scope.def_const("extra", Value::Unit);
    assert!(copy.get("extra").is_none());
}

#[test]
fn default_scope_is_empty() {
    let scope: Scope<Native> = Scope::default();
    assert!(scope.iter().is_empty());
    assert!(scope.get("x").is_none());
}

#[test]
fn cloned_slot_is_the_same_storage() {
    let slot: Slot<Native> = Slot::new_mut(Value::Int(1));
    let other = slot.clone();
    assert_eq!(other.set(Value::Int(2)), Ok(()));
    assert_eq!(slot.get(), Value::Int(2));
    let fixed: Slot<Native> = Slot::new_const(Value::Int(1));
    let alias = fixed.clone();
    assert!(alias.locked());
    assert_eq!(alias.get(), Value::Int(1));
}

#[test]
fn func_native_keeps_name_and_callable() {
    let f: Func<Native> = Func::native("double", double);
    assert_eq!(f.name, "double");
    assert_eq!((*f.native)(7), 14);
    let g = f.clone();
    assert_eq!(g, f);
}

#[test]
fn mutable_slot_releases_its_value_with_the_last_handle() {
    let f: Func<Native> = Func::native("double", double);
    let keep = f.native.clone();
    assert_eq!(Arc::strong_count(&keep), 2);
    let slot: Slot<Native> = Slot::new_mut(Value::Func(f));
    assert_eq!(Arc::strong_count(&keep), 2);
    let alias = slot.clone();
    assert_eq!(Arc::strong_count(&keep), 2);
    drop(slot);
    assert_eq!(Arc::strong_count(&keep), 2);
    drop(alias);
    assert_eq!(Arc::strong_count(&keep), 1);
}

#[test]
fn constant_slot_releases_its_value_with_the_last_handle() {
    let f: Func<Native> = Func::native("double", double);
    let keep = f.native.clone();
    let slot: Slot<Native> = Slot::new_const(Value::Func(f));
    let alias = slot.clone();
    assert_eq!(Arc::strong_count(&keep), 2);
    drop(slot);
    assert_eq!(Arc::strong_count(&keep), 2);
    drop(alias);
    assert_eq!(Arc::strong_count(&keep), 1);
}

#[test]
fn overwritten_value_is_released_at_once() {
    let f: Func<Native> = Func::native("double", double);
    let keep = f.native.clone();
    let slot: Slot<Native> = Slot::new_mut(Value::Func(f));
    assert_eq!(Arc::strong_count(&keep), 2);
    assert_eq!(slot.set(Value::Unit), Ok(()));
    assert_eq!(Arc::strong_count(&keep), 1);
    assert_eq!(slot.get(), Value::Unit);
}

#[test]
fn reading_a_slot_keeps_no_extra_hold_on_its_value() {
    let f: Func<Native> = Func::native("double", double);
    let keep = f.native.clone();
    let slot: Slot<Native> = Slot::new_mut(Value::Func(f));
    let copy = slot.get();
    assert_eq!(Arc::strong_count(&keep), 3);
    drop(copy);
    assert_eq!(Arc::strong_count(&keep), 2);
    assert!(matches!(slot.get(), Value::Func(_)));
    assert_eq!(Arc::strong_count(&keep), 2);
}

#[test]
fn rejected_write_is_dropped() {
    let f: Func<Native> = Func::native("double", double);
    let keep = f.native.clone();
    let slot: Slot<Native> = Slot::new_const(Value::Int(1));
    assert_eq!(slot.set(Value::Func(f)), Err(Locked));
    assert_eq!(Arc::strong_count(&keep), 1);
}

#[test]
fn scope_releases_its_values_when_dropped() {
    let f: Func<Native> = Func::native("double", double);
    let keep = f.native.clone();
    let mut scope: Scope<Native> = Scope::new();
    scope.def_mut("f", Value::Func(f.clone()));
    scope.def_const("g", Value::Func(f));
    assert_eq!(Arc::strong_count(&keep), 3);
    scope.def_mut("f", Value::Unit);
    assert_eq!(Arc::strong_count(&keep), 2);
    drop(scope);
    assert_eq!(Arc::strong_count(&keep), 1);
}

#[test]
fn redefinition_with_def_mut_gives_a_new_slot_and_keeps_the_count() {
    let mut scope: Scope<Native> = Scope::new();
    scope.def_mut("a", Value::Int(0));
    scope.def_mut("n", Value::Int(1));
    scope.def_const("z", Value::Int(26));
    let handle = scope.get("n").expect("n was defined").clone();
    let count = scope.iter().len();
    scope.def_mut("n", Value::Int(2));
    let new = scope.get("n").expect("n is defined");
    assert_eq!(new.get(), Value::Int(2));
    assert_eq!(scope.iter().len(), count);
    assert_eq!(names_of(&scope), vec!["a".to_string(), "n".to_string(), "z".to_string()]);
    // The new slot is not the old one: neither shows what is written to the other.
    assert_eq!(handle.get(), Value::Int(1));
    assert_eq!(new.set(Value::Int(3)), Ok(()));
    assert_eq!(handle.get(), Value::Int(1));
    assert_eq!(handle.set(Value::Int(4)), Ok(()));
    assert_eq!(scope.get("n").expect("n is defined").get(), Value::Int(3));
}

#[test]
fn redefinition_with_the_same_value_gives_a_new_slot() {
    let mut scope: Scope<Native> = Scope::new();
    scope.def_mut("n", Value::Int(1));
    let handle = scope.get("n").expect("n was defined").clone();
    scope.def_mut("n", Value::Int(1));
    assert_eq!(handle.set(Value::Int(9)), Ok(()));
    assert_eq!(scope.get("n").expect("n is defined").get(), Value::Int(1));
}

#[test]
fn contents_are_names_and_current_values_in_order() {
    let mut scope: Scope<Native> = Scope::new();
    assert!(scope.contents().is_empty());
    scope.def_const("b", Value::Int(2));
    scope.def_mut("a", Value::Int(1));
    scope.def_mut("c", Value::Str("three".to_string()));
    assert_eq!(
        scope.contents(),
        vec![("a", Value::Int(1)), ("b", Value::Int(2)), ("c", Value::Str("three".to_string()))]
    );
    assert_eq!(scope.get("a").expect("a is defined").set(Value::Bool(true)), Ok(()));
    assert_eq!(
        scope.contents(),
        vec![("a", Value::Bool(true)), ("b", Value::Int(2)), ("c", Value::Str("three".to_string()))]
    );
}

#[test]
fn contents_do_not_depend_on_insertion_order() {
    let mut first: Scope<Native> = Scope::new();
    first.def_const("a", Value::Int(1));
    first.def_const("b", Value::Int(2));
    let mut second: Scope<Native> = Scope::new();
    second.def_const("b", Value::Int(2));
    second.def_const("a", Value::Int(1));
    assert_eq!(first.contents(), second.contents());
}
