use rewind::component_history::TickData;
use rewind::registry::{load_default, HistoryComponent, LoadPolicy, RollbackRegistry};

#[derive(Clone, Copy, PartialEq, Eq, Debug)]
pub struct C(pub u8, pub u16);

#[test]
fn register_hands_out_indices() {
    let mut registry = RollbackRegistry::new();
    assert_eq!(0, registry.len());
    assert_eq!(0, registry.register::<C>());
    assert_eq!(1, registry.register_with_load::<u64>());
    assert_eq!(2, registry.len());

    let c = registry.get(0).unwrap();
    assert_eq!(4, c.size());
    assert_eq!(2, c.layout().align());
    assert_eq!(LoadPolicy::PreferAuthoritative, c.load_policy());

    let u = registry.get(1).unwrap();
    assert_eq!(8, u.size());
    assert_eq!(LoadPolicy::Custom, u.load_policy());

    assert!(registry.get(2).is_none());
}

#[test]
fn descriptors_of_zero_sized_types() {
    let d = HistoryComponent::new::<()>();
    assert_eq!(0, d.size());
    assert_eq!(1, d.layout().align());
}

#[test]
fn default_load_prefers_authoritative() {
    let a = C(1, 1);
    let p = C(2, 2);
    assert_eq!(Some(&a), load_default(Some(&a), Some(&p)));
    assert_eq!(Some(&p), load_default(None, Some(&p)));
    assert_eq!(Some(&a), load_default(Some(&a), None));
    assert_eq!(None, load_default::<C>(None, None));
}

#[test]
fn tick_data_copied_and_value() {
    let v = C(3, 4);
    let d: TickData<&C> = TickData::Value(&v);
    assert_eq!(TickData::Value(C(3, 4)), d.copied());
    assert_eq!(TickData::<C>::Removed, TickData::<&C>::Removed.copied());
    assert_eq!(Some(C(3, 4)), d.copied().value());
    assert_eq!(None, TickData::<C>::Missing.value());
}

#[derive(Clone, PartialEq, Eq, Debug)]
pub struct S(pub String);

#[test]
fn tick_data_cloned_and_map() {
    let v = S("a".to_string());
    let d: TickData<&S> = TickData::Value(&v);
    assert_eq!(TickData::Value(S("a".to_string())), d.cloned());
    assert_eq!(TickData::<S>::Missing, TickData::<&S>::Missing.cloned());

    let n: TickData<u32> = TickData::Value(4);
    assert_eq!(TickData::Value(8), n.map(|x| x * 2));
    assert_eq!(TickData::<u32>::Removed, TickData::<u32>::Removed.map(|x| x * 2));
}
