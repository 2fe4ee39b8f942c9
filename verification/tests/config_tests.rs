use runic::heap_config::HeapConfig;
use runic::table_capacity::TableCapacity;

#[test]
fn heap_config_stores_table_capacities() {
    let run_capacity = TableCapacity::new(3).unwrap();
    let extent_capacity = TableCapacity::new(5).unwrap();
    let config = HeapConfig::new(run_capacity, extent_capacity);

    assert_eq!(config.run_capacity(), run_capacity);
    assert_eq!(config.extent_capacity(), extent_capacity);
}

#[test]
fn heap_config_default_uses_default_capacity() {
    let config = HeapConfig::default();
    assert_eq!(config.run_capacity().get(), 65_536);
    assert_eq!(config.extent_capacity().get(), 65_536);
}

#[test]
fn table_capacity_accepts_positive_value() {
    assert_eq!(TableCapacity::new(1).unwrap().get(), 1);
}

#[test]
fn table_capacity_rejects_zero() {
    assert_eq!(TableCapacity::new(0), None);
}

#[test]
fn table_capacity_bounds() {
    assert_eq!(TableCapacity::new(4_294_967_295).unwrap().get(), 4_294_967_295);
    assert_eq!(TableCapacity::new(4_294_967_296), None);
}
