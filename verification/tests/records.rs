use item_collection::{Array, Double, Item, ItemCollection, Tuple};

fn number(value: f64) -> Double {
    Double::from_bits(value.to_bits())
}

fn float(value: Double) -> f64 {
    f64::from_bits(value.to_bits())
}

fn check_sum_and_default<T: ItemCollection + Default>() {
    let mut collection = T::default();
    assert!(collection.is_default());
    assert_eq!(float(collection.sum()), 0.0);

    collection.set_item(Item::First, number(10.0));
    collection.set_item(Item::Second, number(20.0));
    collection.set_item(Item::Third, number(30.0));

    assert!(!collection.is_default());
    assert_eq!(float(collection.sum()), 60.0);
}

#[test]
fn test_tuple() {
    check_sum_and_default::<Tuple>();
}

#[test]
fn test_array() {
    check_sum_and_default::<Array>();
}

#[test]
fn index_follows_declaration_order() {
    assert_eq!(Item::First.index(), 0);
    assert_eq!(Item::Second.index(), 1);
    assert_eq!(Item::Third.index(), 2);
    // The same key gives the same index every time.
    for _ in 0..3 {
        assert_eq!(Item::Second.index(), 1);
    }
}

#[test]
fn fresh_records_read_positive_zero_everywhere() {
    let tuple = Tuple::default();
    let array = Array::default();
    for item in [Item::First, Item::Second, Item::Third] {
        assert_eq!(tuple.get_item(item).to_bits(), 0);
        assert_eq!(array.get_item(item).to_bits(), 0);
    }
    assert_eq!(tuple.sum().to_bits(), 0);
    assert_eq!(array.sum().to_bits(), 0);
}

#[test]
fn array_write_leaves_other_slots_alone() {
    let mut array = Array::default();
    array.set_item(Item::Second, number(5.5));
    assert_eq!(float(array.get_item(Item::First)), 0.0);
    assert_eq!(float(array.get_item(Item::Second)), 5.5);
    assert_eq!(float(array.get_item(Item::Third)), 0.0);
}

#[test]
fn tuple_write_leaves_other_slots_alone() {
    let mut tuple = Tuple::default();
    tuple.set_item(Item::First, number(7.0));
    tuple.set_item(Item::Third, number(-2.25));
    tuple.set_item(Item::Second, number(5.5));
    assert_eq!(float(tuple.get_item(Item::First)), 7.0);
    assert_eq!(float(tuple.get_item(Item::Second)), 5.5);
    assert_eq!(float(tuple.get_item(Item::Third)), -2.25);
    tuple.set_item(Item::First, number(1.0));
    assert_eq!(float(tuple.get_item(Item::Second)), 5.5);
    assert_eq!(float(tuple.get_item(Item::Third)), -2.25);
}

#[test]
fn array_reads_back_exactly_what_was_written() {
    let values = [
        0.1,
        -0.1,
        10.7,
        1.0e300,
        -1.0e-300,
        5.0e-324,
        f64::MAX,
        f64::MIN_POSITIVE,
        123456789.123456789,
        -0.0,
        f64::INFINITY,
    ];
    for item in [Item::First, Item::Second, Item::Third] {
        for value in values {
            let mut array = Array::default();
            array.set_item(item, number(value));
            assert_eq!(array.get_item(item).to_bits(), value.to_bits());
        }
    }
    let mut array = Array::default();
    array.set_item(Item::Third, Double::from_bits(0x7ff0_0000_0000_beef));
    assert_eq!(array.get_item(Item::Third).to_bits(), 0x7ff0_0000_0000_beef);
}

#[test]
fn tuple_first_slot_keeps_the_integer_part() {
    let mut tuple = Tuple::default();
    tuple.set_item(Item::First, number(10.7));
    assert_eq!(float(tuple.get_item(Item::First)), 10.0);
    tuple.set_item(Item::First, number(0.999));
    assert_eq!(float(tuple.get_item(Item::First)), 0.0);
    tuple.set_item(Item::First, number(4294967295.5));
    assert_eq!(float(tuple.get_item(Item::First)), 4294967295.0);
    tuple.set_item(Item::First, number(2147483648.75));
    assert_eq!(float(tuple.get_item(Item::First)), 2147483648.0);
}

#[test]
fn tuple_first_slot_stays_within_the_integer_range() {
    let mut tuple = Tuple::default();
    tuple.set_item(Item::First, number(-5.0));
    assert_eq!(float(tuple.get_item(Item::First)), 0.0);
    tuple.set_item(Item::First, number(-0.5));
    assert_eq!(tuple.get_item(Item::First).to_bits(), 0);
    tuple.set_item(Item::First, number(4294967296.0));
    assert_eq!(float(tuple.get_item(Item::First)), 4294967295.0);
    tuple.set_item(Item::First, number(1.0e20));
    assert_eq!(float(tuple.get_item(Item::First)), 4294967295.0);
    tuple.set_item(Item::First, number(f64::INFINITY));
    assert_eq!(float(tuple.get_item(Item::First)), 4294967295.0);
    tuple.set_item(Item::First, number(f64::NEG_INFINITY));
    assert_eq!(float(tuple.get_item(Item::First)), 0.0);
    tuple.set_item(Item::First, number(f64::NAN));
    assert_eq!(float(tuple.get_item(Item::First)), 0.0);
}

#[test]
fn tuple_second_slot_keeps_the_nearest_single() {
    let mut tuple = Tuple::default();
    tuple.set_item(Item::Second, number(0.1));
    assert_eq!(float(tuple.get_item(Item::Second)), 0.1f32 as f64);
    assert_eq!(float(tuple.get_item(Item::Second)), 0.100000001490116119384765625);
    tuple.set_item(Item::Second, number(16777217.0));
    assert_eq!(float(tuple.get_item(Item::Second)), 16777216.0);
    tuple.set_item(Item::Second, number(16777219.0));
    assert_eq!(float(tuple.get_item(Item::Second)), 16777220.0);
    tuple.set_item(Item::Second, number(123456789.0));
    assert_eq!(float(tuple.get_item(Item::Second)), 123456792.0);
    tuple.set_item(Item::Second, number(1.0e39));
    assert_eq!(float(tuple.get_item(Item::Second)), f64::INFINITY);
    tuple.set_item(Item::Second, number(-1.0e-46));
    assert_eq!(tuple.get_item(Item::Second).to_bits(), (-0.0f64).to_bits());
    tuple.set_item(Item::Second, number(1.0e-40));
    assert_eq!(float(tuple.get_item(Item::Second)), 1.0e-40f32 as f64);
    tuple.set_item(Item::Second, number(f64::NAN));
    assert!(float(tuple.get_item(Item::Second)).is_nan());
}

#[test]
fn tuple_third_slot_loses_nothing() {
    let mut tuple = Tuple::default();
    for value in [0.1, -1.0e300, 5.0e-324, 10.7] {
        tuple.set_item(Item::Third, number(value));
        assert_eq!(tuple.get_item(Item::Third).to_bits(), value.to_bits());
    }
}

#[test]
fn zero_of_either_sign_is_default_and_nothing_else() {
    let mut array = Array::default();
    array.set_item(Item::Second, number(-0.0));
    assert!(array.is_default());
    array.set_item(Item::Second, number(5.0e-324));
    assert!(!array.is_default());
    array.set_item(Item::Second, number(0.0));
    assert!(array.is_default());
    array.set_item(Item::Third, number(f64::NAN));
    assert!(!array.is_default());

    let mut tuple = Tuple::default();
    // Below one the first slot stores zero, below the smallest single the second.
    tuple.set_item(Item::First, number(0.75));
    tuple.set_item(Item::Second, number(1.0e-50));
    assert!(tuple.is_default());
    tuple.set_item(Item::Third, number(-1.0e-320));
    assert!(!tuple.is_default());
}

#[test]
fn sum_adds_from_left_to_right() {
    let mut array = Array::default();
    array.set_item(Item::First, number(1.0e16));
    array.set_item(Item::Second, number(1.0));
    array.set_item(Item::Third, number(1.0));
    assert_eq!(float(array.sum()), (1.0e16 + 1.0) + 1.0);
    assert_eq!(float(array.sum()), 1.0e16);

    array.set_item(Item::First, number(1.0));
    array.set_item(Item::Second, number(1.0));
    array.set_item(Item::Third, number(1.0e16));
    assert_eq!(float(array.sum()), 1.0e16 + 2.0);
}

#[test]
fn sum_of_exact_values() {
    let mut array = Array::default();
    array.set_item(Item::First, number(0.5));
    array.set_item(Item::Second, number(-0.25));
    array.set_item(Item::Third, number(1.0e-3));
    assert_eq!(float(array.sum()), 0.251);
    assert_eq!(array.sum().to_bits(), 0x3fd0_1062_4dd2_f1aa);
}

#[test]
fn both_layouts_agree_on_values_that_the_tuple_keeps() {
    let writes = [
        (Item::First, 12.0),
        (Item::Second, 0.5),
        (Item::Third, -3.75),
        (Item::First, 4000000000.0),
        (Item::Second, -1024.0),
        (Item::Third, 0.1),
        (Item::Second, 0.0),
        (Item::First, 0.0),
        (Item::Third, 0.0),
    ];
    let mut tuple = Tuple::default();
    let mut array = Array::default();
    for (item, value) in writes {
        tuple.set_item(item, number(value));
        array.set_item(item, number(value));
        assert_eq!(tuple.sum().to_bits(), array.sum().to_bits());
        assert_eq!(tuple.is_default(), array.is_default());
        for key in [Item::First, Item::Second, Item::Third] {
            assert_eq!(tuple.get_item(key).to_bits(), array.get_item(key).to_bits());
        }
    }
    assert!(tuple.is_default());
}

#[test]
fn layouts_differ_only_by_what_the_tuple_loses() {
    let mut tuple = Tuple::default();
    let mut array = Array::default();
    for (item, value) in [(Item::First, 10.7), (Item::Second, 0.1), (Item::Third, 0.3)] {
        tuple.set_item(item, number(value));
        array.set_item(item, number(value));
    }
    assert_eq!(float(array.sum()), (10.7 + 0.1) + 0.3);
    assert_eq!(float(tuple.sum()), (10.0 + 0.1f32 as f64) + 0.3);
}
