use gc_simulator::gc::TriColor;
use gc_simulator::mem::{Memory, Status};
use gc_simulator::object::{address_from_uuid, Address, Field, Object, ObjectTrait, TypeValue};

#[test]
fn test_create_new_object() {
    let obj1 = Object::new(String::from("test"), TypeValue::Int(1));
    assert_eq!(obj1.ident, "test");
    assert_eq!(obj1.value, Some(TypeValue::Int(1)));
    assert_eq!(obj1.header.size, 144);
    assert_eq!(obj1.header.marked, TriColor::White);
    assert_eq!(obj1.references.len(), 0);

    println!("addr: {:?}", obj1.addr);
}

#[test]
fn test_create_random_object() {
    let obj1 = Object::create_random_object(Some("obj1"));
    println!("{:?}", obj1);
    println!("addr: {:?}\n", obj1.get_address());

    println!("--------");

    let obj2 = Object::create_random_object(Some("obj2"));
    println!("{:?}", obj2);
    println!("addr: {:?}\n", obj2.get_address());

    println!("--------");

    let obj3 = Object::create_random_object(Some("obj3"));
    println!("{:?}", obj3);
    println!("addr: {:?}\n", obj3.get_address());
}

#[test]
fn test_inject_address() {
    let mut obj1 = Object::create_random_object(Some("obj1"));
    let obj2 = Object::create_random_object(Some("obj2"));

    obj1.inject_address(obj2.get_address());
    assert_eq!(obj1.addr, obj2.get_address());
}

#[test]
fn random_objects_follow_their_bounds() {
    for _ in 0..50 {
        let o = Object::create_random_object(None);
        assert_eq!(o.ident, "Random Object");
        assert!(o.fields.len() < 10);
        for f in &o.fields {
            match f {
                Field::Ref(Address::NullPtr) => {}
                Field::Value(TypeValue::Int(v)) => assert!(*v >= 0 && *v < 100),
                other => panic!("unexpected field {:?}", other),
            }
        }
    }
}

#[test]
fn random_draws_vary() {
    let lens: Vec<usize> = (0..60).map(|_| Object::create_random_object(None).fields.len()).collect();
    assert!(lens.iter().any(|l| *l != lens[0]));
}

#[test]
fn size_counts_words_and_header() {
    let mut o = Object::new(String::from("s"), TypeValue::Int(0));
    o.fields.push(Field::new_ref(3));
    o.fields.push(Field::new_instance(TypeValue::Int(7)));
    assert_eq!(o.size(), 2 * 8 + 144);
    assert_eq!(o.len(), 144);
    assert!(!o.is_empty());
    assert!(!o.is_marked());
    o.header.marked = TriColor::Gray;
    assert!(o.is_marked());
}

#[test]
fn references_are_a_set() {
    let mut a = Object::new(String::from("a"), TypeValue::Int(0));
    let b = Object::new(String::from("b"), TypeValue::Int(1));
    assert_eq!(a.add_reference(b.clone()), 1);
    assert_eq!(a.add_reference(b.clone()), 1);
    assert_eq!(a.remove_reference(b), 0);
}

#[test]
fn field_from_draw_picks_kind() {
    assert_eq!(Field::from_draw(0, 5), Field::Ref(Address::NullPtr));
    assert_eq!(Field::from_draw(1, 5), Field::Value(TypeValue::Int(5)));
}

#[test]
fn address_from_uuid_drops_low_bits() {
    assert_eq!(address_from_uuid(5 * 0x1_0000_0000 + 77), 5);
    assert_eq!(address_from_uuid(0), 0);
    let id: u128 = (3u128 << 80) | (0x7u128 << 76) | (2u128 << 64) | (0x2u128 << 62) | (1u128 << 32) | 99;
    assert_eq!(address_from_uuid(id), (3usize << 42) + (2usize << 30) + 1);
}

#[test]
fn getters_return_fields() {
    let o = Object::new(String::from("name"), TypeValue::Int(9));
    assert_eq!(o.get_ident(), "name");
    assert_eq!(o.get_value(), Some(TypeValue::Int(9)));
    let c = o.clone();
    assert_eq!(c, o);
}

#[test]
fn memory_cells_report_status() {
    assert_eq!(Memory::free().inspector(), "Free");
    assert_eq!(Memory::new(Status::Allocated).inspector(), "Allocated");
    assert_eq!(Memory::new(Status::Marked).inspector(), "Marked");
    assert_eq!(Memory::new(Status::Used).inspector(), "Used");
}
