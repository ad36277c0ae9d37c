use rubbl::vk_miriad::{HeaderItem, ItemInfo, MiriadElementaryType, SmallItem, Type, HEADER_RECORD_SIZE};

#[test]
fn test_header_item_size() {
    assert_eq!(::std::mem::size_of::<HeaderItem>(), HEADER_RECORD_SIZE);
}

#[test]
fn small_item_starts_zeroed() {
    let s = SmallItem::new("vislen", Type::Int64, 1);
    assert_eq!(s.name, "vislen");
    assert_eq!(s.ty, Type::Int64);
    assert_eq!(s.nvals, 1);
    assert!(s.values.iter().all(|b| *b == 0));
}

#[test]
fn elementary_types() {
    assert_eq!(u8::elementary_type(), Type::Binary);
    assert_eq!(i8::elementary_type(), Type::Int8);
    assert_eq!(i16::elementary_type(), Type::Int16);
    assert_eq!(i32::elementary_type(), Type::Int32);
    assert_eq!(i64::elementary_type(), Type::Int64);
    let i = ItemInfo { name: "x".to_string(), is_large: false, ty: Type::Int32, n_vals: 3 };
    assert_eq!(i.ty.size() * i.n_vals, 12);
    assert!(!i.is_large);
}
