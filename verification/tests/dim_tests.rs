use rutilelib::dim::Dim;

#[test]
fn static_dimension_works() {
    let d = Dim::<32>::static_dim();
    assert!(d.is_static());
    assert_eq!(d.value(), 32);
    assert_eq!(d.to_string(), "_32");
}

#[test]
fn dynamic_dimension_works() {
    let n = 17;
    let d = Dim::<0>::dynamic(n);
    assert!(!d.is_static());
    assert_eq!(d.value(), n);
    assert_eq!(d.to_string(), "17");
}

#[test]
fn from_usize_for_dynamic() {
    let d: Dim<0> = 42usize.into();
    assert_eq!(d.value(), 42);
}

#[test]
fn static_is_zero_cost() {
    let d = Dim::<64>::static_dim();
    let v = d.value();
    assert_eq!(v, 64);
    let k = d.to_dynamic();
    let v = k.value();
    assert_eq!(v, 64);
}
