use intervalues::IntFloat;

#[test]
fn intfloat_setters_work_on_a_copy() {
    let x = IntFloat::new(15, 1);
    x.set_base(25);
    assert_eq!(x, IntFloat::new(15, 1));
    x.set_pow(3);
    assert_eq!(x, IntFloat::new(15, 1));
    assert_eq!(IntFloat::default(), IntFloat::new(0, 0));
}
