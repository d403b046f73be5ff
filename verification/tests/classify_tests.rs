use procenv::classify::EnvVal;

#[test]
fn fail_precedes_nothing() {
    assert!(EnvVal::Fail.lt(&EnvVal::Nothing));
    assert!(!EnvVal::Nothing.lt(&EnvVal::Fail));
}

#[test]
fn nothing_precedes_value() {
    assert!(EnvVal::Nothing.lt(&EnvVal::Value(String::new())));
    assert!(EnvVal::Fail.lt(&EnvVal::Value(String::new())));
    assert!(!EnvVal::Value(String::new()).lt(&EnvVal::Nothing));
    assert!(!EnvVal::Value(String::new()).lt(&EnvVal::Fail));
}

#[test]
fn values_order_lexicographically() {
    let a = EnvVal::Value("a".to_string());
    let b = EnvVal::Value("b".to_string());
    let ab = EnvVal::Value("ab".to_string());
    assert!(a.lt(&b));
    assert!(!b.lt(&a));
    assert!(a.lt(&ab));
    assert!(!ab.lt(&a));
    assert!(ab.lt(&b));
    assert!(!a.lt(&a));
}

#[test]
fn same_class_compares_texts() {
    assert!(EnvVal::Fail.same_class(&EnvVal::Fail));
    assert!(EnvVal::Nothing.same_class(&EnvVal::Nothing));
    assert!(!EnvVal::Fail.same_class(&EnvVal::Nothing));
    let x = EnvVal::Value("x".to_string());
    let y = EnvVal::Value("y".to_string());
    assert!(x.same_class(&EnvVal::Value("x".to_string())));
    assert!(!x.same_class(&y));
    assert!(!x.same_class(&EnvVal::Nothing));
}

#[test]
fn render_forms() {
    assert_eq!(EnvVal::Fail.render(), "Fail");
    assert_eq!(EnvVal::Nothing.render(), "Nothing");
    assert_eq!(EnvVal::Value("PATH=/bin".to_string()).render(), "\"PATH=/bin\"");
    assert_eq!(EnvVal::Value(String::new()).render(), "\"\"");
}
