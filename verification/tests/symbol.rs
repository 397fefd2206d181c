use som::vm::symbol::Symbol;

#[test]
fn symbol_equality() {
    let symbol1 = Symbol::new("test".to_string());
    let symbol2 = Symbol::new("test".to_string());
    let symbol3 = Symbol::new("test2".to_string());

    assert!(symbol1 == symbol2);
    assert!(symbol1 != symbol3);
}

#[test]
fn display_format() {
    let symbol = Symbol::new("test".to_string());
    let display = symbol.to_string();

    assert_eq!("#test", display);
}

#[test]
fn empty_symbol_is_a_pound_sign() {
    assert_eq!(Symbol::new(String::new()).to_string(), "#");
    assert_eq!(Symbol::new("run:with:".to_string()).to_string(), "#run:with:");
}
