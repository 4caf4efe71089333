use rune::parse::{convert_to_u64, to_assignment, to_key, to_valtype, Key, SAssignment, ValType};

#[test]
fn hex_literal_exact_values() {
    assert_eq!(convert_to_u64("0x1000"), Some(4096));
    assert_eq!(convert_to_u64("0x0"), Some(0));
    assert_eq!(convert_to_u64("0xff"), Some(255));
    assert_eq!(convert_to_u64("0xFF"), Some(255));
    assert_eq!(convert_to_u64("0xDeadBeef"), Some(0xdead_beef));
    assert_eq!(convert_to_u64("0xffffffffffffffff"), Some(u64::MAX));
}

#[test]
fn hex_leading_zeros_and_overflow() {
    assert_eq!(convert_to_u64("0x00000000000000000001"), Some(1));
    assert_eq!(convert_to_u64("0x10000000000000000"), None);
}

#[test]
fn decimal_exact_values() {
    assert_eq!(convert_to_u64("42"), Some(42));
    assert_eq!(convert_to_u64("0"), Some(0));
    assert_eq!(convert_to_u64("007"), Some(7));
    assert_eq!(convert_to_u64("18446744073709551615"), Some(u64::MAX));
}

#[test]
fn decimal_overflow_rejected() {
    assert_eq!(convert_to_u64("18446744073709551616"), None);
}

#[test]
fn malformed_numerals_rejected() {
    assert_eq!(convert_to_u64("0xZZ"), None);
    assert_eq!(convert_to_u64("12x"), None);
    assert_eq!(convert_to_u64("abc"), None);
    assert_eq!(convert_to_u64(""), None);
    assert_eq!(convert_to_u64("0x"), None);
    assert_eq!(convert_to_u64("x10"), None);
    assert_eq!(convert_to_u64("-4"), None);
}

#[test]
fn to_key_register_name() {
    assert_eq!(to_key("rax"), Some(Key::Reg("rax".to_string())));
    assert_eq!(to_key("zf"), Some(Key::Reg("zf".to_string())));
}

#[test]
fn to_key_memory_address() {
    assert_eq!(to_key("0x1000"), Some(Key::Mem(4096)));
    assert_eq!(to_key("42"), Some(Key::Mem(42)));
}

#[test]
fn to_key_invalid_literal() {
    assert_eq!(to_key("0xZZ"), None);
    assert_eq!(to_key("12x"), None);
    assert_eq!(to_key(""), None);
}

#[test]
fn to_valtype_sym_is_symbolic() {
    assert_eq!(to_valtype("SYM"), Some(ValType::Symbolic));
    assert_eq!(to_valtype("sym"), None);
    assert_eq!(to_valtype("SYMBOL"), None);
}

#[test]
fn to_valtype_concrete_values() {
    assert_eq!(to_valtype("0x10"), Some(ValType::Concrete(16)));
    assert_eq!(to_valtype("42"), Some(ValType::Concrete(42)));
    assert_eq!(to_valtype("rax"), None);
}

#[test]
fn assignment_register_concrete() {
    assert_eq!(
        to_assignment("rax = 0x10"),
        Some(SAssignment {
            lvalue: Key::Reg("rax".to_string()),
            rvalue: ValType::Concrete(16),
        })
    );
}

#[test]
fn assignment_memory_symbolic() {
    assert_eq!(
        to_assignment("0x1000 = SYM"),
        Some(SAssignment {
            lvalue: Key::Mem(4096),
            rvalue: ValType::Symbolic,
        })
    );
}

#[test]
fn assignment_whitespace_irrelevant() {
    let tight = to_assignment("rbx=SYM");
    let spaced = to_assignment("rbx = SYM");
    assert!(tight.is_some());
    assert_eq!(tight, spaced);
    assert_eq!(
        to_assignment("\t rcx =  0x20  "),
        Some(SAssignment {
            lvalue: Key::Reg("rcx".to_string()),
            rvalue: ValType::Concrete(32),
        })
    );
}

#[test]
fn assignment_malformed_lines_rejected() {
    assert_eq!(to_assignment("rax = 0xZZ"), None);
    assert_eq!(to_assignment("rax = 12x"), None);
    assert_eq!(to_assignment("rax 0x10"), None);
    assert_eq!(to_assignment("a=b=c"), None);
    assert_eq!(to_assignment("= SYM"), None);
    assert_eq!(to_assignment("rax ="), None);
    assert_eq!(to_assignment(""), None);
    assert_eq!(to_assignment("rax = what"), None);
}
