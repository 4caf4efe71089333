use rune::bootstrap::{new_ctx, Endian, PlatformInfo, RuneContext};
use rune::parse::{Key, ValType};

fn platform() -> PlatformInfo {
    PlatformInfo {
        reg_names: vec!["rax".to_string(), "rbx".to_string(), "rcx".to_string()],
        bits: 64,
        endian: Endian::Little,
    }
}

fn reg_value(ctx: &RuneContext, name: &str) -> Option<ValType> {
    for entry in &ctx.regs {
        if entry.name == name {
            return entry.val.clone();
        }
    }
    None
}

fn mem_value(ctx: &RuneContext, addr: u64) -> Option<ValType> {
    for entry in &ctx.mem {
        if entry.addr == addr {
            return Some(entry.val.clone());
        }
    }
    None
}

#[test]
fn defaults_set_every_register_to_zero() {
    let ctx = new_ctx(None, &None, &None, &platform());
    assert_eq!(ctx.regs.len(), 3);
    for entry in &ctx.regs {
        assert_eq!(entry.val, Some(ValType::Concrete(0)));
    }
    assert!(ctx.mem.is_empty());
}

#[test]
fn explicit_constant_survives_default_pass() {
    let consts = Some(vec![(Key::Reg("rax".to_string()), 5)]);
    let ctx = new_ctx(None, &None, &consts, &platform());
    assert_eq!(reg_value(&ctx, "rax"), Some(ValType::Concrete(5)));
    assert_eq!(reg_value(&ctx, "rbx"), Some(ValType::Concrete(0)));
    assert_eq!(reg_value(&ctx, "rcx"), Some(ValType::Concrete(0)));
}

#[test]
fn explicit_symbolic_survives_default_pass() {
    let syms = Some(vec![Key::Reg("rbx".to_string())]);
    let ctx = new_ctx(None, &syms, &None, &platform());
    assert_eq!(reg_value(&ctx, "rbx"), Some(ValType::Symbolic));
    assert_eq!(reg_value(&ctx, "rax"), Some(ValType::Concrete(0)));
}

#[test]
fn constant_overrides_symbolic_declaration() {
    let syms = Some(vec![Key::Reg("rax".to_string())]);
    let consts = Some(vec![(Key::Reg("rax".to_string()), 7)]);
    let ctx = new_ctx(None, &syms, &consts, &platform());
    assert_eq!(reg_value(&ctx, "rax"), Some(ValType::Concrete(7)));
}

#[test]
fn later_duplicate_overwrites_earlier() {
    let consts = Some(vec![
        (Key::Reg("rax".to_string()), 1),
        (Key::Reg("rax".to_string()), 2),
    ]);
    let ctx = new_ctx(None, &None, &consts, &platform());
    assert_eq!(reg_value(&ctx, "rax"), Some(ValType::Concrete(2)));
}

#[test]
fn memory_cells_are_initialized() {
    let syms = Some(vec![Key::Mem(0x1000)]);
    let consts = Some(vec![(Key::Mem(0x2000), 9)]);
    let ctx = new_ctx(None, &syms, &consts, &platform());
    assert_eq!(ctx.mem.len(), 2);
    assert_eq!(mem_value(&ctx, 0x1000), Some(ValType::Symbolic));
    assert_eq!(mem_value(&ctx, 0x2000), Some(ValType::Concrete(9)));
    for entry in &ctx.mem {
        assert_eq!(entry.width, 64);
    }
}

#[test]
fn memory_duplicate_overwrites_in_place() {
    let syms = Some(vec![Key::Mem(16)]);
    let consts = Some(vec![(Key::Mem(16), 3)]);
    let ctx = new_ctx(None, &syms, &consts, &platform());
    assert_eq!(ctx.mem.len(), 1);
    assert_eq!(mem_value(&ctx, 16), Some(ValType::Concrete(3)));
}

#[test]
fn platform_report_is_carried_over() {
    let ctx = new_ctx(Some(0x400000), &None, &None, &platform());
    assert_eq!(ctx.ip, Some(0x400000));
    assert_eq!(ctx.bits, 64);
    assert_eq!(ctx.endian, Endian::Little);
    let names: Vec<&str> = ctx.regs.iter().map(|e| e.name.as_str()).collect();
    assert_eq!(names, vec!["rax", "rbx", "rcx"]);
}

#[test]
fn unknown_register_declaration_is_ignored() {
    let syms = Some(vec![Key::Reg("nosuch".to_string())]);
    let ctx = new_ctx(None, &syms, &None, &platform());
    for entry in &ctx.regs {
        assert_eq!(entry.val, Some(ValType::Concrete(0)));
    }
}

#[test]
fn store_operations_report_whether_the_register_exists() {
    let mut ctx = new_ctx(None, &None, &None, &platform());
    assert!(ctx.set_reg_as_sym("rax"));
    assert!(!ctx.set_reg_as_sym("nosuch"));
    assert!(ctx.set_reg_as_const("rbx", 11));
    assert_eq!(reg_value(&ctx, "rax"), Some(ValType::Symbolic));
    assert_eq!(reg_value(&ctx, "rbx"), Some(ValType::Concrete(11)));
}
