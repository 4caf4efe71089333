//! One-time construction of the execution context: a register store
//! laid out per the platform's report, a byte-addressable memory model,
//! and the initial symbolic/concrete state the declarations ask for.

use vstd::prelude::*;

use crate::parse::{Key, ValType};

verus! {

/// The byte order the platform reports for the binary.
#[derive(Debug, Clone, Copy, PartialEq, Eq, Structural)]
pub enum Endian {
    Little,
    Big,
}

/// What the binary-analysis platform reports before bootstrapping: the
/// register layout in order, the pointer bit width, and the byte order.
#[derive(Debug, Clone)]
pub struct PlatformInfo {
    pub reg_names: Vec<String>,
    pub bits: u64,
    pub endian: Endian,
}

/// One register of the store: its platform-reported name and the value
/// it has been given, `None` until a declaration or the default pass
/// assigns one.
#[derive(Debug, Clone, PartialEq)]
pub struct RegEntry {
    pub name: String,
    pub val: Option<ValType>,
}

/// One initialized cell of the memory model: an address, the width of
/// the cell in bits, and its value.
#[derive(Debug, Clone, PartialEq)]
pub struct MemEntry {
    pub addr: u64,
    pub width: u64,
    pub val: ValType,
}

/// The execution context handed to the exploration engine: instruction
/// pointer, register store, memory store and the machine description
/// the solver session is configured with.
#[derive(Debug, Clone)]
pub struct RuneContext {
    pub ip: Option<u64>,
    pub bits: u64,
    pub endian: Endian,
    pub regs: Vec<RegEntry>,
    pub mem: Vec<MemEntry>,
}

/// The entry of the memory store at `addr`, scanning from the front.
pub open spec fn mem_entry(m: Seq<MemEntry>, addr: u64) -> Option<MemEntry>
    decreases m.len(),
{
    if m.len() == 0 {
        None
    } else if m[0].addr == addr {
        Some(m[0])
    } else {
        mem_entry(m.drop_first(), addr)
    }
}

/// Each address holds at most one entry of the memory store.
pub open spec fn mem_unique(m: Seq<MemEntry>) -> bool {
    forall|i: int, j: int| 0 <= i < j < m.len() ==> m[i].addr != m[j].addr
}

impl RuneContext {
    /// The store invariant the bootstrapper maintains.
    pub open spec fn wf(self) -> bool {
        mem_unique(self.mem@)
    }
}

/// An address no position holds has no entry.
proof fn lemma_mem_entry_absent(m: Seq<MemEntry>, addr: u64)
    requires
        forall|j: int| 0 <= j < m.len() ==> m[j].addr != addr,
    ensures
        mem_entry(m, addr) is None,
    decreases m.len(),
{
    if m.len() > 0 {
        assert forall|j: int| 0 <= j < m.drop_first().len() implies m.drop_first()[j].addr != addr by {
            assert(m.drop_first()[j] == m[j + 1]);
        }
        lemma_mem_entry_absent(m.drop_first(), addr);
    }
}

/// Overwriting the entry of an address changes no other address.
proof fn lemma_mem_entry_update(m: Seq<MemEntry>, k: int, e: MemEntry)
    requires
        0 <= k < m.len(),
        e.addr == m[k].addr,
        forall|j: int| 0 <= j < k ==> m[j].addr != e.addr,
    ensures
        mem_entry(m.update(k, e), e.addr) == Some(e),
        forall|a: u64| a != e.addr ==> mem_entry(m.update(k, e), a) == mem_entry(m, a),
    decreases k,
{
    let m2 = m.update(k, e);
    if k == 0 {
        assert(m2[0] == e);
        assert(m2.drop_first() =~= m.drop_first());
        assert forall|a: u64| a != e.addr implies mem_entry(m2, a) == mem_entry(m, a) by {
            assert(mem_entry(m2, a) == mem_entry(m2.drop_first(), a));
            assert(mem_entry(m, a) == mem_entry(m.drop_first(), a));
        }
    } else {
        assert(m.drop_first()[k - 1] == m[k]);
        assert forall|j: int| 0 <= j < k - 1 implies m.drop_first()[j].addr != e.addr by {
            assert(m.drop_first()[j] == m[j + 1]);
        }
        lemma_mem_entry_update(m.drop_first(), k - 1, e);
        assert(m2.drop_first() =~= m.drop_first().update(k - 1, e));
        assert(m2[0] == m[0]);
        assert(m[0].addr != e.addr);
        assert(mem_entry(m2, e.addr) == mem_entry(m2.drop_first(), e.addr));
        assert forall|a: u64| a != e.addr implies mem_entry(m2, a) == mem_entry(m, a) by {
            if m[0].addr == a {
            } else {
                assert(mem_entry(m2, a) == mem_entry(m2.drop_first(), a));
                assert(mem_entry(m, a) == mem_entry(m.drop_first(), a));
            }
        }
    }
}

/// Appending an entry for a fresh address changes no other address.
proof fn lemma_mem_entry_push(m: Seq<MemEntry>, e: MemEntry)
    requires
        mem_entry(m, e.addr) is None,
    ensures
        mem_entry(m.push(e), e.addr) == Some(e),
        forall|a: u64| a != e.addr ==> mem_entry(m.push(e), a) == mem_entry(m, a),
    decreases m.len(),
{
    let m2 = m.push(e);
    if m.len() == 0 {
        assert(m2[0] == e);
        assert(m2.drop_first() =~= Seq::<MemEntry>::empty());
        assert forall|a: u64| a != e.addr implies mem_entry(m2, a) == mem_entry(m, a) by {
            assert(mem_entry(m2, a) == mem_entry(m2.drop_first(), a));
        }
    } else {
        assert(m2[0] == m[0]);
        assert(m[0].addr != e.addr);
        lemma_mem_entry_push(m.drop_first(), e);
        assert(m2.drop_first() =~= m.drop_first().push(e));
        assert(mem_entry(m2, e.addr) == mem_entry(m2.drop_first(), e.addr));
        assert forall|a: u64| a != e.addr implies mem_entry(m2, a) == mem_entry(m, a) by {
            if m[0].addr != a {
                assert(mem_entry(m2, a) == mem_entry(m2.drop_first(), a));
                assert(mem_entry(m, a) == mem_entry(m.drop_first(), a));
            }
        }
    }
}

/// Whether position `i` is the first of the register store whose name
/// reads `name`.
pub open spec fn first_reg_match(rs: Seq<RegEntry>, name: Seq<char>, i: int) -> bool {
    &&& 0 <= i < rs.len()
    &&& rs[i].name@ == name
    &&& forall|j: int| 0 <= j < i ==> (#[trigger] rs[j]).name@ != name
}

/// Whether the register store holds a register of that name.
pub open spec fn has_reg(rs: Seq<RegEntry>, name: Seq<char>) -> bool {
    exists|i: int| 0 <= i < rs.len() && (#[trigger] rs[i]).name@ == name
}

impl RuneContext {
    /// Writes a value into the first register of that name, leaving the
    /// store as it was when no register carries the name.
    fn set_reg(&mut self, name: &str, v: ValType) -> (found: bool)
        ensures
            final(self).ip == old(self).ip,
            final(self).bits == old(self).bits,
            final(self).endian == old(self).endian,
            final(self).mem == old(self).mem,
            final(self).regs@.len() == old(self).regs@.len(),
            forall|i: int|
                0 <= i < old(self).regs@.len() && !first_reg_match(old(self).regs@, name@, i)
                    ==> final(self).regs@[i] == old(self).regs@[i],
            forall|i: int|
                first_reg_match(old(self).regs@, name@, i) ==> final(self).regs@[i] == (RegEntry {
                    name: old(self).regs@[i].name,
                    val: Some(v),
                }),
            found == has_reg(old(self).regs@, name@),
    {
        let n = self.regs.len();
        let mut k: usize = 0;
        while k < n
            invariant
                k <= n,
                n == self.regs@.len(),
                *self == *old(self),
                forall|j: int| 0 <= j < k ==> (#[trigger] self.regs@[j]).name@ != name@,
            decreases n - k,
        {
            if crate::parse::str_eq(self.regs[k].name.as_str(), name) {
                self.regs[k].val = Some(v);
                proof {
                    assert(first_reg_match(old(self).regs@, name@, k as int));
                }
                return true;
            }
            k = k + 1;
        }
        proof {
            assert(!has_reg(self.regs@, name@));
        }
        false
    }
}

impl RuneContext {
    /// Writes a cell into the memory store, overwriting the entry of
    /// that address or appending a fresh one.
    fn set_mem(&mut self, addr: u64, width: u64, v: ValType)
        requires
            old(self).wf(),
        ensures
            final(self).wf(),
            final(self).ip == old(self).ip,
            final(self).bits == old(self).bits,
            final(self).endian == old(self).endian,
            final(self).regs == old(self).regs,
            mem_entry(final(self).mem@, addr) == Some((MemEntry { addr, width, val: v })),
            forall|a: u64|
                a != addr ==> mem_entry(final(self).mem@, a) == mem_entry(old(self).mem@, a),
    {
        let n = self.mem.len();
        let mut k: usize = 0;
        while k < n
            invariant
                k <= n,
                n == self.mem@.len(),
                *self == *old(self),
                old(self).wf(),
                forall|j: int| 0 <= j < k ==> (#[trigger] self.mem@[j]).addr != addr,
            decreases n - k,
        {
            if self.mem[k].addr == addr {
                let e = MemEntry { addr, width, val: v };
                proof {
                    lemma_mem_entry_update(self.mem@, k as int, e);
                }
                self.mem[k] = e;
                proof {
                    assert forall|i: int, j: int|
                        0 <= i < j < self.mem@.len() implies self.mem@[i].addr
                        != self.mem@[j].addr by {
                        assert(old(self).mem@[i].addr != old(self).mem@[j].addr);
                    }
                }
                return ;
            }
            k = k + 1;
        }
        let e = MemEntry { addr, width, val: v };
        proof {
            lemma_mem_entry_absent(self.mem@, addr);
            lemma_mem_entry_push(self.mem@, e);
        }
        self.mem.push(e);
        proof {
            assert forall|i: int, j: int|
                0 <= i < j < self.mem@.len() implies self.mem@[i].addr != self.mem@[j].addr by {
                if j < self.mem@.len() - 1 {
                    assert(old(self).mem@[i].addr != old(self).mem@[j].addr);
                }
            }
        }
    }

    /// Marks the register of that name symbolic, as `reg = SYM` asks.
    pub fn set_reg_as_sym(&mut self, name: &str) -> (found: bool)
        ensures
            final(self).ip == old(self).ip,
            final(self).bits == old(self).bits,
            final(self).endian == old(self).endian,
            final(self).mem == old(self).mem,
            final(self).regs@.len() == old(self).regs@.len(),
            forall|i: int|
                0 <= i < old(self).regs@.len() && !first_reg_match(old(self).regs@, name@, i)
                    ==> final(self).regs@[i] == old(self).regs@[i],
            forall|i: int|
                first_reg_match(old(self).regs@, name@, i) ==> final(self).regs@[i] == (RegEntry {
                    name: old(self).regs@[i].name,
                    val: Some(ValType::Symbolic),
                }),
            found == has_reg(old(self).regs@, name@),
    {
        self.set_reg(name, ValType::Symbolic)
    }

    /// Fixes the register of that name to a concrete value.
    pub fn set_reg_as_const(&mut self, name: &str, v: u64) -> (found: bool)
        ensures
            final(self).ip == old(self).ip,
            final(self).bits == old(self).bits,
            final(self).endian == old(self).endian,
            final(self).mem == old(self).mem,
            final(self).regs@.len() == old(self).regs@.len(),
            forall|i: int|
                0 <= i < old(self).regs@.len() && !first_reg_match(old(self).regs@, name@, i)
                    ==> final(self).regs@[i] == old(self).regs@[i],
            forall|i: int|
                first_reg_match(old(self).regs@, name@, i) ==> final(self).regs@[i] == (RegEntry {
                    name: old(self).regs@[i].name,
                    val: Some(ValType::Concrete(v as usize)),
                }),
            found == has_reg(old(self).regs@, name@),
    {
        self.set_reg(name, ValType::Concrete(v as usize))
    }

    /// Marks the memory cell of that width at the address symbolic.
    pub fn set_mem_as_sym(&mut self, addr: u64, width: u64)
        requires
            old(self).wf(),
        ensures
            final(self).wf(),
            final(self).ip == old(self).ip,
            final(self).bits == old(self).bits,
            final(self).endian == old(self).endian,
            final(self).regs == old(self).regs,
            mem_entry(final(self).mem@, addr) == Some(
                (MemEntry { addr, width, val: ValType::Symbolic }),
            ),
            forall|a: u64|
                a != addr ==> mem_entry(final(self).mem@, a) == mem_entry(old(self).mem@, a),
    {
        self.set_mem(addr, width, ValType::Symbolic)
    }

    /// Fixes the memory cell of that width at the address to a concrete
    /// value.
    pub fn set_mem_as_const(&mut self, addr: u64, v: u64, width: u64)
        requires
            old(self).wf(),
        ensures
            final(self).wf(),
            final(self).ip == old(self).ip,
            final(self).bits == old(self).bits,
            final(self).endian == old(self).endian,
            final(self).regs == old(self).regs,
            mem_entry(final(self).mem@, addr) == Some(
                (MemEntry { addr, width, val: ValType::Concrete(v as usize) }),
            ),
            forall|a: u64|
                a != addr ==> mem_entry(final(self).mem@, a) == mem_entry(old(self).mem@, a),
    {
        self.set_mem(addr, width, ValType::Concrete(v as usize))
    }
}

/// The symbolic declarations, empty when none were given.
pub open spec fn opt_keys(o: Option<Vec<Key>>) -> Seq<Key> {
    match o {
        Some(v) => v@,
        None => Seq::<Key>::empty(),
    }
}

/// The constant declarations, empty when none were given.
pub open spec fn opt_consts(o: Option<Vec<(Key, u64)>>) -> Seq<(Key, u64)> {
    match o {
        Some(v) => v@,
        None => Seq::<(Key, u64)>::empty(),
    }
}

/// Whether the declaration names the register.
pub open spec fn key_names_reg(k: Key, name: Seq<char>) -> bool {
    match k {
        Key::Reg(s) => s@ == name,
        Key::Mem(_) => false,
    }
}

/// Whether the declaration names the memory address.
pub open spec fn key_names_mem(k: Key, addr: u64) -> bool {
    match k {
        Key::Mem(a) => a as u64 == addr,
        Key::Reg(_) => false,
    }
}

/// Whether any symbolic declaration names the register.
pub open spec fn some_sym_reg(syms: Seq<Key>, name: Seq<char>) -> bool {
    exists|i: int| 0 <= i < syms.len() && key_names_reg(#[trigger] syms[i], name)
}

/// Whether any symbolic declaration names the memory address.
pub open spec fn some_sym_mem(syms: Seq<Key>, addr: u64) -> bool {
    exists|i: int| 0 <= i < syms.len() && key_names_mem(#[trigger] syms[i], addr)
}

/// The value of the last constant declaration naming the register:
/// later duplicates overwrite earlier ones.
pub open spec fn last_reg_const(consts: Seq<(Key, u64)>, name: Seq<char>) -> Option<u64>
    decreases consts.len(),
{
    if consts.len() == 0 {
        None
    } else if key_names_reg(consts.last().0, name) {
        Some(consts.last().1)
    } else {
        last_reg_const(consts.drop_last(), name)
    }
}

/// The value of the last constant declaration naming the address.
pub open spec fn last_mem_const(consts: Seq<(Key, u64)>, addr: u64) -> Option<u64>
    decreases consts.len(),
{
    if consts.len() == 0 {
        None
    } else if key_names_mem(consts.last().0, addr) {
        Some(consts.last().1)
    } else {
        last_mem_const(consts.drop_last(), addr)
    }
}

/// Whether any declaration names the register.
pub open spec fn reg_declared(syms: Seq<Key>, consts: Seq<(Key, u64)>, name: Seq<char>) -> bool {
    some_sym_reg(syms, name) || last_reg_const(consts, name) is Some
}

/// The value a register holds once bootstrapping is done: the last
/// constant declared for it; else symbolic where declared symbolic;
/// else the default concrete zero the final pass fills in.
pub open spec fn reg_final(syms: Seq<Key>, consts: Seq<(Key, u64)>, name: Seq<char>) -> ValType {
    match last_reg_const(consts, name) {
        Some(v) => ValType::Concrete(v as usize),
        None => if some_sym_reg(syms, name) {
            ValType::Symbolic
        } else {
            ValType::Concrete(0)
        },
    }
}

/// Whether any declaration names the memory address.
pub open spec fn mem_declared(syms: Seq<Key>, consts: Seq<(Key, u64)>, addr: u64) -> bool {
    some_sym_mem(syms, addr) || last_mem_const(consts, addr) is Some
}

/// The value a declared memory cell holds once bootstrapping is done:
/// the last constant declared for it, else symbolic. Meaningful only
/// for declared addresses; memory gets no default pass.
pub open spec fn mem_final(syms: Seq<Key>, consts: Seq<(Key, u64)>, addr: u64) -> ValType {
    match last_mem_const(consts, addr) {
        Some(v) => ValType::Concrete(v as usize),
        None => ValType::Symbolic,
    }
}

/// Whether position `i` holds the first occurrence of its name in the
/// platform's register layout.
pub open spec fn first_name_at(names: Seq<String>, i: int) -> bool {
    forall|j: int| 0 <= j < i ==> (#[trigger] names[j])@ != names[i]@
}

/// Taking one more symbolic declaration into account extends what is
/// declared symbolic by exactly what that declaration names.
proof fn lemma_sym_prefix_extend(s: Seq<Key>, j: int)
    requires
        0 <= j < s.len(),
    ensures
        forall|a: u64|
            #[trigger] some_sym_mem(s.subrange(0, j + 1), a) <==> (some_sym_mem(
                s.subrange(0, j),
                a,
            ) || key_names_mem(s[j], a)),
        forall|n: Seq<char>|
            #[trigger] some_sym_reg(s.subrange(0, j + 1), n) <==> (some_sym_reg(
                s.subrange(0, j),
                n,
            ) || key_names_reg(s[j], n)),
{
    let p = s.subrange(0, j);
    let p1 = s.subrange(0, j + 1);
    assert forall|a: u64| #[trigger] some_sym_mem(p1, a) implies (some_sym_mem(p, a)
        || key_names_mem(s[j], a)) by {
        let i = choose|i: int| 0 <= i < p1.len() && key_names_mem(#[trigger] p1[i], a);
        if i < j {
            assert(p[i] == p1[i]);
            assert(key_names_mem(p[i], a));
        } else {
            assert(p1[i] == s[j]);
        }
    }
    assert forall|a: u64| (some_sym_mem(p, a) || key_names_mem(s[j], a)) implies #[trigger]
    some_sym_mem(p1, a) by {
        if some_sym_mem(p, a) {
            let i = choose|i: int| 0 <= i < p.len() && key_names_mem(#[trigger] p[i], a);
            assert(p1[i] == p[i]);
            assert(key_names_mem(p1[i], a));
        } else {
            assert(p1[j] == s[j]);
            assert(key_names_mem(p1[j], a));
        }
    }
    assert forall|n: Seq<char>| #[trigger] some_sym_reg(p1, n) implies (some_sym_reg(p, n)
        || key_names_reg(s[j], n)) by {
        let i = choose|i: int| 0 <= i < p1.len() && key_names_reg(#[trigger] p1[i], n);
        if i < j {
            assert(p[i] == p1[i]);
            assert(key_names_reg(p[i], n));
        } else {
            assert(p1[i] == s[j]);
        }
    }
    assert forall|n: Seq<char>| (some_sym_reg(p, n) || key_names_reg(s[j], n)) implies #[trigger]
    some_sym_reg(p1, n) by {
        if some_sym_reg(p, n) {
            let i = choose|i: int| 0 <= i < p.len() && key_names_reg(#[trigger] p[i], n);
            assert(p1[i] == p[i]);
            assert(key_names_reg(p1[i], n));
        } else {
            assert(p1[j] == s[j]);
            assert(key_names_reg(p1[j], n));
        }
    }
}

/// Taking one more constant declaration into account overrides exactly
/// what that declaration names.
proof fn lemma_const_prefix_extend(c: Seq<(Key, u64)>, j: int)
    requires
        0 <= j < c.len(),
    ensures
        forall|n: Seq<char>|
            #[trigger] last_reg_const(c.subrange(0, j + 1), n) == (if key_names_reg(c[j].0, n) {
                Some(c[j].1)
            } else {
                last_reg_const(c.subrange(0, j), n)
            }),
        forall|a: u64|
            #[trigger] last_mem_const(c.subrange(0, j + 1), a) == (if key_names_mem(c[j].0, a) {
                Some(c[j].1)
            } else {
                last_mem_const(c.subrange(0, j), a)
            }),
{
    let p1 = c.subrange(0, j + 1);
    assert(p1.drop_last() =~= c.subrange(0, j));
    assert(p1.last() == c[j]);
}

/// Builds the execution context for one analysis run: a register store
/// laid out per the platform's report, an empty memory model, and the
/// declared initial state. Symbolic declarations are applied in order,
/// then constant declarations, then a default pass sets every register
/// not yet assigned to concrete zero — explicit declarations are never
/// overwritten by the default.
pub fn new_ctx(
    ip: Option<u64>,
    syms: &Option<Vec<Key>>,
    consts: &Option<Vec<(Key, u64)>>,
    platform: &PlatformInfo,
) -> (ctx: RuneContext)
    ensures
        ctx.wf(),
        ctx.ip == ip,
        ctx.bits == platform.bits,
        ctx.endian == platform.endian,
        ctx.regs@.len() == platform.reg_names@.len(),
        forall|i: int|
            0 <= i < ctx.regs@.len() ==> (#[trigger] ctx.regs@[i]).name == platform.reg_names@[i],
        forall|i: int|
            0 <= i < ctx.regs@.len() ==> (#[trigger] ctx.regs@[i]).val == Some(
                if first_name_at(platform.reg_names@, i) {
                    reg_final(opt_keys(*syms), opt_consts(*consts), platform.reg_names@[i]@)
                } else {
                    ValType::Concrete(0)
                },
            ),
        forall|a: u64|
            mem_declared(opt_keys(*syms), opt_consts(*consts), a) ==> #[trigger] mem_entry(
                ctx.mem@,
                a,
            ) == Some(
                (MemEntry {
                    addr: a,
                    width: 64,
                    val: mem_final(opt_keys(*syms), opt_consts(*consts), a),
                }),
            ),
        forall|a: u64|
            !mem_declared(opt_keys(*syms), opt_consts(*consts), a) ==> #[trigger] mem_entry(
                ctx.mem@,
                a,
            ) is None,
{
    let ghost names = platform.reg_names@;
    let ghost ss = opt_keys(*syms);
    let ghost cc = opt_consts(*consts);

    let mut regs: Vec<RegEntry> = Vec::new();
    let mut k: usize = 0;
    while k < platform.reg_names.len()
        invariant
            k <= names.len(),
            names == platform.reg_names@,
            regs@.len() == k,
            forall|i: int| 0 <= i < k ==> (#[trigger] regs@[i]).name == names[i],
            forall|i: int| 0 <= i < k ==> (#[trigger] regs@[i]).val is None,
        decreases names.len() - k,
    {
        let nm = platform.reg_names[k].clone();
        regs.push(RegEntry { name: nm, val: None });
        k = k + 1;
    }

    let mut ctx = RuneContext {
        ip,
        bits: platform.bits,
        endian: platform.endian,
        regs,
        mem: Vec::new(),
    };

    let empty_keys: Vec<Key> = Vec::new();
    let empty_consts: Vec<(Key, u64)> = Vec::new();
    let sv: &Vec<Key> = match syms {
        Some(v) => v,
        None => &empty_keys,
    };
    let cv: &Vec<(Key, u64)> = match consts {
        Some(v) => v,
        None => &empty_consts,
    };
    proof {
        assert(sv@ == ss);
        assert(cv@ == cc);
    }

    let ns = sv.len();
    let mut j: usize = 0;
    while j < ns
        invariant
            j <= ns,
            ns == ss.len(),
            sv@ == ss,
            names == platform.reg_names@,
            ctx.wf(),
            ctx.ip == ip,
            ctx.bits == platform.bits,
            ctx.endian == platform.endian,
            ctx.regs@.len() == names.len(),
            forall|i: int| 0 <= i < names.len() ==> (#[trigger] ctx.regs@[i]).name == names[i],
            forall|i: int|
                0 <= i < names.len() ==> (#[trigger] ctx.regs@[i]).val == (if first_name_at(
                    names,
                    i,
                ) && some_sym_reg(ss.subrange(0, j as int), names[i]@) {
                    Some(ValType::Symbolic)
                } else {
                    None::<ValType>
                }),
            forall|a: u64|
                #[trigger] mem_entry(ctx.mem@, a) == (if some_sym_mem(ss.subrange(0, j as int), a) {
                    Some((MemEntry { addr: a, width: 64, val: ValType::Symbolic }))
                } else {
                    None::<MemEntry>
                }),
        decreases ns - j,
    {
        proof {
            lemma_sym_prefix_extend(ss, j as int);
        }
        match &sv[j] {
            Key::Mem(a) => {
                let addr: u64 = *a as u64;
                ctx.set_mem_as_sym(addr, 64);
                proof {
                    assert(key_names_mem(ss[j as int], addr));
                }
            },
            Key::Reg(r) => {
                let ghost pre = ctx;
                ctx.set_reg_as_sym(r.as_str());
                proof {
                    assert(key_names_reg(ss[j as int], r@));
                    assert forall|i: int| 0 <= i < names.len() implies (#[trigger] ctx.regs@[i]).val
                        == (if first_name_at(names, i) && some_sym_reg(
                        ss.subrange(0, j as int + 1),
                        names[i]@,
                    ) {
                        Some(ValType::Symbolic)
                    } else {
                        None::<ValType>
                    }) by {
                        assert(pre.regs@[i].name == names[i]);
                        if first_reg_match(pre.regs@, r@, i) {
                            assert(ctx.regs@[i].val == Some(ValType::Symbolic));
                            assert(names[i]@ == r@);
                            assert forall|t: int| 0 <= t < i implies (#[trigger] names[t])@
                                != names[i]@ by {
                                assert(pre.regs@[t].name == names[t]);
                                assert(pre.regs@[t].name@ != r@);
                            }
                            assert(first_name_at(names, i));
                            assert(some_sym_reg(ss.subrange(0, j as int + 1), names[i]@));
                        } else {
                            assert(ctx.regs@[i] == pre.regs@[i]);
                            if names[i]@ == r@ && first_name_at(names, i) {
                                assert(first_reg_match(pre.regs@, r@, i)) by {
                                    assert forall|t: int| 0 <= t < i implies (#[trigger] pre.regs@[t]).name@
                                        != r@ by {
                                        assert(pre.regs@[t].name == names[t]);
                                        assert(names[t]@ != names[i]@);
                                    }
                                }
                            }
                            if names[i]@ != r@ {
                                assert(some_sym_reg(ss.subrange(0, j as int + 1), names[i]@)
                                    == some_sym_reg(ss.subrange(0, j as int), names[i]@));
                            }
                        }
                    }
                }
            },
        }
        j = j + 1;
    }
    proof {
        assert(ss.subrange(0, ss.len() as int) =~= ss);
    }

    let nc = cv.len();
    let mut j2: usize = 0;
    while j2 < nc
        invariant
            j2 <= nc,
            nc == cc.len(),
            cv@ == cc,
            names == platform.reg_names@,
            ctx.wf(),
            ctx.ip == ip,
            ctx.bits == platform.bits,
            ctx.endian == platform.endian,
            ctx.regs@.len() == names.len(),
            forall|i: int| 0 <= i < names.len() ==> (#[trigger] ctx.regs@[i]).name == names[i],
            forall|i: int|
                0 <= i < names.len() ==> (#[trigger] ctx.regs@[i]).val == (if first_name_at(
                    names,
                    i,
                ) {
                    match last_reg_const(cc.subrange(0, j2 as int), names[i]@) {
                        Some(v) => Some(ValType::Concrete(v as usize)),
                        None => if some_sym_reg(ss, names[i]@) {
                            Some(ValType::Symbolic)
                        } else {
                            None::<ValType>
                        },
                    }
                } else {
                    None::<ValType>
                }),
            forall|a: u64|
                #[trigger] mem_entry(ctx.mem@, a) == (match last_mem_const(
                    cc.subrange(0, j2 as int),
                    a,
                ) {
                    Some(v) => Some((MemEntry { addr: a, width: 64, val: ValType::Concrete(v as usize) })),
                    None => if some_sym_mem(ss, a) {
                        Some((MemEntry { addr: a, width: 64, val: ValType::Symbolic }))
                    } else {
                        None::<MemEntry>
                    },
                }),
        decreases nc - j2,
    {
        proof {
            lemma_const_prefix_extend(cc, j2 as int);
        }
        let pair = &cv[j2];
        let value: u64 = pair.1;
        match &pair.0 {
            Key::Mem(a) => {
                let addr: u64 = *a as u64;
                ctx.set_mem_as_const(addr, value, 64);
                proof {
                    assert(key_names_mem(cc[j2 as int].0, addr));
                }
            },
            Key::Reg(r) => {
                let ghost pre = ctx;
                ctx.set_reg_as_const(r.as_str(), value);
                proof {
                    assert(key_names_reg(cc[j2 as int].0, r@));
                    assert forall|i: int| 0 <= i < names.len() implies (#[trigger] ctx.regs@[i]).val
                        == (if first_name_at(names, i) {
                        match last_reg_const(cc.subrange(0, j2 as int + 1), names[i]@) {
                            Some(v) => Some(ValType::Concrete(v as usize)),
                            None => if some_sym_reg(ss, names[i]@) {
                                Some(ValType::Symbolic)
                            } else {
                                None::<ValType>
                            },
                        }
                    } else {
                        None::<ValType>
                    }) by {
                        assert(pre.regs@[i].name == names[i]);
                        if first_reg_match(pre.regs@, r@, i) {
                            assert(ctx.regs@[i].val == Some(ValType::Concrete(value as usize)));
                            assert(names[i]@ == r@);
                            assert forall|t: int| 0 <= t < i implies (#[trigger] names[t])@
                                != names[i]@ by {
                                assert(pre.regs@[t].name == names[t]);
                                assert(pre.regs@[t].name@ != r@);
                            }
                            assert(first_name_at(names, i));
                            assert(last_reg_const(cc.subrange(0, j2 as int + 1), names[i]@)
                                == Some(value));
                        } else {
                            assert(ctx.regs@[i] == pre.regs@[i]);
                            if names[i]@ == r@ && first_name_at(names, i) {
                                assert(first_reg_match(pre.regs@, r@, i)) by {
                                    assert forall|t: int| 0 <= t < i implies (#[trigger] pre.regs@[t]).name@
                                        != r@ by {
                                        assert(pre.regs@[t].name == names[t]);
                                        assert(names[t]@ != names[i]@);
                                    }
                                }
                            }
                            if names[i]@ != r@ {
                                assert(last_reg_const(cc.subrange(0, j2 as int + 1), names[i]@)
                                    == last_reg_const(cc.subrange(0, j2 as int), names[i]@));
                            }
                        }
                    }
                }
            },
        }
        j2 = j2 + 1;
    }
    proof {
        assert(cc.subrange(0, cc.len() as int) =~= cc);
    }

    let nr = ctx.regs.len();
    let mut i: usize = 0;
    while i < nr
        invariant
            i <= nr,
            nr == ctx.regs@.len(),
            names == platform.reg_names@,
            ctx.wf(),
            ctx.ip == ip,
            ctx.bits == platform.bits,
            ctx.endian == platform.endian,
            ctx.regs@.len() == names.len(),
            forall|t: int| 0 <= t < names.len() ==> (#[trigger] ctx.regs@[t]).name == names[t],
            forall|t: int|
                0 <= t < i ==> (#[trigger] ctx.regs@[t]).val == Some(
                    if first_name_at(names, t) {
                        reg_final(ss, cc, names[t]@)
                    } else {
                        ValType::Concrete(0)
                    },
                ),
            forall|t: int|
                i <= t < names.len() ==> (#[trigger] ctx.regs@[t]).val == (if first_name_at(
                    names,
                    t,
                ) {
                    match last_reg_const(cc, names[t]@) {
                        Some(v) => Some(ValType::Concrete(v as usize)),
                        None => if some_sym_reg(ss, names[t]@) {
                            Some(ValType::Symbolic)
                        } else {
                            None::<ValType>
                        },
                    }
                } else {
                    None::<ValType>
                }),
            forall|a: u64|
                #[trigger] mem_entry(ctx.mem@, a) == (match last_mem_const(cc, a) {
                    Some(v) => Some((MemEntry { addr: a, width: 64, val: ValType::Concrete(v as usize) })),
                    None => if some_sym_mem(ss, a) {
                        Some((MemEntry { addr: a, width: 64, val: ValType::Symbolic }))
                    } else {
                        None::<MemEntry>
                    },
                }),
        decreases nr - i,
    {
        if ctx.regs[i].val.is_none() {
            ctx.regs[i].val = Some(ValType::Concrete(0));
        }
        i = i + 1;
    }
    ctx
}

/// Law: with no symbolic and no constant declarations, bootstrapping
/// gives every platform-reported register the default concrete zero.
pub proof fn lemma_no_decls_all_zero(name: Seq<char>)
    ensures
        reg_final(Seq::<Key>::empty(), Seq::<(Key, u64)>::empty(), name) == ValType::Concrete(0),
{
}

/// Law: a register declared constant keeps its declared value through
/// the default pass; the default fills only undeclared registers.
pub proof fn lemma_declared_const_survives(
    syms: Seq<Key>,
    consts: Seq<(Key, u64)>,
    name: Seq<char>,
    v: u64,
)
    requires
        last_reg_const(consts, name) == Some(v),
    ensures
        reg_final(syms, consts, name) == ValType::Concrete(v as usize),
{
}

/// Law: a register declared symbolic and never overridden by a constant
/// declaration stays symbolic through the default pass.
pub proof fn lemma_declared_sym_survives(syms: Seq<Key>, consts: Seq<(Key, u64)>, name: Seq<char>)
    requires
        some_sym_reg(syms, name),
        last_reg_const(consts, name) is None,
    ensures
        reg_final(syms, consts, name) == ValType::Symbolic,
{
}

} // verus!
