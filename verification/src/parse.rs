//! The declarative assignment mini-language: numeric literals, locations,
//! values, and whole assignments of the shape `<location> = <value>`.

use vstd::arithmetic::power::pow;
use vstd::prelude::*;
use vstd::string::StrSliceExecFns;

verus! {

/// A value a location carries when exploration starts: a fully known
/// word, a solver-tracked unknown, a halt sentinel, or unparseable text
/// kept for diagnostics.
#[derive(Debug, Clone, PartialEq)]
pub enum ValType {
    Concrete(usize),
    Symbolic,
    Break,
    Unknown(String),
}

/// An addressable place in the modeled machine: a memory address or a
/// named register.
#[derive(Debug, Clone, PartialEq)]
pub enum Key {
    Mem(usize),
    Reg(String),
}

/// One declarative initial-state fact: the location on the left takes
/// the value on the right.
#[derive(Debug, Clone, PartialEq)]
pub struct SAssignment {
    pub lvalue: Key,
    pub rvalue: ValType,
}

/// The numeric value of one digit character, `-1` for a character that
/// is no digit. Letters carry the values ten and up, for bases above ten.
pub open spec fn char_digit(c: char) -> int {
    if '0' <= c && c <= '9' {
        c as int - '0' as int
    } else if 'a' <= c && c <= 'f' {
        c as int - 'a' as int + 10
    } else if 'A' <= c && c <= 'F' {
        c as int - 'A' as int + 10
    } else {
        -1
    }
}

/// Whether `c` is a digit of the given base.
pub open spec fn is_digit(c: char, base: int) -> bool {
    0 <= char_digit(c) && char_digit(c) < base
}

/// Whether every character of `s` is a digit of the given base.
pub open spec fn all_digits(s: Seq<char>, base: int) -> bool {
    forall|i: int| 0 <= i < s.len() ==> is_digit(#[trigger] s[i], base)
}

/// The unsigned value a digit string denotes in the given base, most
/// significant digit first.
pub open spec fn radix_value(s: Seq<char>, base: int) -> int
    decreases s.len(),
{
    if s.len() == 0 {
        0
    } else {
        radix_value(s.drop_last(), base) * base + char_digit(s.last())
    }
}

/// A token of the shape `0x` followed by at least one more character.
pub open spec fn is_hex_token(s: Seq<char>) -> bool {
    s.len() > 2 && s[0] == '0' && s[1] == 'x'
}

/// A token the numeric literal parser takes for a numeral: hex by its
/// `0x` prefix, else decimal by a leading decimal digit.
pub open spec fn looks_numeric(s: Seq<char>) -> bool {
    is_hex_token(s) || (s.len() > 0 && is_digit(s[0], 10))
}

/// What parsing a digit string in the given base yields: its value, when
/// every character is a digit of the base and the value fits 64 bits.
pub open spec fn parsed_digits(s: Seq<char>, base: int) -> Option<u64> {
    if all_digits(s, base) && radix_value(s, base) <= u64::MAX {
        Some(radix_value(s, base) as u64)
    } else {
        None
    }
}

/// What the numeric literal parser returns on a token: the encoded value
/// of a well-formed hex or decimal numeral, and nothing otherwise.
pub open spec fn spec_numeral(s: Seq<char>) -> Option<u64> {
    if is_hex_token(s) {
        parsed_digits(s.subrange(2, s.len() as int), 16)
    } else if s.len() > 0 && is_digit(s[0], 10) {
        parsed_digits(s, 10)
    } else {
        None
    }
}

/// A digit string in a positive base denotes a non-negative value.
proof fn lemma_radix_nonneg(s: Seq<char>, base: int)
    requires
        base >= 1,
        all_digits(s, base),
    ensures
        radix_value(s, base) >= 0,
    decreases s.len(),
{
    if s.len() > 0 {
        assert(all_digits(s.drop_last(), base)) by {
            assert forall|i: int| 0 <= i < s.drop_last().len() implies is_digit(
                #[trigger] s.drop_last()[i],
                base,
            ) by {
                assert(s.drop_last()[i] == s[i]);
            }
        }
        lemma_radix_nonneg(s.drop_last(), base);
        assert(radix_value(s.drop_last(), base) * base >= 0) by (nonlinear_arith)
            requires
                radix_value(s.drop_last(), base) >= 0,
                base >= 1,
        ;
    }
}

/// Reading more digits never shrinks the denoted value: the value of a
/// prefix bounds the value of the whole digit string from below.
proof fn lemma_radix_prefix(s: Seq<char>, k: int, base: int)
    requires
        base >= 1,
        all_digits(s, base),
        0 <= k <= s.len(),
    ensures
        radix_value(s.subrange(0, k), base) <= radix_value(s, base),
    decreases s.len() - k,
{
    if k == s.len() {
        assert(s.subrange(0, k) =~= s);
    } else {
        let p = s.subrange(0, k);
        let p1 = s.subrange(0, k + 1);
        assert(p1.drop_last() =~= p);
        assert(p1.last() == s[k]);
        assert(all_digits(p, base)) by {
            assert forall|i: int| 0 <= i < p.len() implies is_digit(#[trigger] p[i], base) by {
                assert(p[i] == s[i]);
            }
        }
        lemma_radix_nonneg(p, base);
        assert(radix_value(p, base) * base >= radix_value(p, base)) by (nonlinear_arith)
            requires
                radix_value(p, base) >= 0,
                base >= 1,
        ;
        lemma_radix_prefix(s, k + 1, base);
    }
}

/// Reads one character as a digit of the given base.
fn digit_value(c: char, base: u64) -> (r: Option<u64>)
    requires
        2 <= base <= 16,
    ensures
        match r {
            Some(d) => is_digit(c, base as int) && d == char_digit(c),
            None => !is_digit(c, base as int),
        },
{
    let d: u64 = if '0' <= c && c <= '9' {
        (c as u32 - '0' as u32) as u64
    } else if 'a' <= c && c <= 'f' {
        (c as u32 - 'a' as u32) as u64 + 10
    } else if 'A' <= c && c <= 'F' {
        (c as u32 - 'A' as u32) as u64 + 10
    } else {
        return None;
    };
    if d < base {
        Some(d)
    } else {
        None
    }
}

/// Parses the characters of `s` from position `from` to the end as a
/// digit string in the given base, rejecting the token on the first
/// character that is no digit of the base and on overflow of 64 bits.
fn parse_digits(s: &str, from: usize, base: u64) -> (r: Option<u64>)
    requires
        2 <= base <= 16,
        from < s@.len(),
    ensures
        r == parsed_digits(s@.subrange(from as int, s@.len() as int), base as int),
{
    let ghost whole = s@.subrange(from as int, s@.len() as int);
    let n = s.unicode_len();
    let mut i = from;
    let mut acc: u64 = 0;
    while i < n
        invariant
            2 <= base <= 16,
            from <= i <= n,
            n == s@.len(),
            whole == s@.subrange(from as int, n as int),
            all_digits(s@.subrange(from as int, i as int), base as int),
            acc == radix_value(s@.subrange(from as int, i as int), base as int),
        decreases n - i,
    {
        let c = s.get_char(i);
        let ghost pref = s@.subrange(from as int, i as int);
        let ghost pref1 = s@.subrange(from as int, i + 1 as int);
        proof {
            assert(pref1.drop_last() =~= pref);
            assert(pref1.last() == s@[i as int]);
            assert(whole[i - from] == s@[i as int]);
        }
        match digit_value(c, base) {
            None => {
                proof {
                    assert(!all_digits(whole, base as int));
                }
                return None;
            },
            Some(d) => {
                proof {
                    assert(all_digits(pref1, base as int)) by {
                        assert forall|j: int| 0 <= j < pref1.len() implies is_digit(
                            #[trigger] pref1[j],
                            base as int,
                        ) by {
                            if j < pref1.len() - 1 {
                                assert(pref1[j] == pref[j]);
                            }
                        }
                    }
                }
                let stepped = acc.checked_mul(base);
                let next = match stepped {
                    Some(m) => m.checked_add(d),
                    None => None,
                };
                match next {
                    Some(v) => {
                        acc = v;
                    },
                    None => {
                        proof {
                            assert(radix_value(pref1, base as int) > u64::MAX);
                            if all_digits(whole, base as int) {
                                assert(pref1 =~= whole.subrange(0, i + 1 - from));
                                lemma_radix_prefix(whole, i + 1 - from, base as int);
                            }
                        }
                        return None;
                    },
                }
                i = i + 1;
            },
        }
    }
    proof {
        assert(s@.subrange(from as int, i as int) =~= whole);
    }
    Some(acc)
}

/// Interprets a token as a hex (`0x`-prefixed) or decimal unsigned
/// integer. Returns the encoded value; returns nothing when the token
/// matches neither numeral form, holds a character invalid for its base,
/// or encodes a value too wide for 64 bits.
pub fn convert_to_u64(s: &str) -> (r: Option<u64>)
    ensures
        r == spec_numeral(s@),
{
    let n = s.unicode_len();
    if n > 2 && s.get_char(0) == '0' && s.get_char(1) == 'x' {
        parse_digits(s, 2, 16)
    } else if n > 0 {
        let c = s.get_char(0);
        if '0' <= c && c <= '9' {
            proof {
                assert(s@.subrange(0, s@.len() as int) =~= s@);
            }
            parse_digits(s, 0, 10)
        } else {
            None
        }
    } else {
        None
    }
}

/// The whitespace the mini-language ignores around its tokens.
pub open spec fn is_space(c: char) -> bool {
    c == ' ' || c == '\t' || c == '\n' || c == '\r' || c == '\u{b}' || c == '\u{c}'
}

/// `s` with its leading whitespace removed.
pub open spec fn trim_front(s: Seq<char>) -> Seq<char>
    decreases s.len(),
{
    if s.len() > 0 && is_space(s[0]) {
        trim_front(s.drop_first())
    } else {
        s
    }
}

/// `s` with its trailing whitespace removed.
pub open spec fn trim_back(s: Seq<char>) -> Seq<char>
    decreases s.len(),
{
    if s.len() > 0 && is_space(s.last()) {
        trim_back(s.drop_last())
    } else {
        s
    }
}

/// A token with its surrounding whitespace removed.
pub open spec fn spec_trim(s: Seq<char>) -> Seq<char> {
    trim_back(trim_front(s))
}

/// Whether `c` is whitespace the mini-language ignores.
fn is_space_char(c: char) -> (r: bool)
    ensures
        r == is_space(c),
{
    c == ' ' || c == '\t' || c == '\n' || c == '\r' || c == '\u{b}' || c == '\u{c}'
}

/// Removes the whitespace around a token.
fn trim_token<'a>(s: &'a str) -> (r: &'a str)
    ensures
        r@ == spec_trim(s@),
{
    let n = s.unicode_len();
    proof {
        assert(s@.subrange(0, n as int) =~= s@);
    }
    let mut lo: usize = 0;
    while lo < n && is_space_char(s.get_char(lo))
        invariant
            lo <= n,
            n == s@.len(),
            trim_front(s@) == trim_front(s@.subrange(lo as int, n as int)),
        decreases n - lo,
    {
        proof {
            let cur = s@.subrange(lo as int, n as int);
            assert(cur[0] == s@[lo as int]);
            assert(cur.drop_first() =~= s@.subrange(lo as int + 1, n as int));
        }
        lo = lo + 1;
    }
    proof {
        let cur = s@.subrange(lo as int, n as int);
        if cur.len() > 0 {
            assert(cur[0] == s@[lo as int]);
        }
        assert(trim_front(cur) == cur);
    }
    let mut hi: usize = n;
    while hi > lo && is_space_char(s.get_char(hi - 1))
        invariant
            lo <= hi <= n,
            n == s@.len(),
            trim_front(s@) == s@.subrange(lo as int, n as int),
            trim_back(s@.subrange(lo as int, n as int)) == trim_back(
                s@.subrange(lo as int, hi as int),
            ),
        decreases hi,
    {
        proof {
            let cur = s@.subrange(lo as int, hi as int);
            assert(cur.last() == s@[hi as int - 1]);
            assert(cur.drop_last() =~= s@.subrange(lo as int, hi as int - 1));
        }
        hi = hi - 1;
    }
    proof {
        let cur = s@.subrange(lo as int, hi as int);
        if cur.len() > 0 {
            assert(cur.last() == s@[hi as int - 1]);
        }
        assert(trim_back(cur) == cur);
    }
    s.substring_char(lo, hi)
}

/// Whether two tokens hold the same characters.
pub(crate) fn str_eq(a: &str, b: &str) -> (r: bool)
    ensures
        r == (a@ == b@),
{
    let na = a.unicode_len();
    let nb = b.unicode_len();
    if na != nb {
        return false;
    }
    let mut i: usize = 0;
    while i < na
        invariant
            i <= na,
            na == a@.len(),
            nb == b@.len(),
            na == nb,
            forall|j: int| 0 <= j < i ==> a@[j] == b@[j],
        decreases na - i,
    {
        if a.get_char(i) != b.get_char(i) {
            return false;
        }
        i = i + 1;
    }
    proof {
        assert(a@ =~= b@);
    }
    true
}

/// The location tokens the resolver accepts: a numeral that encodes an
/// address of the machine's word width, or any other non-empty token,
/// taken as a register name.
pub open spec fn key_ok(t: Seq<char>) -> bool {
    if looks_numeric(t) {
        match spec_numeral(t) {
            Some(v) => v <= usize::MAX as u64,
            None => false,
        }
    } else {
        t.len() > 0
    }
}

/// Whether `k` is the location that resolving the token `t` yields.
pub open spec fn key_matches(k: Key, t: Seq<char>) -> bool {
    match k {
        Key::Mem(a) => looks_numeric(t) && spec_numeral(t) == Some(a as u64),
        Key::Reg(name) => !looks_numeric(t) && t.len() > 0 && name@ == t,
    }
}

/// Resolves a location token: a numeral names the memory address it
/// encodes, any other non-empty token names a register verbatim.
/// Returns nothing for a numeral-looking token whose digits are invalid
/// or whose value is too wide for an address, and for an empty token.
pub fn to_key(s: &str) -> (r: Option<Key>)
    ensures
        match r {
            Some(k) => key_matches(k, s@),
            None => !key_ok(s@),
        },
{
    let n = s.unicode_len();
    if n == 0 {
        return None;
    }
    let c0 = s.get_char(0);
    let numeric = (n > 2 && c0 == '0' && s.get_char(1) == 'x') || ('0' <= c0 && c0 <= '9');
    if numeric {
        match convert_to_u64(s) {
            Some(v) => {
                if v <= usize::MAX as u64 {
                    Some(Key::Mem(v as usize))
                } else {
                    None
                }
            },
            None => None,
        }
    } else {
        Some(Key::Reg(s.to_owned()))
    }
}

/// The value tokens the classifier accepts: the literal `SYM` or a
/// well-formed numeral.
pub open spec fn val_ok(t: Seq<char>) -> bool {
    t == "SYM"@ || spec_numeral(t) is Some
}

/// Whether `v` is the value that classifying the token `t` yields.
pub open spec fn val_matches(v: ValType, t: Seq<char>) -> bool {
    if t == "SYM"@ {
        v == ValType::Symbolic
    } else {
        match spec_numeral(t) {
            Some(x) => v == ValType::Concrete(x as usize),
            None => false,
        }
    }
}

/// Classifies a value token: the literal `SYM` is symbolic, a numeral
/// is concrete with the value it encodes, and any other token yields no
/// classification.
pub fn to_valtype(s: &str) -> (r: Option<ValType>)
    ensures
        match r {
            Some(v) => val_matches(v, s@),
            None => !val_ok(s@),
        },
{
    if str_eq(s, "SYM") {
        Some(ValType::Symbolic)
    } else {
        match convert_to_u64(s) {
            Some(val) => Some(ValType::Concrete(val as usize)),
            None => None,
        }
    }
}

/// How many `=` separators a line holds.
pub open spec fn count_eq(s: Seq<char>) -> int
    decreases s.len(),
{
    if s.len() == 0 {
        0
    } else {
        count_eq(s.drop_last()) + (if s.last() == '=' {
            1int
        } else {
            0int
        })
    }
}

/// The position of the first `=` in a line, its length when it has none.
pub open spec fn first_eq(s: Seq<char>) -> int
    decreases s.len(),
{
    if s.len() == 0 {
        0
    } else if s[0] == '=' {
        0
    } else {
        1 + first_eq(s.drop_first())
    }
}

/// The trimmed location side of a line split at its first `=`.
pub open spec fn lhs_token(s: Seq<char>) -> Seq<char> {
    spec_trim(s.subrange(0, first_eq(s)))
}

/// The trimmed value side of a line split at its first `=`.
pub open spec fn rhs_token(s: Seq<char>) -> Seq<char> {
    spec_trim(s.subrange(first_eq(s) + 1, s.len() as int))
}

/// The character before the first `=` and after none is at that very
/// position.
proof fn lemma_first_eq_at(s: Seq<char>, k: int)
    requires
        0 <= k < s.len(),
        s[k] == '=',
        forall|j: int| 0 <= j < k ==> s[j] != '=',
    ensures
        first_eq(s) == k,
    decreases k,
{
    if k > 0 {
        assert(s.drop_first()[k - 1] == s[k]);
        assert forall|j: int| 0 <= j < k - 1 implies s.drop_first()[j] != '=' by {
            assert(s.drop_first()[j] == s[j + 1]);
        }
        lemma_first_eq_at(s.drop_first(), k - 1);
    }
}

/// Parses one declarative line `<location> = <value>`. The line must
/// hold exactly one `=`; both sides are trimmed of whitespace, the left
/// resolved as a location and the right classified as a value. A line
/// with any other separator count, an unresolvable location or an
/// unclassifiable value yields no assignment; it never aborts anything.
pub fn to_assignment(s: &str) -> (r: Option<SAssignment>)
    ensures
        match r {
            Some(a) => count_eq(s@) == 1 && key_matches(a.lvalue, lhs_token(s@)) && val_matches(
                a.rvalue,
                rhs_token(s@),
            ),
            None => count_eq(s@) != 1 || !key_ok(lhs_token(s@)) || !val_ok(rhs_token(s@)),
        },
{
    let n = s.unicode_len();
    proof {
        assert(s@.subrange(0, n as int) =~= s@);
    }
    let mut i: usize = 0;
    let mut pos: usize = 0;
    let mut count: usize = 0;
    while i < n
        invariant
            i <= n,
            n == s@.len(),
            count <= i,
            count == count_eq(s@.subrange(0, i as int)),
            count >= 1 ==> pos < i && s@[pos as int] == '=' && pos == first_eq(s@),
            count == 0 ==> forall|j: int| 0 <= j < i ==> s@[j] != '=',
        decreases n - i,
    {
        let c = s.get_char(i);
        proof {
            let p = s@.subrange(0, i as int);
            let p1 = s@.subrange(0, i as int + 1);
            assert(p1.drop_last() =~= p);
            assert(p1.last() == s@[i as int]);
        }
        if c == '=' {
            if count == 0 {
                pos = i;
                proof {
                    lemma_first_eq_at(s@, i as int);
                }
            }
            count = count + 1;
        }
        i = i + 1;
    }
    proof {
        assert(s@.subrange(0, i as int) =~= s@);
    }
    if count != 1 {
        return None;
    }
    let lhs = trim_token(s.substring_char(0, pos));
    let rhs = trim_token(s.substring_char(pos + 1, n));
    proof {
        assert(lhs@ == lhs_token(s@));
        assert(rhs@ == rhs_token(s@));
    }
    match to_key(lhs) {
        Some(lvalue) => match to_valtype(rhs) {
            Some(rvalue) => Some(SAssignment { lvalue, rvalue }),
            None => None,
        },
        None => None,
    }
}

/// The value of a digit string stays below the base raised to its
/// length.
proof fn lemma_radix_bound(s: Seq<char>, base: int)
    requires
        base >= 2,
        all_digits(s, base),
    ensures
        0 <= radix_value(s, base) < pow(base, s.len()),
    decreases s.len(),
{
    reveal(pow);
    if s.len() == 0 {
        assert(pow(base, 0) == 1);
    } else {
        let p = s.drop_last();
        assert(all_digits(p, base)) by {
            assert forall|i: int| 0 <= i < p.len() implies is_digit(#[trigger] p[i], base) by {
                assert(p[i] == s[i]);
            }
        }
        lemma_radix_bound(p, base);
        assert(pow(base, s.len()) == base * pow(base, p.len()));
        assert(radix_value(p, base) * base + char_digit(s.last()) < pow(base, p.len()) * base)
            by (nonlinear_arith)
            requires
                0 <= radix_value(p, base) < pow(base, p.len()),
                0 <= char_digit(s.last()) < base,
                base >= 2,
        ;
    }
}

/// Law: a hex token of one to sixteen digits always parses, and to
/// exactly the value its digits encode.
pub proof fn lemma_hex_literal_exact(s: Seq<char>)
    requires
        is_hex_token(s),
        s.len() <= 18,
        all_digits(s.subrange(2, s.len() as int), 16),
    ensures
        spec_numeral(s) == Some(radix_value(s.subrange(2, s.len() as int), 16) as u64),
{
    let d = s.subrange(2, s.len() as int);
    lemma_radix_bound(d, 16);
    vstd::arithmetic::power::lemma_pow_increases(16, d.len() as nat, 16);
    assert(pow(16, 16) == 0x10000000000000000) by {
        reveal_with_fuel(pow, 17);
    }
}

/// Law: an all-digit decimal token parses to exactly the decimal value
/// it encodes, whenever that value fits 64 bits.
pub proof fn lemma_decimal_literal_exact(s: Seq<char>)
    requires
        s.len() > 0,
        all_digits(s, 10),
        radix_value(s, 10) <= u64::MAX,
    ensures
        spec_numeral(s) == Some(radix_value(s, 10) as u64),
{
    assert(is_digit(s[0], 10));
    assert(!is_hex_token(s)) by {
        if is_hex_token(s) {
            assert(is_digit(s[1], 10));
        }
    }
}

/// Law: a trimmed `SYM` token always classifies as symbolic, never as a
/// concrete value.
pub proof fn lemma_sym_always_symbolic(t: Seq<char>, v: ValType)
    requires
        spec_trim(t) == "SYM"@,
        val_matches(v, spec_trim(t)),
    ensures
        v == ValType::Symbolic,
{
}

} // verus!
