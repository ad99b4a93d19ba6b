use vstd::prelude::*;
use vstd::string::StringExecFns;
use crate::field::{Felt, MODULUS_HI, MODULUS_LO, modulus, two128, value};
use vstd::arithmetic::div_mod::lemma_fundamental_div_mod_converse;
use crate::lowering::Instruction;
use crate::types::{Gate, LowerError, MEMORY_CAPACITY};

verus! {

/// The character of a decimal digit.
pub open spec fn digit(d: nat) -> char {
    seq!['0', '1', '2', '3', '4', '5', '6', '7', '8', '9'][d as int]
}

/// The decimal digits of `n`, most significant first, without leading zeros.
pub open spec fn decimal(n: nat) -> Seq<char>
    decreases n,
{
    if n < 10 {
        seq![digit(n)]
    } else {
        decimal(n / 10).push(digit(n % 10))
    }
}

/// 2^64.
const TWO64: u128 = 0x1_0000_0000_0000_0000;

/// Divides the number `hi * 2^128 + lo` by ten: quotient halves and
/// remainder.
fn div10(hi: u128, lo: u128) -> (r: (u128, u128, u8))
    ensures
        hi as nat * two128() + lo as nat == 10 * (r.0 as nat * two128() + r.1 as nat) + r.2 as nat,
        r.2 < 10,
{
    let qh = hi / 10;
    let r2 = hi % 10;
    let l1 = lo / TWO64;
    let l0 = lo % TWO64;
    let t1 = r2 * TWO64 + l1;
    let q1 = t1 / 10;
    let r1 = t1 % 10;
    let t0 = r1 * TWO64 + l0;
    let q0 = t0 / 10;
    let r0 = t0 % 10;
    let qlo = q1 * TWO64 + q0;
    proof {
        let w: int = TWO64 as int;
        assert(two128() == w * w);
        assert(hi as int == 10 * qh + r2);
        assert(lo as int == w * l1 + l0);
        assert(t1 as int == 10 * q1 + r1);
        assert(t0 as int == 10 * q0 + r0);
        let hv = hi as int;
        let qhv = qh as int;
        assert(hv * (w * w) == (10 * qhv + r2) * (w * w));
        assert((10 * qhv + r2) * (w * w) == 10 * (qhv * (w * w)) + (r2 as int * w) * w) by (nonlinear_arith);
        assert(t1 as int * w == (r2 as int * w) * w + l1 * w) by (nonlinear_arith)
            requires t1 as int == r2 as int * w + l1;
        assert(10 * (q1 as int * w) == (10 * q1 as int) * w) by (nonlinear_arith);
        assert((10 * q1 as int) * w == (t1 as int - r1 as int) * w);
        assert((t1 as int - r1 as int) * w == t1 as int * w - r1 as int * w) by (nonlinear_arith);
    }
    (qh, qlo, r0 as u8)
}

/// The text of a decimal digit.
fn digit_str(d: u8) -> (r: &'static str)
    requires
        d < 10,
    ensures
        r@ == seq![digit(d as nat)],
{
    proof {
        reveal_strlit("0");
        reveal_strlit("1");
        reveal_strlit("2");
        reveal_strlit("3");
        reveal_strlit("4");
        reveal_strlit("5");
        reveal_strlit("6");
        reveal_strlit("7");
        reveal_strlit("8");
        reveal_strlit("9");
    }
    if d == 0 { "0" }
    else if d == 1 { "1" }
    else if d == 2 { "2" }
    else if d == 3 { "3" }
    else if d == 4 { "4" }
    else if d == 5 { "5" }
    else if d == 6 { "6" }
    else if d == 7 { "7" }
    else if d == 8 { "8" }
    else { "9" }
}

/// The decimal digits of the number `hi * 2^128 + lo`.
pub fn decimal_text(hi: u128, lo: u128) -> (r: String)
    ensures
        r@ == decimal(hi as nat * two128() + lo as nat),
{
    let ghost n0 = hi as nat * two128() + lo as nat;
    let mut h = hi;
    let mut l = lo;
    let mut ds: Vec<u8> = Vec::new();
    while h > 0 || l >= 10
        invariant
            forall|i: int| 0 <= i < ds@.len() ==> #[trigger] ds@[i] < 10,
            decimal(n0) == decimal(h as nat * two128() + l as nat) + ds@.map_values(|d: u8| digit(d as nat)),
        decreases h as nat * two128() + l as nat,
    {
        let (qh, ql, d) = div10(h, l);
        let ghost old_ds = ds@;
        proof {
            let n = h as nat * two128() + l as nat;
            let q = qh as nat * two128() + ql as nat;
            lemma_fundamental_div_mod_converse(n as int, 10, q as int, d as int);
            if h > 0 {
                assert(h as nat * two128() >= two128()) by (nonlinear_arith)
                    requires h > 0, two128() > 0;
            }
            assert(n >= 10);
            assert(decimal(n) == decimal(q).push(digit(d as nat)));
        }
        ds.insert(0, d);
        proof {
            assert(ds@.map_values(|x: u8| digit(x as nat))
                =~= seq![digit(d as nat)] + old_ds.map_values(|x: u8| digit(x as nat)));
            assert(decimal(n0) == decimal(qh as nat * two128() + ql as nat) + ds@.map_values(|x: u8| digit(x as nat)));
        }
        h = qh;
        l = ql;
    }
    let ghost old_ds = ds@;
    ds.insert(0, l as u8);
    proof {
        assert(ds@.map_values(|x: u8| digit(x as nat))
            =~= seq![digit(l as nat)] + old_ds.map_values(|x: u8| digit(x as nat)));
        assert(decimal(l as nat) == seq![digit(l as nat)]);
    }
    let mut s = String::new();
    let mut i: usize = 0;
    while i < ds.len()
        invariant
            0 <= i <= ds@.len(),
            forall|k: int| 0 <= k < ds@.len() ==> #[trigger] ds@[k] < 10,
            s@ == ds@.subrange(0, i as int).map_values(|x: u8| digit(x as nat)),
        decreases ds@.len() - i,
    {
        s.append(digit_str(ds[i]));
        proof {
            assert(ds@.subrange(0, i + 1).map_values(|x: u8| digit(x as nat))
                =~= ds@.subrange(0, i as int).map_values(|x: u8| digit(x as nat)) + seq![digit(ds@[i as int] as nat)]);
        }
        i += 1;
    }
    proof {
        assert(ds@.subrange(0, ds@.len() as int) =~= ds@);
    }
    s
}

/// A signed decimal: a minus sign where `negative`, then the digits of the
/// magnitude.
pub open spec fn signed_decimal(negative: bool, magnitude: nat) -> Seq<char> {
    if negative { seq!['-'] + decimal(magnitude) } else { decimal(magnitude) }
}

/// Writes the magnitude `hi * 2^128 + lo` with its sign, as a line of the
/// memory image holds it.
pub fn signed_text(negative: bool, hi: u128, lo: u128) -> (r: String)
    ensures
        r@ == signed_decimal(negative, hi as nat * two128() + lo as nat),
{
    let digits = decimal_text(hi, lo);
    if negative {
        let mut s = String::from_str("-");
        s.append(digits.as_str());
        proof {
            reveal_strlit("-");
        }
        s
    } else {
        digits
    }
}

/// The value is below the modulus and above half of it: it is written as
/// the negation of its additive inverse.
pub open spec fn is_negative(v: nat) -> bool {
    v < modulus() && v > modulus() - v
}

/// The magnitude a value is written with: its additive inverse where it is
/// negative, else the value itself.
pub open spec fn magnitude(v: nat) -> nat {
    if is_negative(v) { (modulus() - v) as nat } else { v }
}

/// The line of a field value in the memory image.
pub open spec fn value_line(f: Felt) -> Seq<char> {
    signed_decimal(is_negative(value(f)), magnitude(value(f)))
}

/// Writes a field value as a signed decimal: a value above half the modulus
/// as a minus sign and the magnitude of its negation, any other as itself.
pub fn value_text(f: Felt) -> (r: String)
    ensures
        r@ == value_line(f),
{
    let canonical = f.hi < MODULUS_HI || (f.hi == MODULUS_HI && f.lo < MODULUS_LO);
    if canonical && (f.hi > 0 || f.lo > 0) {
        let (nhi, nlo) = if f.lo <= MODULUS_LO {
            (MODULUS_HI - f.hi, MODULUS_LO - f.lo)
        } else {
            (MODULUS_HI - f.hi - 1, MODULUS_LO + (u128::MAX - f.lo) + 1)
        };
        proof {
            assert(nhi as nat * two128() + nlo as nat == modulus() - value(f));
        }
        if f.hi > nhi || (f.hi == nhi && f.lo > nlo) {
            return signed_text(true, nhi, nlo);
        }
    }
    signed_text(false, f.hi, f.lo)
}

/// The mnemonic of a gate.
pub open spec fn mnemonic_spec(g: Gate) -> Seq<char> {
    match g {
        Gate::Add => "add"@,
        Gate::Sub => "sub"@,
        Gate::Dot => "dot"@,
        Gate::Cumprod => "cumprod"@,
        Gate::Sum => "sum"@,
        Gate::Neg => "neg"@,
        Gate::Mult => "mult"@,
        Gate::IsZero => "iszero"@,
        Gate::Identity => "identity"@,
        Gate::IsBool => "isbool"@,
        Gate::Div128 => "div_128"@,
        Gate::Relu => "relu"@,
    }
}

impl Gate {
    /// Its mnemonic.
    pub fn mnemonic(&self) -> (r: &'static str)
        ensures
            r@ == mnemonic_spec(*self),
    {
        match self {
            Gate::Add => "add",
            Gate::Sub => "sub",
            Gate::Dot => "dot",
            Gate::Cumprod => "cumprod",
            Gate::Sum => "sum",
            Gate::Neg => "neg",
            Gate::Mult => "mult",
            Gate::IsZero => "iszero",
            Gate::Identity => "identity",
            Gate::IsBool => "isbool",
            Gate::Div128 => "div_128",
            Gate::Relu => "relu",
        }
    }
}

/// Addresses in decimal, separated by a comma and a space.
pub open spec fn addresses_text(a: Seq<usize>) -> Seq<char>
    decreases a.len(),
{
    if a.len() == 0 {
        Seq::empty()
    } else if a.len() == 1 {
        decimal(a[0] as nat)
    } else {
        addresses_text(a.drop_last()) + ", "@ + decimal(a.last() as nat)
    }
}

/// The line of an instruction: mnemonic, a space, the addresses, and a
/// semicolon.
pub open spec fn instruction_text(i: Instruction) -> Seq<char> {
    mnemonic_spec(i.gate) + " "@ + addresses_text(i.operands@) + ";"@
}

impl Instruction {
    /// The line of the instruction, as in `add 0, 1, 2;`.
    pub fn text(&self) -> (r: String)
        ensures
            r@ == instruction_text(*self),
    {
        let mut s = String::from_str(self.gate.mnemonic());
        s.append(" ");
        proof {
            reveal_strlit(" ");
        }
        let ghost head = s@;
        let mut j: usize = 0;
        while j < self.operands.len()
            invariant
                0 <= j <= self.operands@.len(),
                s@ == head + addresses_text(self.operands@.subrange(0, j as int)),
            decreases self.operands@.len() - j,
        {
            if j > 0 {
                s.append(", ");
                proof {
                    reveal_strlit(", ");
                }
            }
            let d = decimal_text(0, self.operands[j] as u128);
            s.append(d.as_str());
            proof {
                let a = self.operands@.subrange(0, j + 1);
                assert(a.drop_last() =~= self.operands@.subrange(0, j as int));
                if j == 0 {
                    assert(addresses_text(a) == decimal(a[0] as nat));
                }
            }
            j += 1;
        }
        s.append(";");
        proof {
            reveal_strlit(";");
            assert(self.operands@.subrange(0, self.operands@.len() as int) =~= self.operands@);
        }
        s
    }
}

/// Lines joined with a newline between each two.
pub open spec fn joined(lines: Seq<Seq<char>>) -> Seq<char>
    decreases lines.len(),
{
    if lines.len() == 0 {
        Seq::empty()
    } else if lines.len() == 1 {
        lines[0]
    } else {
        joined(lines.drop_last()) + "\n"@ + lines.last()
    }
}

/// The text of a program: one instruction per line.
pub open spec fn program_text_spec(p: Seq<Instruction>) -> Seq<char> {
    joined(p.map_values(|i: Instruction| instruction_text(i)))
}

/// Writes the program, one instruction per line.
pub fn program_text(program: &Vec<Instruction>) -> (r: String)
    ensures
        r@ == program_text_spec(program@),
{
    let mut s = String::new();
    let mut j: usize = 0;
    while j < program.len()
        invariant
            0 <= j <= program@.len(),
            s@ == program_text_spec(program@.subrange(0, j as int)),
        decreases program@.len() - j,
    {
        if j > 0 {
            s.append("\n");
            proof {
                reveal_strlit("\n");
            }
        }
        let line = program[j].text();
        s.append(line.as_str());
        proof {
            let p = program@.subrange(0, j + 1);
            let lines = p.map_values(|i: Instruction| instruction_text(i));
            assert(lines.drop_last() =~= program@.subrange(0, j as int).map_values(|i: Instruction| instruction_text(i)));
            if j == 0 {
                assert(joined(lines) == lines[0]);
            }
        }
        j += 1;
    }
    proof {
        assert(program@.subrange(0, program@.len() as int) =~= program@);
    }
    s
}

/// Each line followed by a newline.
pub open spec fn lines_text(lines: Seq<Seq<char>>) -> Seq<char>
    decreases lines.len(),
{
    if lines.len() == 0 {
        Seq::empty()
    } else {
        lines_text(lines.drop_last()) + lines.last() + "\n"@
    }
}

/// `k` lines that hold a zero.
pub open spec fn zero_lines(k: nat) -> Seq<char>
    decreases k,
{
    if k == 0 { Seq::empty() } else { zero_lines((k - 1) as nat) + "0\n"@ }
}

/// The memory snapshot: a header line naming the memory, one line per value,
/// and zero lines up to the capacity.
pub open spec fn image_text(values: Seq<Seq<char>>) -> Seq<char> {
    "main.mem\n"@ + lines_text(values) + zero_lines((MEMORY_CAPACITY - values.len()) as nat)
}

/// Writes the memory snapshot from the lines of its values.
pub fn image_from_lines(values: &Vec<String>) -> (r: String)
    requires
        values@.len() <= MEMORY_CAPACITY,
    ensures
        r@ == image_text(values@.map_values(|v: String| v@)),
{
    let ghost vs = values@.map_values(|v: String| v@);
    let mut s = String::from_str("main.mem\n");
    let mut j: usize = 0;
    while j < values.len()
        invariant
            0 <= j <= values@.len(),
            vs == values@.map_values(|v: String| v@),
            s@ == "main.mem\n"@ + lines_text(vs.subrange(0, j as int)),
        decreases values@.len() - j,
    {
        s.append(values[j].as_str());
        s.append("\n");
        proof {
            assert(vs.subrange(0, j + 1).drop_last() =~= vs.subrange(0, j as int));
        }
        j += 1;
    }
    proof {
        assert(vs.subrange(0, values@.len() as int) =~= vs);
    }
    let ghost head = s@;
    let mut k: usize = values.len();
    while k < MEMORY_CAPACITY
        invariant
            values@.len() <= k <= MEMORY_CAPACITY,
            s@ == head + zero_lines((k - values@.len()) as nat),
        decreases MEMORY_CAPACITY - k,
    {
        s.append("0\n");
        k += 1;
    }
    s
}

/// Writes the memory snapshot of a lowering's memory.
pub fn image_text_of(memory: &Vec<Felt>) -> (s: String)
    requires
        memory@.len() <= MEMORY_CAPACITY,
    ensures
        s@ == image_text(memory@.map_values(|f: Felt| value_line(f))),
{
    let mut lines: Vec<String> = Vec::new();
    let mut i: usize = 0;
    while i < memory.len()
        invariant
            0 <= i <= memory@.len(),
            lines@.len() == i,
            forall|p: int| 0 <= p < i ==> (#[trigger] lines@[p])@ == value_line(memory@[p]),
        decreases memory@.len() - i,
    {
        let line = value_text(memory[i]);
        lines.push(line);
        proof {
            assert forall|p: int| 0 <= p < i + 1 implies (#[trigger] lines@[p])@ == value_line(memory@[p]) by {
                if p < i {
                    assert(lines@[p] == lines@.drop_last()[p]);
                }
            }
        }
        i += 1;
    }
    let s = image_from_lines(&lines);
    proof {
        assert(lines@.map_values(|v: String| v@) =~= memory@.map_values(|f: Felt| value_line(f)));
    }
    s
}

proof fn lemma_decimal_digits(n: nat)
    ensures
        forall|i: int| 0 <= i < decimal(n).len() ==> #[trigger] decimal(n)[i] != '\n' && decimal(n)[i] != '-',
    decreases n,
{
    if n >= 10 {
        lemma_decimal_digits(n / 10);
        let p = decimal(n / 10);
        assert forall|i: int| 0 <= i < decimal(n).len() implies #[trigger] decimal(n)[i] != '\n' && decimal(n)[i] != '-' by {
            if i < p.len() {
                assert(decimal(n)[i] == p[i]);
            }
        }
    }
}

/// A value's line in the memory image holds no newline.
pub proof fn law_value_line_one_line(f: Felt)
    ensures
        forall|i: int| 0 <= i < value_line(f).len() ==> #[trigger] value_line(f)[i] != '\n',
{
    lemma_decimal_digits(magnitude(value(f)));
    let d = decimal(magnitude(value(f)));
    if is_negative(value(f)) {
        assert forall|i: int| 0 <= i < value_line(f).len() implies #[trigger] value_line(f)[i] != '\n' by {
            if i > 0 {
                assert(value_line(f)[i] == d[i - 1]);
            }
        }
    }
}

proof fn lemma_lines_concat(x: Seq<Seq<char>>, y: Seq<Seq<char>>)
    ensures
        lines_text(x + y) == lines_text(x) + lines_text(y),
    decreases y.len(),
{
    if y.len() == 0 {
        assert(x + y =~= x);
    } else {
        assert((x + y).drop_last() =~= x + y.drop_last());
        lemma_lines_concat(x, y.drop_last());
        assert(lines_text(x + y) =~= lines_text(x) + lines_text(y));
    }
}

/// In the memory image, the line of value `a` follows the header and the
/// lines of the values before it, each ended by a newline.
pub proof fn law_snapshot_line(vs: Seq<Seq<char>>, a: int)
    requires
        0 <= a < vs.len(),
    ensures
        image_text(vs) == "main.mem\n"@ + lines_text(vs.subrange(0, a)) + vs[a] + "\n"@
            + lines_text(vs.subrange(a + 1, vs.len() as int)) + zero_lines((MEMORY_CAPACITY - vs.len()) as nat),
{
    let pre = vs.subrange(0, a);
    let suf = vs.subrange(a + 1, vs.len() as int);
    assert(vs =~= pre + (seq![vs[a]] + suf));
    lemma_lines_concat(pre, seq![vs[a]] + suf);
    lemma_lines_concat(seq![vs[a]], suf);
    assert(seq![vs[a]].drop_last() =~= Seq::<Seq<char>>::empty());
    let one = seq![vs[a]];
    assert(lines_text(one) == lines_text(one.drop_last()) + one.last() + "\n"@);
    assert(lines_text(Seq::<Seq<char>>::empty()) == Seq::<char>::empty());
    assert(lines_text(one) =~= vs[a] + "\n"@);
    assert(image_text(vs) =~= "main.mem\n"@ + lines_text(pre) + vs[a] + "\n"@ + lines_text(suf)
        + zero_lines((MEMORY_CAPACITY - vs.len()) as nat));
}

} // verus!
