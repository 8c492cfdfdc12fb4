//! A model of the target machine, as far as straight-line code goes.
//!
//! The machine has the registers that the emitted code names, one flag
//! register, and a memory of eight-byte cells. Registers hold 64-bit signed
//! numbers, and arithmetic wraps around. The stack is unbounded: `rsp` is a
//! mathematical integer. Where [`step`] gives no next state, the machine
//! traps, or the model does not say what it does: a division by zero, an
//! access that is not aligned, a number that does not fit an instruction, a
//! jump.

use vstd::prelude::*;
use crate::lines::Line;

verus! {

/// The least number that a register holds.
pub open spec fn least() -> int {
    -0x8000_0000_0000_0000
}

/// The greatest number that a register holds.
pub open spec fn greatest() -> int {
    0x7fff_ffff_ffff_ffff
}

/// Whether a register can hold `x`.
pub open spec fn fits(x: int) -> bool {
    least() <= x <= greatest()
}

/// What a register holds after the machine computed `x`: the number in the
/// range of a register that differs from `x` by a multiple of 2^64.
#[verifier::opaque]
pub open spec fn wrap(x: int) -> int {
    (x - least()) % 0x1_0000_0000_0000_0000 + least()
}

/// The quotient of the machine's division: rounded towards zero.
pub open spec fn quotient(a: int, b: int) -> int
    recommends
        b != 0,
{
    let magnitude = (if a >= 0 {
        a
    } else {
        -a
    }) / (if b >= 0 {
        b
    } else {
        -b
    });
    if (a >= 0) == (b >= 0) {
        magnitude
    } else {
        -magnitude
    }
}

/// What the last comparison found.
pub struct Flags {
    pub equal: bool,
    pub less: bool,
}

/// A state of the machine.
pub struct Machine {
    pub rax: int,
    pub rdi: int,
    pub rdx: int,
    pub rbp: int,
    pub rsp: int,
    /// The outcome of the last comparison, if nothing has been computed
    /// since.
    pub flags: Option<Flags>,
    /// The cells of the memory, by their addresses.
    pub memory: Map<int, int>,
    /// Whether `main` has returned.
    pub returned: bool,
}

/// Whether a cell can be read or written at `address`.
#[verifier::opaque]
pub open spec fn aligned(address: int) -> bool {
    address % 8 == 0
}

/// `push value`
pub open spec fn push(m: Machine, value: int) -> Option<Machine> {
    if aligned(m.rsp) {
        Some(Machine { rsp: m.rsp - 8, memory: m.memory.insert(m.rsp - 8, value), ..m })
    } else {
        None
    }
}

/// The machine after a `pop`, whatever the register; the value popped is
/// the cell at the old `rsp`.
pub open spec fn popped(m: Machine) -> Machine {
    Machine { rsp: m.rsp + 8, ..m }
}

/// The machine after an instruction put `value` into `rax` and left the
/// flags undefined.
pub open spec fn computed(m: Machine, value: int) -> Machine {
    Machine { rax: value, flags: None, ..m }
}

/// `rax` with its lowest byte replaced by 1 or 0.
pub open spec fn with_low_byte(rax: int, bit: bool) -> int {
    rax - rax % 256 + if bit {
        1int
    } else {
        0int
    }
}

/// The greatest number that a `push` can hold in its instruction.
pub open spec fn greatest_immediate() -> int {
    0x7fff_ffff
}

/// The state after the machine executed `line` in the state `m`.
pub open spec fn step(line: Line, m: Machine) -> Option<Machine> {
    match line {
        Line::IntelSyntax | Line::GlobalMain | Line::Main | Line::Place(_) => Some(m),
        Line::PushNum(n) => if n <= greatest_immediate() {
            push(m, n as int)
        } else {
            None
        },
        Line::PushRax => push(m, m.rax),
        Line::PushRdi => push(m, m.rdi),
        Line::PushRbp => push(m, m.rbp),
        Line::PopRax => if aligned(m.rsp) {
            Some(Machine { rax: m.memory[m.rsp], ..popped(m) })
        } else {
            None
        },
        Line::PopRdi => if aligned(m.rsp) {
            Some(Machine { rdi: m.memory[m.rsp], ..popped(m) })
        } else {
            None
        },
        Line::PopRbp => if aligned(m.rsp) {
            Some(Machine { rbp: m.memory[m.rsp], ..popped(m) })
        } else {
            None
        },
        Line::EnterFrame => Some(Machine { rbp: m.rsp, ..m }),
        Line::LeaveFrame => Some(Machine { rsp: m.rbp, ..m }),
        Line::Reserve(n) => Some(Machine { rsp: m.rsp - n, flags: None, ..m }),
        Line::Ret => if aligned(m.rsp) {
            Some(Machine { returned: true, ..popped(m) })
        } else {
            None
        },
        Line::FrameToRax => Some(Machine { rax: m.rbp, ..m }),
        Line::SubRax(n) => Some(computed(m, wrap(m.rax - n))),
        Line::Load => if aligned(m.rax) {
            Some(Machine { rax: m.memory[m.rax], ..m })
        } else {
            None
        },
        Line::Store => if aligned(m.rax) {
            Some(Machine { memory: m.memory.insert(m.rax, m.rdi), ..m })
        } else {
            None
        },
        Line::Add => Some(computed(m, wrap(m.rax + m.rdi))),
        Line::Sub => Some(computed(m, wrap(m.rax - m.rdi))),
        Line::Mul => Some(computed(m, wrap(m.rax * m.rdi))),
        Line::SignExtend => Some(
            Machine {
                rdx: if m.rax < 0 {
                    -1
                } else {
                    0
                },
                ..m
            },
        ),
        Line::Div => {
            let extended = m.rdx == if m.rax < 0 {
                -1int
            } else {
                0int
            };
            if extended && m.rdi != 0 && fits(quotient(m.rax, m.rdi)) {
                let q = quotient(m.rax, m.rdi);
                Some(Machine { rax: q, rdx: m.rax - q * m.rdi, flags: None, ..m })
            } else {
                None
            }
        },
        Line::Compare => Some(
            Machine { flags: Some(Flags { equal: m.rax == m.rdi, less: m.rax < m.rdi }), ..m },
        ),
        Line::CompareZero => Some(
            Machine { flags: Some(Flags { equal: m.rax == 0, less: m.rax < 0 }), ..m },
        ),
        Line::SetEq => match m.flags {
            Some(flags) => Some(Machine { rax: with_low_byte(m.rax, flags.equal), ..m }),
            None => None,
        },
        Line::SetNe => match m.flags {
            Some(flags) => Some(Machine { rax: with_low_byte(m.rax, !flags.equal), ..m }),
            None => None,
        },
        Line::SetLt => match m.flags {
            Some(flags) => Some(Machine { rax: with_low_byte(m.rax, flags.less), ..m }),
            None => None,
        },
        Line::SetLe => match m.flags {
            Some(flags) => Some(
                Machine { rax: with_low_byte(m.rax, flags.less || flags.equal), ..m },
            ),
            None => None,
        },
        Line::Widen => Some(Machine { rax: m.rax % 256, ..m }),
        Line::JumpIfEqual(_) | Line::Jump(_) => None,
    }
}

/// The state after the machine executed `lines` one after the other from
/// the state `m`; what follows the return of `main` is not executed.
pub open spec fn run(lines: Seq<Line>, m: Machine) -> Option<Machine>
    decreases lines.len(),
{
    if lines.len() == 0 {
        Some(m)
    } else {
        match run(lines.drop_last(), m) {
            Some(before) => if before.returned {
                Some(before)
            } else {
                step(lines.last(), before)
            },
            None => None,
        }
    }
}

/// What follows `lines` is executed in the state that `lines` led to.
pub open spec fn then_run(first: Option<Machine>, lines: Seq<Line>) -> Option<Machine> {
    match first {
        Some(m) => run(lines, m),
        None => None,
    }
}

/// After the return of `main` nothing is executed.
pub proof fn lemma_run_returned(lines: Seq<Line>, m: Machine)
    requires
        m.returned,
    ensures
        run(lines, m) == Some(m),
    decreases lines.len(),
{
    if lines.len() > 0 {
        lemma_run_returned(lines.drop_last(), m);
    }
}

/// Lines that follow one another are executed one after the other.
pub proof fn lemma_run_concat(a: Seq<Line>, b: Seq<Line>, m: Machine)
    ensures
        run(a + b, m) == then_run(run(a, m), b),
    decreases b.len(),
{
    if b.len() == 0 {
        assert(a + b =~= a);
    } else {
        lemma_run_concat(a, b.drop_last(), m);
        assert((a + b).drop_last() =~= a + b.drop_last());
        assert((a + b).last() == b.last());
    }
}

/// One line is executed by one step.
pub proof fn lemma_run_one(line: Line, m: Machine)
    requires
        !m.returned,
    ensures
        run(seq![line], m) == step(line, m),
{
    assert(seq![line].drop_last() =~= Seq::<Line>::empty());
    assert(run(seq![line].drop_last(), m) == Some(m));
}

/// The state after `line` was executed in `state`, if `main` has not
/// returned by then.
pub open spec fn after(state: Option<Machine>, line: Line) -> Option<Machine> {
    match state {
        Some(m) => if m.returned {
            Some(m)
        } else {
            step(line, m)
        },
        None => None,
    }
}

/// The last line is executed after the others.
pub proof fn lemma_run_push(lines: Seq<Line>, line: Line, m: Machine)
    ensures
        run(lines.push(line), m) == after(run(lines, m), line),
{
    assert(lines.push(line).drop_last() =~= lines);
}

/// Two lines are executed by two steps.
pub proof fn lemma_run_two(a: Line, b: Line, m: Machine)
    ensures
        run(seq![a, b], m) == after(after(Some(m), a), b),
{
    let none = Seq::<Line>::empty();
    lemma_run_push(none, a, m);
    lemma_run_push(none.push(a), b, m);
    assert(seq![a, b] =~= none.push(a).push(b));
}

/// Three lines are executed by three steps.
pub proof fn lemma_run_three(a: Line, b: Line, c: Line, m: Machine)
    ensures
        run(seq![a, b, c], m) == after(after(after(Some(m), a), b), c),
{
    lemma_run_two(a, b, m);
    lemma_run_push(seq![a, b], c, m);
    assert(seq![a, b, c] =~= seq![a, b].push(c));
}

/// Four lines are executed by four steps.
pub proof fn lemma_run_four(a: Line, b: Line, c: Line, d: Line, m: Machine)
    ensures
        run(seq![a, b, c, d], m) == after(after(after(after(Some(m), a), b), c), d),
{
    lemma_run_three(a, b, c, m);
    lemma_run_push(seq![a, b, c], d, m);
    assert(seq![a, b, c, d] =~= seq![a, b, c].push(d));
}

/// What is computed fits a register, and what fits a register is not
/// changed by the wrapping.
pub proof fn lemma_wrap(x: int)
    ensures
        fits(wrap(x)),
        fits(x) ==> wrap(x) == x,
{
    reveal(wrap);
    let modulus = 0x1_0000_0000_0000_0000int;
    let shifted = x - least();
    assert(0 <= shifted % modulus < modulus);
    if fits(x) {
        assert(0 <= shifted < modulus);
        assert(shifted % modulus == shifted) by (nonlinear_arith)
            requires
                0 <= shifted < modulus,
        ;
    }
}

/// Setting the lowest byte and widening it leaves the bit alone.
pub proof fn lemma_low_byte(rax: int, bit: bool)
    ensures
        with_low_byte(rax, bit) % 256 == if bit {
            1int
        } else {
            0int
        },
{
    let cleared = rax - rax % 256;
    let b = if bit {
        1int
    } else {
        0int
    };
    assert(cleared % 256 == 0 && (cleared + b) % 256 == b) by (nonlinear_arith)
        requires
            cleared == rax - rax % 256,
            0 <= b < 256,
    ;
}

/// The cells next to an aligned cell are aligned.
pub proof fn lemma_aligned(address: int)
    requires
        aligned(address),
    ensures
        aligned(address + 8),
        aligned(address - 8),
        aligned(address + 16),
        aligned(address - 16),
{
    reveal(aligned);
}

/// A cell at a multiple of eight bytes from an aligned cell is aligned.
pub proof fn lemma_aligned_apart(address: int, distance: int)
    requires
        aligned(address),
        distance % 8 == 0,
    ensures
        aligned(address + distance),
        aligned(address - distance),
{
    reveal(aligned);
}

} // verus!
