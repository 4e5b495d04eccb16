//! A two-instruction radio CPU: `noop` burns one cycle, `addx` burns two and
//! then adds its operand to the X register. The run is observed cycle by
//! cycle: chosen cycles contribute `cycle * X` to a signal sum, and every
//! cycle draws one pixel of a sprite raster.
use vstd::prelude::*;

use std::collections::VecDeque;

use crate::text::{
    chars_eq, chars_of, is_signed_numeral, parse_i16, signed_dec_val, spec_trim_trailing,
    split_fields, split_raw, split_tokens,
};

verus! {

#[allow(non_camel_case_types)]
#[derive(PartialEq, Eq, Structural, Clone, Copy, Debug)]
pub enum Mmemomic {
    Noop,
    Addx,
}

#[derive(PartialEq, Eq, Structural, Clone, Copy, Debug)]
pub struct Instruction {
    pub m: Mmemomic,
    pub op1: i16,
}

/// How many cycles an instruction takes.
pub open spec fn needed(m: Mmemomic) -> int {
    match m {
        Mmemomic::Noop => 1,
        Mmemomic::Addx => 2,
    }
}

/// What parsing one program line yields: `noop`, or `addx` followed by a
/// signed decimal operand; anything else is unreadable.
pub open spec fn spec_parse_op(s: Seq<char>) -> Option<Instruction> {
    let toks = split_tokens(s, ' ');
    if toks.len() == 0 {
        None
    } else if toks[0] == "addx"@ {
        if toks.len() >= 2 && is_signed_numeral(toks[1]) && i16::MIN <= signed_dec_val(toks[1])
            <= i16::MAX {
            Some(Instruction { m: Mmemomic::Addx, op1: signed_dec_val(toks[1]) as i16 })
        } else {
            None
        }
    } else if toks[0] == "noop"@ {
        Some(Instruction { m: Mmemomic::Noop, op1: 0 })
    } else {
        None
    }
}

impl Instruction {
    /// Reads one program line.
    pub fn parse(input: &str) -> (r: Option<Instruction>)
        ensures
            r == spec_parse_op(input@),
    {
        let cs = chars_of(input);
        Self::parse_from_chars(&cs)
    }
}

pub struct RadioCPU {
    pub program: VecDeque<Instruction>,
    pub counter: u32,
    pub op: Option<Instruction>,
    pub op_count: u16,
    pub x: i16,
}

impl RadioCPU {
    /// A fresh CPU over a program: X starts at 1, nothing loaded.
    pub fn new(program: VecDeque<Instruction>) -> (r: RadioCPU)
        ensures
            r.program@ == program@,
            r.counter == 0,
            r.x == 1,
            r.op_count == 0,
            r.op is None,
    {
        RadioCPU { counter: 0, x: 1, program, op_count: 0, op: None }
    }

    /// One clock tick: the cycle counter and the current op's cycle count
    /// both advance.
    pub fn tick(&mut self)
        requires
            old(self).counter < u32::MAX,
            old(self).op_count < u16::MAX,
        ensures
            final(self).counter == old(self).counter + 1,
            final(self).op_count == old(self).op_count + 1,
            final(self).program == old(self).program,
            final(self).op == old(self).op,
            final(self).x == old(self).x,
    {
        self.counter = self.counter + 1;
        self.op_count = self.op_count + 1;
    }

    /// Loads the next instruction, if any, from the front of the program.
    pub fn load(&mut self)
        ensures
            old(self).program@.len() == 0 ==> final(self).op is None && final(self).program@
                == old(self).program@,
            old(self).program@.len() > 0 ==> final(self).op == Some(old(self).program@[0])
                && final(self).program@ == old(self).program@.drop_first(),
            final(self).counter == old(self).counter,
            final(self).op_count == old(self).op_count,
            final(self).x == old(self).x,
    {
        self.op = self.program.pop_front();
        proof {
            if old(self).program@.len() > 0 {
                assert(self.program@ =~= old(self).program@.drop_first());
            }
        }
    }

    /// Whether the current op has burned all its cycles; an idle CPU counts
    /// as finished.
    pub fn op_status(&self) -> (r: bool)
        ensures
            r == (match self.op {
                None => true,
                Some(op) => self.op_count == needed(op.m),
            }),
    {
        let op = match &self.op {
            Some(op) => op,
            _ => {
                return true;
            },
        };
        let finished = match op.m {
            Mmemomic::Noop => self.op_count == 1,
            Mmemomic::Addx => self.op_count == 2,
        };
        finished
    }

    /// Retires the current op: `addx` lands its operand in X, `noop` does
    /// nothing; an idle CPU does nothing.
    pub fn finish_op(&mut self)
        requires
            (match old(self).op {
                Some(op) => op.m is Addx ==> i16::MIN <= old(self).x + op.op1 <= i16::MAX,
                None => true,
            }),
        ensures
            final(self).x == (match old(self).op {
                Some(op) => if op.m is Addx {
                    (old(self).x + op.op1) as i16
                } else {
                    old(self).x
                },
                None => old(self).x,
            }),
            final(self).program == old(self).program,
            final(self).op == old(self).op,
            final(self).counter == old(self).counter,
            final(self).op_count == old(self).op_count,
    {
        let op = match &self.op {
            Some(op) => op,
            _ => {
                return ;
            },
        };
        match op.m {
            Mmemomic::Noop => {},
            Mmemomic::Addx => {
                self.x = self.x + op.op1;
            },
        }
    }

    /// Whether the program has run dry.
    pub fn halt(&self) -> (r: bool)
        ensures
            r == (self.program@.len() == 0),
    {
        self.program.len() == 0
    }

    /// Starts counting cycles for a freshly loaded op.
    pub fn reset_op_count(&mut self)
        ensures
            final(self).op_count == 0,
            final(self).program == old(self).program,
            final(self).op == old(self).op,
            final(self).counter == old(self).counter,
            final(self).x == old(self).x,
    {
        self.op_count = 0;
    }
}

/// Reads a whole program, one instruction per line; nothing if any line is
/// unreadable.
pub fn load_program(content: String) -> (r: Option<VecDeque<Instruction>>)
    ensures
        r is Some <==> (forall|j: int|
            0 <= j < split_raw(spec_trim_trailing(content@, '\n'), '\n').len() ==> spec_parse_op(
                #[trigger] split_raw(spec_trim_trailing(content@, '\n'), '\n')[j],
            ) is Some),
        r is Some ==> ({
            let lines = split_raw(spec_trim_trailing(content@, '\n'), '\n');
            &&& r->Some_0@.len() == lines.len()
            &&& forall|j: int|
                0 <= j < lines.len() ==> #[trigger] r->Some_0@[j] == spec_parse_op(
                    lines[j],
                )->Some_0
        }),
{
    let mut cs = chars_of(content.as_str());
    let ghost orig = content@;
    while cs.len() > 0 && cs[cs.len() - 1] == '\n'
        invariant
            orig == content@,
            spec_trim_trailing(orig, '\n') == spec_trim_trailing(cs@, '\n'),
        decreases cs@.len(),
    {
        proof {
            assert(cs@.last() == '\n');
        }
        cs.pop();
    }
    proof {
        assert(spec_trim_trailing(cs@, '\n') == cs@);
    }
    let lines = split_fields(&cs, '\n');
    let ghost ls = split_raw(spec_trim_trailing(orig, '\n'), '\n');
    let mut program: VecDeque<Instruction> = VecDeque::new();
    let n = lines.len();
    for k in 0..n
        invariant
            ls == split_raw(spec_trim_trailing(content@, '\n'), '\n'),
            n == lines@.len(),
            n == ls.len(),
            forall|j: int| 0 <= j < n ==> lines@[j]@ == ls[j],
            program@.len() == k,
            forall|j: int| 0 <= j < k ==> spec_parse_op(#[trigger] ls[j]) is Some,
            forall|j: int| 0 <= j < k ==> #[trigger] program@[j] == spec_parse_op(ls[j])->Some_0,
    {
        let mut line: Vec<char> = Vec::new();
        let m = lines[k].len();
        for t in 0..m
            invariant
                n == lines@.len(),
                k < n,
                m == lines@[k as int]@.len(),
                line@ =~= lines@[k as int]@.take(t as int),
        {
            line.push(lines[k][t]);
            assert(line@ =~= lines@[k as int]@.take(t + 1));
        }
        assert(line@ =~= lines@[k as int]@);
        match Instruction::parse_from_chars(&line) {
            Some(i) => {
                program.push_back(i);
            },
            None => {
                proof {
                    assert(spec_parse_op(ls[k as int]) is None);
                    assert(!(forall|j: int| 0 <= j < n ==> spec_parse_op(#[trigger] ls[j]) is Some))
                        by {
                        assert(!(spec_parse_op(ls[k as int]) is Some));
                    }
                }
                return None;
            },
        }
    }
    Some(program)
}

impl Instruction {
    /// As `parse`, over an already decoded character vector.
    pub fn parse_from_chars(cs: &Vec<char>) -> (r: Option<Instruction>)
        ensures
            r == spec_parse_op(cs@),
    {
        proof {
            reveal_strlit("addx");
            reveal_strlit("noop");
        }
        let toks = crate::text::split_nonempty(cs, ' ');
        if toks.len() == 0 {
            return None;
        }
        if chars_eq(&toks[0], "addx") {
            if toks.len() < 2 {
                return None;
            }
            match parse_i16(&toks[1]) {
                Some(v) => Some(Instruction { m: Mmemomic::Addx, op1: v }),
                None => None,
            }
        } else if chars_eq(&toks[0], "noop") {
            Some(Instruction { m: Mmemomic::Noop, op1: 0 })
        } else {
            None
        }
    }
}

/// Whether the sprite covers the pixel: the sprite is three pixels wide,
/// anchored one to the left of the register value.
pub open spec fn spec_sprite_in_range(pixel: int, register_val: int) -> bool {
    pixel == register_val || pixel == register_val + 1 || pixel == register_val + 2
}

pub fn sprite_in_range(pixel: i16, register_val: i16) -> (r: bool)
    ensures
        r == spec_sprite_in_range(pixel as int, register_val as int),
{
    let p: i32 = pixel as i32;
    let v: i32 = register_val as i32;
    p == v || p == v + 1 || p == v + 2
}

/// The value X holds during each cycle of the program, in cycle order.
pub open spec fn x_trace(program: Seq<Instruction>, x: int) -> Seq<int>
    decreases program.len(),
{
    if program.len() == 0 {
        Seq::empty()
    } else {
        match program[0].m {
            Mmemomic::Noop => seq![x] + x_trace(program.drop_first(), x),
            Mmemomic::Addx => seq![x, x] + x_trace(program.drop_first(), x + program[0].op1),
        }
    }
}

/// Whether X stays within machine range throughout the program.
pub open spec fn x_bounded(program: Seq<Instruction>, x: int) -> bool
    decreases program.len(),
{
    if program.len() == 0 {
        true
    } else {
        match program[0].m {
            Mmemomic::Noop => x_bounded(program.drop_first(), x),
            Mmemomic::Addx => i16::MIN <= x + program[0].op1 <= i16::MAX && x_bounded(
                program.drop_first(),
                x + program[0].op1,
            ),
        }
    }
}

/// The X trace the run observes: an empty program still burns one idle cycle
/// with X at its initial 1.
pub open spec fn eff_trace(program: Seq<Instruction>) -> Seq<int> {
    if program.len() == 0 {
        seq![1int]
    } else {
        x_trace(program, 1)
    }
}

/// The signal sum over the first `c` cycles: each chosen cycle contributes
/// `cycle * X`.
pub open spec fn sum_prefix(trace: Seq<int>, breaks: Seq<u32>, c: int) -> int
    decreases c,
{
    if c <= 0 {
        0
    } else {
        sum_prefix(trace, breaks, c - 1) + (if breaks.contains(c as u32) {
            c * trace[c - 1]
        } else {
            0
        })
    }
}

/// The raster over the first `c` cycles: one `#` or `.` per cycle, a line
/// break after each chosen cycle.
pub open spec fn pixels_prefix(trace: Seq<int>, breaks: Seq<u32>, c: int) -> Seq<char>
    decreases c,
{
    if c <= 0 {
        Seq::empty()
    } else {
        pixels_prefix(trace, breaks, c - 1) + seq![
            if spec_sprite_in_range(c % 40, trace[c - 1]) {
                '#'
            } else {
                '.'
            },
        ] + (if breaks.contains(c as u32) {
            seq!['\n']
        } else {
            Seq::<char>::empty()
        })
    }
}

/// Whether every partial signal sum and every contribution stays within
/// `i32`.
pub open spec fn sums_ok(trace: Seq<int>, breaks: Seq<u32>) -> bool {
    forall|c: int|
        1 <= c <= trace.len() ==> i32::MIN <= #[trigger] sum_prefix(trace, breaks, c) <= i32::MAX
            && (breaks.contains(c as u32) ==> i32::MIN <= c * trace[c - 1] <= i32::MAX)
}

/// Whether a cycle number is among the chosen ones.
fn contains_u32(v: &Vec<u32>, val: u32) -> (r: bool)
    ensures
        r == v@.contains(val),
{
    let n = v.len();
    for i in 0..n
        invariant
            n == v@.len(),
            forall|k: int| 0 <= k < i ==> v@[k] != val,
    {
        if v[i] == val {
            proof {
                assert(v@[i as int] == val);
            }
            return true;
        }
    }
    proof {
        assert(!v@.contains(val));
    }
    false
}

/// One observed cycle: the counter advances, the chosen cycles add
/// `cycle * X` to the sum, and one pixel is drawn, with a line break after a
/// chosen cycle.
fn observe_cycle(
    sum: &mut i32,
    pixels: &mut String,
    counter: &mut u32,
    x: i16,
    linebreaks: &Vec<u32>,
    Ghost(tr): Ghost<Seq<int>>,
)
    requires
        *old(counter) < tr.len(),
        tr.len() <= i32::MAX,
        tr[*old(counter) as int] == x as int,
        *old(sum) == sum_prefix(tr, linebreaks@, *old(counter) as int),
        old(pixels)@ == pixels_prefix(tr, linebreaks@, *old(counter) as int),
        sums_ok(tr, linebreaks@),
    ensures
        *final(counter) == *old(counter) + 1,
        *final(sum) == sum_prefix(tr, linebreaks@, *old(counter) + 1),
        final(pixels)@ == pixels_prefix(tr, linebreaks@, *old(counter) + 1),
{
    proof {
        reveal_strlit("#");
        reveal_strlit(".");
        reveal_strlit("\n");
    }
    *counter = *counter + 1;
    let c = *counter;
    let ghost ci = c as int;
    proof {
        assert(1 <= ci <= tr.len());
        assert(sum_prefix(tr, linebreaks@, ci) == sum_prefix(tr, linebreaks@, ci - 1) + (
        if linebreaks@.contains(ci as u32) {
            ci * tr[ci - 1]
        } else {
            0
        }));
    }
    if sprite_in_range((c % 40) as i16, x) {
        pixels.append("#");
    } else {
        pixels.append("." );
    }
    if contains_u32(linebreaks, c) {
        proof {
            assert(i32::MIN <= ci * tr[ci - 1] <= i32::MAX);
            assert(i32::MIN <= sum_prefix(tr, linebreaks@, ci) <= i32::MAX);
        }
        *sum = *sum + (c as i32) * (x as i32);
        pixels.append("\n");
        proof {
            assert(pixels@ =~= pixels_prefix(tr, linebreaks@, ci));
        }
    } else {
        proof {
            assert(pixels_prefix(tr, linebreaks@, ci - 1) + seq![
                if spec_sprite_in_range(ci % 40, tr[ci - 1]) {
                    '#'
                } else {
                    '.'
                },
            ] + Seq::<char>::empty() =~= pixels_prefix(tr, linebreaks@, ci - 1) + seq![
                if spec_sprite_in_range(ci % 40, tr[ci - 1]) {
                    '#'
                } else {
                    '.'
                },
            ]);
            assert(pixels@ =~= pixels_prefix(tr, linebreaks@, ci));
        }
    }
}

/// Runs the program and returns the signal sum over the chosen cycles along
/// with the full pixel raster.
pub fn run_with_output(program: &VecDeque<Instruction>, linebreaks: &Vec<u32>) -> (r: (
    i32,
    String,
))
    requires
        x_bounded(program@, 1),
        eff_trace(program@).len() <= i32::MAX,
        sums_ok(eff_trace(program@), linebreaks@),
    ensures
        r.0 == sum_prefix(eff_trace(program@), linebreaks@, eff_trace(program@).len() as int),
        r.1@ == pixels_prefix(eff_trace(program@), linebreaks@, eff_trace(program@).len() as int),
{
    let ghost tr = eff_trace(program@);
    let mut sum: i32 = 0;
    let mut pixels = String::new();
    let mut counter: u32 = 0;
    let mut x: i16 = 1;
    proof {
        assert(program@.skip(0) =~= program@);
    }
    let n = program.len();
    if n == 0 {
        proof {
            assert(tr =~= seq![1int]);
            assert(tr[0] == 1int);
        }
        observe_cycle(&mut sum, &mut pixels, &mut counter, x, linebreaks, Ghost(tr));
        return (sum, pixels);
    }
    for j in 0..n
        invariant
            n == program@.len(),
            n > 0,
            tr == eff_trace(program@),
            tr == x_trace(program@, 1),
            tr.len() <= i32::MAX,
            sums_ok(tr, linebreaks@),
            counter <= tr.len(),
            x_bounded(program@.skip(j as int), x as int),
            x_trace(program@.skip(j as int), x as int) =~= tr.skip(counter as int),
            sum == sum_prefix(tr, linebreaks@, counter as int),
            pixels@ == pixels_prefix(tr, linebreaks@, counter as int),
    {
        let instr = program[j];
        let ghost rest = program@.skip(j as int);
        proof {
            assert(rest[0] == instr);
            assert(rest.drop_first() =~= program@.skip(j + 1));
        }
        let ghost c0 = counter as int;
        match instr.m {
            Mmemomic::Noop => {
                let ghost t1 = x_trace(program@.skip(j + 1), x as int);
                proof {
                    assert(x_trace(rest, x as int) == seq![x as int] + t1);
                    assert(tr.skip(c0) == x_trace(rest, x as int));
                    assert((seq![x as int] + t1)[0] == x as int);
                    assert(tr.skip(c0)[0] == tr[c0]);
                    assert(tr[c0] == x as int);
                    assert(c0 < tr.len());
                }
                observe_cycle(&mut sum, &mut pixels, &mut counter, x, linebreaks, Ghost(tr));
                proof {
                    assert(counter as int == c0 + 1);
                    assert(t1 =~= tr.skip(c0 + 1)) by {
                        assert(tr.skip(c0).len() == 1 + t1.len());
                        assert forall|t: int| 0 <= t < t1.len() implies t1[t] == tr.skip(c0 + 1)[t]
                            by {
                            assert((seq![x as int] + t1)[t + 1] == t1[t]);
                            assert(tr.skip(c0)[t + 1] == tr[c0 + 1 + t]);
                            assert(tr.skip(c0 + 1)[t] == tr[c0 + 1 + t]);
                        }
                    }
                    assert(x_trace(program@.skip(j + 1), x as int) =~= tr.skip(counter as int));
                }
            },
            Mmemomic::Addx => {
                let ghost x2 = x as int + instr.op1;
                let ghost t1 = x_trace(program@.skip(j + 1), x2);
                proof {
                    assert(x_trace(rest, x as int) == seq![x as int, x as int] + t1);
                    assert(tr.skip(c0) == x_trace(rest, x as int));
                    assert((seq![x as int, x as int] + t1)[0] == x as int);
                    assert(tr.skip(c0)[0] == tr[c0]);
                    assert(tr[c0] == x as int);
                    assert(c0 + 1 < tr.len());
                }
                observe_cycle(&mut sum, &mut pixels, &mut counter, x, linebreaks, Ghost(tr));
                proof {
                    assert(counter as int == c0 + 1);
                    assert((seq![x as int, x as int] + t1)[1] == x as int);
                    assert(tr.skip(c0)[1] == tr[c0 + 1]);
                    assert(tr[c0 + 1] == x as int);
                }
                observe_cycle(&mut sum, &mut pixels, &mut counter, x, linebreaks, Ghost(tr));
                x = x + instr.op1;
                proof {
                    assert(counter as int == c0 + 2);
                    assert(x as int == x2);
                    assert(t1 =~= tr.skip(c0 + 2)) by {
                        assert(tr.skip(c0).len() == 2 + t1.len());
                        assert forall|t: int| 0 <= t < t1.len() implies t1[t] == tr.skip(c0 + 2)[t]
                            by {
                            assert((seq![x as int, x as int] + t1)[t + 2] == t1[t]);
                            assert(tr.skip(c0)[t + 2] == tr[c0 + 2 + t]);
                            assert(tr.skip(c0 + 2)[t] == tr[c0 + 2 + t]);
                        }
                    }
                    assert(x_trace(program@.skip(j + 1), x as int) =~= tr.skip(counter as int));
                }
            },
        }
    }
    proof {
        assert(program@.skip(n as int) =~= Seq::<Instruction>::empty());
        assert(x_trace(program@.skip(n as int), x as int) =~= Seq::<int>::empty());
        assert(tr.skip(counter as int).len() == 0);
        assert(counter == tr.len());
    }
    (sum, pixels)
}

/// The signal sum of the run: each chosen cycle contributes `cycle * X`.
pub fn run_with_linebreaks_at(program: VecDeque<Instruction>, linebreaks: &Vec<u32>) -> (r: i32)
    requires
        x_bounded(program@, 1),
        eff_trace(program@).len() <= i32::MAX,
        sums_ok(eff_trace(program@), linebreaks@),
    ensures
        r == sum_prefix(eff_trace(program@), linebreaks@, eff_trace(program@).len() as int),
{
    let out = run_with_output(&program, linebreaks);
    out.0
}

} // verus!
