//! Crate stacks and the two crate-mover machines: one moves crates singly
//! (reversing each batch), the other moves a whole batch at once.
use vstd::prelude::*;

use vstd::pervasive::VecAdditionalExecFns;

use crate::text::{
    all_digits, chars_eq, chars_of, dec_val, parse_u8, spec_trim_trailing, split_fields,
    split_raw,
};

verus! {

// the first lines of the input picture the initial stack state
pub const LINES_FOR_STACK_STATE: usize = 8;

pub const NUMBER_OF_STACKS: u8 = 8;

#[derive(Clone, Copy, PartialEq, Eq, Structural, Debug)]
pub struct Instruction {
    pub amount: u8,
    pub from: u8,
    pub to: u8,
}

pub open spec fn is_u8_numeral(t: Seq<char>) -> bool {
    t.len() > 0 && all_digits(t) && dec_val(t) <= u8::MAX
}

/// The keyword scan of a move line: `move`, `from` and `to` each take the
/// following field as a `u8`; any other field, a missing or unreadable
/// number, makes the line invalid.
pub open spec fn spec_scan(
    fields: Seq<Seq<char>>,
    amount: Option<u8>,
    from: Option<u8>,
    to: Option<u8>,
) -> Option<(Option<u8>, Option<u8>, Option<u8>)>
    decreases fields.len(),
{
    if fields.len() == 0 {
        Some((amount, from, to))
    } else if fields[0] == "move"@ {
        if fields.len() == 1 || !is_u8_numeral(fields[1]) {
            None
        } else {
            spec_scan(fields.skip(2), Some(dec_val(fields[1]) as u8), from, to)
        }
    } else if fields[0] == "from"@ {
        if fields.len() == 1 || !is_u8_numeral(fields[1]) {
            None
        } else {
            spec_scan(fields.skip(2), amount, Some(dec_val(fields[1]) as u8), to)
        }
    } else if fields[0] == "to"@ {
        if fields.len() == 1 || !is_u8_numeral(fields[1]) {
            None
        } else {
            spec_scan(fields.skip(2), amount, from, Some(dec_val(fields[1]) as u8))
        }
    } else {
        None
    }
}

/// What parsing a move line yields: an instruction exactly when the scan runs
/// through and saw all three keywords.
pub open spec fn spec_parse_move(s: Seq<char>) -> Option<Instruction> {
    match spec_scan(split_raw(s, ' '), None, None, None) {
        None => None,
        Some((a, f, t)) => match (a, f, t) {
            (Some(amount), Some(from), Some(to)) => Some(Instruction { amount, from, to }),
            _ => None,
        },
    }
}

impl Instruction {
    /// Reads a line such as `move 12 from 5 to 4`.
    pub fn parse(input: &str) -> (r: Option<Instruction>)
        ensures
            r == spec_parse_move(input@),
    {
        proof {
            reveal_strlit("move");
            reveal_strlit("from");
            reveal_strlit("to");
        }
        let cs = chars_of(input);
        let fields = split_fields(&cs, ' ');
        let ghost all = split_raw(input@, ' ');
        let mut amount: Option<u8> = None;
        let mut from: Option<u8> = None;
        let mut to: Option<u8> = None;
        let n = fields.len();
        proof {
            assert(all.skip(0) =~= all);
        }
        let mut i: usize = 0;
        while i < n
            invariant
                all == split_raw(input@, ' '),
                n == fields@.len(),
                n == all.len(),
                i <= n,
                forall|j: int| 0 <= j < n ==> fields@[j]@ == all[j],
                spec_scan(all, None, None, None) == spec_scan(all.skip(i as int), amount, from, to),
            decreases n - i,
        {
            let ghost rest = all.skip(i as int);
            proof {
                assert(rest[0] == all[i as int]);
                if i + 2 <= n {
                    assert(rest.skip(2) =~= all.skip(i + 2));
                }
                if i + 1 < n {
                    assert(rest[1] == all[i + 1]);
                }
            }
            if chars_eq(&fields[i], "move") {
                if i + 1 >= n {
                    return None;
                }
                match parse_u8(&fields[i + 1]) {
                    Some(v) => {
                        amount = Some(v);
                    },
                    None => {
                        return None;
                    },
                }
                i = i + 2;
            } else if chars_eq(&fields[i], "from") {
                if i + 1 >= n {
                    return None;
                }
                match parse_u8(&fields[i + 1]) {
                    Some(v) => {
                        from = Some(v);
                    },
                    None => {
                        return None;
                    },
                }
                i = i + 2;
            } else if chars_eq(&fields[i], "to") {
                if i + 1 >= n {
                    return None;
                }
                match parse_u8(&fields[i + 1]) {
                    Some(v) => {
                        to = Some(v);
                    },
                    None => {
                        return None;
                    },
                }
                i = i + 2;
            } else {
                return None;
            }
        }
        proof {
            assert(all.skip(n as int) =~= Seq::<Seq<char>>::empty());
        }
        match (amount, from, to) {
            (Some(amount), Some(from), Some(to)) => Some(Instruction { amount, from, to }),
            _ => None,
        }
    }
}

/// The content of stack `j` read off the stack picture: the marked characters
/// of column `1 + 4 j`, bottom line first, blanks skipped; `m` lines of the
/// picture already taken, from the bottom up.
pub open spec fn col_acc(lines: Seq<Seq<char>>, j: int, m: nat) -> Seq<char>
    decreases m,
{
    if m == 0 {
        Seq::empty()
    } else {
        let c = lines[8 - m][1 + 4 * j];
        col_acc(lines, j, (m - 1) as nat) + (if c == ' ' {
            Seq::<char>::empty()
        } else {
            seq![c]
        })
    }
}

/// Whether the first picture lines are present and long enough to read every
/// stack column.
pub open spec fn picture_ok(lines: Seq<Seq<char>>) -> bool {
    lines.len() >= 8 && forall|k: int| 0 <= k < 8 ==> (#[trigger] lines[k]).len() >= 34
}

/// Fills nine stacks from the picture in the first lines of the content.
/// Leaves the stacks alone and reports failure when the picture is too short
/// or a line too narrow.
pub fn fill_stacks_from_content(stacks: &mut Vec<Vec<char>>, content: &str) -> (ok: bool)
    requires
        old(stacks)@.len() >= 9,
    ensures
        ok == picture_ok(split_raw(spec_trim_trailing(content@, '\n'), '\n')),
        final(stacks)@.len() == old(stacks)@.len(),
        !ok ==> final(stacks)@ == old(stacks)@,
        ok ==> forall|j: int|
            0 <= j < 9 ==> (#[trigger] final(stacks)@[j])@ == old(stacks)@[j]@ + col_acc(
                split_raw(spec_trim_trailing(content@, '\n'), '\n'),
                j,
                8,
            ),
        ok ==> forall|j: int| 9 <= j < old(stacks)@.len() ==> final(stacks)@[j] == old(stacks)@[j],
{
    let mut cs = chars_of(content);
    let ghost orig = content@;
    while cs.len() > 0 && cs[cs.len() - 1] == '\n'
        invariant
            orig == content@,
            spec_trim_trailing(orig, '\n') == spec_trim_trailing(cs@, '\n'),
        decreases cs@.len(),
    {
        proof {
            assert(cs@.last() == '\n');
        }
        cs.pop();
    }
    proof {
        assert(spec_trim_trailing(cs@, '\n') == cs@);
    }
    let lines = split_fields(&cs, '\n');
    let ghost ls = split_raw(spec_trim_trailing(orig, '\n'), '\n');
    if lines.len() < 8 {
        return false;
    }
    let mut k: usize = 0;
    while k < 8
        invariant
            ls == split_raw(spec_trim_trailing(content@, '\n'), '\n'),
            lines@.len() == ls.len(),
            ls.len() >= 8,
            k <= 8,
            forall|j: int| 0 <= j < lines@.len() ==> lines@[j]@ == ls[j],
            forall|j: int| 0 <= j < k ==> (#[trigger] ls[j]).len() >= 34,
        decreases 8 - k,
    {
        if lines[k].len() < 34 {
            proof {
                assert(ls[k as int].len() < 34);
                assert(!picture_ok(ls));
            }
            return false;
        }
        k = k + 1;
    }
    let mut j: usize = 0;
    while j < 9
        invariant
            ls == split_raw(spec_trim_trailing(content@, '\n'), '\n'),
            old(stacks)@.len() >= 9,
            stacks@.len() == old(stacks)@.len(),
            lines@.len() == ls.len(),
            ls.len() >= 8,
            j <= 9,
            picture_ok(ls),
            forall|l: int| 0 <= l < lines@.len() ==> lines@[l]@ == ls[l],
            forall|l: int|
                0 <= l < j ==> (#[trigger] stacks@[l])@ == old(stacks)@[l]@ + col_acc(ls, l, 8),
            forall|l: int| j <= l < stacks@.len() ==> stacks@[l] == old(stacks)@[l],
        decreases 9 - j,
    {
        let mut column: Vec<char> = Vec::new();
        stacks.set_and_swap(j, &mut column);
        let ghost base = old(stacks)@[j as int]@;
        let mut k: usize = 0;
        while k < 8
            invariant
                lines@.len() == ls.len(),
                ls.len() >= 8,
                j < 9,
                k <= 8,
                picture_ok(ls),
                forall|l: int| 0 <= l < lines@.len() ==> lines@[l]@ == ls[l],
                column@ == base + col_acc(ls, j as int, k as nat),
            decreases 8 - k,
        {
            proof {
                assert(ls[7 - k as int].len() >= 34);
                assert(1 + 4 * (j as int) < 34) by (nonlinear_arith)
                    requires
                        j < 9,
                ;
            }
            let item = lines[7 - k][1 + 4 * j];
            if item != ' ' {
                column.push(item);
                proof {
                    assert(column@ =~= base + col_acc(ls, j as int, (k + 1) as nat));
                }
            } else {
                proof {
                    assert(base + col_acc(ls, j as int, k as nat) + Seq::<char>::empty() =~= base
                        + col_acc(ls, j as int, k as nat));
                }
            }
            k = k + 1;
        }
        stacks.set_and_swap(j, &mut column);
        j = j + 1;
    }
    true
}

/// Nine stacks read from the picture in the first lines of the content, or
/// nothing when the picture is too short or a line too narrow.
pub fn get_fresh_stacks(content: &str) -> (r: Option<Vec<Vec<char>>>)
    ensures
        r is Some <==> picture_ok(split_raw(spec_trim_trailing(content@, '\n'), '\n')),
        r is Some ==> r->Some_0@.len() == 9,
        r is Some ==> forall|j: int|
            0 <= j < 9 ==> (#[trigger] r->Some_0@[j])@ == col_acc(
                split_raw(spec_trim_trailing(content@, '\n'), '\n'),
                j,
                8,
            ),
{
    let mut stacks: Vec<Vec<char>> = Vec::new();
    let mut i: usize = 0;
    while i < 9
        invariant
            i <= 9,
            stacks@.len() == i,
            forall|j: int| 0 <= j < i ==> (#[trigger] stacks@[j])@ == Seq::<char>::empty(),
        decreases 9 - i,
    {
        let stack: Vec<char> = Vec::new();
        stacks.push(stack);
        i = i + 1;
    }
    if fill_stacks_from_content(&mut stacks, content) {
        proof {
            assert forall|j: int| 0 <= j < 9 implies (#[trigger] stacks@[j])@ == col_acc(
                split_raw(spec_trim_trailing(content@, '\n'), '\n'),
                j,
                8,
            ) by {
                assert(Seq::<char>::empty() + col_acc(
                    split_raw(spec_trim_trailing(content@, '\n'), '\n'),
                    j,
                    8,
                ) =~= col_acc(split_raw(spec_trim_trailing(content@, '\n'), '\n'), j, 8));
            }
        }
        Some(stacks)
    } else {
        None
    }
}

/// What the one-at-a-time mover leaves: the moved batch lands in reverse
/// order; moving a stack onto itself changes nothing.
pub open spec fn spec_move_singly(
    stacks: Seq<Seq<char>>,
    amount: int,
    from: int,
    to: int,
) -> Seq<Seq<char>> {
    if from == to {
        stacks
    } else {
        let src = stacks[from];
        let dst = stacks[to];
        stacks.update(from, src.take(src.len() - amount)).update(
            to,
            dst + src.skip(src.len() - amount).reverse(),
        )
    }
}

/// What the batch mover leaves: the moved batch keeps its order; moving a
/// stack onto itself changes nothing.
pub open spec fn spec_move_batch(
    stacks: Seq<Seq<char>>,
    amount: int,
    from: int,
    to: int,
) -> Seq<Seq<char>> {
    if from == to {
        stacks
    } else {
        let src = stacks[from];
        let dst = stacks[to];
        stacks.update(from, src.take(src.len() - amount)).update(
            to,
            dst + src.skip(src.len() - amount),
        )
    }
}

/// Moves `amount` crates one at a time from stack `from` to stack `to`; each
/// crate is popped and pushed, so the batch arrives reversed.
pub fn execute_instruction_on_cratemover9000(
    stacks: &mut Vec<Vec<char>>,
    instruction: Instruction,
)
    requires
        (instruction.from as int) < old(stacks)@.len(),
        (instruction.to as int) < old(stacks)@.len(),
        old(stacks)@[instruction.from as int]@.len() >= instruction.amount as int,
    ensures
        final(stacks)@.len() == old(stacks)@.len(),
        forall|j: int|
            0 <= j < final(stacks)@.len() ==> (#[trigger] final(stacks)@[j])@ == spec_move_singly(
                old(stacks)@.map_values(|v: Vec<char>| v@),
                instruction.amount as int,
                instruction.from as int,
                instruction.to as int,
            )[j],
{
    let ghost models = old(stacks)@.map_values(|v: Vec<char>| v@);
    let from = instruction.from as usize;
    let to = instruction.to as usize;
    let amount = instruction.amount as usize;
    if from == to {
        return ;
    }
    let mut src: Vec<char> = Vec::new();
    stacks.set_and_swap(from, &mut src);
    let mut moved: Vec<char> = Vec::new();
    let ghost src0 = models[from as int];
    let mut i: usize = 0;
    while i < amount
        invariant
            i <= amount,
            amount <= src0.len(),
            src@ == src0.take(src0.len() - i),
            moved@ == src0.skip(src0.len() - i).reverse(),
        decreases amount - i,
    {
        let item = match src.pop() {
            Some(c) => c,
            None => {
                proof {
                    assert(false);
                }
                ' '
            },
        };
        moved.push(item);
        proof {
            assert(src@ =~= src0.take(src0.len() - (i + 1)));
            assert(moved@ =~= src0.skip(src0.len() - (i + 1)).reverse());
        }
        i = i + 1;
    }
    stacks.set_and_swap(from, &mut src);
    let mut dst: Vec<char> = Vec::new();
    stacks.set_and_swap(to, &mut dst);
    dst.append(&mut moved);
    stacks.set_and_swap(to, &mut dst);
    proof {
        assert forall|j: int| 0 <= j < stacks@.len() implies (#[trigger] stacks@[j])@
            == spec_move_singly(models, instruction.amount as int, from as int, to as int)[j] by {
        }
    }
}

/// Moves `amount` crates as one batch from stack `from` to stack `to`,
/// keeping their order.
pub fn execute_instruction_on_cratemover9001(
    stacks: &mut Vec<Vec<char>>,
    instruction: Instruction,
)
    requires
        (instruction.from as int) < old(stacks)@.len(),
        (instruction.to as int) < old(stacks)@.len(),
        old(stacks)@[instruction.from as int]@.len() >= instruction.amount as int,
    ensures
        final(stacks)@.len() == old(stacks)@.len(),
        forall|j: int|
            0 <= j < final(stacks)@.len() ==> (#[trigger] final(stacks)@[j])@ == spec_move_batch(
                old(stacks)@.map_values(|v: Vec<char>| v@),
                instruction.amount as int,
                instruction.from as int,
                instruction.to as int,
            )[j],
{
    let ghost models = old(stacks)@.map_values(|v: Vec<char>| v@);
    let from = instruction.from as usize;
    let to = instruction.to as usize;
    let amount = instruction.amount as usize;
    if from == to {
        return ;
    }
    let mut src: Vec<char> = Vec::new();
    stacks.set_and_swap(from, &mut src);
    let mut items: Vec<char> = src.split_off(src.len() - amount);
    stacks.set_and_swap(from, &mut src);
    let mut dst: Vec<char> = Vec::new();
    stacks.set_and_swap(to, &mut dst);
    dst.append(&mut items);
    stacks.set_and_swap(to, &mut dst);
    proof {
        assert forall|j: int| 0 <= j < stacks@.len() implies (#[trigger] stacks@[j])@
            == spec_move_batch(models, instruction.amount as int, from as int, to as int)[j] by {
        }
    }
}

} // verus!
