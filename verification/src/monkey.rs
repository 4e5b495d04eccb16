//! Monkey-business arithmetic: the worry operation a monkey applies and the
//! parsing of its notes.
use vstd::prelude::*;

use crate::text::{
    all_digits, chars_of, dec_val, is_dec_digit, parse_u32, parse_u8, split_fields, split_raw,
};

verus! {

/// Whether a character counts as blank space here: blank, tab, carriage
/// return or newline.
pub open spec fn is_space(c: char) -> bool {
    c == ' ' || c == '\t' || c == '\r' || c == '\n'
}

/// `s` with leading blank space removed.
pub open spec fn trim_start_ws(s: Seq<char>) -> Seq<char>
    decreases s.len(),
{
    if s.len() > 0 && is_space(s[0]) {
        trim_start_ws(s.drop_first())
    } else {
        s
    }
}

/// `s` with trailing blank space removed.
pub open spec fn trim_end_ws(s: Seq<char>) -> Seq<char>
    decreases s.len(),
{
    if s.len() > 0 && is_space(s.last()) {
        trim_end_ws(s.drop_last())
    } else {
        s
    }
}

/// `s` with blank space removed at both ends.
pub open spec fn trim_ws(s: Seq<char>) -> Seq<char> {
    trim_end_ws(trim_start_ws(s))
}

/// Removes blank space at both ends of a character vector.
pub fn trim_chars(cs: &Vec<char>) -> (r: Vec<char>)
    ensures
        r@ == trim_ws(cs@),
{
    let mut start: usize = 0;
    let n = cs.len();
    proof {
        assert(cs@.skip(0) =~= cs@);
    }
    while start < n && (cs[start] == ' ' || cs[start] == '\t' || cs[start] == '\r' || cs[start]
        == '\n')
        invariant
            n == cs@.len(),
            start <= n,
            trim_start_ws(cs@) == trim_start_ws(cs@.skip(start as int)),
        decreases n - start,
    {
        proof {
            assert(cs@.skip(start as int)[0] == cs@[start as int]);
            assert(cs@.skip(start as int).drop_first() =~= cs@.skip(start + 1));
        }
        start = start + 1;
    }
    proof {
        if start < n {
            assert(cs@.skip(start as int)[0] == cs@[start as int]);
        }
        assert(trim_start_ws(cs@.skip(start as int)) == cs@.skip(start as int));
    }
    let mut end: usize = n;
    proof {
        assert(cs@.skip(start as int).take(n - start) =~= cs@.skip(start as int));
    }
    while end > start && (cs[end - 1] == ' ' || cs[end - 1] == '\t' || cs[end - 1] == '\r' || cs[end
        - 1] == '\n')
        invariant
            n == cs@.len(),
            start <= end <= n,
            trim_start_ws(cs@) == cs@.skip(start as int),
            trim_end_ws(cs@.skip(start as int)) == trim_end_ws(
                cs@.skip(start as int).take(end - start),
            ),
        decreases end,
    {
        proof {
            let cur = cs@.skip(start as int).take(end - start);
            assert(cur.last() == cs@[end - 1]);
            assert(cur.drop_last() =~= cs@.skip(start as int).take(end - 1 - start));
        }
        end = end - 1;
    }
    proof {
        let cur = cs@.skip(start as int).take(end - start);
        if end > start {
            assert(cur.last() == cs@[end - 1]);
        }
        assert(trim_end_ws(cur) == cur);
    }
    let mut r: Vec<char> = Vec::new();
    let mut i: usize = start;
    while i < end
        invariant
            n == cs@.len(),
            start <= i <= end <= n,
            r@ =~= cs@.skip(start as int).take(i - start),
        decreases end - i,
    {
        r.push(cs[i]);
        proof {
            assert(r@ =~= cs@.skip(start as int).take(i + 1 - start));
        }
        i = i + 1;
    }
    proof {
        assert(r@ =~= cs@.skip(start as int).take(end - start));
    }
    r
}

/// The worry operation of a monkey: `+` adds the operand (or the old value
/// itself when the operand is `old`); `*` leaves the value as it came.
pub struct Operation {
    pub op1: char,
    pub op2_opt: Option<u32>,
}

impl Operation {
    /// Applies the operation to a worry value.
    pub fn run(&self, x: u32) -> (r: u32)
        requires
            self.op1 == '+' || self.op1 == '*',
            self.op1 == '+' ==> (match self.op2_opt {
                Some(v) => x + v <= u32::MAX,
                None => x + x <= u32::MAX,
            }),
        ensures
            self.op1 == '+' ==> r == (match self.op2_opt {
                Some(v) => x + v,
                None => x + x,
            }),
            self.op1 == '*' ==> r == x,
    {
        if self.op1 == '+' {
            match self.op2_opt {
                Some(v) => x + v,
                None => x + x,
            }
        } else {
            x
        }
    }

    /// Reads an operation of the form `old <op> <operand>` (blank-separated,
    /// surrounding space ignored): the second field is `+` or `*` and the
    /// third is `old` or a decimal number.
    pub fn parse(input: String) -> (r: Option<Operation>)
        ensures
            r == spec_parse_operation(input@),
    {
        proof {
            reveal_strlit("+");
            reveal_strlit("*");
            reveal_strlit("old");
        }
        let cs = chars_of(input.as_str());
        let trimmed = trim_chars(&cs);
        let fields = split_fields(&trimmed, ' ');
        if fields.len() < 3 {
            return None;
        }
        let op_tok = &fields[1];
        let op1 = if op_tok.len() == 1 && op_tok[0] == '+' {
            '+'
        } else if op_tok.len() == 1 && op_tok[0] == '*' {
            '*'
        } else {
            proof {
                let t = fields@[1]@;
                assert(t.len() == 1 && t[0] == '+' ==> t =~= "+"@);
                assert(t.len() == 1 && t[0] == '*' ==> t =~= "*"@);
            }
            return None;
        };
        proof {
            let t = fields@[1]@;
            assert(t.len() == 1 && t[0] == '+' ==> t =~= "+"@);
            assert(t.len() == 1 && t[0] == '*' ==> t =~= "*"@);
        }
        let val_tok = &fields[2];
        if crate::text::chars_eq(val_tok, "old") {
            Some(Operation { op1, op2_opt: None })
        } else {
            match parse_u32(val_tok) {
                Some(v) => Some(Operation { op1, op2_opt: Some(v) }),
                None => None,
            }
        }
    }
}

/// What parsing an operation line yields.
pub open spec fn spec_parse_operation(s: Seq<char>) -> Option<Operation> {
    let fields = split_raw(trim_ws(s), ' ');
    if fields.len() < 3 {
        None
    } else {
        let op_tok = fields[1];
        let val_tok = fields[2];
        if op_tok != "+"@ && op_tok != "*"@ {
            None
        } else {
            let op1 = if op_tok == "+"@ {
                '+'
            } else {
                '*'
            };
            if val_tok == "old"@ {
                Some(Operation { op1, op2_opt: None })
            } else if val_tok.len() > 0 && all_digits(val_tok) && dec_val(val_tok) <= u32::MAX {
                Some(Operation { op1, op2_opt: Some(dec_val(val_tok) as u32) })
            } else {
                None
            }
        }
    }
}

/// One monkey's notes: its number, what it starts holding, its worry
/// operation, and where its test sends items.
pub struct Monkey {
    pub id: u32,
    pub starting_items: Vec<u32>,
    pub foo: Operation,
    pub test_modulo: u32,
    pub test_fail_throw_to_monkey_id: u32,
    pub test_success_throw_to_monkey_id: u32,
}

impl Monkey {
    pub fn new(
        id: u32,
        starting_items: Vec<u32>,
        foo: Operation,
        test_modulo: u32,
        test_fail_throw_to_monkey_id: u32,
        test_success_throw_to_monkey_id: u32,
    ) -> (r: Monkey)
        ensures
            r.id == id,
            r.starting_items == starting_items,
            r.foo == foo,
            r.test_modulo == test_modulo,
            r.test_fail_throw_to_monkey_id == test_fail_throw_to_monkey_id,
            r.test_success_throw_to_monkey_id == test_success_throw_to_monkey_id,
    {
        Monkey {
            id,
            starting_items,
            foo,
            test_modulo,
            test_fail_throw_to_monkey_id,
            test_success_throw_to_monkey_id,
        }
    }
}

/// Whether a field spells a `u8` decimal number once blank space is shaved
/// off.
pub open spec fn is_trimmed_u8(t: Seq<char>) -> bool {
    trim_ws(t).len() > 0 && all_digits(trim_ws(t)) && dec_val(trim_ws(t)) <= u8::MAX
}

/// Reads a comma-separated list of `u8` values, each allowed surrounding
/// blank space; nothing if any entry is unreadable.
pub fn parse_comma_separated_values(input: &str) -> (r: Option<Vec<u8>>)
    ensures
        r is Some <==> (forall|j: int|
            0 <= j < split_raw(input@, ',').len() ==> is_trimmed_u8(
                #[trigger] split_raw(input@, ',')[j],
            )),
        r is Some ==> r->Some_0@.len() == split_raw(input@, ',').len(),
        r is Some ==> forall|j: int|
            0 <= j < split_raw(input@, ',').len() ==> #[trigger] r->Some_0@[j] == dec_val(
                trim_ws(split_raw(input@, ',')[j]),
            ),
{
    let cs = chars_of(input);
    let fields = split_fields(&cs, ',');
    let ghost fs = split_raw(input@, ',');
    let mut result: Vec<u8> = Vec::new();
    let n = fields.len();
    for k in 0..n
        invariant
            fs == split_raw(input@, ','),
            n == fields@.len(),
            n == fs.len(),
            forall|j: int| 0 <= j < n ==> fields@[j]@ == fs[j],
            result@.len() == k,
            forall|j: int| 0 <= j < k ==> is_trimmed_u8(#[trigger] fs[j]),
            forall|j: int|
                0 <= j < k ==> #[trigger] result@[j] == dec_val(trim_ws(fs[j])),
    {
        let trimmed = trim_chars(&fields[k]);
        match parse_u8(&trimmed) {
            Some(v) => {
                result.push(v);
            },
            None => {
                proof {
                    assert(!is_trimmed_u8(fs[k as int]));
                    assert(!(forall|j: int| 0 <= j < n ==> is_trimmed_u8(#[trigger] fs[j]))) by {
                        assert(!is_trimmed_u8(fs[k as int]));
                    }
                }
                return None;
            },
        }
    }
    Some(result)
}

// ---------------------------------------------------------------------------
// The notes header
// ---------------------------------------------------------------------------
/// Whether the literal `lit` stands at position `p` of `s`.
pub open spec fn lit_at(s: Seq<char>, p: int, lit: Seq<char>) -> bool {
    0 <= p && p + lit.len() <= s.len() && s.subrange(p, p + lit.len()) == lit
}

/// How many decimal digits stand at position `p` of `s`.
pub open spec fn digits_len_from(s: Seq<char>, p: int) -> int
    decreases s.len() - p,
{
    if p < 0 || p >= s.len() || !is_dec_digit(s[p]) {
        0
    } else {
        1 + digits_len_from(s, p + 1)
    }
}

/// The first position at or after `p` holding `c`, if any.
pub open spec fn find_from(s: Seq<char>, p: int, c: char) -> Option<int>
    decreases s.len() - p,
{
    if p < 0 || p >= s.len() {
        None
    } else if s[p] == c {
        Some(p)
    } else {
        find_from(s, p + 1, c)
    }
}

/// The first position at or after `p` that is not blank space.
pub open spec fn skip_ws_from(s: Seq<char>, p: int) -> int
    decreases s.len() - p,
{
    if p < 0 || p >= s.len() || !is_space(s[p]) {
        p
    } else {
        skip_ws_from(s, p + 1)
    }
}

/// The end of `s` once trailing blank space is dropped, not going below `p`.
pub open spec fn ws_end(s: Seq<char>, p: int, e: int) -> int
    decreases e - p,
{
    if e <= p || e > s.len() || !is_space(s[e - 1]) {
        e
    } else {
        ws_end(s, p, e - 1)
    }
}

/// Whether every comma-separated field spells a `u8` once trimmed.
pub open spec fn all_items_u8(items: Seq<char>) -> bool {
    forall|j: int|
        0 <= j < split_raw(items, ',').len() ==> is_trimmed_u8(
            #[trigger] split_raw(items, ',')[j],
        )
}

/// What the notes-header parser yields: the input left after the header, and
/// the digits of the monkey number. The header is `Monkey <digits>:`, a line
/// of starting items read as `u8` values, and an `Operation: new = ...` line;
/// anything else fails.
pub open spec fn spec_parse_monkey(s: Seq<char>) -> Option<(Seq<char>, Seq<char>)> {
    let d = digits_len_from(s, 7);
    let idx = s.subrange(7, 7 + d);
    if !lit_at(s, 0, "Monkey "@) || !lit_at(s, 7 + d, ":\n"@) {
        None
    } else {
        match find_from(s, 7 + d + 2, ':') {
            None => None,
            Some(f1) => match find_from(s, f1, '\n') {
                None => None,
                Some(f2) => if !lit_at(s, f1, ": "@) || !all_items_u8(
                    s.subrange(f1 + 2, f2),
                ) {
                    None
                } else {
                    let q = skip_ws_from(s, f2);
                    let e = ws_end(s, f2, s.len() as int);
                    if !(lit_at(s, q, "Operation: new = "@) && q + 17 <= e) {
                        None
                    } else {
                        match find_from(s, q + 17, '\n') {
                            None => None,
                            Some(f3) => if f3 < e {
                                Some((s.subrange(f3 + 1, e), idx))
                            } else {
                                None
                            },
                        }
                    }
                },
            },
        }
    }
}

/// A found position lies at or after the start.
proof fn lemma_find_from_ge(s: Seq<char>, p: int, c: char)
    requires
        find_from(s, p, c) is Some,
    ensures
        p <= find_from(s, p, c)->Some_0 < s.len(),
    decreases s.len() - p,
{
    if !(p < 0 || p >= s.len()) && s[p] != c {
        lemma_find_from_ge(s, p + 1, c);
    }
}

/// A found position holds the character looked for.
proof fn lemma_find_from_found(s: Seq<char>, p: int, c: char)
    requires
        find_from(s, p, c) is Some,
    ensures
        s[find_from(s, p, c)->Some_0] == c,
    decreases s.len() - p,
{
    if !(p < 0 || p >= s.len()) && s[p] != c {
        lemma_find_from_found(s, p + 1, c);
    }
}

/// Whether the literal stands at position `p`.
fn lit_at_exec(cs: &Vec<char>, p: usize, lit: &str) -> (r: bool)
    ensures
        r == lit_at(cs@, p as int, lit@),
{
    let m = lit.unicode_len();
    let nn = cs.len();
    if p > nn || m > nn - p {
        return false;
    }
    for i in 0..m
        invariant
            m == lit@.len(),
            nn == cs@.len(),
            p + m <= nn,
            forall|k: int| 0 <= k < i ==> cs@[p + k] == lit@[k],
    {
        if cs[p + i] != lit.get_char(i) {
            proof {
                assert(cs@.subrange(p as int, p + m)[i as int] != lit@[i as int]);
            }
            return false;
        }
    }
    proof {
        assert(cs@.subrange(p as int, p + m) =~= lit@);
    }
    true
}

/// Reads the notes header `Monkey <n>:`, the starting-item line, and the
/// operation line; yields the rest of the input and the monkey number's
/// digits.
pub fn parse_monkey(input: &str) -> (r: Option<(&str, &str)>)
    ensures
        r is Some <==> spec_parse_monkey(input@) is Some,
        r is Some ==> r->Some_0.0@ == spec_parse_monkey(input@)->Some_0.0,
        r is Some ==> r->Some_0.1@ == spec_parse_monkey(input@)->Some_0.1,
{
    proof {
        reveal_strlit("Monkey ");
        reveal_strlit(":\n");
        reveal_strlit(": ");
        reveal_strlit("Operation: new = ");
    }
    let cs = chars_of(input);
    let n = cs.len();
    if !lit_at_exec(&cs, 0, "Monkey ") {
        return None;
    }
    proof {
        assert(7 <= n) by {
            assert(lit_at(cs@, 0, "Monkey "@));
        }
    }
    // the monkey number's digits
    let mut pd: usize = 7;
    while pd < n && cs[pd] >= '0' && cs[pd] <= '9'
        invariant
            n == cs@.len(),
            7 <= pd <= n,
            digits_len_from(cs@, 7) == pd - 7 + digits_len_from(cs@, pd as int),
        decreases n - pd,
    {
        pd = pd + 1;
    }
    proof {
        assert(digits_len_from(cs@, pd as int) == 0);
    }
    let d = pd - 7;
    let p2 = pd;
    if !lit_at_exec(&cs, p2, ":\n") {
        return None;
    }
    // find the colon of the items line, then the line's end
    let mut f1: usize = p2 + 2;
    while f1 < n && cs[f1] != ':'
        invariant
            n == cs@.len(),
            p2 + 2 <= f1 <= n,
            find_from(cs@, p2 + 2 as int, ':') == find_from(cs@, f1 as int, ':'),
        decreases n - f1,
    {
        f1 = f1 + 1;
    }
    if f1 >= n {
        return None;
    }
    proof {
        assert(find_from(cs@, f1 as int, ':') == Some(f1 as int));
    }
    let mut f2: usize = f1;
    while f2 < n && cs[f2] != '\n'
        invariant
            n == cs@.len(),
            f1 <= f2 <= n,
            find_from(cs@, f1 as int, '\n') == find_from(cs@, f2 as int, '\n'),
        decreases n - f2,
    {
        f2 = f2 + 1;
    }
    if f2 >= n {
        return None;
    }
    proof {
        assert(find_from(cs@, f2 as int, '\n') == Some(f2 as int));
    }
    if !lit_at_exec(&cs, f1, ": ") {
        return None;
    }
    proof {
        lemma_find_from_found(cs@, f1 as int, '\n');
        assert(cs@.subrange(f1 as int, f1 + 2)[0] == cs@[f1 as int]);
        assert(cs@.subrange(f1 as int, f1 + 2)[1] == cs@[f1 + 1]);
        assert(cs@[f1 as int] == ':' && cs@[f1 + 1] == ' ') by {
            reveal_strlit(": ");
        }
        assert(find_from(cs@, f1 as int, '\n') == find_from(cs@, f1 + 1, '\n'));
        assert(find_from(cs@, f1 + 1, '\n') == find_from(cs@, f1 + 2, '\n'));
        lemma_find_from_ge(cs@, f1 + 2, '\n');
        assert(f1 + 2 <= f2);
    }
    // the starting items must read as u8 values
    let items = input.substring_char(f1 + 2, f2);
    proof {
        assert(items@ == cs@.subrange(f1 + 2 as int, f2 as int));
    }
    if parse_comma_separated_values(items).is_none() {
        return None;
    }
    // trim the remainder and read the operation line
    let mut q: usize = f2;
    while q < n && (cs[q] == ' ' || cs[q] == '\t' || cs[q] == '\r' || cs[q] == '\n')
        invariant
            n == cs@.len(),
            f2 <= q <= n,
            skip_ws_from(cs@, f2 as int) == skip_ws_from(cs@, q as int),
        decreases n - q,
    {
        q = q + 1;
    }
    proof {
        assert(skip_ws_from(cs@, q as int) == q);
    }
    let mut e: usize = n;
    while e > f2 && (cs[e - 1] == ' ' || cs[e - 1] == '\t' || cs[e - 1] == '\r' || cs[e - 1]
        == '\n')
        invariant
            n == cs@.len(),
            f2 <= e <= n,
            ws_end(cs@, f2 as int, n as int) == ws_end(cs@, f2 as int, e as int),
        decreases e,
    {
        e = e - 1;
    }
    proof {
        assert(ws_end(cs@, f2 as int, e as int) == e);
    }
    if !lit_at_exec(&cs, q, "Operation: new = ") || q + 17 > e {
        return None;
    }
    let mut f3: usize = q + 17;
    while f3 < n && cs[f3] != '\n'
        invariant
            n == cs@.len(),
            q + 17 <= f3 <= n,
            find_from(cs@, q + 17 as int, '\n') == find_from(cs@, f3 as int, '\n'),
        decreases n - f3,
    {
        f3 = f3 + 1;
    }
    if f3 >= n {
        return None;
    }
    proof {
        assert(find_from(cs@, f3 as int, '\n') == Some(f3 as int));
    }
    if f3 >= e {
        return None;
    }
    let rest = input.substring_char(f3 + 1, e);
    let index_digits = input.substring_char(7, 7 + d);
    proof {
        assert(rest@ == cs@.subrange(f3 + 1 as int, e as int));
        assert(index_digits@ == cs@.subrange(7, 7 + d as int));
    }
    Some((rest, index_digits))
}

} // verus!
