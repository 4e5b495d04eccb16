//! A chain-physics simulator: unit-step movement commands drive the head of
//! an ordered chain of knots; each follower catches up to its leader under a
//! Chebyshev-distance rule, and the set of grid positions the tail ever
//! occupies is counted.
use vstd::prelude::*;

use vstd::pervasive::VecAdditionalExecFns;

use crate::text::{
    all_digits, chars_of, dec_digits, dec_val, lemma_dec_digits_shape, lemma_drop_empty_concat,
    lemma_drop_empty_nonempty, lemma_drop_empty_single, lemma_split_raw_field,
    lemma_split_raw_whole, parse_u16, spec_trim_trailing, split_fields, split_nonempty, split_raw,
    split_tokens, append_dec_u16,
};

verus! {

// ---------------------------------------------------------------------------
// Direction
// ---------------------------------------------------------------------------
#[allow(non_camel_case_types)]
#[derive(Clone, Copy, PartialEq, Eq, Structural, Debug)]
pub enum Direction {
    UP,
    DOWN,
    LEFT,
    RIGHT,
}

/// The unit displacement of a direction: `UP` is (0, +1), `DOWN` (0, -1),
/// `LEFT` (-1, 0), `RIGHT` (+1, 0).
pub open spec fn dir_delta(d: Direction) -> (int, int) {
    match d {
        Direction::UP => (0, 1),
        Direction::DOWN => (0, -1),
        Direction::LEFT => (-1, 0),
        Direction::RIGHT => (1, 0),
    }
}

/// The one-character spelling of a direction.
pub open spec fn dir_chr(d: Direction) -> char {
    match d {
        Direction::UP => 'U',
        Direction::DOWN => 'D',
        Direction::LEFT => 'L',
        Direction::RIGHT => 'R',
    }
}

/// The direction a character denotes, if any.
pub open spec fn dir_of_char(c: char) -> Option<Direction> {
    if c == 'U' {
        Some(Direction::UP)
    } else if c == 'D' {
        Some(Direction::DOWN)
    } else if c == 'L' {
        Some(Direction::LEFT)
    } else if c == 'R' {
        Some(Direction::RIGHT)
    } else {
        None
    }
}

impl Direction {
    /// Reads one of `U`, `D`, `L`, `R`; any other character is invalid.
    pub fn parse(c: char) -> (r: Option<Direction>)
        ensures
            r == dir_of_char(c),
    {
        match c {
            'U' => Some(Direction::UP),
            'D' => Some(Direction::DOWN),
            'L' => Some(Direction::LEFT),
            'R' => Some(Direction::RIGHT),
            _ => None,
        }
    }

    /// The one-character spelling of this direction.
    pub fn as_char(self) -> (c: char)
        ensures
            c == dir_chr(self),
    {
        match self {
            Direction::UP => 'U',
            Direction::DOWN => 'D',
            Direction::LEFT => 'L',
            Direction::RIGHT => 'R',
        }
    }
}

// ---------------------------------------------------------------------------
// Instruction
// ---------------------------------------------------------------------------
/// Why a line failed to parse: the direction token is not one of U/D/L/R, the
/// step token is not a decimal number that fits, or fewer than two tokens are
/// present.
#[derive(Clone, Copy, PartialEq, Eq, Structural, Debug)]
pub enum ParseError {
    InvalidDirection,
    InvalidStepCount,
    MalformedLine,
}

#[derive(Clone, Copy, PartialEq, Eq, Structural, Debug)]
pub struct Instruction {
    pub direction: Direction,
    pub steps: u16,
}

/// What parsing one input line yields: the line is split on blanks with empty
/// tokens discarded; the first token must be a single direction character and
/// the second token a decimal step count.
pub open spec fn spec_parse_line(s: Seq<char>) -> Result<Instruction, ParseError> {
    let toks = split_tokens(s, ' ');
    if toks.len() < 2 {
        Err(ParseError::MalformedLine)
    } else if toks[0].len() != 1 || dir_of_char(toks[0][0]) is None {
        Err(ParseError::InvalidDirection)
    } else if !(toks[1].len() > 0 && all_digits(toks[1]) && dec_val(toks[1]) <= u16::MAX) {
        Err(ParseError::InvalidStepCount)
    } else {
        Ok(
            Instruction {
                direction: dir_of_char(toks[0][0])->Some_0,
                steps: dec_val(toks[1]) as u16,
            },
        )
    }
}

/// The canonical spelling of an instruction: direction character, one blank,
/// decimal step count.
pub open spec fn spec_render(i: Instruction) -> Seq<char> {
    seq![dir_chr(i.direction), ' '] + dec_digits(i.steps as int)
}

impl Instruction {
    pub fn new(direction: Direction, steps: u16) -> (r: Self)
        ensures
            r == (Instruction { direction, steps }),
    {
        Self { direction, steps }
    }

    /// Reads one line of the form `<D> <N>`. Fails with `MalformedLine` when
    /// fewer than two non-empty tokens are present, `InvalidDirection` when
    /// the first token is anything but a single U, D, L or R, and
    /// `InvalidStepCount` when the second token is not a decimal number that
    /// fits in `u16`.
    pub fn parse(input: &str) -> (r: Result<Instruction, ParseError>)
        ensures
            r == spec_parse_line(input@),
    {
        let cs = chars_of(input);
        Self::parse_chars(&cs)
    }

    /// As `parse`, over an already decoded character vector.
    pub fn parse_chars(cs: &Vec<char>) -> (r: Result<Instruction, ParseError>)
        ensures
            r == spec_parse_line(cs@),
    {
        let toks = split_nonempty(cs, ' ');
        if toks.len() < 2 {
            return Err(ParseError::MalformedLine);
        }
        proof {
            lemma_drop_empty_nonempty(crate::text::split_raw(cs@, ' '));
        }
        if toks[0].len() != 1 {
            return Err(ParseError::InvalidDirection);
        }
        let c = toks[0][0];
        let direction = match Direction::parse(c) {
            Some(d) => d,
            None => {
                return Err(ParseError::InvalidDirection);
            },
        };
        match parse_u16(&toks[1]) {
            Some(steps) => Ok(Self::new(direction, steps)),
            None => Err(ParseError::InvalidStepCount),
        }
    }

    /// The canonical spelling of this instruction, `<D> <N>`.
    pub fn render(&self) -> (r: String)
        ensures
            r@ == spec_render(*self),
    {
        let mut r = String::new();
        let d = match self.direction {
            Direction::UP => "U",
            Direction::DOWN => "D",
            Direction::LEFT => "L",
            Direction::RIGHT => "R",
        };
        proof {
            reveal_strlit("U");
            reveal_strlit("D");
            reveal_strlit("L");
            reveal_strlit("R");
            reveal_strlit(" ");
        }
        r.append(d);
        r.append(" ");
        append_dec_u16(&mut r, self.steps);
        proof {
            assert(r@ =~= spec_render(*self));
        }
        r
    }
}

/// Parse round-trip law: parsing the canonical spelling of any instruction
/// yields that instruction back, so parsing followed by re-serialization
/// reproduces a canonically spelled line exactly.
pub proof fn lemma_parse_round_trip(i: Instruction)
    ensures
        spec_parse_line(spec_render(i)) == Ok::<Instruction, ParseError>(i),
        spec_render(spec_parse_line(spec_render(i))->Ok_0) == spec_render(i),
{
    let c = dir_chr(i.direction);
    let digits = dec_digits(i.steps as int);
    let s = spec_render(i);
    lemma_dec_digits_shape(i.steps as int);
    assert(forall|j: int| 0 <= j < digits.len() ==> #[trigger] digits[j] != ' ');
    assert(s =~= seq![c] + seq![' '] + digits);
    lemma_split_raw_field(seq![c], digits, ' ');
    lemma_split_raw_whole(digits, ' ');
    let raw = crate::text::split_raw(s, ' ');
    assert(raw == seq![seq![c]] + seq![digits]);
    assert(raw =~= seq![seq![c], digits]);
    assert(raw.drop_first() =~= seq![digits]);
    lemma_drop_empty_concat(seq![seq![c]], seq![digits]);
    assert(seq![seq![c], digits] =~= seq![seq![c]] + seq![digits]);
    lemma_drop_empty_single(seq![c]);
    lemma_drop_empty_single(digits);
    let toks = split_tokens(s, ' ');
    assert(toks =~= seq![seq![c], digits]);
    assert(toks[0][0] == c);
    assert(dir_of_char(c) == Some(i.direction));
    assert(dec_val(digits) == i.steps as int);
    assert(spec_parse_line(s) == Ok::<Instruction, ParseError>(i));
}

// ---------------------------------------------------------------------------
// Positions and the catch-up rule
// ---------------------------------------------------------------------------
#[derive(Clone, Copy, PartialEq, Eq, Structural, Debug)]
pub struct Position {
    pub x: i16,
    pub y: i16,
}

impl View for Position {
    type V = (int, int);

    open spec fn view(&self) -> (int, int) {
        (self.x as int, self.y as int)
    }
}

pub open spec fn iabs(x: int) -> int {
    if x < 0 {
        -x
    } else {
        x
    }
}

pub open spec fn sign(x: int) -> int {
    if x > 0 {
        1
    } else if x < 0 {
        -1
    } else {
        0
    }
}

/// Chebyshev distance: the larger of the absolute coordinate differences.
pub open spec fn cheb(a: (int, int), b: (int, int)) -> int {
    let dx = iabs(a.0 - b.0);
    let dy = iabs(a.1 - b.1);
    if dx >= dy {
        dx
    } else {
        dy
    }
}

/// The segment measure the original rope step tests: 0 at coincidence, 1
/// within one king-move, otherwise the taxicab distance.
pub open spec fn seg_dist(p: (int, int)) -> int {
    if p.0 == 0 && p.1 == 0 {
        0
    } else if iabs(p.0) <= 1 && iabs(p.1) <= 1 {
        1
    } else {
        iabs(p.0) + iabs(p.1)
    }
}

impl Position {
    /// The componentwise difference `self - other`.
    pub fn diff(&self, other: Position) -> (r: Position)
        requires
            i16::MIN <= self.x - other.x <= i16::MAX,
            i16::MIN <= self.y - other.y <= i16::MAX,
        ensures
            r@ == (self.x - other.x, self.y - other.y),
    {
        Position { x: self.x - other.x, y: self.y - other.y }
    }

    /// The segment measure of this displacement.
    pub fn abs(&self) -> (r: i16)
        requires
            iabs(self.x as int) + iabs(self.y as int) <= i16::MAX,
        ensures
            r as int == seg_dist(self@),
    {
        let ax: i16 = if self.x < 0 {
            -self.x
        } else {
            self.x
        };
        let ay: i16 = if self.y < 0 {
            -self.y
        } else {
            self.y
        };
        if self.x == 0 && self.y == 0 {
            0
        } else if ax <= 1 && ay <= 1 {
            1
        } else {
            ax + ay
        }
    }

    pub fn to_tuple(&self) -> (r: (i16, i16))
        ensures
            r == (self.x, self.y),
    {
        (self.x, self.y)
    }
}

// ---------------------------------------------------------------------------
// The chain model
// ---------------------------------------------------------------------------
/// One unit move of a position.
pub open spec fn moved(p: (int, int), d: Direction) -> (int, int) {
    (p.0 + dir_delta(d).0, p.1 + dir_delta(d).1)
}

/// The catch-up rule for one leader/follower pair: within Chebyshev distance
/// 1 the follower stays; otherwise it moves one unit toward the leader on
/// each axis that differs.
pub open spec fn follow(leader: (int, int), f: (int, int)) -> (int, int) {
    if cheb(leader, f) <= 1 {
        f
    } else {
        (f.0 + sign(leader.0 - f.0), f.1 + sign(leader.1 - f.1))
    }
}

/// One catch-up pass over the chain from index `i` on, in increasing index
/// order; each follower reacts to its already-updated leader.
pub open spec fn settle_from(c: Seq<(int, int)>, i: int) -> Seq<(int, int)>
    decreases c.len() - i,
{
    if i < 1 || i >= c.len() {
        c
    } else {
        settle_from(c.update(i, follow(c[i - 1], c[i])), i + 1)
    }
}

/// One unit step: the head moves one unit, then the catch-up pass runs down
/// the chain.
pub open spec fn unit_step(c: Seq<(int, int)>, d: Direction) -> Seq<(int, int)> {
    settle_from(c.update(0, moved(c[0], d)), 1)
}

/// `steps` unit steps in direction `d`; after each, the tail's position joins
/// the visited set.
pub open spec fn run_steps(c: Seq<(int, int)>, v: Set<(int, int)>, d: Direction, n: nat) -> (
    Seq<(int, int)>,
    Set<(int, int)>,
)
    decreases n,
{
    if n == 0 {
        (c, v)
    } else {
        let c2 = unit_step(c, d);
        run_steps(c2, v.insert(c2.last()), d, (n - 1) as nat)
    }
}

/// The adjacency invariant: every adjacent pair of the chain is within
/// Chebyshev distance 1.
pub open spec fn chain_ok(c: Seq<(int, int)>) -> bool {
    forall|i: int| 0 <= i < c.len() - 1 ==> cheb(#[trigger] c[i], c[i + 1]) <= 1
}

pub open spec fn within_margin(p: (int, int), m: int) -> bool {
    i16::MIN + m <= p.0 <= i16::MAX - m && i16::MIN + m <= p.1 <= i16::MAX - m
}

/// Every knot is at least `m` units inside the representable coordinate box.
pub open spec fn in_margin(c: Seq<(int, int)>, m: int) -> bool {
    forall|i: int| 0 <= i < c.len() ==> within_margin(#[trigger] c[i], m)
}

/// The catch-up move restores adjacency from distance two and moves the
/// follower at most one unit.
pub proof fn lemma_follow(leader: (int, int), f: (int, int))
    requires
        cheb(leader, f) <= 2,
    ensures
        cheb(leader, follow(leader, f)) <= 1,
        cheb(f, follow(leader, f)) <= 1,
{
}

/// The catch-up pass from a settled prefix and a frontier at distance at most
/// two restores the whole-chain invariant, leaves the prefix alone, and moves
/// no knot more than one unit.
pub proof fn lemma_settle(c: Seq<(int, int)>, i: int)
    requires
        1 <= i <= c.len(),
        forall|j: int| 0 <= j < i - 1 ==> cheb(#[trigger] c[j], c[j + 1]) <= 1,
        i < c.len() ==> cheb(c[i - 1], c[i]) <= 2,
        forall|j: int| i <= j < c.len() - 1 ==> cheb(#[trigger] c[j], c[j + 1]) <= 1,
    ensures
        settle_from(c, i).len() == c.len(),
        forall|j: int| 0 <= j < i ==> #[trigger] settle_from(c, i)[j] == c[j],
        chain_ok(settle_from(c, i)),
        forall|j: int| 0 <= j < c.len() ==> cheb(#[trigger] c[j], settle_from(c, i)[j]) <= 1,
    decreases c.len() - i,
{
    if i >= c.len() {
        assert(chain_ok(c));
    } else {
        let f2 = follow(c[i - 1], c[i]);
        let c2 = c.update(i, f2);
        lemma_follow(c[i - 1], c[i]);
        if i + 1 < c.len() {
            assert(cheb(c2[i], c2[i + 1]) <= 2) by {
                assert(cheb(c[i], c[i + 1]) <= 1);
                assert(cheb(c[i], f2) <= 1);
            }
        }
        lemma_settle(c2, i + 1);
        assert(settle_from(c, i) == settle_from(c2, i + 1));
        assert forall|j: int| 0 <= j < c.len() implies cheb(
            #[trigger] c[j],
            settle_from(c, i)[j],
        ) <= 1 by {
            if j == i {
                assert(settle_from(c2, i + 1)[j] == c2[j]);
                assert(c2[j] == f2);
            } else {
                assert(cheb(c2[j], settle_from(c2, i + 1)[j]) <= 1);
                assert(c2[j] == c[j]);
            }
        }
    }
}

/// One unit step preserves the adjacency invariant, keeps the length, moves
/// the head by exactly the direction's displacement and every knot by at most
/// one unit.
pub proof fn lemma_unit_step(c: Seq<(int, int)>, d: Direction)
    requires
        c.len() >= 1,
        chain_ok(c),
    ensures
        unit_step(c, d).len() == c.len(),
        chain_ok(unit_step(c, d)),
        unit_step(c, d)[0] == moved(c[0], d),
        forall|j: int| 0 <= j < c.len() ==> cheb(#[trigger] c[j], unit_step(c, d)[j]) <= 1,
{
    let ch = c.update(0, moved(c[0], d));
    assert(cheb(c[0], moved(c[0], d)) <= 1);
    if c.len() > 1 {
        assert(cheb(ch[0], ch[1]) <= 2) by {
            assert(cheb(c[0], c[1]) <= 1);
        }
    }
    lemma_settle(ch, 1);
    assert forall|j: int| 0 <= j < c.len() implies cheb(#[trigger] c[j], unit_step(c, d)[j])
        <= 1 by {
        if j == 0 {
            assert(unit_step(c, d)[0] == ch[0]);
        } else {
            assert(cheb(ch[j], settle_from(ch, 1)[j]) <= 1);
            assert(ch[j] == c[j]);
        }
    }
}

/// Running the steps preserves the adjacency invariant and the length, moves
/// each knot at most `n` units, and only ever grows the visited set.
pub proof fn lemma_run_steps(c: Seq<(int, int)>, v: Set<(int, int)>, d: Direction, n: nat)
    requires
        c.len() >= 1,
        chain_ok(c),
    ensures
        run_steps(c, v, d, n).0.len() == c.len(),
        chain_ok(run_steps(c, v, d, n).0),
        forall|j: int|
            0 <= j < c.len() ==> cheb(#[trigger] c[j], run_steps(c, v, d, n).0[j]) <= n,
        v.subset_of(run_steps(c, v, d, n).1),
    decreases n,
{
    if n > 0 {
        let c2 = unit_step(c, d);
        lemma_unit_step(c, d);
        lemma_run_steps(c2, v.insert(c2.last()), d, (n - 1) as nat);
        assert forall|j: int| 0 <= j < c.len() implies cheb(
            #[trigger] c[j],
            run_steps(c, v, d, n).0[j],
        ) <= n by {
            assert(cheb(c[j], c2[j]) <= 1);
            assert(cheb(c2[j], run_steps(c2, v.insert(c2.last()), d, (n - 1) as nat).0[j]) <= n
                - 1);
        }
    }
}

/// Unfolding `run_steps` at the back: `n + 1` steps are `n` steps followed by
/// one more unit step and one more visit.
pub proof fn lemma_run_steps_snoc(c: Seq<(int, int)>, v: Set<(int, int)>, d: Direction, n: nat)
    ensures
        run_steps(c, v, d, n + 1) == ({
            let prev = run_steps(c, v, d, n);
            let c2 = unit_step(prev.0, d);
            (c2, prev.1.insert(c2.last()))
        }),
    decreases n,
{
    let c2 = unit_step(c, d);
    let v2 = v.insert(c2.last());
    if n > 0 {
        lemma_run_steps_snoc(c2, v2, d, (n - 1) as nat);
        assert(run_steps(c, v, d, n + 1) == run_steps(c2, v2, d, n));
        assert(run_steps(c, v, d, n) == run_steps(c2, v2, d, (n - 1) as nat));
    } else {
        assert(run_steps(c, v, d, 1) == run_steps(c2, v2, d, 0));
        assert(run_steps(c2, v2, d, 0) == (c2, v2));
        assert(run_steps(c, v, d, 0) == (c, v));
    }
}

/// A sequence extended by one element collects into the set extended by it.
proof fn lemma_to_set_push(s: Seq<(int, int)>, x: (int, int))
    ensures
        s.push(x).to_set() == s.to_set().insert(x),
{
    assert forall|p: (int, int)| s.push(x).to_set().contains(p) implies s.to_set().insert(
        x,
    ).contains(p) by {
        let i = choose|i: int| 0 <= i < s.push(x).len() && s.push(x)[i] == p;
        if i < s.len() {
            assert(s[i] == p);
        } else {
            assert(p == x);
        }
    }
    assert forall|p: (int, int)| s.to_set().insert(x).contains(p) implies s.push(
        x,
    ).to_set().contains(p) by {
        if p == x {
            assert(s.push(x)[s.len() as int] == p);
        } else {
            let i = choose|i: int| 0 <= i < s.len() && s[i] == p;
            assert(s.push(x)[i] == p);
        }
    }
    assert(s.push(x).to_set() =~= s.to_set().insert(x));
}

// ---------------------------------------------------------------------------
// Laws
// ---------------------------------------------------------------------------
/// Invariant law: from a chain whose adjacent pairs are within Chebyshev
/// distance 1, any number of unit steps leads only to chains for which the
/// same holds; the invariant is restored by the catch-up pass after every
/// single unit step (see `lemma_unit_step`).
pub proof fn lemma_chain_invariant(c: Seq<(int, int)>, v: Set<(int, int)>, d: Direction, n: nat)
    requires
        c.len() >= 1,
        chain_ok(c),
    ensures
        chain_ok(run_steps(c, v, d, n).0),
{
    lemma_run_steps(c, v, d, n);
}

/// Monotonicity law: applying steps never removes a visited position, so the
/// visited count never decreases; and because the count is the cardinality of
/// a set, a position already present is never counted twice.
pub proof fn lemma_visited_monotonic(c: Seq<(int, int)>, v: Set<(int, int)>, d: Direction, n: nat)
    requires
        v.finite(),
    ensures
        v.subset_of(run_steps(c, v, d, n).1),
        run_steps(c, v, d, n).1.finite(),
        v.len() <= run_steps(c, v, d, n).1.len(),
    decreases n,
{
    if n > 0 {
        let c2 = unit_step(c, d);
        let v2 = v.insert(c2.last());
        vstd::set_lib::lemma_len_subset(v, v2);
        lemma_visited_monotonic(c2, v2, d, (n - 1) as nat);
        vstd::set_lib::lemma_len_subset(v2, run_steps(c2, v2, d, (n - 1) as nat).1);
    }
}

/// The head's position after `n` unit moves in direction `d`.
pub open spec fn moved_n(p: (int, int), d: Direction, n: nat) -> (int, int)
    decreases n,
{
    if n == 0 {
        p
    } else {
        moved_n(moved(p, d), d, (n - 1) as nat)
    }
}

/// The set of positions the head occupies after each of `n` unit moves.
pub open spec fn head_path(p: (int, int), d: Direction, n: nat) -> Set<(int, int)>
    decreases n,
{
    if n == 0 {
        Set::empty()
    } else {
        head_path(moved(p, d), d, (n - 1) as nat).insert(moved(p, d))
    }
}

/// Degenerate chain law: with a single knot the tail is the head, so running
/// `n` unit steps visits exactly the positions the head itself occupies; with
/// the start position seeded into `v`, the visited set is the set of distinct
/// positions the head ever occupies, its start included.
pub proof fn lemma_degenerate_chain(p: (int, int), v: Set<(int, int)>, d: Direction, n: nat)
    ensures
        run_steps(seq![p], v, d, n).0 =~= seq![moved_n(p, d, n)],
        run_steps(seq![p], v, d, n).1 =~= v.union(head_path(p, d, n)),
    decreases n,
{
    if n == 0 {
        assert(run_steps(seq![p], v, d, 0).1 =~= v.union(Set::empty()));
    } else {
        let m = moved(p, d);
        let c2 = unit_step(seq![p], d);
        assert(seq![p].update(0, moved(seq![p][0], d)) =~= seq![m]);
        assert(c2 == seq![m]);
        assert(c2.last() == m);
        lemma_degenerate_chain(m, v.insert(m), d, (n - 1) as nat);
        assert(run_steps(seq![p], v, d, n) == run_steps(seq![m], v.insert(m), d, (n - 1) as nat));
        assert(v.insert(m).union(head_path(m, d, (n - 1) as nat)) =~= v.union(
            head_path(p, d, n),
        ));
    }
}

/// The head's position after a whole instruction sequence.
pub open spec fn moved_all(p: (int, int), instrs: Seq<Instruction>) -> (int, int)
    decreases instrs.len(),
{
    if instrs.len() == 0 {
        p
    } else {
        moved_all(
            moved_n(p, instrs[0].direction, instrs[0].steps as nat),
            instrs.drop_first(),
        )
    }
}

/// The set of positions the head occupies over a whole instruction sequence,
/// its start excluded.
pub open spec fn head_path_all(p: (int, int), instrs: Seq<Instruction>) -> Set<(int, int)>
    decreases instrs.len(),
{
    if instrs.len() == 0 {
        Set::empty()
    } else {
        head_path(p, instrs[0].direction, instrs[0].steps as nat).union(
            head_path_all(
                moved_n(p, instrs[0].direction, instrs[0].steps as nat),
                instrs.drop_first(),
            ),
        )
    }
}

/// Degenerate chain law over a whole instruction sequence: with a single
/// knot, running any sequence of instructions visits exactly the positions
/// the head itself occupies; with the start position seeded into `v`, the
/// visited set is the set of distinct positions the head ever occupies, its
/// start included.
pub proof fn lemma_degenerate_chain_sequence(
    p: (int, int),
    v: Set<(int, int)>,
    instrs: Seq<Instruction>,
)
    ensures
        run_all(seq![p], v, instrs).0 =~= seq![moved_all(p, instrs)],
        run_all(seq![p], v, instrs).1 =~= v.union(head_path_all(p, instrs)),
    decreases instrs.len(),
{
    if instrs.len() == 0 {
        assert(run_all(seq![p], v, instrs).1 =~= v.union(Set::empty()));
    } else {
        let d = instrs[0].direction;
        let n = instrs[0].steps as nat;
        let m = moved_n(p, d, n);
        let a = head_path(p, d, n);
        lemma_degenerate_chain(p, v, d, n);
        let r = run_steps(seq![p], v, d, n);
        assert(r.0 == seq![m]);
        assert(r.1 == v.union(a));
        lemma_degenerate_chain_sequence(m, v.union(a), instrs.drop_first());
        let b = head_path_all(m, instrs.drop_first());
        assert(v.union(a).union(b) =~= v.union(a.union(b)));
    }
}

/// `moved_n` peels at the back as well as at the front.
proof fn lemma_moved_n_snoc(p: (int, int), d: Direction, n: nat)
    ensures
        moved_n(p, d, n + 1) == moved(moved_n(p, d, n), d),
    decreases n,
{
    let m = moved(p, d);
    assert(moved_n(p, d, n + 1) == moved_n(m, d, n));
    if n > 0 {
        lemma_moved_n_snoc(m, d, (n - 1) as nat);
        assert(moved_n(m, d, n) == moved(moved_n(m, d, (n - 1) as nat), d));
        assert(moved_n(p, d, n) == moved_n(m, d, (n - 1) as nat));
    } else {
        assert(moved_n(m, d, 0) == m);
        assert(moved_n(p, d, 0) == p);
    }
}

/// The coordinates of the head after `n` unit moves, per direction.
proof fn lemma_moved_n_coords(p: (int, int), d: Direction, n: nat)
    ensures
        moved_n(p, d, n) == match d {
            Direction::UP => (p.0, p.1 + n),
            Direction::DOWN => (p.0, p.1 - n),
            Direction::LEFT => (p.0 - n, p.1),
            Direction::RIGHT => (p.0 + n, p.1),
        },
    decreases n,
{
    if n > 0 {
        lemma_moved_n_coords(moved(p, d), d, (n - 1) as nat);
    }
}

/// One unit step of a three-knot chain, written out.
proof fn lemma_unit_step3(a: (int, int), b: (int, int), t: (int, int), d: Direction)
    ensures
        unit_step(seq![a, b, t], d) =~= seq![
            moved(a, d),
            follow(moved(a, d), b),
            follow(follow(moved(a, d), b), t),
        ],
{
    let m = moved(a, d);
    let c = seq![a, b, t].update(0, m);
    assert(c =~= seq![m, b, t]);
    let b2 = follow(m, b);
    let c1 = c.update(1, b2);
    assert(c1 =~= seq![m, b2, t]);
    let t2 = follow(b2, t);
    let c2 = c1.update(2, t2);
    assert(c2 =~= seq![m, b2, t2]);
    assert(c[0] == m && c[1] == b);
    assert(settle_from(c, 1) == settle_from(c1, 2));
    assert(c1[1] == b2 && c1[2] == t);
    assert(settle_from(c1, 2) == settle_from(c2, 3));
    assert(settle_from(c2, 3) == c2);
}

/// Running `k >= 2` unit steps on a three-knot chain that starts at a common
/// origin leaves the knots strung out one behind another along the line of
/// motion.
proof fn lemma_straight_run(p: (int, int), v: Set<(int, int)>, d: Direction, k: nat)
    requires
        k >= 2,
    ensures
        run_steps(seq![p, p, p], v, d, k).0 == seq![
            moved_n(p, d, k),
            moved_n(p, d, (k - 1) as nat),
            moved_n(p, d, (k - 2) as nat),
        ],
    decreases k,
{
    let c0 = seq![p, p, p];
    let m1 = moved(p, d);
    if k == 2 {
        lemma_run_steps_snoc(c0, v, d, 0);
        lemma_run_steps_snoc(c0, v, d, 1);
        assert(run_steps(c0, v, d, 0).0 == c0);
        lemma_unit_step3(p, p, p, d);
        let s1 = run_steps(c0, v, d, 1).0;
        assert(s1 == unit_step(c0, d));
        assert(cheb(m1, p) <= 1);
        assert(follow(m1, p) == p);
        assert(follow(p, p) == p);
        assert(s1 =~= seq![m1, p, p]);
        lemma_unit_step3(m1, p, p, d);
        let m2 = moved(m1, d);
        let s2 = run_steps(c0, v, d, 2).0;
        assert(s2 == unit_step(s1, d));
        assert(s2 == unit_step(seq![m1, p, p], d));
        assert(cheb(m2, p) == 2);
        assert(follow(m2, p) == m1);
        assert(follow(m1, p) == p);
        assert(s2 =~= seq![m2, m1, p]);
        assert(moved_n(p, d, 0) == p);
        assert(moved_n(p, d, 1) == m1) by {
            assert(moved_n(p, d, 1) == moved_n(m1, d, 0));
        }
        lemma_moved_n_snoc(p, d, 1);
        assert(moved_n(p, d, 2) == m2);
        assert(s2 =~= seq![moved_n(p, d, 2), moved_n(p, d, 1), moved_n(p, d, 0)]);
    } else {
        lemma_straight_run(p, v, d, (k - 1) as nat);
        lemma_run_steps_snoc(c0, v, d, (k - 1) as nat);
        let prev = run_steps(c0, v, d, (k - 1) as nat).0;
        let ma = moved_n(p, d, (k - 1) as nat);
        let mb = moved_n(p, d, (k - 2) as nat);
        let mc = moved_n(p, d, (k - 3) as nat);
        assert(prev == seq![ma, mb, mc]);
        lemma_unit_step3(ma, mb, mc, d);
        lemma_moved_n_snoc(p, d, (k - 1) as nat);
        lemma_moved_n_snoc(p, d, (k - 2) as nat);
        lemma_moved_n_snoc(p, d, (k - 3) as nat);
        lemma_moved_n_coords(p, d, (k - 1) as nat);
        lemma_moved_n_coords(p, d, (k - 2) as nat);
        lemma_moved_n_coords(p, d, (k - 3) as nat);
        lemma_moved_n_coords(p, d, k);
        let mk = moved_n(p, d, k);
        assert(mk == moved(ma, d));
        assert(cheb(mk, mb) == 2);
        assert(follow(mk, mb) == ma) by {
            assert(ma == moved(mb, d));
        }
        assert(cheb(ma, mc) == 2);
        assert(follow(ma, mc) == mb) by {
            assert(mb == moved(mc, d));
        }
        assert(run_steps(c0, v, d, k).0 == unit_step(prev, d));
        assert(unit_step(seq![ma, mb, mc], d) =~= seq![mk, ma, mb]);
    }
}

/// A single head jump of `n` units followed by one catch-up pass: the naive
/// collapse of an instruction into one chain update.
pub open spec fn jump_chain(c: Seq<(int, int)>, d: Direction, n: nat) -> Seq<(int, int)> {
    settle_from(c.update(0, moved_n(c[0], d, n)), 1)
}

/// Unit-step necessity law: on a three-knot chain at a common origin, an
/// instruction of at least three steps gives a different chain — and already a
/// different tail — when the head jumps once and a single catch-up pass runs,
/// instead of the required one-unit-at-a-time stepping.
pub proof fn lemma_unit_step_necessity(p: (int, int), v: Set<(int, int)>, d: Direction, s: nat)
    requires
        s >= 3,
    ensures
        run_steps(seq![p, p, p], v, d, s).0 != jump_chain(seq![p, p, p], d, s),
        run_steps(seq![p, p, p], v, d, s).0.last() != jump_chain(seq![p, p, p], d, s).last(),
{
    let c0 = seq![p, p, p];
    lemma_straight_run(p, v, d, s);
    let stepped = run_steps(c0, v, d, s).0;
    let ms = moved_n(p, d, s);
    let m1 = moved(p, d);
    lemma_moved_n_coords(p, d, s);
    lemma_moved_n_coords(p, d, (s - 1) as nat);
    lemma_moved_n_coords(p, d, (s - 2) as nat);
    // evaluate the jump: head to `ms`, then one catch-up pass
    let cj = c0.update(0, moved_n(c0[0], d, s));
    assert(cj =~= seq![ms, p, p]);
    assert(cheb(ms, p) >= 2);
    assert(follow(ms, p) == m1) by {
        assert(sign(ms.0 - p.0) == dir_delta(d).0);
        assert(sign(ms.1 - p.1) == dir_delta(d).1);
    }
    let cj1 = cj.update(1, follow(cj[0], cj[1]));
    assert(cj1 =~= seq![ms, m1, p]);
    assert(cheb(m1, p) <= 1);
    assert(follow(m1, p) == p);
    let cj2 = cj1.update(2, follow(cj1[1], cj1[2]));
    assert(cj2 =~= cj1);
    assert(settle_from(cj, 1) == settle_from(cj1, 2));
    assert(settle_from(cj1, 2) == settle_from(cj2, 3));
    assert(settle_from(cj2, 3) == cj2);
    assert(jump_chain(c0, d, s) =~= seq![ms, m1, p]);
    // the stepped chain differs at the middle knot and at the tail
    assert(stepped.last() == moved_n(p, d, (s - 2) as nat));
    assert(stepped.last() != p);
    assert(stepped[1] != m1);
}

// ---------------------------------------------------------------------------
// The simulator
// ---------------------------------------------------------------------------
/// The chain length asked of the simulator was zero.
#[derive(Clone, Copy, PartialEq, Eq, Structural, Debug)]
pub enum ConfigurationError {
    InvalidChainLength,
}

/// A chain of every-position-equal origin knots of the given length.
pub open spec fn origin_chain(n: nat) -> Seq<(int, int)> {
    Seq::new(n, |i: int| (0int, 0int))
}

/// Owns the chain and the set of positions the tail has visited. The head is
/// index 0, the tail the last index; the adjacency invariant holds between
/// every unit step.
pub struct ChainSimulator {
    chain: Vec<Position>,
    visited: Vec<Position>,
}

impl ChainSimulator {
    /// The chain as a sequence of integer coordinate pairs.
    pub closed spec fn chain_model(self) -> Seq<(int, int)> {
        self.chain@.map_values(|p: Position| p@)
    }

    closed spec fn visited_views(self) -> Seq<(int, int)> {
        self.visited@.map_values(|p: Position| p@)
    }

    /// The set of positions the tail has ever occupied.
    pub closed spec fn visited_model(self) -> Set<(int, int)> {
        self.visited_views().to_set()
    }

    /// Well-formedness: a non-empty chain whose adjacent pairs are within
    /// Chebyshev distance 1, a duplicate-free visited record that holds the
    /// tail's current position.
    pub closed spec fn wf(self) -> bool {
        &&& self.chain@.len() >= 1
        &&& chain_ok(self.chain_model())
        &&& self.visited_views().no_duplicates()
        &&& self.visited_model().contains(self.chain_model().last())
    }

    /// Builds a simulator of `length` origin knots; a length below one is a
    /// configuration error.
    pub fn new(length: usize) -> (r: Result<ChainSimulator, ConfigurationError>)
        ensures
            r is Ok <==> length >= 1,
            r is Ok ==> ({
                &&& r->Ok_0.wf()
                &&& r->Ok_0.chain_model() == origin_chain(length as nat)
                &&& r->Ok_0.visited_model() == Set::<(int, int)>::empty().insert((0int, 0int))
            }),
    {
        if length == 0 {
            return Err(ConfigurationError::InvalidChainLength);
        }
        let mut chain: Vec<Position> = Vec::new();
        for k in 0..length
            invariant
                chain@.len() == k,
                forall|i: int| 0 <= i < k ==> #[trigger] chain@[i] == (Position { x: 0, y: 0 }),
        {
            chain.push(Position { x: 0, y: 0 });
        }
        let mut visited: Vec<Position> = Vec::new();
        visited.push(Position { x: 0, y: 0 });
        let r = ChainSimulator { chain, visited };
        proof {
            assert(r.chain_model() =~= origin_chain(length as nat));
            assert(r.visited_views() =~= seq![(0int, 0int)]);
            assert(r.visited_model().contains((0int, 0int))) by {
                assert(r.visited_views()[0] == (0int, 0int));
            }
            assert forall|p: (int, int)| r.visited_model().contains(p) implies p == (
                0int,
                0int,
            ) by {
                let i = choose|i: int|
                    0 <= i < r.visited_views().len() && r.visited_views()[i] == p;
            }
            assert(r.visited_model() =~= Set::<(int, int)>::empty().insert((0int, 0int)));
            assert(r.chain_model().last() == (0int, 0int));
        }
        Ok(r)
    }

    /// The number of knots in the chain.
    pub fn length(&self) -> (n: usize)
        ensures
            n == self.chain_model().len(),
    {
        self.chain.len()
    }

    /// The knot at index `i`; index 0 is the head.
    pub fn knot_position(&self, i: usize) -> (p: Position)
        requires
            i < self.chain_model().len(),
        ensures
            p@ == self.chain_model()[i as int],
    {
        self.chain[i]
    }

    /// The head's position.
    pub fn head_position(&self) -> (p: Position)
        requires
            self.wf(),
        ensures
            p@ == self.chain_model()[0],
    {
        self.chain[0]
    }

    /// The tail's position.
    pub fn tail_position(&self) -> (p: Position)
        requires
            self.wf(),
        ensures
            p@ == self.chain_model().last(),
    {
        self.chain[self.chain.len() - 1]
    }

    /// How many distinct positions the tail has occupied, its start included.
    pub fn visited_count(&self) -> (n: usize)
        requires
            self.wf(),
        ensures
            n == self.visited_model().len(),
    {
        proof {
            self.visited_views().unique_seq_to_set();
        }
        self.visited.len()
    }

    /// One unit step: moves the head one unit in `direction`, runs the
    /// catch-up pass in index order, then records the tail's position.
    fn step(&mut self, direction: Direction)
        requires
            old(self).wf(),
            in_margin(old(self).chain_model(), 1),
        ensures
            final(self).wf(),
            final(self).chain_model() == unit_step(old(self).chain_model(), direction),
            final(self).visited_model() == old(self).visited_model().insert(
                unit_step(old(self).chain_model(), direction).last(),
            ),
    {
        let ghost c0 = old(self).chain_model();
        let head = self.chain[0];
        proof {
            assert(head@ == c0[0]);
            assert(within_margin(c0[0], 1));
        }
        let new_head = match direction {
            Direction::UP => Position { x: head.x, y: head.y + 1 },
            Direction::DOWN => Position { x: head.x, y: head.y - 1 },
            Direction::LEFT => Position { x: head.x - 1, y: head.y },
            Direction::RIGHT => Position { x: head.x + 1, y: head.y },
        };
        self.chain.set(0, new_head);
        let ghost ch = c0.update(0, moved(c0[0], direction));
        proof {
            assert(self.chain_model() =~= ch);
        }
        let n = self.chain.len();
        let mut i: usize = 1;
        while i < n
            invariant
                1 <= i <= n,
                n == self.chain@.len(),
                n == c0.len(),
                in_margin(c0, 1),
                settle_from(ch, 1) == settle_from(self.chain_model(), i as int),
                forall|j: int| i <= j < n ==> #[trigger] self.chain_model()[j] == c0[j],
                self.visited == old(self).visited,
            decreases n - i,
        {
            let ghost cur = self.chain_model();
            let leader = self.chain[i - 1];
            let fol = self.chain[i];
            let dx: i32 = leader.x as i32 - fol.x as i32;
            let dy: i32 = leader.y as i32 - fol.y as i32;
            let newf = if -1 <= dx && dx <= 1 && -1 <= dy && dy <= 1 {
                fol
            } else {
                let sx: i16 = if dx > 0 {
                    1
                } else if dx < 0 {
                    -1
                } else {
                    0
                };
                let sy: i16 = if dy > 0 {
                    1
                } else if dy < 0 {
                    -1
                } else {
                    0
                };
                Position { x: fol.x + sx, y: fol.y + sy }
            };
            proof {
                assert(within_margin(c0[i as int], 1));
                assert(newf@ == follow(cur[i as int - 1], cur[i as int]));
            }
            self.chain.set(i, newf);
            proof {
                assert(self.chain_model() =~= cur.update(i as int, follow(
                    cur[i as int - 1],
                    cur[i as int],
                )));
                assert(settle_from(cur, i as int) == settle_from(self.chain_model(), i as int + 1));
            }
            i = i + 1;
        }
        proof {
            assert(settle_from(self.chain_model(), n as int) == self.chain_model());
            assert(self.chain_model() == unit_step(c0, direction));
            lemma_unit_step(c0, direction);
        }
        // record the tail
        let t = self.chain[n - 1];
        let ghost views0 = self.visited_views();
        let mut found = false;
        let m = self.visited.len();
        let mut q: usize = 0;
        while q < m
            invariant
                q <= m,
                m == self.visited@.len(),
                found <==> exists|j: int| 0 <= j < q && #[trigger] self.visited@[j] == t,
            decreases m - q,
        {
            if self.visited[q].x == t.x && self.visited[q].y == t.y {
                found = true;
                proof {
                    assert(self.visited@[q as int] == t);
                }
            }
            q = q + 1;
        }
        proof {
            assert(found <==> views0.contains(t@)) by {
                if found {
                    let j = choose|j: int| 0 <= j < m && #[trigger] self.visited@[j] == t;
                    assert(views0[j] == t@);
                } else {
                    if views0.contains(t@) {
                        let j = choose|j: int| 0 <= j < views0.len() && views0[j] == t@;
                        assert(self.visited@[j]@ == t@);
                        assert(self.visited@[j] == t);
                    }
                }
            }
        }
        if !found {
            self.visited.push(t);
            proof {
                assert(self.visited_views() =~= views0.push(t@));
                assert(!views0.contains(t@));
                let vs = self.visited_views();
                assert forall|a: int, b: int|
                    0 <= a < vs.len() && 0 <= b < vs.len() && a != b implies vs[a] != vs[b] by {
                    if a < views0.len() && b < views0.len() {
                        assert(views0[a] != views0[b]);
                    } else if b == views0.len() {
                        assert(vs[b] == t@);
                        assert(views0[a] != t@);
                    } else {
                        assert(vs[a] == t@);
                        assert(views0[b] != t@);
                    }
                }
                lemma_to_set_push(views0, t@);
            }
        } else {
            proof {
                assert(views0.to_set().contains(t@));
                assert(self.visited_model() =~= views0.to_set().insert(t@));
            }
        }
        proof {
            assert(t@ == self.chain_model().last());
            assert(self.visited_model().contains(self.chain_model().last()));
        }
    }

    /// Applies one instruction: `steps` unit steps, recording the tail after
    /// each. The visited set only grows, and the adjacency invariant holds
    /// after every unit step.
    pub fn apply_instruction(&mut self, instruction: Instruction)
        requires
            old(self).wf(),
            in_margin(old(self).chain_model(), instruction.steps as int),
        ensures
            final(self).wf(),
            final(self).chain_model() == run_steps(
                old(self).chain_model(),
                old(self).visited_model(),
                instruction.direction,
                instruction.steps as nat,
            ).0,
            final(self).visited_model() == run_steps(
                old(self).chain_model(),
                old(self).visited_model(),
                instruction.direction,
                instruction.steps as nat,
            ).1,
            old(self).visited_model().subset_of(final(self).visited_model()),
            final(self).chain_model().len() == old(self).chain_model().len(),
    {
        let ghost c0 = old(self).chain_model();
        let ghost v0 = old(self).visited_model();
        let d = instruction.direction;
        let steps = instruction.steps;
        let mut k: u16 = 0;
        while k < steps
            invariant
                k <= steps,
                self.wf(),
                self.chain_model() == run_steps(c0, v0, d, k as nat).0,
                self.visited_model() == run_steps(c0, v0, d, k as nat).1,
                in_margin(self.chain_model(), steps - k),
                c0.len() >= 1,
                chain_ok(c0),
                self.chain_model().len() == c0.len(),
                v0.subset_of(self.visited_model()),
            decreases steps - k,
        {
            let ghost cprev = self.chain_model();
            proof {
                assert forall|i: int| 0 <= i < cprev.len() implies within_margin(
                    #[trigger] cprev[i],
                    1,
                ) by {
                    assert(within_margin(cprev[i], steps - k));
                }
            }
            self.step(d);
            proof {
                lemma_run_steps_snoc(c0, v0, d, k as nat);
                lemma_unit_step(cprev, d);
                assert forall|i: int| 0 <= i < self.chain_model().len() implies within_margin(
                    #[trigger] self.chain_model()[i],
                    steps - (k + 1),
                ) by {
                    assert(cheb(cprev[i], self.chain_model()[i]) <= 1);
                    assert(within_margin(cprev[i], steps - k));
                }
            }
            k = k + 1;
        }
    }
}

// ---------------------------------------------------------------------------
// Whole-script driving
// ---------------------------------------------------------------------------
/// The lines of an instruction script: trailing newlines stripped, then split
/// on `\n` with empty lines kept (they fail to parse, as they should).
pub open spec fn script_lines(s: Seq<char>) -> Seq<Seq<char>> {
    split_raw(spec_trim_trailing(s, '\n'), '\n')
}

/// Parses a whole script, one instruction per line. The first failing line's
/// error is returned and nothing after it is looked at; no instruction is
/// guessed or skipped.
#[verifier::rlimit(50)]
pub fn parse_script(input: &str) -> (r: Result<Vec<Instruction>, ParseError>)
    ensures
        r is Ok <==> (forall|j: int|
            0 <= j < script_lines(input@).len() ==> spec_parse_line(
                #[trigger] script_lines(input@)[j],
            ) is Ok),
        r is Ok ==> r->Ok_0@.len() == script_lines(input@).len(),
        r is Ok ==> forall|j: int|
            0 <= j < script_lines(input@).len() ==> #[trigger] r->Ok_0@[j] == spec_parse_line(
                script_lines(input@)[j],
            )->Ok_0,
        r is Err ==> exists|j: int|
            {
                &&& 0 <= j < script_lines(input@).len()
                &&& spec_parse_line(#[trigger] script_lines(input@)[j]) is Err
                &&& r->Err_0 == spec_parse_line(script_lines(input@)[j])->Err_0
                &&& forall|l: int|
                    0 <= l < j ==> spec_parse_line(#[trigger] script_lines(input@)[l]) is Ok
            },
{
    let mut cs = chars_of(input);
    let ghost orig = cs@;
    while cs.len() > 0 && cs[cs.len() - 1] == '\n'
        invariant
            orig == input@,
            spec_trim_trailing(orig, '\n') == spec_trim_trailing(cs@, '\n'),
        decreases cs@.len(),
    {
        proof {
            assert(cs@.last() == '\n');
        }
        cs.pop();
    }
    proof {
        assert(spec_trim_trailing(cs@, '\n') == cs@);
    }
    let lines = split_fields(&cs, '\n');
    let ghost ls = script_lines(orig);
    let mut out: Vec<Instruction> = Vec::new();
    let n = lines.len();
    for k in 0..n
        invariant
            ls == script_lines(input@),
            n == lines@.len(),
            n == ls.len(),
            forall|j: int| 0 <= j < n ==> lines@[j]@ == ls[j],
            out@.len() == k,
            forall|j: int| 0 <= j < k ==> spec_parse_line(#[trigger] ls[j]) is Ok,
            forall|j: int| 0 <= j < k ==> #[trigger] out@[j] == spec_parse_line(ls[j])->Ok_0,
    {
        match Instruction::parse_chars(&lines[k]) {
            Ok(i) => {
                out.push(i);
            },
            Err(e) => {
                proof {
                    let gls = script_lines(input@);
                    assert(gls == ls);
                    assert(spec_parse_line(gls[k as int]) is Err);
                    assert(e == spec_parse_line(gls[k as int])->Err_0);
                    assert(forall|l: int|
                        0 <= l < k ==> spec_parse_line(#[trigger] gls[l]) is Ok);
                    assert(!(forall|j: int|
                        0 <= j < gls.len() ==> spec_parse_line(#[trigger] gls[j]) is Ok)) by {
                        assert(!(spec_parse_line(gls[k as int]) is Ok));
                    }
                    assert(exists|j: int|
                        {
                            &&& 0 <= j < gls.len()
                            &&& spec_parse_line(#[trigger] gls[j]) is Err
                            &&& e == spec_parse_line(gls[j])->Err_0
                            &&& forall|l: int|
                                0 <= l < j ==> spec_parse_line(#[trigger] gls[l]) is Ok
                        }) by {
                        assert(0 <= k < gls.len() && spec_parse_line(#[trigger] gls[k as int])
                            is Err);
                    }
                }
                return Err(e);
            },
        }
    }
    Ok(out)
}

/// The sum of the step counts of a sequence of instructions.
pub open spec fn total_steps(instrs: Seq<Instruction>) -> int
    decreases instrs.len(),
{
    if instrs.len() == 0 {
        0
    } else {
        instrs[0].steps + total_steps(instrs.drop_first())
    }
}

proof fn lemma_total_steps_nonneg(instrs: Seq<Instruction>)
    ensures
        total_steps(instrs) >= 0,
    decreases instrs.len(),
{
    if instrs.len() > 0 {
        lemma_total_steps_nonneg(instrs.drop_first());
    }
}

/// Applying a sequence of instructions in order, each one unit step at a
/// time.
pub open spec fn run_all(
    c: Seq<(int, int)>,
    v: Set<(int, int)>,
    instrs: Seq<Instruction>,
) -> (Seq<(int, int)>, Set<(int, int)>)
    decreases instrs.len(),
{
    if instrs.len() == 0 {
        (c, v)
    } else {
        let r = run_steps(c, v, instrs[0].direction, instrs[0].steps as nat);
        run_all(r.0, r.1, instrs.drop_first())
    }
}

/// Runs the whole instruction sequence on a fresh chain of `length` origin
/// knots and reports how many distinct positions the tail occupied, the start
/// included. A length below one is a configuration error.
#[verifier::rlimit(50)]
pub fn run_simulation(instructions: &Vec<Instruction>, length: usize) -> (r: Result<
    usize,
    ConfigurationError,
>)
    requires
        total_steps(instructions@) <= i16::MAX,
    ensures
        r is Ok <==> length >= 1,
        r is Ok ==> r->Ok_0 == run_all(
            origin_chain(length as nat),
            Set::<(int, int)>::empty().insert((0int, 0int)),
            instructions@,
        ).1.len(),
{
    let mut sim = match ChainSimulator::new(length) {
        Ok(s) => s,
        Err(e) => {
            return Err(e);
        },
    };
    let ghost c0 = sim.chain_model();
    let ghost v0 = sim.visited_model();
    let ghost all = instructions@;
    proof {
        lemma_total_steps_nonneg(all);
        assert(all.skip(0) =~= all);
        assert forall|i: int| 0 <= i < c0.len() implies within_margin(
            #[trigger] c0[i],
            total_steps(all),
        ) by {
            assert(c0[i] == (0int, 0int));
        }
    }
    let n = instructions.len();
    for k in 0..n
        invariant
            n == instructions@.len(),
            instructions@ == all,
            sim.wf(),
            sim.chain_model().len() == length as nat,
            length >= 1,
            run_all(c0, v0, all) == run_all(
                sim.chain_model(),
                sim.visited_model(),
                all.skip(k as int),
            ),
            in_margin(sim.chain_model(), total_steps(all.skip(k as int))),
    {
        let instr = instructions[k];
        let ghost rest = all.skip(k as int);
        let ghost cm = sim.chain_model();
        let ghost vm = sim.visited_model();
        proof {
            assert(rest[0] == instr);
            assert(rest.drop_first() =~= all.skip(k + 1));
            lemma_total_steps_nonneg(all.skip(k + 1));
            assert(total_steps(rest) == instr.steps + total_steps(all.skip(k + 1)));
            assert forall|i: int| 0 <= i < cm.len() implies within_margin(
                #[trigger] cm[i],
                instr.steps as int,
            ) by {
                assert(within_margin(cm[i], total_steps(rest)));
            }
        }
        sim.apply_instruction(instr);
        proof {
            lemma_run_steps(cm, vm, instr.direction, instr.steps as nat);
            assert(run_all(cm, vm, rest) == run_all(
                sim.chain_model(),
                sim.visited_model(),
                all.skip(k + 1),
            ));
            assert forall|i: int| 0 <= i < sim.chain_model().len() implies within_margin(
                #[trigger] sim.chain_model()[i],
                total_steps(all.skip(k + 1)),
            ) by {
                assert(cheb(cm[i], sim.chain_model()[i]) <= instr.steps as int);
                assert(within_margin(cm[i], total_steps(rest)));
            }
        }
    }
    proof {
        assert(all.skip(n as int) =~= Seq::<Instruction>::empty());
        assert(run_all(sim.chain_model(), sim.visited_model(), all.skip(n as int)) == (
            sim.chain_model(),
            sim.visited_model(),
        ));
    }
    Ok(sim.visited_count())
}

} // verus!
