//! Backpack sorting: item priorities, finding the item common to both
//! compartments, and the badge item a group of elves shares.
use vstd::prelude::*;

use crate::rope::script_lines;
use crate::text::{chars_of, spec_trim_trailing, split_fields, split_raw};

verus! {

/// The priority of an item: `a` through `z` score 1 to 26, `A` through `Z`
/// score 27 to 52; anything else has none.
pub open spec fn char_priority(c: char) -> Option<u32> {
    if 'a' <= c && c <= 'z' {
        Some((c as u32 - 96) as u32)
    } else if 'A' <= c && c <= 'Z' {
        Some((c as u32 - 38) as u32)
    } else {
        None
    }
}

/// The priority table, in priority order: each entry pairs an item character
/// with its priority.
pub fn build_hash_map() -> (r: Vec<(char, u32)>)
    ensures
        r@.len() == 52,
        forall|k: int|
            0 <= k < 52 ==> #[trigger] r@[k] == (
                "abcdefghijklmnopqrstuvwxyzABCDEFGHIJKLMNOPQRSTUVWXYZ"@[k],
                ((k + 1) as u32),
            ),
{
    let order = "abcdefghijklmnopqrstuvwxyzABCDEFGHIJKLMNOPQRSTUVWXYZ";
    proof {
        reveal_strlit("abcdefghijklmnopqrstuvwxyzABCDEFGHIJKLMNOPQRSTUVWXYZ");
    }
    let cs = chars_of(order);
    let mut map: Vec<(char, u32)> = Vec::new();
    let mut priority: u32 = 1;
    let mut i: usize = 0;
    while i < 52
        invariant
            cs@ == "abcdefghijklmnopqrstuvwxyzABCDEFGHIJKLMNOPQRSTUVWXYZ"@,
            cs@.len() == 52,
            i <= 52,
            priority == i + 1,
            map@.len() == i,
            forall|k: int| 0 <= k < i ==> #[trigger] map@[k] == (cs@[k], (k + 1) as u32),
        decreases 52 - i,
    {
        map.push((cs[i], priority));
        priority = priority + 1;
        i = i + 1;
    }
    map
}

/// The priority of an item character.
pub fn item_priority(c: char) -> (r: Option<u32>)
    ensures
        r == char_priority(c),
{
    if 'a' <= c && c <= 'z' {
        Some(c as u32 - 96)
    } else if 'A' <= c && c <= 'Z' {
        Some(c as u32 - 38)
    } else {
        None
    }
}

/// Splits a backpack into its two equal compartments; a backpack with an odd
/// number of items cannot be split.
pub fn open_backpacks(backback_string: &str) -> (r: Option<(&str, &str)>)
    ensures
        backback_string@.len() % 2 != 0 ==> r is None,
        backback_string@.len() % 2 == 0 ==> ({
            &&& r is Some
            &&& r->Some_0.0@ == backback_string@.take(backback_string@.len() as int / 2)
            &&& r->Some_0.1@ == backback_string@.skip(backback_string@.len() as int / 2)
        }),
{
    let n = backback_string.unicode_len();
    if n % 2 != 0 {
        None
    } else {
        let front = backback_string.substring_char(0, n / 2);
        let back = backback_string.substring_char(n / 2, n);
        proof {
            assert(front@ =~= backback_string@.take(n as int / 2));
            assert(back@ =~= backback_string@.skip(n as int / 2));
        }
        Some((front, back))
    }
}

/// The distinct items of a compartment, in order of first appearance.
pub fn catalogize_backpack(backback_string: &str) -> (r: Vec<char>)
    ensures
        r@.no_duplicates(),
        forall|c: char| r@.contains(c) <==> backback_string@.contains(c),
{
    let cs = chars_of(backback_string);
    let mut catalogue: Vec<char> = Vec::new();
    let n = cs.len();
    for i in 0..n
        invariant
            n == cs@.len(),
            cs@ == backback_string@,
            catalogue@.no_duplicates(),
            forall|c: char| catalogue@.contains(c) <==> cs@.take(i as int).contains(c),
    {
        let mut found = false;
        let m = catalogue.len();
        for q in 0..m
            invariant
                m == catalogue@.len(),
                found <==> exists|k: int| 0 <= k < q && #[trigger] catalogue@[k] == cs@[i as int],
                i < n,
                n == cs@.len(),
        {
            if catalogue[q] == cs[i] {
                found = true;
                proof {
                    assert(catalogue@[q as int] == cs@[i as int]);
                }
            }
        }
        let ghost cat0 = catalogue@;
        if !found {
            catalogue.push(cs[i]);
        }
        proof {
            let x = cs@[i as int];
            assert(found <==> cat0.contains(x));
            if !found {
                assert forall|a: int, b: int|
                    0 <= a < catalogue@.len() && 0 <= b < catalogue@.len() && a != b implies
                    catalogue@[a] != catalogue@[b] by {
                    if a < cat0.len() && b < cat0.len() {
                        assert(cat0[a] != cat0[b]);
                    } else if b == cat0.len() {
                        assert(cat0[a] != x);
                    } else {
                        assert(cat0[b] != x);
                    }
                }
            }
            assert forall|c: char| catalogue@.contains(c) <==> cs@.take(i + 1).contains(c) by {
                assert(cs@.take(i + 1) =~= cs@.take(i as int).push(x));
                if catalogue@.contains(c) {
                    let k = choose|k: int|
                        0 <= k < catalogue@.len() && #[trigger] catalogue@[k] == c;
                    if k < cat0.len() {
                        assert(cat0[k] == c);
                        assert(cat0.contains(c));
                        assert(cs@.take(i as int).contains(c));
                        let k2 = choose|k2: int|
                            0 <= k2 < cs@.take(i as int).len() && #[trigger] cs@.take(i as int)[k2]
                                == c;
                        assert(cs@.take(i as int)[k2] == cs@[k2]);
                        assert(cs@.take(i + 1)[k2] == cs@[k2]);
                        assert(cs@.take(i + 1)[k2] == c);
                    } else {
                        assert(c == x);
                        assert(cs@.take(i + 1)[i as int] == c);
                    }
                }
                if cs@.take(i + 1).contains(c) {
                    let k = choose|k: int|
                        0 <= k < cs@.take(i + 1).len() && #[trigger] cs@.take(i + 1)[k] == c;
                    if k < i {
                        assert(cs@.take(i as int)[k] == c);
                        assert(cat0.contains(c));
                        let k2 = choose|k2: int| 0 <= k2 < cat0.len() && #[trigger] cat0[k2] == c;
                        assert(catalogue@[k2] == c);
                    } else {
                        assert(c == x);
                        if found {
                            let k2 = choose|k2: int|
                                0 <= k2 < cat0.len() && #[trigger] cat0[k2] == c;
                            assert(catalogue@[k2] == c);
                        } else {
                            assert(catalogue@[cat0.len() as int] == c);
                        }
                    }
                }
            }
        }
    }
    proof {
        assert(cs@.take(n as int) =~= cs@);
    }
    catalogue
}

/// The first item of `items` that appears in the catalogue, if any.
pub fn first_in_catalogue(catalogue: Vec<char>, items: &str) -> (r: Option<char>)
    ensures
        (match r {
            Some(c) => exists|i: int|
                {
                    &&& 0 <= i < items@.len()
                    &&& #[trigger] items@[i] == c
                    &&& catalogue@.contains(c)
                    &&& forall|k: int| 0 <= k < i ==> !catalogue@.contains(#[trigger] items@[k])
                },
            None => forall|k: int|
                0 <= k < items@.len() ==> !catalogue@.contains(#[trigger] items@[k]),
        }),
{
    let cs = chars_of(items);
    let n = cs.len();
    for i in 0..n
        invariant
            n == cs@.len(),
            cs@ == items@,
            forall|k: int| 0 <= k < i ==> !catalogue@.contains(#[trigger] cs@[k]),
    {
        let mut found = false;
        let m = catalogue.len();
        for q in 0..m
            invariant
                m == catalogue@.len(),
                found <==> exists|k: int| 0 <= k < q && #[trigger] catalogue@[k] == cs@[i as int],
                i < n,
                n == cs@.len(),
        {
            if catalogue[q] == cs[i] {
                found = true;
                proof {
                    assert(catalogue@[q as int] == cs@[i as int]);
                }
            }
        }
        if found {
            proof {
                let k = choose|k: int|
                    0 <= k < catalogue@.len() && #[trigger] catalogue@[k] == cs@[i as int];
                assert(catalogue@.contains(cs@[i as int]));
            }
            return Some(cs[i]);
        }
    }
    None
}

/// Whether every member of the group carries the item `c`.
pub open spec fn shared_by_all(group: Seq<&str>, c: char) -> bool {
    forall|e: int| 0 <= e < group.len() ==> (#[trigger] group[e])@.contains(c)
}

/// The first character of the last group member that every member carries;
/// nothing for an empty group or when no item is shared by all.
pub fn inspect_elf_group(group: &[&str]) -> (r: Option<char>)
    ensures
        group@.len() == 0 ==> r is None,
        group@.len() > 0 ==> (match r {
            Some(c) => exists|i: int|
                {
                    &&& 0 <= i < group@[group@.len() - 1]@.len()
                    &&& #[trigger] group@[group@.len() - 1]@[i] == c
                    &&& shared_by_all(group@, c)
                    &&& forall|k: int|
                        0 <= k < i ==> !shared_by_all(
                            group@,
                            #[trigger] group@[group@.len() - 1]@[k],
                        )
                },
            None => forall|k: int|
                0 <= k < group@[group@.len() - 1]@.len() ==> !shared_by_all(
                    group@,
                    #[trigger] group@[group@.len() - 1]@[k],
                ),
        }),
{
    if group.len() == 0 {
        return None;
    }
    let last = group[group.len() - 1];
    let cs = chars_of(last);
    let n = cs.len();
    let ghost g = group@;
    for i in 0..n
        invariant
            g == group@,
            g.len() > 0,
            n == cs@.len(),
            cs@ == g[g.len() - 1]@,
            forall|k: int| 0 <= k < i ==> !shared_by_all(g, #[trigger] cs@[k]),
    {
        let c = cs[i];
        let mut in_all = true;
        let m = group.len();
        let mut e: usize = 0;
        while e < m
            invariant
                g == group@,
                m == g.len(),
                e <= m,
                i < n,
                n == cs@.len(),
                cs@ == g[g.len() - 1]@,
                c == cs@[i as int],
                in_all <==> (forall|l: int| 0 <= l < e ==> (#[trigger] g[l])@.contains(c)),
            decreases m - e,
        {
            let member = chars_of(group[e]);
            let mut found = false;
            let mlen = member.len();
            for q in 0..mlen
                invariant
                    g == group@,
                    e < m,
                    m == g.len(),
                    mlen == member@.len(),
                    member@ == g[e as int]@,
                    found <==> exists|k: int| 0 <= k < q && #[trigger] member@[k] == c,
            {
                if member[q] == c {
                    found = true;
                    proof {
                        assert(member@[q as int] == c);
                    }
                }
            }
            proof {
                if found {
                    let k = choose|k: int|
                        0 <= k < member@.len() && #[trigger] member@[k] == c;
                    assert(g[e as int]@.contains(c));
                } else {
                    if g[e as int]@.contains(c) {
                        let k = choose|k: int|
                            0 <= k < g[e as int]@.len() && #[trigger] g[e as int]@[k] == c;
                        assert(member@[k] == c);
                    }
                }
            }
            if !found {
                in_all = false;
            }
            proof {
                if in_all {
                    assert forall|l: int| 0 <= l < e + 1 implies (#[trigger] g[l])@.contains(
                        c,
                    ) by {}
                }
            }
            e = e + 1;
        }
        if in_all {
            return Some(c);
        }
    }
    None
}

/// The first item of `back` that also appears in `front`.
pub open spec fn first_shared(front: Seq<char>, back: Seq<char>) -> Option<char>
    decreases back.len(),
{
    if back.len() == 0 {
        None
    } else if front.contains(back[0]) {
        Some(back[0])
    } else {
        first_shared(front, back.drop_first())
    }
}

proof fn lemma_first_shared_at(front: Seq<char>, back: Seq<char>, i: int)
    requires
        0 <= i < back.len(),
        front.contains(back[i]),
        forall|k: int| 0 <= k < i ==> !front.contains(#[trigger] back[k]),
    ensures
        first_shared(front, back) == Some(back[i]),
    decreases i,
{
    if i > 0 {
        assert(!front.contains(back[0]));
        assert(back.drop_first()[i - 1] == back[i]);
        assert(forall|k: int|
            0 <= k < i - 1 ==> !front.contains(#[trigger] back.drop_first()[k]));
        lemma_first_shared_at(front, back.drop_first(), i - 1);
    }
}

proof fn lemma_first_shared_none(front: Seq<char>, back: Seq<char>)
    requires
        forall|k: int| 0 <= k < back.len() ==> !front.contains(#[trigger] back[k]),
    ensures
        first_shared(front, back) is None,
    decreases back.len(),
{
    if back.len() > 0 {
        assert(forall|k: int|
            0 <= k < back.len() - 1 ==> !front.contains(#[trigger] back.drop_first()[k]));
        lemma_first_shared_none(front, back.drop_first());
    }
}

/// What one backpack line is worth: the priority of the first item of the
/// second compartment that also lies in the first; 0 with no shared item;
/// nothing when the line cannot be split evenly or the shared item has no
/// priority.
pub open spec fn line_priority(line: Seq<char>) -> Option<int> {
    if line.len() % 2 != 0 {
        None
    } else {
        let front = line.take(line.len() as int / 2);
        let back = line.skip(line.len() as int / 2);
        match first_shared(front, back) {
            None => Some(0),
            Some(c) => match char_priority(c) {
                None => None,
                Some(p) => Some(p as int),
            },
        }
    }
}

/// The summed priorities of all the lines.
pub open spec fn spec_dup_sum(lines: Seq<Seq<char>>) -> Option<int>
    decreases lines.len(),
{
    if lines.len() == 0 {
        Some(0)
    } else {
        match line_priority(lines[0]) {
            None => None,
            Some(v) => match spec_dup_sum(lines.drop_first()) {
                None => None,
                Some(rest) => Some(v + rest),
            },
        }
    }
}

/// Sums, over every line of the content, the priority of the item both
/// compartments of that backpack share; nothing when a line cannot be split
/// evenly or a shared item has no priority.
pub fn sum_duplicate_priorities(content: &str) -> (r: Option<u32>)
    requires
        (match spec_dup_sum(script_lines(content@)) {
            Some(s) => s <= u32::MAX,
            None => true,
        }),
    ensures
        r == (match spec_dup_sum(script_lines(content@)) {
            None => None::<u32>,
            Some(s) => Some(s as u32),
        }),
{
    let mut cs = chars_of(content);
    let ghost orig = content@;
    while cs.len() > 0 && cs[cs.len() - 1] == '\n'
        invariant
            orig == content@,
            spec_trim_trailing(orig, '\n') == spec_trim_trailing(cs@, '\n'),
        decreases cs@.len(),
    {
        proof {
            assert(cs@.last() == '\n');
        }
        cs.pop();
    }
    proof {
        assert(spec_trim_trailing(cs@, '\n') == cs@);
    }
    let lines = split_fields(&cs, '\n');
    let ghost ls = script_lines(orig);
    let mut sum: u32 = 0;
    let n = lines.len();
    proof {
        assert(ls.skip(0) =~= ls);
        lemma_dup_sum_nonneg(ls);
    }
    for k in 0..n
        invariant
            ls == script_lines(content@),
            n == lines@.len(),
            n == ls.len(),
            forall|j: int| 0 <= j < n ==> lines@[j]@ == ls[j],
            (match spec_dup_sum(ls) {
                Some(s) => s <= u32::MAX,
                None => true,
            }),
            (match spec_dup_sum(ls.skip(k as int)) {
                None => spec_dup_sum(ls) is None,
                Some(t) => spec_dup_sum(ls) == Some(sum + t),
            }),
            sum <= u32::MAX,
    {
        let ghost rest = ls.skip(k as int);
        proof {
            assert(rest[0] == ls[k as int]);
            assert(rest.drop_first() =~= ls.skip(k + 1));
            lemma_dup_sum_nonneg(ls.skip(k + 1));
        }
        let line = string_of_field(&lines[k]);
        let half = match open_backpacks(line.as_str()) {
            Some(pair) => pair,
            None => {
                proof {
                    assert(line_priority(ls[k as int]) is None);
                }
                return None;
            },
        };
        let (front, back) = half;
        let catalogue = catalogize_backpack(front);
        match first_in_catalogue(catalogue, back) {
            Some(item) => {
                proof {
                    let f = ls[k as int].take(ls[k as int].len() as int / 2);
                    let b = ls[k as int].skip(ls[k as int].len() as int / 2);
                    let i = choose|i: int|
                        {
                            &&& 0 <= i < b.len()
                            &&& #[trigger] b[i] == item
                            &&& f.contains(item)
                            &&& forall|l: int| 0 <= l < i ==> !f.contains(#[trigger] b[l])
                        };
                    lemma_first_shared_at(f, b, i);
                }
                match item_priority(item) {
                    Some(p) => {
                        proof {
                            assert(line_priority(ls[k as int]) == Some(p as int));
                        }
                        match sum.checked_add(p) {
                            Some(ns) => {
                                sum = ns;
                            },
                            None => {
                                proof {
                                    if spec_dup_sum(ls) is Some {
                                        assert(spec_dup_sum(rest) is Some);
                                        let rr = spec_dup_sum(ls.skip(k + 1));
                                        assert(rr is Some);
                                        assert(spec_dup_sum(rest)->Some_0 == p + rr->Some_0);
                                        assert(rr->Some_0 >= 0);
                                        assert(sum + p <= u32::MAX);
                                        assert(false);
                                    }
                                }
                                return None;
                            },
                        }
                    },
                    None => {
                        proof {
                            assert(line_priority(ls[k as int]) is None);
                        }
                        return None;
                    },
                }
            },
            None => {
                proof {
                    let f = ls[k as int].take(ls[k as int].len() as int / 2);
                    let b = ls[k as int].skip(ls[k as int].len() as int / 2);
                    lemma_first_shared_none(f, b);
                    assert(line_priority(ls[k as int]) == Some(0int));
                }
            },
        }
    }
    proof {
        assert(ls.skip(n as int) =~= Seq::<Seq<char>>::empty());
    }
    Some(sum)
}

proof fn lemma_dup_sum_nonneg(lines: Seq<Seq<char>>)
    ensures
        spec_dup_sum(lines) is Some ==> spec_dup_sum(lines)->Some_0 >= 0,
    decreases lines.len(),
{
    if lines.len() > 0 {
        lemma_dup_sum_nonneg(lines.drop_first());
    }
}

/// One split field as an owned string.
fn string_of_field(v: &Vec<char>) -> (r: String)
    ensures
        r@ == v@,
{
    crate::text::string_from_chars(v)
}

} // verus!
