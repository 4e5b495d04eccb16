//! Shared text utilities: splitting a character sequence on a separator and
//! reading and writing decimal numbers, each with an exact specification.
use vstd::prelude::*;

verus! {

// ---------------------------------------------------------------------------
// Splitting
// ---------------------------------------------------------------------------
/// All fields of `s` split on `sep`, empty fields included; always at least
/// one field, as `str::split` yields.
pub open spec fn split_raw(s: Seq<char>, sep: char) -> Seq<Seq<char>>
    decreases s.len(),
{
    if s.len() == 0 {
        seq![Seq::<char>::empty()]
    } else if s[0] == sep {
        seq![Seq::<char>::empty()] + split_raw(s.drop_first(), sep)
    } else {
        let rest = split_raw(s.drop_first(), sep);
        seq![seq![s[0]] + rest[0]] + rest.drop_first()
    }
}

/// The fields with the empty ones removed.
pub open spec fn drop_empty(fields: Seq<Seq<char>>) -> Seq<Seq<char>>
    decreases fields.len(),
{
    if fields.len() == 0 {
        Seq::empty()
    } else if fields[0].len() == 0 {
        drop_empty(fields.drop_first())
    } else {
        seq![fields[0]] + drop_empty(fields.drop_first())
    }
}

/// The non-empty fields of `s` split on `sep`.
pub open spec fn split_tokens(s: Seq<char>, sep: char) -> Seq<Seq<char>> {
    drop_empty(split_raw(s, sep))
}

pub proof fn lemma_split_raw_len(s: Seq<char>, sep: char)
    ensures
        split_raw(s, sep).len() >= 1,
    decreases s.len(),
{
    if s.len() > 0 {
        lemma_split_raw_len(s.drop_first(), sep);
    }
}

pub proof fn lemma_drop_empty_concat(a: Seq<Seq<char>>, b: Seq<Seq<char>>)
    ensures
        drop_empty(a + b) == drop_empty(a) + drop_empty(b),
    decreases a.len(),
{
    if a.len() == 0 {
        assert(a + b =~= b);
        assert(drop_empty(a) + drop_empty(b) =~= drop_empty(b));
    } else {
        assert((a + b).drop_first() =~= a.drop_first() + b);
        lemma_drop_empty_concat(a.drop_first(), b);
        if a[0].len() != 0 {
            assert(seq![a[0]] + (drop_empty(a.drop_first()) + drop_empty(b)) =~= (seq![a[0]]
                + drop_empty(a.drop_first())) + drop_empty(b));
        }
    }
}

/// Every field that survives `drop_empty` is non-empty.
pub proof fn lemma_drop_empty_nonempty(ts: Seq<Seq<char>>)
    ensures
        forall|j: int| 0 <= j < drop_empty(ts).len() ==> (#[trigger] drop_empty(ts)[j]).len() > 0,
    decreases ts.len(),
{
    if ts.len() > 0 {
        lemma_drop_empty_nonempty(ts.drop_first());
        assert forall|j: int|
            0 <= j < drop_empty(ts).len() implies (#[trigger] drop_empty(ts)[j]).len() > 0 by {
            if ts[0].len() == 0 {
                assert(drop_empty(ts)[j] == drop_empty(ts.drop_first())[j]);
            } else if j == 0 {
                assert(drop_empty(ts)[0] == ts[0]);
            } else {
                assert(drop_empty(ts)[j] == drop_empty(ts.drop_first())[j - 1]);
            }
        }
    }
}

/// Splitting a separator-free field, a separator, and a remainder yields the
/// field followed by the split of the remainder.
pub proof fn lemma_split_raw_field(a: Seq<char>, b: Seq<char>, sep: char)
    requires
        forall|i: int| 0 <= i < a.len() ==> a[i] != sep,
    ensures
        split_raw(a + seq![sep] + b, sep) == seq![a] + split_raw(b, sep),
    decreases a.len(),
{
    if a.len() == 0 {
        let s = a + seq![sep] + b;
        assert(s[0] == sep);
        assert(s.drop_first() =~= b);
        assert(a =~= Seq::<char>::empty());
        assert(split_raw(s, sep) =~= seq![a] + split_raw(b, sep));
    } else {
        let s = a + seq![sep] + b;
        assert(s[0] == a[0]);
        assert(s.drop_first() =~= a.drop_first() + seq![sep] + b);
        lemma_split_raw_field(a.drop_first(), b, sep);
        let rest = split_raw(s.drop_first(), sep);
        assert(rest[0] == a.drop_first());
        assert(seq![a[0]] + rest[0] =~= a);
        assert(rest.drop_first() =~= split_raw(b, sep));
        assert(split_raw(s, sep) =~= seq![a] + split_raw(b, sep));
    }
}

/// Dropping empties from a single field keeps it exactly when it is non-empty.
pub proof fn lemma_drop_empty_single(t: Seq<char>)
    ensures
        drop_empty(seq![t]) == if t.len() == 0 {
            Seq::<Seq<char>>::empty()
        } else {
            seq![t]
        },
{
    assert(seq![t].drop_first() =~= Seq::<Seq<char>>::empty());
    assert(drop_empty(Seq::<Seq<char>>::empty()) =~= Seq::<Seq<char>>::empty());
    if t.len() != 0 {
        assert(drop_empty(seq![t]) =~= seq![t]);
    }
}

/// Splitting a separator-free sequence yields that sequence as the one field.
pub proof fn lemma_split_raw_whole(s: Seq<char>, sep: char)
    requires
        forall|i: int| 0 <= i < s.len() ==> s[i] != sep,
    ensures
        split_raw(s, sep) == seq![s],
    decreases s.len(),
{
    if s.len() == 0 {
        assert(s =~= Seq::<char>::empty());
        assert(split_raw(s, sep) =~~= seq![s]);
    } else {
        lemma_split_raw_whole(s.drop_first(), sep);
        let rest = split_raw(s.drop_first(), sep);
        assert(rest[0] == s.drop_first());
        assert(rest.drop_first() =~= Seq::<Seq<char>>::empty());
        assert(seq![s[0]] + s.drop_first() =~= s);
        assert(split_raw(s, sep) =~~= seq![s]);
    }
}

/// The characters of `s`, one element per `char`.
pub fn chars_of(s: &str) -> (r: Vec<char>)
    ensures
        r@ == s@,
{
    let n = s.unicode_len();
    let mut r: Vec<char> = Vec::new();
    for i in 0..n
        invariant
            n == s@.len(),
            r@ =~= s@.take(i as int),
    {
        r.push(s.get_char(i));
        assert(r@ =~= s@.take(i + 1));
    }
    assert(r@ =~= s@);
    r
}

/// All fields of `s` split on `sep`, from index `from` on.
fn split_raw_from(s: &Vec<char>, sep: char, from: usize) -> (r: Vec<Vec<char>>)
    requires
        from <= s@.len(),
    ensures
        r@.len() == split_raw(s@.skip(from as int), sep).len(),
        forall|j: int|
            0 <= j < r@.len() ==> r@[j]@ == split_raw(s@.skip(from as int), sep)[j],
    decreases s@.len() - from,
{
    let ghost tail = s@.skip(from as int);
    if from == s.len() {
        assert(tail =~= Seq::<char>::empty());
        let mut r: Vec<Vec<char>> = Vec::new();
        r.push(Vec::new());
        r
    } else {
        proof {
            assert(tail[0] == s@[from as int]);
            assert(tail.drop_first() =~= s@.skip(from as int + 1));
        }
        let mut r = split_raw_from(s, sep, from + 1);
        proof {
            lemma_split_raw_len(s@.skip(from as int + 1), sep);
        }
        if s[from] == sep {
            r.insert(0, Vec::new());
            r
        } else {
            let mut first = r.remove(0);
            first.insert(0, s[from]);
            assert(first@ =~= seq![s@[from as int]] + split_raw(s@.skip(from as int + 1), sep)[0]);
            r.insert(0, first);
            r
        }
    }
}

/// All fields of `s` split on `sep`, empty fields included.
pub fn split_fields(s: &Vec<char>, sep: char) -> (r: Vec<Vec<char>>)
    ensures
        r@.len() == split_raw(s@, sep).len(),
        forall|j: int| 0 <= j < r@.len() ==> r@[j]@ == split_raw(s@, sep)[j],
        r@.len() >= 1,
{
    proof {
        assert(s@.skip(0) =~= s@);
        lemma_split_raw_len(s@, sep);
    }
    split_raw_from(s, sep, 0)
}

/// The non-empty fields of `s` split on `sep`.
pub fn split_nonempty(s: &Vec<char>, sep: char) -> (r: Vec<Vec<char>>)
    ensures
        r@.len() == split_tokens(s@, sep).len(),
        forall|j: int| 0 <= j < r@.len() ==> (#[trigger] r@[j])@ == split_tokens(s@, sep)[j],
{
    let fields = split_fields(s, sep);
    let ghost all = split_raw(s@, sep);
    let mut r: Vec<Vec<char>> = Vec::new();
    let n = fields.len();
    proof {
        assert(all.take(0) =~= Seq::<Seq<char>>::empty());
        assert(drop_empty(all.take(0)) =~= Seq::<Seq<char>>::empty());
    }
    for k in 0..n
        invariant
            n == fields@.len(),
            all.len() == fields@.len(),
            forall|j: int| 0 <= j < n ==> fields@[j]@ == all[j],
            r@.len() == drop_empty(all.take(k as int)).len(),
            forall|j: int|
                0 <= j < r@.len() ==> (#[trigger] r@[j])@ == drop_empty(all.take(k as int))[j],
    {
        let ghost r0 = r@;
        let ghost prev = drop_empty(all.take(k as int));
        proof {
            assert(all.take(k + 1) =~= all.take(k as int) + seq![all[k as int]]);
            lemma_drop_empty_concat(all.take(k as int), seq![all[k as int]]);
            lemma_drop_empty_single(all[k as int]);
            assert(fields@[k as int]@ == all[k as int]);
            if all[k as int].len() == 0 {
                assert(prev + Seq::<Seq<char>>::empty() =~= prev);
            }
        }
        if fields[k].len() > 0 {
            let mut tok: Vec<char> = Vec::new();
            let m = fields[k].len();
            for t in 0..m
                invariant
                    n == fields@.len(),
                    k < n,
                    m == fields@[k as int]@.len(),
                    tok@ =~= fields@[k as int]@.take(t as int),
            {
                tok.push(fields[k][t]);
                assert(tok@ =~= fields@[k as int]@.take(t + 1));
            }
            assert(tok@ =~= fields@[k as int]@);
            let ghost tokv = tok@;
            r.push(tok);
            proof {
                assert(drop_empty(all.take(k + 1)) == prev + seq![all[k as int]]);
                assert(r@ == r0.push(tok));
                assert(r@.len() == prev.len() + 1);
                assert(r@[prev.len() as int]@ == tokv);
                assert((prev + seq![all[k as int]])[prev.len() as int] == all[k as int]);
            }
        } else {
            proof {
                assert(drop_empty(all.take(k + 1)) == prev);
            }
        }
        assert(r@.len() == drop_empty(all.take(k + 1)).len());
        assert forall|j: int|
            0 <= j < r@.len() implies (#[trigger] r@[j])@ == drop_empty(all.take(k + 1))[j] by {
            if j < prev.len() {
                assert(r@[j] == r0[j]);
                assert(r0[j]@ == prev[j]);
                assert(drop_empty(all.take(k + 1))[j] == prev[j]);
            } else {
                assert(r@[j]@ == all[k as int]);
                assert(drop_empty(all.take(k + 1))[j] == all[k as int]);
            }
        }
    }
    assert(all.take(n as int) =~= all);
    r
}

/// `s` with every trailing `c` removed.
pub open spec fn spec_trim_trailing(s: Seq<char>, c: char) -> Seq<char>
    decreases s.len(),
{
    if s.len() > 0 && s.last() == c {
        spec_trim_trailing(s.drop_last(), c)
    } else {
        s
    }
}

// ---------------------------------------------------------------------------
// Decimal numbers
// ---------------------------------------------------------------------------
pub open spec fn is_dec_digit(c: char) -> bool {
    '0' <= c && c <= '9'
}

pub open spec fn digit_val(c: char) -> int {
    c as int - 48
}

pub open spec fn all_digits(s: Seq<char>) -> bool {
    forall|i: int| 0 <= i < s.len() ==> is_dec_digit(#[trigger] s[i])
}

/// The value of a sequence of decimal digits, most significant first.
pub open spec fn dec_val(s: Seq<char>) -> int
    decreases s.len(),
{
    if s.len() == 0 {
        0
    } else {
        dec_val(s.drop_last()) * 10 + digit_val(s.last())
    }
}

pub proof fn lemma_dec_val_nonneg(s: Seq<char>)
    requires
        all_digits(s),
    ensures
        dec_val(s) >= 0,
    decreases s.len(),
{
    if s.len() > 0 {
        assert(all_digits(s.drop_last())) by {
            assert(forall|i: int|
                0 <= i < s.len() - 1 ==> s.drop_last()[i] == #[trigger] s[i]);
        }
        lemma_dec_val_nonneg(s.drop_last());
    }
}

/// A digit sequence is worth at least its prefix.
pub proof fn lemma_dec_val_prefix(s: Seq<char>, i: int)
    requires
        all_digits(s),
        0 <= i <= s.len(),
    ensures
        dec_val(s.take(i)) <= dec_val(s),
    decreases s.len() - i,
{
    if i < s.len() {
        lemma_dec_val_prefix(s, i + 1);
        let p = s.take(i + 1);
        assert(p.drop_last() =~= s.take(i));
        assert(p.last() == s[i]);
        assert(forall|j: int| 0 <= j < i ==> s.take(i)[j] == #[trigger] s[j]);
        lemma_dec_val_nonneg(s.take(i));
        assert(dec_val(s.take(i)) <= dec_val(s.take(i)) * 10 + digit_val(s[i]));
    } else {
        assert(s.take(i) =~= s);
    }
}

/// Reads a decimal number: `Some` exactly on non-empty all-digit sequences
/// whose value fits in `u32`.
pub fn parse_u32(s: &Vec<char>) -> (r: Option<u32>)
    ensures
        r is Some <==> s@.len() > 0 && all_digits(s@) && dec_val(s@) <= u32::MAX,
        r is Some ==> r->Some_0 == dec_val(s@),
{
    if s.len() == 0 {
        return None;
    }
    let mut acc: u64 = 0;
    let n = s.len();
    for i in 0..n
        invariant
            n == s@.len(),
            acc == dec_val(s@.take(i as int)),
            acc <= u32::MAX,
            all_digits(s@.take(i as int)),
    {
        let c = s[i];
        if c < '0' || c > '9' {
            proof {
                assert(!is_dec_digit(s@[i as int]));
            }
            return None;
        }
        let d: u64 = (c as u32 as u64) - 48;
        proof {
            assert(s@.take(i + 1).drop_last() =~= s@.take(i as int));
            assert(s@.take(i + 1).last() == s@[i as int]);
            assert(forall|j: int|
                0 <= j < i + 1 ==> is_dec_digit(#[trigger] s@.take(i + 1)[j]));
        }
        let next: u64 = acc * 10 + d;
        if next > 0xffff_ffff {
            proof {
                if all_digits(s@) {
                    lemma_dec_val_prefix(s@, i + 1);
                }
            }
            return None;
        }
        acc = next;
    }
    assert(s@.take(n as int) =~= s@);
    Some(acc as u32)
}

/// Reads a decimal number into `u16`.
pub fn parse_u16(s: &Vec<char>) -> (r: Option<u16>)
    ensures
        r is Some <==> s@.len() > 0 && all_digits(s@) && dec_val(s@) <= u16::MAX,
        r is Some ==> r->Some_0 == dec_val(s@),
{
    match parse_u32(s) {
        Some(v) => if v <= 0xffff {
            Some(v as u16)
        } else {
            None
        },
        None => None,
    }
}

/// Reads a decimal number into `u8`.
pub fn parse_u8(s: &Vec<char>) -> (r: Option<u8>)
    ensures
        r is Some <==> s@.len() > 0 && all_digits(s@) && dec_val(s@) <= u8::MAX,
        r is Some ==> r->Some_0 == dec_val(s@),
{
    match parse_u32(s) {
        Some(v) => if v <= 0xff {
            Some(v as u8)
        } else {
            None
        },
        None => None,
    }
}

/// The value of an optionally `-`-signed digit sequence.
pub open spec fn signed_dec_val(s: Seq<char>) -> int {
    if s.len() > 0 && s[0] == '-' {
        -dec_val(s.drop_first())
    } else {
        dec_val(s)
    }
}

/// True when `s` is a well-formed optionally signed decimal numeral.
pub open spec fn is_signed_numeral(s: Seq<char>) -> bool {
    if s.len() > 0 && s[0] == '-' {
        s.len() > 1 && all_digits(s.drop_first())
    } else {
        s.len() > 0 && all_digits(s)
    }
}

/// Reads an optionally signed decimal number into `i16`.
pub fn parse_i16(s: &Vec<char>) -> (r: Option<i16>)
    ensures
        r is Some <==> is_signed_numeral(s@) && i16::MIN <= signed_dec_val(s@) <= i16::MAX,
        r is Some ==> r->Some_0 == signed_dec_val(s@),
{
    if s.len() == 0 {
        return None;
    }
    if s[0] == '-' {
        let mut digits: Vec<char> = Vec::new();
        let n = s.len();
        for i in 1..n
            invariant
                n == s@.len(),
                n >= 1,
                digits@ =~= s@.drop_first().take(i - 1),
        {
            digits.push(s[i]);
            assert(digits@ =~= s@.drop_first().take(i as int));
        }
        assert(digits@ =~= s@.drop_first());
        match parse_u32(&digits) {
            Some(v) => if v <= 0x8000 {
                Some((-(v as i32)) as i16)
            } else {
                None
            },
            None => None,
        }
    } else {
        proof {
            if s@.len() > 0 && all_digits(s@) {
                lemma_dec_val_nonneg(s@);
            }
        }
        match parse_u32(s) {
            Some(v) => if v <= 0x7fff {
                Some(v as i16)
            } else {
                None
            },
            None => None,
        }
    }
}

/// The character of one decimal digit.
pub open spec fn digit_chr(d: int) -> char {
    if d == 0 {
        '0'
    } else if d == 1 {
        '1'
    } else if d == 2 {
        '2'
    } else if d == 3 {
        '3'
    } else if d == 4 {
        '4'
    } else if d == 5 {
        '5'
    } else if d == 6 {
        '6'
    } else if d == 7 {
        '7'
    } else if d == 8 {
        '8'
    } else {
        '9'
    }
}

/// The canonical decimal numeral of `n`: no leading zero except for `0` itself.
pub open spec fn dec_digits(n: int) -> Seq<char>
    decreases n,
{
    if n < 10 {
        seq![digit_chr(n)]
    } else {
        dec_digits(n / 10).push(digit_chr(n % 10))
    }
}

pub proof fn lemma_dec_digits_shape(n: int)
    requires
        n >= 0,
    ensures
        dec_digits(n).len() >= 1,
        all_digits(dec_digits(n)),
        dec_val(dec_digits(n)) == n,
        dec_digits(n)[0] != '0' || n < 10,
    decreases n,
{
    if n < 10 {
        assert(seq![digit_chr(n)].drop_last() =~= Seq::<char>::empty());
        assert(dec_val(Seq::<char>::empty()) == 0);
        assert(dec_val(dec_digits(n)) == digit_val(digit_chr(n)));
    } else {
        lemma_dec_digits_shape(n / 10);
        let s = dec_digits(n);
        assert(s.drop_last() =~= dec_digits(n / 10));
        assert(s.last() == digit_chr(n % 10));
        assert(dec_val(s) == (n / 10) * 10 + (n % 10));
        assert((n / 10) * 10 + (n % 10) == n) by (nonlinear_arith)
            requires n >= 0;
        assert(s[0] == dec_digits(n / 10)[0]);
        assert(dec_digits(n / 10)[0] != '0') by {
            if n / 10 < 10 {
                assert(n / 10 >= 1);
                assert(dec_digits(n / 10)[0] == digit_chr(n / 10));
            }
        }
        assert(forall|i: int| 0 <= i < s.len() ==> is_dec_digit(#[trigger] s[i])) by {
            assert(forall|i: int|
                0 <= i < s.len() - 1 ==> s[i] == #[trigger] dec_digits(n / 10)[i]);
        }
    }
}

/// One decimal digit as a string slice.
pub fn digit_str(d: u8) -> (r: &'static str)
    requires
        d <= 9,
    ensures
        r@ == seq![digit_chr(d as int)],
{
    proof {
        reveal_strlit("0");
        reveal_strlit("1");
        reveal_strlit("2");
        reveal_strlit("3");
        reveal_strlit("4");
        reveal_strlit("5");
        reveal_strlit("6");
        reveal_strlit("7");
        reveal_strlit("8");
        reveal_strlit("9");
    }
    let r = match d {
        0 => "0",
        1 => "1",
        2 => "2",
        3 => "3",
        4 => "4",
        5 => "5",
        6 => "6",
        7 => "7",
        8 => "8",
        _ => "9",
    };
    assert(r@ =~= seq![digit_chr(d as int)]);
    r
}

/// Appends the canonical decimal numeral of `n` to `out`.
pub fn append_dec_u16(out: &mut String, n: u16)
    ensures
        final(out)@ == old(out)@ + dec_digits(n as int),
    decreases n,
{
    if n < 10 {
        out.append(digit_str(n as u8));
    } else {
        append_dec_u16(out, n / 10);
        out.append(digit_str((n % 10) as u8));
        assert(old(out)@ + dec_digits((n / 10) as int) + seq![digit_chr((n % 10) as int)]
            =~= old(out)@ + dec_digits(n as int));
    }
}

/// Relies on String::from_iter over `char`: the string holds exactly the
/// characters of the vector, in order.
#[verifier::external_body]
pub fn string_from_chars(v: &Vec<char>) -> (r: String)
    ensures
        r@ == v@,
{
    v.iter().collect()
}

/// Whether a character vector spells a given string slice.
pub fn chars_eq(a: &Vec<char>, b: &str) -> (r: bool)
    ensures
        r == (a@ == b@),
{
    let nb = b.unicode_len();
    if a.len() != nb {
        return false;
    }
    for i in 0..nb
        invariant
            nb == b@.len(),
            nb == a@.len(),
            forall|j: int| 0 <= j < i ==> a@[j] == b@[j],
    {
        if a[i] != b.get_char(i) {
            return false;
        }
    }
    proof {
        assert(a@ =~= b@);
    }
    true
}

/// Whether two string slices hold the same characters.
pub fn str_eq(a: &str, b: &str) -> (r: bool)
    ensures
        r == (a@ == b@),
{
    let na = a.unicode_len();
    let nb = b.unicode_len();
    if na != nb {
        return false;
    }
    for i in 0..na
        invariant
            na == a@.len(),
            na == b@.len(),
            forall|j: int| 0 <= j < i ==> a@[j] == b@[j],
    {
        if a.get_char(i) != b.get_char(i) {
            return false;
        }
    }
    proof {
        assert(a@ =~= b@);
    }
    true
}

} // verus!
