use vstd::prelude::*;

verus! {

/// The character of a decimal digit `d` (`d < 10`).
pub open spec fn digit_char(d: nat) -> char {
    if d == 0 {
        '0'
    } else if d == 1 {
        '1'
    } else if d == 2 {
        '2'
    } else if d == 3 {
        '3'
    } else if d == 4 {
        '4'
    } else if d == 5 {
        '5'
    } else if d == 6 {
        '6'
    } else if d == 7 {
        '7'
    } else if d == 8 {
        '8'
    } else {
        '9'
    }
}

/// The value of a decimal digit character, or -1 for any other character.
pub open spec fn digit_value(c: char) -> int {
    if c == '0' {
        0
    } else if c == '1' {
        1
    } else if c == '2' {
        2
    } else if c == '3' {
        3
    } else if c == '4' {
        4
    } else if c == '5' {
        5
    } else if c == '6' {
        6
    } else if c == '7' {
        7
    } else if c == '8' {
        8
    } else if c == '9' {
        9
    } else {
        -1
    }
}

pub open spec fn is_digit(c: char) -> bool {
    digit_value(c) >= 0
}

/// The shortest decimal spelling of `n`.
pub open spec fn decimal(n: nat) -> Seq<char>
    decreases n,
{
    if n < 10 {
        seq![digit_char(n)]
    } else {
        decimal(n / 10).push(digit_char(n % 10))
    }
}

/// The number that a sequence of digit characters spells.
pub open spec fn value_of(s: Seq<char>) -> nat
    decreases s.len(),
{
    if s.len() == 0 {
        0
    } else {
        value_of(s.drop_last()) * 10 + digit_value(s.last()) as nat
    }
}

/// Digits only, at least one, and no leading zero.
pub open spec fn canonical_decimal(s: Seq<char>) -> bool {
    &&& s.len() > 0
    &&& forall|i: int| 0 <= i < s.len() ==> is_digit(#[trigger] s[i])
    &&& (s.len() == 1 || s[0] != '0')
}

pub proof fn lemma_decimal_canonical(n: nat)
    ensures
        canonical_decimal(decimal(n)),
        value_of(decimal(n)) == n,
        decimal(n)[0] != '0' || n == 0,
    decreases n,
{
    if n >= 10 {
        lemma_decimal_canonical(n / 10);
        let p = decimal(n / 10);
        assert(decimal(n).drop_last() == p);
        assert(decimal(n)[0] == p[0]);
        assert(digit_value(digit_char(n % 10)) == n % 10);
        assert(n == (n / 10) * 10 + n % 10);
        assert(decimal(n).last() == digit_char(n % 10));
        assert(decimal(n).len() > 0);
        assert(value_of(decimal(n)) == value_of(p) * 10 + digit_value(digit_char(n % 10)) as nat);
    } else {
        assert(decimal(n).drop_last().len() == 0);
        assert(value_of(decimal(n).drop_last()) == 0);
        assert(decimal(n).last() == digit_char(n));
        assert(value_of(decimal(n)) == digit_value(digit_char(n)) as nat);
    }
}

pub proof fn lemma_canonical_spells_value(s: Seq<char>)
    requires
        canonical_decimal(s),
    ensures
        decimal(value_of(s)) == s,
    decreases s.len(),
{
    if s.len() == 1 {
        assert(value_of(s.drop_last()) == 0);
        assert(decimal(value_of(s)) =~= s);
    } else {
        let p = s.drop_last();
        assert(p[0] == s[0]);
        assert(canonical_decimal(p)) by {
            assert forall|i: int| 0 <= i < p.len() implies is_digit(#[trigger] p[i]) by {
                assert(p[i] == s[i]);
            }
        }
        lemma_canonical_spells_value(p);
        let a = value_of(p);
        let b = digit_value(s.last()) as nat;
        assert(is_digit(s[s.len() - 1]));
        if a == 0 {
            assert(decimal(0)[0] == '0');
            assert(false);
        }
        assert(a >= 1 && b < 10);
        assert((a * 10 + b) / 10 == a && (a * 10 + b) % 10 == b) by (nonlinear_arith)
            requires
                b < 10,
        ;
        assert(value_of(s) >= 10);
        assert(decimal(value_of(s)) =~= s);
    }
}

pub proof fn lemma_value_of_prefix(s: Seq<char>, k: int)
    requires
        0 <= k <= s.len(),
    ensures
        value_of(s.take(k)) <= value_of(s),
    decreases s.len(),
{
    if k < s.len() {
        assert(s.drop_last().take(k) == s.take(k));
        lemma_value_of_prefix(s.drop_last(), k);
    } else {
        assert(s.take(k) == s);
    }
}

/// A sequence that is not a canonical decimal of at most `u64::MAX` spells no `u64`.
pub proof fn lemma_spells_no_u64(s: Seq<char>)
    requires
        !(canonical_decimal(s) && value_of(s) <= u64::MAX),
    ensures
        forall|v: u64| s != decimal(v as nat),
{
    assert forall|v: u64| s != decimal(v as nat) by {
        lemma_decimal_canonical(v as nat);
    }
}

fn digit_to_char(d: u64) -> (c: char)
    requires
        d < 10,
    ensures
        c == digit_char(d as nat),
{
    if d == 0 {
        '0'
    } else if d == 1 {
        '1'
    } else if d == 2 {
        '2'
    } else if d == 3 {
        '3'
    } else if d == 4 {
        '4'
    } else if d == 5 {
        '5'
    } else if d == 6 {
        '6'
    } else if d == 7 {
        '7'
    } else if d == 8 {
        '8'
    } else {
        '9'
    }
}

fn char_to_digit(c: char) -> (r: Option<u64>)
    ensures
        r is Some <==> is_digit(c),
        r is Some ==> r->Some_0 == digit_value(c),
{
    if c == '0' {
        Some(0)
    } else if c == '1' {
        Some(1)
    } else if c == '2' {
        Some(2)
    } else if c == '3' {
        Some(3)
    } else if c == '4' {
        Some(4)
    } else if c == '5' {
        Some(5)
    } else if c == '6' {
        Some(6)
    } else if c == '7' {
        Some(7)
    } else if c == '8' {
        Some(8)
    } else if c == '9' {
        Some(9)
    } else {
        None
    }
}

/// Writes `n` in decimal.
pub fn decimal_chars(n: u64) -> (r: Vec<char>)
    ensures
        r@ == decimal(n as nat),
    decreases n,
{
    if n < 10 {
        let mut r: Vec<char> = Vec::new();
        r.push(digit_to_char(n));
        assert(r@ =~= decimal(n as nat));
        r
    } else {
        let mut r = decimal_chars(n / 10);
        r.push(digit_to_char(n % 10));
        r
    }
}

/// Reads the decimal number spelled by `s[start..end]`: `Some(v)` exactly
/// when that slice is the shortest decimal spelling of `v`.
pub fn parse_decimal(s: &Vec<char>, start: usize, end: usize) -> (r: Option<u64>)
    requires
        start <= end <= s@.len(),
    ensures
        match r {
            Some(v) => s@.subrange(start as int, end as int) == decimal(v as nat),
            None => forall|v: u64| s@.subrange(start as int, end as int) != decimal(v as nat),
        },
{
    let ghost t = s@.subrange(start as int, end as int);
    if start == end {
        proof {
            lemma_spells_no_u64(t);
        }
        return None;
    }
    if s[start] == '0' && end - start > 1 {
        assert(t[0] == '0');
        proof {
            lemma_spells_no_u64(t);
        }
        return None;
    }
    let mut v: u64 = 0;
    let mut i: usize = start;
    while i < end
        invariant
            start <= i <= end <= s@.len(),
            t == s@.subrange(start as int, end as int),
            v == value_of(t.take(i - start)),
            forall|k: int| 0 <= k < i - start ==> is_digit(#[trigger] t[k]),
        decreases end - i,
    {
        let ghost k = i - start;
        assert(t.take(k + 1).drop_last() == t.take(k));
        assert(t[k] == s@[i as int]);
        match char_to_digit(s[i]) {
            None => {
                assert(!is_digit(t[k]));
                proof {
                    lemma_spells_no_u64(t);
                }
                return None;
            },
            Some(d) => {
                match v.checked_mul(10) {
                    None => {
                        proof {
                            lemma_value_of_prefix(t, k + 1);
                            lemma_spells_no_u64(t);
                        }
                        return None;
                    },
                    Some(m) => match m.checked_add(d) {
                        None => {
                            proof {
                                lemma_value_of_prefix(t, k + 1);
                                lemma_spells_no_u64(t);
                            }
                            return None;
                        },
                        Some(w) => {
                            v = w;
                        },
                    },
                }
            },
        }
        i = i + 1;
    }
    assert(t.take(end - start) == t);
    proof {
        lemma_canonical_spells_value(t);
    }
    Some(v)
}

} // verus!
