//! Text helpers for the tab-separated record format: splitting on tabs, and
//! decimal identifiers.
use vstd::prelude::*;

verus! {

/// The field delimiter of a record line.
pub const TAB: char = '\t';

/// The fields of `s` between tab characters, in order: one more field than
/// there are tabs, empty fields included.
pub open spec fn split_tabs(s: Seq<char>) -> Seq<Seq<char>>
    decreases s.len(),
{
    if s.len() == 0 {
        seq![Seq::empty()]
    } else {
        let prev = split_tabs(s.drop_last());
        if s.last() == TAB {
            prev.push(Seq::empty())
        } else {
            prev.update(prev.len() - 1, prev.last().push(s.last()))
        }
    }
}

pub proof fn lemma_split_tabs_nonempty(s: Seq<char>)
    ensures
        split_tabs(s).len() >= 1,
    decreases s.len(),
{
    if s.len() > 0 {
        lemma_split_tabs_nonempty(s.drop_last());
    }
}

/// A text without tabs is a single field.
pub proof fn lemma_split_tabs_no_tab(s: Seq<char>)
    requires
        !s.contains(TAB),
    ensures
        split_tabs(s) == seq![s],
    decreases s.len(),
{
    if s.len() > 0 {
        let t = s.drop_last();
        assert(!t.contains(TAB)) by {
            if t.contains(TAB) {
                let i = choose|i: int| 0 <= i < t.len() && t[i] == TAB;
                assert(s[i] == TAB);
            }
        }
        lemma_split_tabs_no_tab(t);
        assert(s.last() != TAB) by {
            assert(s[s.len() - 1] == s.last());
        }
        assert(t.push(s.last()) =~= s);
        assert(split_tabs(s) =~= seq![s]);
    } else {
        assert(s =~= Seq::<char>::empty());
    }
}

/// Joining two texts with a tab joins their field lists.
pub proof fn lemma_split_tabs_join(a: Seq<char>, b: Seq<char>)
    ensures
        split_tabs(a + seq![TAB] + b) == split_tabs(a) + split_tabs(b),
    decreases b.len(),
{
    let s = a + seq![TAB] + b;
    lemma_split_tabs_nonempty(a);
    if b.len() == 0 {
        assert(s.drop_last() =~= a);
        assert(split_tabs(b) =~= seq![Seq::empty()]);
        assert(split_tabs(s) =~= split_tabs(a) + split_tabs(b));
    } else {
        let b0 = b.drop_last();
        lemma_split_tabs_join(a, b0);
        lemma_split_tabs_nonempty(b0);
        assert(s.drop_last() =~= a + seq![TAB] + b0);
        assert(s.last() == b.last());
        assert(split_tabs(s) =~= split_tabs(a) + split_tabs(b));
    }
}

/// Splits `s` at every tab character.
pub(crate) fn split_on_tabs(s: &str) -> (r: Vec<&str>)
    ensures
        r@.map_values(|f: &str| f@) == split_tabs(s@),
{
    let n = s.unicode_len();
    let mut fields: Vec<&str> = Vec::new();
    let mut start: usize = 0;
    let mut i: usize = 0;
    assert(s@.take(0) =~= Seq::<char>::empty());
    assert(fields@.map_values(|f: &str| f@).push(s@.subrange(0, 0)) =~= split_tabs(s@.take(0)));
    while i < n
        invariant
            n == s@.len(),
            start <= i <= n,
            fields@.map_values(|f: &str| f@).push(s@.subrange(start as int, i as int))
                == split_tabs(s@.take(i as int)),
        decreases n - i,
    {
        let c = s.get_char(i);
        let ghost prev = split_tabs(s@.take(i as int));
        assert(s@.take(i + 1).drop_last() =~= s@.take(i as int));
        assert(s@.take(i + 1).last() == c);
        if c == TAB {
            let ghost f = fields@.map_values(|f: &str| f@);
            let field = s.substring_char(start, i);
            fields.push(field);
            assert(fields@.map_values(|f: &str| f@) =~= f.push(field@));
            start = i + 1;
            assert(s@.subrange(start as int, i + 1) =~= Seq::<char>::empty());
            assert(fields@.map_values(|f: &str| f@).push(s@.subrange(start as int, i + 1))
                =~= split_tabs(s@.take(i + 1)));
        } else {
            assert(s@.subrange(start as int, i + 1) =~= s@.subrange(start as int, i as int).push(c));
            let ghost f = fields@.map_values(|f: &str| f@);
            let ghost cur = s@.subrange(start as int, i as int);
            assert(f.push(cur).update(f.len() as int, cur.push(c)) =~= f.push(cur.push(c)));
            assert(fields@.map_values(|f: &str| f@).push(s@.subrange(start as int, i + 1))
                =~= split_tabs(s@.take(i + 1)));
        }
        i = i + 1;
    }
    fields.push(s.substring_char(start, n));
    assert(s@.take(n as int) =~= s@);
    assert(fields@.map_values(|f: &str| f@) =~= split_tabs(s@));
    fields
}

pub open spec fn is_digit(c: char) -> bool {
    '0' <= c && c <= '9'
}

pub open spec fn digit_value(c: char) -> nat {
    (c as u32 - '0' as u32) as nat
}

pub open spec fn all_digits(s: Seq<char>) -> bool {
    forall|i: int| 0 <= i < s.len() ==> is_digit(#[trigger] s[i])
}

/// The number that the decimal digits `s` spell.
pub open spec fn digits_value(s: Seq<char>) -> nat
    decreases s.len(),
{
    if s.len() == 0 {
        0
    } else {
        digits_value(s.drop_last()) * 10 + digit_value(s.last())
    }
}

/// What `str::parse::<usize>` gives: an optional `+`, then one or more
/// decimal digits whose value fits in `usize`.
pub open spec fn parse_usize(s: Seq<char>) -> Option<usize> {
    let digits = if s.len() > 0 && s[0] == '+' {
        s.drop_first()
    } else {
        s
    };
    if digits.len() > 0 && all_digits(digits) && digits_value(digits) <= usize::MAX {
        Some(digits_value(digits) as usize)
    } else {
        None
    }
}

/// The character of a decimal digit.
pub open spec fn digit_char(d: nat) -> char {
    if d == 0 {
        '0'
    } else if d == 1 {
        '1'
    } else if d == 2 {
        '2'
    } else if d == 3 {
        '3'
    } else if d == 4 {
        '4'
    } else if d == 5 {
        '5'
    } else if d == 6 {
        '6'
    } else if d == 7 {
        '7'
    } else if d == 8 {
        '8'
    } else {
        '9'
    }
}

/// The decimal digits of `n`, without leading zeros.
pub open spec fn decimal(n: nat) -> Seq<char>
    decreases n,
{
    if n < 10 {
        seq![digit_char(n)]
    } else {
        decimal(n / 10).push(digit_char(n % 10))
    }
}

proof fn lemma_digits_value_prefix(s: Seq<char>, k: int)
    requires
        0 <= k <= s.len(),
    ensures
        digits_value(s.take(k)) <= digits_value(s),
    decreases s.len(),
{
    if k < s.len() {
        lemma_digits_value_prefix(s.drop_last(), k);
        assert(s.drop_last().take(k) =~= s.take(k));
    } else {
        assert(s.take(k) =~= s);
    }
}

/// The decimal digits of `n` parse back to `n`.
pub proof fn lemma_decimal_parses(n: nat)
    ensures
        decimal(n).len() > 0,
        all_digits(decimal(n)),
        is_digit(decimal(n)[0]),
        digits_value(decimal(n)) == n,
    decreases n,
{
    lemma_digit_char(n % 10);
    if n >= 10 {
        lemma_decimal_parses(n / 10);
        let d = decimal(n);
        assert(d.drop_last() =~= decimal(n / 10));
        assert(d[0] == decimal(n / 10)[0]);
        assert(d.last() == digit_char(n % 10));
        assert(digits_value(d) == digits_value(decimal(n / 10)) * 10 + digit_value(d.last()));
        assert(n == (n / 10) * 10 + n % 10);
    } else {
        let d = decimal(n);
        assert(d.drop_last() =~= Seq::<char>::empty());
        assert(d.last() == digit_char(n));
        assert(digits_value(d) == digits_value(d.drop_last()) * 10 + digit_value(d.last()));
    }
}

proof fn lemma_digit_char(d: nat)
    requires
        d < 10,
    ensures
        is_digit(digit_char(d)),
        digit_value(digit_char(d)) == d,
{
}

/// The value of `s` read as an identifier, as `str::parse::<usize>` reads it.
pub(crate) fn parse_id(s: &str) -> (r: Option<usize>)
    ensures
        r == parse_usize(s@),
{
    let n = s.unicode_len();
    let i_start: usize = if n > 0 && s.get_char(0) == '+' {
        1
    } else {
        0
    };
    let mut i: usize = i_start;
    let ghost digits = if s@.len() > 0 && s@[0] == '+' {
        s@.drop_first()
    } else {
        s@
    };
    assert(digits =~= s@.skip(i as int));
    if i_start == n {
        return None;
    }
    let mut value: usize = 0;
    assert(digits.take(0) =~= Seq::<char>::empty());
    while i < n
        invariant
            n == s@.len(),
            digits =~= s@.skip(i_start as int),
            digits == (if s@.len() > 0 && s@[0] == '+' {
                s@.drop_first()
            } else {
                s@
            }),
            i_start <= i <= n,
            all_digits(digits.take(i - i_start)),
            value == digits_value(digits.take(i - i_start)),
        decreases n - i,
    {
        let c = s.get_char(i);
        let ghost k = i - i_start;
        assert(digits.take(k + 1).drop_last() =~= digits.take(k));
        assert(digits.take(k + 1).last() == c);
        if !('0' <= c && c <= '9') {
            assert(!all_digits(digits)) by {
                assert(digits[k] == c);
            }
            return None;
        }
        let d = (c as u32 - '0' as u32) as usize;
        match value.checked_mul(10) {
            Some(v) => match v.checked_add(d) {
                Some(w) => {
                    value = w;
                },
                None => {
                    proof {
                        lemma_digits_value_prefix(digits, k + 1);
                    }
                    return None;
                },
            },
            None => {
                proof {
                    lemma_digits_value_prefix(digits, k + 1);
                }
                return None;
            },
        }
        i = i + 1;
    }
    assert(digits.take(n - i_start) =~= digits);
    Some(value)
}

/// The one-character text of the decimal digit `d`.
fn digit_text(d: usize) -> (r: &'static str)
    requires
        d < 10,
    ensures
        r@ == seq![digit_char(d as nat)],
{
    if d == 0 {
        proof {
            reveal_strlit("0");
        }
        "0"
    } else if d == 1 {
        proof {
            reveal_strlit("1");
        }
        "1"
    } else if d == 2 {
        proof {
            reveal_strlit("2");
        }
        "2"
    } else if d == 3 {
        proof {
            reveal_strlit("3");
        }
        "3"
    } else if d == 4 {
        proof {
            reveal_strlit("4");
        }
        "4"
    } else if d == 5 {
        proof {
            reveal_strlit("5");
        }
        "5"
    } else if d == 6 {
        proof {
            reveal_strlit("6");
        }
        "6"
    } else if d == 7 {
        proof {
            reveal_strlit("7");
        }
        "7"
    } else if d == 8 {
        proof {
            reveal_strlit("8");
        }
        "8"
    } else {
        proof {
            reveal_strlit("9");
        }
        "9"
    }
}

/// The decimal text of `n`, as `usize`'s `Display` writes it.
pub(crate) fn decimal_text(n: usize) -> (r: String)
    ensures
        r@ == decimal(n as nat),
    decreases n,
{
    if n < 10 {
        String::from_str(digit_text(n))
    } else {
        let high = decimal_text(n / 10);
        high.concat(digit_text(n % 10))
    }
}

} // verus!
