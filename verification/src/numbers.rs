//! Decimal numbers that are written and read.

use crate::text;
use vstd::prelude::*;

verus! {

/// The text is made of digits.
pub open spec fn digits(s: Seq<char>) -> bool {
    s.len() > 0 && forall|k: int| 0 <= k < s.len() ==> '0' <= #[trigger] s[k] <= '9'
}

/// A digit is worth its place among the digits.
pub open spec fn worth(c: char) -> int {
    c as int - '0' as int
}

proof fn lemma_digit_char(n: nat)
    requires
        n < 10,
    ensures
        ('0' as u32 + n) as char as u32 == 0x30 + n,
        '0' <= ('0' as u32 + n) as char <= '9',
        worth(('0' as u32 + n) as char) == n,
{
}

proof fn lemma_value_push(s: Seq<char>, c: char)
    ensures
        text::digits_value(s.push(c)) == text::digits_value(s) * 10 + (c as u32 - 0x30) as nat,
{
    assert(s.push(c).drop_last() =~= s);
}

/// A written number is made of digits, without zeros in front, and reads back
/// as the number.
pub proof fn law_numbers_read_back(n: nat)
    ensures
        digits(text::decimal(n)),
        text::digits_value(text::decimal(n)) == n,
        text::decimal(n).len() > 1 ==> text::decimal(n)[0] != '0',
        forall|max: nat| n <= max ==> #[trigger] text::number(text::decimal(n), max) == Some(n),
        forall|max: nat| n > max ==> #[trigger] text::number(text::decimal(n), max) is None,
        forall|max: nat|
            n <= max ==> #[trigger] text::number(seq!['+'] + text::decimal(n), max) == Some(n),
    decreases n,
{
    let s = text::decimal(n);
    if n < 10 {
        lemma_digit_char(n);
        assert(s =~= Seq::<char>::empty().push(('0' as u32 + n) as char));
        lemma_value_push(Seq::empty(), ('0' as u32 + n) as char);
    } else {
        let d = text::decimal(n / 10);
        law_numbers_read_back(n / 10);
        lemma_digit_char(n % 10);
        lemma_value_push(d, ('0' as u32 + n % 10) as char);
        assert forall|k: int| 0 <= k < s.len() implies '0' <= #[trigger] s[k] <= '9' by {
            if k < d.len() {
                assert(s[k] == d[k]);
            }
        }
        assert(s[0] == d[0]);
        if d.len() == 1 {
            reveal_with_fuel(text::decimal, 2);
            if n / 10 < 10 {
                lemma_digit_char(n / 10);
            } else {
                assert(text::decimal(n / 10 / 10).len() >= 1) by {
                    law_numbers_read_back(n / 10 / 10);
                }
            }
        }
    }
    lemma_all_digits(s);
    assert(s[0] != '+');
    assert((seq!['+'] + s).drop_first() =~= s);
}

proof fn lemma_all_digits(s: Seq<char>)
    requires
        digits(s),
    ensures
        text::all_digits(s),
        s[0] != '+',
{
    assert forall|k: int| 0 <= k < s.len() implies 0x30 <= #[trigger] s[k] as u32 <= 0x39 by {
        assert('0' <= s[k] <= '9');
    }
}

/// A number written with zeros in front reads back as the number and has at
/// least the width.
pub proof fn law_padded_numbers_read_back(n: nat, width: nat)
    ensures
        digits(text::padded(n, width)),
        text::digits_value(text::padded(n, width)) == n,
        text::padded(n, width).len() >= width,
        text::padded(n, width).len() > width ==> text::padded(n, width) == text::decimal(n),
    decreases n + width,
{
    let s = text::padded(n, width);
    if n < 10 && width <= 1 {
        lemma_digit_char(n);
        assert(s =~= Seq::<char>::empty().push(('0' as u32 + n) as char));
        lemma_value_push(Seq::empty(), ('0' as u32 + n) as char);
    } else {
        let less = if width > 0 {
            (width - 1) as nat
        } else {
            0
        };
        let d = text::padded(n / 10, less);
        law_padded_numbers_read_back(n / 10, less);
        lemma_digit_char(n % 10);
        lemma_value_push(d, ('0' as u32 + n % 10) as char);
        assert forall|k: int| 0 <= k < s.len() implies '0' <= #[trigger] s[k] <= '9' by {
            if k < d.len() {
                assert(s[k] == d[k]);
            }
        }
        if s.len() > width {
            lemma_padded_short(n / 10, less);
        }
    }
}

proof fn lemma_padded_short(n: nat, width: nat)
    ensures
        width <= 1 ==> text::padded(n, width) == text::decimal(n),
    decreases n,
{
    if width <= 1 && n >= 10 {
        lemma_padded_short(n / 10, 0);
    }
}

/// The value of digits grows tenfold with each digit behind them.
pub proof fn law_digits_count_by_ten(s: Seq<char>, c: char)
    requires
        '0' <= c <= '9',
    ensures
        text::digits_value(s.push(c)) == 10 * text::digits_value(s) + worth(c),
        text::digits_value(Seq::empty()) == 0,
{
    lemma_value_push(s, c);
}

proof fn lemma_point(c: char)
    requires
        0x30 <= c as u32 <= 0x39,
    ensures
        '0' <= c <= '9',
{
}

/// Only digits are a number, with one plus sign in front at most, and none that
/// is too great.
pub proof fn law_only_digits_are_numbers(s: Seq<char>, max: nat)
    ensures
        text::number(s, max) is Some <==> {
            &&& digits(s) && text::digits_value(s) <= max || s.len() > 0 && s[0] == '+' && digits(
                s.drop_first(),
            ) && text::digits_value(s.drop_first()) <= max
        },
        text::number(s, max) matches Some(n) ==> n == text::digits_value(
            if s[0] == '+' {
                s.drop_first()
            } else {
                s
            },
        ),
{
    let d = text::unsigned_digits(s);
    if digits(d) {
        lemma_all_digits(d);
    }
    if d.len() > 0 && text::all_digits(d) {
        assert forall|k: int| 0 <= k < d.len() implies '0' <= #[trigger] d[k] <= '9' by {
            lemma_point(d[k]);
        }
    }
    if digits(s) {
        lemma_all_digits(s);
    }
}

/// What stands between the white space of a text is left of it.
pub proof fn law_white_space_is_trimmed(a: Seq<char>, s: Seq<char>, b: Seq<char>)
    requires
        forall|k: int| 0 <= k < a.len() ==> text::is_space(#[trigger] a[k]),
        forall|k: int| 0 <= k < b.len() ==> text::is_space(#[trigger] b[k]),
        s.len() == 0 || !text::is_space(s[0]) && !text::is_space(s[s.len() - 1]),
    ensures
        text::trimmed(a + s + b) == s,
{
    lemma_front(a, s + b);
    assert(a + (s + b) =~= a + s + b);
    if s.len() == 0 {
        assert(s + b =~= b + Seq::<char>::empty());
        lemma_front(b, Seq::empty());
        assert(text::trimmed_front(b) == Seq::<char>::empty()) by {
            assert(b + Seq::<char>::empty() =~= b);
        }
        lemma_front(a, b);
        assert(a + s + b =~= a + b);
        assert(s =~= Seq::<char>::empty());
    } else {
        assert((s + b)[0] == s[0]);
        lemma_back(s, b);
    }
}

proof fn lemma_front(a: Seq<char>, s: Seq<char>)
    requires
        forall|k: int| 0 <= k < a.len() ==> text::is_space(#[trigger] a[k]),
    ensures
        text::trimmed_front(a + s) == text::trimmed_front(s),
    decreases a.len(),
{
    if a.len() == 0 {
        assert(a + s =~= s);
    } else {
        let d = a.drop_first();
        assert forall|k: int| 0 <= k < d.len() implies text::is_space(#[trigger] d[k]) by {
            assert(text::is_space(a[k + 1]));
        }
        assert((a + s)[0] == a[0]);
        assert((a + s).drop_first() =~= d + s);
        lemma_front(d, s);
    }
}

proof fn lemma_back(s: Seq<char>, b: Seq<char>)
    requires
        s.len() > 0,
        !text::is_space(s[s.len() - 1]),
        forall|k: int| 0 <= k < b.len() ==> text::is_space(#[trigger] b[k]),
    ensures
        text::trimmed_back(s + b) == s,
    decreases b.len(),
{
    if b.len() == 0 {
        assert(s + b =~= s);
    } else {
        let d = b.drop_last();
        assert forall|k: int| 0 <= k < d.len() implies text::is_space(#[trigger] d[k]) by {
            assert(text::is_space(b[k]));
        }
        assert(text::is_space(b[b.len() - 1]));
        assert((s + b).last() == b.last());
        assert((s + b).drop_last() =~= s + d);
        lemma_back(s, d);
    }
}

} // verus!
