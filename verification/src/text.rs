//! Decimal numbers in text.

use vstd::prelude::*;

verus! {

/// The character of the digit `d`.
pub open spec fn digit(d: int) -> char {
    (48 + d) as char
}

/// `n` in decimal: no sign, no leading zero.
pub open spec fn digits(n: nat) -> Seq<char>
    decreases n,
{
    if n < 10 {
        seq![digit(n as int)]
    } else {
        digits(n / 10).push(digit((n % 10) as int))
    }
}

/// The digit `d` as text.
fn digit_text(d: u64) -> (r: &'static str)
    requires
        d < 10,
    ensures
        r@ == seq![digit(d as int)],
{
    proof {
        reveal_strlit("0");
        reveal_strlit("1");
        reveal_strlit("2");
        reveal_strlit("3");
        reveal_strlit("4");
        reveal_strlit("5");
        reveal_strlit("6");
        reveal_strlit("7");
        reveal_strlit("8");
        reveal_strlit("9");
    }
    let r: &'static str = match d {
        0 => "0",
        1 => "1",
        2 => "2",
        3 => "3",
        4 => "4",
        5 => "5",
        6 => "6",
        7 => "7",
        8 => "8",
        _ => "9",
    };
    proof {
        assert(r@ =~= seq![digit(d as int)]);
    }
    r
}

/// `n` in decimal.
pub fn decimal(n: u64) -> (r: String)
    ensures
        r@ == digits(n as nat),
    decreases n,
{
    if n < 10 {
        let r: String = digit_text(n).to_owned();
        r
    } else {
        let mut r: String = decimal(n / 10);
        r.append(digit_text(n % 10));
        proof {
            assert(digits((n / 10) as nat).push(digit((n % 10) as int)) =~= digits((n / 10) as nat) + seq![
                digit((n % 10) as int),
            ]);
        }
        r
    }
}

/// A decimal number is not empty, all its characters are digits, and it starts with a zero only
/// where it is zero.
pub proof fn lemma_digits_shape(n: nat)
    ensures
        digits(n).len() > 0,
        forall|i: int| 0 <= i < digits(n).len() ==> '0' <= #[trigger] digits(n)[i] <= '9',
        digits(n)[0] == '0' ==> n == 0,
        n >= 10 ==> digits(n).len() > 1,
    decreases n,
{
    if n >= 10 {
        lemma_digits_shape(n / 10);
        assert(digits(n)[0] == digits(n / 10)[0]);
    }
}

/// Two numbers with the same decimal text are equal.
pub proof fn law_digits_are_injective(m: nat, n: nat)
    requires
        digits(m) == digits(n),
    ensures
        m == n,
    decreases m,
{
    lemma_digits_shape(m);
    lemma_digits_shape(n);
    assert(digits(m).last() == digit((m % 10) as int));
    assert(digits(n).last() == digit((n % 10) as int));
    if m < 10 && n >= 10 {
        lemma_digits_shape(n / 10);
    } else if n < 10 && m >= 10 {
        lemma_digits_shape(m / 10);
    } else if m >= 10 && n >= 10 {
        assert(digits(m / 10) =~= digits(m).drop_last());
        assert(digits(n / 10) =~= digits(n).drop_last());
        law_digits_are_injective(m / 10, n / 10);
    }
}

/// A prefix of a decimal number is one no larger.
proof fn lemma_digits_prefix(n: nat, k: int) -> (m: nat)
    requires
        0 < k <= digits(n).len(),
    ensures
        m <= n,
        digits(m) == digits(n).take(k),
    decreases n,
{
    if k == digits(n).len() {
        assert(digits(n).take(k) =~= digits(n));
        n
    } else {
        assert(n >= 10);
        let m = lemma_digits_prefix(n / 10, k);
        assert(digits(n).take(k) =~= digits(n / 10).take(k));
        m
    }
}

/// The number up to `max` whose decimal text is `s[from..to]`, if that is one.
pub fn parse_decimal(s: &str, from: usize, to: usize, max: u64) -> (r: Option<u64>)
    requires
        from <= to <= s@.len(),
    ensures
        match r {
            Some(v) => v <= max && s@.subrange(from as int, to as int) == digits(v as nat),
            None => forall|v: nat| v <= max ==> s@.subrange(from as int, to as int) != #[trigger] digits(v),
        },
{
    let ghost full = s@.subrange(from as int, to as int);
    if from == to {
        proof {
            assert forall|v: nat| v <= max implies full != #[trigger] digits(v) by {
                lemma_digits_shape(v);
            }
        }
        return None;
    }
    let mut v: u64 = 0;
    let mut i: usize = from;
    while i < to
        invariant
            from < to <= s@.len(),
            from <= i <= to,
            full == s@.subrange(from as int, to as int),
            v <= max,
            i == from ==> v == 0,
            i > from ==> full.take(i - from) == digits(v as nat),
        decreases to - i,
    {
        let c: char = s.get_char(i);
        let ghost k = i - from;
        proof {
            assert(full[k] == c);
        }
        if c < '0' || c > '9' {
            proof {
                assert forall|w: nat| w <= max implies full != #[trigger] digits(w) by {
                    lemma_digits_shape(w);
                }
            }
            return None;
        }
        let d: u64 = (c as u32 - '0' as u32) as u64;
        if i > from && v == 0 {
            proof {
                assert forall|w: nat| w <= max implies full != #[trigger] digits(w) by {
                    lemma_digits_shape(w);
                    assert(full.take(k)[0] == full[0]);
                    assert(digits(0)[0] == '0');
                }
            }
            return None;
        }
        if d > max || v > (max - d) / 10 {
            proof {
                assert forall|w: nat| w <= max implies full != #[trigger] digits(w) by {
                    if full == digits(w) {
                        let u = lemma_digits_prefix(w, k + 1);
                        lemma_next_digit(full, k, v as nat, d as int);
                        law_digits_are_injective(u, (v * 10 + d) as nat);
                    }
                }
            }
            return None;
        }
        proof {
            lemma_next_digit(full, k, v as nat, d as int);
        }
        v = v * 10 + d;
        i = i + 1;
    }
    proof {
        assert(full.take(to - from) =~= full);
    }
    Some(v)
}

/// One more digit of a decimal number.
proof fn lemma_next_digit(full: Seq<char>, k: int, v: nat, d: int)
    requires
        0 <= k < full.len(),
        0 <= d < 10,
        full[k] == digit(d),
        k == 0 ==> v == 0,
        k > 0 ==> v > 0 && full.take(k) == digits(v),
    ensures
        full.take(k + 1) == digits((v * 10 + d) as nat),
{
    let n = (v * 10 + d) as nat;
    if k == 0 {
        assert(full.take(1) =~= seq![digit(d)]);
    } else {
        assert(n / 10 == v && n % 10 == d);
        assert(full.take(k + 1) =~= full.take(k).push(full[k]));
    }
}

/// The decimal digits of a number spell it: read from left to right, each digit adds itself to ten times
/// what was read before. They are digits, and there is no leading zero but that of zero itself.
pub proof fn law_digits_spell_the_number(n: nat)
    ensures
        digits(n).fold_left(0int, |sum: int, c: char| sum * 10 + (c as int - 48)) == n,
        digits(n).len() > 0,
        forall|i: int| 0 <= i < digits(n).len() ==> '0' <= #[trigger] digits(n)[i] <= '9',
        digits(n)[0] == '0' ==> n == 0 && digits(n).len() == 1,
    decreases n,
{
    let step = |sum: int, c: char| sum * 10 + (c as int - 48);
    let last = digit((n % 10) as int);
    assert(last as int == 48 + n % 10);
    if n < 10 {
        assert(digits(n) =~= Seq::empty().push(last));
        assert(digits(n).drop_last() =~= Seq::empty());
        assert(digits(n).drop_last().fold_left(0int, step) == 0);
        assert(digits(n).fold_left(0int, step) == step(digits(n).drop_last().fold_left(0int, step), digits(n).last()));
    } else {
        law_digits_spell_the_number(n / 10);
        assert(digits(n).drop_last() =~= digits(n / 10));
        assert(digits(n).last() == last);
        assert(digits(n).fold_left(0int, step) == step(digits(n).drop_last().fold_left(0int, step), digits(n).last()));
        assert(digits(n)[0] == digits(n / 10)[0]);
        assert forall|i: int| 0 <= i < digits(n).len() implies '0' <= #[trigger] digits(n)[i] <= '9' by {
            if i < digits(n).len() - 1 {
                assert(digits(n)[i] == digits(n / 10)[i]);
            }
        }
    }
}

} // verus!
