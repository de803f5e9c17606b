use vstd::prelude::*;

verus! {

/// The value of `c` as a digit in base `radix`, or `radix` itself where `c`
/// is no digit of that base. Digits above nine are letters of either case.
pub open spec fn digit_value(c: char, radix: nat) -> nat {
    let v: int = if '0' <= c && c <= '9' {
        c as int - '0' as int
    } else if 'a' <= c && c <= 'z' {
        c as int - 'a' as int + 10
    } else if 'A' <= c && c <= 'Z' {
        c as int - 'A' as int + 10
    } else {
        radix as int
    };
    if v < radix { v as nat } else { radix }
}

/// Whether every character of `s` is a digit in base `radix`.
pub open spec fn all_digits(s: Seq<char>, radix: nat) -> bool {
    forall|i: int| 0 <= i < s.len() ==> digit_value(#[trigger] s[i], radix) < radix
}

/// The number that the digits `s` denote in base `radix`, most significant first.
pub open spec fn digits_value(s: Seq<char>, radix: nat) -> nat
    decreases s.len(),
{
    if s.len() == 0 {
        0
    } else {
        digits_value(s.drop_last(), radix) * radix + digit_value(s.last(), radix)
    }
}

/// What reading `s` as an unsigned 64-bit integer in base `radix` gives: a
/// value where `s` is a non-empty run of digits whose value fits, else nothing.
pub open spec fn radix_number(s: Seq<char>, radix: nat) -> Option<u64> {
    if s.len() > 0 && all_digits(s, radix) && digits_value(s, radix) <= u64::MAX {
        Some(digits_value(s, radix) as u64)
    } else {
        None
    }
}

proof fn lemma_value_grows(s: Seq<char>, radix: nat)
    requires
        s.len() > 0,
        radix >= 1,
    ensures
        digits_value(s, radix) >= digits_value(s.drop_last(), radix),
{
    let p = digits_value(s.drop_last(), radix);
    assert(p * radix >= p) by (nonlinear_arith)
        requires
            radix >= 1,
    ;
}

/// The digit value of `c` in base `radix`, as `digit_value` states it.
fn digit(c: char, radix: u64) -> (r: u64)
    requires
        2 <= radix <= 36,
    ensures
        r == digit_value(c, radix as nat),
{
    let v: u64 = if '0' <= c && c <= '9' {
        (c as u32 - '0' as u32) as u64
    } else if 'a' <= c && c <= 'z' {
        (c as u32 - 'a' as u32 + 10) as u64
    } else if 'A' <= c && c <= 'Z' {
        (c as u32 - 'A' as u32 + 10) as u64
    } else {
        radix
    };
    if v < radix { v } else { radix }
}

/// Reads `s[from..]` as an unsigned 64-bit integer in base `radix`.
pub fn parse_radix(s: &Vec<char>, from: usize, radix: u64) -> (r: Option<u64>)
    requires
        from <= s.len(),
        2 <= radix <= 36,
    ensures
        r == radix_number(s@.skip(from as int), radix as nat),
{
    let ghost digits = s@.skip(from as int);
    let ghost rad = radix as nat;
    if from == s.len() {
        return None;
    }
    let mut acc: u64 = 0;
    let mut i: usize = from;
    let mut fits = true;
    while i < s.len()
        invariant
            from <= i <= s.len(),
            from < s.len(),
            digits == s@.skip(from as int),
            rad == radix as nat,
            2 <= radix <= 36,
            all_digits(digits.take(i - from), rad),
            fits ==> acc as nat == digits_value(digits.take(i - from), rad),
            !fits ==> digits_value(digits.take(i - from), rad) > u64::MAX,
        decreases s.len() - i,
    {
        let d = digit(s[i], radix);
        let ghost before = digits.take(i - from);
        let ghost after = digits.take(i - from + 1);
        proof {
            assert(after.drop_last() =~= before);
            assert(after.last() == s@[i as int]);
        }
        if d == radix {
            proof {
                assert(!all_digits(digits, rad)) by {
                    assert(digits[i - from] == s@[i as int]);
                }
            }
            return None;
        }
        proof {
            assert(all_digits(after, rad)) by {
                assert forall|k: int| 0 <= k < after.len() implies digit_value(#[trigger] after[k], rad) < rad by {
                    if k < before.len() {
                        assert(after[k] == before[k]);
                    }
                }
            }
            lemma_value_grows(after, rad);
        }
        if fits {
            match acc.checked_mul(radix) {
                Some(m) => match m.checked_add(d) {
                    Some(n) => {
                        acc = n;
                    },
                    None => {
                        fits = false;
                    },
                },
                None => {
                    proof {
                        assert(digits_value(after, rad) >= acc * radix) by (nonlinear_arith)
                            requires
                                digits_value(after, rad) == acc * radix + d,
                        ;
                    }
                    fits = false;
                },
            }
        }
        i = i + 1;
    }
    proof {
        assert(digits.take(i - from) =~= digits);
    }
    if fits { Some(acc) } else { None }
}

/// Whether `c` is one of the ASCII digits `0` to `9`.
pub open spec fn decimal_digit(c: char) -> bool {
    '0' <= c && c <= '9'
}

/// Whether every character of `s` is an ASCII digit.
pub open spec fn decimal_run(s: Seq<char>) -> bool {
    forall|i: int| 0 <= i < s.len() ==> decimal_digit(#[trigger] s[i])
}

/// Whether `w` is a run of digits, optionally followed by `e` or `E` and a
/// second run of digits.
pub open spec fn digits_with_exponent(w: Seq<char>) -> bool {
    exists|k: int|
        0 < k <= w.len() && #[trigger] decimal_run(w.take(k)) && (k == w.len() || (
        (w[k] == 'e' || w[k] == 'E') && k + 1 < w.len() && decimal_run(w.skip(k + 1))))
}

/// Whether `c` is the lower-case letter `l` in either case.
pub open spec fn same_letter(c: char, l: char) -> bool {
    c == l || ('A' <= c && c <= 'Z' && (c as u32) + 32 == (l as u32))
}

/// Whether `w` spells the lower-case word `l`, each letter in either case.
pub open spec fn spells(w: Seq<char>, l: Seq<char>) -> bool {
    w.len() == l.len() && forall|i: int| 0 <= i < w.len() ==> same_letter(#[trigger] w[i], l[i])
}

/// Whether a word made of letters, digits and underscores reads as a decimal
/// floating-point literal: digits with an optional exponent, or one of the
/// words `inf`, `infinity` and `nan` in any mix of cases.
pub open spec fn decimal_literal(w: Seq<char>) -> bool {
    ||| digits_with_exponent(w)
    ||| spells(w, seq!['i', 'n', 'f'])
    ||| spells(w, seq!['i', 'n', 'f', 'i', 'n', 'i', 't', 'y'])
    ||| spells(w, seq!['n', 'a', 'n'])
}

fn spells_word(w: &Vec<char>, l: &[char]) -> (r: bool)
    ensures
        r == spells(w@, l@),
{
    if w.len() != l.len() {
        return false;
    }
    let mut i: usize = 0;
    while i < w.len()
        invariant
            i <= w.len(),
            w.len() == l@.len(),
            forall|j: int| 0 <= j < i ==> same_letter(#[trigger] w@[j], l@[j]),
        decreases w.len() - i,
    {
        let c = w[i];
        let lc = l[i];
        let same = c == lc || ('A' <= c && c <= 'Z' && (c as u32) + 32 == (lc as u32));
        assert(same == same_letter(w@[i as int], l@[i as int]));
        if !same {
            return false;
        }
        i = i + 1;
    }
    true
}

/// Whether `w` reads as a decimal floating-point literal.
pub fn is_decimal_literal(w: &Vec<char>) -> (r: bool)
    ensures
        r == decimal_literal(w@),
{
    let n = w.len();
    let mut k: usize = 0;
    while k < n && '0' <= w[k] && w[k] <= '9'
        invariant
            k <= n == w.len(),
            decimal_run(w@.take(k as int)),
        decreases n - k,
    {
        proof {
            assert(decimal_run(w@.take(k + 1))) by {
                assert forall|j: int| 0 <= j < k + 1 implies decimal_digit(#[trigger] w@.take(k + 1)[j]) by {
                    if j < k {
                        assert(w@.take(k + 1)[j] == w@.take(k as int)[j]);
                    }
                }
            }
        }
        k = k + 1;
    }
    let mut plain = false;
    if k > 0 {
        if k == n {
            plain = true;
        } else if (w[k] == 'e' || w[k] == 'E') && k + 1 < n {
            let mut j: usize = k + 1;
            plain = true;
            while j < n
                invariant
                    k + 1 <= j <= n == w.len(),
                    plain == decimal_run(w@.subrange(k + 1, j as int)),
                decreases n - j,
            {
                let ghost done = w@.subrange(k + 1, j as int);
                let ghost next = w@.subrange(k + 1, j + 1);
                let digit = '0' <= w[j] && w[j] <= '9';
                if !digit {
                    plain = false;
                }
                proof {
                    assert(next.last() == w@[j as int]);
                    assert forall|i: int| 0 <= i < done.len() implies next[i] == done[i] by {}
                    if decimal_run(next) {
                        assert forall|i: int| 0 <= i < done.len() implies decimal_digit(#[trigger] done[i]) by {
                            assert(decimal_digit(next[i]));
                        }
                    }
                    if decimal_run(done) && digit {
                        assert forall|i: int| 0 <= i < next.len() implies decimal_digit(#[trigger] next[i]) by {
                            if i < done.len() {
                                assert(decimal_digit(done[i]));
                            }
                        }
                    }
                }
                j = j + 1;
            }
            proof {
                assert(w@.subrange(k + 1, n as int) =~= w@.skip(k + 1));
            }
        }
    }
    proof {
        if plain {
            assert(digits_with_exponent(w@)) by {
                assert(decimal_run(w@.take(k as int)));
            }
        } else if digits_with_exponent(w@) {
            let k2 = choose|k2: int|
                0 < k2 <= w@.len() && #[trigger] decimal_run(w@.take(k2)) && (k2 == w@.len() || (
                (w@[k2] == 'e' || w@[k2] == 'E') && k2 + 1 < w@.len() && decimal_run(w@.skip(k2 + 1))));
            if k2 < k {
                assert(w@.take(k as int)[k2] == w@[k2]);
            } else if k2 > k {
                assert(w@.take(k2)[k as int] == w@[k as int]);
            }
        }
    }
    let inf = ['i', 'n', 'f'];
    let infinity = ['i', 'n', 'f', 'i', 'n', 'i', 't', 'y'];
    let nan = ['n', 'a', 'n'];
    proof {
        assert(inf@ =~= seq!['i', 'n', 'f']);
        assert(infinity@ =~= seq!['i', 'n', 'f', 'i', 'n', 'i', 't', 'y']);
        assert(nan@ =~= seq!['n', 'a', 'n']);
    }
    plain || spells_word(w, &inf) || spells_word(w, &infinity) || spells_word(w, &nan)
}

} // verus!
