//! Decimal digit strings: the mathematical model of ASCII decimal tokens,
//! a verified parser, and a verified printer. Both PPM header layouts and the
//! text pixel body are built from these.

use vstd::prelude::*;

verus! {

/// ASCII decimal digit, `'0'` through `'9'`.
pub open spec fn is_digit(b: u8) -> bool {
    48 <= b && b <= 57
}

/// Numeric value of one digit byte (zero on a non-digit, so that `dec_val`
/// stays total).
pub open spec fn digit_val(b: u8) -> nat {
    if is_digit(b) {
        (b - 48) as nat
    } else {
        0
    }
}

/// Every byte of the string is an ASCII digit.
pub open spec fn all_digits(s: Seq<u8>) -> bool {
    forall|i: int| 0 <= i < s.len() ==> is_digit(#[trigger] s[i])
}

/// The number denoted by a digit string, most significant digit first.
/// The empty string denotes zero.
pub open spec fn dec_val(s: Seq<u8>) -> nat
    decreases s.len(),
{
    if s.len() == 0 {
        0
    } else {
        dec_val(s.drop_last()) * 10 + digit_val(s.last())
    }
}

/// The canonical decimal representation of a number: no leading zeros except
/// for the single digit `"0"` itself.
pub open spec fn dec_repr(n: nat) -> Seq<u8>
    decreases n,
{
    if n < 10 {
        seq![(n + 48) as u8]
    } else {
        dec_repr(n / 10).push((n % 10 + 48) as u8)
    }
}

/// Appending one digit multiplies the prefix value by ten.
pub proof fn lemma_dec_val_step(s: Seq<u8>, j: int)
    requires
        0 <= j < s.len(),
    ensures
        dec_val(s.take(j + 1)) == dec_val(s.take(j)) * 10 + digit_val(s[j]),
{
    assert(s.take(j + 1).drop_last() =~= s.take(j));
    assert(s.take(j + 1).last() == s[j]);
}

/// The value of a digit string never drops when it is extended.
pub proof fn lemma_dec_val_prefix_le(s: Seq<u8>, j: int)
    requires
        0 <= j <= s.len(),
    ensures
        dec_val(s.take(j)) <= dec_val(s),
    decreases s.len() - j,
{
    if j == s.len() {
        assert(s.take(j) =~= s);
    } else {
        lemma_dec_val_step(s, j);
        lemma_dec_val_prefix_le(s, j + 1);
    }
}

/// The canonical representation is a nonempty string of digits.
pub proof fn lemma_dec_repr_digits(n: nat)
    ensures
        dec_repr(n).len() >= 1,
        all_digits(dec_repr(n)),
    decreases n,
{
    if n >= 10 {
        lemma_dec_repr_digits(n / 10);
        assert forall|i: int| 0 <= i < dec_repr(n).len() implies is_digit(
            #[trigger] dec_repr(n)[i],
        ) by {
            if i < dec_repr(n / 10).len() {
                assert(is_digit(dec_repr(n / 10)[i]));
            }
        }
    }
}

/// Printing then parsing gives the number back.
pub proof fn lemma_dec_val_of_repr(n: nat)
    ensures
        dec_val(dec_repr(n)) == n,
    decreases n,
{
    if n < 10 {
        assert(dec_repr(n) == seq![(n + 48) as u8]);
        assert(dec_repr(n).drop_last() =~= Seq::<u8>::empty());
        assert(dec_val(dec_repr(n)) == dec_val(Seq::<u8>::empty()) * 10 + n);
    } else {
        lemma_dec_val_of_repr(n / 10);
        assert(dec_repr(n).drop_last() =~= dec_repr(n / 10));
        assert(dec_val(dec_repr(n)) == (n / 10) * 10 + n % 10);
        assert((n / 10) * 10 + n % 10 == n) by {
            vstd::arithmetic::div_mod::lemma_fundamental_div_mod(n as int, 10);
        }
    }
}

/// Parses the bytes of `s` between `start` and `end` as an unsigned decimal
/// number. Returns `None` exactly when some byte there is not a digit or the
/// denoted value does not fit a `usize`.
pub fn parse_dec(s: &[u8], start: usize, end: usize) -> (r: Option<usize>)
    requires
        start <= end <= s@.len(),
    ensures
        match r {
            Some(v) => all_digits(s@.subrange(start as int, end as int)) && v == dec_val(
                s@.subrange(start as int, end as int),
            ),
            None => !all_digits(s@.subrange(start as int, end as int)) || dec_val(
                s@.subrange(start as int, end as int),
            ) > usize::MAX,
        },
{
    let ghost t = s@.subrange(start as int, end as int);
    let mut acc: usize = 0;
    let mut i: usize = start;
    while i < end
        invariant
            start <= i <= end <= s@.len(),
            t == s@.subrange(start as int, end as int),
            all_digits(t.take(i - start)),
            acc == dec_val(t.take(i - start)),
        decreases end - i,
    {
        let b = s[i];
        assert(t[i - start] == b);
        if !(48 <= b && b <= 57) {
            assert(!all_digits(t));
            return None;
        }
        let d: usize = (b - 48) as usize;
        proof {
            lemma_dec_val_step(t, i - start);
        }
        if acc > (usize::MAX - d) / 10 {
            proof {
                assert(acc * 10 + d > usize::MAX) by (nonlinear_arith)
                    requires
                        acc > (usize::MAX - d) / 10,
                        d <= usize::MAX,
                ;
                lemma_dec_val_prefix_le(t, i + 1 - start);
            }
            return None;
        }
        assert(acc * 10 + d <= usize::MAX) by (nonlinear_arith)
            requires
                acc <= (usize::MAX - d) / 10,
                d <= usize::MAX,
        ;
        acc = acc * 10 + d;
        i = i + 1;
    }
    proof {
        assert(t.take(end - start) =~= t);
    }
    Some(acc)
}

/// Where an index `i` falls when a flat sequence is read three entries at a
/// time: its triple is `i / 3`, its place within the triple `i % 3`.
pub proof fn lemma_div3_range(i: int, n: int)
    requires
        0 <= i,
        0 <= n,
    ensures
        i < 3 * n ==> 0 <= i / 3 < n,
        3 * n <= i < 3 * n + 3 ==> i / 3 == n && i % 3 == i - 3 * n,
{
    vstd::arithmetic::div_mod::lemma_fundamental_div_mod(i, 3);
    if 3 * n <= i < 3 * n + 3 {
        vstd::arithmetic::div_mod::lemma_fundamental_div_mod_converse(i, 3, n, i - 3 * n);
    }
    if i < 3 * n {
        assert(0 <= i / 3 < n) by (nonlinear_arith)
            requires
                i == 3 * (i / 3) + i % 3,
                0 <= i % 3 < 3,
                0 <= i < 3 * n,
        ;
    }
}

/// Appends the canonical decimal representation of `n` to `out`.
pub fn push_dec(out: &mut Vec<u8>, n: usize)
    ensures
        final(out)@ == old(out)@ + dec_repr(n as nat),
{
    let mut tmp: Vec<u8> = Vec::new();
    let mut m: usize = n;
    tmp.push((m % 10) as u8 + 48);
    proof {
        if n >= 10 {
            assert(dec_repr(n as nat) == dec_repr((n as nat) / 10).push(
                ((n as nat) % 10 + 48) as u8,
            ));
            assert(dec_repr((n as nat) / 10) + tmp@.reverse() =~= dec_repr(n as nat));
        } else {
            assert(tmp@.reverse() =~= dec_repr(n as nat));
        }
    }
    m = m / 10;
    while m > 0
        invariant
            if m > 0 {
                dec_repr(n as nat) == dec_repr(m as nat) + tmp@.reverse()
            } else {
                dec_repr(n as nat) == tmp@.reverse()
            },
            tmp@.len() >= 1,
        decreases m,
    {
        let ghost pre = tmp@;
        tmp.push((m % 10) as u8 + 48);
        proof {
            assert(tmp@.reverse() =~= seq![((m as nat) % 10 + 48) as u8] + pre.reverse());
            if m >= 10 {
                assert(dec_repr(m as nat) == dec_repr((m as nat) / 10).push(
                    ((m as nat) % 10 + 48) as u8,
                ));
                assert(dec_repr((m as nat) / 10) + tmp@.reverse() =~= dec_repr(m as nat)
                    + pre.reverse());
            } else {
                assert(dec_repr(m as nat) =~= seq![((m as nat) % 10 + 48) as u8]);
                assert(tmp@.reverse() =~= dec_repr(m as nat) + pre.reverse());
            }
        }
        m = m / 10;
    }
    let mut k: usize = tmp.len();
    while k > 0
        invariant
            k <= tmp@.len(),
            out@ == old(out)@ + tmp@.reverse().take(tmp@.len() - k),
        decreases k,
    {
        k = k - 1;
        out.push(tmp[k]);
        proof {
            assert(tmp@.reverse()[tmp@.len() - k - 1] == tmp@[k as int]);
            assert(out@ =~= old(out)@ + tmp@.reverse().take(tmp@.len() - k));
        }
    }
    proof {
        assert(tmp@.reverse().take(tmp@.len() as int) =~= tmp@.reverse());
    }
}

} // verus!
