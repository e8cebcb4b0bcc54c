//! Rendering an integer with thousands-group separators.
//!
//! The decimal digits of the magnitude are grouped in runs of three from the
//! least significant digit, the groups are joined with commas, and a leading
//! minus sign stays outside the grouping.

use vstd::prelude::*;
use crate::text::{digit_val, digits_val, is_digit_char, string_from_chars};

verus! {

/// The character for the decimal digit `d`.
pub open spec fn digit_char(d: int) -> char {
    ((48 + d) as u8) as char
}

/// The decimal digits of `n`, most significant first.
pub open spec fn digits_of(n: nat) -> Seq<char>
    decreases n,
{
    if n < 10 {
        seq![digit_char(n as int)]
    } else {
        digits_of(n / 10).push(digit_char((n % 10) as int))
    }
}

/// `s` with a comma inserted before every run of three characters, counted
/// from the right; runs of at most three characters are left alone.
pub open spec fn group3(s: Seq<char>) -> Seq<char>
    decreases s.len(),
{
    if s.len() <= 3 {
        s
    } else {
        group3(s.take(s.len() - 3)) + seq![','] + s.skip(s.len() - 3)
    }
}

/// What `thousands` returns: the digits of the magnitude grouped in threes,
/// with the sign of a negative number kept in front of the grouping.
pub open spec fn thousands_spec(i: int) -> Seq<char> {
    if i < 0 {
        seq!['-'] + group3(digits_of((-i) as nat))
    } else {
        group3(digits_of(i as nat))
    }
}

/// `s` with every comma removed.
pub open spec fn drop_commas(s: Seq<char>) -> Seq<char>
    decreases s.len(),
{
    if s.len() == 0 {
        Seq::empty()
    } else if s[0] == ',' {
        drop_commas(s.skip(1))
    } else {
        seq![s[0]] + drop_commas(s.skip(1))
    }
}

/// The integer a decimal string denotes: an optional leading minus sign,
/// then digits read in base ten.
pub open spec fn dec_parse(s: Seq<char>) -> int {
    if s.len() >= 1 && s[0] == '-' {
        -digits_val(s.skip(1))
    } else {
        digits_val(s)
    }
}

proof fn lemma_digits_of_shape(n: nat)
    ensures
        digits_of(n).len() >= 1,
        forall|k: int|
            0 <= k < digits_of(n).len() ==> is_digit_char(#[trigger] digits_of(n)[k]),
    decreases n,
{
    if n < 10 {
    } else {
        lemma_digits_of_shape(n / 10);
    }
}

proof fn lemma_digits_val_of(n: nat)
    ensures
        digits_val(digits_of(n)) == n,
    decreases n,
{
    if n < 10 {
        assert(digits_of(n) =~= seq![digit_char(n as int)]);
        assert(digits_of(n).take(0) =~= Seq::<char>::empty());
        assert(digits_val(Seq::<char>::empty()) == 0);
        assert(digits_val(digits_of(n)) == 0 * 10 + digit_val(digit_char(n as int)));
        assert(digit_val(digit_char(n as int)) == n as int);
    } else {
        lemma_digits_val_of(n / 10);
        let s = digits_of(n);
        assert(s.take(s.len() - 1) =~= digits_of(n / 10));
        assert(digit_val(digit_char((n % 10) as int)) == (n % 10) as int);
        assert(digits_val(s) == digits_val(digits_of(n / 10)) * 10 + (n % 10) as int);
        assert(n as int == (n / 10) as int * 10 + (n % 10) as int) by {
            vstd::arithmetic::div_mod::lemma_fundamental_div_mod(n as int, 10);
        }
    }
}

proof fn lemma_drop_commas_concat(a: Seq<char>, b: Seq<char>)
    ensures
        drop_commas(a + b) == drop_commas(a) + drop_commas(b),
    decreases a.len(),
{
    if a.len() == 0 {
        assert(a + b =~= b);
        assert(drop_commas(a) + drop_commas(b) =~= drop_commas(b));
    } else {
        assert((a + b).skip(1) =~= a.skip(1) + b);
        lemma_drop_commas_concat(a.skip(1), b);
        if a[0] == ',' {
        } else {
            assert(seq![a[0]] + (drop_commas(a.skip(1)) + drop_commas(b)) =~= (seq![a[0]]
                + drop_commas(a.skip(1))) + drop_commas(b));
        }
    }
}

proof fn lemma_drop_commas_id(s: Seq<char>)
    requires
        forall|k: int| 0 <= k < s.len() ==> s[k] != ',',
    ensures
        drop_commas(s) == s,
    decreases s.len(),
{
    if s.len() == 0 {
        assert(drop_commas(s) =~= s);
    } else {
        lemma_drop_commas_id(s.skip(1));
        assert(seq![s[0]] + s.skip(1) =~= s);
    }
}

proof fn lemma_drop_commas_group3(s: Seq<char>)
    requires
        forall|k: int| 0 <= k < s.len() ==> s[k] != ',',
    ensures
        drop_commas(group3(s)) == s,
    decreases s.len(),
{
    if s.len() <= 3 {
        lemma_drop_commas_id(s);
    } else {
        let pre = s.take(s.len() - 3);
        let suf = s.skip(s.len() - 3);
        assert(forall|k: int| 0 <= k < pre.len() ==> pre[k] != ',');
        lemma_drop_commas_group3(pre);
        lemma_drop_commas_concat(group3(pre) + seq![','], suf);
        lemma_drop_commas_concat(group3(pre), seq![',']);
        assert(seq![','].skip(1) =~= Seq::<char>::empty());
        assert(drop_commas(Seq::<char>::empty()) =~= Seq::<char>::empty());
        assert(drop_commas(seq![',']) =~= Seq::<char>::empty());
        assert(forall|k: int| 0 <= k < suf.len() ==> suf[k] != ',');
        lemma_drop_commas_id(suf);
        assert(drop_commas(group3(pre)) + drop_commas(seq![',']) =~= pre);
        assert(pre + suf =~= s);
    }
}

/// The round-trip law of the formatter: stripping the separators from
/// `thousands(i)` and re-reading the result as a decimal number yields `i`
/// again, for every integer.
pub proof fn lemma_thousands_roundtrip(i: i64)
    ensures
        dec_parse(drop_commas(thousands_spec(i as int))) == i as int,
{
    if i >= 0 {
        let m = i as nat;
        lemma_digits_of_shape(m);
        lemma_digits_val_of(m);
        assert(forall|k: int| 0 <= k < digits_of(m).len() ==> digits_of(m)[k] != ',');
        lemma_drop_commas_group3(digits_of(m));
        assert(digits_of(m)[0] != '-');
    } else {
        let m = (-(i as int)) as nat;
        lemma_digits_of_shape(m);
        lemma_digits_val_of(m);
        assert(forall|k: int| 0 <= k < digits_of(m).len() ==> digits_of(m)[k] != ',');
        lemma_drop_commas_group3(digits_of(m));
        lemma_drop_commas_concat(seq!['-'], group3(digits_of(m)));
        assert(seq!['-'].skip(1) =~= Seq::<char>::empty());
        assert(drop_commas(Seq::<char>::empty()) =~= Seq::<char>::empty());
        assert(drop_commas(seq!['-']) =~= seq!['-'] + Seq::<char>::empty());
        assert(drop_commas(seq!['-']) =~= seq!['-']);
        let out = drop_commas(thousands_spec(i as int));
        assert(out =~= seq!['-'] + digits_of(m));
        assert(out[0] == '-');
        assert(out.skip(1) =~= digits_of(m));
    }
}

fn push_digits(out: &mut Vec<char>, n: u64)
    ensures
        final(out)@ == old(out)@ + digits_of(n as nat),
    decreases n,
{
    if n < 10 {
        out.push((48 + n as u8) as char);
        proof {
            assert(out@ =~= old(out)@ + digits_of(n as nat));
        }
    } else {
        push_digits(out, n / 10);
        out.push((48 + (n % 10) as u8) as char);
        proof {
            assert(out@ =~= old(out)@ + digits_of(n as nat));
        }
    }
}

fn group_digits(d: &Vec<char>, end: usize) -> (r: Vec<char>)
    requires
        end <= d@.len(),
    ensures
        r@ == group3(d@.take(end as int)),
    decreases end,
{
    if end <= 3 {
        let mut r: Vec<char> = Vec::new();
        let mut i: usize = 0;
        while i < end
            invariant
                i <= end <= d@.len(),
                r@ == d@.take(i as int),
            decreases end - i,
        {
            r.push(d[i]);
            proof {
                assert(d@.take(i as int).push(d@[i as int]) =~= d@.take((i + 1) as int));
            }
            i = i + 1;
        }
        proof {
            assert(group3(d@.take(end as int)) == d@.take(end as int));
        }
        r
    } else {
        let mut r = group_digits(d, end - 3);
        r.push(',');
        let mut j: usize = end - 3;
        while j < end
            invariant
                end - 3 <= j <= end <= d@.len(),
                3 < end,
                r@ == group3(d@.take((end - 3) as int)) + seq![','] + d@.subrange(
                    (end - 3) as int,
                    j as int,
                ),
            decreases end - j,
        {
            r.push(d[j]);
            proof {
                assert(r@ =~= group3(d@.take((end - 3) as int)) + seq![','] + d@.subrange(
                    (end - 3) as int,
                    (j + 1) as int,
                ));
            }
            j = j + 1;
        }
        proof {
            let s = d@.take(end as int);
            assert(s.take(s.len() - 3) =~= d@.take((end - 3) as int));
            assert(s.skip(s.len() - 3) =~= d@.subrange((end - 3) as int, end as int));
            assert(r@ =~= group3(s.take(s.len() - 3)) + seq![','] + s.skip(s.len() - 3));
        }
        r
    }
}

/// Renders `i` in decimal with a comma between each group of three digits,
/// counted from the least significant digit; a negative number keeps its
/// minus sign in front of the grouping.
pub fn thousands(i: i64) -> (r: String)
    ensures
        r@ == thousands_spec(i as int),
{
    let mag: u64 = if i >= 0 {
        i as u64
    } else {
        (-(i as i128)) as u64
    };
    let mut digits: Vec<char> = Vec::new();
    push_digits(&mut digits, mag);
    proof {
        assert(digits@ =~= digits_of(mag as nat));
    }
    let grouped = group_digits(&digits, digits.len());
    proof {
        assert(digits@.take(digits@.len() as int) =~= digits@);
    }
    if i < 0 {
        let mut out: Vec<char> = Vec::new();
        out.push('-');
        let mut j: usize = 0;
        while j < grouped.len()
            invariant
                j <= grouped@.len(),
                out@ == seq!['-'] + grouped@.take(j as int),
            decreases grouped@.len() - j,
        {
            out.push(grouped[j]);
            proof {
                assert(out@ =~= seq!['-'] + grouped@.take((j + 1) as int));
            }
            j = j + 1;
        }
        proof {
            assert(grouped@.take(grouped@.len() as int) =~= grouped@);
            assert(mag as int == -(i as int));
        }
        string_from_chars(&out)
    } else {
        proof {
            assert(mag as int == i as int);
        }
        string_from_chars(&grouped)
    }
}

} // verus!
