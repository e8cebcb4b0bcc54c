//! Parsing a bracketed cost-vector string and summing its numeric entries.
//!
//! A cost vector has the literal shape `{1.0 ROWS, 2.5 CPU}`: the first and
//! last characters are stripped unconditionally, the interior is split on the
//! two-character separator `", "`, and each token is cut at its first space;
//! what precedes the space must be a decimal number.  The numbers are summed
//! exactly in fixed-point arithmetic with six fractional digits and the sum
//! is truncated toward zero.  A number's integer part must stay below
//! `10^12` and its fraction may hold at most six digits; anything else is
//! reported as a failed parse, as is a total that does not fit an `i64`.

use vstd::prelude::*;
use crate::PlanError;
use crate::text::{
    all_digits, chars_of, digit_val, digits_val, first_ch, is_digit_char,
    lemma_digits_val_bound, lemma_digits_val_nonneg, lemma_first_ch_at, lemma_first_ch_none,
    pow10,
};

verus! {

/// The index of the first occurrence of the separator `", "` in `s`,
/// or `-1` if there is none.
pub open spec fn first_sep(s: Seq<char>) -> int
    decreases s.len(),
{
    if s.len() < 2 {
        -1
    } else if s[0] == ',' && s[1] == ' ' {
        0
    } else {
        let r = first_sep(s.skip(1));
        if r == -1 {
            -1
        } else {
            r + 1
        }
    }
}

proof fn lemma_first_sep_at(s: Seq<char>, i: int)
    requires
        0 <= i,
        i + 1 < s.len(),
        s[i] == ',',
        s[i + 1] == ' ',
        forall|k: int| 0 <= k < i ==> !((#[trigger] s[k]) == ',' && s[k + 1] == ' '),
    ensures
        first_sep(s) == i,
    decreases i,
{
    if i == 0 {
    } else {
        assert(!(s[0] == ',' && s[1] == ' '));
        lemma_first_sep_at(s.skip(1), i - 1);
    }
}

proof fn lemma_first_sep_none(s: Seq<char>)
    requires
        forall|k: int| 0 <= k && k + 1 < s.len() ==> !((#[trigger] s[k]) == ',' && s[k + 1] == ' '),
    ensures
        first_sep(s) == -1,
    decreases s.len(),
{
    if s.len() < 2 {
    } else {
        lemma_first_sep_none(s.skip(1));
    }
}

/// The numeric text of a token: everything before its first space.
pub open spec fn tok_num_text(t: Seq<char>) -> Seq<char> {
    let sp = first_ch(t, ' ');
    if sp == -1 {
        t
    } else {
        t.take(sp)
    }
}

/// The value of one cost-vector token, scaled by `10^6`, or `None` if its
/// numeric text is not a decimal number within the parser's bounds.
pub open spec fn tok_val(t: Seq<char>) -> Option<int> {
    let nt = tok_num_text(t);
    let neg = nt.len() >= 1 && nt[0] == '-';
    let d = if neg {
        nt.skip(1)
    } else {
        nt
    };
    let dot = first_ch(d, '.');
    let ip = if dot == -1 {
        d
    } else {
        d.take(dot)
    };
    let fp = if dot == -1 {
        Seq::<char>::empty()
    } else {
        d.skip(dot + 1)
    };
    if ip.len() >= 1 && all_digits(ip) && digits_val(ip) < 1000000000000 && (dot == -1 || (1
        <= fp.len() <= 6 && all_digits(fp))) {
        let v = digits_val(ip) * 1000000 + digits_val(fp) * pow10((6 - fp.len()) as nat);
        Some(
            if neg {
                -v
            } else {
                v
            },
        )
    } else {
        None
    }
}

/// The sum of the scaled token values of `s`, split on `", "`, or `None`
/// if any token fails to parse.
pub open spec fn cv_sum(s: Seq<char>) -> Option<int>
    decreases s.len(),
{
    let i = first_sep(s);
    let t = if i == -1 {
        s
    } else {
        s.take(i)
    };
    match tok_val(t) {
        Option::None => Option::None,
        Option::Some(v) => if i == -1 {
            Option::Some(v)
        } else if 0 <= i && i + 2 <= s.len() {
            match cv_sum(s.skip(i + 2)) {
                Option::None => Option::None,
                Option::Some(rest) => Option::Some(v + rest),
            }
        } else {
            Option::None
        },
    }
}

/// `q / 10^6` rounded toward zero.
pub open spec fn trunc_scale(q: int) -> int {
    if q >= 0 {
        q / 1000000
    } else {
        -((-q) / 1000000)
    }
}

/// What `total_cost` returns: the interior of `s` (first and last character
/// stripped) is split and summed by `cv_sum`, and the sum is truncated
/// toward zero; `None` is every failure.
pub open spec fn cost_total_spec(s: Seq<char>) -> Option<int> {
    let interior = if s.len() >= 2 {
        s.subrange(1, s.len() - 1)
    } else {
        Seq::<char>::empty()
    };
    match cv_sum(interior) {
        Option::None => Option::None,
        Option::Some(q) => {
            let t = trunc_scale(q);
            if i64::MIN <= t <= i64::MAX {
                Option::Some(t)
            } else {
                Option::None
            }
        },
    }
}

proof fn lemma_pow10_vals()
    ensures
        pow10(0) == 1,
        pow10(1) == 10,
        pow10(2) == 100,
        pow10(3) == 1000,
        pow10(4) == 10000,
        pow10(5) == 100000,
        pow10(6) == 1000000,
{
    assert(pow10(0) == 1);
    assert(pow10(1) == 10);
    assert(pow10(2) == 100);
    assert(pow10(3) == 1000);
    assert(pow10(4) == 10000);
    assert(pow10(5) == 100000);
    assert(pow10(6) == 1000000);
}

proof fn lemma_pow10_add(a: nat, b: nat)
    ensures
        pow10(a) * pow10(b) == pow10(a + b),
        pow10(b) >= 1,
    decreases a,
{
    if a == 0 {
        lemma_pow10_pos(b);
    } else {
        lemma_pow10_add((a - 1) as nat, b);
        assert((10 * pow10((a - 1) as nat)) * pow10(b) == 10 * (pow10((a - 1) as nat) * pow10(
            b,
        ))) by (nonlinear_arith);
    }
}

proof fn lemma_pow10_pos(a: nat)
    ensures
        pow10(a) >= 1,
    decreases a,
{
    if a == 0 {
    } else {
        lemma_pow10_pos((a - 1) as nat);
    }
}

/// A digit-string prefix never exceeds the whole string's value.
proof fn lemma_digits_val_prefix_le(s: Seq<char>, k: int)
    requires
        all_digits(s),
        0 <= k <= s.len(),
    ensures
        digits_val(s.take(k)) <= digits_val(s),
    decreases s.len(),
{
    if k == s.len() {
        assert(s.take(k) =~= s);
    } else {
        let pre = s.take(s.len() - 1);
        assert(all_digits(pre));
        assert(pre.take(k) =~= s.take(k));
        lemma_digits_val_prefix_le(pre, k);
        lemma_digits_val_nonneg(pre);
    }
}

/// Ten to a smaller power never exceeds ten to a larger one.
proof fn lemma_pow10_le(a: nat, b: nat)
    requires
        a <= b,
    ensures
        pow10(a) <= pow10(b),
    decreases b,
{
    if a == b {
    } else {
        lemma_pow10_le(a, (b - 1) as nat);
        lemma_pow10_pos((b - 1) as nat);
    }
}

/// A fraction of at most six digits, scaled to six places, stays below one
/// million.
proof fn lemma_frac_scaled_bound(fv: int, flen: nat, pad: int)
    requires
        0 <= fv,
        fv < pow10(flen),
        flen <= 6,
        pad == pow10((6 - flen) as nat),
    ensures
        0 <= fv * pad <= 999999,
{
    lemma_pow10_add(flen, (6 - flen) as nat);
    lemma_pow10_vals();
    assert(fv * pad <= (pow10(flen) - 1) * pad) by (nonlinear_arith)
        requires
            0 <= fv,
            fv <= pow10(flen) - 1,
            pad >= 1,
    ;
    assert((pow10(flen) - 1) * pad == pow10(flen) * pad - pad) by (nonlinear_arith);
    assert(fv * pad >= 0) by (nonlinear_arith)
        requires
            0 <= fv,
            pad >= 1,
    ;
}

/// Reads the digit run `tok[from..to]`: its value if every character is a
/// digit and the value stays below `cap`, and `None` otherwise.
#[verifier::loop_isolation(false)]
pub(crate) fn digit_run_val(tok: &Vec<char>, from: usize, to: usize, cap: u64) -> (r: Option<u64>)
    requires
        from <= to <= tok@.len(),
        1 <= cap <= 1000000000000000000,
    ensures
        match r {
            Option::Some(x) => all_digits(tok@.subrange(from as int, to as int)) && x as int
                == digits_val(tok@.subrange(from as int, to as int)) && x < cap,
            Option::None => !(all_digits(tok@.subrange(from as int, to as int)) && digits_val(
                tok@.subrange(from as int, to as int),
            ) < cap),
        },
{
    let ghost whole = tok@.subrange(from as int, to as int);
    let mut acc: u64 = 0;
    let mut j: usize = from;
    while j < to
        invariant
            from <= j <= to,
            forall|k: int| from <= k < j ==> is_digit_char(#[trigger] tok@[k]),
            acc as int == digits_val(tok@.subrange(from as int, j as int)),
            acc < cap,
        decreases to - j,
    {
        let c = tok[j];
        let cu = c as u32;
        if cu < 48 || cu > 57 {
            proof {
                assert(whole[j - from] == tok@[j as int]);
                assert(!all_digits(whole));
            }
            return None;
        }
        let na = acc * 10 + ((cu - 48) as u64);
        proof {
            crate::text::lemma_digits_val_snoc(tok@, from as int, j as int);
        }
        if na >= cap {
            proof {
                if all_digits(whole) {
                    assert(whole.take(j + 1 - from) =~= tok@.subrange(from as int, (j + 1) as int));
                    lemma_digits_val_prefix_le(whole, j + 1 - from);
                }
            }
            return None;
        }
        acc = na;
        j = j + 1;
    }
    proof {
        assert(forall|k: int|
            0 <= k < whole.len() ==> (#[trigger] whole[k]) == tok@[k + from]);
        assert(all_digits(whole));
    }
    Some(acc)
}

/// Parses one token of a cost vector: the scaled value of its numeric text,
/// or `None` where the token is not a number within bounds.
#[verifier::loop_isolation(false)]
#[verifier::rlimit(60)]
fn parse_cost_token(tok: &Vec<char>) -> (r: Option<i128>)
    ensures
        match tok_val(tok@) {
            Option::Some(v) => r matches Some(x) && x as int == v && -1000000000000000000 < v
                < 1000000000000000000,
            Option::None => r is None,
        },
{
    proof {
        lemma_pow10_vals();
    }
    let n = tok.len();
    let mut ne: usize = 0;
    while ne < n && tok[ne] != ' '
        invariant
            ne <= n,
            forall|k: int| 0 <= k < ne ==> tok@[k] != ' ',
        decreases n - ne,
    {
        ne = ne + 1;
    }
    proof {
        if ne < n {
            lemma_first_ch_at(tok@, ' ', ne as int);
        } else {
            lemma_first_ch_none(tok@, ' ');
            assert(tok@.take(n as int) =~= tok@);
        }
        assert(tok_num_text(tok@) =~= tok@.take(ne as int));
    }
    let ghost nt = tok_num_text(tok@);
    let neg = ne >= 1 && tok[0] == '-';
    let st: usize = if neg {
        1
    } else {
        0
    };
    let ghost d = if neg {
        nt.skip(1)
    } else {
        nt
    };
    proof {
        assert(d =~= tok@.subrange(st as int, ne as int));
    }
    let mut dt: usize = st;
    while dt < ne && tok[dt] != '.'
        invariant
            st <= dt <= ne,
            forall|k: int| st <= k < dt ==> tok@[k] != '.',
        decreases ne - dt,
    {
        dt = dt + 1;
    }
    proof {
        if dt < ne {
            assert(d[dt - st] == tok@[dt as int]);
            assert(forall|k: int| 0 <= k < dt - st ==> (#[trigger] d[k]) == tok@[k + st]);
            lemma_first_ch_at(d, '.', dt - st);
        } else {
            assert(forall|k: int| 0 <= k < d.len() ==> (#[trigger] d[k]) == tok@[k + st]);
            lemma_first_ch_none(d, '.');
        }
    }
    let ghost dot = first_ch(d, '.');
    let ghost ip = if dot == -1 {
        d
    } else {
        d.take(dot)
    };
    let ghost fp = if dot == -1 {
        Seq::<char>::empty()
    } else {
        d.skip(dot + 1)
    };
    proof {
        assert(ip =~= tok@.subrange(st as int, dt as int));
        if dt < ne {
            assert(fp =~= tok@.subrange(dt + 1, ne as int));
        }
    }
    if dt == st {
        proof {
            assert(ip.len() == 0);
        }
        return None;
    }
    if dt < ne && ne - dt - 1 < 1 {
        proof {
            assert(fp.len() == 0);
        }
        return None;
    }
    if dt < ne && ne - dt - 1 > 6 {
        proof {
            assert(fp.len() > 6);
        }
        return None;
    }
    let acc: u64 = match digit_run_val(tok, st, dt, 1000000000000) {
        Option::Some(x) => x,
        Option::None => {
            return None;
        },
    };
    let flen: usize = if dt < ne {
        ne - dt - 1
    } else {
        0
    };
    let mut fval: u64 = 0;
    if dt < ne {
        fval = match digit_run_val(tok, dt + 1, ne, 1000000) {
            Option::Some(x) => x,
            Option::None => {
                proof {
                    if all_digits(fp) {
                        lemma_digits_val_bound(fp);
                        lemma_pow10_le(fp.len() as nat, 6);
                    }
                }
                return None;
            },
        };
    }
    proof {
        assert(all_digits(ip) && acc as int == digits_val(ip));
        if dt < ne {
            assert(all_digits(fp) && fval as int == digits_val(fp));
        } else {
            assert(fp =~= Seq::<char>::empty());
        }
        assert(fval as int == digits_val(fp));
        lemma_digits_val_bound(fp);
        assert(flen as int == fp.len());
    }
    let pad: u64 = if flen == 0 {
        1000000
    } else if flen == 1 {
        100000
    } else if flen == 2 {
        10000
    } else if flen == 3 {
        1000
    } else if flen == 4 {
        100
    } else if flen == 5 {
        10
    } else {
        1
    };
    proof {
        assert(pad as int == pow10((6 - flen) as nat));
        lemma_frac_scaled_bound(fval as int, flen as nat, pad as int);
        lemma_digits_val_nonneg(ip);
    }
    let mag: u64 = acc * 1000000 + fval * pad;
    proof {
        assert(mag as int == digits_val(ip) * 1000000 + digits_val(fp) * pow10(
            (6 - fp.len()) as nat,
        ));
        assert(mag < 1000000000000000000);
    }
    let sv: i128 = if neg {
        -(mag as i128)
    } else {
        mag as i128
    };
    Some(sv)
}

/// Sums the numeric entries of the cost-vector string `s` and truncates the
/// total toward zero, or reports `CostParse` where a token is not a number
/// within the parser's bounds, the vector is empty, or the total does not
/// fit an `i64`.
#[verifier::loop_isolation(false)]
#[verifier::rlimit(60)]
pub fn total_cost(s: &str) -> (r: Result<i64, PlanError>)
    ensures
        match cost_total_spec(s@) {
            Option::Some(t) => r matches Ok(c) && c as int == t,
            Option::None => r == Err::<i64, PlanError>(PlanError::CostParse),
        },
{
    let cs = chars_of(s);
    let n = cs.len();
    if n < 2 {
        proof {
            let e = Seq::<char>::empty();
            assert(first_sep(e) == -1);
            assert(first_ch(e, ' ') == -1);
            assert(tok_num_text(e) =~= e);
            assert(first_ch(e, '.') == -1);
            assert(tok_val(e) is None);
            assert(cv_sum(e) is None);
        }
        return Err(PlanError::CostParse);
    }
    let hi = n - 1;
    let ghost interior = s@.subrange(1, hi as int);
    let mut p: usize = 1;
    let mut acc: i128 = 0;
    let mut done = false;
    while !done
        invariant
            n == s@.len(),
            cs@ == s@,
            2 <= n,
            hi == n - 1,
            1 <= p <= hi,
            interior == s@.subrange(1, hi as int),
            !done ==> cv_sum(interior) == opt_shift(
                acc as int,
                cv_sum(s@.subrange(p as int, hi as int)),
            ),
            done ==> cv_sum(interior) == Option::Some(acc as int),
            !done ==> -((p + 2) as int) * 1000000000000000000 <= acc as int <= ((p + 2) as int)
                * 1000000000000000000,
            done ==> -((n + 3) as int) * 1000000000000000000 <= acc as int <= ((n + 3) as int)
                * 1000000000000000000,
        decreases (hi - p) + (if done {
            0int
        } else {
            1int
        }),
    {
        let mut j: usize = p;
        while j + 1 < hi && !(cs[j] == ',' && cs[j + 1] == ' ')
            invariant
                n == s@.len(),
                cs@ == s@,
                hi == n - 1,
                1 <= p <= j <= hi,
                forall|k: int| p <= k < j ==> !((#[trigger] s@[k]) == ',' && s@[k + 1] == ' '),
            decreases hi - j,
        {
            j = j + 1;
        }
        let found = j + 1 < hi;
        let ghost rest = s@.subrange(p as int, hi as int);
        proof {
            if found {
                assert(rest[j - p] == s@[j as int]);
                assert(rest[j - p + 1] == s@[j + 1]);
                assert(forall|k: int| 0 <= k < j - p ==> (#[trigger] rest[k]) == s@[k + p] && rest[k + 1] == s@[k + p + 1]);
                lemma_first_sep_at(rest, j - p);
            } else {
                assert(forall|k: int| 0 <= k && k + 1 < rest.len() ==> (#[trigger] rest[k]) == s@[k + p] && rest[k + 1] == s@[k + p + 1]);
                lemma_first_sep_none(rest);
            }
        }
        let e: usize = if found {
            j
        } else {
            hi
        };
        let mut tok: Vec<char> = Vec::new();
        let mut t: usize = p;
        while t < e
            invariant
                n == s@.len(),
                cs@ == s@,
                p <= t <= e <= hi <= n,
                tok@ == s@.subrange(p as int, t as int),
            decreases e - t,
        {
            tok.push(cs[t]);
            proof {
                assert(s@.subrange(p as int, t as int).push(s@[t as int]) =~= s@.subrange(
                    p as int,
                    (t + 1) as int,
                ));
            }
            t = t + 1;
        }
        let ghost tcur = if found {
            rest.take(j - p)
        } else {
            rest
        };
        proof {
            assert(tok@ =~= tcur);
        }
        match parse_cost_token(&tok) {
            Option::None => {
                proof {
                    assert(cv_sum(rest) is None);
                    assert(cv_sum(interior) is None);
                }
                return Err(PlanError::CostParse);
            },
            Option::Some(x) => {
                if found {
                    proof {
                        assert(rest.skip(j - p + 2) =~= s@.subrange((j + 2) as int, hi as int));
                        assert(cv_sum(rest) == opt_shift(
                            x as int,
                            cv_sum(s@.subrange((j + 2) as int, hi as int)),
                        ));
                    }
                    acc = acc + x;
                    p = j + 2;
                } else {
                    proof {
                        assert(cv_sum(rest) == Option::Some(x as int));
                    }
                    acc = acc + x;
                    done = true;
                }
            },
        }
    }
    let tq: i128 = if acc >= 0 {
        ((acc as u128) / 1000000u128) as i128
    } else {
        -((((-acc) as u128) / 1000000u128) as i128)
    };
    proof {
        assert(tq as int == trunc_scale(acc as int));
    }
    if tq >= (i64::MIN as i128) && tq <= (i64::MAX as i128) {
        Ok(tq as i64)
    } else {
        Err(PlanError::CostParse)
    }
}

/// `o` with `a` added to a present value; `None` stays `None`.
pub open spec fn opt_shift(a: int, o: Option<int>) -> Option<int> {
    match o {
        Option::None => Option::None,
        Option::Some(v) => Option::Some(a + v),
    }
}

/// What `num_trunc` returns for a number text: its integer part with the
/// number's sign (truncation toward zero), or `None` where the text is not
/// a plain decimal number or its integer part reaches `10^18`.
pub open spec fn num_trunc_spec(s: Seq<char>) -> Option<int> {
    let neg = s.len() >= 1 && s[0] == '-';
    let d = if neg {
        s.skip(1)
    } else {
        s
    };
    let dot = first_ch(d, '.');
    let ip = if dot == -1 {
        d
    } else {
        d.take(dot)
    };
    let fp = if dot == -1 {
        Seq::<char>::empty()
    } else {
        d.skip(dot + 1)
    };
    if ip.len() >= 1 && all_digits(ip) && digits_val(ip) < 1000000000000000000 && (dot == -1
        || (fp.len() >= 1 && all_digits(fp))) {
        Option::Some(
            if neg {
                -digits_val(ip)
            } else {
                digits_val(ip)
            },
        )
    } else {
        Option::None
    }
}

/// Reads a decimal number text (`-`? digits, optionally `.` digits) and
/// truncates it toward zero: the fraction digits are dropped and the sign
/// is kept.
#[verifier::loop_isolation(false)]
#[verifier::rlimit(60)]
pub fn num_trunc(s: &str) -> (r: Option<i64>)
    ensures
        match num_trunc_spec(s@) {
            Option::Some(v) => r matches Some(x) && x as int == v,
            Option::None => r is None,
        },
{
    let cs = chars_of(s);
    let n = cs.len();
    let neg = n >= 1 && cs[0] == '-';
    let st: usize = if neg {
        1
    } else {
        0
    };
    let ghost d = if neg {
        s@.skip(1)
    } else {
        s@
    };
    proof {
        assert(d =~= s@.subrange(st as int, n as int));
    }
    let mut dt: usize = st;
    while dt < n && cs[dt] != '.'
        invariant
            st <= dt <= n,
            forall|k: int| st <= k < dt ==> s@[k] != '.',
        decreases n - dt,
    {
        dt = dt + 1;
    }
    proof {
        if dt < n {
            assert(d[dt - st] == s@[dt as int]);
            assert(forall|k: int| 0 <= k < dt - st ==> (#[trigger] d[k]) == s@[k + st]);
            lemma_first_ch_at(d, '.', dt - st);
        } else {
            assert(forall|k: int| 0 <= k < d.len() ==> (#[trigger] d[k]) == s@[k + st]);
            lemma_first_ch_none(d, '.');
        }
    }
    let ghost dot = first_ch(d, '.');
    let ghost ip = if dot == -1 {
        d
    } else {
        d.take(dot)
    };
    let ghost fp = if dot == -1 {
        Seq::<char>::empty()
    } else {
        d.skip(dot + 1)
    };
    proof {
        assert(ip =~= s@.subrange(st as int, dt as int));
        if dt < n {
            assert(fp =~= s@.subrange(dt + 1, n as int));
        }
    }
    if dt == st {
        proof {
            assert(ip.len() == 0);
        }
        return None;
    }
    if dt < n && dt + 1 == n {
        proof {
            assert(fp.len() == 0);
        }
        return None;
    }
    if dt < n {
        let mut k: usize = dt + 1;
        while k < n
            invariant
                dt + 1 <= k <= n,
                forall|q: int| dt + 1 <= q < k ==> is_digit_char(#[trigger] s@[q]),
            decreases n - k,
        {
            let c = cs[k];
            let cu = c as u32;
            if cu < 48 || cu > 57 {
                proof {
                    assert(fp[k - dt - 1] == s@[k as int]);
                    assert(!all_digits(fp));
                }
                return None;
            }
            k = k + 1;
        }
        proof {
            assert(forall|q: int| 0 <= q < fp.len() ==> (#[trigger] fp[q]) == s@[q + dt + 1]);
            assert(all_digits(fp));
        }
    }
    let mag: u64 = match digit_run_val(&cs, st, dt, 1000000000000000000) {
        Option::Some(x) => x,
        Option::None => {
            return None;
        },
    };
    if neg {
        Some(-(mag as i64))
    } else {
        Some(mag as i64)
    }
}

} // verus!
