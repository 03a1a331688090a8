use vstd::prelude::*;

verus! {

/// An ASCII decimal digit.
pub open spec fn is_digit(c: u8) -> bool {
    48 <= c <= 57
}

/// The minimal ASCII decimal form of a natural number: no leading zero, no sign.
pub open spec fn nat_digits(n: nat) -> Seq<u8>
    decreases n,
{
    if n < 10 {
        seq![(48 + n) as u8]
    } else {
        nat_digits(n / 10).push((48 + n % 10) as u8)
    }
}

/// The minimal ASCII decimal form of an integer: `-` before the digits of a
/// negative one, never `+`, never `-0`.
pub open spec fn int_digits(i: int) -> Seq<u8> {
    if i < 0 {
        seq![45u8] + nat_digits((-i) as nat)
    } else {
        nat_digits(i as nat)
    }
}

/// The value of a string of decimal digits.
pub open spec fn digits_value(s: Seq<u8>) -> nat
    decreases s.len(),
{
    if s.len() == 0 {
        0
    } else {
        digits_value(s.drop_last()) * 10 + (s.last() - 48) as nat
    }
}

/// One or more digits, without a leading zero unless the digit is alone.
pub open spec fn is_minimal_digits(s: Seq<u8>) -> bool {
    &&& s.len() >= 1
    &&& forall|k: int| 0 <= k < s.len() ==> is_digit(#[trigger] s[k])
    &&& (s.len() > 1 ==> s[0] != 48u8)
}

proof fn lemma_div_mod_10(n: nat)
    ensures
        n == (n / 10) * 10 + n % 10,
        n % 10 < 10,
        n >= 10 ==> n / 10 >= 1,
        n / 10 < n || n == 0,
{
}

/// The minimal form of `n` is minimal, and reads back as `n`.
pub proof fn lemma_nat_digits(n: nat)
    ensures
        is_minimal_digits(nat_digits(n)),
        digits_value(nat_digits(n)) == n,
        n >= 10 ==> nat_digits(n).len() > 1,
    decreases n,
{
    lemma_div_mod_10(n);
    if n < 10 {
        let s = nat_digits(n);
        assert(s.drop_last() =~= Seq::<u8>::empty());
        assert(digits_value(s.drop_last()) == 0);
        assert(is_digit(s[0]));
        assert(is_minimal_digits(s));
    } else {
        lemma_nat_digits(n / 10);
        let s = nat_digits(n);
        let p = nat_digits(n / 10);
        assert(s.drop_last() =~= p);
        assert(s.last() == (48 + n % 10) as u8);
        assert((s.last() - 48) as nat == n % 10);
        assert forall|k: int| 0 <= k < s.len() implies is_digit(#[trigger] s[k]) by {
            if k < p.len() {
                assert(s[k] == p[k]);
            } else {
                assert(s[k] == (48 + n % 10) as u8);
            }
        }
        assert(s[0] == p[0]);
        if n / 10 < 10 {
            assert(p[0] == (48 + n / 10) as u8);
        }
        assert(is_minimal_digits(s));
    }
}

/// A minimal digit string is the minimal form of its value.
pub proof fn lemma_minimal_digits(s: Seq<u8>)
    requires
        is_minimal_digits(s),
    ensures
        nat_digits(digits_value(s)) == s,
        s.len() > 1 ==> digits_value(s) >= 10,
    decreases s.len(),
{
    if s.len() == 1 {
        assert(s.drop_last() =~= Seq::<u8>::empty());
        assert(digits_value(s.drop_last()) == 0);
        assert(is_digit(s[0]));
        let v = digits_value(s);
        assert(v == (s[0] - 48) as nat);
        assert(nat_digits(v) == seq![(48 + v) as u8]);
        assert(nat_digits(v) =~= s);
    } else {
        let p = s.drop_last();
        assert(p[0] == s[0]);
        assert forall|k: int| 0 <= k < p.len() implies is_digit(#[trigger] p[k]) by {
            assert(p[k] == s[k]);
        }
        lemma_minimal_digits(p);
        lemma_value_pos(p);
        let v = digits_value(p);
        let d = (s.last() - 48) as nat;
        assert(is_digit(s[s.len() - 1]));
        assert(d < 10);
        let n = v * 10 + d;
        assert(n / 10 == v && n % 10 == d) by (nonlinear_arith)
            requires
                n == v * 10 + d,
                d < 10,
        ;
        assert(nat_digits(n) =~= p.push(s.last()));
        assert(p.push(s.last()) =~= s);
    }
}

proof fn lemma_value_pos(s: Seq<u8>)
    requires
        s.len() >= 1,
        s[0] != 48u8,
        forall|k: int| 0 <= k < s.len() ==> is_digit(#[trigger] s[k]),
    ensures
        digits_value(s) >= 1,
    decreases s.len(),
{
    if s.len() > 1 {
        let p = s.drop_last();
        assert(p[0] == s[0]);
        assert forall|k: int| 0 <= k < p.len() implies is_digit(#[trigger] p[k]) by {
            assert(p[k] == s[k]);
        }
        lemma_value_pos(p);
    }
}

/// The value of a prefix of a digit string is at most the value of the whole.
pub proof fn lemma_value_prefix(s: Seq<u8>, k: int)
    requires
        0 <= k <= s.len(),
        forall|j: int| 0 <= j < s.len() ==> is_digit(#[trigger] s[j]),
    ensures
        digits_value(s.subrange(0, k)) <= digits_value(s),
    decreases s.len(),
{
    if k < s.len() {
        let p = s.drop_last();
        assert forall|j: int| 0 <= j < p.len() implies is_digit(#[trigger] p[j]) by {
            assert(p[j] == s[j]);
        }
        lemma_value_prefix(p, k);
        assert(p.subrange(0, k) =~= s.subrange(0, k));
        assert(is_digit(s[s.len() - 1]));
    } else {
        assert(s.subrange(0, k) =~= s);
    }
}

/// Every byte of a minimal form is a digit or `-`, so none is `e` or `:`.
pub proof fn lemma_int_digits(i: int)
    ensures
        int_digits(i).len() >= 1,
        forall|k: int|
            0 <= k < int_digits(i).len() ==> is_digit(#[trigger] int_digits(i)[k])
                || int_digits(i)[k] == 45u8,
        is_digit(int_digits(i)[0]) || int_digits(i)[0] == 45u8,
{
    if i < 0 {
        lemma_nat_digits((-i) as nat);
        let s = int_digits(i);
        assert forall|k: int| 0 <= k < s.len() implies is_digit(#[trigger] s[k]) || s[k]
            == 45u8 by {
            if k > 0 {
                assert(s[k] == nat_digits((-i) as nat)[k - 1]);
            }
        }
    } else {
        lemma_nat_digits(i as nat);
    }
}

/// Reads the digits `s[start..end]` as a natural number. Succeeds exactly
/// when they are the minimal form of a number that fits in a `u64`.
pub fn parse_nat(s: &[u8], start: usize, end: usize) -> (r: Option<u64>)
    requires
        start <= end <= s@.len(),
    ensures
        match r {
            Some(n) => s@.subrange(start as int, end as int) == nat_digits(n as nat),
            None => forall|n: u64| s@.subrange(start as int, end as int) != nat_digits(n as nat),
        },
{
    let ghost sub = s@.subrange(start as int, end as int);
    if start == end || (end - start > 1 && s[start] == 48u8) {
        proof {
            assert forall|n: u64| sub != nat_digits(n as nat) by {
                lemma_nat_digits(n as nat);
            }
        }
        return None;
    }
    let mut v: u64 = 0;
    let mut k: usize = start;
    while k < end
        invariant
            start <= k <= end <= s@.len(),
            sub == s@.subrange(start as int, end as int),
            end > start,
            end - start > 1 ==> s@[start as int] != 48u8,
            forall|j: int| start <= j < k ==> is_digit(#[trigger] s@[j]),
            v == digits_value(s@.subrange(start as int, k as int)),
        decreases end - k,
    {
        let c = s[k];
        if c < 48 || c > 57 {
            proof {
                assert forall|n: u64| sub != nat_digits(n as nat) by {
                    lemma_nat_digits(n as nat);
                    if sub == nat_digits(n as nat) {
                        assert(sub[k - start] == c);
                    }
                }
            }
            return None;
        }
        let d = (c - 48) as u64;
        let ghost pre = s@.subrange(start as int, k as int);
        let ghost pre1 = s@.subrange(start as int, k + 1);
        assert(pre1.drop_last() =~= pre);
        if v > (u64::MAX - d) / 10 {
            proof {
                assert(v * 10 + d > u64::MAX) by (nonlinear_arith)
                    requires
                        v > (u64::MAX - d) / 10,
                        d < 10,
                ;
                assert forall|n: u64| sub != nat_digits(n as nat) by {
                    lemma_nat_digits(n as nat);
                    if sub == nat_digits(n as nat) {
                        lemma_value_prefix(sub, k + 1 - start);
                        assert(sub.subrange(0, k + 1 - start) =~= pre1);
                    }
                }
            }
            return None;
        }
        assert(v * 10 + d <= u64::MAX) by (nonlinear_arith)
            requires
                v <= (u64::MAX - d) / 10,
                d < 10,
        ;
        v = v * 10 + d;
        k = k + 1;
    }
    proof {
        assert(s@.subrange(start as int, k as int) =~= sub);
        assert forall|j: int| 0 <= j < sub.len() implies is_digit(#[trigger] sub[j]) by {
            assert(sub[j] == s@[start + j]);
        }
        lemma_minimal_digits(sub);
    }
    Some(v)
}

/// Reads `s[start..end]` as a signed integer. Succeeds exactly when it is the
/// minimal form of a value of `i64`.
pub fn parse_int(s: &[u8], start: usize, end: usize) -> (r: Option<i64>)
    requires
        start <= end <= s@.len(),
    ensures
        match r {
            Some(i) => s@.subrange(start as int, end as int) == int_digits(i as int),
            None => forall|i: i64| s@.subrange(start as int, end as int) != int_digits(i as int),
        },
{
    let ghost sub = s@.subrange(start as int, end as int);
    if start < end && s[start] == 45u8 {
        let ghost tail = s@.subrange(start + 1, end as int);
        assert(sub =~= seq![45u8] + tail);
        match parse_nat(s, start + 1, end) {
            Some(n) => {
                if n == 0 || n > 9223372036854775808 {
                    proof {
                        assert forall|i: i64| sub != int_digits(i as int) by {
                            lemma_int_digits(i as int);
                            lemma_nat_digits(n as nat);
                            if sub == int_digits(i as int) {
                                if i < 0 {
                                    assert(tail =~= sub.subrange(1, sub.len() as int));
                                    assert(tail =~= nat_digits((-i) as nat));
                                    lemma_nat_digits((-i) as nat);
                                } else {
                                    lemma_nat_digits(i as nat);
                                    assert(is_digit(sub[0]));
                                }
                            }
                        }
                    }
                    None
                } else {
                    let i: i64 = if n == 9223372036854775808 {
                        i64::MIN
                    } else {
                        -(n as i64)
                    };
                    assert(sub =~= int_digits(i as int));
                    Some(i)
                }
            },
            None => {
                proof {
                    assert forall|i: i64| sub != int_digits(i as int) by {
                        if sub == int_digits(i as int) {
                            if i < 0 {
                                assert(tail =~= sub.subrange(1, sub.len() as int));
                                assert(tail =~= nat_digits((-i) as nat));
                                assert((-i) as nat <= u64::MAX);
                                let m: u64 = (-i) as u64;
                                assert(tail == nat_digits(m as nat));
                            } else {
                                lemma_nat_digits(i as nat);
                                assert(is_digit(sub[0]));
                            }
                        }
                    }
                }
                None
            },
        }
    } else {
        match parse_nat(s, start, end) {
            Some(n) => {
                if n > 9223372036854775807 {
                    proof {
                        assert forall|i: i64| sub != int_digits(i as int) by {
                            if sub == int_digits(i as int) {
                                if i < 0 {
                                    lemma_nat_digits(n as nat);
                                    assert(sub[0] == 45u8);
                                } else {
                                    lemma_nat_digits(n as nat);
                                    lemma_nat_digits(i as nat);
                                }
                            }
                        }
                    }
                    None
                } else {
                    Some(n as i64)
                }
            },
            None => {
                proof {
                    assert forall|i: i64| sub != int_digits(i as int) by {
                        if sub == int_digits(i as int) {
                            if i < 0 {
                                assert(sub.len() > 0 && sub[0] == 45u8);
                            } else {
                                let m: u64 = i as u64;
                                assert(sub == nat_digits(m as nat));
                            }
                        }
                    }
                }
                None
            },
        }
    }
}

/// Appends the minimal decimal form of `n`.
pub fn push_nat(out: &mut Vec<u8>, n: u64)
    ensures
        final(out)@ == old(out)@ + nat_digits(n as nat),
    decreases n,
{
    if n >= 10 {
        push_nat(out, n / 10);
    }
    out.push((48 + n % 10) as u8);
    assert(out@ =~= old(out)@ + nat_digits(n as nat));
}

/// Appends the minimal decimal form of `i`.
pub fn push_int(out: &mut Vec<u8>, i: i64)
    ensures
        final(out)@ == old(out)@ + int_digits(i as int),
{
    if i < 0 {
        out.push(45u8);
        let m: u64 = if i == i64::MIN {
            9223372036854775808
        } else {
            (-i) as u64
        };
        push_nat(out, m);
        assert(out@ =~= old(out)@ + int_digits(i as int));
    } else {
        push_nat(out, i as u64);
    }
}

} // verus!
