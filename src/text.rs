//! Byte-level building blocks of the object format: ASCII decimal numbers,
//! searching for a delimiter, and copying bytes.

use vstd::prelude::*;

verus! {

/// The ASCII code of decimal digit `d` (for `d < 10`).
pub open spec fn digit_byte(d: nat) -> u8 {
    (48 + d) as u8
}

/// The shortest ASCII decimal rendering of `n`.
pub open spec fn dec(n: nat) -> Seq<u8>
    decreases n,
{
    if n < 10 {
        seq![digit_byte(n)]
    } else {
        dec(n / 10) + seq![digit_byte(n % 10)]
    }
}

/// Whether `b` is an ASCII decimal digit.
pub open spec fn is_digit(b: u8) -> bool {
    48 <= b <= 57
}

/// Whether `s` is a non-empty run of ASCII decimal digits.
pub open spec fn is_digits(s: Seq<u8>) -> bool {
    s.len() > 0 && forall|i: int| 0 <= i < s.len() ==> is_digit(#[trigger] s[i])
}

/// The number that a run of ASCII decimal digits denotes.
pub open spec fn dec_value(s: Seq<u8>) -> nat
    decreases s.len(),
{
    if s.len() == 0 {
        0
    } else {
        dec_value(s.drop_last()) * 10 + (s.last() - 48) as nat
    }
}

/// Reading back a decimal rendering gives the number rendered.
pub proof fn lemma_dec_round_trip(n: nat)
    ensures
        is_digits(dec(n)),
        dec_value(dec(n)) == n,
        dec(n).len() >= 1,
    decreases n,
{
    let s = dec(n);
    if n < 10 {
        assert(s.drop_last() =~= Seq::<u8>::empty());
        assert(s.last() == 48 + n);
        assert(dec_value(s) == dec_value(s.drop_last()) * 10 + (s.last() - 48) as nat);
        assert(dec_value(Seq::<u8>::empty()) == 0);
    } else {
        lemma_dec_round_trip(n / 10);
        assert(s.drop_last() =~= dec(n / 10));
        assert(s.last() == digit_byte(n % 10));
        assert(digit_byte(n % 10) == 48 + n % 10);
        assert(n == (n / 10) * 10 + n % 10) by (nonlinear_arith);
        assert(dec_value(s) == dec_value(s.drop_last()) * 10 + (s.last() - 48) as nat);
        assert forall|i: int| 0 <= i < s.len() implies is_digit(#[trigger] s[i]) by {
            if i < s.len() - 1 {
                assert(s[i] == dec(n / 10)[i]);
            }
        }
    }
}

/// Appends the decimal rendering of `n` to `out`.
pub fn push_decimal(out: &mut Vec<u8>, n: u64)
    ensures
        final(out)@ == old(out)@ + dec(n as nat),
    decreases n,
{
    if n >= 10 {
        push_decimal(out, n / 10);
    }
    out.push(48u8 + (n % 10) as u8);
    proof {
        if n >= 10 {
            assert(final(out)@ =~= old(out)@ + dec(n as nat));
        } else {
            assert(final(out)@ =~= old(out)@ + dec(n as nat));
        }
    }
}

/// Appends every byte of `src` to `out`, in order.
pub fn push_bytes(out: &mut Vec<u8>, src: &[u8])
    ensures
        final(out)@ == old(out)@ + src@,
{
    let ghost start = out@;
    let mut i: usize = 0;
    while i < src.len()
        invariant
            i <= src@.len(),
            out@ == start + src@.subrange(0, i as int),
        decreases src@.len() - i,
    {
        out.push(src[i]);
        i = i + 1;
        proof {
            assert(out@ =~= start + src@.subrange(0, i as int));
        }
    }
    proof {
        assert(src@.subrange(0, src@.len() as int) =~= src@);
    }
}

/// The position of the first `b` in `s` at or after `from`, if any.
pub open spec fn find_from(s: Seq<u8>, b: u8, from: int) -> Option<int>
    decreases s.len() - from,
{
    if from < 0 || from >= s.len() {
        None
    } else if s[from] == b {
        Some(from)
    } else {
        find_from(s, b, from + 1)
    }
}

/// `find_from` returns the first occurrence.
pub proof fn lemma_find_from(s: Seq<u8>, b: u8, from: int)
    requires
        0 <= from,
    ensures
        find_from(s, b, from) matches Some(i) ==> from <= i < s.len() && s[i] == b && forall|j: int|
            from <= j < i ==> s[j] != b,
        find_from(s, b, from) is None ==> forall|j: int| from <= j < s.len() ==> s[j] != b,
    decreases s.len() - from,
{
    if from < s.len() && s[from] != b {
        lemma_find_from(s, b, from + 1);
    }
}

/// A run of bytes free of `b` followed by `b` is found at its end.
pub proof fn lemma_find_after_run(s: Seq<u8>, b: u8, from: int, at: int)
    requires
        0 <= from <= at < s.len(),
        s[at] == b,
        forall|j: int| from <= j < at ==> s[j] != b,
    ensures
        find_from(s, b, from) == Some(at),
    decreases at - from,
{
    if from < at {
        lemma_find_after_run(s, b, from + 1, at);
    }
}

/// Finds the first `b` in `s` at or after `from`.
pub fn find_byte(s: &[u8], b: u8, from: usize) -> (r: Option<usize>)
    ensures
        r matches Some(i) ==> find_from(s@, b, from as int) == Some(i as int),
        r is None ==> find_from(s@, b, from as int) is None,
{
    let mut i: usize = from;
    while i < s.len()
        invariant
            from <= i,
            forall|j: int| from <= j < i && j < s@.len() ==> s@[j] != b,
        decreases s@.len() - i,
    {
        if s[i] == b {
            proof {
                lemma_find_after_run(s@, b, from as int, i as int);
            }
            return Some(i);
        }
        i = i + 1;
    }
    proof {
        lemma_find_from(s@, b, from as int);
        if find_from(s@, b, from as int) is Some {
            let k = find_from(s@, b, from as int)->0;
            assert(s@[k] == b);
        }
    }
    None
}

/// Whether `lit` stands in `s` at position `at`.
pub fn matches_at(s: &[u8], at: usize, lit: &[u8]) -> (r: bool)
    ensures
        r == (at + lit@.len() <= s@.len() && s@.subrange(at as int, at + lit@.len()) == lit@),
{
    if at > s.len() || s.len() - at < lit.len() {
        return false;
    }
    let mut i: usize = 0;
    while i < lit.len()
        invariant
            at + lit@.len() <= s@.len(),
            s@.len() <= usize::MAX,
            i <= lit@.len(),
            forall|j: int| 0 <= j < i ==> s@[at + j] == lit@[j],
        decreases lit@.len() - i,
    {
        if s[at + i] != lit[i] {
            proof {
                assert(s@.subrange(at as int, at + lit@.len())[i as int] != lit@[i as int]);
            }
            return false;
        }
        i = i + 1;
    }
    proof {
        assert(s@.subrange(at as int, at + lit@.len()) =~= lit@);
    }
    true
}

/// A copy of `s[from..to]`.
pub fn copy_range(s: &[u8], from: usize, to: usize) -> (r: Vec<u8>)
    requires
        from <= to <= s@.len(),
    ensures
        r@ == s@.subrange(from as int, to as int),
{
    let mut r: Vec<u8> = Vec::new();
    let mut i: usize = from;
    while i < to
        invariant
            from <= i <= to,
            to <= s@.len(),
            r@ == s@.subrange(from as int, i as int),
        decreases to - i,
    {
        r.push(s[i]);
        i = i + 1;
        proof {
            assert(r@ =~= s@.subrange(from as int, i as int));
        }
    }
    r
}

/// A decimal value never shrinks as digits are appended.
pub proof fn lemma_dec_value_grows(s: Seq<u8>, i: int, j: int)
    requires
        0 <= i <= j <= s.len(),
    ensures
        dec_value(s.subrange(0, i)) <= dec_value(s.subrange(0, j)),
    decreases j - i,
{
    if i < j {
        lemma_dec_value_grows(s, i, j - 1);
        assert(s.subrange(0, j).drop_last() =~= s.subrange(0, j - 1));
    }
}

/// Whether `s[from..to]` is a run of digits whose value is `target`.
pub fn digits_denote(s: &[u8], from: usize, to: usize, target: usize) -> (r: bool)
    requires
        from <= to <= s@.len(),
    ensures
        r == (is_digits(s@.subrange(from as int, to as int)) && dec_value(
            s@.subrange(from as int, to as int),
        ) == target),
{
    let ghost t = s@.subrange(from as int, to as int);
    if from == to {
        return false;
    }
    let mut acc: u128 = 0;
    let mut i: usize = from;
    while i < to
        invariant
            from <= i <= to,
            to <= s@.len(),
            t == s@.subrange(from as int, to as int),
            acc == dec_value(t.subrange(0, i - from)),
            acc <= target,
            forall|k: int| 0 <= k < i - from ==> is_digit(#[trigger] t[k]),
        decreases to - i,
    {
        let c = s[i];
        if c < 48 || c > 57 {
            proof {
                assert(!is_digit(t[i - from]));
            }
            return false;
        }
        let ghost prev = t.subrange(0, i - from);
        assert(acc * 10 <= 10 * (usize::MAX as int)) by (nonlinear_arith)
            requires
                acc <= target,
                target <= usize::MAX,
        ;
        acc = acc * 10 + (c - 48) as u128;
        proof {
            assert(t.subrange(0, i - from + 1).drop_last() =~= prev);
        }
        if acc > target as u128 {
            proof {
                lemma_dec_value_grows(t, i - from + 1, t.len() as int);
                assert(t.subrange(0, t.len() as int) =~= t);
            }
            return false;
        }
        i = i + 1;
    }
    proof {
        assert(t.subrange(0, t.len() as int) =~= t);
    }
    acc == target as u128
}

/// Where `b` first occurs in a suffix of `s`, measured from the suffix's start.
pub proof fn lemma_find_in_suffix(s: Seq<u8>, b: u8, at: int, k: int)
    requires
        0 <= at <= s.len(),
        0 <= k,
    ensures
        find_from(s.subrange(at, s.len() as int), b, k) == match find_from(s, b, at + k) {
            Some(i) => Some(i - at),
            None => None::<int>,
        },
    decreases s.len() - at - k,
{
    let t = s.subrange(at, s.len() as int);
    if at + k < s.len() {
        assert(t[k] == s[at + k]);
        if s[at + k] != b {
            lemma_find_in_suffix(s, b, at, k + 1);
        }
    }
}

/// The value of the digit run `s[from..to]`, if it is one and fits a `u64`.
pub fn parse_u64(s: &[u8], from: usize, to: usize) -> (r: Option<u64>)
    requires
        from <= to <= s@.len(),
    ensures
        r is Some <==> is_digits(s@.subrange(from as int, to as int)) && dec_value(
            s@.subrange(from as int, to as int),
        ) <= u64::MAX,
        r matches Some(v) ==> v == dec_value(s@.subrange(from as int, to as int)),
{
    let ghost t = s@.subrange(from as int, to as int);
    if from == to {
        return None;
    }
    let mut acc: u128 = 0;
    let mut i: usize = from;
    while i < to
        invariant
            from <= i <= to,
            to <= s@.len(),
            t == s@.subrange(from as int, to as int),
            acc == dec_value(t.subrange(0, i - from)),
            acc <= u64::MAX,
            forall|k: int| 0 <= k < i - from ==> is_digit(#[trigger] t[k]),
        decreases to - i,
    {
        let c = s[i];
        if c < 48 || c > 57 {
            proof {
                assert(!is_digit(t[i - from]));
            }
            return None;
        }
        let ghost prev = t.subrange(0, i - from);
        acc = acc * 10 + (c - 48) as u128;
        proof {
            assert(t.subrange(0, i - from + 1).drop_last() =~= prev);
        }
        if acc > u64::MAX as u128 {
            proof {
                lemma_dec_value_grows(t, i - from + 1, t.len() as int);
                assert(t.subrange(0, t.len() as int) =~= t);
            }
            return None;
        }
        i = i + 1;
    }
    proof {
        assert(t.subrange(0, t.len() as int) =~= t);
    }
    Some(acc as u64)
}

} // verus!
