use vstd::prelude::*;

verus! {

/// ASCII `0`.
pub const ZERO: u8 = 48;
/// ASCII `+`.
pub const PLUS: u8 = 43;
/// ASCII `-`.
pub const MINUS: u8 = 45;
/// ASCII `.`.
pub const DOT: u8 = 46;
/// ASCII `,`.
pub const COMMA: u8 = 44;

/// Whether a byte is an ASCII decimal digit.
pub open spec fn is_digit(b: u8) -> bool {
    48 <= b <= 57
}

/// Whether every byte of `s` is an ASCII decimal digit.
pub open spec fn all_digits(s: Seq<u8>) -> bool {
    forall|i: int| 0 <= i < s.len() ==> #[trigger] is_digit(s[i])
}

/// Whether every byte of `s` is the digit `0`.
pub open spec fn all_zeros(s: Seq<u8>) -> bool {
    forall|i: int| 0 <= i < s.len() ==> #[trigger] s[i] == ZERO
}

/// The value of a string of decimal digits, most significant first.
pub open spec fn digits_value(s: Seq<u8>) -> int
    decreases s.len(),
{
    if s.len() == 0 {
        0
    } else {
        digits_value(s.drop_last()) * 10 + (s.last() - ZERO)
    }
}

/// Ten to the power `n`.
pub open spec fn pow10(n: nat) -> int
    decreases n,
{
    if n == 0 {
        1
    } else {
        10 * pow10((n - 1) as nat)
    }
}

/// The value of a decimal integer literal as `i64::from_str` reads it: an
/// optional sign, then at least one digit, within the range of `i64`.
pub open spec fn spec_parse_i64(s: Seq<u8>) -> Option<int> {
    let negative = s.len() > 0 && s[0] == MINUS;
    let digits = if s.len() > 0 && (s[0] == PLUS || s[0] == MINUS) { s.drop_first() } else { s };
    if digits.len() == 0 || !all_digits(digits) {
        None
    } else if negative {
        if digits_value(digits) <= i64::MAX + 1 { Some(-digits_value(digits)) } else { None }
    } else {
        if digits_value(digits) <= i64::MAX { Some(digits_value(digits)) } else { None }
    }
}

/// The index of the first occurrence of `b` in `s`, or the length of `s`
/// when it does not occur.
pub open spec fn find_byte(s: Seq<u8>, b: u8) -> int
    decreases s.len(),
{
    if s.len() == 0 {
        0
    } else if s[0] == b {
        0
    } else {
        1 + find_byte(s.drop_first(), b)
    }
}

/// The pieces of `s` between commas, in order; a string with `n` commas has
/// `n + 1` pieces, and the empty string has one empty piece.
pub open spec fn split_fields(s: Seq<u8>) -> Seq<Seq<u8>>
    decreases s.len(),
{
    if s.len() == 0 {
        seq![Seq::<u8>::empty()]
    } else {
        let init = split_fields(s.drop_last());
        if s.last() == COMMA {
            init.push(Seq::<u8>::empty())
        } else {
            init.update(init.len() - 1, init.last().push(s.last()))
        }
    }
}

/// The number of commas in `s`.
pub open spec fn comma_count(s: Seq<u8>) -> nat
    decreases s.len(),
{
    if s.len() == 0 {
        0
    } else {
        comma_count(s.drop_last()) + if s.last() == COMMA { 1nat } else { 0nat }
    }
}

/// Splitting on commas gives one piece more than there are commas, and
/// never an empty list.
pub proof fn lemma_split_fields_len(s: Seq<u8>)
    ensures
        split_fields(s).len() == comma_count(s) + 1,
    decreases s.len(),
{
    if s.len() > 0 {
        lemma_split_fields_len(s.drop_last());
    }
}

pub proof fn lemma_digits_value_nonneg(s: Seq<u8>)
    requires
        all_digits(s),
    ensures
        digits_value(s) >= 0,
    decreases s.len(),
{
    if s.len() > 0 {
        assert(is_digit(s[s.len() - 1]));
        lemma_digits_value_nonneg(s.drop_last());
    }
}

/// The value of a digit string is at least the value of any of its prefixes.
pub proof fn lemma_digits_value_prefix(s: Seq<u8>, j: int)
    requires
        all_digits(s),
        0 <= j <= s.len(),
    ensures
        0 <= digits_value(s.take(j)) <= digits_value(s),
    decreases s.len(),
{
    if j == s.len() {
        assert(s.take(j) =~= s);
        lemma_digits_value_nonneg(s);
    } else {
        let init = s.drop_last();
        assert(init.take(j) =~= s.take(j));
        assert(is_digit(s[s.len() - 1]));
        lemma_digits_value_prefix(init, j);
    }
}

/// A digit string of `n` digits is worth less than ten to the `n`.
pub proof fn lemma_digits_value_bound(s: Seq<u8>)
    requires
        all_digits(s),
    ensures
        0 <= digits_value(s) < pow10(s.len()),
    decreases s.len(),
{
    if s.len() > 0 {
        assert(is_digit(s[s.len() - 1]));
        lemma_digits_value_bound(s.drop_last());
    }
}

pub proof fn lemma_pow10_positive(n: nat)
    ensures
        pow10(n) >= 1,
    decreases n,
{
    if n > 0 {
        lemma_pow10_positive((n - 1) as nat);
    }
}

/// Ten to the power of a sum is the product of the powers.
pub proof fn lemma_pow10_add(a: nat, b: nat)
    ensures
        pow10(a + b) == pow10(a) * pow10(b),
    decreases a,
{
    if a > 0 {
        lemma_pow10_add((a - 1) as nat, b);
        assert(pow10(a + b) == 10 * pow10((a - 1 + b) as nat));
        assert(10 * (pow10((a - 1) as nat) * pow10(b)) == (10 * pow10((a - 1) as nat)) * pow10(b))
            by (nonlinear_arith);
    }
}

/// Powers of ten grow with the exponent.
pub proof fn lemma_pow10_monotone(a: nat, b: nat)
    requires
        a <= b,
    ensures
        1 <= pow10(a) <= pow10(b),
    decreases b,
{
    lemma_pow10_positive(b);
    if a < b {
        lemma_pow10_monotone(a, (b - 1) as nat);
    }
}

pub proof fn lemma_pow10_18()
    ensures
        pow10(18) == 1_000_000_000_000_000_000,
{
    reveal_with_fuel(pow10, 19);
}

/// Ten to the power `n`, for `n` up to 18.
pub fn pow10_exec(n: u32) -> (r: u64)
    requires
        n <= 18,
    ensures
        r == pow10(n as nat),
        r <= 1_000_000_000_000_000_000u64,
{
    let mut r: u64 = 1;
    let mut i: u32 = 0;
    proof {
        lemma_pow10_18();
    }
    while i < n
        invariant
            i <= n <= 18,
            r == pow10(i as nat),
            pow10(18) == 1_000_000_000_000_000_000,
        decreases n - i,
    {
        proof {
            lemma_pow10_monotone((i + 1) as nat, 18);
        }
        r = r * 10;
        i = i + 1;
    }
    proof {
        lemma_pow10_monotone(n as nat, 18);
    }
    r
}

/// The pieces of `s` that a list of bounds delimits.
pub open spec fn slices_of(s: Seq<u8>, bounds: Seq<(usize, usize)>) -> Seq<Seq<u8>> {
    Seq::new(bounds.len(), |k: int| s.subrange(bounds[k].0 as int, bounds[k].1 as int))
}

/// The first index at or after which `b` occurs is the index of a first match.
pub proof fn lemma_find_byte(s: Seq<u8>, b: u8, k: int)
    requires
        0 <= k <= s.len(),
        forall|j: int| 0 <= j < k ==> s[j] != b,
        k == s.len() || s[k] == b,
    ensures
        find_byte(s, b) == k,
    decreases k,
{
    if k > 0 {
        lemma_find_byte(s.drop_first(), b, k - 1);
    }
}

/// `find_byte` gives the first position of `b`, or the length when absent.
pub proof fn lemma_find_byte_facts(s: Seq<u8>, b: u8)
    ensures
        0 <= find_byte(s, b) <= s.len(),
        forall|j: int| 0 <= j < find_byte(s, b) ==> s[j] != b,
        find_byte(s, b) < s.len() ==> s[find_byte(s, b)] == b,
    decreases s.len(),
{
    if s.len() > 0 && s[0] != b {
        lemma_find_byte_facts(s.drop_first(), b);
        assert forall|j: int| 0 <= j < find_byte(s, b) implies s[j] != b by {
            if j > 0 {
                assert(s[j] == s.drop_first()[j - 1]);
            }
        }
    }
}

/// Bytes appended after an occurrence of `b` do not move its first position.
pub proof fn lemma_find_byte_append(s: Seq<u8>, t: Seq<u8>, b: u8)
    requires
        find_byte(s, b) < s.len(),
    ensures
        find_byte(s + t, b) == find_byte(s, b),
{
    lemma_find_byte_facts(s, b);
    let k = find_byte(s, b);
    assert forall|j: int| 0 <= j < k implies (s + t)[j] != b by {
        assert((s + t)[j] == s[j]);
    }
    assert((s + t)[k] == s[k]);
    lemma_find_byte(s + t, b, k);
}

/// Reads the digit string `s[start..end]` as an unsigned number no greater
/// than `limit`; an empty range reads as zero.
pub fn parse_digits(s: &[u8], start: usize, end: usize, limit: u64) -> (res: Option<u64>)
    requires
        start <= end <= s.len(),
    ensures
        ({
            let sub = s@.subrange(start as int, end as int);
            res == if all_digits(sub) && digits_value(sub) <= limit {
                Some(digits_value(sub) as u64)
            } else {
                None::<u64>
            }
        }),
{
    let ghost sub = s@.subrange(start as int, end as int);
    let mut acc: u128 = 0;
    let mut i: usize = start;
    while i < end
        invariant
            start <= i <= end <= s.len(),
            sub == s@.subrange(start as int, end as int),
            all_digits(s@.subrange(start as int, i as int)),
            acc == digits_value(s@.subrange(start as int, i as int)),
            acc <= limit,
        decreases end - i,
    {
        let b = s[i];
        if b < ZERO || b > 57 {
            assert(sub[i - start] == b);
            assert(!is_digit(sub[i - start]));
            return None;
        }
        let ghost prefix = s@.subrange(start as int, i + 1);
        assert(prefix.drop_last() =~= s@.subrange(start as int, i as int));
        assert(all_digits(prefix));
        acc = acc * 10 + (b - ZERO) as u128;
        if acc > limit as u128 {
            proof {
                if all_digits(sub) {
                    assert(sub.take(i + 1 - start) =~= prefix);
                    lemma_digits_value_prefix(sub, i + 1 - start);
                }
            }
            return None;
        }
        i = i + 1;
    }
    assert(s@.subrange(start as int, i as int) =~= sub);
    Some(acc as u64)
}

/// Reads `s[start..end]` as `i64::from_str` does.
pub fn parse_i64(s: &[u8], start: usize, end: usize) -> (res: Option<i64>)
    requires
        start <= end <= s.len(),
    ensures
        match spec_parse_i64(s@.subrange(start as int, end as int)) {
            Some(v) => res == Some(v as i64) && i64::MIN <= v <= i64::MAX,
            None => res is None,
        },
{
    let ghost sub = s@.subrange(start as int, end as int);
    if start == end {
        return None;
    }
    let first = s[start];
    let negative = first == MINUS;
    assert(sub[0] == first);
    let digits_start: usize = if first == PLUS || first == MINUS { start + 1 } else { start };
    proof {
        if first == PLUS || first == MINUS {
            assert(sub.drop_first() =~= s@.subrange(digits_start as int, end as int));
        } else {
            assert(sub =~= s@.subrange(digits_start as int, end as int));
        }
    }
    if digits_start == end {
        return None;
    }
    let limit: u64 = if negative { 9_223_372_036_854_775_808u64 } else { 9_223_372_036_854_775_807u64 };
    proof {
        let digits = s@.subrange(digits_start as int, end as int);
        if all_digits(digits) {
            lemma_digits_value_nonneg(digits);
        }
    }
    match parse_digits(s, digits_start, end, limit) {
        None => None,
        Some(v) => {
            if negative {
                Some((0i128 - v as i128) as i64)
            } else {
                Some(v as i64)
            }
        },
    }
}

/// The index in `s` of the first `b` at or after `start`, or `end` when
/// `s[start..end]` holds none.
pub fn find_byte_exec(s: &[u8], start: usize, end: usize, b: u8) -> (r: usize)
    requires
        start <= end <= s.len(),
    ensures
        r == start + find_byte(s@.subrange(start as int, end as int), b),
        start <= r <= end,
{
    let ghost sub = s@.subrange(start as int, end as int);
    let mut i: usize = start;
    while i < end
        invariant
            start <= i <= end <= s.len(),
            sub == s@.subrange(start as int, end as int),
            forall|j: int| 0 <= j < i - start ==> sub[j] != b,
        decreases end - i,
    {
        if s[i] == b {
            proof {
                lemma_find_byte(sub, b, i - start);
            }
            return i;
        }
        i = i + 1;
    }
    proof {
        lemma_find_byte(sub, b, i - start);
    }
    i
}

/// The bounds of the comma-separated pieces of `s`.
#[verifier::spinoff_prover]
pub fn split_fields_exec(s: &[u8]) -> (bounds: Vec<(usize, usize)>)
    ensures
        slices_of(s@, bounds@) == split_fields(s@),
        forall|k: int| 0 <= k < bounds@.len() ==> (#[trigger] bounds@[k]).0 <= bounds@[k].1,
        forall|k: int| 0 <= k < bounds@.len() ==> (#[trigger] bounds@[k]).1 <= s@.len(),
{
    let mut bounds: Vec<(usize, usize)> = Vec::new();
    let mut cur: usize = 0;
    let mut i: usize = 0;
    assert(s@.take(0) =~= Seq::<u8>::empty());
    assert(slices_of(s@, bounds@).push(s@.subrange(0, 0)) =~= split_fields(s@.take(0)));
    while i < s.len()
        invariant
            cur <= i <= s.len(),
            forall|k: int| 0 <= k < bounds.len() ==> #[trigger] bounds[k].0 <= bounds[k].1 <= cur,
            slices_of(s@, bounds@).push(s@.subrange(cur as int, i as int)) == split_fields(s@.take(i as int)),
        decreases s.len() - i,
    {
        let ghost before = split_fields(s@.take(i as int));
        let ghost old_bounds = bounds@;
        assert(s@.take(i + 1).drop_last() =~= s@.take(i as int));
        assert(s@.take(i + 1).last() == s[i as int]);
        if s[i] == COMMA {
            let ghost old_cur = cur;
            bounds.push((cur, i));
            cur = i + 1;
            proof {
                assert(slices_of(s@, bounds@) =~= slices_of(s@, old_bounds).push(
                    s@.subrange(old_cur as int, i as int),
                ));
                assert(s@.subrange(cur as int, i + 1) =~= Seq::<u8>::empty());
            }
        } else {
            proof {
                assert(s@.subrange(cur as int, i + 1) =~= s@.subrange(cur as int, i as int).push(
                    s[i as int],
                ));
                assert(slices_of(s@, bounds@).push(s@.subrange(cur as int, i + 1)) =~= before.update(
                    before.len() - 1,
                    before.last().push(s[i as int]),
                ));
            }
        }
        i = i + 1;
    }
    let ghost inner = bounds@;
    bounds.push((cur, s.len()));
    assert forall|k: int| 0 <= k < bounds@.len() implies (#[trigger] bounds@[k]).0 <= bounds@[k].1 && bounds@[k].1 <= s@.len() by {
        if k < inner.len() {
            assert(bounds@[k] == inner[k]);
        }
    }
    assert(slices_of(s@, bounds@) =~= slices_of(s@, inner).push(s@.subrange(cur as int, s.len() as int)));
    assert(s@.take(s.len() as int) =~= s@);
    bounds
}

} // verus!
