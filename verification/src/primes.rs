//! Primality and the validation of prime-tuple keys.
use crate::primitives::uniform_inclusive;
use crate::text::{dec, push_dec, push_str};
use vstd::prelude::*;

verus! {

/// Lower bound of the normative prime interval `[MIN_KEY_PRIME, MAX_KEY_PRIME]`.
pub const MIN_KEY_PRIME: u64 = 1_000_000;

/// Upper bound (inclusive) of the normative prime interval.
pub const MAX_KEY_PRIME: u64 = 14_999_999;

/// Bound above which `c * k + addend` could wrap a `u64` for a code point
/// `c <= 0x10FFFF`; `MAX_KEY_PRIME` lies well below it.
pub const MAX_SAFE_KEY_PRIME: u64 = 16_557_351_571_215;

/// Number of primes in a generated key.
pub const DEFAULT_KEY_COUNT: usize = 13;

/// Largest number of primes a key may hold.
pub const MAX_KEY_ELEMENTS: usize = 128;

/// Largest key element that the 5-byte key serialisation can carry.
pub const MAX_SERIALISABLE_KEY_PRIME: u64 = 1_099_511_627_775;

/// `n` is prime: at least 2 and without a divisor strictly between 1 and `n`.
pub open spec fn prime(n: nat) -> bool {
    n >= 2 && forall|d: nat| 2 <= d < n ==> #[trigger] (n % d) != 0
}

/// A composite number has a divisor at most its square root.
proof fn lemma_small_divisor(n: nat, d: nat)
    requires
        2 <= d < n,
        n % d == 0,
    ensures
        exists|m: nat| 2 <= m && m * m <= n && #[trigger] (n % m) == 0 && (n % 2 == 1 ==> m % 2 == 1),
{
    let e = n / d;
    vstd::arithmetic::div_mod::lemma_fundamental_div_mod(n as int, d as int);
    assert(n == d * e);
    assert(e >= 2) by (nonlinear_arith)
        requires
            n == d * e,
            d < n,
            d >= 2,
    ;
    let m = if d <= e { d } else { e };
    let o = if d <= e { e } else { d };
    assert(n == m * o) by (nonlinear_arith)
        requires
            n == d * e,
            (m == d && o == e) || (m == e && o == d),
    ;
    assert(m * m <= n) by (nonlinear_arith)
        requires
            n == m * o,
            m <= o,
            m >= 0,
    ;
    assert(n % m == 0) by {
        vstd::arithmetic::div_mod::lemma_mod_multiples_basic(o as int, m as int);
        assert(o * m == m * o) by (nonlinear_arith);
    }
    if n % 2 == 1 {
        if m % 2 == 0 {
            let q = m / 2;
            assert(m == 2 * q);
            assert(n == 2 * (q * o)) by (nonlinear_arith)
                requires
                    n == m * o,
                    m == 2 * q,
            ;
            vstd::arithmetic::div_mod::lemma_mod_multiples_basic((q * o) as int, 2);
            assert((2 * (q * o)) % 2 == 0) by (nonlinear_arith)
                requires
                    ((q * o) * 2) % 2 == 0,
            ;
        }
    }
}

fn square_at_most(i: u64, n: u64) -> (r: bool)
    ensures
        r == ((i as int) * (i as int) <= n as int),
{
    assert((i as int) * (i as int) <= u128::MAX as int) by (nonlinear_arith)
        requires
            0 <= i <= u64::MAX,
    ;
    (i as u128) * (i as u128) <= n as u128
}

/// Trial division by odd numbers up to the square root.
pub fn is_prime(n: u64) -> (r: bool)
    ensures
        r == prime(n as nat),
{
    if n < 2 {
        return false;
    }
    if n == 2 {
        return true;
    }
    if n % 2 == 0 {
        assert(!prime(n as nat)) by {
            assert((n as nat) % 2 == 0);
        }
        return false;
    }
    let mut i: u64 = 3;
    while square_at_most(i, n)
        invariant
            3 <= i <= n + 2,
            i % 2 == 1,
            n % 2 == 1,
            n >= 3,
            forall|d: nat| 3 <= d < i && d % 2 == 1 ==> #[trigger] ((n as nat) % d) != 0,
        decreases n + 2 - i,
    {
        assert(i <= n) by (nonlinear_arith)
            requires
                (i as int) * (i as int) <= n as int,
                i >= 3,
        ;
        if n % i == 0 {
            assert(!prime(n as nat)) by {
                assert((n as nat) % (i as nat) == 0);
                if i == n {
                    assert((i as int) * (i as int) > n as int) by (nonlinear_arith)
                        requires
                            i == n,
                            n >= 3,
                    ;
                }
            }
            return false;
        }
        i = i + 2;
    }
    assert(prime(n as nat)) by {
        assert forall|d: nat| 2 <= d < n implies #[trigger] ((n as nat) % d) != 0 by {
            if (n as nat) % d == 0 {
                lemma_small_divisor(n as nat, d);
                let m = choose|m: nat|
                    2 <= m && m * m <= n && #[trigger] ((n as nat) % m) == 0 && ((n as nat) % 2
                        == 1 ==> m % 2 == 1);
                assert(m < i) by (nonlinear_arith)
                    requires
                        m * m <= n,
                        (i as int) * (i as int) > n as int,
                        i >= 3,
                ;
                assert(m >= 3);
            }
        }
    }
    true
}

/// Result of a fallible computation with its error message taken by view.
pub open spec fn err_view<T>(r: Result<T, String>) -> Result<T, Seq<char>> {
    match r {
        Ok(v) => Ok(v),
        Err(e) => Err(e@),
    }
}

pub open spec fn msg_key_empty() -> Seq<char> {
    "Key must be a non-empty list of primes."@
}

pub open spec fn msg_not_prime(i: nat, k: nat) -> Seq<char> {
    "Key element at index "@ + dec(i) + " ("@ + dec(k) + ") is not prime."@
}

pub open spec fn msg_below_min(i: nat, k: nat) -> Seq<char> {
    "Key element at index "@ + dec(i) + " ("@ + dec(k) + ") is below the minimum of "@ + dec(
        MIN_KEY_PRIME as nat,
    ) + "."@
}

pub open spec fn msg_above_max(i: nat, k: nat) -> Seq<char> {
    "Key element at index "@ + dec(i) + " ("@ + dec(k) + ") exceeds MAX_KEY_PRIME ("@ + dec(
        MAX_KEY_PRIME as nat,
    ) + ")."@
}

pub open spec fn msg_too_many(n: nat) -> Seq<char> {
    "Key has "@ + dec(n) + " elements, exceeding MAX_KEY_ELEMENTS ("@ + dec(
        MAX_KEY_ELEMENTS as nat,
    )
        + "). Very large keys are rejected because per-message primality/distinctness validation is O(K\u{b2}) with the classic scan and O(K log K) with sort-and-scan; the cap makes the cost of legitimate use bounded."@
}

pub open spec fn msg_duplicate(v: nat) -> Seq<char> {
    "Key element "@ + dec(v) + " is a duplicate; all elements must be distinct."@
}

/// The first reason, if any, for which element `k` at index `i` is refused.
pub open spec fn element_error(i: nat, k: u64) -> Option<Seq<char>> {
    if !prime(k as nat) {
        Some(msg_not_prime(i, k as nat))
    } else if k < MIN_KEY_PRIME {
        Some(msg_below_min(i, k as nat))
    } else if k > MAX_KEY_PRIME {
        Some(msg_above_max(i, k as nat))
    } else {
        None
    }
}

/// The first refused element of `key` at index `i` or later.
pub open spec fn first_element_error(key: Seq<u64>, i: nat) -> Option<Seq<char>>
    decreases key.len() - i,
{
    if i >= key.len() {
        None
    } else {
        match element_error(i, key[i as int]) {
            Some(m) => Some(m),
            None => first_element_error(key, i + 1),
        }
    }
}

/// `v` occurs at two different positions of `key`.
pub open spec fn is_duplicate(key: Seq<u64>, v: u64) -> bool {
    exists|i: int, j: int|
        0 <= i < j < key.len() && #[trigger] key[i] == v && #[trigger] key[j] == v
}

/// Some value occurs twice in `key`.
pub open spec fn has_duplicate(key: Seq<u64>) -> bool {
    exists|v: u64| #[trigger] is_duplicate(key, v)
}

/// The smallest value occurring twice in `key`.
pub open spec fn min_duplicate(key: Seq<u64>) -> u64 {
    choose|v: u64| is_duplicate(key, v) && forall|w: u64| #[trigger] is_duplicate(key, w) ==> v <= w
}

/// Every element prime, in `[MIN_KEY_PRIME, MAX_KEY_PRIME]`, distinct, and
/// between 1 and `MAX_KEY_ELEMENTS` of them.
pub open spec fn valid_key(key: Seq<u64>) -> bool {
    &&& 0 < key.len() <= MAX_KEY_ELEMENTS
    &&& forall|i: int| 0 <= i < key.len() ==> {
        &&& prime(#[trigger] key[i] as nat)
        &&& MIN_KEY_PRIME <= key[i] <= MAX_KEY_PRIME
    }
    &&& !has_duplicate(key)
}

/// What key validation answers: the first failed check, in the order
/// emptiness, each element in turn, element count, distinctness.
pub open spec fn key_check(key: Seq<u64>) -> Result<(), Seq<char>> {
    if key.len() == 0 {
        Err(msg_key_empty())
    } else if first_element_error(key, 0) is Some {
        Err(first_element_error(key, 0)->0)
    } else if key.len() > MAX_KEY_ELEMENTS {
        Err(msg_too_many(key.len()))
    } else if has_duplicate(key) {
        Err(msg_duplicate(min_duplicate(key) as nat))
    } else {
        Ok(())
    }
}

proof fn lemma_no_element_error(key: Seq<u64>, i: nat)
    requires
        first_element_error(key, i) is None,
    ensures
        forall|j: int| i <= j < key.len() ==> element_error(j as nat, #[trigger] key[j]) is None,
    decreases key.len() - i,
{
    if i < key.len() {
        lemma_no_element_error(key, i + 1);
    }
}

/// Validation succeeds exactly on valid keys.
pub proof fn lemma_key_check_ok(key: Seq<u64>)
    ensures
        key_check(key) is Ok <==> valid_key(key),
{
    if key_check(key) is Ok {
        lemma_no_element_error(key, 0);
        assert forall|i: int| 0 <= i < key.len() implies {
            &&& prime(#[trigger] key[i] as nat)
            &&& MIN_KEY_PRIME <= key[i] <= MAX_KEY_PRIME
        } by {
            assert(element_error(i as nat, key[i]) is None);
        }
    }
    if valid_key(key) {
        lemma_all_elements_ok(key, 0);
    }
}

proof fn lemma_all_elements_ok(key: Seq<u64>, i: nat)
    requires
        forall|j: int| 0 <= j < key.len() ==> {
            &&& prime(#[trigger] key[j] as nat)
            &&& MIN_KEY_PRIME <= key[j] <= MAX_KEY_PRIME
        },
    ensures
        first_element_error(key, i) is None,
    decreases key.len() - i,
{
    if i < key.len() {
        assert(prime(key[i as int] as nat));
        lemma_all_elements_ok(key, i + 1);
    }
}

fn element_message(prefix_end: &str, i: usize, k: u64) -> (s: String)
    ensures
        s@ == "Key element at index "@ + dec(i as nat) + " ("@ + dec(k as nat) + prefix_end@,
{
    let mut s = String::from_str("Key element at index ");
    push_dec(&mut s, i as u64);
    push_str(&mut s, " (");
    push_dec(&mut s, k);
    push_str(&mut s, prefix_end);
    s
}

/// Checks one key element.
fn check_element(i: usize, k: u64) -> (r: Option<String>)
    ensures
        match r {
            Some(m) => element_error(i as nat, k) == Some(m@),
            None => element_error(i as nat, k) is None,
        },
{
    if !is_prime(k) {
        let s = element_message(") is not prime.", i, k);
        assert(s@ =~= msg_not_prime(i as nat, k as nat));
        return Some(s);
    }
    if k < MIN_KEY_PRIME {
        let mut s = element_message(") is below the minimum of ", i, k);
        push_dec(&mut s, MIN_KEY_PRIME);
        push_str(&mut s, ".");
        assert(s@ =~= msg_below_min(i as nat, k as nat));
        return Some(s);
    }
    if k > MAX_KEY_PRIME {
        let mut s = element_message(") exceeds MAX_KEY_PRIME (", i, k);
        push_dec(&mut s, MAX_KEY_PRIME);
        push_str(&mut s, ").");
        assert(s@ =~= msg_above_max(i as nat, k as nat));
        return Some(s);
    }
    None
}

/// Smallest value that occurs twice in `key`, if any.
fn smallest_duplicate(key: &[u64]) -> (r: Option<u64>)
    ensures
        match r {
            Some(v) => has_duplicate(key@) && v == min_duplicate(key@),
            None => !has_duplicate(key@),
        },
{
    let mut best: Option<u64> = None;
    let mut i: usize = 0;
    while i < key.len()
        invariant
            i <= key@.len(),
            match best {
                Some(v) => is_duplicate(key@, v) && forall|a: int, b: int|
                    0 <= a < b < key@.len() && a < i && #[trigger] key@[a] == #[trigger] key@[b]
                        ==> v <= key@[a],
                None => forall|a: int, b: int|
                    0 <= a < b < key@.len() && a < i ==> key@[a] != key@[b],
            },
        decreases key@.len() - i,
    {
        let mut j: usize = i + 1;
        while j < key.len()
            invariant
                i < key@.len(),
                i + 1 <= j <= key@.len(),
                match best {
                    Some(v) => is_duplicate(key@, v) && forall|a: int, b: int|
                        0 <= a < b < key@.len() && (a < i || (a == i && b < j)) && #[trigger] key@[a]
                            == #[trigger] key@[b] ==> v <= key@[a],
                    None => forall|a: int, b: int|
                        0 <= a < b < key@.len() && (a < i || (a == i && b < j)) ==> key@[a]
                            != key@[b],
                },
            decreases key@.len() - j,
        {
            if key[i] == key[j] {
                let w = key[i];
                assert(is_duplicate(key@, w)) by {
                    assert(key@[i as int] == w && key@[j as int] == w);
                }
                match best {
                    Some(v) => {
                        if w < v {
                            best = Some(w);
                        }
                    },
                    None => {
                        best = Some(w);
                    },
                }
            }
            j = j + 1;
        }
        i = i + 1;
    }
    match best {
        Some(v) => {
            assert forall|w: u64| #[trigger] is_duplicate(key@, w) implies v <= w by {
                let (a, b) = choose|a: int, b: int|
                    0 <= a < b < key@.len() && #[trigger] key@[a] == w && #[trigger] key@[b] == w;
                assert(key@[a] == w && key@[b] == w);
            }
            assert(has_duplicate(key@));
            let ghost m = min_duplicate(key@);
            assert(is_duplicate(key@, m) && forall|w: u64|
                #[trigger] is_duplicate(key@, w) ==> m <= w);
            assert(m <= v && v <= m);
        },
        None => {
            assert forall|w: u64| !#[trigger] is_duplicate(key@, w) by {
                if is_duplicate(key@, w) {
                    let (a, b) = choose|a: int, b: int|
                        0 <= a < b < key@.len() && #[trigger] key@[a] == w && #[trigger] key@[b]
                            == w;
                    assert(key@[a] == key@[b]);
                }
            }
        },
    }
    best
}

/// Refuses a key that is empty, holds a composite or out-of-range element,
/// holds more than `MAX_KEY_ELEMENTS` elements, or repeats an element; the
/// message names the first failed check.
pub fn validate_key(key: &[u64]) -> (r: Result<(), String>)
    ensures
        err_view(r) == key_check(key@),
        r is Ok <==> valid_key(key@),
{
    proof {
        lemma_key_check_ok(key@);
    }
    if key.len() == 0 {
        return Err(String::from_str("Key must be a non-empty list of primes."));
    }
    let mut i: usize = 0;
    while i < key.len()
        invariant
            i <= key@.len(),
            first_element_error(key@, 0) == first_element_error(key@, i as nat),
        decreases key@.len() - i,
    {
        match check_element(i, key[i]) {
            Some(m) => {
                return Err(m);
            },
            None => {},
        }
        i = i + 1;
    }
    if key.len() > MAX_KEY_ELEMENTS {
        let mut s = String::from_str("Key has ");
        push_dec(&mut s, key.len() as u64);
        push_str(&mut s, " elements, exceeding MAX_KEY_ELEMENTS (");
        push_dec(&mut s, MAX_KEY_ELEMENTS as u64);
        push_str(
            &mut s,
            "). Very large keys are rejected because per-message primality/distinctness validation is O(K\u{b2}) with the classic scan and O(K log K) with sort-and-scan; the cap makes the cost of legitimate use bounded.",
        );
        return Err(s);
    }
    match smallest_duplicate(key) {
        Some(v) => {
            let mut s = String::from_str("Key element ");
            push_dec(&mut s, v);
            push_str(&mut s, " is a duplicate; all elements must be distinct.");
            Err(s)
        },
        None => Ok(()),
    }
}

/// How many draws `generate_prime_numbers` may make on `[min_val, max_val]`:
/// four per value of the interval, saturating at `u64::MAX`.
pub open spec fn max_prime_draws(min_val: u64, max_val: u64) -> nat {
    if max_val - min_val >= u64::MAX / 4 {
        u64::MAX as nat
    } else {
        ((max_val - min_val + 1) * 4) as nat
    }
}

/// The primes kept from a sequence of draws: each draw, in order, is kept
/// when it is prime, not kept already, and fewer than `count` are kept.
pub open spec fn kept_primes(draws: Seq<u64>, count: nat) -> Seq<u64>
    decreases draws.len(),
{
    if draws.len() == 0 {
        Seq::empty()
    } else {
        let acc = kept_primes(draws.drop_last(), count);
        let d = draws.last();
        if acc.len() < count && prime(d as nat) && !acc.contains(d) {
            acc.push(d)
        } else {
            acc
        }
    }
}

/// `out` is what the prime search keeps from some run of draws in
/// `[min_val, max_val]` that stopped because `count` primes were kept or
/// because all `max_prime_draws` draws were made.
pub open spec fn drawn_primes(count: nat, min_val: u64, max_val: u64, out: Seq<u64>) -> bool {
    exists|draws: Seq<u64>|
        {
            &&& #[trigger] kept_primes(draws, count) == out
            &&& draws.len() <= max_prime_draws(min_val, max_val)
            &&& forall|i: int| 0 <= i < draws.len() ==> min_val <= #[trigger] draws[i] <= max_val
            &&& (out.len() == count || draws.len() == max_prime_draws(min_val, max_val))
        }
}

/// One step of the prime search on the drawn value `num`: it is kept (pushed)
/// when fewer than `count` primes are kept, it is prime, and it is not kept
/// already; otherwise nothing changes.
pub fn keep_prime_draw(primes: &mut Vec<u64>, count: usize, num: u64)
    ensures
        final(primes)@ == if old(primes)@.len() < count && prime(num as nat) && !old(
            primes,
        )@.contains(num) {
            old(primes)@.push(num)
        } else {
            old(primes)@
        },
{
    if primes.len() < count && is_prime(num) && !contains(primes, num) {
        primes.push(num);
    }
}

/// Draws distinct primes uniformly from `[min_val, max_val]` until `count`
/// are found or `4 * (max_val - min_val + 1)` draws have been made; returns
/// what was found (fewer than `count` only when the draws ran out).
pub fn generate_prime_numbers(count: usize, min_val: u64, max_val: u64) -> (primes: Vec<u64>)
    requires
        max_val > min_val,
    ensures
        primes@.len() <= count,
        forall|i: int|
            0 <= i < primes@.len() ==> prime(#[trigger] primes@[i] as nat) && min_val
                <= primes@[i] <= max_val,
        !has_duplicate(primes@),
        drawn_primes(count as nat, min_val, max_val, primes@),
{
    let span = max_val - min_val;
    let max_attempts: u64 = if span >= u64::MAX / 4 {
        u64::MAX
    } else {
        (span + 1) * 4
    };
    let mut primes: Vec<u64> = Vec::new();
    let mut attempts: u64 = 0;
    let ghost mut draws: Seq<u64> = Seq::empty();
    while primes.len() < count && attempts < max_attempts
        invariant
            primes@.len() <= count,
            forall|i: int|
                0 <= i < primes@.len() ==> prime(#[trigger] primes@[i] as nat) && min_val
                    <= primes@[i] <= max_val,
            forall|a: int, b: int| 0 <= a < b < primes@.len() ==> primes@[a] != primes@[b],
            min_val < max_val,
            max_attempts == max_prime_draws(min_val, max_val),
            draws.len() == attempts,
            attempts <= max_attempts,
            kept_primes(draws, count as nat) == primes@,
            forall|i: int| 0 <= i < draws.len() ==> min_val <= #[trigger] draws[i] <= max_val,
        decreases max_attempts - attempts,
    {
        let num = uniform_inclusive(min_val, max_val);
        let ghost before = draws;
        proof {
            draws = draws.push(num);
            assert(draws.drop_last() =~= before);
        }
        keep_prime_draw(&mut primes, count, num);
        attempts = attempts + 1;
    }
    assert(!has_duplicate(primes@)) by {
        if has_duplicate(primes@) {
            let v = choose|v: u64| #[trigger] is_duplicate(primes@, v);
            let (a, b) = choose|a: int, b: int|
                0 <= a < b < primes@.len() && #[trigger] primes@[a] == v && #[trigger] primes@[b]
                    == v;
            assert(primes@[a] == primes@[b]);
        }
    }
    assert(kept_primes(draws, count as nat) == primes@);
    primes
}

pub(crate) fn contains(v: &Vec<u64>, x: u64) -> (r: bool)
    ensures
        r == v@.contains(x),
{
    let mut i: usize = 0;
    while i < v.len()
        invariant
            i <= v@.len(),
            forall|j: int| 0 <= j < i ==> v@[j] != x,
        decreases v@.len() - i,
    {
        if v[i] == x {
            return true;
        }
        i = i + 1;
    }
    false
}

/// A copy of a prime tuple.
pub fn copy_primes(v: &[u64]) -> (out: Vec<u64>)
    ensures
        out@ == v@,
{
    let mut out: Vec<u64> = Vec::new();
    let mut i: usize = 0;
    while i < v.len()
        invariant
            i <= v@.len(),
            out@ == v@.subrange(0, i as int),
        decreases v@.len() - i,
    {
        out.push(v[i]);
        proof {
            assert(v@.subrange(0, i + 1) =~= v@.subrange(0, i as int).push(v@[i as int]));
        }
        i = i + 1;
    }
    assert(v@.subrange(0, i as int) =~= v@);
    out
}

} // verus!
