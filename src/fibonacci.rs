use vstd::prelude::*;
use vstd::arithmetic::div_mod::lemma_add_mod_noop;

verus! {

/// Number of distinct values of a `u64`: terms are kept modulo this.
pub open spec fn word_modulus() -> int {
    0x1_0000_0000_0000_0000
}

/// The Fibonacci numbers: F(0) = 0, F(1) = 1, F(k) = F(k - 2) + F(k - 1).
pub open spec fn fib(k: nat) -> nat
    decreases k,
{
    if k == 0 {
        0
    } else if k == 1 {
        1
    } else {
        fib((k - 2) as nat) + fib((k - 1) as nat)
    }
}

/// F(k) as 64-bit unsigned arithmetic holds it: reduced modulo 2^64.
pub open spec fn fib_word(k: nat) -> u64 {
    (fib(k) as int % word_modulus()) as u64
}

/// Adding two consecutive terms with wraparound gives the next term.
pub proof fn lemma_fib_word_step(k: nat)
    ensures
        fib_word(k + 2) == fib_word(k).wrapping_add(fib_word(k + 1)),
        fib_word(k + 2) as int == (fib_word(k) as int + fib_word(k + 1) as int) % word_modulus(),
{
    let m = word_modulus();
    assert(fib(k + 2) == fib(k) + fib(k + 1));
    lemma_add_mod_noop(fib(k) as int, fib(k + 1) as int, m);
    let s = fib_word(k) as int + fib_word(k + 1) as int;
    assert(0 <= s < 2 * m);
    if s >= m {
        assert(s % m == s - m) by {
            vstd::arithmetic::div_mod::lemma_fundamental_div_mod_converse(s, m, 1, s - m);
        }
    } else {
        assert(s % m == s) by {
            vstd::arithmetic::div_mod::lemma_small_mod(s as nat, m as nat);
        }
    }
}

/// `s` holds F(0), ..., F(n - 1) in order, as 64-bit words.
pub open spec fn is_fibonacci_values(s: Seq<u64>, n: nat) -> bool {
    &&& s.len() == n
    &&& forall|i: int| 0 <= i < n ==> s[i] == fib_word(i as nat)
}

/// `s` holds the pairs (0, F(0)), ..., (n - 1, F(n - 1)) in order.
pub open spec fn is_fibonacci_listing(s: Seq<(u32, u64)>, n: nat) -> bool {
    &&& s.len() == n
    &&& forall|i: int| 0 <= i < n ==> s[i] == (i as u32, fib_word(i as nat))
}

/// The first `n` Fibonacci numbers, each paired with its zero-based index.
/// Terms past the range of `u64` wrap around.
pub fn generate(n: u32) -> (r: Vec<(u32, u64)>)
    ensures
        is_fibonacci_listing(r@, n as nat),
{
    let mut terms: Vec<(u32, u64)> = Vec::new();
    let mut a: u64 = 0;
    let mut b: u64 = 1;
    let mut i: u32 = 0;
    assert(fib(1) == 1);
    while i < n
        invariant
            i <= n,
            terms@.len() == i,
            forall|j: int| 0 <= j < i ==> terms@[j] == (j as u32, fib_word(j as nat)),
            a == fib_word(i as nat),
            b == fib_word(i as nat + 1),
        decreases n - i,
    {
        terms.push((i, a));
        proof {
            lemma_fib_word_step(i as nat);
        }
        let next = a.wrapping_add(b);
        a = b;
        b = next;
        i = i + 1;
    }
    terms
}

/// The first `n` Fibonacci numbers in order, without their indices.
/// Terms past the range of `u64` wrap around.
pub fn generate_fibonacci_vector(n: u32) -> (r: Vec<u64>)
    ensures
        is_fibonacci_values(r@, n as nat),
{
    let mut values: Vec<u64> = Vec::new();
    let mut a: u64 = 0;
    let mut b: u64 = 1;
    let mut i: u32 = 0;
    assert(fib(1) == 1);
    while i < n
        invariant
            i <= n,
            values@.len() == i,
            forall|j: int| 0 <= j < i ==> values@[j] == fib_word(j as nat),
            a == fib_word(i as nat),
            b == fib_word(i as nat + 1),
        decreases n - i,
    {
        values.push(a);
        proof {
            lemma_fib_word_step(i as nat);
        }
        let next = a.wrapping_add(b);
        a = b;
        b = next;
        i = i + 1;
    }
    values
}

/// In a listing of any length, each term is the wrapping sum of the two before
/// it, and the plain sum wherever that sum fits in a `u64`.
pub proof fn lemma_listing_recurrence(s: Seq<(u32, u64)>, n: nat, i: int)
    requires
        is_fibonacci_listing(s, n),
        0 <= i < n - 2,
    ensures
        s[i + 2].1 == s[i].1.wrapping_add(s[i + 1].1),
        s[i].1 as int + s[i + 1].1 as int <= u64::MAX ==> s[i].1 + s[i + 1].1 == s[i + 2].1,
{
    lemma_fib_word_step(i as nat);
    assert((i + 1) as nat == i as nat + 1);
    assert((i + 2) as nat == i as nat + 2);
}

/// The listing of a given length is unique: generating it twice for the same
/// count gives the same sequence.
pub proof fn lemma_listing_deterministic(n: nat, first: Seq<(u32, u64)>, second: Seq<(u32, u64)>)
    requires
        is_fibonacci_listing(first, n),
        is_fibonacci_listing(second, n),
    ensures
        first == second,
{
    assert(first =~= second);
}

} // verus!
