//! Enumeration helpers: subsets of a sequence, grouping by a key, binomial
//! coefficients, and decimal rendering of small numbers.

use std::collections::BTreeMap;

use vstd::arithmetic::div_mod::lemma_div_denominator;
use vstd::arithmetic::div_mod::lemma_fundamental_div_mod_converse;
use vstd::arithmetic::power2::{lemma_pow2_adds, lemma_pow2_pos, lemma_pow2_unfold, pow2};
use vstd::bits::{lemma_u64_pow2_no_overflow, lemma_u64_shl_is_mul, lemma_u64_shr_is_div};
use vstd::laws_cmp::obeys_cmp;
use vstd::prelude::*;
use vstd::string::StringExecFns;

verus! {

/// Whether bit `i` of `mask` is set.
pub open spec fn bit_set(mask: nat, i: nat) -> bool {
    (mask / pow2(i)) % 2 == 1
}

/// The subset of `items` that `mask` selects: item `i` is in it when bit
/// `i` of `mask` is set. The items keep their relative order.
pub open spec fn subset_of<T>(items: Seq<T>, mask: nat) -> Seq<T>
    decreases items.len(),
{
    if items.len() == 0 {
        Seq::empty()
    } else {
        let rest = subset_of(items.drop_last(), mask);
        if bit_set(mask, (items.len() - 1) as nat) {
            rest.push(items.last())
        } else {
            rest
        }
    }
}

/// The enumeration of all subsets of a sequence, in the order of a binary
/// counter: subset number `m` holds the items whose bits are set in `m`.
pub struct PowerSet<'a, T> {
    items: &'a [T],
    current: u64,
}

impl<'a, T: Copy> PowerSet<'a, T> {
    /// The items whose subsets are enumerated.
    pub closed spec fn items(&self) -> Seq<T> {
        self.items@
    }

    /// The number of the subset that comes next.
    pub closed spec fn position(&self) -> nat {
        self.current as nat
    }

    pub open spec fn wf(&self) -> bool {
        &&& self.items().len() < 64
        &&& self.position() <= pow2(self.items().len())
    }

    /// The next subset, or `None` once all `2^n` subsets have been given.
    pub fn next(&mut self) -> (r: Option<Vec<T>>)
        requires
            old(self).wf(),
        ensures
            final(self).wf(),
            final(self).items() == old(self).items(),
            old(self).position() == pow2(old(self).items().len()) ==> {
                &&& r is None
                &&& final(self).position() == old(self).position()
            },
            old(self).position() < pow2(old(self).items().len()) ==> {
                &&& r is Some
                &&& r->Some_0@ == subset_of(old(self).items(), old(self).position())
                &&& final(self).position() == old(self).position() + 1
            },
    {
        let n = self.items.len();
        proof {
            lemma_u64_pow2_no_overflow(n as nat);
            lemma_u64_shl_is_mul(1, n as u64);
        }
        if self.current == (1u64 << n as u64) {
            None
        } else {
            let mut set: Vec<T> = Vec::new();
            let mut idx: usize = 0;
            while idx < n
                invariant
                    n == self.items@.len(),
                    n < 64,
                    idx <= n,
                    set@ == subset_of(self.items@.take(idx as int), self.current as nat),
                decreases n - idx,
            {
                let ghost pre = self.items@.take(idx as int);
                let ghost next = self.items@.take(idx + 1);
                assert(next.drop_last() =~= pre);
                let x = self.current;
                let b = x & (1u64 << idx as u64) != 0;
                proof {
                    let i = idx as u64;
                    assert(b == ((x >> i) % 2 == 1)) by (bit_vector)
                        requires
                            i < 64,
                            b == (x & (1u64 << i) != 0),
                    ;
                    lemma_u64_shr_is_div(x, i);
                }
                if b {
                    set.push(self.items[idx]);
                }
                idx = idx + 1;
            }
            assert(self.items@.take(n as int) =~= self.items@);
            self.current = self.current + 1;
            Some(set)
        }
    }
}

/// Enumerates the subsets of `items` (fewer than 64 of them), starting with
/// the empty one and ending with all of them.
pub fn power_set<T: Copy>(items: &[T]) -> (r: PowerSet<'_, T>)
    requires
        items@.len() < 64,
    ensures
        r.wf(),
        r.items() == items@,
        r.position() == 0,
{
    PowerSet { items: items, current: 0 }
}

proof fn lemma_subset_of_all<T>(items: Seq<T>, mask: nat)
    requires
        forall|i: nat| i < items.len() ==> #[trigger] bit_set(mask, i),
    ensures
        subset_of(items, mask) == items,
    decreases items.len(),
{
    if items.len() > 0 {
        lemma_subset_of_all(items.drop_last(), mask);
        assert(bit_set(mask, (items.len() - 1) as nat));
        assert(items.drop_last().push(items.last()) =~= items);
    }
}

proof fn lemma_subset_of_none<T>(items: Seq<T>)
    ensures
        subset_of(items, 0) == Seq::<T>::empty(),
    decreases items.len(),
{
    if items.len() > 0 {
        let n = (items.len() - 1) as nat;
        lemma_subset_of_none(items.drop_last());
        lemma_pow2_pos(n);
        assert(!bit_set(0, n)) by {
            assert(0nat / pow2(n) == 0);
        }
    }
}

proof fn lemma_low_bits_set(n: nat, i: nat)
    requires
        i < n,
    ensures
        bit_set((pow2(n) - 1) as nat, i),
{
    let a = pow2(i);
    let b = pow2((n - i) as nat);
    lemma_pow2_pos(i);
    lemma_pow2_adds(i, (n - i) as nat);
    lemma_pow2_unfold((n - i) as nat);
    let c = pow2((n - i - 1) as nat);
    lemma_pow2_pos((n - i - 1) as nat);
    assert(b == 2 * c);
    assert(pow2(n) == a * b);
    assert((a * b - 1) as int == (b - 1) * a + (a - 1)) by (nonlinear_arith);
    lemma_fundamental_div_mod_converse((pow2(n) - 1) as int, a as int, (b - 1) as int, (a - 1) as int);
    assert(((b - 1) as int) % 2 == 1);
}

/// The enumeration of a power set starts with the empty subset and ends,
/// at number `2^n - 1`, with the whole sequence.
pub proof fn lemma_power_set_bounds<T>(items: Seq<T>)
    ensures
        subset_of(items, 0) == Seq::<T>::empty(),
        subset_of(items, (pow2(items.len()) - 1) as nat) == items,
        pow2(items.len()) >= 1,
{
    lemma_pow2_pos(items.len());
    lemma_subset_of_none(items);
    assert forall|i: nat| i < items.len() implies #[trigger] bit_set((pow2(items.len()) - 1) as nat, i) by {
        lemma_low_bits_set(items.len(), i);
    }
    lemma_subset_of_all(items, (pow2(items.len()) - 1) as nat);
}

/// The items of `items` whose key in `keys` is `k`, in their order.
pub open spec fn with_key<T, K>(items: Seq<T>, keys: Seq<K>, k: K) -> Seq<T>
    decreases items.len(),
{
    if items.len() == 0 {
        Seq::empty()
    } else {
        let rest = with_key(items.drop_last(), keys.take(items.len() - 1), k);
        if keys[items.len() - 1] == k {
            rest.push(items.last())
        } else {
            rest
        }
    }
}

pub proof fn lemma_with_key_absent<T, K>(items: Seq<T>, keys: Seq<K>, k: K)
    requires
        keys.len() == items.len(),
        !keys.contains(k),
    ensures
        with_key(items, keys, k) == Seq::<T>::empty(),
    decreases items.len(),
{
    if items.len() > 0 {
        let shorter = keys.take(items.len() - 1);
        assert(!shorter.contains(k)) by {
            if shorter.contains(k) {
                let j = choose|j: int| 0 <= j < shorter.len() && shorter[j] == k;
                assert(keys[j] == k);
            }
        }
        lemma_with_key_absent(items.drop_last(), shorter, k);
        assert(keys[items.len() - 1] != k);
    }
}

/// `groups` maps each key that occurs in `keys` to the items with that key.
pub open spec fn grouped<T, K>(groups: Map<K, Vec<T>>, items: Seq<T>, keys: Seq<K>) -> bool {
    &&& forall|k: K| #[trigger] groups.contains_key(k) <==> keys.contains(k)
    &&& forall|k: K| #[trigger] groups.contains_key(k) ==> groups[k]@ == with_key(items, keys, k)
}

/// Partitions `items` by the key that `f` gives each one. Each group keeps
/// the items' order; a map iterates its groups in ascending key order.
pub fn group_by<T: Copy, K: Ord, F: Fn(&T) -> K>(items: &[T], f: F) -> (r: BTreeMap<K, Vec<T>>)
    requires
        obeys_cmp::<K>(),
        forall|i: int| 0 <= i < items@.len() ==> f.requires((&items@[i],)),
    ensures
        exists|keys: Seq<K>|
            {
                &&& keys.len() == items@.len()
                &&& forall|i: int| 0 <= i < items@.len() ==> f.ensures((&items@[i],), keys[i])
                &&& grouped(r@, items@, keys)
            },
{
    let mut map: BTreeMap<K, Vec<T>> = BTreeMap::new();
    let ghost mut keys: Seq<K> = Seq::empty();
    let mut i: usize = 0;
    while i < items.len()
        invariant
            obeys_cmp::<K>(),
            forall|j: int| 0 <= j < items@.len() ==> f.requires((&items@[j],)),
            i <= items@.len(),
            keys.len() == i,
            forall|j: int| 0 <= j < i ==> f.ensures((&items@[j],), keys[j]),
            grouped(map@, items@.take(i as int), keys),
        decreases items@.len() - i,
    {
        let item = items[i];
        let key = f(&item);
        let ghost old_map = map@;
        let ghost old_keys = keys;
        let ghost pre = items@.take(i as int);
        let ghost next = items@.take(i + 1);
        proof {
            keys = keys.push(key);
            assert(next.drop_last() =~= pre);
            assert(keys.take(i as int) =~= old_keys);
        }
        match map.remove(&key) {
            Some(mut group) => {
                group.push(item);
                map.insert(key, group);
            },
            None => {
                let mut group: Vec<T> = Vec::new();
                group.push(item);
                map.insert(key, group);
            },
        }
        assert forall|k: K| #[trigger] map@.contains_key(k) implies map@[k]@ == with_key(
            next,
            keys,
            k,
        ) by {
            assert(next.last() == item);
            assert(keys[i as int] == key);
            if k == key && !old_map.contains_key(k) {
                lemma_with_key_absent(pre, old_keys, k);
            }
        }
        assert forall|k: K| #[trigger] map@.contains_key(k) <==> keys.contains(k) by {
            if old_keys.contains(k) {
                let j = choose|j: int| 0 <= j < old_keys.len() && old_keys[j] == k;
                assert(keys[j] == k);
            }
            if keys.contains(k) && k != key {
                let j = choose|j: int| 0 <= j < keys.len() && keys[j] == k;
                assert(old_keys[j] == k);
            }
            assert(keys[i as int] == key);
        }
        i = i + 1;
    }
    assert(items@.take(items@.len() as int) =~= items@);
    map
}

/// `n!`
pub open spec fn factorial(n: nat) -> nat
    decreases n,
{
    if n == 0 {
        1
    } else {
        n * factorial((n - 1) as nat)
    }
}

/// The number of ways to choose `m` items out of `n`: `n! / (m! (n - m)!)`,
/// and 0 when `n < m`.
pub open spec fn binomial(n: int, m: int) -> int {
    if n < m || m < 0 {
        0
    } else {
        (factorial(n as nat) / (factorial(m as nat) * factorial((n - m) as nat))) as int
    }
}

proof fn lemma_factorial_pos(n: nat)
    ensures
        factorial(n) >= 1,
    decreases n,
{
    if n > 0 {
        lemma_factorial_pos((n - 1) as nat);
        assert(n * factorial((n - 1) as nat) >= 1) by (nonlinear_arith)
            requires
                n >= 1,
                factorial((n - 1) as nat) >= 1,
        ;
    }
}

proof fn lemma_factorial_grows(m: nat, n: nat)
    requires
        m <= n,
    ensures
        factorial(m) <= factorial(n),
    decreases n - m,
{
    if m < n {
        lemma_factorial_grows(m, (n - 1) as nat);
        lemma_factorial_pos((n - 1) as nat);
        assert(factorial((n - 1) as nat) <= n * factorial((n - 1) as nat)) by (nonlinear_arith)
            requires
                n >= 1,
        ;
    }
}

proof fn lemma_factorial_20()
    ensures
        factorial(0) == 1,
        factorial(1) == 1,
        factorial(2) == 2,
        factorial(3) == 6,
        factorial(4) == 24,
        factorial(5) == 120,
        factorial(6) == 720,
        factorial(7) == 5040,
        factorial(8) == 40320,
        factorial(9) == 362880,
        factorial(10) == 3628800,
        factorial(11) == 39916800,
        factorial(12) == 479001600,
        factorial(13) == 6227020800,
        factorial(14) == 87178291200,
        factorial(15) == 1307674368000,
        factorial(16) == 20922789888000,
        factorial(17) == 355687428096000,
        factorial(18) == 6402373705728000,
        factorial(19) == 121645100408832000,
        factorial(20) == 2432902008176640000,
{
    assert(factorial(0) == 1);
    assert(factorial(1) == 1);
    assert(factorial(2) == 2);
    assert(factorial(3) == 6);
    assert(factorial(4) == 24);
    assert(factorial(5) == 120);
    assert(factorial(6) == 720);
    assert(factorial(7) == 5040);
    assert(factorial(8) == 40320);
    assert(factorial(9) == 362880);
    assert(factorial(10) == 3628800);
    assert(factorial(11) == 39916800);
    assert(factorial(12) == 479001600);
    assert(factorial(13) == 6227020800);
    assert(factorial(14) == 87178291200);
    assert(factorial(15) == 1307674368000);
    assert(factorial(16) == 20922789888000);
    assert(factorial(17) == 355687428096000);
    assert(factorial(18) == 6402373705728000);
    assert(factorial(19) == 121645100408832000);
    assert(factorial(20) == 2432902008176640000);
}

/// The number of pairs among `n` items, for `n` up to 11.
pub proof fn lemma_pairs(n: int)
    requires
        2 <= n <= 11,
    ensures
        binomial(n, 2) == n * (n - 1) / 2,
        binomial(n, 2) <= 55,
{
    lemma_factorial_20();
    if n == 2 {
        assert(factorial(2) * factorial(0) == 2);
        assert(2nat / 2nat == 1nat);
    }
    if n == 3 {
        assert(factorial(2) * factorial(1) == 2);
        assert(6nat / 2nat == 3nat);
    }
    if n == 4 {
        assert(factorial(2) * factorial(2) == 4);
        assert(24nat / 4nat == 6nat);
    }
    if n == 5 {
        assert(factorial(2) * factorial(3) == 12);
        assert(120nat / 12nat == 10nat);
    }
    if n == 6 {
        assert(factorial(2) * factorial(4) == 48);
        assert(720nat / 48nat == 15nat);
    }
    if n == 7 {
        assert(factorial(2) * factorial(5) == 240);
        assert(5040nat / 240nat == 21nat);
    }
    if n == 8 {
        assert(factorial(2) * factorial(6) == 1440);
        assert(40320nat / 1440nat == 28nat);
    }
    if n == 9 {
        assert(factorial(2) * factorial(7) == 10080);
        assert(362880nat / 10080nat == 36nat);
    }
    if n == 10 {
        assert(factorial(2) * factorial(8) == 80640);
        assert(3628800nat / 80640nat == 45nat);
    }
    if n == 11 {
        assert(factorial(2) * factorial(9) == 725760);
        assert(39916800nat / 725760nat == 55nat);
    }
}

/// `n!`, for `n` up to 20 (the largest whose factorial fits in 64 bits).
pub fn factorial_u64(n: u64) -> (r: u64)
    requires
        n <= 20,
    ensures
        r == factorial(n as nat),
{
    proof {
        lemma_factorial_20();
    }
    let mut total: u64 = 1;
    let mut i: u64 = 1;
    while i <= n
        invariant
            1 <= i <= n + 1,
            n <= 20,
            total == factorial((i - 1) as nat),
            factorial(20) == 2432902008176640000,
        decreases n + 1 - i,
    {
        proof {
            lemma_factorial_grows(i as nat, 20);
            assert(factorial(i as nat) == i * factorial((i - 1) as nat));
            assert(total * i == factorial(i as nat)) by (nonlinear_arith)
                requires
                    total == factorial((i - 1) as nat),
                    factorial(i as nat) == i * factorial((i - 1) as nat),
            ;
        }
        total = total * i;
        i = i + 1;
    }
    total
}

/// The binomial coefficient `C(n, m)`; 0 when `n < m`.
pub fn binomial_coefficient(n: i8, m: i8) -> (r: i8)
    requires
        n < m || (0 <= m && n <= 20 && binomial(n as int, m as int) <= i8::MAX),
    ensures
        r == binomial(n as int, m as int),
{
    if n < m {
        return 0;
    }
    let a = factorial_u64(n as u64);
    let b = factorial_u64(m as u64);
    let c = factorial_u64((n - m) as u64);
    proof {
        lemma_factorial_pos(m as nat);
        lemma_factorial_pos((n - m) as nat);
        lemma_div_denominator(a as int, b as int, c as int);
    }
    (a / b / c) as i8
}

/// The character of a decimal digit `d` (`d < 10`).
pub open spec fn digit_char(d: nat) -> char {
    if d == 0 {
        '0'
    } else if d == 1 {
        '1'
    } else if d == 2 {
        '2'
    } else if d == 3 {
        '3'
    } else if d == 4 {
        '4'
    } else if d == 5 {
        '5'
    } else if d == 6 {
        '6'
    } else if d == 7 {
        '7'
    } else if d == 8 {
        '8'
    } else {
        '9'
    }
}

/// The decimal notation of `n`, without leading zeros.
pub open spec fn decimal(n: nat) -> Seq<char>
    decreases n,
{
    if n < 10 {
        seq![digit_char(n)]
    } else {
        decimal(n / 10).push(digit_char(n % 10))
    }
}

fn digit_str(d: u64) -> (r: &'static str)
    requires
        d < 10,
    ensures
        r@ == seq![digit_char(d as nat)],
{
    proof {
        reveal_strlit("0");
        reveal_strlit("1");
        reveal_strlit("2");
        reveal_strlit("3");
        reveal_strlit("4");
        reveal_strlit("5");
        reveal_strlit("6");
        reveal_strlit("7");
        reveal_strlit("8");
        reveal_strlit("9");
    }
    match d {
        0 => "0",
        1 => "1",
        2 => "2",
        3 => "3",
        4 => "4",
        5 => "5",
        6 => "6",
        7 => "7",
        8 => "8",
        _ => "9",
    }
}

/// Renders `n` in decimal.
pub fn decimal_string(n: u64) -> (r: String)
    ensures
        r@ == decimal(n as nat),
    decreases n,
{
    if n < 10 {
        String::from_str(digit_str(n))
    } else {
        let mut s = decimal_string(n / 10);
        s.append(digit_str(n % 10));
        s
    }
}

} // verus!
