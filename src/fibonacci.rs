//! Counting the distinct Fibonacci numbers that the substrings of a string
//! of digits spell, by computing the sequence or by looking it up in a table.

use crate::range::{chars_of, digit_value, is_digit};
use vstd::prelude::*;

verus! {

/// The largest number that the lookup table reaches.
pub const TABLE_LIMIT: u64 = 1000000;

/// The Fibonacci sequence: 0, 1, 1, 2, 3, 5, 8, ...
pub open spec fn fib(k: nat) -> nat
    decreases k,
{
    if k == 0 {
        0
    } else if k == 1 {
        1
    } else {
        fib((k - 2) as nat) + fib((k - 1) as nat)
    }
}

/// Whether `n` is a positive Fibonacci number.
pub open spec fn is_fibonacci_number(n: nat) -> bool {
    n > 0 && exists|k: nat| fib(k) == n
}

/// The number that the decimal digits `s` spell.
pub open spec fn decimal_value(s: Seq<char>) -> nat
    decreases s.len(),
{
    if s.len() == 0 {
        0
    } else {
        decimal_value(s.drop_last()) * 10 + digit_value(s.last()) as nat
    }
}

/// Whether some substring `s[a..b]`, with `(a, b)` before `(oa, ob)` in the
/// order of start and then end, spells `v`.
pub open spec fn spelled_before(s: Seq<char>, v: nat, oa: int, ob: int) -> bool {
    exists|a: int, b: int|
        0 <= a < b <= s.len() && (a < oa || (a == oa && b < ob)) && #[trigger] decimal_value(
            s.subrange(a, b),
        ) == v
}

/// The Fibonacci numbers that substrings of `s` spell; with `limited`, only
/// those up to `TABLE_LIMIT`.
pub open spec fn fibonacci_values(s: Seq<char>, limited: bool) -> Set<nat> {
    Set::new(
        |v: nat|
            is_fibonacci_number(v) && (limited ==> v <= TABLE_LIMIT) && spelled_before(
                s,
                v,
                s.len() as int,
                s.len() as int + 1,
            ),
    )
}

/// Whether `input` is a string that the counters accept: at most seven
/// decimal digits, and not the single digit `0`.
pub open spec fn accepted_input(input: Seq<char>) -> bool {
    &&& input.len() <= 7
    &&& forall|i: int| 0 <= i < input.len() ==> #[trigger] is_digit(input[i])
    &&& input != seq!['0']
}

/// Whether `t` lists the Fibonacci numbers up to `TABLE_LIMIT`, each once,
/// in ascending order.
pub open spec fn is_fibonacci_table(t: Seq<u64>) -> bool {
    &&& forall|i: int, j: int| 0 <= i < j < t.len() ==> t[i] < t[j]
    &&& forall|v: u64| t.contains(v) <==> is_fibonacci_number(v as nat) && v <= TABLE_LIMIT
}

/// The Fibonacci sequence never decreases.
proof fn lemma_fib_monotone(i: nat, j: nat)
    requires
        i <= j,
    ensures
        fib(i) <= fib(j),
    decreases j,
{
    if i < j {
        lemma_fib_monotone(i, (j - 1) as nat);
        if j >= 2 {
            assert(fib(j) == fib((j - 2) as nat) + fib((j - 1) as nat));
        }
    }
}

/// Digits spell a number below ten to the power of their count.
proof fn lemma_decimal_bound(s: Seq<char>)
    requires
        forall|i: int| 0 <= i < s.len() ==> #[trigger] is_digit(s[i]),
    ensures
        decimal_value(s) < pow10(s.len()),
    decreases s.len(),
{
    if s.len() > 0 {
        assert(is_digit(s[s.len() - 1]));
        let init = s.drop_last();
        lemma_decimal_bound(init);
        let p = pow10(init.len());
        let d = digit_value(s.last());
        assert(decimal_value(init) * 10 + d < 10 * p) by (nonlinear_arith)
            requires
                decimal_value(init) < p,
                0 <= d <= 9,
        ;
    }
}

/// Ten to the power `n`.
spec fn pow10(n: nat) -> nat
    decreases n,
{
    if n == 0 {
        1
    } else {
        10 * pow10((n - 1) as nat)
    }
}

/// Ten to a power of at most seven is at most ten million.
proof fn lemma_pow10_small(n: nat)
    requires
        n <= 7,
    ensures
        pow10(n) <= 10000000,
{
    reveal_with_fuel(pow10, 8);
    assert(n == 0 || n == 1 || n == 2 || n == 3 || n == 4 || n == 5 || n == 6 || n == 7);
}

/// Whether `n` is a positive Fibonacci number, found by walking the sequence
/// up to `n`.
fn is_fibonacci(n: u64) -> (r: bool)
    ensures
        r == is_fibonacci_number(n as nat),
{
    if n == 0 {
        return false;
    }
    if n == 1 {
        assert(fib(1) == 1);
        return true;
    }
    let mut a: u64 = 1;
    let mut b: u64 = 2;
    let ghost mut k: nat = 2;
    proof {
        assert(fib(2) == fib(0) + fib(1));
        assert(fib(3) == fib(1) + fib(2));
        assert forall|j: nat| j <= k implies #[trigger] fib(j) < n by {
            lemma_fib_monotone(j, 2);
        }
    }
    while b < n
        invariant
            k >= 2,
            a == fib(k),
            b == fib(k + 1),
            1 <= a < b,
            forall|j: nat| j <= k ==> #[trigger] fib(j) < n,
        decreases n - a,
    {
        proof {
            lemma_fib_monotone(k, k + 1);
        }
        assert(fib(k + 2) == a + b);
        match a.checked_add(b) {
            Some(c) => {
                a = b;
                b = c;
                proof {
                    k = k + 1;
                }
            },
            None => {
                assert forall|j: nat| fib(j) != n by {
                    if j <= k + 1 {
                        lemma_fib_monotone(j, k + 1);
                    } else {
                        lemma_fib_monotone(k + 2, j);
                    }
                }
                return false;
            },
        }
    }
    if b == n {
        true
    } else {
        assert forall|j: nat| fib(j) != n by {
            if j > k {
                lemma_fib_monotone(k + 1, j);
            }
        }
        false
    }
}

/// The Fibonacci numbers up to `TABLE_LIMIT`, ascending.
fn fibonacci_table() -> (r: Vec<u64>)
    ensures
        is_fibonacci_table(r@),
{
    let mut table: Vec<u64> = Vec::new();
    table.push(1);
    let mut a: u64 = 1;
    let mut b: u64 = 2;
    let ghost mut k: nat = 2;
    proof {
        assert(fib(2) == fib(0) + fib(1));
        assert(fib(3) == fib(1) + fib(2));
        assert forall|v: u64|
            table@.contains(v) <==> is_fibonacci_number(v as nat) && v <= a by {
            if table@.contains(v) {
                assert(table@[0] == v);
                assert(fib(1) == v);
            }
            if is_fibonacci_number(v as nat) && v <= a {
                assert(table@[0] == v);
            }
        }
    }
    while b <= TABLE_LIMIT
        invariant
            k >= 2,
            a == fib(k),
            b == fib(k + 1),
            1 <= a < b,
            a <= TABLE_LIMIT,
            table@.len() > 0,
            table@.last() == a,
            forall|i: int, j: int| 0 <= i < j < table@.len() ==> table@[i] < table@[j],
            forall|v: u64|
                table@.contains(v) <==> is_fibonacci_number(v as nat) && v <= a,
        decreases TABLE_LIMIT - a,
    {
        let ghost old_table = table@;
        table.push(b);
        proof {
            assert forall|v: u64|
                table@.contains(v) <==> is_fibonacci_number(v as nat) && v <= b by {
                if table@.contains(v) {
                    let i = choose|i: int| 0 <= i < table@.len() && table@[i] == v;
                    if i < old_table.len() {
                        assert(old_table.contains(v));
                    } else {
                        assert(fib(k + 1) == v);
                    }
                }
                if is_fibonacci_number(v as nat) && v <= b {
                    if v == b {
                        assert(table@[table@.len() - 1] == v);
                    } else {
                        let j = choose|j: nat| fib(j) == v as nat;
                        if j > k {
                            lemma_fib_monotone(k + 1, j);
                        }
                        lemma_fib_monotone(j, k);
                        assert(old_table.contains(v));
                        let i = choose|i: int| 0 <= i < old_table.len() && old_table[i] == v;
                        assert(table@[i] == v);
                    }
                }
            }
            assert(fib(k + 2) == a + b);
            lemma_fib_monotone(1, k);
            assert(fib(1) == 1);
        }
        let c = a + b;
        a = b;
        b = c;
        proof {
            k = k + 1;
        }
    }
    proof {
        assert forall|v: u64|
            table@.contains(v) <==> is_fibonacci_number(v as nat) && v <= TABLE_LIMIT by {
            if is_fibonacci_number(v as nat) && v <= TABLE_LIMIT && v > a {
                let j = choose|j: nat| fib(j) == v as nat;
                if j <= k {
                    lemma_fib_monotone(j, k);
                } else {
                    lemma_fib_monotone(k + 1, j);
                }
            }
        }
    }
    table
}

/// Whether the ascending list `t` holds `x`, by binary search.
fn sorted_contains(t: &Vec<u64>, x: u64) -> (r: bool)
    requires
        forall|i: int, j: int| 0 <= i < j < t@.len() ==> t@[i] < t@[j],
    ensures
        r == t@.contains(x),
{
    let mut lo: usize = 0;
    let mut hi: usize = t.len();
    while lo < hi
        invariant
            0 <= lo <= hi <= t@.len(),
            forall|i: int, j: int| 0 <= i < j < t@.len() ==> t@[i] < t@[j],
            forall|i: int| 0 <= i < lo ==> t@[i] < x,
            forall|i: int| hi <= i < t@.len() ==> t@[i] > x,
        decreases hi - lo,
    {
        let mid = lo + (hi - lo) / 2;
        if t[mid] == x {
            return true;
        } else if t[mid] < x {
            lo = mid + 1;
        } else {
            hi = mid;
        }
    }
    assert(!t@.contains(x));
    false
}

/// Whether the list `v` holds `x`.
fn list_contains(v: &Vec<u64>, x: u64) -> (r: bool)
    ensures
        r == v@.contains(x),
{
    let mut i: usize = 0;
    while i < v.len()
        invariant
            i <= v@.len(),
            forall|j: int| 0 <= j < i ==> v@[j] != x,
        decreases v@.len() - i,
    {
        if v[i] == x {
            return true;
        }
        i = i + 1;
    }
    false
}

/// The values of `s`, as mathematical integers.
spec fn as_nats(s: Seq<u64>) -> Seq<nat> {
    s.map_values(|x: u64| x as nat)
}

/// Whether `v` is counted: a Fibonacci number, and with `limited` at most
/// `TABLE_LIMIT`.
spec fn counted(v: nat, limited: bool) -> bool {
    is_fibonacci_number(v) && (limited ==> v <= TABLE_LIMIT)
}

/// The counted values among the substrings before `(oa, ob)`.
spec fn counted_before(s: Seq<char>, limited: bool, oa: int, ob: int) -> Set<nat> {
    Set::new(|v: nat| counted(v, limited) && spelled_before(s, v, oa, ob))
}

/// Moving on to the next start leaves the counted values as they are.
proof fn lemma_next_start(s: Seq<char>, limited: bool, offset: int)
    requires
        0 <= offset < s.len(),
    ensures
        counted_before(s, limited, offset, s.len() as int + 1) == counted_before(
            s,
            limited,
            offset + 1,
            offset + 2,
        ),
{
    assert forall|v: nat|
        #[trigger] spelled_before(s, v, offset, s.len() as int + 1) == spelled_before(
            s,
            v,
            offset + 1,
            offset + 2,
        ) by {
        if spelled_before(s, v, offset, s.len() as int + 1) {
            let (a, b) = choose|a: int, b: int|
                0 <= a < b <= s.len() && (a < offset || (a == offset && b < s.len() as int + 1))
                    && #[trigger] decimal_value(s.subrange(a, b)) == v;
            assert(decimal_value(s.subrange(a, b)) == v);
        }
        if spelled_before(s, v, offset + 1, offset + 2) {
            let (a, b) = choose|a: int, b: int|
                0 <= a < b <= s.len() && (a < offset + 1 || (a == offset + 1 && b < offset + 2))
                    && #[trigger] decimal_value(s.subrange(a, b)) == v;
            assert(decimal_value(s.subrange(a, b)) == v);
        }
    }
    assert(counted_before(s, limited, offset, s.len() as int + 1) =~= counted_before(
        s,
        limited,
        offset + 1,
        offset + 2,
    ));
}

/// Moving on to the next end adds the value of one substring.
proof fn lemma_next_end(s: Seq<char>, limited: bool, offset: int, end: int)
    requires
        0 <= offset < end <= s.len(),
    ensures
        counted_before(s, limited, offset, end + 1) == if counted(
            decimal_value(s.subrange(offset, end)),
            limited,
        ) {
            counted_before(s, limited, offset, end).insert(decimal_value(s.subrange(offset, end)))
        } else {
            counted_before(s, limited, offset, end)
        },
{
    let w = decimal_value(s.subrange(offset, end));
    assert forall|v: nat|
        #[trigger] spelled_before(s, v, offset, end + 1) == (spelled_before(s, v, offset, end) || v
            == w) by {
        if spelled_before(s, v, offset, end + 1) {
            let (a, b) = choose|a: int, b: int|
                0 <= a < b <= s.len() && (a < offset || (a == offset && b < end + 1))
                    && #[trigger] decimal_value(s.subrange(a, b)) == v;
            assert(decimal_value(s.subrange(a, b)) == v);
        }
        if spelled_before(s, v, offset, end) {
            let (a, b) = choose|a: int, b: int|
                0 <= a < b <= s.len() && (a < offset || (a == offset && b < end))
                    && #[trigger] decimal_value(s.subrange(a, b)) == v;
            assert(decimal_value(s.subrange(a, b)) == v);
        }
        if v == w {
            assert(decimal_value(s.subrange(offset, end)) == v);
        }
    }
    if counted(w, limited) {
        assert(counted_before(s, limited, offset, end + 1) =~= counted_before(
            s,
            limited,
            offset,
            end,
        ).insert(w));
    } else {
        assert(counted_before(s, limited, offset, end + 1) =~= counted_before(
            s,
            limited,
            offset,
            end,
        ));
    }
}

/// The number of distinct counted values that substrings of `input` spell.
fn count_fibonacci(input: &str, limited: bool, table: &Vec<u64>) -> (r: usize)
    requires
        accepted_input(input@),
        limited ==> is_fibonacci_table(table@),
    ensures
        r == fibonacci_values(input@, limited).len(),
{
    let chars = chars_of(input);
    let n = chars.len();
    let ghost s = chars@;
    let mut found: Vec<u64> = Vec::new();
    let mut offset: usize = 0;
    proof {
        assert(as_nats(found@).to_set() =~= counted_before(s, limited, 0, 1));
    }
    while offset < n
        invariant
            n == s.len(),
            s == chars@,
            accepted_input(s),
            limited ==> is_fibonacci_table(table@),
            offset <= n,
            as_nats(found@).no_duplicates(),
            as_nats(found@).to_set() == counted_before(s, limited, offset as int, offset + 1),
        decreases n - offset,
    {
        let mut num: u64 = 0;
        let mut end: usize = offset + 1;
        proof {
            assert(s.subrange(offset as int, offset as int) =~= Seq::<char>::empty());
        }
        while end <= n
            invariant
                n == s.len(),
                s == chars@,
                accepted_input(s),
                limited ==> is_fibonacci_table(table@),
                offset < end <= n + 1,
                num == decimal_value(s.subrange(offset as int, end - 1)),
                as_nats(found@).no_duplicates(),
                as_nats(found@).to_set() == counted_before(s, limited, offset as int, end as int),
            decreases n + 1 - end,
        {
            let ghost prev = s.subrange(offset as int, end - 1);
            let ghost cur = s.subrange(offset as int, end as int);
            proof {
                assert(cur.drop_last() =~= prev);
                assert(cur.last() == s[end - 1]);
                assert(is_digit(s[end - 1]));
                assert forall|i: int| 0 <= i < prev.len() implies #[trigger] is_digit(prev[i]) by {
                    assert(is_digit(s[offset + i]));
                }
                lemma_decimal_bound(prev);
                lemma_pow10_small(prev.len());
                lemma_next_end(s, limited, offset as int, end as int);
            }
            let c = chars[end - 1];
            let dg = (c as u32 - '0' as u32) as u64;
            num = num * 10 + dg;
            assert(num as nat == decimal_value(cur));
            let hit = if limited {
                sorted_contains(table, num)
            } else {
                is_fibonacci(num)
            };
            assert(hit == counted(num as nat, limited));
            let ghost seen = counted_before(s, limited, offset as int, end as int);
            let ghost next = counted_before(s, limited, offset as int, end + 1);
            if hit && !list_contains(&found, num) {
                let ghost before = found@;
                found.push(num);
                proof {
                    assert(as_nats(found@) =~= as_nats(before).push(num as nat));
                    as_nats(before).lemma_push_to_set_commute(num as nat);
                    assert forall|i: int| 0 <= i < as_nats(before).len() implies as_nats(before)[i] != num as nat by {
                        assert(before[i] != num);
                    }
                    assert(next == seen.insert(num as nat));
                    assert(as_nats(found@).to_set() == next);
                }
            } else if hit {
                proof {
                    let i = choose|i: int| 0 <= i < found@.len() && found@[i] == num;
                    assert(as_nats(found@)[i] == num as nat);
                    assert(as_nats(found@).to_set().contains(num as nat));
                    assert(as_nats(found@).to_set() =~= as_nats(found@).to_set().insert(num as nat));
                    assert(next == seen.insert(num as nat));
                    assert(as_nats(found@).to_set() == next);
                }
            } else {
                assert(next == seen);
            }
            end = end + 1;
        }
        proof {
            lemma_next_start(s, limited, offset as int);
        }
        offset = offset + 1;
    }
    proof {
        as_nats(found@).unique_seq_to_set();
        assert(counted_before(s, limited, n as int, n + 1) =~= fibonacci_values(input@, limited));
    }
    found.len()
}

/// Counts Fibonacci numbers by walking the sequence for each candidate.
pub struct FibonacciCalc {}

impl FibonacciCalc {
    /// The number of distinct Fibonacci numbers that substrings of `input`
    /// spell.
    pub fn calc(input: &str) -> (r: usize)
        requires
            accepted_input(input@),
        ensures
            r == fibonacci_values(input@, false).len(),
    {
        let table: Vec<u64> = Vec::new();
        count_fibonacci(input, false, &table)
    }
}

/// Counts Fibonacci numbers by looking each candidate up in a table of those
/// up to `TABLE_LIMIT`.
pub struct FibonacciEmbed {}

impl FibonacciEmbed {
    /// The number of distinct Fibonacci numbers up to `TABLE_LIMIT` that
    /// substrings of `input` spell.
    pub fn calc(input: &str) -> (r: usize)
        requires
            accepted_input(input@),
        ensures
            r == fibonacci_values(input@, true).len(),
    {
        let table = fibonacci_table();
        count_fibonacci(input, true, &table)
    }
}

} // verus!
