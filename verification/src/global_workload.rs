use vstd::prelude::*;
use std::collections::HashMap;
use crate::shared_buffer::SharedBuffer;
use vstd::string::StringExecFns;
use vstd::arithmetic::power::pow;
use vstd::arithmetic::div_mod::{lemma_mod_add_multiples_vanish, lemma_small_mod};

verus! {

/// `std::hint::black_box`: hands its argument back unchanged, while keeping
/// the optimizer from assuming anything about it.
#[verifier::external_body]
pub(crate) fn black_box<T>(value: T) -> (r: T)
    ensures
        r == value,
{
    std::hint::black_box(value)
}

/// The XOR of `f(0), .., f(rounds - 1)`: how a workload folds its
/// per-round results into one checksum.
pub open spec fn xor_rounds(f: spec_fn(nat) -> usize, rounds: nat) -> usize
    decreases rounds,
{
    if rounds == 0 {
        0
    } else {
        xor_rounds(f, (rounds - 1) as nat) ^ f((rounds - 1) as nat)
    }
}

/// `0 ^ round + 1 ^ round + ... + (len - 1) ^ round`: the sum one round of
/// `vec_push_clear` computes.
pub open spec fn push_clear_sum(round: nat, len: nat) -> nat
    decreases len,
{
    if len == 0 {
        0
    } else {
        push_clear_sum(round, (len - 1) as nat) + (((len - 1) as usize) ^ (round as usize)) as nat
    }
}

/// Partial sums only grow.
pub proof fn lemma_push_clear_sum_monotone(round: nat, a: nat, b: nat)
    requires
        a <= b,
    ensures
        push_clear_sum(round, a) <= push_clear_sum(round, b),
    decreases b - a,
{
    if a < b {
        lemma_push_clear_sum_monotone(round, a, (b - 1) as nat);
    }
}

/// One more element adds `len ^ round` to the round's sum; in round 0 every
/// element is its own index, so the sum of the first `len` elements is
/// `0 + 1 + .. + (len - 1)`.
pub proof fn lemma_push_clear_sum_values(round: usize, len: usize)
    ensures
        len < usize::MAX ==> push_clear_sum(round as nat, len as nat + 1) == push_clear_sum(round as nat, len as nat)
            + (len ^ round) as nat,
        push_clear_sum(0, len as nat) * 2 == len * (len - 1),
    decreases len,
{
    if len > 0 {
        let p = (len - 1) as usize;
        lemma_push_clear_sum_values(round, p);
        assert(p ^ 0usize == p) by (bit_vector);
        assert(push_clear_sum(0, len as nat) == push_clear_sum(0, p as nat) + p);
        assert(push_clear_sum(0, len as nat) * 2 == len * (len - 1)) by (nonlinear_arith)
            requires
                push_clear_sum(0, len as nat) == push_clear_sum(0, p as nat) + p,
                push_clear_sum(0, p as nat) * 2 == p * (p - 1),
                p == len - 1,
        ;
    }
}

/// A fold of the same value over every round cancels in pairs: it is that
/// value after an odd number of rounds and zero after an even number.
pub proof fn lemma_xor_rounds_constant(f: spec_fn(nat) -> usize, c: usize, rounds: nat)
    requires
        forall|round: nat| round < rounds ==> #[trigger] f(round) == c,
    ensures
        xor_rounds(f, rounds) == if rounds % 2 == 1 {
            c
        } else {
            0
        },
    decreases rounds,
{
    if rounds > 0 {
        lemma_xor_rounds_constant(f, c, (rounds - 1) as nat);
        assert(f((rounds - 1) as nat) == c);
        assert(0usize ^ c == c) by (bit_vector);
        assert(c ^ c == 0usize) by (bit_vector);
    }
}

/// Fills a vector with `i ^ round` for `i < len`, sums it and clears it,
/// once per round; returns the XOR of the per-round sums.
pub fn vec_push_clear(rounds: usize, len: usize) -> (r: usize)
    requires
        forall|round: nat| round < rounds ==> #[trigger] push_clear_sum(round, len as nat) <= usize::MAX,
    ensures
        r == xor_rounds(|round: nat| push_clear_sum(round, len as nat) as usize, rounds as nat),
{
    let ghost f = |round: nat| push_clear_sum(round, len as nat) as usize;
    let mut checksum: usize = 0;
    let mut round: usize = 0;
    while round < rounds
        invariant
            round <= rounds,
            forall|rd: nat| rd < rounds ==> #[trigger] push_clear_sum(rd, len as nat) <= usize::MAX,
            f == (|round: nat| push_clear_sum(round, len as nat) as usize),
            checksum == xor_rounds(f, round as nat),
        decreases rounds - round,
    {
        let mut values: Vec<usize> = Vec::with_capacity(len);
        let mut i: usize = 0;
        while i < len
            invariant
                i <= len,
                values.len() == i,
                forall|j: int| 0 <= j < i ==> #[trigger] values@[j] == (j as usize) ^ round,
            decreases len - i,
        {
            values.push(i ^ round);
            i = i + 1;
        }
        assert(push_clear_sum(round as nat, len as nat) <= usize::MAX);
        let mut sum: usize = 0;
        let mut k: usize = 0;
        while k < values.len()
            invariant
                k <= values.len(),
                values.len() == len,
                forall|j: int| 0 <= j < len ==> #[trigger] values@[j] == (j as usize) ^ round,
                push_clear_sum(round as nat, len as nat) <= usize::MAX,
                sum == push_clear_sum(round as nat, k as nat),
            decreases values.len() - k,
        {
            proof {
                lemma_push_clear_sum_monotone(round as nat, (k + 1) as nat, len as nat);
            }
            sum = sum + values[k];
            k = k + 1;
        }
        checksum = checksum ^ sum;
        values.clear();
        black_box(values);
        round = round + 1;
    }
    black_box(checksum)
}

/// `len` of the `i`-th small vector: `i % 128 + 1`.
pub open spec fn small_len(i: nat) -> nat {
    i % 128 + 1
}

/// Total length of the first `count` small vectors of `vec_many_small`.
pub open spec fn many_small_total(count: nat) -> nat
    decreases count,
{
    if count == 0 {
        0
    } else {
        many_small_total((count - 1) as nat) + small_len((count - 1) as nat)
    }
}

/// Partial totals only grow.
pub proof fn lemma_many_small_total_monotone(a: nat, b: nat)
    requires
        a <= b,
    ensures
        many_small_total(a) <= many_small_total(b),
    decreases b - a,
{
    if a < b {
        lemma_many_small_total_monotone(a, (b - 1) as nat);
    }
}

/// The small vectors cycle through the lengths `1..=128`: the first
/// `count <= 128` of them total `1 + 2 + .. + count`, and each further run of
/// 128 adds `1 + 2 + .. + 128`, that is 8256.
pub proof fn lemma_many_small_total_values(count: nat)
    ensures
        count <= 128 ==> many_small_total(count) * 2 == count * (count + 1),
        many_small_total(count + 128) == many_small_total(count) + 8256,
    decreases count,
{
    if count > 0 {
        lemma_many_small_total_values((count - 1) as nat);
        let p = (count - 1) as nat;
        if count <= 128 {
            lemma_small_mod(p, 128);
            assert(small_len(p) == p + 1);
            assert(many_small_total(count) * 2 == count * (count + 1)) by (nonlinear_arith)
                requires
                    many_small_total(count) == many_small_total(p) + p + 1,
                    many_small_total(p) * 2 == p * (p + 1),
                    p == count - 1,
            ;
        }
        lemma_mod_add_multiples_vanish(p as int, 128);
        assert(small_len(p + 128) == small_len(p));
        assert(many_small_total(count + 128) == many_small_total(p + 128) + small_len(p + 128));
    } else {
        lemma_many_small_first_run(128);
    }
}

/// The first `k <= 128` small vectors total `1 + 2 + .. + k`.
proof fn lemma_many_small_first_run(k: nat)
    requires
        k <= 128,
    ensures
        many_small_total(k) * 2 == k * (k + 1),
    decreases k,
{
    if k > 0 {
        lemma_many_small_first_run((k - 1) as nat);
        lemma_small_mod((k - 1) as nat, 128);
        assert(many_small_total(k) * 2 == k * (k + 1)) by (nonlinear_arith)
            requires
                many_small_total(k) == many_small_total((k - 1) as nat) + k,
                many_small_total((k - 1) as nat) * 2 == (k - 1) * k,
        ;
    } else {
        assert(k * (k + 1) == 0) by (nonlinear_arith)
            requires
                k == 0,
        ;
    }
}

/// Builds `count` byte vectors of lengths `1..=128` per round and sums their
/// lengths; returns the XOR of the per-round totals.
pub fn vec_many_small(rounds: usize, count: usize) -> (r: usize)
    requires
        many_small_total(count as nat) <= usize::MAX,
    ensures
        r == xor_rounds(|round: nat| many_small_total(count as nat) as usize, rounds as nat),
{
    let ghost f = |round: nat| many_small_total(count as nat) as usize;
    let mut checksum: usize = 0;
    let mut round: usize = 0;
    while round < rounds
        invariant
            round <= rounds,
            many_small_total(count as nat) <= usize::MAX,
            f == (|round: nat| many_small_total(count as nat) as usize),
            checksum == xor_rounds(f, round as nat),
        decreases rounds - round,
    {
        let mut values: Vec<Vec<u8>> = Vec::with_capacity(count);
        let mut i: usize = 0;
        while i < count
            invariant
                i <= count,
                values.len() == i,
                forall|j: int| 0 <= j < i ==> #[trigger] values@[j].len() == small_len(j as nat),
            decreases count - i,
        {
            values.push(vec![((i ^ round) & 0xff) as u8; (i % 128) + 1]);
            i = i + 1;
        }
        let mut total: usize = 0;
        let mut k: usize = 0;
        while k < values.len()
            invariant
                k <= values.len(),
                values.len() == count,
                forall|j: int| 0 <= j < count ==> #[trigger] values@[j].len() == small_len(j as nat),
                many_small_total(count as nat) <= usize::MAX,
                total == many_small_total(k as nat),
            decreases values.len() - k,
        {
            proof {
                lemma_many_small_total_monotone((k + 1) as nat, count as nat);
            }
            total = total + values[k].len();
            k = k + 1;
        }
        checksum = checksum ^ total;
        black_box(values);
        round = round + 1;
    }
    black_box(checksum)
}

/// The decimal digit `d` as a character.
pub open spec fn digit_char(d: nat) -> char {
    (48 + d) as char
}

/// The decimal representation of `n`: no sign, no leading zeros.
pub open spec fn decimal_digits(n: nat) -> Seq<char>
    decreases n,
{
    if n < 10 {
        seq![digit_char(n)]
    } else {
        decimal_digits(n / 10).push(digit_char(n % 10))
    }
}

/// Decimal digits are ASCII characters.
pub proof fn lemma_decimal_digits_ascii(n: nat)
    ensures
        vstd::utf8::is_ascii_chars(decimal_digits(n)),
        decimal_digits(n).len() >= 1,
    decreases n,
{
    if n >= 10 {
        lemma_decimal_digits_ascii(n / 10);
        let d = decimal_digits(n / 10).push(digit_char(n % 10));
        assert forall|i: int| 0 <= i < d.len() implies '\0' <= #[trigger] d[i] <= '\u{7f}' by {
            if i < d.len() - 1 {
                assert(d[i] == decimal_digits(n / 10)[i]);
            }
        }
    }
}

/// The decimal representation of `n` has exactly as many digits as `n`
/// needs: `n` is below ten to the power of the digit count, and a number
/// written with more than one digit is at least ten to the power of one less.
pub proof fn lemma_decimal_digits_len(n: nat)
    ensures
        decimal_digits(n).len() >= 1,
        n < pow(10, decimal_digits(n).len()),
        decimal_digits(n).len() > 1 ==> pow(10, (decimal_digits(n).len() - 1) as nat) <= n,
    decreases n,
{
    reveal(pow);
    if n < 10 {
        assert(pow(10, 1) == 10 * pow(10, 0));
    } else {
        lemma_decimal_digits_len(n / 10);
        let l = decimal_digits(n / 10).len();
        assert(decimal_digits(n).len() == l + 1);
        assert(pow(10, l + 1) == 10 * pow(10, l));
        assert(pow(10, l) == 10 * pow(10, (l - 1) as nat));
        let q = n / 10;
        assert(n == 10 * q + n % 10);
        if l == 1 {
            assert(pow(10, 0) == 1);
        }
        assert(pow(10, (l - 1) as nat) <= q);
        assert(n < pow(10, l + 1)) by (nonlinear_arith)
            requires
                n == 10 * q + n % 10,
                n % 10 < 10,
                q < pow(10, l),
                pow(10, l + 1) == 10 * pow(10, l),
        ;
        assert(pow(10, l) <= n) by (nonlinear_arith)
            requires
                n == 10 * q + n % 10,
                n % 10 >= 0,
                pow(10, (l - 1) as nat) <= q,
                pow(10, l) == 10 * pow(10, (l - 1) as nat),
        ;
    }
}

/// Each item of a round adds `"item"` (four bytes), the decimal digits of
/// the item's index XOR the round, and `';'` to the round's text.
pub proof fn lemma_building_len_step(round: usize, c: usize)
    ensures
        building_len(round as nat, c as nat + 1) == building_len(round as nat, c as nat) + 5 + decimal_digits(
            (c ^ round) as nat,
        ).len(),
{
}

/// `usize::to_string`: the decimal representation of `n`.
#[verifier::external_body]
fn decimal_string(n: usize) -> (r: String)
    ensures
        r@ == decimal_digits(n as nat),
{
    n.to_string()
}

/// Length of the text one round of `string_building` builds from its first
/// `count` items: each item is `"item"`, the decimal digits of `i ^ round`, and `';'`.
pub open spec fn building_len(round: nat, count: nat) -> nat
    decreases count,
{
    if count == 0 {
        0
    } else {
        building_len(round, (count - 1) as nat) + 5 + decimal_digits(
            (((count - 1) as usize) ^ (round as usize)) as nat,
        ).len()
    }
}

/// Builds a string of `"item{i ^ round};"` for `i < count` per round and
/// takes its length; returns the XOR of the per-round lengths.
pub fn string_building(rounds: usize, count: usize) -> (r: usize)
    requires
        forall|round: nat| round < rounds ==> #[trigger] building_len(round, count as nat) <= usize::MAX,
    ensures
        r == xor_rounds(|round: nat| building_len(round, count as nat) as usize, rounds as nat),
{
    let ghost f = |round: nat| building_len(round, count as nat) as usize;
    let mut checksum: usize = 0;
    let mut round: usize = 0;
    while round < rounds
        invariant
            round <= rounds,
            forall|rd: nat| rd < rounds ==> #[trigger] building_len(rd, count as nat) <= usize::MAX,
            f == (|round: nat| building_len(round, count as nat) as usize),
            checksum == xor_rounds(f, round as nat),
        decreases rounds - round,
    {
        let mut text = String::new();
        let item = "item";
        let end = ";";
        proof {
            reveal_strlit("item");
            reveal_strlit(";");
        }
        let mut i: usize = 0;
        while i < count
            invariant
                i <= count,
                item@ == seq!['i', 't', 'e', 'm'],
                end@ == seq![';'],
                text@.len() == building_len(round as nat, i as nat),
                vstd::utf8::is_ascii_chars(text@),
            decreases count - i,
        {
            let digits = decimal_string(i ^ round);
            proof {
                lemma_decimal_digits_ascii((i ^ round) as nat);
            }
            let ghost before = text@;
            text.append(item);
            text.append(digits.as_str());
            text.append(end);
            proof {
                let added = item@ + digits@ + end@;
                assert(text@ =~= before + added);
                assert(vstd::utf8::is_ascii_chars(added));
                assert(vstd::utf8::is_ascii_chars(text@));
            }
            i = i + 1;
        }
        proof {
            vstd::utf8::is_ascii_chars_encode_utf8(text@);
        }
        let len = text.as_str().len();
        checksum = checksum ^ len;
        black_box(text);
        round = round + 1;
    }
    black_box(checksum)
}

/// XOR is associative.
pub proof fn lemma_xor_assoc(a: usize, b: usize, c: usize)
    ensures
        (a ^ b) ^ c == a ^ (b ^ c),
{
    assert((a ^ b) ^ c == a ^ (b ^ c)) by (bit_vector);
}

/// Zero is the identity of XOR.
pub proof fn lemma_xor_zero(a: usize)
    ensures
        a ^ 0 == a,
        0 ^ a == a,
{
    assert(a ^ 0 == a && 0 ^ a == a) by (bit_vector);
}

/// XOR of `(2k) ^ round` over the first `evens` even keys.
pub open spec fn even_keys_xor(round: nat, evens: nat) -> usize
    decreases evens,
{
    if evens == 0 {
        0
    } else {
        even_keys_xor(round, (evens - 1) as nat) ^ (((2 * (evens - 1)) as usize) ^ (round as usize))
    }
}

/// What one round of `hashmap_insert_remove` contributes: the values removed
/// under the even keys below `count`, then the number of keys left.
pub open spec fn hashmap_round(round: nat, count: nat) -> usize {
    even_keys_xor(round, count / 2 + count % 2) ^ ((count / 2) as usize)
}

/// Fills a map with `i -> i ^ round` for `i < count` per round, removes the
/// even keys and counts what is left; returns the XOR of the removed values
/// and the remaining sizes over all rounds.
pub fn hashmap_insert_remove(rounds: usize, count: usize) -> (r: usize)
    ensures
        r == xor_rounds(|round: nat| hashmap_round(round, count as nat), rounds as nat),
{
    broadcast use vstd::std_specs::hash::group_hash_axioms;
    let ghost f = |round: nat| hashmap_round(round, count as nat);
    let mut checksum: usize = 0;
    let mut round: usize = 0;
    while round < rounds
        invariant
            round <= rounds,
            f == (|round: nat| hashmap_round(round, count as nat)),
            checksum == xor_rounds(f, round as nat),
        decreases rounds - round,
    {
        let ghost start = checksum;
        let mut map: HashMap<usize, usize> = HashMap::with_capacity(count);
        let mut i: usize = 0;
        while i < count
            invariant
                i <= count,
                map@ == Map::new(|k: usize| k < i, |k: usize| k ^ round),
                map@.dom().finite(),
                map@.len() == i,
            decreases count - i,
        {
            proof {
                assert(!map@.dom().contains(i));
            }
            map.insert(i, i ^ round);
            proof {
                assert(map@ =~= Map::new(|k: usize| k < i + 1, |k: usize| k ^ round));
            }
            i = i + 1;
        }
        let evens = count / 2 + count % 2;
        proof {
            lemma_xor_zero(start);
        }
        let mut j: usize = 0;
        while j < evens
            invariant
                j <= evens,
                evens == count / 2 + count % 2,
                map@ == Map::new(|k: usize| k < count && !(k % 2 == 0 && k < 2 * j), |k: usize| k ^ round),
                map@.dom().finite(),
                map@.len() == count - j,
                checksum == start ^ even_keys_xor(round as nat, j as nat),
            decreases evens - j,
        {
            let key = 2 * j;
            let removed = match map.remove(&key) {
                Some(value) => value,
                None => 0,
            };
            proof {
                assert(removed == key ^ round);
                lemma_xor_assoc(start, even_keys_xor(round as nat, j as nat), key ^ round);
                assert(map@ =~= Map::new(|k: usize| k < count && !(k % 2 == 0 && k < 2 * (j + 1)), |k: usize| k ^ round));
            }
            checksum = checksum ^ removed;
            j = j + 1;
        }
        let left = map.len();
        proof {
            lemma_xor_assoc(start, even_keys_xor(round as nat, evens as nat), left);
        }
        checksum = checksum ^ left;
        black_box(map);
        round = round + 1;
    }
    black_box(checksum)
}

/// The XOR of every element of `counts`, in order.
pub open spec fn xor_seq(counts: Seq<usize>) -> usize
    decreases counts.len(),
{
    if counts.len() == 0 {
        0
    } else {
        xor_seq(counts.drop_last()) ^ counts.last()
    }
}

/// The checksum `arc_clone_drop` gives over `rounds` rounds of `count`
/// clones: each round's strong count is `count + 1`, so the XOR is that
/// count for an odd number of rounds and zero for an even one.
pub open spec fn arc_checksum(rounds: nat, count: nat) -> usize {
    if rounds % 2 == 1 {
        (count + 1) as usize
    } else {
        0
    }
}

/// Shares a 1 KiB buffer among `count` clones per round and reads its strong
/// count; returns the XOR of the per-round counts. A count of `usize::MAX`
/// clones cannot be held.
pub fn arc_clone_drop(rounds: usize, count: usize) -> (r: usize)
    requires
        count < usize::MAX,
    ensures
        r == arc_checksum(rounds as nat, count as nat),
{
    let mut checksum: usize = 0;
    let mut round: usize = 0;
    while round < rounds
        invariant
            round <= rounds,
            count < usize::MAX,
            checksum == arc_checksum(round as nat, count as nat),
        decreases rounds - round,
    {
        let mut buffer = SharedBuffer::new(round as u8, count);
        let mut i: usize = 0;
        while i < count
            invariant
                i <= count,
                buffer.clone_count() == i,
            decreases count - i,
        {
            buffer.share();
            i = i + 1;
        }
        let strong = buffer.strong_count();
        checksum = checksum ^ strong;
        proof {
            let c = (count + 1) as usize;
            assert(strong == c);
            assert(0usize ^ c == c) by (bit_vector);
            assert(c ^ c == 0usize) by (bit_vector);
        }
        black_box(buffer);
        round = round + 1;
    }
    black_box(checksum)
}

/// Runs the five collection workloads on one size and combines them:
/// `vec_push_clear` on `count`, `vec_many_small` on `count / 4`, and the
/// string, map and shared-pointer workloads on `count / 2`.
pub fn mixed_collections(rounds: usize, count: usize) -> (r: usize)
    requires
        forall|round: nat| round < rounds ==> #[trigger] push_clear_sum(round, count as nat) <= usize::MAX,
        many_small_total((count / 4) as nat) <= usize::MAX,
        forall|round: nat| round < rounds ==> #[trigger] building_len(round, (count / 2) as nat) <= usize::MAX,
    ensures
        r == xor_rounds(|round: nat| push_clear_sum(round, count as nat) as usize, rounds as nat)
            ^ xor_rounds(|round: nat| many_small_total((count / 4) as nat) as usize, rounds as nat)
            ^ xor_rounds(|round: nat| building_len(round, (count / 2) as nat) as usize, rounds as nat)
            ^ xor_rounds(|round: nat| hashmap_round(round, (count / 2) as nat), rounds as nat)
            ^ arc_checksum(rounds as nat, (count / 2) as nat),
{
    let a = vec_push_clear(rounds, count);
    let b = vec_many_small(rounds, count / 4);
    let c = string_building(rounds, count / 2);
    let d = hashmap_insert_remove(rounds, count / 2);
    let e = arc_clone_drop(rounds, count / 2);
    a ^ b ^ c ^ d ^ e
}

} // verus!
