//! The order in which candidates are enumerated.
//!
//! Candidates are the non-empty strings over the alphabet, shortest first and,
//! within one length, in odometer order: the last character cycles fastest.
//! Counting candidates from 1, the string at a position is that position written
//! in bijective numeration with the alphabet's characters as digits.

use vstd::prelude::*;
use vstd::arithmetic::div_mod::lemma_fundamental_div_mod;
use vstd::arithmetic::div_mod::lemma_fundamental_div_mod_converse;
use vstd::arithmetic::power::pow;

verus! {

/// How many strings of length 1 up to `max_length` exist over `k` characters:
/// `k + k^2 + ... + k^max_length`.
pub open spec fn candidate_count(k: nat, max_length: nat) -> nat
    decreases max_length,
{
    if max_length == 0 {
        0
    } else {
        candidate_count(k, (max_length - 1) as nat) + pow(k as int, max_length) as nat
    }
}

/// The candidate at `position`, counting from 1. Position 0 is the empty
/// string, which is never emitted; so is every position over an empty alphabet.
pub open spec fn nth_candidate(alphabet: Seq<char>, position: nat) -> Seq<char>
    decreases position,
    via nth_candidate_decreases
{
    if position == 0 || alphabet.len() == 0 {
        Seq::empty()
    } else {
        nth_candidate(alphabet, ((position - 1) / (alphabet.len() as int)) as nat).push(
            alphabet[(position - 1) % (alphabet.len() as int)],
        )
    }
}

#[via_fn]
proof fn nth_candidate_decreases(alphabet: Seq<char>, position: nat) {
    if position != 0 && alphabet.len() != 0 {
        lemma_quotient_bounds(position - 1, alphabet.len() as int);
    }
}

/// Whether `s` is a string the enumeration must visit: between 1 and
/// `max_length` characters, all taken from `alphabet`.
pub open spec fn is_candidate(alphabet: Seq<char>, max_length: nat, s: Seq<char>) -> bool {
    &&& 1 <= s.len() <= max_length
    &&& forall|i: int| 0 <= i < s.len() ==> alphabet.contains(#[trigger] s[i])
}

/// The position at which `s` is enumerated, for `s` over `alphabet`.
pub open spec fn position_of(alphabet: Seq<char>, s: Seq<char>) -> nat
    decreases s.len(),
{
    if s.len() == 0 {
        0
    } else {
        (position_of(alphabet, s.drop_last()) * alphabet.len() + alphabet.index_of(s.last())
            + 1) as nat
    }
}

/// For `x >= 0` and `d >= 1`, the quotient `x / d` lies in `0..=x`.
proof fn lemma_quotient_bounds(x: int, d: int)
    requires
        0 <= x,
        1 <= d,
    ensures
        0 <= x / d <= x,
        0 <= x % d < d,
        x == d * (x / d) + x % d,
{
    lemma_fundamental_div_mod(x, d);
    let q = x / d;
    assert(0 <= x % d < d);
    assert(q >= 0) by (nonlinear_arith)
        requires
            x == d * q + x % d,
            0 <= x,
            x % d < d,
            1 <= d,
    ;
    assert(q <= x) by (nonlinear_arith)
        requires
            x == d * q + x % d,
            0 <= x % d,
            q >= 0,
            1 <= d,
    ;
}

/// A power of a natural number is a natural number, and the next power is `k`
/// times it.
proof fn lemma_pow_unfold(k: nat, e: nat)
    ensures
        0 <= pow(k as int, e),
        pow(k as int, e + 1) == k * pow(k as int, e),
    decreases e,
{
    reveal(pow);
    if e > 0 {
        lemma_pow_unfold(k, (e - 1) as nat);
        assert(0 <= k * pow(k as int, (e - 1) as nat)) by (nonlinear_arith)
            requires
                0 <= pow(k as int, (e - 1) as nat),
        ;
    }
}

/// Each further character multiplies the count by `k` and adds the `k` strings
/// of length one: `count(n + 1) == k * count(n) + k`.
pub proof fn lemma_candidate_count_step(k: nat, max_length: nat)
    ensures
        candidate_count(k, max_length + 1) == k * candidate_count(k, max_length) + k,
    decreases max_length,
{
    let n = max_length;
    lemma_pow_unfold(k, n);
    lemma_pow_unfold(k, n + 1);
    assert(candidate_count(k, n + 1) == candidate_count(k, n) + pow(k as int, n + 1));
    if n == 0 {
        reveal(pow);
        assert(pow(k as int, 0) == 1);
        assert(k * 1 == k) by (nonlinear_arith);
    } else {
        let m = (n - 1) as nat;
        lemma_candidate_count_step(k, m);
        lemma_pow_unfold(k, m);
        let c = candidate_count(k, m) as int;
        let q = pow(k as int, n);
        assert(candidate_count(k, n) == c + q);
        assert(k * (c + q) + k == (k * c + k) + k * q) by (nonlinear_arith);
    }
}

/// One step of the numeration: position `p >= 1` splits into the position of
/// the string without its last character and the index of that character.
proof fn lemma_position_split(k: nat, p: nat)
    requires
        k >= 1,
        p >= 1,
    ensures
        0 <= (p - 1) / (k as int) < p,
        0 <= (p - 1) % (k as int) < k,
        p == k * ((p - 1) / (k as int)) + (p - 1) % (k as int) + 1,
{
    lemma_quotient_bounds(p - 1, k as int);
}

/// Every position up to `candidate_count(k, max_length)` holds a candidate:
/// a string of 1 to `max_length` characters of the alphabet.
pub proof fn lemma_nth_candidate_is_candidate(alphabet: Seq<char>, max_length: nat, position: nat)
    requires
        1 <= position <= candidate_count(alphabet.len(), max_length),
    ensures
        is_candidate(alphabet, max_length, nth_candidate(alphabet, position)),
    decreases position,
{
    let k = alphabet.len();
    if k == 0 {
        lemma_candidate_count_empty_alphabet(max_length);
    } else {
        let n = (max_length - 1) as nat;
        lemma_candidate_count_step(k, n);
        lemma_position_split(k, position);
        let q = ((position - 1) / (k as int)) as nat;
        let r = (position - 1) % (k as int);
        let rest = nth_candidate(alphabet, q);
        let s = nth_candidate(alphabet, position);
        assert(s == rest.push(alphabet[r]));
        assert(q <= candidate_count(k, n)) by (nonlinear_arith)
            requires
                position == k * q + r + 1,
                position <= k * candidate_count(k, n) + k,
                0 <= r,
                k >= 1,
        ;
        if q >= 1 {
            lemma_nth_candidate_is_candidate(alphabet, n, q);
        }
        assert forall|i: int| 0 <= i < s.len() implies alphabet.contains(#[trigger] s[i]) by {
            if i < rest.len() {
                assert(s[i] == rest[i]);
            } else {
                assert(s[i] == alphabet[r]);
            }
        }
    }
}

/// Over an empty alphabet there is nothing to enumerate.
pub proof fn lemma_candidate_count_empty_alphabet(max_length: nat)
    ensures
        candidate_count(0, max_length) == 0,
    decreases max_length,
{
    reveal(pow);
    if max_length > 0 {
        lemma_candidate_count_empty_alphabet((max_length - 1) as nat);
    }
}

/// No string is enumerated twice: over an alphabet without repeated
/// characters, two positions that hold the same string are the same position.
pub proof fn lemma_nth_candidate_injective(alphabet: Seq<char>, p: nat, q: nat)
    requires
        alphabet.len() > 0,
        alphabet.no_duplicates(),
        nth_candidate(alphabet, p) == nth_candidate(alphabet, q),
    ensures
        p == q,
    decreases p,
{
    let k = alphabet.len();
    if p == 0 || q == 0 {
        if p != 0 {
            lemma_position_split(k, p);
            assert(nth_candidate(alphabet, p).len() >= 1);
        }
        if q != 0 {
            lemma_position_split(k, q);
            assert(nth_candidate(alphabet, q).len() >= 1);
        }
        assert(nth_candidate(alphabet, 0).len() == 0);
    } else {
        lemma_position_split(k, p);
        lemma_position_split(k, q);
        let p_rest = ((p - 1) / (k as int)) as nat;
        let q_rest = ((q - 1) / (k as int)) as nat;
        let pr = (p - 1) % (k as int);
        let qr = (q - 1) % (k as int);
        let sp = nth_candidate(alphabet, p_rest).push(alphabet[pr]);
        let sq = nth_candidate(alphabet, q_rest).push(alphabet[qr]);
        assert(sp == sq);
        assert(sp.drop_last() =~= nth_candidate(alphabet, p_rest));
        assert(sq.drop_last() =~= nth_candidate(alphabet, q_rest));
        assert(sp.last() == alphabet[pr]);
        assert(sq.last() == alphabet[qr]);
        assert(pr == qr);
        lemma_nth_candidate_injective(alphabet, p_rest, q_rest);
        assert(p_rest == q_rest);
        assert(p == k * p_rest + pr + 1);
        assert(q == k * q_rest + qr + 1);
    }
}

/// Every candidate is enumerated: a string of 1 to `max_length` characters of
/// the alphabet stands at `position_of`, which is at most
/// `candidate_count(k, max_length)`.
pub proof fn lemma_position_of_candidate(alphabet: Seq<char>, max_length: nat, s: Seq<char>)
    requires
        is_candidate(alphabet, max_length, s),
    ensures
        1 <= position_of(alphabet, s) <= candidate_count(alphabet.len(), max_length),
        nth_candidate(alphabet, position_of(alphabet, s)) == s,
    decreases s.len(),
{
    let k = alphabet.len();
    let n = (max_length - 1) as nat;
    let rest = s.drop_last();
    let d = alphabet.index_of(s.last());
    assert(alphabet.contains(s[s.len() - 1]));
    assert(0 <= d < k && alphabet[d] == s.last());
    let q = position_of(alphabet, rest);
    let p = position_of(alphabet, s);
    assert(p == q * k + d + 1);
    lemma_candidate_count_step(k, n);
    if rest.len() == 0 {
        assert(q == 0);
        assert(q * k == 0) by (nonlinear_arith)
            requires
                q == 0,
        ;
    } else {
        assert forall|i: int| 0 <= i < rest.len() implies alphabet.contains(#[trigger] rest[i]) by {
            assert(rest[i] == s[i]);
        }
        lemma_position_of_candidate(alphabet, n, rest);
    }
    assert(p <= k * candidate_count(k, n) + k) by (nonlinear_arith)
        requires
            p == q * k + d + 1,
            q <= candidate_count(k, n),
            d < k,
    ;
    assert(q * k + d == k * q + d) by (nonlinear_arith);
    lemma_fundamental_div_mod_converse(p - 1, k as int, q as int, d);
    assert(nth_candidate(alphabet, p) == nth_candidate(alphabet, q).push(alphabet[d]));
    assert(rest.push(s.last()) =~= s);
}

/// Longer candidates come later: a position holds a string of at most
/// `max_length` characters exactly when it is at most
/// `candidate_count(k, max_length)`.
pub proof fn lemma_nth_candidate_length(alphabet: Seq<char>, max_length: nat, position: nat)
    requires
        alphabet.len() > 0,
    ensures
        nth_candidate(alphabet, position).len() <= max_length <==> position <= candidate_count(
            alphabet.len(),
            max_length,
        ),
    decreases position,
{
    let k = alphabet.len();
    if position > 0 {
        lemma_position_split(k, position);
        let q = ((position - 1) / (k as int)) as nat;
        let r = (position - 1) % (k as int);
        if max_length > 0 {
            let n = (max_length - 1) as nat;
            lemma_candidate_count_step(k, n);
            lemma_nth_candidate_length(alphabet, n, q);
            let c = candidate_count(k, n);
            assert(q <= c <==> position <= k * c + k) by (nonlinear_arith)
                requires
                    position == k * q + r + 1,
                    0 <= r < k,
            ;
        }
    }
}

/// The enumeration is exhaustive. The positions `1..=candidate_count` and the
/// strings of 1 to `max_length` alphabet characters correspond: every position
/// holds such a string, and every such string stands at a position. Where the
/// alphabet repeats no character, no two positions hold the same string, so
/// that each is enumerated exactly once.
pub proof fn lemma_enumeration_exhaustive(alphabet: Seq<char>, max_length: nat)
    ensures
        forall|p: nat|
            1 <= p <= candidate_count(alphabet.len(), max_length) ==> is_candidate(
                alphabet,
                max_length,
                #[trigger] nth_candidate(alphabet, p),
            ),
        forall|s: Seq<char>| #[trigger]
            is_candidate(alphabet, max_length, s) ==> 1 <= position_of(alphabet, s)
                <= candidate_count(alphabet.len(), max_length) && nth_candidate(
                alphabet,
                position_of(alphabet, s),
            ) == s,
        alphabet.no_duplicates() ==> forall|p: nat, q: nat|
            1 <= p <= candidate_count(alphabet.len(), max_length) && 1 <= q <= candidate_count(
                alphabet.len(),
                max_length,
            ) && #[trigger] nth_candidate(alphabet, p) == #[trigger] nth_candidate(alphabet, q)
                ==> p == q,
{
    let total = candidate_count(alphabet.len(), max_length);
    assert forall|p: nat| 1 <= p <= total implies is_candidate(
        alphabet,
        max_length,
        #[trigger] nth_candidate(alphabet, p),
    ) by {
        lemma_nth_candidate_is_candidate(alphabet, max_length, p);
    }
    assert forall|s: Seq<char>| #[trigger] is_candidate(alphabet, max_length, s) implies 1
        <= position_of(alphabet, s) <= total && nth_candidate(alphabet, position_of(alphabet, s))
        == s by {
        lemma_position_of_candidate(alphabet, max_length, s);
    }
    if alphabet.no_duplicates() {
        assert forall|p: nat, q: nat|
            1 <= p <= total && 1 <= q <= total && #[trigger] nth_candidate(alphabet, p)
                == #[trigger] nth_candidate(alphabet, q) implies p == q by {
            if alphabet.len() == 0 {
                lemma_candidate_count_empty_alphabet(max_length);
            } else {
                lemma_nth_candidate_injective(alphabet, p, q);
            }
        }
    }
}

/// With a length bound of 0 there is nothing to enumerate, whatever the
/// alphabet.
pub proof fn lemma_candidate_count_zero_length(k: nat)
    ensures
        candidate_count(k, 0) == 0,
{
}

/// Over a single character there are as many candidates as lengths.
pub proof fn lemma_single_character_count(max_length: nat)
    ensures
        candidate_count(1, max_length) == max_length,
    decreases max_length,
{
    if max_length > 0 {
        lemma_single_character_count((max_length - 1) as nat);
        lemma_candidate_count_step(1, (max_length - 1) as nat);
    }
}

/// Over a single character the candidate at a position is the character
/// repeated that many times.
pub proof fn lemma_single_character_candidate(c: char, position: nat)
    ensures
        nth_candidate(seq![c], position) == Seq::new(position, |i: int| c),
    decreases position,
{
    if position > 0 {
        let shorter = (position - 1) as nat;
        lemma_single_character_candidate(c, shorter);
        let alphabet = seq![c];
        assert(alphabet.len() == 1);
        assert((position - 1) / 1 == shorter && (position - 1) % 1 == 0);
        assert(alphabet[0] == c);
        assert(nth_candidate(alphabet, position) == nth_candidate(alphabet, shorter).push(c));
        assert(Seq::new(shorter, |i: int| c).push(c) =~= Seq::new(position, |i: int| c));
    } else {
        assert(nth_candidate(seq![c], 0) =~= Seq::new(0, |i: int| c));
    }
}

} // verus!
