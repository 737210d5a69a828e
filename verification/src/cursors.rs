//! The odometer behind the enumeration.
//!
//! One cursor per position says how many alphabet characters that position has
//! gone through since it was last reset: 0 for a position that holds no
//! character yet, `c >= 1` for one that holds the `c`-th character. Read as
//! digits, most significant first, the cursors spell the number of candidates
//! emitted so far.

use vstd::prelude::*;
use vstd::arithmetic::div_mod::lemma_fundamental_div_mod_converse;
use crate::order::candidate_count;
use crate::order::lemma_candidate_count_step;
use crate::order::nth_candidate;

verus! {

/// The number that `cursors` spell over an alphabet of `k` characters.
pub open spec fn cursors_position(k: nat, cursors: Seq<usize>) -> nat
    decreases cursors.len(),
{
    if cursors.len() == 0 {
        0
    } else {
        (cursors_position(k, cursors.drop_last()) * k + cursors.last()) as nat
    }
}

/// The characters that `cursors` hold, one for each cursor that is not 0.
pub open spec fn cursors_text(alphabet: Seq<char>, cursors: Seq<usize>) -> Seq<char>
    decreases cursors.len(),
{
    if cursors.len() == 0 {
        Seq::empty()
    } else if cursors.last() == 0 {
        cursors_text(alphabet, cursors.drop_last())
    } else {
        cursors_text(alphabet, cursors.drop_last()).push(alphabet[cursors.last() - 1])
    }
}

/// Cursors never run past the alphabet, and the positions without a character
/// come before those with one.
pub open spec fn cursors_ordered(k: nat, cursors: Seq<usize>) -> bool {
    &&& forall|i: int| 0 <= i < cursors.len() ==> #[trigger] cursors[i] <= k
    &&& forall|i: int, j: int|
        0 <= i < j < cursors.len() && #[trigger] cursors[j] == 0 ==> #[trigger] cursors[i] == 0
}

/// `count` cursors that all stand at `at`.
pub open spec fn uniform_cursors(count: nat, at: usize) -> Seq<usize> {
    Seq::new(count, |i: int| at)
}

/// Untouched cursors spell 0 and hold no text.
pub proof fn lemma_fresh_cursors(alphabet: Seq<char>, cursors: Seq<usize>)
    requires
        forall|i: int| 0 <= i < cursors.len() ==> cursors[i] == 0,
    ensures
        cursors_position(alphabet.len(), cursors) == 0,
        cursors_text(alphabet, cursors) == Seq::<char>::empty(),
    decreases cursors.len(),
{
    if cursors.len() > 0 {
        lemma_fresh_cursors(alphabet, cursors.drop_last());
        let p = cursors_position(alphabet.len(), cursors.drop_last());
        assert(p * alphabet.len() == 0) by (nonlinear_arith)
            requires
                p == 0,
        ;
    }
}

/// Taking the last cursor off leaves the others in order.
pub proof fn lemma_ordered_prefix(k: nat, cursors: Seq<usize>)
    requires
        cursors.len() > 0,
        cursors_ordered(k, cursors),
    ensures
        cursors_ordered(k, cursors.drop_last()),
{
    let rest = cursors.drop_last();
    assert forall|i: int| 0 <= i < rest.len() implies #[trigger] rest[i] <= k by {
        assert(rest[i] == cursors[i]);
    }
    assert forall|i: int, j: int|
        0 <= i < j < rest.len() && #[trigger] rest[j] == 0 implies #[trigger] rest[i] == 0 by {
        assert(rest[j] == cursors[j]);
        assert(rest[i] == cursors[i]);
    }
}

/// A cursor at the first character may follow any cursors in order.
pub proof fn lemma_ordered_extended(k: nat, cursors: Seq<usize>)
    requires
        k >= 1,
        cursors_ordered(k, cursors),
    ensures
        cursors_ordered(k, cursors.push(1)),
{
    let longer = cursors.push(1);
    assert forall|i: int| 0 <= i < longer.len() implies #[trigger] longer[i] <= k by {
        if i < cursors.len() {
            assert(longer[i] == cursors[i]);
        }
    }
    assert forall|i: int, j: int|
        0 <= i < j < longer.len() && #[trigger] longer[j] == 0 implies #[trigger] longer[i]
        == 0 by {
        assert(longer[j] == cursors[j]);
        assert(longer[i] == cursors[i]);
    }
}

/// What the buffer's end looks like under the last cursor: a cursor at 0 means
/// an empty buffer, any other cursor put the buffer's last character there.
pub proof fn lemma_last_cursor_text(alphabet: Seq<char>, cursors: Seq<usize>)
    requires
        cursors.len() > 0,
        cursors_ordered(alphabet.len(), cursors),
    ensures
        cursors.last() == 0 ==> cursors_text(alphabet, cursors) == Seq::<char>::empty()
            && cursors_text(alphabet, cursors.drop_last()) == Seq::<char>::empty(),
        cursors.last() > 0 ==> cursors_text(alphabet, cursors).len() > 0 && cursors_text(
            alphabet,
            cursors,
        ).drop_last() == cursors_text(alphabet, cursors.drop_last()),
{
    let rest = cursors.drop_last();
    if cursors.last() == 0 {
        assert forall|i: int| 0 <= i < rest.len() implies rest[i] == 0 by {
            assert(cursors[cursors.len() - 1] == 0);
            assert(rest[i] == cursors[i]);
        }
        lemma_fresh_cursors(alphabet, rest);
    } else {
        let text = cursors_text(alphabet, rest);
        assert(text.push(alphabet[cursors.last() - 1]).drop_last() =~= text);
    }
}

/// Ordered cursors hold exactly the candidate at the position they spell.
pub proof fn lemma_cursors_text_is_candidate(alphabet: Seq<char>, cursors: Seq<usize>)
    requires
        cursors_ordered(alphabet.len(), cursors),
    ensures
        cursors_text(alphabet, cursors) == nth_candidate(
            alphabet,
            cursors_position(alphabet.len(), cursors),
        ),
    decreases cursors.len(),
{
    let k = alphabet.len();
    if cursors.len() > 0 {
        let rest = cursors.drop_last();
        let c = cursors.last();
        if c == 0 {
            assert forall|i: int| 0 <= i < cursors.len() implies cursors[i] == 0 by {
                if i < cursors.len() - 1 {
                    assert(cursors[cursors.len() - 1] == 0);
                }
            }
            lemma_fresh_cursors(alphabet, cursors);
        } else {
            assert(cursors[cursors.len() - 1] <= k);
            lemma_ordered_prefix(k, cursors);
            lemma_cursors_text_is_candidate(alphabet, rest);
            let q = cursors_position(k, rest);
            let p = cursors_position(k, cursors);
            assert(p - 1 == (k as int) * q + (c - 1)) by (nonlinear_arith)
                requires
                    p == q * k + c,
            ;
            lemma_fundamental_div_mod_converse(p - 1, k as int, q as int, c - 1);
        }
    }
}

/// Cursors within the alphabet spell at most the number of candidates their
/// positions can hold, and exactly that number when every cursor is used up.
pub proof fn lemma_cursors_position_bound(k: nat, cursors: Seq<usize>)
    requires
        forall|i: int| 0 <= i < cursors.len() ==> #[trigger] cursors[i] <= k,
    ensures
        cursors_position(k, cursors) <= candidate_count(k, cursors.len()),
        cursors_position(k, cursors) == candidate_count(k, cursors.len()) <==> (forall|i: int|
            0 <= i < cursors.len() ==> #[trigger] cursors[i] == k),
    decreases cursors.len(),
{
    if cursors.len() > 0 {
        let rest = cursors.drop_last();
        let c = cursors.last();
        assert(cursors[cursors.len() - 1] <= k);
        assert forall|i: int| 0 <= i < rest.len() implies #[trigger] rest[i] <= k by {
            assert(rest[i] == cursors[i]);
        }
        lemma_cursors_position_bound(k, rest);
        lemma_candidate_count_step(k, rest.len());
        let q = cursors_position(k, rest);
        let m = candidate_count(k, rest.len());
        let full_rest = forall|i: int| 0 <= i < rest.len() ==> #[trigger] rest[i] == k;
        let full = forall|i: int| 0 <= i < cursors.len() ==> #[trigger] cursors[i] == k;
        assert(q * k + c <= k * m + k) by (nonlinear_arith)
            requires
                q <= m,
                c <= k,
        ;
        if full {
            assert(cursors[cursors.len() - 1] == k);
            assert forall|i: int| 0 <= i < rest.len() implies #[trigger] rest[i] == k by {
                assert(rest[i] == cursors[i]);
            }
            assert(q * k + c == k * m + k) by (nonlinear_arith)
                requires
                    q == m,
                    c == k,
            ;
        } else if c == k && full_rest {
            assert forall|i: int| 0 <= i < cursors.len() implies #[trigger] cursors[i] == k by {
                if i < rest.len() {
                    assert(rest[i] == cursors[i]);
                }
            }
        } else if c < k {
            assert(q * k + c < k * m + k) by (nonlinear_arith)
                requires
                    q <= m,
                    c < k,
            ;
        } else {
            assert(q < m);
            assert(q * k + c < k * m + k) by (nonlinear_arith)
                requires
                    q < m,
                    c == k,
                    k >= 1,
            ;
        }
    }
}

/// One odometer step adds one: bumping a cursor and resetting the `carried`
/// used-up cursors after it to the first character spells the next number.
pub proof fn lemma_carry_adds_one(k: usize, kept: Seq<usize>, carried: nat)
    requires
        kept.len() > 0,
        kept.last() < k,
    ensures
        cursors_position(
            k as nat,
            kept.update(kept.len() - 1, (kept.last() + 1) as usize) + uniform_cursors(carried, 1),
        ) == cursors_position(k as nat, kept + uniform_cursors(carried, k)) + 1,
    decreases carried,
{
    let bumped = kept.update(kept.len() - 1, (kept.last() + 1) as usize);
    let after = bumped + uniform_cursors(carried, 1);
    let before = kept + uniform_cursors(carried, k);
    if carried == 0 {
        assert(after =~= bumped);
        assert(before =~= kept);
        assert(bumped.drop_last() =~= kept.drop_last());
    } else {
        let fewer = (carried - 1) as nat;
        lemma_carry_adds_one(k, kept, fewer);
        assert(after.drop_last() =~= bumped + uniform_cursors(fewer, 1));
        assert(before.drop_last() =~= kept + uniform_cursors(fewer, k));
        let a = cursors_position(k as nat, after.drop_last());
        let b = cursors_position(k as nat, before.drop_last());
        assert(a * k + 1 == (b * k + k) + 1) by (nonlinear_arith)
            requires
                a == b + 1,
        ;
    }
}

} // verus!
