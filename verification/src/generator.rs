//! The candidate enumerator.

use vstd::prelude::*;
use crate::cursors::cursors_ordered;
use crate::cursors::cursors_position;
use crate::cursors::cursors_text;
use crate::cursors::lemma_carry_adds_one;
use crate::cursors::lemma_cursors_position_bound;
use crate::cursors::lemma_cursors_text_is_candidate;
use crate::cursors::lemma_fresh_cursors;
use crate::cursors::lemma_last_cursor_text;
use crate::cursors::lemma_ordered_extended;
use crate::cursors::lemma_ordered_prefix;
use crate::cursors::uniform_cursors;
use crate::order::candidate_count;
use crate::order::nth_candidate;

verus! {

/// Enumerates every string of 1 to `max_length` characters of a dictionary,
/// shortest first, the last character cycling fastest.
///
/// Over `abc` with a maximum length of 2 the strings come out as
/// `a`, `b`, `c`, `aa`, `ab`, `ac`, `ba`, `bb`, `bc`, `ca`, `cb`, `cc`.
///
/// The generator keeps one cursor per position and one buffer, which it
/// changes in place from one string to the next.
pub struct StringsGenerator {
    dictionary: Vec<char>,
    max_length: usize,
    generators: Vec<usize>,
    current_combination: String,
}

impl StringsGenerator {
    /// The characters candidates are built from, in order of precedence.
    pub closed spec fn alphabet(&self) -> Seq<char> {
        self.dictionary@
    }

    /// The length of the longest candidate.
    pub closed spec fn max_length(&self) -> nat {
        self.max_length as nat
    }

    /// How many candidates there are in all.
    pub open spec fn total(&self) -> nat {
        candidate_count(self.alphabet().len(), self.max_length())
    }

    /// How many candidates have been emitted so far. An exhausted generator
    /// has emitted all of them.
    pub closed spec fn produced(&self) -> nat {
        if self.generators@.len() == self.max_length {
            cursors_position(self.dictionary@.len(), self.generators@)
        } else {
            candidate_count(self.dictionary@.len(), self.max_length as nat)
        }
    }

    /// Holds while a step is under way: the cursors are in order and the
    /// buffer holds their text.
    spec fn consistent(&self) -> bool {
        &&& self.generators@.len() <= self.max_length
        &&& cursors_ordered(self.dictionary@.len(), self.generators@)
        &&& self.current_combination@ == cursors_text(self.dictionary@, self.generators@)
    }

    /// Holds between steps: either every position has its cursor, or the
    /// generator is exhausted and has none left.
    pub closed spec fn wf(&self) -> bool {
        &&& self.consistent()
        &&& (self.generators@.len() == self.max_length || self.generators@.len() == 0)
    }

    /// A generator of all strings of 1 to `max_length` characters of
    /// `dictionary`, none emitted yet. Every position gets its cursor at the
    /// start of the dictionary, and the buffer is reserved in full wherever a
    /// buffer of that size can be asked for.
    pub fn new(max_length: usize, dictionary: &str) -> (generator: Self)
        ensures
            generator.wf(),
            generator.alphabet() == dictionary@,
            generator.max_length() == max_length,
            generator.produced() == 0,
    {
        let mut alphabet: Vec<char> = Vec::new();
        for c in chars: dictionary.chars()
            invariant
                alphabet@ == chars.history(),
        {
            alphabet.push(c);
        }
        let current_combination = if max_length <= isize::MAX as usize {
            String::with_capacity(max_length)
        } else {
            String::new()
        };
        let mut generator = Self {
            dictionary: alphabet,
            max_length,
            generators: Vec::new(),
            current_combination,
        };
        while generator.generators.len() < max_length
            invariant
                generator.dictionary@ == dictionary@,
                generator.max_length == max_length,
                generator.generators@.len() <= max_length,
                generator.current_combination@ == Seq::<char>::empty(),
                forall|i: int| 0 <= i < generator.generators@.len() ==> generator.generators@[i] == 0,
            decreases max_length - generator.generators@.len(),
        {
            generator.generators.push(0);
        }
        proof {
            lemma_fresh_cursors(generator.dictionary@, generator.generators@);
        }
        generator
    }

    /// Moves the last cursor to its next character and puts that character at
    /// the end of the buffer, in place of the one the cursor held before.
    /// Fails, changing nothing, when there is no cursor or the last one has
    /// gone through the whole dictionary.
    fn increment_last_char(&mut self) -> (res: Result<(), ()>)
        requires
            old(self).consistent(),
        ensures
            final(self).dictionary == old(self).dictionary,
            final(self).max_length == old(self).max_length,
            res.is_ok() <==> old(self).generators@.len() > 0 && old(self).generators@.last() < old(
                self,
            ).dictionary@.len(),
            res.is_ok() ==> final(self).consistent() && final(self).generators@ == old(
                self,
            ).generators@.update(
                old(self).generators@.len() - 1,
                (old(self).generators@.last() + 1) as usize,
            ),
            res.is_err() ==> *final(self) == *old(self),
    {
        let active = self.generators.len();
        if active > 0 {
            let cursor = self.generators[active - 1];
            if cursor < self.dictionary.len() {
                let next_char = self.dictionary[cursor];
                proof {
                    lemma_last_cursor_text(self.dictionary@, self.generators@);
                }
                self.generators.set(active - 1, cursor + 1);
                self.current_combination.pop();
                self.current_combination.push(next_char);
                proof {
                    let before = old(self).generators@;
                    let after = self.generators@;
                    assert(after.drop_last() =~= before.drop_last());
                    assert(cursors_ordered(self.dictionary@.len(), after)) by {
                        assert forall|i: int| 0 <= i < after.len() implies #[trigger] after[i]
                            <= self.dictionary@.len() by {
                            if i < active - 1 {
                                assert(after[i] == before[i]);
                            }
                        }
                        assert forall|i: int, j: int|
                            0 <= i < j < after.len() && #[trigger] after[j] == 0 implies #[trigger] after[i]
                            == 0 by {
                            assert(after[j] == before[j]);
                            assert(after[i] == before[i]);
                        }
                    }
                }
                return Ok(());
            }
        }
        Err(())
    }

    /// One odometer step. Cursors that are used up are taken off the end, with
    /// their characters, until one can move on; then each position taken off
    /// gets a new cursor and the dictionary's first character. With no cursor
    /// left to move, the generator is exhausted, and stays so.
    fn increment(&mut self) -> (res: Result<(), ()>)
        requires
            old(self).wf(),
        ensures
            final(self).wf(),
            final(self).dictionary == old(self).dictionary,
            final(self).max_length == old(self).max_length,
            old(self).produced() <= old(self).total(),
            res.is_ok() <==> old(self).produced() < old(self).total(),
            res.is_ok() ==> final(self).produced() == old(self).produced() + 1
                && final(self).current_combination@ == nth_candidate(
                final(self).dictionary@,
                final(self).produced(),
            ),
            res.is_err() ==> final(self).produced() == old(self).produced(),
    {
        let ghost k = self.dictionary@.len();
        let ghost before = self.generators@;
        let width = self.dictionary.len();
        let mut tries: usize = 0;
        proof {
            assert(before =~= before + uniform_cursors(0, width));
            lemma_cursors_position_bound(k, before);
        }
        loop
            invariant_except_break
                self.consistent(),
                before == self.generators@ + uniform_cursors(tries as nat, width),
            invariant
                self.dictionary == old(self).dictionary,
                self.max_length == old(self).max_length,
                width == self.dictionary@.len(),
                k == width,
                before == old(self).generators@,
                before.len() <= self.max_length,
                tries <= before.len(),
            ensures
                self.consistent(),
                self.generators@.len() > 0 ==> exists|kept: Seq<usize>|
                    #![trigger kept.update(kept.len() - 1, (kept.last() + 1) as usize)]
                    {
                        &&& kept.len() > 0
                        &&& kept.last() < width
                        &&& before == kept + uniform_cursors(tries as nat, width)
                        &&& self.generators@ == kept.update(
                            kept.len() - 1,
                            (kept.last() + 1) as usize,
                        )
                    },
                self.generators@.len() == 0 ==> before == uniform_cursors(tries as nat, width),
            decreases self.generators@.len(),
        {
            if self.increment_last_char().is_ok() {
                break ;
            }
            if self.generators.len() == 0 {
                proof {
                    assert(before =~= uniform_cursors(tries as nat, width));
                }
                break ;
            }
            proof {
                lemma_last_cursor_text(self.dictionary@, self.generators@);
                lemma_ordered_prefix(k, self.generators@);
            }
            self.current_combination.pop();
            self.generators.pop();
            tries += 1;
            proof {
                assert(before =~= self.generators@ + uniform_cursors(tries as nat, width));
            }
        }
        if self.generators.len() == 0 {
            proof {
                assert(forall|i: int| 0 <= i < before.len() ==> #[trigger] before[i] == k);
            }
            return Err(());
        }
        let ghost kept = choose|kept: Seq<usize>|
            #![trigger kept.update(kept.len() - 1, (kept.last() + 1) as usize)]
            {
                &&& kept.len() > 0
                &&& kept.last() < width
                &&& before == kept + uniform_cursors(tries as nat, width)
                &&& self.generators@ == kept.update(kept.len() - 1, (kept.last() + 1) as usize)
            };
        let ghost bumped = self.generators@;
        let ghost carried = tries;
        proof {
            assert(before[kept.len() - 1] == kept.last());
            lemma_carry_adds_one(width, kept, carried as nat);
            assert(bumped =~= bumped + uniform_cursors(0, 1));
        }
        while tries != 0
            invariant
                self.consistent(),
                self.dictionary == old(self).dictionary,
                self.max_length == old(self).max_length,
                width == self.dictionary@.len(),
                k == width,
                width > 0,
                tries <= carried,
                bumped.len() + carried == before.len(),
                before.len() <= self.max_length,
                self.generators@ == bumped + uniform_cursors((carried - tries) as nat, 1),
            decreases tries,
        {
            let first = self.dictionary[0];
            let ghost shorter = self.generators@;
            self.current_combination.push(first);
            self.generators.push(1);
            tries -= 1;
            proof {
                let longer = self.generators@;
                assert(longer.drop_last() =~= shorter);
                assert(longer =~= bumped + uniform_cursors((carried - tries) as nat, 1));
                lemma_ordered_extended(k, shorter);
            }
        }
        proof {
            lemma_cursors_text_is_candidate(self.dictionary@, self.generators@);
        }
        Ok(())
    }

    /// The next candidate, or `None` once all have been emitted.
    ///
    /// The call that follows `produced()` emitted candidates returns the one at
    /// position `produced() + 1`. After the last candidate every call returns
    /// `None` and leaves the count where it is.
    pub fn advance(&mut self) -> (next: Option<String>)
        requires
            old(self).wf(),
        ensures
            final(self).wf(),
            final(self).alphabet() == old(self).alphabet(),
            final(self).max_length() == old(self).max_length(),
            final(self).produced() <= final(self).total(),
            next.is_some() <==> old(self).produced() < old(self).total(),
            next.is_some() ==> final(self).produced() == old(self).produced() + 1
                && next.unwrap()@ == nth_candidate(old(self).alphabet(), old(self).produced() + 1),
            next.is_none() ==> final(self).produced() == old(self).produced(),
    {
        if self.increment().is_ok() {
            return Some(self.current_combination.clone());
        }
        None
    }

    /// A generator never emits more candidates than there are.
    pub proof fn lemma_produced_at_most_total(&self)
        requires
            self.wf(),
        ensures
            self.produced() <= self.total(),
    {
        if self.generators@.len() == self.max_length {
            lemma_cursors_position_bound(self.dictionary@.len(), self.generators@);
        }
    }
}

} // verus!
