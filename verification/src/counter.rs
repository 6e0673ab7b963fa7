//! The aggregate state of one counting run: how many text files, non-text
//! files and directories were seen, how many characters were tallied in
//! total, and how often each character occurred.

use std::collections::HashMap;
use vstd::prelude::*;
use vstd::string::StrSliceExecFns;

verus! {

broadcast use vstd::std_specs::hash::group_hash_axioms;

/// The count recorded for the code point of `c` in `m`, taking absent keys as zero.
pub open spec fn count_in(m: Map<u32, u64>, c: char) -> int {
    if m.contains_key(c as u32) {
        m[c as u32] as int
    } else {
        0
    }
}

/// The sum of the counts that `m` records for the characters of `keys`,
/// one summand per element of `keys`.
pub open spec fn sum_counts(keys: Seq<char>, m: Map<u32, u64>) -> int
    decreases keys.len(),
{
    if keys.len() == 0 {
        0
    } else {
        sum_counts(keys.drop_last(), m) + count_in(m, keys.last())
    }
}

proof fn lemma_sum_nonneg(keys: Seq<char>, m: Map<u32, u64>)
    ensures
        sum_counts(keys, m) >= 0,
    decreases keys.len(),
{
    if keys.len() > 0 {
        lemma_sum_nonneg(keys.drop_last(), m);
    }
}

proof fn lemma_count_le_sum(keys: Seq<char>, m: Map<u32, u64>, c: char)
    requires
        exists|i: int| 0 <= i < keys.len() && (#[trigger] keys[i]) as u32 == c as u32,
    ensures
        count_in(m, c) <= sum_counts(keys, m),
    decreases keys.len(),
{
    let i = choose|i: int| 0 <= i < keys.len() && (#[trigger] keys[i]) as u32 == c as u32;
    if i == keys.len() - 1 {
        lemma_sum_nonneg(keys.drop_last(), m);
    } else {
        assert(keys.drop_last()[i] == keys[i]);
        lemma_count_le_sum(keys.drop_last(), m, c);
    }
}

proof fn lemma_sum_insert_absent(keys: Seq<char>, m: Map<u32, u64>, k: u32, v: u64)
    requires
        forall|i: int| 0 <= i < keys.len() ==> (#[trigger] keys[i]) as u32 != k,
    ensures
        sum_counts(keys, m.insert(k, v)) == sum_counts(keys, m),
    decreases keys.len(),
{
    if keys.len() > 0 {
        assert(forall|i: int|
            0 <= i < keys.drop_last().len() ==> (#[trigger] keys.drop_last()[i]) as u32 != k);
        lemma_sum_insert_absent(keys.drop_last(), m, k, v);
        assert((keys.last() as u32) != k);
    }
}

proof fn lemma_sum_update(keys: Seq<char>, m: Map<u32, u64>, c: char, v: u64)
    requires
        forall|i: int, j: int| 0 <= i < j < keys.len() ==> (keys[i] as u32) != (keys[j] as u32),
        exists|i: int| 0 <= i < keys.len() && (#[trigger] keys[i]) as u32 == c as u32,
    ensures
        sum_counts(keys, m.insert(c as u32, v)) == sum_counts(keys, m) - count_in(m, c) + v,
    decreases keys.len(),
{
    let last = keys.last();
    if (last as u32) == (c as u32) {
        assert(forall|i: int|
            0 <= i < keys.drop_last().len() ==> (#[trigger] keys.drop_last()[i]) as u32 != (c
                as u32));
        lemma_sum_insert_absent(keys.drop_last(), m, c as u32, v);
        assert(count_in(m.insert(c as u32, v), last) == v);
        assert(count_in(m, last) == count_in(m, c));
    } else {
        let i = choose|i: int| 0 <= i < keys.len() && (#[trigger] keys[i]) as u32 == c as u32;
        assert(keys.drop_last()[i] == keys[i]);
        lemma_sum_update(keys.drop_last(), m, c, v);
        assert(count_in(m.insert(c as u32, v), last) == count_in(m, last));
    }
}

/// Two characters are equal exactly when their Unicode scalar values are.
pub proof fn lemma_code_injective(c: char, d: char)
    ensures
        (c == d) <==> ((c as u32) == (d as u32)),
{
}

/// Number of occurrences of the character `c` in `s`.
pub open spec fn occurrences(s: Seq<char>, c: char) -> int
    decreases s.len(),
{
    if s.len() == 0 {
        0
    } else {
        occurrences(s.drop_last(), c) + (if s.last() == c {
            1int
        } else {
            0int
        })
    }
}

/// Occurrence counts lie between zero and the length of the sequence.
pub proof fn lemma_occurrences_bounds(s: Seq<char>, c: char)
    ensures
        0 <= occurrences(s, c) <= s.len(),
    decreases s.len(),
{
    if s.len() > 0 {
        lemma_occurrences_bounds(s.drop_last(), c);
    }
}

proof fn lemma_occurrences_step(s: Seq<char>, i: int)
    requires
        0 <= i < s.len(),
    ensures
        forall|d: char|
            occurrences(s.take(i + 1), d) == occurrences(s.take(i), d) + (if s[i] == d {
                1int
            } else {
                0int
            }),
{
    assert(s.take(i + 1).drop_last() =~= s.take(i));
    assert(s.take(i + 1).last() == s[i]);
}

/// Routes one observation to the matching field of a [`Counter`]: a text
/// file, a non-text file, a directory, or one character of a text file.
pub enum IncType {
    Text,
    NonText,
    Directory,
    Char(char),
}

/// Aggregate counts of one run.
///
/// `charmap` is keyed by the character's Unicode scalar value; `keys` lists
/// each distinct character once, in the order of first observation, so the
/// table of the map's entries can be walked without an order left open.
/// The invariant [`Counter::wf`] ties `chars_total` to the sum of the map's
/// values.
pub struct Counter {
    pub files_text: u32,
    pub files_nontext: u32,
    pub directories: u32,
    pub chars_total: u64,
    pub charmap: HashMap<u32, u64>,
    pub keys: Vec<char>,
}

impl Counter {
    /// The tally recorded for character `c`: the map entry if present, zero otherwise.
    pub open spec fn spec_count_of(self, c: char) -> int {
        count_in(self.charmap@, c)
    }

    /// Well-formedness: `keys` enumerates the map's domain exactly once,
    /// every recorded count is positive, and `chars_total` is the sum of
    /// all recorded counts.
    pub open spec fn wf(self) -> bool {
        &&& forall|i: int, j: int|
            0 <= i < j < self.keys@.len() ==> (self.keys@[i] as u32) != (self.keys@[j] as u32)
        &&& forall|i: int|
            0 <= i < self.keys@.len() ==> self.charmap@.contains_key((#[trigger] self.keys@[i]) as u32)
        &&& forall|k: u32|
            #[trigger] self.charmap@.contains_key(k) ==> exists|i: int|
                0 <= i < self.keys@.len() && (self.keys@[i] as u32) == k
        &&& forall|k: u32| self.charmap@.contains_key(k) ==> #[trigger] self.charmap@[k] >= 1
        &&& self.chars_total as int == sum_counts(self.keys@, self.charmap@)
    }

    /// A counter with every count zero and an empty frequency map.
    pub fn new() -> (c: Counter)
        ensures
            c.wf(),
            c.files_text == 0,
            c.files_nontext == 0,
            c.directories == 0,
            c.chars_total == 0,
            forall|d: char| c.spec_count_of(d) == 0,
    {
        Counter {
            files_text: 0,
            files_nontext: 0,
            directories: 0,
            chars_total: 0,
            charmap: HashMap::new(),
            keys: Vec::new(),
        }
    }

    /// Total number of characters tallied across all text files.
    pub fn chars_total(&self) -> (r: u64)
        ensures
            r == self.chars_total,
    {
        self.chars_total
    }

    /// The frequency map, keyed by the character's Unicode scalar value.
    pub fn charmap(&self) -> (r: &HashMap<u32, u64>)
        ensures
            r@ == self.charmap@,
    {
        &self.charmap
    }

    /// Number of files whose contents decoded as text.
    pub fn files_text(&self) -> (r: u32)
        ensures
            r == self.files_text,
    {
        self.files_text
    }

    /// Number of files that could not be read or decoded as text.
    pub fn files_nontext(&self) -> (r: u32)
        ensures
            r == self.files_nontext,
    {
        self.files_nontext
    }

    /// Number of directories visited.
    pub fn directories(&self) -> (r: u32)
        ensures
            r == self.directories,
    {
        self.directories
    }

    /// Records one observation: a text file, non-text file or directory
    /// raises the matching count by one; a character raises its tally in the
    /// frequency map and the character total by one.
    pub fn increment(&mut self, file_type: IncType)
        requires
            old(self).wf(),
            file_type is Text ==> old(self).files_text < u32::MAX,
            file_type is NonText ==> old(self).files_nontext < u32::MAX,
            file_type is Directory ==> old(self).directories < u32::MAX,
            file_type is Char ==> old(self).chars_total < u64::MAX,
        ensures
            final(self).wf(),
            final(self).files_text as int == old(self).files_text as int + (if file_type is Text {
                1int
            } else {
                0int
            }),
            final(self).files_nontext as int == old(self).files_nontext as int + (
            if file_type is NonText {
                1int
            } else {
                0int
            }),
            final(self).directories as int == old(self).directories as int + (
            if file_type is Directory {
                1int
            } else {
                0int
            }),
            final(self).chars_total as int == old(self).chars_total as int + (
            if file_type is Char {
                1int
            } else {
                0int
            }),
            forall|d: char|
                final(self).spec_count_of(d) == old(self).spec_count_of(d) + (
                if file_type == IncType::Char(d) {
                    1int
                } else {
                    0int
                }),
    {
        match file_type {
            IncType::Text => {
                self.files_text = self.files_text + 1;
            },
            IncType::NonText => {
                self.files_nontext = self.files_nontext + 1;
            },
            IncType::Directory => {
                self.directories = self.directories + 1;
            },
            IncType::Char(c) => {
                let code: u32 = c as u32;
                let cur: Option<u64> = match self.charmap.get(&code) {
                    Some(v) => Some(*v),
                    None => None,
                };
                match cur {
                    Some(v) => {
                        proof {
                            lemma_count_le_sum(self.keys@, self.charmap@, c);
                            lemma_sum_update(self.keys@, self.charmap@, c, (v + 1) as u64);
                        }
                        self.charmap.insert(code, v + 1);
                        self.chars_total = self.chars_total + 1;
                        proof {
                            assert forall|d: char|
                                self.spec_count_of(d) == old(self).spec_count_of(d) + (
                                if d == c {
                                    1int
                                } else {
                                    0int
                                }) by {
                                lemma_code_injective(d, c);
                            }
                        }
                    },
                    None => {
                        proof {
                            lemma_sum_insert_absent(self.keys@, self.charmap@, code, 1u64);
                        }
                        self.charmap.insert(code, 1);
                        self.keys.push(c);
                        self.chars_total = self.chars_total + 1;
                        proof {
                            let ks = self.keys@;
                            assert(ks.drop_last() =~= old(self).keys@);
                            assert(ks.last() == c);
                            assert(count_in(self.charmap@, c) == 1);
                            assert(sum_counts(ks, self.charmap@) == sum_counts(
                                old(self).keys@,
                                self.charmap@,
                            ) + 1);
                            assert(forall|i: int|
                                0 <= i < old(self).keys@.len() ==> ks[i] == old(self).keys@[i]);
                        }
                        proof {
                            assert forall|d: char|
                                self.spec_count_of(d) == old(self).spec_count_of(d) + (
                                if d == c {
                                    1int
                                } else {
                                    0int
                                }) by {
                                lemma_code_injective(d, c);
                            }
                        }
                    },
                }
            },
        }
    }

    /// The stated invariant of the counter: the character total always
    /// equals the sum of the values of the frequency map.
    pub proof fn lemma_chars_total_is_sum(&self)
        requires
            self.wf(),
        ensures
            self.chars_total as int == sum_counts(self.keys@, self.charmap@),
    {
    }

    /// The tally recorded for character `c`, zero when `c` was never seen.
    pub fn count_of(&self, c: char) -> (r: u64)
        ensures
            r as int == self.spec_count_of(c),
    {
        let code: u32 = c as u32;
        match self.charmap.get(&code) {
            Some(v) => *v,
            None => 0,
        }
    }
}





/// Tallies every character of `s` into `counter`, in sequence order.
pub fn char_count(s: &str, counter: &mut Counter)
    requires
        old(counter).wf(),
        old(counter).chars_total + s@.len() <= u64::MAX,
    ensures
        final(counter).wf(),
        final(counter).files_text == old(counter).files_text,
        final(counter).files_nontext == old(counter).files_nontext,
        final(counter).directories == old(counter).directories,
        final(counter).chars_total as int == old(counter).chars_total as int + s@.len(),
        forall|d: char|
            final(counter).spec_count_of(d) == old(counter).spec_count_of(d) + occurrences(s@, d),
{
    let n: usize = s.unicode_len();
    let mut i: usize = 0;
    while i < n
        invariant
            n == s@.len(),
            i <= n,
            counter.wf(),
            counter.files_text == old(counter).files_text,
            counter.files_nontext == old(counter).files_nontext,
            counter.directories == old(counter).directories,
            counter.chars_total as int == old(counter).chars_total as int + i,
            old(counter).chars_total + s@.len() <= u64::MAX,
            forall|d: char|
                counter.spec_count_of(d) == old(counter).spec_count_of(d) + occurrences(
                    s@.take(i as int),
                    d,
                ),
        decreases n - i,
    {
        let c = s.get_char(i);
        counter.increment(IncType::Char(c));
        proof {
            lemma_occurrences_step(s@, i as int);
        }
        i = i + 1;
    }
    proof {
        assert(s@.take(n as int) =~= s@);
    }
}

/// Classifies one regular file from the outcome of reading it: decoded
/// contents make it a text file whose characters are tallied; `None`, a file
/// that could not be read or decoded, makes it a non-text file.
pub fn do_counting(contents: &Option<String>, counter: &mut Counter)
    requires
        old(counter).wf(),
        contents is Some ==> old(counter).files_text < u32::MAX,
        contents is None ==> old(counter).files_nontext < u32::MAX,
        contents matches Some(s) ==> old(counter).chars_total + s@.len() <= u64::MAX,
    ensures
        final(counter).wf(),
        final(counter).directories == old(counter).directories,
        match contents {
            Some(s) => {
                &&& final(counter).files_text as int == old(counter).files_text as int + 1
                &&& final(counter).files_nontext == old(counter).files_nontext
                &&& final(counter).chars_total as int == old(counter).chars_total as int
                    + s@.len()
                &&& forall|d: char|
                    final(counter).spec_count_of(d) == old(counter).spec_count_of(d) + occurrences(
                        s@,
                        d,
                    )
            },
            None => {
                &&& final(counter).files_text == old(counter).files_text
                &&& final(counter).files_nontext as int == old(counter).files_nontext as int + 1
                &&& final(counter).chars_total == old(counter).chars_total
                &&& forall|d: char|
                    final(counter).spec_count_of(d) == old(counter).spec_count_of(d)
            },
        },
{
    match contents {
        Some(s) => {
            counter.increment(IncType::Text);
            char_count(s.as_str(), counter);
        },
        None => {
            counter.increment(IncType::NonText);
        },
    }
}

} // verus!
