//! A directory tree as plain values, and the verified walk over it.
//!
//! Reading the filesystem happens outside the library: a caller lists each
//! directory and reads each regular file, and hands the outcome in as an
//! [`Entry`]. A regular file carries its decoded contents (`Some`) or the
//! mark that it could not be read or decoded as text (`None`); anything that
//! is neither a directory nor a regular file (a symlink, a device) is
//! [`Entry::Other`] and is skipped.

use crate::counter::Counter;
use crate::counter::IncType;
use crate::counter::do_counting;
use crate::counter::lemma_occurrences_bounds;
use crate::counter::occurrences;
use vstd::prelude::*;

verus! {

broadcast use vstd::std_specs::vec::group_vec_axioms;

/// One filesystem entry, with directory contents and file contents already
/// read in.
pub enum Entry {
    /// A directory and the entries listed in it.
    Directory(Vec<Entry>),
    /// A regular file: its contents decoded as text, or `None` when it could
    /// not be read or decoded.
    File(Option<String>),
    /// Neither a directory nor a regular file; skipped by the walk.
    Other,
}

/// The contribution of a subtree to the four aggregate counts.
pub struct Totals {
    pub text: int,
    pub nontext: int,
    pub dirs: int,
    pub chars: int,
}

/// The contribution of nothing.
pub open spec fn totals_zero() -> Totals {
    Totals { text: 0, nontext: 0, dirs: 0, chars: 0 }
}

/// Componentwise sum of two contributions.
pub open spec fn totals_add(a: Totals, b: Totals) -> Totals {
    Totals {
        text: a.text + b.text,
        nontext: a.nontext + b.nontext,
        dirs: a.dirs + b.dirs,
        chars: a.chars + b.chars,
    }
}

/// What visiting `e` inside a directory contributes to the counts: a
/// directory adds one to the directory count besides its children's
/// contributions, a file is one text or one non-text file, and any other
/// entry contributes nothing.
pub open spec fn totals(e: Entry) -> Totals
    decreases e,
{
    match e {
        Entry::Directory(cs) => totals_add(
            Totals { text: 0, nontext: 0, dirs: 1, chars: 0 },
            totals_prefix(cs@, cs@.len() as int),
        ),
        Entry::File(c) => match c {
            Some(s) => Totals { text: 1, nontext: 0, dirs: 0, chars: s@.len() as int },
            None => Totals { text: 0, nontext: 1, dirs: 0, chars: 0 },
        },
        Entry::Other => totals_zero(),
    }
}

/// The combined contribution of the first `i` entries of `s`.
pub open spec fn totals_prefix(s: Seq<Entry>, i: int) -> Totals
    decreases s, i,
{
    if 0 < i <= s.len() {
        totals_add(totals_prefix(s, i - 1), totals(s[i - 1]))
    } else {
        totals_zero()
    }
}

/// How often the character `c` occurs in the text files of the subtree `e`.
pub open spec fn occ(e: Entry, c: char) -> int
    decreases e,
{
    match e {
        Entry::Directory(cs) => occ_prefix(cs@, cs@.len() as int, c),
        Entry::File(contents) => match contents {
            Some(s) => occurrences(s@, c),
            None => 0,
        },
        Entry::Other => 0,
    }
}

/// How often `c` occurs in the text files of the first `i` entries of `s`.
pub open spec fn occ_prefix(s: Seq<Entry>, i: int, c: char) -> int
    decreases s, i,
{
    if 0 < i <= s.len() {
        occ_prefix(s, i - 1, c) + occ(s[i - 1], c)
    } else {
        0
    }
}

/// All four components of a subtree's contribution are nonnegative, and the
/// occurrences of any character are bounded by the character total.
pub proof fn lemma_totals_bounds(e: Entry, c: char)
    ensures
        totals(e).text >= 0,
        totals(e).nontext >= 0,
        totals(e).dirs >= 0,
        totals(e).chars >= 0,
        0 <= occ(e, c) <= totals(e).chars,
    decreases e,
{
    match e {
        Entry::Directory(cs) => {
            lemma_totals_prefix_bounds(cs@, cs@.len() as int, c);
        },
        Entry::File(contents) => match contents {
            Some(s) => {
                lemma_occurrences_bounds(s@, c);
            },
            None => {},
        },
        Entry::Other => {},
    }
}

proof fn lemma_totals_prefix_bounds(s: Seq<Entry>, i: int, c: char)
    ensures
        totals_prefix(s, i).text >= 0,
        totals_prefix(s, i).nontext >= 0,
        totals_prefix(s, i).dirs >= 0,
        totals_prefix(s, i).chars >= 0,
        0 <= occ_prefix(s, i, c) <= totals_prefix(s, i).chars,
    decreases s, i,
{
    if 0 < i <= s.len() {
        lemma_totals_prefix_bounds(s, i - 1, c);
        lemma_totals_bounds(s[i - 1], c);
    }
}

/// A longer prefix contributes at least as much as a shorter prefix plus the
/// next entry, in each of the four components.
proof fn lemma_prefix_bound(s: Seq<Entry>, i: int, n: int)
    requires
        0 <= i < n <= s.len(),
    ensures
        totals_prefix(s, i).text + totals(s[i]).text <= totals_prefix(s, n).text,
        totals_prefix(s, i).nontext + totals(s[i]).nontext <= totals_prefix(s, n).nontext,
        totals_prefix(s, i).dirs + totals(s[i]).dirs <= totals_prefix(s, n).dirs,
        totals_prefix(s, i).chars + totals(s[i]).chars <= totals_prefix(s, n).chars,
    decreases n - i,
{
    if n == i + 1 {
    } else {
        lemma_prefix_bound(s, i, n - 1);
        lemma_totals_bounds(s[n - 1], ' ');
    }
}

/// Number of regular files in the subtree `e`, whatever their classification.
pub open spec fn file_count(e: Entry) -> int
    decreases e,
{
    match e {
        Entry::Directory(cs) => file_count_prefix(cs@, cs@.len() as int),
        Entry::File(_) => 1,
        Entry::Other => 0,
    }
}

/// Number of regular files among the first `i` entries of `s`.
pub open spec fn file_count_prefix(s: Seq<Entry>, i: int) -> int
    decreases s, i,
{
    if 0 < i <= s.len() {
        file_count_prefix(s, i - 1) + file_count(s[i - 1])
    } else {
        0
    }
}

/// Every regular file visited is classified exactly once: the text and
/// non-text file counts of a tree sum to the number of its regular files.
pub proof fn lemma_text_nontext_partition(e: Entry)
    ensures
        totals(e).text + totals(e).nontext == file_count(e),
    decreases e,
{
    match e {
        Entry::Directory(cs) => {
            lemma_text_nontext_partition_prefix(cs@, cs@.len() as int);
        },
        Entry::File(_) => {},
        Entry::Other => {},
    }
}

proof fn lemma_text_nontext_partition_prefix(s: Seq<Entry>, i: int)
    ensures
        totals_prefix(s, i).text + totals_prefix(s, i).nontext == file_count_prefix(s, i),
    decreases s, i,
{
    if 0 < i <= s.len() {
        lemma_text_nontext_partition_prefix(s, i - 1);
        lemma_text_nontext_partition(s[i - 1]);
    }
}

/// What a whole run counts for the path handed to it: a directory or a
/// regular file is counted as its subtree says; any other path is rejected
/// before counting, so it contributes nothing.
pub open spec fn counted(e: Entry) -> Totals {
    if e is Other {
        totals_zero()
    } else {
        totals(e)
    }
}

/// How often `c` is counted in a whole run on `e`.
pub open spec fn counted_occ(e: Entry, c: char) -> int {
    if e is Other {
        0
    } else {
        occ(e, c)
    }
}

/// The counter `c` holds exactly the counts of a run on `e`.
pub open spec fn reflects(c: Counter, e: Entry) -> bool {
    &&& c.files_text as int == counted(e).text
    &&& c.files_nontext as int == counted(e).nontext
    &&& c.directories as int == counted(e).dirs
    &&& c.chars_total as int == counted(e).chars
    &&& forall|d: char| c.spec_count_of(d) == counted_occ(e, d)
}

/// The counts of a run are a function of the tree alone: two counters that
/// both hold the counts of the same unchanged tree agree on every count.
pub proof fn lemma_runs_identical(e: Entry, a: Counter, b: Counter)
    requires
        reflects(a, e),
        reflects(b, e),
    ensures
        a.files_text == b.files_text,
        a.files_nontext == b.files_nontext,
        a.directories == b.directories,
        a.chars_total == b.chars_total,
        forall|d: char| a.spec_count_of(d) == b.spec_count_of(d),
{
}

/// Walks a directory tree: the directory itself is counted, every regular
/// file in it is classified and, when text, tallied, and subdirectories are
/// walked in turn. An entry that is not a directory is left alone, as a
/// caller hands files to [`do_counting`] directly.
pub fn walk_dir(e: &Entry, counter: &mut Counter)
    requires
        old(counter).wf(),
        old(counter).files_text + totals(*e).text <= u32::MAX,
        old(counter).files_nontext + totals(*e).nontext <= u32::MAX,
        old(counter).directories + totals(*e).dirs <= u32::MAX,
        old(counter).chars_total + totals(*e).chars <= u64::MAX,
    ensures
        final(counter).wf(),
        *e matches Entry::Directory(_) ==> {
            &&& final(counter).files_text as int == old(counter).files_text + totals(*e).text
            &&& final(counter).files_nontext as int == old(counter).files_nontext + totals(
                *e,
            ).nontext
            &&& final(counter).directories as int == old(counter).directories + totals(*e).dirs
            &&& final(counter).chars_total as int == old(counter).chars_total + totals(*e).chars
            &&& forall|d: char|
                final(counter).spec_count_of(d) == old(counter).spec_count_of(d) + occ(*e, d)
        },
        !(*e matches Entry::Directory(_)) ==> *final(counter) == *old(counter),
    decreases *e,
{
    match e {
        Entry::Directory(cs) => {
            let n: usize = cs.len();
            proof {
                lemma_totals_prefix_bounds(cs@, n as int, ' ');
            }
            counter.increment(IncType::Directory);
            let mut i: usize = 0;
            while i < n
                invariant
                    n == cs@.len(),
                    i <= n,
                    *e == Entry::Directory(*cs),
                    counter.wf(),
                    counter.files_text as int == old(counter).files_text + totals_prefix(
                        cs@,
                        i as int,
                    ).text,
                    counter.files_nontext as int == old(counter).files_nontext + totals_prefix(
                        cs@,
                        i as int,
                    ).nontext,
                    counter.directories as int == old(counter).directories + 1 + totals_prefix(
                        cs@,
                        i as int,
                    ).dirs,
                    counter.chars_total as int == old(counter).chars_total + totals_prefix(
                        cs@,
                        i as int,
                    ).chars,
                    forall|d: char|
                        counter.spec_count_of(d) == old(counter).spec_count_of(d) + occ_prefix(
                            cs@,
                            i as int,
                            d,
                        ),
                    old(counter).files_text + totals_prefix(cs@, n as int).text <= u32::MAX,
                    old(counter).files_nontext + totals_prefix(cs@, n as int).nontext <= u32::MAX,
                    old(counter).directories + 1 + totals_prefix(cs@, n as int).dirs <= u32::MAX,
                    old(counter).chars_total + totals_prefix(cs@, n as int).chars <= u64::MAX,
                decreases n - i,
            {
                proof {
                    lemma_prefix_bound(cs@, i as int, n as int);
                    lemma_totals_bounds(cs@[i as int], ' ');
                }
                let child: &Entry = &cs[i];
                match child {
                    Entry::Directory(_) => {
                        proof {
                            assert(decreases_to!(*e => e->Directory_0));
                            assert(decreases_to!(*cs => cs@));
                            assert(decreases_to!(cs@ => cs@[i as int]));
                        }
                        walk_dir(child, counter);
                    },
                    Entry::File(contents) => {
                        do_counting(contents, counter);
                    },
                    Entry::Other => {},
                }
                proof {
                    assert forall|d: char|
                        counter.spec_count_of(d) == old(counter).spec_count_of(d) + occ_prefix(
                            cs@,
                            i as int + 1,
                            d,
                        ) by {
                        assert(occ_prefix(cs@, i as int + 1, d) == occ_prefix(cs@, i as int, d)
                            + occ(cs@[i as int], d));
                    }
                }
                i = i + 1;
            }
        },
        _ => {},
    }
}

/// One whole run: counts the path as the entry point does. A directory is
/// walked, a regular file is classified and tallied directly without a
/// directory count, and any other path is counted as nothing.
pub fn run(e: &Entry) -> (c: Counter)
    requires
        totals(*e).text <= u32::MAX,
        totals(*e).nontext <= u32::MAX,
        totals(*e).dirs <= u32::MAX,
        totals(*e).chars <= u64::MAX,
    ensures
        c.wf(),
        reflects(c, *e),
{
    let mut counter = Counter::new();
    proof {
        lemma_totals_bounds(*e, ' ');
    }
    match e {
        Entry::Directory(_) => {
            walk_dir(e, &mut counter);
        },
        Entry::File(contents) => {
            do_counting(contents, &mut counter);
        },
        Entry::Other => {},
    }
    counter
}

} // verus!
