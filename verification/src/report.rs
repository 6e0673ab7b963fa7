//! The frequency table: one row per distinct character, carrying the
//! character, a "U+XXXX;"-style label of its Unicode scalar value, and its
//! count, sorted by descending count. Equal counts are ordered by ascending
//! scalar value, so the table is the same on every run over the same counts.

use crate::counter::Counter;
use crate::counter::lemma_code_injective;
use vstd::prelude::*;
use vstd::string::StrSliceExecFns;
use vstd::string::StringExecFns;

verus! {

/// The lowercase hexadecimal digit character for `d`, taking values outside
/// zero to fifteen as zero.
pub open spec fn hex_digit(d: int) -> char {
    if d == 1 {
        '1'
    } else if d == 2 {
        '2'
    } else if d == 3 {
        '3'
    } else if d == 4 {
        '4'
    } else if d == 5 {
        '5'
    } else if d == 6 {
        '6'
    } else if d == 7 {
        '7'
    } else if d == 8 {
        '8'
    } else if d == 9 {
        '9'
    } else if d == 10 {
        'a'
    } else if d == 11 {
        'b'
    } else if d == 12 {
        'c'
    } else if d == 13 {
        'd'
    } else if d == 14 {
        'e'
    } else if d == 15 {
        'f'
    } else {
        '0'
    }
}

/// The lowercase hexadecimal digits of `n`, most significant first, without
/// leading zeros.
pub open spec fn hex_seq(n: int) -> Seq<char>
    decreases n,
{
    if n < 16 {
        seq![hex_digit(n)]
    } else {
        hex_seq(n / 16).push(hex_digit(n % 16))
    }
}

/// The label of a character's code point: "U+", the hexadecimal scalar
/// value, and a closing ";".
pub open spec fn code_label_seq(c: char) -> Seq<char> {
    seq!['U', '+'] + hex_seq(c as u32 as int) + seq![';']
}

fn hex_digit_str(d: u32) -> (r: &'static str)
    requires
        d < 16,
    ensures
        r@ == seq![hex_digit(d as int)],
{
    let r: &'static str = if d == 0 {
        "0"
    } else if d == 1 {
        "1"
    } else if d == 2 {
        "2"
    } else if d == 3 {
        "3"
    } else if d == 4 {
        "4"
    } else if d == 5 {
        "5"
    } else if d == 6 {
        "6"
    } else if d == 7 {
        "7"
    } else if d == 8 {
        "8"
    } else if d == 9 {
        "9"
    } else if d == 10 {
        "a"
    } else if d == 11 {
        "b"
    } else if d == 12 {
        "c"
    } else if d == 13 {
        "d"
    } else if d == 14 {
        "e"
    } else {
        "f"
    };
    proof {
        reveal_strlit("0");
        reveal_strlit("1");
        reveal_strlit("2");
        reveal_strlit("3");
        reveal_strlit("4");
        reveal_strlit("5");
        reveal_strlit("6");
        reveal_strlit("7");
        reveal_strlit("8");
        reveal_strlit("9");
        reveal_strlit("a");
        reveal_strlit("b");
        reveal_strlit("c");
        reveal_strlit("d");
        reveal_strlit("e");
        reveal_strlit("f");
        assert(r@ =~= seq![hex_digit(d as int)]);
    }
    r
}

fn hex_string(n: u32) -> (r: String)
    ensures
        r@ == hex_seq(n as int),
    decreases n,
{
    if n < 16 {
        hex_digit_str(n).to_owned()
    } else {
        let mut r = hex_string(n / 16);
        r.append(hex_digit_str(n % 16));
        proof {
            assert(r@ =~= hex_seq(n as int));
        }
        r
    }
}

/// Renders the "U+XXXX;"-style label of a character's Unicode scalar value,
/// in lowercase hexadecimal.
pub fn code_label(c: char) -> (r: String)
    ensures
        r@ == code_label_seq(c),
{
    let mut r = String::from_str("U+");
    r.append(hex_string(c as u32).as_str());
    r.append(";");
    proof {
        reveal_strlit("U+");
        reveal_strlit(";");
        assert(r@ =~= code_label_seq(c));
    }
    r
}

/// The message shown for a path that is neither a directory nor a regular
/// file: the path itself followed by " is not a valid path".
pub fn invalid_path_message(path: &str) -> (r: String)
    ensures
        r@ == path@ + " is not a valid path"@,
{
    let mut r = path.to_owned();
    r.append(" is not a valid path");
    r
}

/// One row of the frequency table.
pub struct Row {
    /// The character itself.
    pub character: char,
    /// The "U+XXXX;"-style label of its Unicode scalar value.
    pub code: String,
    /// How often the character occurred.
    pub counts: u64,
}

/// Strict table order: more counts come first; equal counts are broken by
/// ascending scalar value.
pub open spec fn row_lt(a: Row, b: Row) -> bool {
    a.counts > b.counts || (a.counts == b.counts && (a.character as u32) < (b.character as u32))
}

/// Non-strict table order.
pub open spec fn row_le(a: Row, b: Row) -> bool {
    a.counts > b.counts || (a.counts == b.counts && (a.character as u32) <= (b.character as u32))
}

fn row_before(a: &Row, b: &Row) -> (r: bool)
    ensures
        r == row_lt(*a, *b),
{
    a.counts > b.counts || (a.counts == b.counts && (a.character as u32) < (b.character as u32))
}

/// Every row is truthful for `counter`: its count is the tally recorded for
/// its character, at least one, and its code is the character's label.
pub open spec fn rows_truthful(counter: Counter, rows: Seq<Row>) -> bool {
    &&& forall|m: int|
        0 <= m < rows.len() ==> (#[trigger] rows[m]).counts as int == counter.spec_count_of(
            rows[m].character,
        )
    &&& forall|m: int| 0 <= m < rows.len() ==> (#[trigger] rows[m]).counts >= 1
    &&& forall|m: int|
        0 <= m < rows.len() ==> (#[trigger] rows[m]).code@ == code_label_seq(rows[m].character)
}

/// Every row's character is one of the first `i` keys.
pub open spec fn rows_from_keys(ks: Seq<char>, rows: Seq<Row>, i: int) -> bool {
    forall|m: int|
        0 <= m < rows.len() ==> exists|l: int|
            0 <= l < i && (#[trigger] rows[m]).character == ks[l]
}

/// No character stands in two rows.
pub open spec fn rows_distinct(rows: Seq<Row>) -> bool {
    forall|a: int, b: int| 0 <= a < b < rows.len() ==> rows[a].character != rows[b].character
}

/// The rows stand in table order: by descending count, and among equal
/// counts by ascending scalar value.
pub open spec fn rows_sorted(rows: Seq<Row>) -> bool {
    forall|a: int, b: int| 0 <= a < b < rows.len() ==> row_le(rows[a], rows[b])
}

/// Each of the first `i` keys has a row.
pub open spec fn keys_covered(ks: Seq<char>, rows: Seq<Row>, i: int) -> bool {
    forall|l: int| #![trigger ks[l]]
        0 <= l < i ==> exists|m: int|
            0 <= m < rows.len() && (#[trigger] rows[m]).character == ks[l]
}

/// The rows built from the first `i` elements of the counter's key list:
/// every row truthful, every character placed once, rows sorted.
#[verifier::opaque]
pub open spec fn rows_ok(counter: Counter, rows: Seq<Row>, i: int) -> bool {
    &&& rows.len() == i
    &&& rows_truthful(counter, rows)
    &&& rows_from_keys(counter.keys@, rows, i)
    &&& rows_distinct(rows)
    &&& rows_sorted(rows)
    &&& keys_covered(counter.keys@, rows, i)
}

/// Spells out what [`rows_ok`] states of a table.
pub proof fn lemma_rows_ok_facts(counter: Counter, rows: Seq<Row>, i: int)
    requires
        rows_ok(counter, rows, i),
    ensures
        rows.len() == i,
        rows_truthful(counter, rows),
        rows_from_keys(counter.keys@, rows, i),
        rows_distinct(rows),
        rows_sorted(rows),
        keys_covered(counter.keys@, rows, i),
{
    reveal(rows_ok);
}

proof fn lemma_rows_ok_pack(counter: Counter, rows: Seq<Row>, i: int)
    requires
        rows.len() == i,
        rows_truthful(counter, rows),
        rows_from_keys(counter.keys@, rows, i),
        rows_distinct(rows),
        rows_sorted(rows),
        keys_covered(counter.keys@, rows, i),
    ensures
        rows_ok(counter, rows, i),
{
    reveal(rows_ok);
}

proof fn lemma_new_char_distinct(counter: Counter, prev: Seq<Row>, i: int)
    requires
        counter.wf(),
        0 <= i < counter.keys@.len(),
        rows_from_keys(counter.keys@, prev, i),
    ensures
        forall|m: int|
            0 <= m < prev.len() ==> (#[trigger] prev[m]).character != counter.keys@[i],
{
    assert forall|m: int| 0 <= m < prev.len() implies (#[trigger] prev[m]).character
        != counter.keys@[i] by {
        let l = choose|l: int| 0 <= l < i && (#[trigger] prev[m]).character == counter.keys@[l];
        assert((counter.keys@[l] as u32) != (counter.keys@[i] as u32));
    }
}

proof fn lemma_insert_pointwise(prev: Seq<Row>, row: Row, p: int)
    requires
        0 <= p <= prev.len(),
    ensures
        prev.insert(p, row).len() == prev.len() + 1,
        forall|a: int| 0 <= a < p ==> #[trigger] prev.insert(p, row)[a] == prev[a],
        prev.insert(p, row)[p] == row,
        forall|a: int| p < a < prev.len() + 1 ==> #[trigger] prev.insert(p, row)[a] == prev[a - 1],
{
    prev.insert_ensures(p, row);
    assert forall|a: int| p < a < prev.len() + 1 implies #[trigger] prev.insert(p, row)[a]
        == prev[a - 1] by {
        assert(prev.insert(p, row)[a - 1 + 1] == prev[a - 1]);
    }
}

proof fn lemma_insert_membership(ks: Seq<char>, prev: Seq<Row>, row: Row, p: int, i: int)
    requires
        0 <= p <= prev.len(),
        0 <= i,
        row.character == ks[i],
        rows_from_keys(ks, prev, i),
    ensures
        rows_from_keys(ks, prev.insert(p, row), i + 1),
{
    lemma_insert_pointwise(prev, row, p);
    let rows = prev.insert(p, row);
    assert forall|m: int| 0 <= m < rows.len() implies exists|l: int|
        0 <= l < i + 1 && (#[trigger] rows[m]).character == ks[l] by {
        if m == p {
            assert(rows[m].character == ks[i]);
        } else {
            let m0: int = if m < p {
                m
            } else {
                m - 1
            };
            let l = choose|l: int| 0 <= l < i && (#[trigger] prev[m0]).character == ks[l];
            assert(rows[m].character == ks[l]);
        }
    }
}

proof fn lemma_insert_completeness(ks: Seq<char>, prev: Seq<Row>, row: Row, p: int, i: int)
    requires
        0 <= p <= prev.len(),
        0 <= i,
        row.character == ks[i],
        keys_covered(ks, prev, i),
    ensures
        keys_covered(ks, prev.insert(p, row), i + 1),
{
    lemma_insert_pointwise(prev, row, p);
    let rows = prev.insert(p, row);
    assert forall|l: int| #![trigger ks[l]] 0 <= l < i + 1 implies exists|m: int|
        0 <= m < rows.len() && (#[trigger] rows[m]).character == ks[l] by {
        if l == i {
            assert(rows[p].character == ks[l]);
        } else {
            let m0 = choose|m: int| 0 <= m < prev.len() && (#[trigger] prev[m]).character == ks[l];
            let m: int = if m0 < p {
                m0
            } else {
                m0 + 1
            };
            assert(rows[m].character == ks[l]);
        }
    }
}

proof fn lemma_insert_sorted(prev: Seq<Row>, row: Row, p: int)
    requires
        0 <= p <= prev.len(),
        rows_sorted(prev),
        forall|a: int| 0 <= a < p ==> row_lt(#[trigger] prev[a], row),
        forall|b: int| p <= b < prev.len() ==> row_le(row, #[trigger] prev[b]),
    ensures
        rows_sorted(prev.insert(p, row)),
{
    lemma_insert_pointwise(prev, row, p);
    let rows = prev.insert(p, row);
    assert forall|a: int, b: int| 0 <= a < b < rows.len() implies row_le(rows[a], rows[b]) by {
        if b == p {
            assert(row_lt(prev[a], row));
        } else if a == p {
            assert(row_le(row, prev[b - 1]));
        }
    }
}

proof fn lemma_insert_distinct(prev: Seq<Row>, row: Row, p: int)
    requires
        0 <= p <= prev.len(),
        rows_distinct(prev),
        forall|m: int| 0 <= m < prev.len() ==> (#[trigger] prev[m]).character != row.character,
    ensures
        rows_distinct(prev.insert(p, row)),
{
    lemma_insert_pointwise(prev, row, p);
    let rows = prev.insert(p, row);
    assert forall|a: int, b: int| 0 <= a < b < rows.len() implies rows[a].character
        != rows[b].character by {
        if a == p || b == p {
        } else {
            let a0: int = if a < p {
                a
            } else {
                a - 1
            };
            let b0: int = if b < p {
                b
            } else {
                b - 1
            };
            assert(rows[a].character == prev[a0].character);
            assert(rows[b].character == prev[b0].character);
        }
    }
}

proof fn lemma_insert_truthful(counter: Counter, prev: Seq<Row>, row: Row, p: int)
    requires
        0 <= p <= prev.len(),
        rows_truthful(counter, prev),
        row.counts as int == counter.spec_count_of(row.character),
        row.counts >= 1,
        row.code@ == code_label_seq(row.character),
    ensures
        rows_truthful(counter, prev.insert(p, row)),
{
    lemma_insert_pointwise(prev, row, p);
    let rows = prev.insert(p, row);
    assert forall|m: int| 0 <= m < rows.len() implies (#[trigger] rows[m]).counts as int
        == counter.spec_count_of(rows[m].character) && rows[m].counts >= 1 && rows[m].code@
        == code_label_seq(rows[m].character) by {
        if m != p {
            let m0: int = if m < p {
                m
            } else {
                m - 1
            };
            assert(rows[m] == prev[m0]);
        }
    }
}

proof fn lemma_table_insert(counter: Counter, prev: Seq<Row>, row: Row, p: int, i: int)
    requires
        counter.wf(),
        0 <= i < counter.keys@.len(),
        rows_ok(counter, prev, i),
        row.character == counter.keys@[i],
        row.counts as int == counter.spec_count_of(row.character),
        row.counts >= 1,
        row.code@ == code_label_seq(row.character),
        0 <= p <= prev.len(),
        forall|a: int| 0 <= a < p ==> row_lt(#[trigger] prev[a], row),
        forall|b: int| p <= b < prev.len() ==> row_le(row, #[trigger] prev[b]),
    ensures
        rows_ok(counter, prev.insert(p, row), i + 1),
{
    lemma_rows_ok_facts(counter, prev, i);
    lemma_insert_pointwise(prev, row, p);
    lemma_new_char_distinct(counter, prev, i);
    lemma_insert_membership(counter.keys@, prev, row, p, i);
    lemma_insert_completeness(counter.keys@, prev, row, p, i);
    lemma_insert_sorted(prev, row, p);
    lemma_insert_distinct(prev, row, p);
    lemma_insert_truthful(counter, prev, row, p);
    lemma_rows_ok_pack(counter, prev.insert(p, row), i + 1);
}

/// A table over all keys names every observed character in some row.
pub proof fn lemma_rows_complete(counter: Counter, rows: Seq<Row>)
    requires
        counter.wf(),
        rows_ok(counter, rows, counter.keys@.len() as int),
    ensures
        forall|d: char|
            counter.spec_count_of(d) > 0 ==> exists|m: int|
                0 <= m < rows.len() && (#[trigger] rows[m]).character == d,
{
    lemma_rows_ok_facts(counter, rows, counter.keys@.len() as int);
    assert forall|d: char| counter.spec_count_of(d) > 0 implies exists|m: int|
        0 <= m < rows.len() && (#[trigger] rows[m]).character == d by {
        assert(counter.charmap@.contains_key(d as u32));
        let l = choose|l: int|
            0 <= l < counter.keys@.len() && (counter.keys@[l] as u32) == d as u32;
        lemma_code_injective(counter.keys@[l], d);
        let m = choose|m: int|
            0 <= m < rows.len() && (#[trigger] rows[m]).character == counter.keys@[l];
        assert(rows[m].character == d);
    }
}

/// Builds the frequency table of `counter`: one truthful row for every
/// character that was observed, each character exactly once, sorted by
/// descending count and, among equal counts, by ascending scalar value.
pub fn table_rows(counter: &Counter) -> (rows: Vec<Row>)
    requires
        counter.wf(),
    ensures
        rows@.len() == counter.keys@.len(),
        rows_truthful(*counter, rows@),
        rows_distinct(rows@),
        rows_sorted(rows@),
        forall|d: char|
            counter.spec_count_of(d) > 0 ==> exists|m: int|
                0 <= m < rows@.len() && (#[trigger] rows@[m]).character == d,
{
    let mut rows: Vec<Row> = Vec::new();
    proof {
        lemma_rows_ok_pack(*counter, rows@, 0);
    }
    let nk: usize = counter.keys.len();
    let mut i: usize = 0;
    while i < nk
        invariant
            counter.wf(),
            nk == counter.keys@.len(),
            i <= nk,
            rows@.len() == i,
            rows_ok(*counter, rows@, i as int),
        decreases nk - i,
    {
        let c: char = counter.keys[i];
        let count: u64 = counter.count_of(c);
        proof {
            assert(counter.charmap@.contains_key(c as u32));
            lemma_rows_ok_facts(*counter, rows@, i as int);
        }
        let row = Row { character: c, code: code_label(c), counts: count };
        let mut p: usize = 0;
        while p < rows.len() && row_before(&rows[p], &row)
            invariant
                p <= rows@.len(),
                forall|a: int| 0 <= a < p ==> row_lt(#[trigger] rows@[a], row),
                rows_ok(*counter, rows@, i as int),
                rows@.len() == i,
                i <= nk,
                row == (Row { character: c, code: row.code, counts: count }),
            decreases rows@.len() - p,
        {
            p = p + 1;
        }
        let ghost prev = rows@;
        proof {
            lemma_rows_ok_facts(*counter, prev, i as int);
            assert forall|b: int| p <= b < prev.len() implies row_le(row, #[trigger] prev[b]) by {
                assert(row_le(row, prev[p as int]));
                if b > p {
                    assert(row_le(prev[p as int], prev[b]));
                }
            }
            lemma_table_insert(*counter, prev, row, p as int, i as int);
        }
        rows.insert(p, row);
        proof {
            prev.insert_ensures(p as int, row);
            assert(rows@ == prev.insert(p as int, row));
        }
        i = i + 1;
    }
    proof {
        lemma_rows_complete(*counter, rows@);
        lemma_rows_ok_facts(*counter, rows@, nk as int);
    }
    rows
}

} // verus!
