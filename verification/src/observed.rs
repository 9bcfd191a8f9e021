//! The table of observed calls of a generated function.
use crate::order::{
    lemma_lex_at, lemma_lex_flipped, lemma_lex_reflexive, lemma_lex_skip, lemma_lex_transitive,
    lex, total_preorder,
};
use crate::text::chars_of;
use core::cmp::Ordering;
use vstd::prelude::*;
use vstd::string::StringExecFns;

verus! {

/// How two characters compare.
pub open spec fn char_order(a: char, b: char) -> Ordering {
    if a < b {
        Ordering::Less
    } else if a == b {
        Ordering::Equal
    } else {
        Ordering::Greater
    }
}

/// How two texts compare: character by character.
pub open spec fn text_order(a: Seq<char>, b: Seq<char>) -> Ordering {
    lex(a, b, |x: char, y: char| char_order(x, y))
}

/// `a` comes before `b`.
pub open spec fn text_lt(a: Seq<char>, b: Seq<char>) -> bool {
    text_order(a, b) == Ordering::Less
}

/// One observed call: what the argument and the result look like.
pub struct Row {
    pub arg: Seq<char>,
    pub out: Seq<char>,
}

/// Arguments strictly increase, so none occurs twice.
pub open spec fn sorted(rows: Seq<Row>) -> bool {
    forall|i: int, j: int|
        0 <= i < j < rows.len() ==> text_lt(#[trigger] rows[i].arg, #[trigger] rows[j].arg)
}

/// The rows with that of one argument set.
pub open spec fn row_set(rows: Seq<Row>, row: Row) -> Seq<Row>
    decreases rows.len(),
{
    if rows.len() == 0 {
        seq![row]
    } else if text_lt(rows[0].arg, row.arg) {
        seq![rows[0]] + row_set(rows.drop_first(), row)
    } else if rows[0].arg == row.arg {
        seq![row] + rows.drop_first()
    } else {
        seq![row] + rows
    }
}

/// The rows as text.
pub open spec fn rows_text(rows: Seq<Row>) -> Seq<char>
    decreases rows.len(),
{
    if rows.len() == 0 {
        Seq::empty()
    } else {
        rows_text(rows.drop_last()) + " "@ + rows.last().arg + " => "@ + rows.last().out + ","@
    }
}

/// What a generated function looks like: the table of its observed calls.
pub open spec fn table_text(rows: Seq<Row>) -> Seq<char> {
    "RandomFn {"@ + rows_text(rows) + " _ => <fresh> }"@
}

/// The table of no call, and one more row: ` argument => result,` at the end of
/// the rows.
pub proof fn lemma_table_rows(rows: Seq<Row>, row: Row)
    ensures
        table_text(Seq::<Row>::empty()) == "RandomFn { _ => <fresh> }"@,
        table_text(rows) == "RandomFn {"@ + rows_text(rows) + " _ => <fresh> }"@,
        rows_text(rows.push(row)) == rows_text(rows) + " "@ + row.arg + " => "@ + row.out + ","@,
{
    reveal_strlit("RandomFn { _ => <fresh> }");
    reveal_strlit("RandomFn {");
    reveal_strlit(" _ => <fresh> }");
    assert(table_text(Seq::<Row>::empty()) =~= "RandomFn { _ => <fresh> }"@);
    assert(rows.push(row).drop_last() =~= rows);
}

/// What decides between two arguments: the first character that differs; and a
/// text comes before those that go on from it.
pub proof fn lemma_texts_compare(a: Seq<char>, b: Seq<char>, i: int)
    requires
        0 <= i <= a.len(),
        i < b.len(),
        forall|j: int| 0 <= j < i ==> a[j] == b[j],
    ensures
        i == a.len() ==> text_lt(a, b),
        i < a.len() && a[i] < b[i] ==> text_lt(a, b),
{
    let f = |x: char, y: char| char_order(x, y);
    assert forall|j: int| 0 <= j < i implies f(#[trigger] a[j], b[j]) == Ordering::Equal by {}
    if i == a.len() {
        lemma_lex_skip(a, b, f, i);
    } else if a[i] < b[i] {
        lemma_lex_at(a, b, f, i);
    }
}

proof fn lemma_char_order_preorder()
    ensures
        total_preorder(|x: char, y: char| char_order(x, y)),
{
}

/// Only equal texts tie.
proof fn lemma_text_order_equal(a: Seq<char>, b: Seq<char>)
    ensures
        text_order(a, b) == Ordering::Equal <==> a == b,
    decreases a.len(),
{
    lemma_char_order_preorder();
    if a == b {
        lemma_lex_reflexive(a, |x: char, y: char| char_order(x, y));
    } else if a.len() > 0 && b.len() > 0 {
        lemma_text_order_equal(a.drop_first(), b.drop_first());
        if a.drop_first() == b.drop_first() && a[0] == b[0] {
            assert(a =~= seq![a[0]] + a.drop_first());
            assert(b =~= seq![b[0]] + b.drop_first());
        }
    } else if a.len() == 0 && b.len() == 0 {
        assert(a =~= b);
    }
}

/// Of two different texts exactly one comes first.
proof fn lemma_text_lt(a: Seq<char>, b: Seq<char>)
    ensures
        a != b <==> text_lt(a, b) || text_lt(b, a),
        !(text_lt(a, b) && text_lt(b, a)),
{
    lemma_char_order_preorder();
    lemma_lex_flipped(a, b, |x: char, y: char| char_order(x, y));
    lemma_text_order_equal(a, b);
    lemma_text_order_equal(b, a);
}

proof fn lemma_text_lt_transitive(a: Seq<char>, b: Seq<char>, c: Seq<char>)
    requires
        text_lt(a, b),
        text_lt(b, c),
    ensures
        text_lt(a, c),
{
    lemma_char_order_preorder();
    lemma_lex_transitive(a, b, c, |x: char, y: char| char_order(x, y));
}

/// What the rows hold for an argument.
pub open spec fn out_of(rows: Seq<Row>, arg: Seq<char>) -> Option<Seq<char>>
    decreases rows.len(),
{
    if rows.len() == 0 {
        None
    } else if rows[0].arg == arg {
        Some(rows[0].out)
    } else {
        out_of(rows.drop_first(), arg)
    }
}

proof fn lemma_sorted_tail(rows: Seq<Row>)
    requires
        sorted(rows),
        rows.len() > 0,
    ensures
        sorted(rows.drop_first()),
{
    let tail = rows.drop_first();
    assert forall|i: int, j: int| 0 <= i < j < tail.len() implies text_lt(
        #[trigger] tail[i].arg,
        #[trigger] tail[j].arg,
    ) by {
        assert(tail[i] == rows[i + 1]);
        assert(tail[j] == rows[j + 1]);
    }
}

/// Everything in `rows` comes after `arg`.
spec fn all_after(arg: Seq<char>, rows: Seq<Row>) -> bool {
    forall|i: int| 0 <= i < rows.len() ==> text_lt(arg, #[trigger] rows[i].arg)
}

proof fn lemma_sorted_cons(row: Row, rows: Seq<Row>)
    requires
        sorted(rows),
        all_after(row.arg, rows),
    ensures
        sorted(seq![row] + rows),
{
    let s = seq![row] + rows;
    assert forall|i: int, j: int| 0 <= i < j < s.len() implies text_lt(
        #[trigger] s[i].arg,
        #[trigger] s[j].arg,
    ) by {
        assert(s[j] == rows[j - 1]);
        if i > 0 {
            assert(s[i] == rows[i - 1]);
        }
    }
}

/// Setting a row keeps the rows in order, and comes after what everything
/// else comes after.
proof fn lemma_row_set_sorted(rows: Seq<Row>, row: Row, floor: Seq<char>)
    requires
        sorted(rows),
    ensures
        sorted(row_set(rows, row)),
        all_after(floor, rows) && text_lt(floor, row.arg) ==> all_after(floor, row_set(rows, row)),
    decreases rows.len(),
{
    let s = row_set(rows, row);
    if rows.len() == 0 {
    } else if text_lt(rows[0].arg, row.arg) {
        let tail = rows.drop_first();
        lemma_sorted_tail(rows);
        lemma_row_set_sorted(tail, row, rows[0].arg);
        lemma_row_set_sorted(tail, row, floor);
        assert forall|i: int| 0 <= i < tail.len() implies text_lt(
            rows[0].arg,
            #[trigger] tail[i].arg,
        ) by {
            assert(tail[i] == rows[i + 1]);
            assert(text_lt(rows[0].arg, rows[i + 1].arg));
        }
        lemma_sorted_cons(rows[0], row_set(tail, row));
        if all_after(floor, rows) && text_lt(floor, row.arg) {
            assert forall|i: int| 0 <= i < tail.len() implies text_lt(
                floor,
                #[trigger] tail[i].arg,
            ) by {
                assert(tail[i] == rows[i + 1]);
            }
            assert forall|i: int| 0 <= i < s.len() implies text_lt(floor, #[trigger] s[i].arg) by {
                if i > 0 {
                    assert(s[i] == row_set(tail, row)[i - 1]);
                } else {
                    assert(s[i] == rows[0]);
                }
            }
        }
    } else if rows[0].arg == row.arg {
        let tail = rows.drop_first();
        lemma_sorted_tail(rows);
        assert forall|i: int| 0 <= i < tail.len() implies text_lt(
            row.arg,
            #[trigger] tail[i].arg,
        ) by {
            assert(tail[i] == rows[i + 1]);
            assert(text_lt(rows[0].arg, rows[i + 1].arg));
        }
        lemma_sorted_cons(row, tail);
        if all_after(floor, rows) {
            assert forall|i: int| 0 <= i < s.len() implies text_lt(floor, #[trigger] s[i].arg) by {
                assert(text_lt(floor, rows[i].arg));
            }
        }
    } else {
        lemma_text_lt(rows[0].arg, row.arg);
        assert forall|i: int| 0 <= i < rows.len() implies text_lt(
            row.arg,
            #[trigger] rows[i].arg,
        ) by {
            if i > 0 {
                assert(text_lt(rows[0].arg, rows[i].arg));
                lemma_text_lt_transitive(row.arg, rows[0].arg, rows[i].arg);
            }
        }
        lemma_sorted_cons(row, rows);
        if all_after(floor, rows) && text_lt(floor, row.arg) {
            assert forall|i: int| 0 <= i < s.len() implies text_lt(floor, #[trigger] s[i].arg) by {
                if i > 0 {
                    assert(s[i] == rows[i - 1]);
                }
            }
        }
    }
}

/// Setting the row of an argument keeps the rows in order, gives the argument
/// its new result, and leaves the other arguments alone.
pub proof fn lemma_row_set(rows: Seq<Row>, row: Row, arg: Seq<char>)
    requires
        sorted(rows),
    ensures
        sorted(row_set(rows, row)),
        out_of(row_set(rows, row), arg) == (if arg == row.arg {
            Some(row.out)
        } else {
            out_of(rows, arg)
        }),
    decreases rows.len(),
{
    lemma_row_set_sorted(rows, row, row.arg);
    let s = row_set(rows, row);
    if rows.len() == 0 {
        assert(s.drop_first() =~= Seq::empty());
        assert(out_of(s.drop_first(), arg) is None);
    } else if text_lt(rows[0].arg, row.arg) {
        lemma_sorted_tail(rows);
        lemma_row_set(rows.drop_first(), row, arg);
        lemma_text_lt(rows[0].arg, row.arg);
        assert(s.drop_first() =~= row_set(rows.drop_first(), row));
    } else if rows[0].arg == row.arg {
        assert(s.drop_first() =~= rows.drop_first());
    } else {
        assert(s.drop_first() =~= rows);
    }
}

/// How two texts compare.
fn compare_texts(a: &Vec<char>, b: &Vec<char>) -> (r: Ordering)
    ensures
        r == text_order(a@, b@),
{
    let ghost f = |x: char, y: char| char_order(x, y);
    let mut i: usize = 0;
    while i < a.len() && i < b.len()
        invariant
            i <= a.len(),
            i <= b.len(),
            f == |x: char, y: char| char_order(x, y),
            forall|j: int| 0 <= j < i ==> f(#[trigger] a@[j], b@[j]) == Ordering::Equal,
        decreases a.len() - i,
    {
        if a[i] != b[i] {
            proof {
                lemma_lex_at(a@, b@, f, i + 0);
            }
            return if a[i] < b[i] {
                Ordering::Less
            } else {
                Ordering::Greater
            };
        }
        i += 1;
    }
    proof {
        lemma_lex_skip(a@, b@, f, i + 0);
    }
    if i < a.len() {
        Ordering::Greater
    } else if i < b.len() {
        Ordering::Less
    } else {
        Ordering::Equal
    }
}

/// The table of observed calls: the argument's form to the result's form, in
/// argument order.
#[derive(Debug)]
pub struct Observed {
    entries: Vec<(String, String)>,
}

impl View for Observed {
    type V = Seq<Row>;

    closed spec fn view(&self) -> Seq<Row> {
        rows_of(self.entries@)
    }
}

spec fn rows_of(entries: Seq<(String, String)>) -> Seq<Row> {
    Seq::new(entries.len(), |i: int| Row { arg: entries[i].0@, out: entries[i].1@ })
}

/// Rows that all come before the new one stay where they are.
proof fn lemma_row_set_skips(rows: Seq<Row>, row: Row, n: int)
    requires
        0 <= n <= rows.len(),
        forall|i: int| 0 <= i < n ==> text_lt(#[trigger] rows[i].arg, row.arg),
    ensures
        row_set(rows, row) == rows.take(n) + row_set(rows.skip(n), row),
    decreases n,
{
    if n == 0 {
        assert(rows.skip(0) =~= rows);
        assert(rows.take(0) + row_set(rows, row) =~= row_set(rows, row));
    } else {
        let tail = rows.drop_first();
        assert(text_lt(rows[0].arg, row.arg));
        assert forall|i: int| 0 <= i < n - 1 implies text_lt(#[trigger] tail[i].arg, row.arg) by {
            assert(text_lt(rows[i + 1].arg, row.arg));
        }
        lemma_row_set_skips(tail, row, n - 1);
        assert(tail.skip(n - 1) =~= rows.skip(n));
        assert(seq![rows[0]] + tail.take(n - 1) =~= rows.take(n));
        assert(row_set(rows, row) =~= rows.take(n) + row_set(rows.skip(n), row));
    }
}

impl Observed {
    /// No call was observed.
    pub fn new() -> (r: Self)
        ensures
            r@ == Seq::<Row>::empty(),
    {
        let r = Observed { entries: Vec::new() };
        assert(r@ =~= Seq::empty());
        r
    }

    /// Notes a call.
    pub fn insert(&mut self, arg: String, out: String)
        ensures
            final(self)@ == row_set(old(self)@, Row { arg: arg@, out: out@ }),
    {
        let ghost row = Row { arg: arg@, out: out@ };
        let ghost rows = self@;
        let key = chars_of(arg.as_str());
        let mut i: usize = 0;
        let mut found = false;
        while i < self.entries.len()
            invariant_except_break
                !found,
            invariant
                rows == self@,
                *self == *old(self),
                row.arg == key@,
                i <= self.entries@.len(),
                forall|j: int| 0 <= j < i ==> text_lt(#[trigger] rows[j].arg, row.arg),
            ensures
                i < rows.len() ==> !text_lt(rows[i + 0].arg, row.arg),
                found == (i < rows.len() && rows[i + 0].arg == row.arg),
            decreases self.entries@.len() - i,
        {
            assert(rows[i + 0].arg == self.entries@[i + 0].0@);
            proof {
                lemma_text_order_equal(rows[i + 0].arg, row.arg);
            }
            match compare_texts(&chars_of(self.entries[i].0.as_str()), &key) {
                Ordering::Less => {},
                Ordering::Equal => {
                    found = true;
                    break;
                },
                Ordering::Greater => {
                    break;
                },
            }
            i += 1;
        }
        proof {
            lemma_row_set_skips(rows, row, i + 0);
        }
        if found {
            let _ = self.entries.remove(i);
        }
        self.entries.insert(i, (arg, out));
        proof {
            let tail = rows.skip(i + 0);
            if i < rows.len() {
                assert(tail[0] == rows[i + 0]);
            }
            assert(self@ =~= rows.take(i + 0) + row_set(tail, row));
        }
    }

    /// What a generated function with these calls looks like.
    pub fn text(&self) -> (r: String)
        ensures
            r@ == table_text(self@),
    {
        let mut s = String::from_str("RandomFn {");
        let mut i: usize = 0;
        assert(self@.take(0) =~= Seq::empty());
        assert("RandomFn {"@ + rows_text(self@.take(0)) =~= "RandomFn {"@);
        while i < self.entries.len()
            invariant
                i <= self.entries@.len(),
                s@ == "RandomFn {"@ + rows_text(self@.take(i as int)),
            decreases self.entries@.len() - i,
        {
            let ghost before = s@;
            s.append(" ");
            s.append(self.entries[i].0.as_str());
            s.append(" => ");
            s.append(self.entries[i].1.as_str());
            s.append(",");
            proof {
                let row = self@[i as int];
                assert(self@.take(i + 1).drop_last() =~= self@.take(i as int));
                assert(self@.take(i + 1).last() == row);
                assert(s@ =~= before + (" "@ + row.arg + " => "@ + row.out + ","@));
                assert(s@ =~= "RandomFn {"@ + rows_text(self@.take(i + 1)));
            }
            i += 1;
        }
        assert(self@.take(i as int) =~= self@);
        s.append(" _ => <fresh> }");
        s
    }
}

/// A copy of a table.
impl Clone for Observed {
    fn clone(&self) -> (r: Self)
        ensures
            r@ == self@,
    {
        let mut entries: Vec<(String, String)> = Vec::new();
        let mut i: usize = 0;
        while i < self.entries.len()
            invariant
                i <= self.entries@.len(),
                rows_of(entries@) =~= self@.take(i as int),
            decreases self.entries@.len() - i,
        {
            let ghost before = rows_of(entries@);
            entries.push((self.entries[i].0.clone(), self.entries[i].1.clone()));
            assert(rows_of(entries@) =~= before.push(self@[i as int]));
            i += 1;
        }
        assert(rows_of(entries@) =~= self@);
        Observed { entries }
    }
}

} // verus!
