//! Text as a sequence of characters: lines, words and blanks.
use vstd::prelude::*;

verus! {

/// Where `c` first occurs in `s`; its length if it does not.
pub open spec fn first_index(s: Seq<char>, c: char) -> int
    decreases s.len(),
{
    if s.len() == 0 || s[0] == c {
        0
    } else {
        1 + first_index(s.drop_first(), c)
    }
}

/// The first line of `s`, with its line break if it has one.
pub open spec fn line_of(s: Seq<char>) -> Seq<char> {
    if first_index(s, '\n') < s.len() {
        s.take(first_index(s, '\n') + 1)
    } else {
        s
    }
}

/// What follows the first line.
pub open spec fn after_line(s: Seq<char>) -> Seq<char> {
    s.skip(line_of(s).len() as int)
}

/// `s` without the line breaks at its end.
pub open spec fn unbroken(s: Seq<char>) -> Seq<char>
    decreases s.len(),
{
    if s.len() > 0 && s.last() == '\n' {
        unbroken(s.drop_last())
    } else {
        s
    }
}

/// What stands before the first space.
pub open spec fn word_of(s: Seq<char>) -> Seq<char> {
    s.take(first_index(s, ' '))
}

/// What follows the first space.
pub open spec fn after_word(s: Seq<char>) -> Seq<char> {
    if first_index(s, ' ') < s.len() {
        s.skip(first_index(s, ' ') + 1)
    } else {
        Seq::empty()
    }
}

/// The characters with the Unicode property White_Space.
pub open spec fn is_blank(c: char) -> bool {
    ||| '\u{9}' <= c <= '\u{D}'
    ||| c == '\u{20}'
    ||| c == '\u{85}'
    ||| c == '\u{A0}'
    ||| c == '\u{1680}'
    ||| '\u{2000}' <= c <= '\u{200A}'
    ||| c == '\u{2028}'
    ||| c == '\u{2029}'
    ||| c == '\u{202F}'
    ||| c == '\u{205F}'
    ||| c == '\u{3000}'
}

/// `s` without the blanks at its start.
pub open spec fn trim_start(s: Seq<char>) -> Seq<char>
    decreases s.len(),
{
    if s.len() > 0 && is_blank(s[0]) {
        trim_start(s.drop_first())
    } else {
        s
    }
}

/// `s` without the blanks at its end.
pub open spec fn trim_end(s: Seq<char>) -> Seq<char>
    decreases s.len(),
{
    if s.len() > 0 && is_blank(s.last()) {
        trim_end(s.drop_last())
    } else {
        s
    }
}

/// `s` without the blanks around it.
pub open spec fn trimmed(s: Seq<char>) -> Seq<char> {
    trim_end(trim_start(s))
}

/// The first occurrence is in range, is one, and has none before it.
pub proof fn lemma_first_index(s: Seq<char>, c: char)
    ensures
        0 <= first_index(s, c) <= s.len(),
        first_index(s, c) < s.len() ==> s[first_index(s, c)] == c,
        forall|i: int| 0 <= i < first_index(s, c) ==> s[i] != c,
    decreases s.len(),
{
    if s.len() > 0 && s[0] != c {
        lemma_first_index(s.drop_first(), c);
        assert forall|i: int| 0 <= i < first_index(s, c) implies s[i] != c by {
            if i > 0 {
                assert(s.drop_first()[i - 1] != c);
            }
        }
    }
}

/// An occurrence with none before it is the first one.
pub proof fn lemma_is_first_index(s: Seq<char>, c: char, n: int)
    requires
        0 <= n <= s.len(),
        n < s.len() ==> s[n] == c,
        forall|i: int| 0 <= i < n ==> s[i] != c,
    ensures
        first_index(s, c) == n,
{
    lemma_first_index(s, c);
    let m = first_index(s, c);
    if m < n {
        assert(s[m] != c);
    }
    if n < m {
        assert(s[n] != c);
    }
}

/// A line is not empty unless the text is.
pub proof fn lemma_line_len(s: Seq<char>)
    ensures
        line_of(s).len() <= s.len(),
        s.len() > 0 ==> line_of(s).len() > 0,
        after_line(s).len() == s.len() - line_of(s).len(),
{
    lemma_first_index(s, '\n');
}

/// The first line of a text that starts with one.
pub proof fn lemma_line_of_line(line: Seq<char>, rest: Seq<char>)
    requires
        forall|i: int| 0 <= i < line.len() ==> line[i] != '\n',
    ensures
        line_of(line.push('\n') + rest) == line.push('\n'),
        after_line(line.push('\n') + rest) == rest,
        unbroken(line.push('\n')) == line,
{
    let s = line.push('\n') + rest;
    lemma_is_first_index(s, '\n', line.len() as int);
    assert(line_of(s) =~= line.push('\n'));
    assert(after_line(s) =~= rest);
    assert(line.push('\n').drop_last() =~= line);
    assert(unbroken(line) == line);
}

/// The first word of a line that starts with one.
pub proof fn lemma_word_of_word(word: Seq<char>, rest: Seq<char>)
    requires
        forall|i: int| 0 <= i < word.len() ==> word[i] != ' ',
    ensures
        word_of(word.push(' ') + rest) == word,
        after_word(word.push(' ') + rest) == rest,
        word_of(word) == word,
        after_word(word) == Seq::<char>::empty(),
{
    let s = word.push(' ') + rest;
    lemma_is_first_index(s, ' ', word.len() as int);
    assert(word_of(s) =~= word);
    assert(after_word(s) =~= rest);
    lemma_is_first_index(word, ' ', word.len() as int);
    assert(word_of(word) =~= word);
}

/// The characters of a string.
pub fn chars_of(s: &str) -> (r: Vec<char>)
    ensures
        r@ == s@,
{
    let mut r: Vec<char> = Vec::new();
    for c in it: s.chars()
        invariant
            it.seq() == s@,
            r@ == s@.take(it.index() as int),
    {
        r.push(c);
        assert(s@.take(it.index() as int + 1) =~= s@.take(it.index() as int).push(c));
    }
    assert(r@ =~= s@);
    r
}

/// Whether two texts are the same.
pub fn same_text(a: &Vec<char>, b: &Vec<char>) -> (r: bool)
    ensures
        r == (a@ == b@),
{
    if a.len() != b.len() {
        return false;
    }
    let mut i: usize = 0;
    while i < a.len()
        invariant
            i <= a.len() == b.len(),
            forall|j: int| 0 <= j < i ==> a@[j] == b@[j],
        decreases a.len() - i,
    {
        if a[i] != b[i] {
            return false;
        }
        i += 1;
    }
    assert(a@ =~= b@);
    true
}

/// How many blanks a text starts with.
proof fn lemma_trim_start(s: Seq<char>) -> (n: int)
    ensures
        0 <= n <= s.len(),
        trim_start(s) == s.skip(n),
        forall|i: int| 0 <= i < n ==> is_blank(#[trigger] s[i]),
        n < s.len() ==> !is_blank(s[n]),
    decreases s.len(),
{
    if s.len() > 0 && is_blank(s[0]) {
        let n = lemma_trim_start(s.drop_first());
        assert(s.drop_first().skip(n) =~= s.skip(n + 1));
        assert forall|i: int| 0 <= i < n + 1 implies is_blank(#[trigger] s[i]) by {
            if i > 0 {
                assert(is_blank(s.drop_first()[i - 1]));
            }
        }
        n + 1
    } else {
        assert(s.skip(0) =~= s);
        0
    }
}

/// Where the blanks that a text ends with start.
proof fn lemma_trim_end(s: Seq<char>) -> (n: int)
    ensures
        0 <= n <= s.len(),
        trim_end(s) == s.take(n),
        forall|i: int| n <= i < s.len() ==> is_blank(#[trigger] s[i]),
        n > 0 ==> !is_blank(s[n - 1]),
    decreases s.len(),
{
    if s.len() > 0 && is_blank(s.last()) {
        let n = lemma_trim_end(s.drop_last());
        assert(s.drop_last().take(n) =~= s.take(n));
        assert forall|i: int| n <= i < s.len() implies is_blank(#[trigger] s[i]) by {
            if i < s.len() - 1 {
                assert(is_blank(s.drop_last()[i]));
            }
        }
        n
    } else {
        assert(s.take(s.len() as int) =~= s);
        s.len() as int
    }
}

/// Trimming takes off the blanks at both ends, all of them and nothing else.
pub proof fn lemma_trimmed(s: Seq<char>) -> (r: (int, int))
    ensures
        0 <= r.0 <= r.1 <= s.len(),
        trimmed(s) == s.subrange(r.0, r.1),
        forall|i: int| 0 <= i < r.0 || r.1 <= i < s.len() ==> is_blank(#[trigger] s[i]),
        r.0 < r.1 ==> !is_blank(s[r.0]) && !is_blank(s[r.1 - 1]),
{
    let m = lemma_trim_start(s);
    let t = s.skip(m);
    let n = lemma_trim_end(t);
    assert(t.take(n) =~= s.subrange(m, m + n));
    assert forall|i: int| 0 <= i < m || m + n <= i < s.len() implies is_blank(#[trigger] s[i]) by {
        if i >= m + n {
            assert(is_blank(t[i - m]));
        }
    }
    if n > 0 {
        assert(t[n - 1] == s[m + n - 1]);
        assert(t[0] == s[m]);
    }
    (m, m + n)
}

/// The characters of `s` from `from` up to `to`.
pub fn part_of(s: &Vec<char>, from: usize, to: usize) -> (r: Vec<char>)
    requires
        from <= to <= s@.len(),
    ensures
        r@ == s@.subrange(from as int, to as int),
{
    let mut r: Vec<char> = Vec::new();
    let mut i: usize = from;
    while i < to
        invariant
            from <= i <= to <= s@.len(),
            r@ =~= s@.subrange(from as int, i as int),
        decreases to - i,
    {
        r.push(s[i]);
        i += 1;
    }
    r
}

/// Where `c` first occurs in `s` from `from` on; its length if it does not.
pub fn find_char(s: &Vec<char>, c: char, from: usize) -> (r: usize)
    requires
        from <= s@.len(),
    ensures
        from <= r <= s@.len(),
        r == from + first_index(s@.skip(from as int), c),
{
    let mut i: usize = from;
    while i < s.len() && s[i] != c
        invariant
            from <= i <= s@.len(),
            forall|j: int| from <= j < i ==> s@[j] != c,
        decreases s@.len() - i,
    {
        i += 1;
    }
    proof {
        let t = s@.skip(from as int);
        assert forall|j: int| 0 <= j < i - from implies t[j] != c by {
            assert(s@[from + j] != c);
        }
        lemma_is_first_index(t, c, i - from);
    }
    i
}

/// Where the line that starts at `from` ends.
pub fn line_end(s: &Vec<char>, from: usize) -> (r: usize)
    requires
        from <= s@.len(),
    ensures
        from <= r <= s@.len(),
        from < s@.len() ==> from < r,
        s@.subrange(from as int, r as int) == line_of(s@.skip(from as int)),
        s@.skip(r as int) == after_line(s@.skip(from as int)),
{
    let i: usize = find_char(s, '\n', from);
    let ghost t = s@.skip(from as int);
    proof {
        lemma_first_index(t, '\n');
        lemma_line_len(t);
    }
    let r: usize = if i < s.len() { i + 1 } else { i };
    assert(s@.subrange(from as int, r as int) =~= line_of(t));
    assert(s@.skip(r as int) =~= after_line(t));
    r
}

/// `s` without the line breaks at its end.
pub fn without_breaks(s: &Vec<char>) -> (r: Vec<char>)
    ensures
        r@ == unbroken(s@),
{
    let mut n: usize = s.len();
    assert(s@.take(n as int) =~= s@);
    while n > 0 && s[n - 1] == '\n'
        invariant
            n <= s@.len(),
            unbroken(s@.take(n as int)) == unbroken(s@),
        decreases n,
    {
        assert(s@.take(n as int).drop_last() =~= s@.take(n - 1));
        n -= 1;
    }
    assert(s@.take(n as int) =~= s@.subrange(0, n as int));
    part_of(s, 0, n)
}

/// Whether the character has the Unicode property White_Space.
pub fn blank(c: char) -> (r: bool)
    ensures
        r == is_blank(c),
{
    ('\u{9}' <= c && c <= '\u{D}') || c == '\u{20}' || c == '\u{85}' || c == '\u{A0}' || c
        == '\u{1680}' || ('\u{2000}' <= c && c <= '\u{200A}') || c == '\u{2028}' || c == '\u{2029}'
        || c == '\u{202F}' || c == '\u{205F}' || c == '\u{3000}'
}

/// `s` without the blanks around it.
pub fn trim(s: &Vec<char>) -> (r: Vec<char>)
    ensures
        r@ == trimmed(s@),
{
    let mut from: usize = 0;
    assert(s@.skip(0) =~= s@);
    while from < s.len() && blank(s[from])
        invariant
            from <= s@.len(),
            trim_start(s@.skip(from as int)) == trim_start(s@),
        decreases s@.len() - from,
    {
        assert(s@.skip(from as int).drop_first() =~= s@.skip(from + 1));
        from += 1;
    }
    let ghost middle = s@.skip(from as int);
    assert(trim_start(s@) == middle);
    let mut to: usize = s.len();
    assert(s@.subrange(from as int, to as int) =~= middle);
    while from < to && blank(s[to - 1])
        invariant
            from <= to <= s@.len(),
            trim_end(s@.subrange(from as int, to as int)) == trim_end(middle),
        decreases to - from,
    {
        assert(s@.subrange(from as int, to as int).drop_last() =~= s@.subrange(
            from as int,
            to - 1,
        ));
        to -= 1;
    }
    part_of(s, from, to)
}

} // verus!
