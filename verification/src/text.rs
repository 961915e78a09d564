//! Character-level helpers: every pass reads its text as a sequence of
//! characters and writes its result the same way.

use vstd::prelude::*;
use vstd::std_specs::iter::IteratorSpec;

verus! {

/// `String::push` appends one character.
pub assume_specification[ String::push ](s: &mut String, c: char)
    ensures
        final(s)@ == old(s)@.push(c),
;

/// The characters of `s`, in order.
pub fn to_chars(s: &str) -> (v: Vec<char>)
    ensures
        v@ == s@,
{
    let mut v: Vec<char> = Vec::new();
    let mut it = s.chars();
    loop
        invariant
            it.obeys_prophetic_iter_laws(),
            it.decrease() is Some,
            v@ + it.remaining() == s@,
        ensures
            v@ == s@,
        decreases it.decrease()->0,
    {
        match it.next() {
            Some(c) => {
                v.push(c);
            },
            None => {
                assert(v@ + it.remaining() =~= v@);
                break ;
            },
        }
    }
    v
}

/// The string that holds the characters of `v`, in order.
pub fn from_chars(v: &Vec<char>) -> (s: String)
    ensures
        s@ == v@,
{
    let mut s = String::new();
    let mut i: usize = 0;
    while i < v.len()
        invariant
            i <= v.len(),
            s@ == v@.take(i as int),
        decreases v.len() - i,
    {
        s.push(v[i]);
        i += 1;
    }
    s
}

/// Appends the characters of `tail` to `out`.
pub fn push_all(out: &mut Vec<char>, tail: &Vec<char>)
    ensures
        final(out)@ == old(out)@ + tail@,
{
    let mut i: usize = 0;
    while i < tail.len()
        invariant
            i <= tail.len(),
            out@ == old(out)@ + tail@.take(i as int),
        decreases tail.len() - i,
    {
        out.push(tail[i]);
        i += 1;
    }
}

/// Appends the characters of `tail` to `out`.
pub fn push_str(out: &mut Vec<char>, tail: &str)
    ensures
        final(out)@ == old(out)@ + tail@,
{
    let chars = to_chars(tail);
    push_all(out, &chars);
}

/// Appends `n` copies of `c` to `out`.
pub fn push_repeat(out: &mut Vec<char>, c: char, n: usize)
    ensures
        final(out)@ == old(out)@ + Seq::new(n as nat, |i: int| c),
{
    let mut i: usize = 0;
    while i < n
        invariant
            i <= n,
            out@ == old(out)@ + Seq::new(i as nat, |k: int| c),
        decreases n - i,
    {
        out.push(c);
        i += 1;
    }
}

/// Whether two texts hold the same characters.
pub fn same_chars(a: &Vec<char>, b: &Vec<char>) -> (r: bool)
    ensures
        r == (a@ == b@),
{
    if a.len() != b.len() {
        return false;
    }
    let mut i: usize = 0;
    while i < a.len()
        invariant
            i <= a.len(),
            a.len() == b.len(),
            a@.take(i as int) == b@.take(i as int),
        decreases a.len() - i,
    {
        if a[i] != b[i] {
            return false;
        }
        assert(a@.take(i + 1) =~= a@.take(i as int).push(a@[i as int]));
        assert(b@.take(i + 1) =~= b@.take(i as int).push(b@[i as int]));
        i += 1;
    }
    assert(a@ =~= a@.take(i as int));
    assert(b@ =~= b@.take(i as int));
    true
}

/// Whether two strings hold the same characters.
pub fn same_text(a: &str, b: &str) -> (r: bool)
    ensures
        r == (a@ == b@),
{
    let x = to_chars(a);
    let y = to_chars(b);
    same_chars(&x, &y)
}

/// White space: the code points that carry Unicode's `White_Space` property.
pub open spec fn is_white(c: char) -> bool {
    let n = c as u32;
    ||| 0x09 <= n <= 0x0D
    ||| n == 0x20
    ||| n == 0x85
    ||| n == 0xA0
    ||| n == 0x1680
    ||| 0x2000 <= n <= 0x200A
    ||| n == 0x2028
    ||| n == 0x2029
    ||| n == 0x202F
    ||| n == 0x205F
    ||| n == 0x3000
}

/// Whether `c` is white space.
pub fn is_whitespace(c: char) -> (r: bool)
    ensures
        r == is_white(c),
{
    let n: u32 = c as u32;
    (0x09 <= n && n <= 0x0D) || n == 0x20 || n == 0x85 || n == 0xA0 || n == 0x1680 || (0x2000 <= n
        && n <= 0x200A) || n == 0x2028 || n == 0x2029 || n == 0x202F || n == 0x205F || n == 0x3000
}

/// The length of `s` once its trailing white space is cut off.
pub open spec fn trimmed_end(s: Seq<char>) -> int
    decreases s.len(),
{
    if s.len() == 0 || !is_white(s.last()) {
        s.len() as int
    } else {
        trimmed_end(s.drop_last())
    }
}

/// `s` without its trailing white space.
pub open spec fn trim_end(s: Seq<char>) -> Seq<char> {
    s.take(trimmed_end(s))
}

/// The number of white characters that `s` begins with.
pub open spec fn leading_white(s: Seq<char>) -> int
    decreases s.len(),
{
    if s.len() == 0 || !is_white(s[0]) {
        0
    } else {
        1 + leading_white(s.drop_first())
    }
}

/// `s` without its leading white space.
pub open spec fn trim_start(s: Seq<char>) -> Seq<char> {
    s.skip(leading_white(s))
}

/// What is left once trailing white space is cut off lies within the
/// text and does not end with white space.
pub proof fn lemma_trimmed_end_bounds(s: Seq<char>)
    ensures
        0 <= trimmed_end(s) <= s.len(),
        trimmed_end(s) > 0 ==> !is_white(s[trimmed_end(s) - 1]),
    decreases s.len(),
{
    if s.len() == 0 || !is_white(s.last()) {
    } else {
        lemma_trimmed_end_bounds(s.drop_last());
    }
}

/// The leading white space lies within the text, and what follows it does
/// not begin with white space.
pub proof fn lemma_leading_white_bounds(s: Seq<char>)
    ensures
        0 <= leading_white(s) <= s.len(),
        leading_white(s) < s.len() ==> !is_white(s[leading_white(s)]),
    decreases s.len(),
{
    if s.len() == 0 || !is_white(s[0]) {
    } else {
        lemma_leading_white_bounds(s.drop_first());
    }
}

/// The length of `v` without its trailing white space.
pub fn trim_end_len(v: &Vec<char>) -> (n: usize)
    ensures
        n == trimmed_end(v@),
{
    let mut n: usize = v.len();
    assert(v@.take(n as int) =~= v@);
    while n > 0 && is_whitespace(v[n - 1])
        invariant
            n <= v.len(),
            trimmed_end(v@) == trimmed_end(v@.take(n as int)),
        decreases n,
    {
        assert(v@.take(n as int).drop_last() =~= v@.take(n - 1));
        n -= 1;
    }
    n
}

/// The number of white characters that `v` begins with.
pub fn leading_white_len(v: &Vec<char>) -> (k: usize)
    ensures
        k == leading_white(v@),
{
    let mut k: usize = 0;
    assert(v@.skip(0) =~= v@);
    while k < v.len() && is_whitespace(v[k])
        invariant
            k <= v.len(),
            leading_white(v@) == k + leading_white(v@.skip(k as int)),
        decreases v.len() - k,
    {
        assert(v@.skip(k as int).drop_first() =~= v@.skip(k + 1));
        k += 1;
    }
    k
}

/// The characters of `v` from index `from` up to `to`.
pub fn slice_chars(v: &Vec<char>, from: usize, to: usize) -> (r: Vec<char>)
    requires
        from <= to <= v.len(),
    ensures
        r@ == v@.subrange(from as int, to as int),
{
    let mut r: Vec<char> = Vec::new();
    let mut i: usize = from;
    while i < to
        invariant
            from <= i <= to <= v.len(),
            r@ == v@.subrange(from as int, i as int),
        decreases to - i,
    {
        r.push(v[i]);
        assert(v@.subrange(from as int, i + 1) =~= v@.subrange(from as int, i as int).push(
            v@[i as int],
        ));
        i += 1;
    }
    r
}

/// The index of the first line feed in `s`, or the length of `s` if it holds none.
pub open spec fn first_newline(s: Seq<char>) -> int
    decreases s.len(),
{
    if s.len() == 0 || s[0] == '\n' {
        0
    } else {
        1 + first_newline(s.drop_first())
    }
}

/// `line` without one trailing carriage return.
pub open spec fn strip_cr(line: Seq<char>) -> Seq<char> {
    if line.len() > 0 && line.last() == '\r' {
        line.drop_last()
    } else {
        line
    }
}

/// The lines of `s`. A line ends at a line feed, or at a carriage return
/// directly before one; neither belongs to the line. What follows the last
/// line feed is a line only if it is not empty.
pub open spec fn lines(s: Seq<char>) -> Seq<Seq<char>>
    decreases s.len(),
{
    if s.len() == 0 {
        Seq::empty()
    } else {
        let k = first_newline(s);
        if k < 0 || k >= s.len() {
            seq![s]
        } else {
            seq![strip_cr(s.take(k))] + lines(s.skip(k + 1))
        }
    }
}

/// An index with a line feed, or the end of the text, before which no
/// line feed stands is the index of the first line feed.
pub proof fn lemma_first_newline(s: Seq<char>, k: int)
    requires
        0 <= k <= s.len(),
        forall|i: int| 0 <= i < k ==> s[i] != '\n',
        k < s.len() ==> s[k] == '\n',
    ensures
        first_newline(s) == k,
    decreases k,
{
    if k > 0 {
        lemma_first_newline(s.drop_first(), k - 1);
    }
}

/// The lines of `v`, as [`lines`] defines them.
pub fn split_lines(v: &Vec<char>) -> (out: Vec<Vec<char>>)
    ensures
        out@.len() == lines(v@).len(),
        forall|i: int| 0 <= i < out@.len() ==> #[trigger] out@[i]@ == lines(v@)[i],
{
    let mut out: Vec<Vec<char>> = Vec::new();
    let mut start: usize = 0;
    let mut t: usize = 0;
    let ghost mut done: Seq<Seq<char>> = Seq::empty();
    assert(v@.skip(0) =~= v@);
    while t < v.len()
        invariant
            start <= t <= v.len(),
            forall|i: int| start <= i < t ==> v@[i] != '\n',
            done + lines(v@.skip(start as int)) == lines(v@),
            out@.len() == done.len(),
            forall|i: int| 0 <= i < out@.len() ==> #[trigger] out@[i]@ == done[i],
        decreases v.len() - t,
    {
        if v[t] == '\n' {
            let mut end: usize = t;
            if end > start && v[end - 1] == '\r' {
                end -= 1;
            }
            let line = slice_chars(v, start, end);
            proof {
                let rest = v@.skip(start as int);
                lemma_first_newline(rest, t - start);
                assert(rest.take(t - start) =~= v@.subrange(start as int, t as int));
                assert(strip_cr(rest.take(t - start)) =~= line@);
                assert(rest.skip(t - start + 1) =~= v@.skip(t + 1));
                assert((done.push(line@)) + lines(v@.skip(t + 1)) =~= done + lines(rest));
                done = done.push(line@);
            }
            out.push(line);
            start = t + 1;
        }
        t += 1;
    }
    if start < v.len() {
        let line = slice_chars(v, start, v.len());
        proof {
            let rest = v@.skip(start as int);
            lemma_first_newline(rest, rest.len() as int);
            assert(rest =~= line@);
            assert(done.push(line@) =~= done + lines(rest));
            done = done.push(line@);
        }
        out.push(line);
    } else {
        assert(done + lines(v@.skip(start as int)) =~= done);
    }
    out
}

/// Whether `s` ends with a line feed.
pub open spec fn ends_with_newline(s: Seq<char>) -> bool {
    s.len() > 0 && s.last() == '\n'
}

/// Whether `s` begins with the two characters `#!`.
pub open spec fn starts_with_hash_bang(s: Seq<char>) -> bool {
    s.len() >= 2 && s[0] == '#' && s[1] == '!'
}

/// The texts of a run of strings.
pub open spec fn texts(names: Seq<String>) -> Seq<Seq<char>> {
    Seq::new(names.len(), |i: int| names[i]@)
}

/// Whether `name` is one of `names`.
pub fn holds_name(names: &Vec<String>, name: &str) -> (r: bool)
    ensures
        r == texts(names@).contains(name@),
{
    let mut i: usize = 0;
    while i < names.len()
        invariant
            i <= names.len(),
            forall|j: int| 0 <= j < i ==> texts(names@)[j] != name@,
        decreases names.len() - i,
    {
        if same_text(names[i].as_str(), name) {
            assert(texts(names@)[i as int] == name@);
            return true;
        }
        i += 1;
    }
    false
}

/// Before the first line feed stands none, and at its index stands one.
pub proof fn lemma_first_newline_is_first(s: Seq<char>)
    ensures
        0 <= first_newline(s) <= s.len(),
        forall|i: int| 0 <= i < first_newline(s) ==> s[i] != '\n',
        first_newline(s) < s.len() ==> s[first_newline(s)] == '\n',
    decreases s.len(),
{
    if s.len() == 0 || s[0] == '\n' {
    } else {
        let rest = s.drop_first();
        lemma_first_newline_is_first(rest);
        assert forall|i: int| 0 <= i < first_newline(s) implies s[i] != '\n' by {
            if i > 0 {
                assert(s[i] == rest[i - 1]);
            }
        }
    }
}

/// Whether `s` holds no line feed.
pub open spec fn is_one_line(s: Seq<char>) -> bool {
    forall|i: int| 0 <= i < s.len() ==> s[i] != '\n'
}

/// No line holds a line feed.
pub proof fn lemma_lines_hold_no_newline(s: Seq<char>)
    ensures
        forall|i: int| 0 <= i < lines(s).len() ==> is_one_line(#[trigger] lines(s)[i]),
    decreases s.len(),
{
    if s.len() > 0 {
        lemma_first_newline_is_first(s);
        let k = first_newline(s);
        if k < s.len() {
            lemma_lines_hold_no_newline(s.skip(k + 1));
            assert forall|i: int| 0 <= i < lines(s).len() implies is_one_line(
                #[trigger] lines(s)[i],
            ) by {
                if i > 0 {
                    assert(lines(s)[i] == lines(s.skip(k + 1))[i - 1]);
                }
            }
        }
    }
}

/// Behind a text that is empty or ends with a line feed, the lines of what
/// follows come after its own.
pub proof fn lemma_lines_append(a: Seq<char>, b: Seq<char>)
    requires
        a.len() == 0 || a.last() == '\n',
    ensures
        lines(a + b) == lines(a) + lines(b),
    decreases a.len(),
{
    if a.len() == 0 {
        assert(a + b =~= b);
        assert(lines(a) + lines(b) =~= lines(b));
    } else {
        lemma_first_newline_is_first(a);
        let k = first_newline(a);
        assert(k < a.len());
        lemma_first_newline(a + b, k);
        assert((a + b).take(k) =~= a.take(k));
        assert((a + b).skip(k + 1) =~= a.skip(k + 1) + b);
        lemma_lines_append(a.skip(k + 1), b);
        assert(lines(a + b) =~= lines(a) + lines(b));
    }
}

/// A line closed by a line feed is one line: itself, without a carriage
/// return at its end.
pub proof fn lemma_lines_of_one(line: Seq<char>)
    requires
        is_one_line(line),
    ensures
        lines(line + seq!['\n']) == seq![strip_cr(line)],
{
    let s = line + seq!['\n'];
    lemma_first_newline(s, line.len() as int);
    assert(s.take(line.len() as int) =~= line);
    assert(s.skip(line.len() as int + 1).len() == 0);
    assert(lines(s.skip(line.len() as int + 1)) =~= Seq::<Seq<char>>::empty());
    assert(lines(s) =~= seq![strip_cr(line)]);
}

/// How often `c` stands in `s`.
pub open spec fn count_of(s: Seq<char>, c: char) -> nat
    decreases s.len(),
{
    if s.len() == 0 {
        0
    } else if s.last() == c {
        count_of(s.drop_last(), c) + 1
    } else {
        count_of(s.drop_last(), c)
    }
}

/// How often `c` stands in `v`.
pub fn count_char(v: &Vec<char>, c: char) -> (n: usize)
    ensures
        n == count_of(v@, c),
{
    let mut n: usize = 0;
    let mut i: usize = 0;
    while i < v.len()
        invariant
            i <= v.len(),
            n <= i,
            n == count_of(v@.take(i as int), c),
        decreases v.len() - i,
    {
        assert(v@.take(i + 1).drop_last() =~= v@.take(i as int));
        if v[i] == c {
            n += 1;
        }
        i += 1;
    }
    assert(v@.take(i as int) =~= v@);
    n
}

} // verus!
