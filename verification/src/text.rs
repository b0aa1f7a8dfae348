//! Text primitives: characters, splitting, joining, trimming and lines.
//!
//! Every function here is stated over `Seq<char>`, the view of a string.
//! The executable versions work on `Vec<char>` so that positions are
//! character positions.

use vstd::prelude::*;

verus! {

/// `String::push` appends one character at the end of the string.
pub assume_specification[ String::push ](s: &mut String, ch: char)
    ensures
        final(s)@ == old(s)@.push(ch),
;

/// The views of a vector of character vectors.
pub open spec fn parts_view(parts: Seq<Vec<char>>) -> Seq<Seq<char>> {
    Seq::new(parts.len(), |i: int| parts[i]@)
}

/// The characters of `s`, in order.
pub fn to_chars(s: &str) -> (v: Vec<char>)
    ensures
        v@ == s@,
{
    let mut v: Vec<char> = Vec::new();
    for c in it: s.chars()
        invariant
            v@ == it.seq().take(it.index()),
            it.seq() == s@,
    {
        v.push(c);
    }
    v
}

/// The string made of the characters of `v`.
pub fn from_chars(v: &Vec<char>) -> (s: String)
    ensures
        s@ == v@,
{
    let mut s = String::new();
    let mut i: usize = 0;
    while i < v.len()
        invariant
            i <= v.len(),
            s@ == v@.take(i as int),
        decreases v.len() - i,
    {
        s.push(v[i]);
        i = i + 1;
    }
    s
}

/// Whether two character vectors hold the same text.
pub fn chars_eq(a: &Vec<char>, b: &Vec<char>) -> (same: bool)
    ensures
        same == (a@ == b@),
{
    if a.len() != b.len() {
        return false;
    }
    let mut i: usize = 0;
    while i < a.len()
        invariant
            i <= a.len(),
            a.len() == b.len(),
            forall|j: int| 0 <= j < i ==> a@[j] == b@[j],
        decreases a.len() - i,
    {
        if a[i] != b[i] {
            return false;
        }
        i = i + 1;
    }
    assert(a@ =~= b@);
    true
}

/// Appends the characters of `tail` to `out`.
pub fn append_chars(out: &mut Vec<char>, tail: &Vec<char>)
    ensures
        final(out)@ == old(out)@ + tail@,
{
    let mut i: usize = 0;
    while i < tail.len()
        invariant
            i <= tail.len(),
            out@ == old(out)@ + tail@.take(i as int),
        decreases tail.len() - i,
    {
        out.push(tail[i]);
        i = i + 1;
        assert(out@ =~= old(out)@ + tail@.take(i as int));
    }
    assert(tail@.take(tail.len() as int) =~= tail@);
}

/// The characters of `v` from position `from` up to, not including, `to`.
pub fn slice_chars(v: &Vec<char>, from: usize, to: usize) -> (out: Vec<char>)
    requires
        from <= to <= v.len(),
    ensures
        out@ == v@.subrange(from as int, to as int),
{
    let mut out: Vec<char> = Vec::new();
    let mut i: usize = from;
    while i < to
        invariant
            from <= i <= to <= v.len(),
            out@ == v@.subrange(from as int, i as int),
        decreases to - i,
    {
        out.push(v[i]);
        i = i + 1;
        assert(out@ =~= v@.subrange(from as int, i as int));
    }
    out
}

/// The position of the first `c` in `s`, or the length of `s` if there is none.
pub open spec fn index_of(s: Seq<char>, c: char) -> int
    decreases s.len(),
{
    if s.len() == 0 || s[0] == c {
        0
    } else {
        1 + index_of(s.drop_first(), c)
    }
}

/// `index_of` lies within `0..=len`, nothing before it is `c`, and where it
/// is a position, `c` stands there.
pub proof fn lemma_index_of_bounds(s: Seq<char>, c: char)
    ensures
        0 <= index_of(s, c) <= s.len(),
        forall|j: int| 0 <= j < index_of(s, c) ==> s[j] != c,
        index_of(s, c) < s.len() ==> s[index_of(s, c)] == c,
    decreases s.len(),
{
    if s.len() == 0 || s[0] == c {
    } else {
        let t = s.drop_first();
        lemma_index_of_bounds(t, c);
        assert forall|j: int| 0 <= j < index_of(s, c) implies s[j] != c by {
            if j > 0 {
                assert(s[j] == t[j - 1]);
            }
        }
    }
}

/// A position `k` before which no `c` stands, and which is the end or holds
/// `c`, is `index_of`.
pub proof fn lemma_index_of_is(s: Seq<char>, c: char, k: int)
    requires
        0 <= k <= s.len(),
        forall|j: int| 0 <= j < k ==> s[j] != c,
        k == s.len() || s[k] == c,
    ensures
        index_of(s, c) == k,
    decreases s.len(),
{
    if s.len() == 0 || s[0] == c {
    } else {
        let t = s.drop_first();
        assert forall|j: int| 0 <= j < k - 1 implies t[j] != c by {
            assert(t[j] == s[j + 1]);
        }
        lemma_index_of_is(t, c, k - 1);
    }
}

/// Whether `c` occurs in `s`.
pub open spec fn has_char(s: Seq<char>, c: char) -> bool {
    index_of(s, c) < s.len()
}

/// The pieces of `s` between occurrences of `sep`. There is always at least
/// one piece; no piece holds `sep`.
pub open spec fn split(s: Seq<char>, sep: char) -> Seq<Seq<char>>
    decreases s.len(),
{
    let i = index_of(s, sep);
    if 0 <= i < s.len() {
        seq![s.take(i)] + split(s.skip(i + 1), sep)
    } else {
        seq![s]
    }
}

/// The pieces put together again with `sep` between them.
pub open spec fn join(parts: Seq<Seq<char>>, sep: char) -> Seq<char>
    decreases parts.len(),
{
    if parts.len() == 0 {
        Seq::empty()
    } else if parts.len() == 1 {
        parts[0]
    } else {
        join(parts.drop_last(), sep).push(sep) + parts.last()
    }
}

/// `split` never gives an empty list, and no piece holds the separator.
pub proof fn lemma_split_pieces(s: Seq<char>, sep: char)
    ensures
        split(s, sep).len() >= 1,
        forall|i: int| 0 <= i < split(s, sep).len() ==> !has_char(#[trigger] split(s, sep)[i], sep),
    decreases s.len(),
{
    lemma_index_of_bounds(s, sep);
    let k = index_of(s, sep);
    if 0 <= k < s.len() {
        let rest = s.skip(k + 1);
        lemma_split_pieces(rest, sep);
        lemma_index_of_is(s.take(k), sep, k);
        assert forall|i: int| 0 <= i < split(s, sep).len() implies !has_char(
            #[trigger] split(s, sep)[i],
            sep,
        ) by {
            if i > 0 {
                assert(split(s, sep)[i] == split(rest, sep)[i - 1]);
            }
        }
    } else {
    }
}

/// Splitting `a`, a separator and `b` gives the pieces of `a` followed by
/// the pieces of `b`.
pub proof fn lemma_split_concat(a: Seq<char>, b: Seq<char>, sep: char)
    ensures
        split(a.push(sep) + b, sep) == split(a, sep) + split(b, sep),
    decreases a.len(),
{
    let whole = a.push(sep) + b;
    lemma_index_of_bounds(a, sep);
    let k = index_of(a, sep);
    assert forall|j: int| 0 <= j < k implies whole[j] != sep by {
        assert(whole[j] == a[j]);
    }
    if k < a.len() {
        assert(whole[k] == a[k]);
        lemma_index_of_is(whole, sep, k);
        assert(whole.take(k) =~= a.take(k));
        assert(whole.skip(k + 1) =~= a.skip(k + 1).push(sep) + b);
        lemma_split_concat(a.skip(k + 1), b, sep);
        assert(split(whole, sep) =~= split(a, sep) + split(b, sep));
    } else {
        assert(whole[k] == sep);
        lemma_index_of_is(whole, sep, k);
        assert(whole.take(k) =~= a);
        assert(whole.skip(k + 1) =~= b);
        assert(split(whole, sep) =~= split(a, sep) + split(b, sep));
    }
}

/// A text without the separator is its own single piece.
pub proof fn lemma_split_single(s: Seq<char>, sep: char)
    requires
        !has_char(s, sep),
    ensures
        split(s, sep) == seq![s],
{
    lemma_index_of_bounds(s, sep);
}

/// The pieces of `v` between occurrences of `sep`.
pub fn split_chars(v: &Vec<char>, sep: char) -> (parts: Vec<Vec<char>>)
    ensures
        parts_view(parts@) == split(v@, sep),
{
    let mut parts: Vec<Vec<char>> = Vec::new();
    let mut cur: Vec<char> = Vec::new();
    let mut start: usize = 0;
    let mut i: usize = 0;
    proof {
        assert(v@.skip(0) =~= v@);
        assert(parts_view(parts@) + split(v@, sep) =~= split(v@, sep));
    }
    while i < v.len()
        invariant
            start <= i <= v.len(),
            cur@ == v@.subrange(start as int, i as int),
            forall|j: int| start <= j < i ==> v@[j] != sep,
            split(v@, sep) == parts_view(parts@) + split(v@.skip(start as int), sep),
        decreases v.len() - i,
    {
        let c = v[i];
        if c == sep {
            proof {
                let rest = v@.skip(start as int);
                let k = i - start;
                assert forall|j: int| 0 <= j < k implies rest[j] != sep by {
                    assert(rest[j] == v@[start + j]);
                }
                assert(rest[k] == sep);
                lemma_index_of_is(rest, sep, k);
                assert(rest.take(k) =~= cur@);
                assert(rest.skip(k + 1) =~= v@.skip(i + 1));
                assert(parts_view(parts@.push(cur)) =~= parts_view(parts@) + seq![cur@]);
            }
            parts.push(cur);
            cur = Vec::new();
            start = i + 1;
            i = i + 1;
            assert(cur@ =~= v@.subrange(start as int, i as int));
        } else {
            cur.push(c);
            i = i + 1;
            assert(cur@ =~= v@.subrange(start as int, i as int));
        }
    }
    proof {
        let rest = v@.skip(start as int);
        assert forall|j: int| 0 <= j < rest.len() implies rest[j] != sep by {
            assert(rest[j] == v@[start + j]);
        }
        lemma_index_of_is(rest, sep, rest.len() as int);
        assert(rest =~= cur@);
        assert(parts_view(parts@.push(cur)) =~= parts_view(parts@) + seq![cur@]);
    }
    parts.push(cur);
    parts
}

/// The pieces of `parts` from position `from` up to, not including, `to`,
/// put together with `sep` between them.
pub fn join_chars(parts: &Vec<Vec<char>>, from: usize, to: usize, sep: char) -> (out: Vec<char>)
    requires
        from <= to <= parts.len(),
    ensures
        out@ == join(parts_view(parts@).subrange(from as int, to as int), sep),
{
    let mut out: Vec<char> = Vec::new();
    let mut i: usize = from;
    while i < to
        invariant
            from <= i <= to <= parts.len(),
            out@ == join(parts_view(parts@).subrange(from as int, i as int), sep),
        decreases to - i,
    {
        let ghost before = parts_view(parts@).subrange(from as int, i as int);
        let ghost after = parts_view(parts@).subrange(from as int, i + 1);
        proof {
            assert(after.drop_last() =~= before);
            assert(after.last() == parts@[i as int]@);
        }
        if i > from {
            out.push(sep);
        }
        append_chars(&mut out, &parts[i]);
        proof {
            if i == from {
                assert(out@ =~= parts@[i as int]@);
            }
        }
        i = i + 1;
    }
    out
}

/// A copy of `v`.
pub fn copy_chars(v: &Vec<char>) -> (out: Vec<char>)
    ensures
        out@ == v@,
{
    let out = slice_chars(v, 0, v.len());
    assert(v@.subrange(0, v.len() as int) =~= v@);
    out
}

/// Whether `c` is white space: a character with the Unicode property
/// `White_Space`.
pub open spec fn is_whitespace(c: char) -> bool {
    let n = c as u32;
    ||| 0x09 <= n <= 0x0D
    ||| n == 0x20
    ||| n == 0x85
    ||| n == 0xA0
    ||| n == 0x1680
    ||| 0x2000 <= n <= 0x200A
    ||| n == 0x2028
    ||| n == 0x2029
    ||| n == 0x202F
    ||| n == 0x205F
    ||| n == 0x3000
}

/// Whether `c` is white space.
pub fn is_space(c: char) -> (b: bool)
    ensures
        b == is_whitespace(c),
{
    let n: u32 = c as u32;
    (0x09 <= n && n <= 0x0D) || n == 0x20 || n == 0x85 || n == 0xA0 || n == 0x1680 || (0x2000 <= n
        && n <= 0x200A) || n == 0x2028 || n == 0x2029 || n == 0x202F || n == 0x205F || n == 0x3000
}

/// `s` without the white space at its start.
pub open spec fn trim_start(s: Seq<char>) -> Seq<char>
    decreases s.len(),
{
    if s.len() > 0 && is_whitespace(s[0]) {
        trim_start(s.drop_first())
    } else {
        s
    }
}

/// `s` without the white space at its end.
pub open spec fn trim_end(s: Seq<char>) -> Seq<char>
    decreases s.len(),
{
    if s.len() > 0 && is_whitespace(s.last()) {
        trim_end(s.drop_last())
    } else {
        s
    }
}

/// `s` without the white space at its start and at its end.
pub open spec fn trim(s: Seq<char>) -> Seq<char> {
    trim_end(trim_start(s))
}

/// Where the white space at the start of `s` ends, `trim_start` begins.
pub proof fn lemma_trim_start_is(s: Seq<char>, a: int)
    requires
        0 <= a <= s.len(),
        forall|j: int| 0 <= j < a ==> is_whitespace(s[j]),
        a == s.len() || !is_whitespace(s[a]),
    ensures
        trim_start(s) == s.skip(a),
    decreases s.len(),
{
    if a == 0 {
        assert(s.skip(0) =~= s);
    } else {
        let t = s.drop_first();
        assert forall|j: int| 0 <= j < a - 1 implies is_whitespace(t[j]) by {
            assert(t[j] == s[j + 1]);
        }
        lemma_trim_start_is(t, a - 1);
        assert(t.skip(a - 1) =~= s.skip(a));
    }
}

/// Where the white space at the end of `s` begins, `trim_end` stops.
pub proof fn lemma_trim_end_is(s: Seq<char>, b: int)
    requires
        0 <= b <= s.len(),
        forall|j: int| b <= j < s.len() ==> is_whitespace(s[j]),
        b == 0 || !is_whitespace(s[b - 1]),
    ensures
        trim_end(s) == s.take(b),
    decreases s.len(),
{
    if b == s.len() {
        assert(s.take(b) =~= s);
    } else {
        let t = s.drop_last();
        lemma_trim_end_is(t, b);
        assert(t.take(b) =~= s.take(b));
    }
}

/// A trimmed text neither starts nor ends with white space.
pub proof fn lemma_trim_ends(s: Seq<char>)
    ensures
        trim(s).len() > 0 ==> !is_whitespace(trim(s)[0]) && !is_whitespace(trim(s).last()),
        trim(s).len() <= s.len(),
{
    lemma_trim_start_shape(s);
    lemma_trim_end_shape(trim_start(s));
}

/// `trim_start` gives a tail of `s` that does not start with white space.
pub proof fn lemma_trim_start_shape(s: Seq<char>)
    ensures
        trim_start(s).len() <= s.len(),
        trim_start(s) == s.skip(s.len() - trim_start(s).len()),
        trim_start(s).len() > 0 ==> !is_whitespace(trim_start(s)[0]),
        forall|j: int| 0 <= j < s.len() - trim_start(s).len() ==> is_whitespace(s[j]),
    decreases s.len(),
{
    if s.len() > 0 && is_whitespace(s[0]) {
        let t = s.drop_first();
        lemma_trim_start_shape(t);
        let a = t.len() - trim_start(t).len();
        assert(t.skip(a) =~= s.skip(a + 1));
        assert forall|j: int| 0 <= j < s.len() - trim_start(s).len() implies is_whitespace(
            s[j],
        ) by {
            if j > 0 {
                assert(s[j] == t[j - 1]);
            }
        }
    } else {
        assert(s.skip(0) =~= s);
    }
}

/// `trim_end` gives a head of `s` that does not end with white space.
pub proof fn lemma_trim_end_shape(s: Seq<char>)
    ensures
        trim_end(s).len() <= s.len(),
        trim_end(s) == s.take(trim_end(s).len() as int),
        trim_end(s).len() > 0 ==> !is_whitespace(trim_end(s).last()),
        trim_end(s).len() > 0 ==> trim_end(s)[0] == s[0],
        forall|j: int| trim_end(s).len() <= j < s.len() ==> is_whitespace(s[j]),
    decreases s.len(),
{
    if s.len() > 0 && is_whitespace(s.last()) {
        let t = s.drop_last();
        lemma_trim_end_shape(t);
        assert(t.take(trim_end(t).len() as int) =~= s.take(trim_end(t).len() as int));
        assert forall|j: int| trim_end(s).len() <= j < s.len() implies is_whitespace(s[j]) by {
            if j < t.len() {
                assert(s[j] == t[j]);
            }
        }
    } else {
        assert(s.take(s.len() as int) =~= s);
    }
}

/// `v` without the white space at its start and at its end.
pub fn trim_chars(v: &Vec<char>) -> (out: Vec<char>)
    ensures
        out@ == trim(v@),
{
    let mut a: usize = 0;
    while a < v.len() && is_space(v[a])
        invariant
            a <= v.len(),
            forall|j: int| 0 <= j < a ==> is_whitespace(v@[j]),
        decreases v.len() - a,
    {
        a = a + 1;
    }
    let mut b: usize = v.len();
    while b > a && is_space(v[b - 1])
        invariant
            a <= b <= v.len(),
            forall|j: int| b <= j < v.len() ==> is_whitespace(v@[j]),
        decreases b,
    {
        b = b - 1;
    }
    proof {
        lemma_trim_start_is(v@, a as int);
        let t = v@.skip(a as int);
        assert forall|j: int| b - a <= j < t.len() implies is_whitespace(t[j]) by {
            assert(t[j] == v@[a + j]);
        }
        if b > a {
            assert(t[b - a - 1] == v@[b - 1]);
        }
        lemma_trim_end_is(t, b - a);
        assert(t.take(b - a) =~= v@.subrange(a as int, b as int));
    }
    slice_chars(v, a, b)
}

/// `l` without one carriage return at its end.
pub open spec fn strip_cr(l: Seq<char>) -> Seq<char> {
    if l.len() > 0 && l.last() == '\r' {
        l.drop_last()
    } else {
        l
    }
}

/// The lines of `s`. A line ends at a line feed, or at a carriage return
/// followed by a line feed; neither belongs to the line. What follows the
/// last line feed is a line as it stands, unless it is empty.
pub open spec fn lines(s: Seq<char>) -> Seq<Seq<char>> {
    let parts = split(s, '\n');
    let body = Seq::new((parts.len() - 1) as nat, |i: int| strip_cr(parts[i]));
    if parts.last().len() > 0 {
        body.push(parts.last())
    } else {
        body
    }
}

/// The lines of `v`.
pub fn lines_chars(v: &Vec<char>) -> (out: Vec<Vec<char>>)
    ensures
        parts_view(out@) == lines(v@),
{
    let parts = split_chars(v, '\n');
    proof {
        lemma_split_pieces(v@, '\n');
        assert(parts_view(parts@).len() == parts.len());
    }
    let n = parts.len();
    let mut out: Vec<Vec<char>> = Vec::new();
    let mut i: usize = 0;
    while i + 1 < n
        invariant
            n == parts.len(),
            n >= 1,
            i + 1 <= n,
            out.len() == i,
            parts_view(parts@) == split(v@, '\n'),
            forall|j: int| 0 <= j < i ==> (#[trigger] out@[j])@ == strip_cr(parts@[j]@),
        decreases n - i,
    {
        let part = &parts[i];
        let m = part.len();
        let line = if m > 0 && part[m - 1] == '\r' {
            slice_chars(part, 0, m - 1)
        } else {
            slice_chars(part, 0, m)
        };
        proof {
            assert(part@.subrange(0, m as int) =~= part@);
            assert(part@.subrange(0, m - 1) =~= part@.drop_last());
        }
        out.push(line);
        i = i + 1;
    }
    proof {
        assert(parts_view(parts@)[n - 1] == parts@[n - 1]@);
        assert forall|j: int| 0 <= j < n - 1 implies (#[trigger] out@[j])@ == strip_cr(
            split(v@, '\n')[j],
        ) by {
            assert(parts_view(parts@)[j] == parts@[j]@);
        }
    }
    if parts[n - 1].len() > 0 {
        let last = slice_chars(&parts[n - 1], 0, parts[n - 1].len());
        proof {
            assert(last@ =~= parts@[n - 1]@);
        }
        out.push(last);
    }
    assert(parts_view(out@) =~= lines(v@));
    out
}

/// Whether some line of `content`, trimmed, is `line`.
pub open spec fn has_line(content: Seq<char>, line: Seq<char>) -> bool {
    exists|i: int| 0 <= i < lines(content).len() && trim(#[trigger] lines(content)[i]) == line
}

/// `c` in lower case, where it is an ASCII capital letter.
pub open spec fn lower(c: char) -> char {
    if 0x41 <= c as u32 <= 0x5A {
        ((c as u32) + 0x20) as char
    } else {
        c
    }
}

/// `s` with its ASCII capital letters in lower case.
pub open spec fn to_lower(s: Seq<char>) -> Seq<char> {
    Seq::new(s.len(), |i: int| lower(s[i]))
}

/// `c` in lower case, where it is an ASCII capital letter.
pub fn lower_char(c: char) -> (out: char)
    ensures
        out == lower(c),
{
    let n: u32 = c as u32;
    if 0x41 <= n && n <= 0x5A {
        let m: u8 = (n + 0x20) as u8;
        m as char
    } else {
        c
    }
}

/// `v` with its ASCII capital letters in lower case.
pub fn lower_chars(v: &Vec<char>) -> (out: Vec<char>)
    ensures
        out@ == to_lower(v@),
{
    let mut out: Vec<char> = Vec::new();
    let mut i: usize = 0;
    while i < v.len()
        invariant
            i <= v.len(),
            out.len() == i,
            forall|j: int| 0 <= j < i ==> out@[j] == lower(v@[j]),
        decreases v.len() - i,
    {
        out.push(lower_char(v[i]));
        i = i + 1;
    }
    assert(out@ =~= to_lower(v@));
    out
}

/// Whether `s` begins with `prefix`.
pub open spec fn starts_with(s: Seq<char>, prefix: Seq<char>) -> bool {
    prefix.len() <= s.len() && s.take(prefix.len() as int) == prefix
}

/// Whether `s` ends with `suffix`.
pub open spec fn ends_with(s: Seq<char>, suffix: Seq<char>) -> bool {
    suffix.len() <= s.len() && s.skip(s.len() - suffix.len()) == suffix
}

/// Whether `v` begins with `prefix`.
pub fn has_prefix(v: &Vec<char>, prefix: &Vec<char>) -> (b: bool)
    ensures
        b == starts_with(v@, prefix@),
{
    if prefix.len() > v.len() {
        return false;
    }
    let head = slice_chars(v, 0, prefix.len());
    chars_eq(&head, prefix)
}

/// Whether `v` ends with `suffix`.
pub fn has_suffix(v: &Vec<char>, suffix: &Vec<char>) -> (b: bool)
    ensures
        b == ends_with(v@, suffix@),
{
    if suffix.len() > v.len() {
        return false;
    }
    let tail = slice_chars(v, v.len() - suffix.len(), v.len());
    chars_eq(&tail, suffix)
}

/// Whether `c` occurs in `v`.
pub fn contains_char(v: &Vec<char>, c: char) -> (b: bool)
    ensures
        b == has_char(v@, c),
{
    let mut i: usize = 0;
    while i < v.len()
        invariant
            i <= v.len(),
            forall|j: int| 0 <= j < i ==> v@[j] != c,
        decreases v.len() - i,
    {
        if v[i] == c {
            proof {
                lemma_index_of_is(v@, c, i as int);
            }
            return true;
        }
        i = i + 1;
    }
    proof {
        lemma_index_of_is(v@, c, v.len() as int);
    }
    false
}

/// The lines of `s` as they stand: the pieces between line feeds, with
/// any carriage return left in place. What follows the last line feed is
/// a line unless it is empty.
pub open spec fn raw_lines(s: Seq<char>) -> Seq<Seq<char>> {
    let parts = split(s, '\n');
    if parts.last().len() > 0 {
        parts
    } else {
        parts.drop_last()
    }
}

/// The lines of `v` as they stand.
pub fn raw_lines_chars(v: &Vec<char>) -> (out: Vec<Vec<char>>)
    ensures
        parts_view(out@) == raw_lines(v@),
{
    let mut parts = split_chars(v, '\n');
    proof {
        lemma_split_pieces(v@, '\n');
        assert(parts_view(parts@).len() == parts.len());
        assert(parts_view(parts@).last() == parts@[parts.len() - 1]@);
    }
    if parts[parts.len() - 1].len() == 0 {
        let ghost before = parts_view(parts@);
        parts.pop();
        assert(parts_view(parts@) =~= before.drop_last());
    }
    parts
}

/// Whether a line, once it stands in a file, is found there again:
/// trimming leaves it as it is, and it holds no line feed.
pub open spec fn findable(line: Seq<char>) -> bool {
    trim(line) == line && !has_char(line, '\n')
}

/// Whether a line is found again once it stands in a file.
pub fn is_findable(line: &Vec<char>) -> (b: bool)
    ensures
        b == findable(line@),
{
    let trimmed = trim_chars(line);
    chars_eq(&trimmed, line) && !contains_char(line, '\n')
}

} // verus!
