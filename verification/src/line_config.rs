//! Line-oriented configuration files: making sure that a line is there,
//! and taking a line out.
//!
//! A file holds a line when one of its lines, trimmed, is that line. Both
//! edits leave the file alone when there is nothing to do.

use crate::text::{
    append_chars, chars_eq, from_chars, has_char, has_line, index_of, is_whitespace, join,
    join_chars, lemma_index_of_bounds, lemma_index_of_is, lemma_split_concat, lemma_split_pieces,
    lemma_split_single, lemma_trim_ends, lemma_trim_start_is, lemma_trim_start_shape, lines,
    lines_chars, parts_view, raw_lines, raw_lines_chars, split, strip_cr, to_chars, trim,
    trim_chars, trim_start,
};
use vstd::prelude::*;

verus! {

/// What is written at the end of `content` to add `line`: a line feed
/// first where `content` does not end with one, then the line and a line
/// feed.
pub open spec fn appended_text(content: Seq<char>, line: Seq<char>) -> Seq<char> {
    if content.len() > 0 && content.last() != '\n' {
        seq!['\n'] + line.push('\n')
    } else {
        line.push('\n')
    }
}

/// The text to append so that `content` holds `line`, or `None` where it
/// holds it already.
pub open spec fn ensure_line_spec(content: Seq<char>, line: Seq<char>) -> Option<Seq<char>> {
    if has_line(content, line) {
        None
    } else {
        Some(appended_text(content, line))
    }
}

/// The content of the file once `line` has been made sure of.
pub open spec fn with_line(content: Seq<char>, line: Seq<char>) -> Seq<char> {
    match ensure_line_spec(content, line) {
        None => content,
        Some(text) => content + text,
    }
}

/// The lines that, trimmed, are not `line`, in order.
pub open spec fn keep_lines(ls: Seq<Seq<char>>, line: Seq<char>) -> Seq<Seq<char>>
    decreases ls.len(),
{
    if ls.len() == 0 {
        Seq::empty()
    } else if trim(ls.last()) == line {
        keep_lines(ls.drop_last(), line)
    } else {
        keep_lines(ls.drop_last(), line).push(ls.last())
    }
}

/// The content without the lines that, trimmed, are `line`, or `None`
/// where it has no such line. The lines that stay are kept as they
/// stand, carriage returns included, and joined by line feeds; the result
/// ends with a line feed exactly if `content` did.
pub open spec fn remove_line_spec(content: Seq<char>, line: Seq<char>) -> Option<Seq<char>> {
    if !has_line(content, line) {
        None
    } else {
        let kept = join(keep_lines(raw_lines(content), line), '\n');
        if content.len() > 0 && content.last() == '\n' {
            Some(kept.push('\n'))
        } else {
            Some(kept)
        }
    }
}

/// The content of the file once `line` has been taken out.
pub open spec fn without_line(content: Seq<char>, line: Seq<char>) -> Seq<char> {
    match remove_line_spec(content, line) {
        None => content,
        Some(text) => text,
    }
}

/// Whether one of `ls`, trimmed, is `line`.
fn find_line(ls: &Vec<Vec<char>>, line: &Vec<char>) -> (found: bool)
    ensures
        found == exists|i: int|
            0 <= i < ls.len() && trim(#[trigger] parts_view(ls@)[i]) == line@,
{
    let mut i: usize = 0;
    while i < ls.len()
        invariant
            i <= ls.len(),
            forall|j: int| 0 <= j < i ==> trim(#[trigger] parts_view(ls@)[j]) != line@,
        decreases ls.len() - i,
    {
        assert(parts_view(ls@)[i as int] == ls@[i as int]@);
        let t = trim_chars(&ls[i]);
        if chars_eq(&t, line) {
            return true;
        }
        i = i + 1;
    }
    false
}

/// Whether some line of `content`, trimmed, is `line`.
pub fn contains_line(content: &str, line: &str) -> (b: bool)
    ensures
        b == has_line(content@, line@),
{
    let c = to_chars(content);
    let l = to_chars(line);
    let ls = lines_chars(&c);
    assert(parts_view(ls@).len() == ls.len());
    find_line(&ls, &l)
}

/// Makes sure that `content` holds `line`: the result is the text to
/// append to the file, or `None` where the line is there already.
pub fn ensure_line_present(content: &str, line: &str) -> (r: Option<String>)
    ensures
        r.deep_view() == ensure_line_spec(content@, line@),
{
    let c = to_chars(content);
    let l = to_chars(line);
    let ls = lines_chars(&c);
    assert(parts_view(ls@).len() == ls.len());
    if find_line(&ls, &l) {
        return None;
    }
    let mut text: Vec<char> = Vec::new();
    if c.len() > 0 && c[c.len() - 1] != '\n' {
        text.push('\n');
    }
    append_chars(&mut text, &l);
    text.push('\n');
    assert(text@ =~= appended_text(content@, line@));
    Some(from_chars(&text))
}

/// Takes the lines that, trimmed, are `line` out of `content`: the result
/// is the new content of the file, or `None` where there is no such line
/// and nothing is to be written.
pub fn remove_line(content: &str, line: &str) -> (r: Option<String>)
    ensures
        r.deep_view() == remove_line_spec(content@, line@),
{
    let c = to_chars(content);
    let l = to_chars(line);
    let ls = raw_lines_chars(&c);
    let ghost all = raw_lines(content@);
    assert(parts_view(ls@).len() == ls.len());
    proof {
        lemma_raw_lines(content@);
    }
    let found = find_line(&ls, &l);
    proof {
        if found {
            let i = choose|i: int| 0 <= i < ls.len() && trim(#[trigger] parts_view(ls@)[i]) == l@;
            assert(trim(lines(content@)[i]) == l@);
        }
        if has_line(content@, l@) {
            let i = choose|i: int|
                0 <= i < lines(content@).len() && trim(#[trigger] lines(content@)[i]) == l@;
            assert(trim(parts_view(ls@)[i]) == l@);
        }
    }
    if !found {
        return None;
    }
    let mut kept: Vec<Vec<char>> = Vec::new();
    let mut i: usize = 0;
    assert(all.take(0) =~= Seq::<Seq<char>>::empty());
    while i < ls.len()
        invariant
            i <= ls.len(),
            parts_view(ls@) == all,
            parts_view(kept@) == keep_lines(all.take(i as int), l@),
        decreases ls.len() - i,
    {
        proof {
            assert(all[i as int] == ls@[i as int]@);
            assert(all.take(i + 1).drop_last() =~= all.take(i as int));
            assert(all.take(i + 1).last() == ls@[i as int]@);
        }
        let t = trim_chars(&ls[i]);
        if !chars_eq(&t, &l) {
            let ghost before = parts_view(kept@);
            let mut line_copy: Vec<char> = Vec::new();
            append_chars(&mut line_copy, &ls[i]);
            assert(line_copy@ =~= ls@[i as int]@);
            kept.push(line_copy);
            assert(parts_view(kept@) =~= before.push(ls@[i as int]@));
        }
        i = i + 1;
    }
    proof {
        assert(all.take(ls.len() as int) =~= all);
        assert(parts_view(kept@).subrange(0, kept.len() as int) =~= parts_view(kept@));
    }
    let mut out = join_chars(&kept, 0, kept.len(), '\n');
    if c.len() > 0 && c[c.len() - 1] == '\n' {
        out.push('\n');
    }
    Some(from_chars(&out))
}

/// The last piece of a split is empty exactly if the text is empty or
/// ends with the separator.
pub proof fn lemma_split_last(s: Seq<char>, sep: char)
    ensures
        split(s, sep).len() >= 1,
        split(s, sep).last().len() == 0 <==> (s.len() == 0 || s.last() == sep),
    decreases s.len(),
{
    lemma_index_of_bounds(s, sep);
    let k = index_of(s, sep);
    if 0 <= k < s.len() {
        let rest = s.skip(k + 1);
        lemma_split_last(rest, sep);
        assert(split(s, sep).last() == split(rest, sep).last());
        if rest.len() > 0 {
            assert(rest.last() == s.last());
        }
    } else {
    }
}

/// Taking a white space character off the end of a text does not change
/// what trimming gives.
pub proof fn lemma_trim_drop_space(x: Seq<char>)
    requires
        x.len() > 0,
        is_whitespace(x.last()),
    ensures
        trim(x.drop_last()) == trim(x),
{
    let y = x.drop_last();
    lemma_trim_start_shape(x);
    let a = x.len() - trim_start(x).len();
    if a == x.len() {
        assert forall|j: int| 0 <= j < y.len() implies is_whitespace(y[j]) by {
            assert(y[j] == x[j]);
        }
        lemma_trim_start_is(y, y.len() as int);
        assert(y.skip(y.len() as int) =~= Seq::<char>::empty());
        assert(trim_start(x) =~= Seq::<char>::empty());
    } else {
        assert(trim_start(x)[0] == x[a]);
        assert(a < x.len() - 1);
        assert forall|j: int| 0 <= j < a implies is_whitespace(y[j]) by {
            assert(y[j] == x[j]);
        }
        assert(y[a] == x[a]);
        lemma_trim_start_is(y, a);
        assert(y.skip(a) =~= x.skip(a).drop_last());
        assert(x.skip(a).last() == x.last());
    }
}

/// Trimming a line gives the same with or without the carriage return at
/// its end.
pub proof fn lemma_trim_strip_cr(x: Seq<char>)
    ensures
        trim(strip_cr(x)) == trim(x),
{
    if x.len() > 0 && x.last() == '\r' {
        lemma_trim_drop_space(x);
    }
}

/// The lines of a file after text has been appended for `line`: the lines
/// before, the same once trimmed, and then `line`.
pub proof fn lemma_lines_after_append(content: Seq<char>, line: Seq<char>)
    requires
        !has_char(line, '\n'),
    ensures
        lines(content + appended_text(content, line)).len() == lines(content).len() + 1,
        lines(content + appended_text(content, line)).last() == strip_cr(line),
        forall|i: int|
            0 <= i < lines(content).len() ==> trim(
                #[trigger] lines(content + appended_text(content, line))[i],
            ) == trim(lines(content)[i]),
{
    let nl = '\n';
    let after = content + appended_text(content, line);
    let empty = Seq::<char>::empty();
    lemma_split_last(content, nl);
    lemma_split_pieces(content, nl);
    // What follows the line: a line feed and nothing more.
    lemma_split_single(line, nl);
    lemma_index_of_is(empty, nl, 0);
    assert(split(empty, nl) =~= seq![empty]);
    lemma_split_concat(line, empty, nl);
    assert(line.push(nl) + empty =~= line.push(nl));
    assert(split(line.push(nl), nl) =~= seq![line, empty]);
    if content.len() == 0 {
        assert(after =~= line.push(nl));
        assert(content =~= empty);
        assert(lines(content) =~= Seq::<Seq<char>>::empty());
        assert(lines(after) =~= seq![strip_cr(line)]);
    } else if content.last() == nl {
        let c0 = content.drop_last();
        assert(content =~= c0.push(nl));
        lemma_split_concat(c0, empty, nl);
        assert(c0.push(nl) + empty =~= content);
        assert(split(content, nl) =~= split(c0, nl) + seq![empty]);
        lemma_split_concat(c0, line.push(nl), nl);
        assert(after =~= c0.push(nl) + line.push(nl));
        assert(split(after, nl) =~= split(c0, nl) + seq![line, empty]);
        lemma_split_pieces(c0, nl);
        assert(lines(after) =~= lines(content).push(strip_cr(line)));
    } else {
        lemma_split_concat(content, line.push(nl), nl);
        assert(after =~= content.push(nl) + line.push(nl));
        assert(split(after, nl) =~= split(content, nl) + seq![line, empty]);
        let parts = split(content, nl);
        let m = parts.len();
        assert(lines(content).len() == m);
        assert(lines(after).len() == m + 1);
        assert forall|i: int| 0 <= i < lines(content).len() implies trim(
            #[trigger] lines(after)[i],
        ) == trim(lines(content)[i]) by {
            if i == m - 1 {
                assert(lines(after)[i] == strip_cr(parts[i]));
                assert(lines(content)[i] == parts[i]);
                lemma_trim_strip_cr(parts[i]);
            } else {
                assert(lines(after)[i] == strip_cr(parts[i]));
                assert(lines(content)[i] == strip_cr(parts[i]));
            }
        }
    }
}

/// A text that trimming leaves as it is does not end with a carriage
/// return.
pub proof fn lemma_trimmed_keeps_cr(line: Seq<char>)
    requires
        trim(line) == line,
    ensures
        strip_cr(line) == line,
{
    lemma_trim_ends(line);
}

/// Once a line has been made sure of, the file holds it: to make sure of
/// it a second time changes nothing.
///
/// This is stated of a line that trimming leaves as it is and that holds
/// no line feed: no other line is ever found in a file.
pub proof fn lemma_ensure_line_idempotent(content: Seq<char>, line: Seq<char>)
    requires
        trim(line) == line,
        !has_char(line, '\n'),
    ensures
        has_line(with_line(content, line), line),
        ensure_line_spec(with_line(content, line), line) is None,
        with_line(with_line(content, line), line) == with_line(content, line),
{
    if !has_line(content, line) {
        let after = content + appended_text(content, line);
        lemma_lines_after_append(content, line);
        lemma_trimmed_keeps_cr(line);
        let last = lines(after).len() - 1;
        assert(trim(lines(after)[last]) == line);
    }
}

/// Where a file did not hold a line, it holds it exactly once after the
/// line has been made sure of.
pub proof fn lemma_ensure_line_once(content: Seq<char>, line: Seq<char>)
    requires
        trim(line) == line,
        !has_char(line, '\n'),
        !has_line(content, line),
    ensures
        forall|i: int|
            0 <= i < lines(with_line(content, line)).len() ==> (trim(
                #[trigger] lines(with_line(content, line))[i],
            ) == line <==> i == lines(with_line(content, line)).len() - 1),
{
    let after = content + appended_text(content, line);
    lemma_lines_after_append(content, line);
    lemma_trimmed_keeps_cr(line);
    assert forall|i: int| 0 <= i < lines(after).len() implies (trim(#[trigger] lines(after)[i])
        == line <==> i == lines(after).len() - 1) by {
        if i < lines(content).len() {
            assert(trim(lines(content)[i]) != line);
        }
    }
}

/// Pieces without the separator, put together and split again, are the
/// same pieces.
pub proof fn lemma_split_join(parts: Seq<Seq<char>>, sep: char)
    requires
        parts.len() >= 1,
        forall|i: int| 0 <= i < parts.len() ==> !has_char(#[trigger] parts[i], sep),
    ensures
        split(join(parts, sep), sep) == parts,
    decreases parts.len(),
{
    if parts.len() == 1 {
        lemma_split_single(parts[0], sep);
        assert(parts =~= seq![parts[0]]);
    } else {
        let init = parts.drop_last();
        assert forall|i: int| 0 <= i < init.len() implies !has_char(#[trigger] init[i], sep) by {
            assert(init[i] == parts[i]);
        }
        lemma_split_join(init, sep);
        lemma_split_concat(join(init, sep), parts.last(), sep);
        lemma_split_single(parts.last(), sep);
        assert(init + seq![parts.last()] =~= parts);
    }
}

/// The lines as they stand are as many as the lines, and each gives the
/// same once trimmed: a line is found in the one exactly if it is found
/// in the other.
pub proof fn lemma_raw_lines(content: Seq<char>)
    ensures
        raw_lines(content).len() == lines(content).len(),
        forall|i: int|
            0 <= i < lines(content).len() ==> trim(#[trigger] raw_lines(content)[i]) == trim(
                lines(content)[i],
            ),
        forall|i: int|
            0 <= i < lines(content).len() ==> trim(#[trigger] lines(content)[i]) == trim(
                raw_lines(content)[i],
            ),
        forall|i: int|
            0 <= i < raw_lines(content).len() ==> !has_char(#[trigger] raw_lines(content)[i], '\n'),
{
    let parts = split(content, '\n');
    lemma_split_pieces(content, '\n');
    assert forall|i: int| 0 <= i < lines(content).len() implies trim(
        #[trigger] raw_lines(content)[i],
    ) == trim(lines(content)[i]) by {
        assert(raw_lines(content)[i] == parts[i]);
        lemma_trim_strip_cr(parts[i]);
    }
    assert forall|i: int| 0 <= i < raw_lines(content).len() implies !has_char(
        #[trigger] raw_lines(content)[i],
        '\n',
    ) by {
        assert(raw_lines(content)[i] == parts[i]);
    }
}

/// The lines that stay hold no line feed, and none of them, trimmed, is
/// the line taken out.
pub proof fn lemma_kept_lines(ls: Seq<Seq<char>>, line: Seq<char>)
    requires
        forall|i: int| 0 <= i < ls.len() ==> !has_char(#[trigger] ls[i], '\n'),
    ensures
        forall|i: int|
            0 <= i < keep_lines(ls, line).len() ==> !has_char(
                #[trigger] keep_lines(ls, line)[i],
                '\n',
            ) && trim(keep_lines(ls, line)[i]) != line,
    decreases ls.len(),
{
    if ls.len() > 0 {
        let init = ls.drop_last();
        assert forall|i: int| 0 <= i < init.len() implies !has_char(#[trigger] init[i], '\n') by {
            assert(init[i] == ls[i]);
        }
        lemma_kept_lines(init, line);
        assert(!has_char(ls[ls.len() - 1], '\n'));
        let kept = keep_lines(ls, line);
        let before = keep_lines(init, line);
        assert forall|i: int| 0 <= i < kept.len() implies !has_char(#[trigger] kept[i], '\n')
            && trim(kept[i]) != line by {
            if i < before.len() {
                assert(kept[i] == before[i]);
            } else {
                assert(kept[i] == ls.last());
            }
        }
    }
}

/// Once a line has been taken out, the file no longer holds it.
///
/// This is stated of a line that is not empty: a file that held nothing
/// but empty lines and ended with a line feed keeps that line feed, which
/// is an empty line.
pub proof fn lemma_removed_line_is_gone(content: Seq<char>, line: Seq<char>)
    requires
        line.len() > 0,
    ensures
        !has_line(without_line(content, line), line),
{
    if has_line(content, line) {
        let nl = '\n';
        let empty = Seq::<char>::empty();
        let kept = keep_lines(raw_lines(content), line);
        let body = join(kept, nl);
        let after = without_line(content, line);
        let ends = content.len() > 0 && content.last() == nl;
        lemma_raw_lines(content);
        lemma_kept_lines(raw_lines(content), line);
        lemma_index_of_is(empty, nl, 0);
        assert(split(empty, nl) =~= seq![empty]);
        assert(trim(empty) =~= empty);
        if kept.len() == 0 {
            assert(body =~= empty);
            if ends {
                lemma_split_concat(empty, empty, nl);
                assert(after =~= empty.push(nl) + empty);
                assert(split(after, nl) =~= seq![empty, empty]);
                assert(lines(after) =~= seq![empty]);
            } else {
                assert(lines(after) =~= Seq::<Seq<char>>::empty());
            }
        } else {
            lemma_split_join(kept, nl);
            if ends {
                lemma_split_concat(body, empty, nl);
                assert(after =~= body.push(nl) + empty);
                assert(split(after, nl) =~= kept + seq![empty]);
            } else {
                assert(after == body);
            }
            assert forall|i: int| 0 <= i < lines(after).len() implies trim(
                #[trigger] lines(after)[i],
            ) != line by {
                lemma_trim_strip_cr(kept[i]);
                assert(trim(kept[i]) != line);
            }
        }
    }
}

/// To take out a line that a file does not hold changes nothing, and
/// nothing is written.
pub proof fn lemma_remove_absent_line(content: Seq<char>, line: Seq<char>)
    requires
        !has_line(content, line),
    ensures
        remove_line_spec(content, line) is None,
        without_line(content, line) == content,
{
}

} // verus!
