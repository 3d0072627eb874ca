//! Conversions between strings and character vectors, and the line structure of a text.

use vstd::prelude::*;

verus! {

/// `String::push` appends one character to the end of the string.
pub assume_specification[ String::push ](s: &mut String, c: char)
    ensures
        final(s)@ == old(s)@.push(c),
;

/// The characters of `s`, in order.
pub fn chars_of(s: &str) -> (v: Vec<char>)
    ensures
        v@ == s@,
{
    let mut v: Vec<char> = Vec::new();
    for c in it: s.chars()
        invariant
            it.seq() == s@,
            v@ == s@.take(it.index() as int),
    {
        assert(s@.take(it.index() + 1) =~= s@.take(it.index() as int).push(c));
        v.push(c);
    }
    assert(s@.take(s@.len() as int) =~= s@);
    v
}

/// The string made of the characters of `v`, in order.
pub fn string_of(v: &Vec<char>) -> (s: String)
    ensures
        s@ == v@,
{
    let mut s = String::new();
    let mut i: usize = 0;
    while i < v.len()
        invariant
            i <= v.len(),
            s@ == v@.take(i as int),
        decreases v.len() - i,
    {
        assert(v@.take(i + 1) =~= v@.take(i as int).push(v@[i as int]));
        s.push(v[i]);
        i += 1;
    }
    assert(v@.take(v@.len() as int) =~= v@);
    s
}

/// The views of a sequence of character vectors.
pub open spec fn rows_of(rows: Seq<Vec<char>>) -> Seq<Seq<char>> {
    Seq::new(rows.len(), |i: int| rows[i]@)
}

/// The views of a sequence of strings.
pub open spec fn strings_of(strings: Seq<String>) -> Seq<Seq<char>> {
    Seq::new(strings.len(), |i: int| strings[i]@)
}

/// The segments of `s` between its newline characters: a text with `k` newlines has
/// `k + 1` segments, some of which may be empty.
pub open spec fn split_lines(s: Seq<char>) -> Seq<Seq<char>>
    decreases s.len(),
{
    if s.len() == 0 {
        seq![Seq::<char>::empty()]
    } else {
        let init = split_lines(s.drop_last());
        if s.last() == '\n' {
            init.push(Seq::<char>::empty())
        } else {
            init.update(init.len() - 1, init.last().push(s.last()))
        }
    }
}

/// The lines joined by single newline characters, with no newline at the end.
pub open spec fn join_lines(lines: Seq<Seq<char>>) -> Seq<char>
    decreases lines.len(),
{
    if lines.len() == 0 {
        Seq::<char>::empty()
    } else if lines.len() == 1 {
        lines[0]
    } else {
        join_lines(lines.drop_last()) + seq!['\n'] + lines.last()
    }
}

pub proof fn lemma_split_lines_nonempty(s: Seq<char>)
    ensures
        split_lines(s).len() >= 1,
    decreases s.len(),
{
    if s.len() > 0 {
        lemma_split_lines_nonempty(s.drop_last());
    }
}

/// Appending a segment without newlines to a text extends the last line by that segment.
pub proof fn lemma_split_lines_append(a: Seq<char>, b: Seq<char>)
    requires
        !b.contains('\n'),
    ensures
        split_lines(a).len() >= 1,
        split_lines(a + b) == split_lines(a).update(
            split_lines(a).len() - 1,
            split_lines(a).last() + b,
        ),
    decreases b.len(),
{
    lemma_split_lines_nonempty(a);
    let sa = split_lines(a);
    if b.len() == 0 {
        assert(a + b =~= a);
        assert(sa.last() + b =~= sa.last());
        assert(sa.update(sa.len() - 1, sa.last()) =~= sa);
    } else {
        let b0 = b.drop_last();
        assert(!b0.contains('\n')) by {
            if b0.contains('\n') {
                let i = choose|i: int| 0 <= i < b0.len() && b0[i] == '\n';
                assert(b[i] == '\n');
            }
        }
        lemma_split_lines_append(a, b0);
        assert((a + b).drop_last() =~= a + b0);
        assert((a + b).last() == b.last());
        assert(b[b.len() - 1] != '\n');
        assert(sa.last() + b =~= (sa.last() + b0).push(b.last()));
        assert(split_lines(a + b) =~= sa.update(sa.len() - 1, sa.last() + b));
    }
}

/// Splitting undoes joining, for at least one line and lines without newlines.
pub proof fn lemma_split_join(lines: Seq<Seq<char>>)
    requires
        lines.len() >= 1,
        forall|i: int| 0 <= i < lines.len() ==> !(#[trigger] lines[i]).contains('\n'),
    ensures
        split_lines(join_lines(lines)) == lines,
    decreases lines.len(),
{
    let empty = Seq::<char>::empty();
    if lines.len() == 1 {
        lemma_split_lines_append(empty, lines[0]);
        assert(empty + lines[0] =~= lines[0]);
        assert(split_lines(empty) =~= seq![empty]);
        assert(split_lines(lines[0]) =~= lines);
    } else {
        let init = lines.drop_last();
        lemma_split_join(init);
        let a = join_lines(init) + seq!['\n'];
        assert(a.drop_last() =~= join_lines(init));
        assert(split_lines(a) =~= init.push(empty));
        lemma_split_lines_append(a, lines.last());
        assert(empty + lines.last() =~= lines.last());
        assert(split_lines(a + lines.last()) =~= lines);
    }
}

/// The segments of a text between its newline characters.
pub fn split(text: &Vec<char>) -> (lines: Vec<Vec<char>>)
    ensures
        rows_of(lines@) == split_lines(text@),
{
    let mut lines: Vec<Vec<char>> = Vec::new();
    let mut current: Vec<char> = Vec::new();
    let mut i: usize = 0;
    while i < text.len()
        invariant
            i <= text.len(),
            rows_of(lines@).push(current@) == split_lines(text@.take(i as int)),
        decreases text.len() - i,
    {
        let ghost before = rows_of(lines@).push(current@);
        let c = text[i];
        assert(text@.take(i + 1).drop_last() =~= text@.take(i as int));
        if c == '\n' {
            lines.push(current);
            current = Vec::new();
            assert(rows_of(lines@).push(current@) =~= before.push(Seq::<char>::empty()));
        } else {
            current.push(c);
            assert(rows_of(lines@).push(current@) =~= before.update(
                before.len() - 1,
                before.last().push(c),
            ));
        }
        i += 1;
    }
    assert(text@.take(text.len() as int) =~= text@);
    let ghost before = rows_of(lines@).push(current@);
    lines.push(current);
    assert(rows_of(lines@) =~= before);
    lines
}

/// A line without the carriage return at its end, if it has one.
pub open spec fn strip_cr(line: Seq<char>) -> Seq<char> {
    if line.len() > 0 && line.last() == '\r' {
        line.drop_last()
    } else {
        line
    }
}

/// The lines of a text. Each line ends at a newline, or at a carriage return right
/// before a newline, and holds neither; what follows the last newline is a line too,
/// unless it is empty.
pub open spec fn lines_of(s: Seq<char>) -> Seq<Seq<char>> {
    let parts = split_lines(s);
    let ended = Seq::new((parts.len() - 1) as nat, |i: int| strip_cr(parts[i]));
    if parts.last().len() == 0 {
        ended
    } else {
        ended.push(parts.last())
    }
}

/// The lines of a text.
pub fn lines(text: &Vec<char>) -> (result: Vec<Vec<char>>)
    ensures
        rows_of(result@) == lines_of(text@),
{
    let parts = split(text);
    proof {
        lemma_split_lines_nonempty(text@);
    }
    let ghost segments = split_lines(text@);
    let ghost ended = Seq::new((segments.len() - 1) as nat, |i: int| strip_cr(segments[i]));
    let mut result: Vec<Vec<char>> = Vec::new();
    let mut i: usize = 0;
    while i + 1 < parts.len()
        invariant
            parts.len() >= 1,
            i + 1 <= parts.len(),
            rows_of(parts@) == segments,
            rows_of(result@) == ended.take(i as int),
            ended == Seq::new((segments.len() - 1) as nat, |i: int| strip_cr(segments[i])),
        decreases parts.len() - i,
    {
        let mut line = parts[i].clone();
        assert(line@ =~= parts@[i as int]@);
        assert(parts@[i as int]@ == segments[i as int]);
        let n = line.len();
        if n > 0 && line[n - 1] == '\r' {
            line.pop();
        }
        assert(line@ =~= strip_cr(segments[i as int]));
        let ghost before = rows_of(result@);
        result.push(line);
        assert(rows_of(result@) =~= before.push(strip_cr(segments[i as int])));
        assert(before.push(strip_cr(segments[i as int])) =~= ended.take(i + 1));
        i += 1;
    }
    assert(ended.take(ended.len() as int) =~= ended);
    let last = &parts[parts.len() - 1];
    assert(last@ == segments.last());
    if last.len() > 0 {
        let copy = last.clone();
        assert(copy@ =~= last@);
        let ghost before = rows_of(result@);
        result.push(copy);
        assert(rows_of(result@) =~= before.push(segments.last()));
    }
    result
}

/// Appends the characters of `more` to `out`.
pub fn push_all(out: &mut Vec<char>, more: &Vec<char>)
    ensures
        final(out)@ == old(out)@ + more@,
{
    let mut i: usize = 0;
    assert(out@ =~= old(out)@ + more@.take(0));
    while i < more.len()
        invariant
            i <= more.len(),
            out@ == old(out)@ + more@.take(i as int),
        decreases more.len() - i,
    {
        out.push(more[i]);
        assert(out@ =~= old(out)@ + more@.take(i + 1));
        i += 1;
    }
    assert(more@.take(more.len() as int) =~= more@);
}

/// The strings joined by single newline characters.
pub fn join(strings: &Vec<String>) -> (out: Vec<char>)
    ensures
        out@ == join_lines(strings_of(strings@)),
{
    let ghost all = strings_of(strings@);
    let mut out: Vec<char> = Vec::new();
    let mut i: usize = 0;
    while i < strings.len()
        invariant
            i <= strings.len(),
            all == strings_of(strings@),
            out@ == join_lines(all.take(i as int)),
        decreases strings.len() - i,
    {
        if i > 0 {
            out.push('\n');
        }
        let ghost start = out@;
        let word = chars_of(strings[i].as_str());
        push_all(&mut out, &word);
        proof {
            let next = all.take(i + 1);
            assert(next.drop_last() =~= all.take(i as int));
            assert(next.last() == word@);
            if i == 0 {
                assert(start + word@ =~= word@);
            }
        }
        i += 1;
    }
    assert(all.take(strings.len() as int) =~= all);
    out
}

/// `count` spaces.
pub open spec fn spaces(count: nat) -> Seq<char> {
    Seq::new(count, |i: int| ' ')
}

/// Each line behind `count` spaces.
pub open spec fn indented(lines: Seq<Seq<char>>, count: nat) -> Seq<Seq<char>> {
    Seq::new(lines.len(), |i: int| spaces(count) + lines[i])
}

/// The text with each of its lines behind `count` spaces, and the lines joined by
/// newlines.
pub open spec fn indent_text(s: Seq<char>, count: nat) -> Seq<char> {
    join_lines(indented(lines_of(s), count))
}

/// The character of a digit.
pub open spec fn digit_char(digit: nat) -> char {
    if digit == 0 {
        '0'
    } else if digit == 1 {
        '1'
    } else if digit == 2 {
        '2'
    } else if digit == 3 {
        '3'
    } else if digit == 4 {
        '4'
    } else if digit == 5 {
        '5'
    } else if digit == 6 {
        '6'
    } else if digit == 7 {
        '7'
    } else if digit == 8 {
        '8'
    } else {
        '9'
    }
}

/// A number in decimal digits.
pub open spec fn decimal(n: nat) -> Seq<char>
    decreases n,
{
    if n < 10 {
        seq![digit_char(n)]
    } else {
        decimal(n / 10).push(digit_char(n % 10))
    }
}

/// Appends the decimal digits of `n` to `out`.
pub fn push_decimal(n: usize, out: &mut Vec<char>)
    ensures
        final(out)@ == old(out)@ + decimal(n as nat),
    decreases n,
{
    if n >= 10 {
        push_decimal(n / 10, out);
    }
    let digit = n % 10;
    let c = if digit == 0 {
        '0'
    } else if digit == 1 {
        '1'
    } else if digit == 2 {
        '2'
    } else if digit == 3 {
        '3'
    } else if digit == 4 {
        '4'
    } else if digit == 5 {
        '5'
    } else if digit == 6 {
        '6'
    } else if digit == 7 {
        '7'
    } else if digit == 8 {
        '8'
    } else {
        '9'
    };
    out.push(c);
    proof {
        if n < 10 {
            assert(out@ =~= old(out)@ + seq![digit_char(n as nat)]);
        } else {
            assert(out@ =~= old(out)@ + decimal((n / 10) as nat).push(digit_char((n % 10) as nat)));
        }
    }
}

/// The text with each of its lines behind `count` spaces.
pub fn indent(s: &Vec<char>, count: usize) -> (out: Vec<char>)
    ensures
        out@ == indent_text(s@, count as nat),
{
    let all = lines(s);
    let ghost shifted = indented(rows_of(all@), count as nat);
    let mut out: Vec<char> = Vec::new();
    let mut i: usize = 0;
    while i < all.len()
        invariant
            i <= all.len(),
            shifted == indented(rows_of(all@), count as nat),
            out@ == join_lines(shifted.take(i as int)),
        decreases all.len() - i,
    {
        if i > 0 {
            out.push('\n');
        }
        let ghost start = out@;
        let mut k: usize = 0;
        while k < count
            invariant
                k <= count,
                out@ == start + spaces(k as nat),
            decreases count - k,
        {
            out.push(' ');
            assert(out@ =~= start + spaces((k + 1) as nat));
            k += 1;
        }
        push_all(&mut out, &all[i]);
        proof {
            let next = shifted.take(i + 1);
            assert(next.drop_last() =~= shifted.take(i as int));
            assert(next.last() == spaces(count as nat) + all@[i as int]@);
            assert(out@ =~= start + (spaces(count as nat) + all@[i as int]@));
            if i == 0 {
                assert(start + next.last() =~= next.last());
            }
        }
        i += 1;
    }
    assert(shifted.take(all.len() as int) =~= shifted);
    out
}

} // verus!
