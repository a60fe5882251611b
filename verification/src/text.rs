//! Text as sequences of characters: conversions between `String` and
//! `Vec<char>`, and the splitting of a text into lines at `'\n'`.
use vstd::prelude::*;

verus! {

/// The lines of a text: the text is cut at every `'\n'`, which belongs to
/// no line. A text always has at least one line; a text that ends with a
/// `'\n'` has an empty last line.
pub open spec fn split_lines(s: Seq<char>) -> Seq<Seq<char>>
    decreases s.len(),
{
    if s.len() == 0 {
        seq![Seq::<char>::empty()]
    } else {
        let prev = split_lines(s.drop_last());
        if s.last() == '\n' {
            prev.push(Seq::<char>::empty())
        } else {
            prev.update(prev.len() - 1, prev.last().push(s.last()))
        }
    }
}

/// The lines put back together, a `'\n'` between each two of them.
pub open spec fn join_lines(lines: Seq<Seq<char>>) -> Seq<char>
    decreases lines.len(),
{
    if lines.len() == 0 {
        Seq::<char>::empty()
    } else if lines.len() == 1 {
        lines[0]
    } else {
        join_lines(lines.drop_last()) + seq!['\n'] + lines.last()
    }
}

/// The number of `'\n'` in a text.
pub open spec fn count_newlines(s: Seq<char>) -> nat
    decreases s.len(),
{
    if s.len() == 0 {
        0
    } else {
        count_newlines(s.drop_last()) + if s.last() == '\n' { 1nat } else { 0nat }
    }
}

/// A sequence of strings seen as a sequence of character sequences.
pub open spec fn views(v: Seq<String>) -> Seq<Seq<char>> {
    v.map_values(|s: String| s@)
}

/// No line holds a `'\n'`.
pub open spec fn no_newline(line: Seq<char>) -> bool {
    forall|i: int| 0 <= i < line.len() ==> line[i] != '\n'
}

/// The text has as many lines as it has `'\n'`, plus one.
pub proof fn lemma_split_lines_len(s: Seq<char>)
    ensures
        split_lines(s).len() == count_newlines(s) + 1,
    decreases s.len(),
{
    if s.len() > 0 {
        lemma_split_lines_len(s.drop_last());
    }
}

/// No line holds a `'\n'`.
pub proof fn lemma_split_lines_no_newline(s: Seq<char>)
    ensures
        forall|i: int| 0 <= i < split_lines(s).len() ==> no_newline(#[trigger] split_lines(s)[i]),
    decreases s.len(),
{
    if s.len() > 0 {
        lemma_split_lines_no_newline(s.drop_last());
        lemma_split_lines_len(s.drop_last());
        let prev = split_lines(s.drop_last());
        if s.last() != '\n' {
            assert forall|i: int| 0 <= i < split_lines(s).len() implies no_newline(
                #[trigger] split_lines(s)[i],
            ) by {
                if i == prev.len() - 1 {
                    assert(no_newline(prev[i]));
                    let l = prev[i].push(s.last());
                    assert forall|j: int| 0 <= j < l.len() implies l[j] != '\n' by {
                        if j < prev[i].len() {
                            assert(l[j] == prev[i][j]);
                        }
                    }
                } else {
                    assert(split_lines(s)[i] == prev[i]);
                }
            }
        } else {
            assert forall|i: int| 0 <= i < split_lines(s).len() implies no_newline(
                #[trigger] split_lines(s)[i],
            ) by {
                if i < prev.len() {
                    assert(split_lines(s)[i] == prev[i]);
                }
            }
        }
    }
}

proof fn lemma_join_update_last(lines: Seq<Seq<char>>, c: char)
    requires
        lines.len() >= 1,
    ensures
        join_lines(lines.update(lines.len() - 1, lines.last().push(c))) == join_lines(lines).push(
            c,
        ),
{
    let u = lines.update(lines.len() - 1, lines.last().push(c));
    if lines.len() >= 2 {
        assert(u.drop_last() == lines.drop_last());
    }
}

/// Splitting a text into lines and joining them again gives back the text.
pub proof fn lemma_join_split(s: Seq<char>)
    ensures
        join_lines(split_lines(s)) == s,
    decreases s.len(),
{
    if s.len() > 0 {
        lemma_join_split(s.drop_last());
        lemma_split_lines_len(s.drop_last());
        let prev = split_lines(s.drop_last());
        if s.last() == '\n' {
            assert(prev.push(Seq::<char>::empty()).drop_last() == prev);
            assert(s == s.drop_last() + seq!['\n'] + Seq::<char>::empty());
        } else {
            lemma_join_update_last(prev, s.last());
            assert(s == s.drop_last().push(s.last()));
        }
    }
}

/// A text without `'\n'` is a single line.
pub proof fn lemma_split_single_line(s: Seq<char>)
    requires
        no_newline(s),
    ensures
        split_lines(s) == seq![s],
    decreases s.len(),
{
    if s.len() > 0 {
        let p = s.drop_last();
        assert(no_newline(p)) by {
            assert forall|i: int| 0 <= i < p.len() implies p[i] != '\n' by {
                assert(p[i] == s[i]);
            }
        }
        lemma_split_single_line(p);
        assert(s.last() == s[s.len() - 1]);
        assert(p.push(s.last()) == s);
        assert(seq![p].update(0, s) =~= seq![s]);
    } else {
        assert(s =~= Seq::<char>::empty());
        assert(seq![s] =~= seq![Seq::<char>::empty()]);
    }
}

/// Splitting `a + "\n" + b`, where `b` has no `'\n'`, gives the lines of
/// `a` followed by `b`.
pub proof fn lemma_split_append_line(a: Seq<char>, b: Seq<char>)
    requires
        no_newline(b),
    ensures
        split_lines(a + seq!['\n'] + b) == split_lines(a).push(b),
    decreases b.len(),
{
    let t = a + seq!['\n'] + b;
    if b.len() == 0 {
        assert(t.drop_last() == a);
        assert(t.last() == '\n');
        assert(b =~= Seq::<char>::empty());
    } else {
        let b0 = b.drop_last();
        assert(no_newline(b0)) by {
            assert forall|i: int| 0 <= i < b0.len() implies b0[i] != '\n' by {
                assert(b0[i] == b[i]);
            }
        }
        lemma_split_append_line(a, b0);
        assert(t.drop_last() == a + seq!['\n'] + b0);
        assert(t.last() == b[b.len() - 1]);
        assert(b0.push(b.last()) == b);
        let sa = split_lines(a);
        assert(sa.push(b0).update(sa.len() as int, b0.push(b.last())) =~= sa.push(b));
    }
}

/// Joining lines that hold no `'\n'` and splitting the result gives the
/// lines back.
pub proof fn lemma_split_join(lines: Seq<Seq<char>>)
    requires
        lines.len() >= 1,
        forall|i: int| 0 <= i < lines.len() ==> no_newline(#[trigger] lines[i]),
    ensures
        split_lines(join_lines(lines)) == lines,
    decreases lines.len(),
{
    if lines.len() == 1 {
        lemma_split_single_line(lines[0]);
    } else {
        let p = lines.drop_last();
        assert forall|i: int| 0 <= i < p.len() implies no_newline(#[trigger] p[i]) by {
            assert(p[i] == lines[i]);
        }
        lemma_split_join(p);
        assert(no_newline(lines[lines.len() - 1]));
        lemma_split_append_line(join_lines(p), lines.last());
        assert(p.push(lines.last()) == lines);
    }
}

/// Replacing the last line by another changes the joined length by the
/// difference of their lengths.
pub proof fn lemma_join_update_last_len(lines: Seq<Seq<char>>, w: Seq<char>)
    requires
        lines.len() >= 1,
    ensures
        join_lines(lines.update(lines.len() - 1, w)).len() == join_lines(lines).len()
            - lines.last().len() + w.len(),
{
    let u = lines.update(lines.len() - 1, w);
    if lines.len() >= 2 {
        assert(u.drop_last() == lines.drop_last());
    }
}

/// The first `k` lines joined are no longer than all of them joined.
pub proof fn lemma_join_take_len(lines: Seq<Seq<char>>, k: int)
    requires
        1 <= k <= lines.len(),
    ensures
        join_lines(lines.take(k)).len() <= join_lines(lines).len(),
    decreases lines.len(),
{
    if k == lines.len() {
        assert(lines.take(k) == lines);
    } else {
        let p = lines.drop_last();
        lemma_join_take_len(p, k);
        assert(p.take(k) == lines.take(k));
    }
}

/// Joining two non-empty lists of lines: the first joined, a `'\n'`, the
/// second joined.
pub proof fn lemma_join_concat(a: Seq<Seq<char>>, b: Seq<Seq<char>>)
    requires
        a.len() >= 1,
        b.len() >= 1,
    ensures
        join_lines(a + b) == join_lines(a) + seq!['\n'] + join_lines(b),
    decreases b.len(),
{
    if b.len() == 1 {
        assert((a + b).drop_last() == a);
        assert((a + b).last() == b[0]);
    } else {
        lemma_join_concat(a, b.drop_last());
        assert((a + b).drop_last() == a + b.drop_last());
        assert((a + b).last() == b.last());
        assert(join_lines(a + b) =~= join_lines(a) + seq!['\n'] + join_lines(b));
    }
}

/// The text before a line: the lines above it joined, and a `'\n'` when
/// there is any.
pub open spec fn text_before(above: Seq<Seq<char>>) -> Seq<char> {
    if above.len() == 0 {
        Seq::<char>::empty()
    } else {
        join_lines(above) + seq!['\n']
    }
}

/// The text after a line: a `'\n'` and the lines below it joined, when
/// there is any.
pub open spec fn text_after(below: Seq<Seq<char>>) -> Seq<char> {
    if below.len() == 0 {
        Seq::<char>::empty()
    } else {
        seq!['\n'] + join_lines(below)
    }
}

/// The joined text around one line.
pub proof fn lemma_join_mid(above: Seq<Seq<char>>, mid: Seq<char>, below: Seq<Seq<char>>)
    ensures
        join_lines(above + seq![mid] + below) == text_before(above) + mid + text_after(below),
{
    let m = seq![mid];
    assert(join_lines(m) == mid);
    if below.len() == 0 {
        assert(above + m + below == above + m);
        if above.len() == 0 {
            assert(above + m == m);
        } else {
            lemma_join_concat(above, m);
        }
    } else {
        lemma_join_concat(m, below);
        if above.len() == 0 {
            assert(above + m + below == m + below);
        } else {
            assert(above + m + below == above + (m + below));
            lemma_join_concat(above, m + below);
        }
    }
    assert(join_lines(above + seq![mid] + below) =~= text_before(above) + mid + text_after(
        below,
    ));
}

/// Writes a character at the end of a string.
///
/// Trusted: calls `String::push` of std, whose documentation says that it
/// appends the given character to the end of the string.
#[verifier::external_body]
fn push_char(s: &mut String, c: char)
    ensures
        final(s)@ == old(s)@.push(c),
{
    s.push(c);
}

/// The characters of a string.
pub fn chars_of(s: &str) -> (r: Vec<char>)
    ensures
        r@ == s@,
{
    let mut r: Vec<char> = Vec::new();
    for c in it: s.chars()
        invariant
            r@ == it.seq().take(it.index() as int),
            it.seq() == s@,
    {
        r.push(c);
    }
    r
}

/// The number of characters of a string.
pub fn char_count(s: &str) -> (r: usize)
    ensures
        r == s@.len(),
{
    chars_of(s).len()
}

/// A string made of the given characters.
pub fn string_of(v: &[char]) -> (s: String)
    ensures
        s@ == v@,
{
    let mut s = String::new();
    let mut i: usize = 0;
    while i < v.len()
        invariant
            i <= v.len(),
            s@ == v@.take(i as int),
        decreases v.len() - i,
    {
        push_char(&mut s, v[i]);
        assert(v@.take(i as int + 1) == v@.take(i as int).push(v@[i as int]));
        i += 1;
    }
    assert(v@.take(v.len() as int) == v@);
    s
}

/// The characters `v[from..to]`.
pub fn sub_chars(v: &Vec<char>, from: usize, to: usize) -> (r: Vec<char>)
    requires
        from <= to <= v.len(),
    ensures
        r@ == v@.subrange(from as int, to as int),
{
    let mut r: Vec<char> = Vec::new();
    let mut i: usize = from;
    while i < to
        invariant
            from <= i <= to <= v.len(),
            r@ == v@.subrange(from as int, i as int),
        decreases to - i,
    {
        r.push(v[i]);
        assert(v@.subrange(from as int, i + 1) == v@.subrange(from as int, i as int).push(
            v@[i as int],
        ));
        i += 1;
    }
    r
}

/// Appends the characters of `w` to `v`.
pub fn append_chars(v: &mut Vec<char>, w: &Vec<char>)
    ensures
        final(v)@ == old(v)@ + w@,
{
    let mut i: usize = 0;
    while i < w.len()
        invariant
            i <= w.len(),
            v@ == old(v)@ + w@.take(i as int),
        decreases w.len() - i,
    {
        v.push(w[i]);
        assert(w@.take(i as int + 1) == w@.take(i as int).push(w@[i as int]));
        i += 1;
    }
    assert(w@.take(w.len() as int) == w@);
}

/// The lines of a text, as strings.
pub fn split_into_lines(text: &Vec<char>) -> (r: Vec<String>)
    ensures
        views(r@) == split_lines(text@),
{
    let mut done: Vec<String> = Vec::new();
    let mut current: Vec<char> = Vec::new();
    let mut i: usize = 0;
    while i < text.len()
        invariant
            i <= text.len(),
            split_lines(text@.take(i as int)) == views(done@).push(current@),
        decreases text.len() - i,
    {
        let ghost before = text@.take(i as int);
        let c = text[i];
        assert(text@.take(i as int + 1).drop_last() == before);
        assert(text@.take(i as int + 1).last() == c);
        if c == '\n' {
            let line = string_of(current.as_slice());
            proof {
                assert(views(done@.push(line)) == views(done@).push(current@));
            }
            done.push(line);
            current = Vec::new();
        } else {
            current.push(c);
        }
        i += 1;
    }
    assert(text@.take(text.len() as int) == text@);
    let last = string_of(current.as_slice());
    proof {
        assert(views(done@.push(last)) == views(done@).push(current@));
    }
    done.push(last);
    done
}

/// The lines joined into one text, a `'\n'` between each two of them.
pub fn join_with_newlines(lines: &Vec<String>) -> (r: Vec<char>)
    ensures
        r@ == join_lines(views(lines@)),
{
    let mut r: Vec<char> = Vec::new();
    let mut i: usize = 0;
    while i < lines.len()
        invariant
            i <= lines.len(),
            r@ == join_lines(views(lines@).take(i as int)),
        decreases lines.len() - i,
    {
        let ghost prev = views(lines@).take(i as int);
        let ghost next = views(lines@).take(i as int + 1);
        assert(next.drop_last() == prev);
        assert(next.last() == lines@[i as int]@);
        if i > 0 {
            r.push('\n');
        }
        let line = chars_of(lines[i].as_str());
        append_chars(&mut r, &line);
        proof {
            if i == 0 {
                assert(next == seq![lines@[0]@]);
            } else {
                assert(r@ == join_lines(prev) + seq!['\n'] + next.last());
            }
        }
        i += 1;
    }
    assert(views(lines@).take(lines.len() as int) == views(lines@));
    r
}

/// The number of `'\n'` in a text.
pub fn newline_count(text: &Vec<char>) -> (r: usize)
    ensures
        r == count_newlines(text@),
        r <= text@.len(),
{
    let mut n: usize = 0;
    let mut i: usize = 0;
    while i < text.len()
        invariant
            i <= text.len(),
            n == count_newlines(text@.take(i as int)),
            n <= i,
        decreases text.len() - i,
    {
        assert(text@.take(i as int + 1).drop_last() == text@.take(i as int));
        if text[i] == '\n' {
            n += 1;
        }
        i += 1;
    }
    assert(text@.take(text.len() as int) == text@);
    n
}

} // verus!
