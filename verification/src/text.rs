//! Character-level helpers on strings, each with an exact contract over
//! `Seq<char>`: prefixes, Unicode white space, splitting into words and
//! lines, and joining words.

use vstd::prelude::*;

verus! {

/// Appends one character to a string (`String::push`).
/// Trusted: the standard library documents that `push` appends the given
/// `char` to the end of the string; nothing else is claimed.
#[verifier::external_body]
pub(crate) fn push_char(s: &mut String, c: char)
    ensures
        final(s)@ == old(s)@.push(c),
{
    s.push(c)
}

/// The characters of `s`, in order.
pub fn str_chars(s: &str) -> (r: Vec<char>)
    ensures
        r@ == s@,
{
    let mut r: Vec<char> = Vec::new();
    for c in it: s.chars()
        invariant
            r@ == it.seq().take(it.index() as int),
    {
        r.push(c);
    }
    r
}

/// The string made of the characters of `cs`, in order.
pub fn string_from_chars(cs: &[char]) -> (s: String)
    ensures
        s@ == cs@,
{
    let mut s = String::new();
    let n = cs.len();
    for i in 0..n
        invariant
            n == cs@.len(),
            s@ == cs@.take(i as int),
    {
        push_char(&mut s, cs[i]);
        assert(cs@.take(i + 1) == cs@.take(i as int).push(cs@[i as int]));
    }
    assert(cs@.take(n as int) == cs@);
    s
}

/// `p` is a prefix of `s`.
pub open spec fn has_prefix(s: Seq<char>, p: Seq<char>) -> bool {
    p.len() <= s.len() && s.take(p.len() as int) == p
}

/// Whether `p` is a prefix of `s`.
pub fn starts_with(s: &[char], p: &[char]) -> (b: bool)
    ensures
        b == has_prefix(s@, p@),
{
    if p.len() > s.len() {
        return false;
    }
    let n = p.len();
    for i in 0..n
        invariant
            n == p@.len(),
            n <= s@.len(),
            forall|j: int| 0 <= j < i ==> s@[j] == p@[j],
    {
        if s[i] != p[i] {
            assert(s@.take(n as int)[i as int] != p@[i as int]);
            return false;
        }
    }
    assert(s@.take(n as int) =~= p@);
    true
}

/// The characters with the Unicode `White_Space` property, which is what
/// `char::is_whitespace` and `str::split_whitespace` go by.
pub open spec fn is_white_space(c: char) -> bool {
    ||| ('\u{9}' <= c && c <= '\u{d}')
    ||| c == ' '
    ||| c == '\u{85}'
    ||| c == '\u{a0}'
    ||| c == '\u{1680}'
    ||| ('\u{2000}' <= c && c <= '\u{200a}')
    ||| c == '\u{2028}'
    ||| c == '\u{2029}'
    ||| c == '\u{202f}'
    ||| c == '\u{205f}'
    ||| c == '\u{3000}'
}

/// Whether `c` is Unicode white space.
pub fn white_space(c: char) -> (b: bool)
    ensures
        b == is_white_space(c),
{
    ('\u{9}' <= c && c <= '\u{d}') || c == ' ' || c == '\u{85}' || c == '\u{a0}' || c
        == '\u{1680}' || ('\u{2000}' <= c && c <= '\u{200a}') || c == '\u{2028}' || c
        == '\u{2029}' || c == '\u{202f}' || c == '\u{205f}' || c == '\u{3000}'
}

/// The words of `s` when the current, unfinished word is `cur`: the maximal
/// runs of characters that are not white space.
pub open spec fn words_from(s: Seq<char>, cur: Seq<char>) -> Seq<Seq<char>>
    decreases s.len(),
{
    if s.len() == 0 {
        if cur.len() == 0 {
            seq![]
        } else {
            seq![cur]
        }
    } else if is_white_space(s[0]) {
        (if cur.len() == 0 {
            seq![]
        } else {
            seq![cur]
        }) + words_from(s.drop_first(), seq![])
    } else {
        words_from(s.drop_first(), cur.push(s[0]))
    }
}

/// The words of `s`, as `str::split_whitespace` yields them.
pub open spec fn words(s: Seq<char>) -> Seq<Seq<char>> {
    words_from(s, seq![])
}

/// The character sequences held by a vector of character vectors.
pub open spec fn char_rows(v: Seq<Vec<char>>) -> Seq<Seq<char>> {
    v.map_values(|w: Vec<char>| w@)
}

/// Splits `s` into its words.
pub fn split_whitespace(s: &[char]) -> (r: Vec<Vec<char>>)
    ensures
        char_rows(r@) == words(s@),
{
    let mut r: Vec<Vec<char>> = Vec::new();
    let mut cur: Vec<char> = Vec::new();
    let n = s.len();
    assert(s@.skip(0) == s@);
    for i in 0..n
        invariant
            n == s@.len(),
            words(s@) == char_rows(r@) + words_from(s@.skip(i as int), cur@),
    {
        let ghost rest = s@.skip(i as int);
        assert(rest[0] == s@[i as int]);
        assert(rest.drop_first() == s@.skip(i + 1));
        let c = s[i];
        if white_space(c) {
            if cur.len() > 0 {
                let ghost old_r = char_rows(r@);
                let w = cur;
                r.push(w);
                assert(char_rows(r@) =~= old_r.push(w@));
                cur = Vec::new();
                assert(words_from(rest, w@) == seq![w@] + words_from(
                    rest.drop_first(),
                    seq![],
                ));
                assert(old_r + (seq![w@] + words_from(rest.drop_first(), seq![])) == old_r.push(
                    w@,
                ) + words_from(rest.drop_first(), seq![]));
            } else {
                assert(cur@ == Seq::<char>::empty());
                assert(words_from(rest, cur@) == Seq::<Seq<char>>::empty() + words_from(
                    rest.drop_first(),
                    seq![],
                ));
                assert(Seq::<Seq<char>>::empty() + words_from(rest.drop_first(), seq![])
                    == words_from(rest.drop_first(), seq![]));
                assert(cur@ == Seq::<char>::empty());
            }
        } else {
            cur.push(c);
        }
    }
    assert(s@.skip(n as int) == Seq::<char>::empty());
    if cur.len() > 0 {
        let ghost old_r = char_rows(r@);
        r.push(cur);
        assert(char_rows(r@) =~= old_r.push(cur@));
    } else {
        assert(char_rows(r@) + Seq::<Seq<char>>::empty() == char_rows(r@));
    }
    r
}

/// Words joined with one space between each two.
pub open spec fn join_spaced(ws: Seq<Seq<char>>) -> Seq<char>
    decreases ws.len(),
{
    if ws.len() == 0 {
        seq![]
    } else if ws.len() == 1 {
        ws[0]
    } else {
        join_spaced(ws.drop_last()) + seq![' '] + ws.last()
    }
}

/// Joins the words `ws[from..]` with single spaces, as `[..].join(" ")` does.
pub fn join_spaced_from(ws: &Vec<Vec<char>>, from: usize) -> (r: Vec<char>)
    requires
        from <= ws@.len(),
    ensures
        r@ == join_spaced(char_rows(ws@).skip(from as int)),
{
    let mut r: Vec<char> = Vec::new();
    let n = ws.len();
    let ghost all = char_rows(ws@);
    for i in from..n
        invariant
            n == ws@.len(),
            all == char_rows(ws@),
            from <= n,
            r@ == join_spaced(all.subrange(from as int, i as int)),
    {
        let ghost sub = all.subrange(from as int, i + 1);
        assert(sub.drop_last() == all.subrange(from as int, i as int));
        assert(sub.last() == ws@[i as int]@);
        if i > from {
            r.push(' ');
        } else {
            assert(sub.len() == 1);
        }
        let w = &ws[i];
        let m = w.len();
        let ghost before = r@;
        for j in 0..m
            invariant
                m == w@.len(),
                r@ == before + w@.take(j as int),
        {
            r.push(w[j]);
            assert(w@.take(j + 1) == w@.take(j as int).push(w@[j as int]));
        }
        assert(w@.take(m as int) == w@);
        if i == from {
            assert(before == Seq::<char>::empty());
            assert(r@ == w@);
        }
    }
    assert(all.subrange(from as int, n as int) == all.skip(from as int));
    r
}

/// `l` without one trailing carriage return, if it has one.
pub open spec fn strip_cr(l: Seq<char>) -> Seq<char> {
    if l.len() > 0 && l.last() == '\r' {
        l.drop_last()
    } else {
        l
    }
}

/// The lines of `s` when the current, unfinished line is `cur`: a line ends
/// at each `'\n'`, which is dropped together with one `'\r'` just before
/// it; the last line needs no ending, and an empty one after the last
/// `'\n'` is not a line.
pub open spec fn lines_from(s: Seq<char>, cur: Seq<char>) -> Seq<Seq<char>>
    decreases s.len(),
{
    if s.len() == 0 {
        if cur.len() == 0 {
            seq![]
        } else {
            seq![cur]
        }
    } else if s[0] == '\n' {
        seq![strip_cr(cur)] + lines_from(s.drop_first(), seq![])
    } else {
        lines_from(s.drop_first(), cur.push(s[0]))
    }
}

/// The lines of `s`, as `str::lines` yields them.
pub open spec fn lines_of(s: Seq<char>) -> Seq<Seq<char>> {
    lines_from(s, seq![])
}

/// Splits `s` into its lines.
pub fn split_lines(s: &[char]) -> (r: Vec<Vec<char>>)
    ensures
        char_rows(r@) == lines_of(s@),
{
    let mut r: Vec<Vec<char>> = Vec::new();
    let mut cur: Vec<char> = Vec::new();
    let n = s.len();
    assert(s@.skip(0) == s@);
    for i in 0..n
        invariant
            n == s@.len(),
            lines_of(s@) == char_rows(r@) + lines_from(s@.skip(i as int), cur@),
    {
        let ghost rest = s@.skip(i as int);
        assert(rest[0] == s@[i as int]);
        assert(rest.drop_first() == s@.skip(i + 1));
        let c = s[i];
        if c == '\n' {
            let ghost old_r = char_rows(r@);
            let mut line = cur;
            let len = line.len();
            let ghost unstripped = line@;
            if len > 0 && line[len - 1] == '\r' {
                line.pop();
            }
            assert(line@ =~= strip_cr(unstripped));
            let ghost stripped = line@;
            r.push(line);
            assert(char_rows(r@) =~= old_r.push(stripped));
            cur = Vec::new();
            assert(old_r + (seq![stripped] + lines_from(rest.drop_first(), seq![])) == old_r.push(
                stripped,
            ) + lines_from(rest.drop_first(), seq![]));
        } else {
            cur.push(c);
        }
    }
    assert(s@.skip(n as int) == Seq::<char>::empty());
    if cur.len() > 0 {
        let ghost old_r = char_rows(r@);
        r.push(cur);
        assert(char_rows(r@) =~= old_r.push(cur@));
    } else {
        assert(char_rows(r@) + Seq::<Seq<char>>::empty() == char_rows(r@));
    }
    r
}

proof fn lemma_words_from_nonempty(s: Seq<char>, cur: Seq<char>)
    ensures
        forall|i: int|
            0 <= i < words_from(s, cur).len() ==> (#[trigger] words_from(s, cur)[i]).len() > 0,
    decreases s.len(),
{
    if s.len() == 0 {
        if cur.len() > 0 {
            assert(words_from(s, cur) == seq![cur]);
            assert(seq![cur][0] == cur);
        } else {
            assert(words_from(s, cur) == Seq::<Seq<char>>::empty());
        }
    } else {
        if is_white_space(s[0]) {
            lemma_words_from_nonempty(s.drop_first(), seq![]);
            let head: Seq<Seq<char>> = if cur.len() == 0 {
                seq![]
            } else {
                seq![cur]
            };
            let all = head + words_from(s.drop_first(), seq![]);
            assert(words_from(s, cur) == all);
            assert forall|i: int| 0 <= i < all.len() implies (#[trigger] all[i]).len() > 0 by {
                if i < head.len() {
                    assert(head[i] == cur);
                    assert(all[i] == head[i]);
                } else {
                    assert(all[i] == words_from(s.drop_first(), seq![])[i - head.len()]);
                }
            }
        } else {
            lemma_words_from_nonempty(s.drop_first(), cur.push(s[0]));
            assert(words_from(s, cur) == words_from(s.drop_first(), cur.push(s[0])));
        }
    }
}

/// No word is empty.
pub proof fn lemma_words_nonempty(s: Seq<char>)
    ensures
        forall|i: int| 0 <= i < words(s).len() ==> (#[trigger] words(s)[i]).len() > 0,
{
    lemma_words_from_nonempty(s, seq![]);
}

/// Joining at least one non-empty word gives a non-empty text.
pub proof fn lemma_join_nonempty(ws: Seq<Seq<char>>)
    requires
        ws.len() > 0,
        ws[0].len() > 0,
    ensures
        join_spaced(ws).len() > 0,
    decreases ws.len(),
{
    if ws.len() > 1 {
        lemma_join_nonempty(ws.drop_last());
    }
}

proof fn lemma_lines_from_final_newline(s: Seq<char>, cur: Seq<char>)
    requires
        s.len() > 0 ==> (s.last() != '\n' && s.last() != '\r'),
        s.len() == 0 ==> (cur.len() > 0 && cur.last() != '\r'),
    ensures
        lines_from(s.push('\n'), cur) == lines_from(s, cur),
    decreases s.len(),
{
    let t = s.push('\n');
    if s.len() == 0 {
        assert(t.drop_first() =~= Seq::<char>::empty());
        assert(t[0] == '\n');
        assert(strip_cr(cur) == cur);
        assert(lines_from(t.drop_first(), seq![]) == Seq::<Seq<char>>::empty());
        assert(lines_from(t, cur) == seq![cur] + Seq::<Seq<char>>::empty());
        assert(seq![cur] + Seq::<Seq<char>>::empty() == seq![cur]);
    } else {
        assert(t[0] == s[0]);
        assert(t.drop_first() =~= s.drop_first().push('\n'));
        if s[0] == '\n' {
            assert(s.drop_first().len() > 0);
            assert(s.drop_first().last() == s.last());
            lemma_lines_from_final_newline(s.drop_first(), seq![]);
        } else {
            if s.drop_first().len() > 0 {
                assert(s.drop_first().last() == s.last());
            } else {
                assert(cur.push(s[0]).last() == s.last());
            }
            lemma_lines_from_final_newline(s.drop_first(), cur.push(s[0]));
        }
    }
}

/// A final line ending changes nothing: a text that does not already end in
/// a line ending (nor in a carriage return) has the same lines with a
/// `'\n'` appended.
pub proof fn lemma_final_newline(s: Seq<char>)
    requires
        s.len() > 0,
        s.last() != '\n',
        s.last() != '\r',
    ensures
        lines_of(s.push('\n')) == lines_of(s),
{
    lemma_lines_from_final_newline(s, seq![]);
}

/// `w` has no white space.
pub open spec fn no_white_space(w: Seq<char>) -> bool {
    forall|i: int| 0 <= i < w.len() ==> !is_white_space(#[trigger] w[i])
}

proof fn lemma_words_from_clean(s: Seq<char>, cur: Seq<char>)
    requires
        no_white_space(cur),
    ensures
        forall|i: int|
            0 <= i < words_from(s, cur).len() ==> no_white_space(#[trigger] words_from(s, cur)[i]),
    decreases s.len(),
{
    if s.len() == 0 {
        if cur.len() > 0 {
            assert(words_from(s, cur) == seq![cur]);
            assert(seq![cur][0] == cur);
        } else {
            assert(words_from(s, cur) == Seq::<Seq<char>>::empty());
        }
    } else if is_white_space(s[0]) {
        lemma_words_from_clean(s.drop_first(), seq![]);
        let head: Seq<Seq<char>> = if cur.len() == 0 {
            seq![]
        } else {
            seq![cur]
        };
        let all = head + words_from(s.drop_first(), seq![]);
        assert(words_from(s, cur) == all);
        assert forall|i: int| 0 <= i < all.len() implies no_white_space(#[trigger] all[i]) by {
            if i < head.len() {
                assert(head[i] == cur);
                assert(all[i] == head[i]);
            } else {
                assert(all[i] == words_from(s.drop_first(), seq![])[i - head.len()]);
            }
        }
    } else {
        let c2 = cur.push(s[0]);
        assert forall|i: int| 0 <= i < c2.len() implies !is_white_space(#[trigger] c2[i]) by {
            if i < cur.len() {
                assert(c2[i] == cur[i]);
            }
        }
        lemma_words_from_clean(s.drop_first(), c2);
        assert(words_from(s, cur) == words_from(s.drop_first(), c2));
    }
}

/// No word holds white space.
pub proof fn lemma_words_clean(s: Seq<char>)
    ensures
        forall|i: int| 0 <= i < words(s).len() ==> no_white_space(#[trigger] words(s)[i]),
{
    lemma_words_from_clean(s, seq![]);
}

proof fn lemma_words_from_space(x: Seq<char>, y: Seq<char>, cur: Seq<char>)
    ensures
        words_from(x + seq![' '] + y, cur) == words_from(x, cur) + words_from(y, seq![]),
    decreases x.len(),
{
    let t = x + seq![' '] + y;
    assert(is_white_space(' '));
    if x.len() == 0 {
        assert(t[0] == ' ');
        assert(t.drop_first() =~= y);
        if cur.len() == 0 {
            assert(Seq::<Seq<char>>::empty() + words_from(y, seq![]) == words_from(y, seq![]));
        }
    } else {
        assert(t[0] == x[0]);
        assert(t.drop_first() =~= x.drop_first() + seq![' '] + y);
        if is_white_space(x[0]) {
            lemma_words_from_space(x.drop_first(), y, seq![]);
            let head: Seq<Seq<char>> = if cur.len() == 0 {
                seq![]
            } else {
                seq![cur]
            };
            assert(head + (words_from(x.drop_first(), seq![]) + words_from(y, seq![])) =~= (head
                + words_from(x.drop_first(), seq![])) + words_from(y, seq![]));
        } else {
            lemma_words_from_space(x.drop_first(), y, cur.push(x[0]));
        }
    }
}

proof fn lemma_words_from_word(w: Seq<char>, cur: Seq<char>)
    requires
        no_white_space(w),
        cur.len() + w.len() > 0,
    ensures
        words_from(w, cur) == seq![cur + w],
    decreases w.len(),
{
    if w.len() == 0 {
        assert(cur + w =~= cur);
    } else {
        assert(!is_white_space(w[0]));
        let rest = w.drop_first();
        assert forall|i: int| 0 <= i < rest.len() implies !is_white_space(#[trigger] rest[i]) by {
            assert(rest[i] == w[i + 1]);
        }
        lemma_words_from_word(rest, cur.push(w[0]));
        assert(cur.push(w[0]) + rest =~= cur + w);
    }
}

/// Splitting words joined by single spaces gives the words back, when none
/// of them is empty or holds white space.
pub proof fn lemma_words_of_joined(ws: Seq<Seq<char>>)
    requires
        forall|i: int| 0 <= i < ws.len() ==> (#[trigger] ws[i]).len() > 0,
        forall|i: int| 0 <= i < ws.len() ==> no_white_space(#[trigger] ws[i]),
    ensures
        words(join_spaced(ws)) == ws,
    decreases ws.len(),
{
    if ws.len() == 0 {
        assert(words(join_spaced(ws)) =~= ws);
    } else if ws.len() == 1 {
        assert(ws[0].len() > 0);
        assert(no_white_space(ws[0]));
        lemma_words_from_word(ws[0], seq![]);
        assert(Seq::<char>::empty() + ws[0] =~= ws[0]);
        assert(seq![ws[0]] =~= ws);
    } else {
        let init = ws.drop_last();
        assert forall|i: int| 0 <= i < init.len() implies (#[trigger] init[i]).len() > 0 by {
            assert(init[i] == ws[i]);
        }
        assert forall|i: int| 0 <= i < init.len() implies no_white_space(#[trigger] init[i]) by {
            assert(init[i] == ws[i]);
        }
        lemma_words_of_joined(init);
        lemma_words_from_space(join_spaced(init), ws.last(), seq![]);
        assert(ws.last() == ws[ws.len() - 1]);
        lemma_words_from_word(ws.last(), seq![]);
        assert(Seq::<char>::empty() + ws.last() =~= ws.last());
        assert(init.push(ws.last()) =~= ws);
        assert(init + seq![ws.last()] =~= ws);
    }
}

} // verus!
