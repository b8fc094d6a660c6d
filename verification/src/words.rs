//! Splitting text into lines and into whitespace-separated words, as `str::lines`
//! and `str::split_whitespace` do.

use vstd::prelude::*;

verus! {

/// A character with the Unicode `White_Space` property, as `char::is_whitespace`
/// tests it.
pub open spec fn is_space(c: char) -> bool {
    ||| c == ' '
    ||| '\t' <= c <= '\r'
    ||| c == '\u{85}'
    ||| c == '\u{a0}'
    ||| c == '\u{1680}'
    ||| '\u{2000}' <= c <= '\u{200a}'
    ||| c == '\u{2028}'
    ||| c == '\u{2029}'
    ||| c == '\u{202f}'
    ||| c == '\u{205f}'
    ||| c == '\u{3000}'
}

/// The words of `s`: its maximal runs of non-space characters, in order.
pub open spec fn words(s: Seq<char>) -> Seq<Seq<char>>
    decreases s.len(),
{
    if s.len() == 0 {
        Seq::empty()
    } else {
        let w = words(s.drop_last());
        let c = s.last();
        if is_space(c) {
            w
        } else if s.len() >= 2 && !is_space(s[s.len() - 2]) {
            w.update(w.len() - 1, w.last().push(c))
        } else {
            w.push(seq![c])
        }
    }
}

/// The pieces of `s` between its `'\n'` characters: one more than there are of them.
pub open spec fn segments(s: Seq<char>) -> Seq<Seq<char>>
    decreases s.len(),
{
    if s.len() == 0 {
        seq![Seq::<char>::empty()]
    } else {
        let p = segments(s.drop_last());
        let c = s.last();
        if c == '\n' {
            p.push(Seq::empty())
        } else {
            p.update(p.len() - 1, p.last().push(c))
        }
    }
}

/// A line without the `'\r'` of a `"\r\n"` ending.
pub open spec fn strip_cr(l: Seq<char>) -> Seq<char> {
    if l.len() > 0 && l.last() == '\r' {
        l.drop_last()
    } else {
        l
    }
}

/// The lines of `s`: split at each `'\n'`, with the `'\r'` before a `'\n'` removed;
/// a final line ending is optional, and the empty text has no lines.
pub open spec fn lines(s: Seq<char>) -> Seq<Seq<char>> {
    let seg = segments(s);
    let body = seg.drop_last().map_values(|l: Seq<char>| strip_cr(l));
    if seg.last().len() == 0 {
        body
    } else {
        body.push(seg.last())
    }
}

/// The views of a list of character vectors.
pub open spec fn char_rows(v: Seq<Vec<char>>) -> Seq<Seq<char>> {
    v.map_values(|r: Vec<char>| r@)
}

/// Every word is non-empty and holds no space.
pub proof fn lemma_words_solid(s: Seq<char>)
    ensures
        forall|k: int| 0 <= k < words(s).len() ==> (#[trigger] words(s)[k]).len() > 0,
        forall|k: int, i: int| 0 <= k < words(s).len() && 0 <= i < words(s)[k].len() ==> !is_space(#[trigger] words(s)[k][i]),
        s.len() > 0 && !is_space(s.last()) ==> words(s).len() > 0,
    decreases s.len(),
{
    if s.len() > 0 {
        let p = s.drop_last();
        lemma_words_solid(p);
        let w = words(p);
        let c = s.last();
        if !is_space(c) && s.len() >= 2 && !is_space(s[s.len() - 2]) {
            assert(p.last() == s[s.len() - 2]);
            let nw = words(s);
            assert forall|k: int, i: int| 0 <= k < nw.len() && 0 <= i < nw[k].len() implies !is_space(#[trigger] nw[k][i]) by {
                if k < w.len() - 1 {
                    assert(nw[k] == w[k]);
                } else if i < w.last().len() {
                    assert(nw[k][i] == w.last()[i]);
                    assert(w.last() == w[w.len() - 1]);
                }
            }
            assert forall|k: int| 0 <= k < nw.len() implies (#[trigger] nw[k]).len() > 0 by {
                if k < w.len() - 1 {
                    assert(nw[k] == w[k]);
                }
            }
        } else if !is_space(c) {
            let nw = words(s);
            assert forall|k: int, i: int| 0 <= k < nw.len() && 0 <= i < nw[k].len() implies !is_space(#[trigger] nw[k][i]) by {
                if k < w.len() {
                    assert(nw[k] == w[k]);
                }
            }
            assert forall|k: int| 0 <= k < nw.len() implies (#[trigger] nw[k]).len() > 0 by {
                if k < w.len() {
                    assert(nw[k] == w[k]);
                }
            }
        }
    }
}

/// `char::is_whitespace`.
pub fn is_space_char(c: char) -> (r: bool)
    ensures
        r == is_space(c),
{
    c == ' ' || ('\t' <= c && c <= '\r') || c == '\u{85}' || c == '\u{a0}' || c == '\u{1680}' || ('\u{2000}' <= c
        && c <= '\u{200a}') || c == '\u{2028}' || c == '\u{2029}' || c == '\u{202f}' || c == '\u{205f}' || c
        == '\u{3000}'
}

/// The whitespace-separated words of `s`, as `split_whitespace` gives them.
pub fn split_words(s: &Vec<char>) -> (r: Vec<Vec<char>>)
    ensures
        char_rows(r@) == words(s@),
{
    let mut out: Vec<Vec<char>> = Vec::new();
    let mut cur: Vec<char> = Vec::new();
    let mut i: usize = 0;
    while i < s.len()
        invariant
            i <= s.len(),
            cur@.len() > 0 <==> (i > 0 && !is_space(s@[i - 1])),
            cur@.len() > 0 ==> words(s@.take(i as int)) == char_rows(out@).push(cur@),
            cur@.len() == 0 ==> words(s@.take(i as int)) == char_rows(out@),
        decreases s.len() - i,
    {
        let c = s[i];
        proof {
            assert(s@.take(i + 1).drop_last() =~= s@.take(i as int));
            assert(s@.take(i + 1).last() == c);
            if i > 0 {
                assert(s@.take(i + 1)[i - 1] == s@[i - 1]);
            }
        }
        if is_space_char(c) {
            if cur.len() > 0 {
                let ghost before = out@;
                let w = cur;
                out.push(w);
                cur = Vec::new();
                assert(char_rows(out@) =~= char_rows(before).push(w@));
            }
        } else {
            let ghost before = cur@;
            cur.push(c);
            proof {
                let w0 = words(s@.take(i as int));
                if before.len() > 0 {
                    assert(w0 == char_rows(out@).push(before));
                    assert(words(s@.take(i + 1)) == w0.update(w0.len() - 1, w0.last().push(c)));
                    assert(words(s@.take(i + 1)) =~= char_rows(out@).push(cur@));
                } else {
                    assert(cur@ =~= seq![c]);
                }
            }
        }
        i += 1;
    }
    assert(s@.take(s.len() as int) =~= s@);
    if cur.len() > 0 {
        let ghost before = out@;
        let w = cur;
        out.push(w);
        assert(char_rows(out@) =~= char_rows(before).push(w@));
    }
    out
}

/// The lines of `s`, as `str::lines` gives them.
pub fn split_lines(s: &Vec<char>) -> (r: Vec<Vec<char>>)
    ensures
        char_rows(r@) == lines(s@),
{
    let mut out: Vec<Vec<char>> = Vec::new();
    let mut cur: Vec<char> = Vec::new();
    let mut i: usize = 0;
    assert(segments(s@.take(0)) =~= seq![Seq::<char>::empty()]);
    while i < s.len()
        invariant
            i <= s.len(),
            segments(s@.take(i as int)).drop_last().map_values(|l: Seq<char>| strip_cr(l)) == char_rows(out@),
            segments(s@.take(i as int)).last() == cur@,
            segments(s@.take(i as int)).len() >= 1,
        decreases s.len() - i,
    {
        let c = s[i];
        let ghost p = segments(s@.take(i as int));
        proof {
            assert(s@.take(i + 1).drop_last() =~= s@.take(i as int));
            assert(s@.take(i + 1).last() == c);
        }
        if c == '\n' {
            let ghost before = out@;
            let n = cur.len();
            let line = if n > 0 && cur[n - 1] == '\r' {
                let mut t: Vec<char> = Vec::new();
                let mut k: usize = 0;
                while k < n - 1
                    invariant
                        n == cur@.len(),
                        n > 0,
                        k <= n - 1,
                        t@ == cur@.take(k as int),
                    decreases n - 1 - k,
                {
                    t.push(cur[k]);
                    k += 1;
                    assert(t@ =~= cur@.take(k as int));
                }
                assert(t@ =~= cur@.drop_last());
                t
            } else {
                cur
            };
            assert(line@ == strip_cr(p.last()));
            out.push(line);
            cur = Vec::new();
            proof {
                let q = segments(s@.take(i + 1));
                assert(q == p.push(Seq::<char>::empty()));
                assert(q.drop_last() =~= p);
                assert(p =~= p.drop_last().push(p.last()));
                assert(char_rows(out@) =~= char_rows(before).push(line@));
                assert(q.drop_last().map_values(|l: Seq<char>| strip_cr(l)) =~= p.drop_last().map_values(
                    |l: Seq<char>| strip_cr(l),
                ).push(strip_cr(p.last())));
            }
        } else {
            cur.push(c);
            proof {
                let q = segments(s@.take(i + 1));
                assert(q == p.update(p.len() - 1, p.last().push(c)));
                assert(q.drop_last() =~= p.drop_last());
            }
        }
        i += 1;
    }
    assert(s@.take(s.len() as int) =~= s@);
    if cur.len() > 0 {
        let ghost before = out@;
        let w = cur;
        out.push(w);
        assert(char_rows(out@) =~= char_rows(before).push(w@));
    }
    out
}

} // verus!
