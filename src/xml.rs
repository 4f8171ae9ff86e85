use vstd::prelude::*;

use crate::chars::{append_range, chars_of, push_char};
use crate::text::{join_with, lemma_join_push};

verus! {

/// `pat` occurs in `s` starting at position `i`.
pub open spec fn occurs_at(s: Seq<char>, pat: Seq<char>, i: int) -> bool {
    0 <= i && i + pat.len() <= s.len() && s.subrange(i, i + pat.len()) == pat
}

/// The first position at or after `from` where `pat` occurs in `s`.
pub open spec fn find_from(s: Seq<char>, pat: Seq<char>, from: int) -> Option<int>
    decreases s.len() - from,
{
    if from < 0 || from + pat.len() > s.len() {
        None
    } else if occurs_at(s, pat, from) {
        Some(from)
    } else if from < s.len() {
        find_from(s, pat, from + 1)
    } else {
        None
    }
}

/// The literal opening tag `<tag>`.
pub open spec fn open_tag(tag: Seq<char>) -> Seq<char> {
    seq!['<'] + tag + seq!['>']
}

/// The literal closing tag `</tag>`.
pub open spec fn close_tag(tag: Seq<char>) -> Seq<char> {
    seq!['<', '/'] + tag + seq!['>']
}

/// The spans of plain text found from position `from` on: the next opening
/// tag is found, then the next closing tag after it; the span between them
/// is kept unless it holds a `<`, and the scan goes on after the closing
/// tag. It stops where no opening tag, or no closing tag after it, is left.
pub open spec fn text_runs(s: Seq<char>, open: Seq<char>, close: Seq<char>, from: int) -> Seq<
    Seq<char>,
>
    decreases s.len() - from,
{
    match find_from(s, open, from) {
        None => Seq::empty(),
        Some(a) => {
            let b = a + open.len();
            match find_from(s, close, b) {
                None => Seq::empty(),
                Some(e) => {
                    let next = e + close.len();
                    if from < next <= s.len() {
                        let span = s.subrange(b, e);
                        let rest = text_runs(s, open, close, next);
                        if span.contains('<') {
                            rest
                        } else {
                            seq![span] + rest
                        }
                    } else {
                        Seq::empty()
                    }
                }
            }
        },
    }
}

/// The text that `extract_text_from_xml` returns for `xml` and `tag`.
pub open spec fn tag_text(xml: Seq<char>, tag: Seq<char>) -> Seq<char> {
    join_with(text_runs(xml, open_tag(tag), close_tag(tag), 0), seq![' '])
}

proof fn lemma_find_from_bounds(s: Seq<char>, pat: Seq<char>, from: int)
    ensures
        find_from(s, pat, from) matches Some(k) ==> from <= k && occurs_at(s, pat, k),
    decreases s.len() - from,
{
    if !(from < 0 || from + pat.len() > s.len()) && !occurs_at(s, pat, from) && from < s.len() {
        lemma_find_from_bounds(s, pat, from + 1);
    }
}

pub(crate) fn occurs_at_exec(s: &Vec<char>, pat: &Vec<char>, i: usize) -> (r: bool)
    requires
        i <= s@.len(),
        pat@.len() <= s@.len() - i,
    ensures
        r == occurs_at(s@, pat@, i as int),
{
    let n = s.len();
    let mut j: usize = 0;
    while j < pat.len()
        invariant
            n == s@.len(),
            j <= pat@.len(),
            i + pat@.len() <= s@.len(),
            forall|k: int| 0 <= k < j ==> s@[i + k] == pat@[k],
        decreases pat@.len() - j,
    {
        if s[i + j] != pat[j] {
            assert(s@.subrange(i as int, i + pat@.len())[j as int] != pat@[j as int]);
            return false;
        }
        j = j + 1;
    }
    assert(s@.subrange(i as int, i + pat@.len()) =~= pat@);
    true
}

fn find_exec(s: &Vec<char>, pat: &Vec<char>, from: usize) -> (r: Option<usize>)
    requires
        from <= s@.len(),
    ensures
        match r {
            Some(k) => find_from(s@, pat@, from as int) == Some(k as int),
            None => find_from(s@, pat@, from as int) is None,
        },
{
    let mut i = from;
    while pat.len() <= s.len() - i
        invariant
            from <= i <= s@.len(),
            find_from(s@, pat@, from as int) == find_from(s@, pat@, i as int),
        decreases s@.len() - i,
    {
        if occurs_at_exec(s, pat, i) {
            return Some(i);
        }
        assert(i < s@.len()) by {
            if i == s@.len() {
                assert(s@.subrange(i as int, i as int) =~= pat@);
            }
        }
        i = i + 1;
    }
    None
}

fn has_lt(s: &Vec<char>, from: usize, to: usize) -> (r: bool)
    requires
        from <= to <= s@.len(),
    ensures
        r == s@.subrange(from as int, to as int).contains('<'),
{
    let mut i = from;
    while i < to
        invariant
            from <= i <= to <= s@.len(),
            forall|k: int| from <= k < i ==> s@[k] != '<',
        decreases to - i,
    {
        if s[i] == '<' {
            assert(s@.subrange(from as int, to as int)[i - from] == '<');
            return true;
        }
        i = i + 1;
    }
    assert forall|k: int| 0 <= k < to - from implies s@.subrange(from as int, to as int)[k]
        != '<' by {
        assert(s@.subrange(from as int, to as int)[k] == s@[from + k]);
    }
    false
}

fn tag_chars(tag: &str, closing: bool) -> (r: Vec<char>)
    ensures
        r@ == if closing {
            close_tag(tag@)
        } else {
            open_tag(tag@)
        },
{
    let t = chars_of(tag);
    let mut r: Vec<char> = Vec::new();
    r.push('<');
    if closing {
        r.push('/');
    }
    let mut i: usize = 0;
    while i < t.len()
        invariant
            i <= t@.len(),
            t@ == tag@,
            r@ == (if closing {
                seq!['<', '/']
            } else {
                seq!['<']
            }) + t@.subrange(0, i as int),
        decreases t@.len() - i,
    {
        r.push(t[i]);
        i = i + 1;
        assert(t@.subrange(0, i as int) =~= t@.subrange(0, i - 1).push(t@[i - 1]));
    }
    r.push('>');
    assert(t@.subrange(0, i as int) =~= t@);
    assert(r@ =~= (if closing {
        close_tag(tag@)
    } else {
        open_tag(tag@)
    }));
    r
}

/// Extracts the text between each literal `<tag>` and the next `</tag>`,
/// skipping spans that hold nested markup, and joins the spans with single
/// spaces.
pub fn extract_text_from_xml(xml: &str, tag: &str) -> (r: String)
    ensures
        r@ == tag_text(xml@, tag@),
{
    let s = chars_of(xml);
    let open = tag_chars(tag, false);
    let close = tag_chars(tag, true);
    let ghost all = text_runs(s@, open@, close@, 0);
    let ghost mut parts: Seq<Seq<char>> = Seq::empty();
    let mut out = String::new();
    let mut any = false;
    let n = s.len();
    let mut pos: usize = 0;
    let mut done = false;
    while !done
        invariant
            n == s@.len(),
            pos <= s@.len(),
            open@ == open_tag(tag@),
            close@ == close_tag(tag@),
            parts + text_runs(s@, open@, close@, pos as int) == all,
            out@ == join_with(parts, seq![' ']),
            any == (parts.len() > 0),
            done ==> text_runs(s@, open@, close@, pos as int) == Seq::<Seq<char>>::empty(),
        decreases s@.len() - pos + (if done {
            0int
        } else {
            1int
        }),
    {
        proof {
            lemma_find_from_bounds(s@, open@, pos as int);
        }
        match find_exec(&s, &open, pos) {
            None => {
                done = true;
            },
            Some(a) => {
                let b = a + open.len();
                proof {
                    lemma_find_from_bounds(s@, close@, b as int);
                }
                match find_exec(&s, &close, b) {
                    None => {
                        done = true;
                    },
                    Some(e) => {
                        let next = e + close.len();
                        let ghost rest = text_runs(s@, open@, close@, next as int);
                        let ghost span = s@.subrange(b as int, e as int);
                        if !has_lt(&s, b, e) {
                            proof {
                                lemma_join_push(parts, span, seq![' ']);
                                assert(parts + (seq![span] + rest) =~= parts.push(span) + rest);
                                parts = parts.push(span);
                            }
                            if any {
                                push_char(&mut out, ' ');
                            }
                            append_range(&mut out, &s, b, e);
                            any = true;
                        }
                        pos = next;
                    },
                }
            },
        }
    }
    assert(parts + Seq::<Seq<char>>::empty() =~= parts);
    out
}

} // verus!
