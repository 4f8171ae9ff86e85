use vstd::prelude::*;
use vstd::utf8::encode_utf8;

use crate::chars::{append_range, chars_of, push_char};

verus! {

/// Unicode `White_Space`: the characters that `str::trim` removes.
pub open spec fn is_space(c: char) -> bool {
    let u = c as u32;
    ||| 0x9 <= u <= 0xd
    ||| u == 0x20
    ||| u == 0x85
    ||| u == 0xa0
    ||| u == 0x1680
    ||| 0x2000 <= u <= 0x200a
    ||| u == 0x2028
    ||| u == 0x2029
    ||| u == 0x202f
    ||| u == 0x205f
    ||| u == 0x3000
}

/// A line ends at a line feed or at a carriage return (alone or before a
/// line feed; the empty line between `\r` and `\n` is dropped anyway).
pub open spec fn is_line_break(c: char) -> bool {
    c == '\n' || c == '\r'
}

/// `s` without its leading white space.
pub open spec fn trim_start(s: Seq<char>) -> Seq<char>
    decreases s.len(),
{
    if s.len() > 0 && is_space(s[0]) {
        trim_start(s.drop_first())
    } else {
        s
    }
}

/// `s` without its trailing white space.
pub open spec fn trim_end(s: Seq<char>) -> Seq<char>
    decreases s.len(),
{
    if s.len() > 0 && is_space(s.last()) {
        trim_end(s.drop_last())
    } else {
        s
    }
}

/// `s` without its leading and trailing white space.
pub open spec fn trim(s: Seq<char>) -> Seq<char> {
    trim_end(trim_start(s))
}

/// `s` begins with `p`.
pub open spec fn starts_with(s: Seq<char>, p: Seq<char>) -> bool {
    p.len() <= s.len() && s.subrange(0, p.len() as int) == p
}

/// `s` ends with `p`.
pub open spec fn ends_with(s: Seq<char>, p: Seq<char>) -> bool {
    p.len() <= s.len() && s.subrange(s.len() - p.len(), s.len() as int) == p
}

/// The lines of `s`, split at every line break; there is always at least one.
pub open spec fn split_lines(s: Seq<char>) -> Seq<Seq<char>>
    decreases s.len(),
{
    if s.len() == 0 {
        seq![Seq::empty()]
    } else {
        let prev = split_lines(s.drop_last());
        if is_line_break(s.last()) {
            prev.push(Seq::empty())
        } else {
            prev.update(prev.len() - 1, prev.last().push(s.last()))
        }
    }
}

/// Each line trimmed, the lines left empty dropped.
pub open spec fn kept_lines(lines: Seq<Seq<char>>) -> Seq<Seq<char>>
    decreases lines.len(),
{
    if lines.len() == 0 {
        Seq::empty()
    } else {
        let prev = kept_lines(lines.drop_last());
        let t = trim(lines.last());
        if t.len() > 0 {
            prev.push(t)
        } else {
            prev
        }
    }
}

/// The parts joined by `sep`, with no separator before the first or after
/// the last.
pub open spec fn join_with(parts: Seq<Seq<char>>, sep: Seq<char>) -> Seq<char>
    decreases parts.len(),
{
    if parts.len() == 0 {
        Seq::empty()
    } else if parts.len() == 1 {
        parts[0]
    } else {
        join_with(parts.drop_last(), sep) + sep + parts.last()
    }
}

/// The normalized form of a text: line breaks unified, every line trimmed,
/// blank lines dropped, lines joined by single line feeds.
pub open spec fn normalize(s: Seq<char>) -> Seq<char> {
    join_with(kept_lines(split_lines(s)), seq!['\n'])
}

/// The length in bytes of the UTF-8 encoding of `s`, as `str::len` gives it.
pub open spec fn byte_len(s: Seq<char>) -> nat {
    (encode_utf8(s).len() as usize) as nat
}

/// The page estimate for a text of `len` bytes: one page for every 3000
/// bytes, and at least one.
pub open spec fn page_estimate(len: nat) -> nat {
    if len / 3000 >= 1 {
        len / 3000
    } else {
        1
    }
}

/// Whether `c` is white space, as `char::is_whitespace` says.
pub fn is_space_char(c: char) -> (r: bool)
    ensures
        r == is_space(c),
{
    let u = c as u32;
    (0x9 <= u && u <= 0xd) || u == 0x20 || u == 0x85 || u == 0xa0 || u == 0x1680 || (0x2000 <= u
        && u <= 0x200a) || u == 0x2028 || u == 0x2029 || u == 0x202f || u == 0x205f || u == 0x3000
}

/// The bounds of `trim(cs[from..to])` within `cs`.
pub(crate) fn trim_bounds(cs: &Vec<char>, from: usize, to: usize) -> (r: (usize, usize))
    requires
        from <= to <= cs@.len(),
    ensures
        from <= r.0 <= r.1 <= to,
        cs@.subrange(r.0 as int, r.1 as int) == trim(cs@.subrange(from as int, to as int)),
{
    let ghost s = cs@.subrange(from as int, to as int);
    let mut a = from;
    while a < to && is_space_char(cs[a])
        invariant
            from <= a <= to <= cs@.len(),
            s == cs@.subrange(from as int, to as int),
            trim_start(s) == trim_start(cs@.subrange(a as int, to as int)),
        decreases to - a,
    {
        assert(cs@.subrange(a as int, to as int).drop_first() =~= cs@.subrange(
            a + 1,
            to as int,
        ));
        a = a + 1;
    }
    assert(trim_start(cs@.subrange(a as int, to as int)) == cs@.subrange(a as int, to as int));
    let mut b = to;
    while b > a && is_space_char(cs[b - 1])
        invariant
            from <= a <= b <= to <= cs@.len(),
            s == cs@.subrange(from as int, to as int),
            trim(s) == trim_end(cs@.subrange(a as int, b as int)),
        decreases b - a,
    {
        assert(cs@.subrange(a as int, b as int).drop_last() =~= cs@.subrange(
            a as int,
            b - 1,
        ));
        b = b - 1;
    }
    (a, b)
}

/// Appends `trim(cs[from..to])` as a new line of `out`, unless it is empty.
fn emit_line(cs: &Vec<char>, from: usize, to: usize, out: &mut String, any: &mut bool)
    requires
        from <= to <= cs@.len(),
        !*old(any) ==> old(out)@.len() == 0,
    ensures
        ({
            let t = trim(cs@.subrange(from as int, to as int));
            if t.len() == 0 {
                final(out)@ == old(out)@ && *final(any) == *old(any)
            } else {
                &&& *final(any)
                &&& *old(any) ==> final(out)@ == old(out)@ + seq!['\n'] + t
                &&& !*old(any) ==> final(out)@ == t
            }
        }),
{
    let (a, b) = trim_bounds(cs, from, to);
    if a < b {
        if *any {
            push_char(out, '\n');
        }
        append_range(out, cs, a, b);
        *any = true;
        assert(cs@.subrange(a as int, b as int).len() > 0);
    }
}

proof fn lemma_split_lines_len(s: Seq<char>)
    ensures
        split_lines(s).len() >= 1,
    decreases s.len(),
{
    if s.len() > 0 {
        lemma_split_lines_len(s.drop_last());
    }
}

pub(crate) proof fn lemma_join_push(parts: Seq<Seq<char>>, t: Seq<char>, sep: Seq<char>)
    ensures
        join_with(parts.push(t), sep) == if parts.len() == 0 {
            t
        } else {
            join_with(parts, sep) + sep + t
        },
{
    assert(parts.push(t).drop_last() =~= parts);
}

/// Normalizes a text: `\r\n` and lone `\r` become `\n`, each line is
/// trimmed, blank lines are dropped, and the lines are joined by `\n` with
/// no trailing line feed.
pub fn clean_text(text: &str) -> (r: String)
    ensures
        r@ == normalize(text@),
{
    let cs = chars_of(text);
    let mut out = String::new();
    let mut any = false;
    let mut start: usize = 0;
    let mut i: usize = 0;
    while i < cs.len()
        invariant
            start <= i <= cs@.len(),
            split_lines(cs@.subrange(0, i as int)).len() >= 1,
            split_lines(cs@.subrange(0, i as int)).last() == cs@.subrange(start as int, i as int),
            out@ == join_with(
                kept_lines(split_lines(cs@.subrange(0, i as int)).drop_last()),
                seq!['\n'],
            ),
            any == (kept_lines(split_lines(cs@.subrange(0, i as int)).drop_last()).len() > 0),
        decreases cs.len() - i,
    {
        let ghost p = cs@.subrange(0, i as int);
        let ghost p1 = cs@.subrange(0, i + 1);
        assert(p1.drop_last() =~= p);
        let ghost lines = split_lines(p);
        let ghost k = kept_lines(lines.drop_last());
        assert(lines.drop_last().push(lines.last()) =~= lines);
        if cs[i] == '\n' || cs[i] == '\r' {
            proof {
                lemma_join_push(k, trim(lines.last()), seq!['\n']);
            }
            emit_line(&cs, start, i, &mut out, &mut any);
            start = i + 1;
            assert(split_lines(p1).drop_last() =~= lines);
            assert(cs@.subrange(start as int, i + 1) =~= Seq::<char>::empty());
        } else {
            assert(split_lines(p1).drop_last() =~= lines.drop_last());
            assert(cs@.subrange(start as int, i + 1) =~= cs@.subrange(start as int, i as int).push(
                cs@[i as int],
            ));
        }
        i = i + 1;
    }
    let ghost lines = split_lines(cs@.subrange(0, i as int));
    proof {
        lemma_join_push(kept_lines(lines.drop_last()), trim(lines.last()), seq!['\n']);
        assert(lines.drop_last().push(lines.last()) =~= lines);
        assert(cs@.subrange(0, i as int) =~= text@);
    }
    emit_line(&cs, start, cs.len(), &mut out, &mut any);
    out
}

/// `prefix` followed by `detail`.
pub(crate) fn with_prefix(prefix: &str, detail: String) -> (r: String)
    ensures
        r@ == prefix@ + detail@,
        starts_with(r@, prefix@),
{
    let r = String::from_str(prefix).concat(detail.as_str());
    assert(r@.subrange(0, prefix@.len() as int) =~= prefix@);
    r
}

/// Estimates the number of pages of a text from its length in bytes, one
/// page for every 3000 bytes, and at least one.
pub fn count_pages(text: &str) -> (r: usize)
    ensures
        r == page_estimate(byte_len(text@)),
{
    let n = text.len() / 3000;
    if n >= 1 {
        n
    } else {
        1
    }
}

/// No character of `s` is a line break.
pub open spec fn no_breaks(s: Seq<char>) -> bool {
    forall|k: int| 0 <= k < s.len() ==> !is_line_break(#[trigger] s[k])
}

/// A line as the normalizer emits it: not empty, no line break, nothing to trim.
pub open spec fn is_clean_line(l: Seq<char>) -> bool {
    l.len() > 0 && no_breaks(l) && trim(l) == l
}

proof fn lemma_split_lines_no_breaks(s: Seq<char>)
    ensures
        forall|j: int| 0 <= j < split_lines(s).len() ==> no_breaks(#[trigger] split_lines(s)[j]),
    decreases s.len(),
{
    if s.len() > 0 {
        lemma_split_lines_no_breaks(s.drop_last());
        lemma_split_lines_len(s.drop_last());
    }
}

proof fn lemma_trim_start_shape(x: Seq<char>)
    ensures
        no_breaks(x) ==> no_breaks(trim_start(x)),
        trim_start(x).len() == 0 || !is_space(trim_start(x)[0]),
    decreases x.len(),
{
    if x.len() > 0 && is_space(x[0]) {
        lemma_trim_start_shape(x.drop_first());
    }
}

proof fn lemma_trim_end_shape(y: Seq<char>)
    ensures
        trim_end(y).len() <= y.len(),
        forall|k: int| 0 <= k < trim_end(y).len() ==> trim_end(y)[k] == y[k],
        trim_end(y).len() == 0 || !is_space(trim_end(y).last()),
    decreases y.len(),
{
    if y.len() > 0 && is_space(y.last()) {
        lemma_trim_end_shape(y.drop_last());
        assert forall|k: int| 0 <= k < trim_end(y).len() implies trim_end(y)[k] == y[k] by {
            assert(y.drop_last()[k] == y[k]);
        }
    }
}

proof fn lemma_trim_shape(x: Seq<char>)
    ensures
        no_breaks(x) ==> no_breaks(trim(x)),
        trim(trim(x)) == trim(x),
{
    let y = trim_start(x);
    let t = trim(x);
    lemma_trim_start_shape(x);
    lemma_trim_end_shape(y);
    if no_breaks(x) {
        assert forall|k: int| 0 <= k < t.len() implies !is_line_break(#[trigger] t[k]) by {
            assert(t[k] == y[k]);
        }
    }
    if t.len() > 0 {
        assert(t[0] == y[0]);
        assert(trim_start(t) == t);
        assert(trim_end(t) == t);
    } else {
        assert(trim_start(t) == t);
        assert(trim_end(t) == t);
    }
}

proof fn lemma_kept_lines_clean(lines: Seq<Seq<char>>)
    requires
        forall|j: int| 0 <= j < lines.len() ==> no_breaks(#[trigger] lines[j]),
    ensures
        forall|j: int| 0 <= j < kept_lines(lines).len() ==> is_clean_line(
            #[trigger] kept_lines(lines)[j],
        ),
    decreases lines.len(),
{
    if lines.len() > 0 {
        let prev = lines.drop_last();
        assert forall|j: int| 0 <= j < prev.len() implies no_breaks(#[trigger] prev[j]) by {
            assert(prev[j] == lines[j]);
        }
        lemma_kept_lines_clean(prev);
        assert(no_breaks(lines[lines.len() - 1]));
        lemma_trim_shape(lines.last());
        let t = trim(lines.last());
        let kp = kept_lines(prev);
        if t.len() > 0 {
            assert forall|j: int| 0 <= j < kp.push(t).len() implies is_clean_line(
                #[trigger] kp.push(t)[j],
            ) by {
                if j < kp.len() {
                    assert(kp.push(t)[j] == kp[j]);
                }
            }
        }
    }
}

proof fn lemma_kept_lines_fixed(lines: Seq<Seq<char>>)
    requires
        forall|j: int| 0 <= j < lines.len() ==> is_clean_line(#[trigger] lines[j]),
    ensures
        kept_lines(lines) == lines,
    decreases lines.len(),
{
    if lines.len() > 0 {
        let prev = lines.drop_last();
        assert forall|j: int| 0 <= j < prev.len() implies is_clean_line(#[trigger] prev[j]) by {
            assert(prev[j] == lines[j]);
        }
        lemma_kept_lines_fixed(prev);
        assert(is_clean_line(lines[lines.len() - 1]));
        assert(prev.push(lines.last()) =~= lines);
    }
}

proof fn lemma_split_lines_extend(a: Seq<char>, b: Seq<char>)
    requires
        no_breaks(b),
    ensures
        split_lines(a + b) == split_lines(a).update(
            split_lines(a).len() - 1,
            split_lines(a).last() + b,
        ),
    decreases b.len(),
{
    lemma_split_lines_len(a);
    if b.len() == 0 {
        assert(a + b =~= a);
        assert(split_lines(a).last() + b =~= split_lines(a).last());
        assert(split_lines(a).update(split_lines(a).len() - 1, split_lines(a).last())
            =~= split_lines(a));
    } else {
        let b0 = b.drop_last();
        assert(no_breaks(b0)) by {
            assert forall|k: int| 0 <= k < b0.len() implies !is_line_break(#[trigger] b0[k]) by {
                assert(b0[k] == b[k]);
            }
        }
        lemma_split_lines_extend(a, b0);
        let sa = split_lines(a);
        let s0 = split_lines(a + b0);
        assert((a + b).drop_last() =~= a + b0);
        assert((a + b).last() == b.last());
        assert(!is_line_break(b[b.len() - 1]));
        assert(s0.len() == sa.len());
        assert(s0.last() == sa.last() + b0);
        assert(split_lines(a + b) == s0.update(s0.len() - 1, s0.last().push(b.last())));
        assert(sa.last() + b0 + seq![b.last()] =~= sa.last() + b);
        assert(s0.last().push(b.last()) =~= sa.last() + b);
        assert(s0.update(s0.len() - 1, sa.last() + b) =~= sa.update(sa.len() - 1, sa.last() + b));
    }
}

proof fn lemma_split_join(parts: Seq<Seq<char>>)
    requires
        parts.len() > 0,
        forall|j: int| 0 <= j < parts.len() ==> no_breaks(#[trigger] parts[j]),
    ensures
        split_lines(join_with(parts, seq!['\n'])) == parts,
    decreases parts.len(),
{
    let e = Seq::<char>::empty();
    if parts.len() == 1 {
        assert(no_breaks(parts[0]));
        lemma_split_lines_extend(e, parts[0]);
        assert(e + parts[0] =~= parts[0]);
        assert(split_lines(e) == seq![e]);
        assert(split_lines(parts[0]) =~= parts);
    } else {
        let prev = parts.drop_last();
        assert forall|j: int| 0 <= j < prev.len() implies no_breaks(#[trigger] prev[j]) by {
            assert(prev[j] == parts[j]);
        }
        lemma_split_join(prev);
        let a = join_with(prev, seq!['\n']) + seq!['\n'];
        assert(a.drop_last() =~= join_with(prev, seq!['\n']));
        assert(split_lines(a) == prev.push(e));
        assert(no_breaks(parts[parts.len() - 1]));
        lemma_split_lines_extend(a, parts.last());
        assert(e + parts.last() =~= parts.last());
        assert(prev.push(e).update(prev.len() as int, parts.last()) =~= parts);
    }
}

proof fn lemma_join_avoids(parts: Seq<Seq<char>>, sep: Seq<char>, c: char)
    requires
        forall|j: int, k: int| 0 <= j < parts.len() && 0 <= k < parts[j].len() ==> #[trigger] parts[j][k] != c,
        forall|k: int| 0 <= k < sep.len() ==> #[trigger] sep[k] != c,
    ensures
        forall|k: int| 0 <= k < join_with(parts, sep).len() ==> #[trigger] join_with(parts, sep)[k] != c,
    decreases parts.len(),
{
    if parts.len() > 1 {
        let prev = parts.drop_last();
        assert forall|j: int, k: int| 0 <= j < prev.len() && 0 <= k < prev[j].len() implies #[trigger] prev[j][k] != c by {
            assert(prev[j] == parts[j]);
        }
        lemma_join_avoids(prev, sep, c);
        let l = parts.last();
        assert(forall|k: int| 0 <= k < l.len() ==> l[k] == parts[parts.len() - 1][k]);
        let x = join_with(prev, sep);
        assert forall|k: int| 0 <= k < (x + sep + l).len() implies #[trigger] (x + sep + l)[k] != c by {
            if k < x.len() {
            } else if k < x.len() + sep.len() {
                assert((x + sep + l)[k] == sep[k - x.len()]);
            } else {
                assert((x + sep + l)[k] == l[k - x.len() - sep.len()]);
            }
        }
    } else if parts.len() == 1 {
        assert(forall|k: int| 0 <= k < parts[0].len() ==> parts[0][k] != c);
    }
}

/// Normalizing twice gives the same text as normalizing once.
pub proof fn lemma_normalize_idempotent(s: Seq<char>)
    ensures
        normalize(normalize(s)) == normalize(s),
{
    let k = kept_lines(split_lines(s));
    lemma_split_lines_no_breaks(s);
    lemma_kept_lines_clean(split_lines(s));
    if k.len() == 0 {
        assert(normalize(s) == Seq::<char>::empty());
        assert(split_lines(Seq::<char>::empty()) == seq![Seq::<char>::empty()]);
        assert(trim_start(Seq::<char>::empty()) == Seq::<char>::empty());
        assert(trim_end(Seq::<char>::empty()) == Seq::<char>::empty());
        assert(trim(Seq::<char>::empty()) == Seq::<char>::empty());
        assert(seq![Seq::<char>::empty()].drop_last() =~= Seq::<Seq<char>>::empty());
        assert(kept_lines(Seq::<Seq<char>>::empty()) == Seq::<Seq<char>>::empty());
        assert(kept_lines(seq![Seq::<char>::empty()]) =~= Seq::<Seq<char>>::empty());
    } else {
        assert forall|j: int| 0 <= j < k.len() implies no_breaks(#[trigger] k[j]) by {
            assert(is_clean_line(k[j]));
        }
        lemma_split_join(k);
        lemma_kept_lines_fixed(k);
    }
}

/// A normalized text holds no carriage return, and each of its lines is
/// non-empty and has no leading or trailing white space; so it has no blank
/// line, first or last or between.
pub proof fn lemma_normalize_shape(s: Seq<char>)
    ensures
        forall|i: int| 0 <= i < normalize(s).len() ==> #[trigger] normalize(s)[i] != '\r',
        normalize(s).len() > 0 ==> forall|j: int|
            0 <= j < split_lines(normalize(s)).len() ==> is_clean_line(
                #[trigger] split_lines(normalize(s))[j],
            ),
{
    let k = kept_lines(split_lines(s));
    lemma_split_lines_no_breaks(s);
    lemma_kept_lines_clean(split_lines(s));
    assert forall|j: int, i: int| 0 <= j < k.len() && 0 <= i < k[j].len() implies #[trigger] k[j][i] != '\r' by {
        assert(is_clean_line(k[j]));
        assert(!is_line_break(k[j][i]));
    }
    lemma_join_avoids(k, seq!['\n'], '\r');
    if normalize(s).len() > 0 {
        assert(k.len() > 0);
        assert forall|j: int| 0 <= j < k.len() implies no_breaks(#[trigger] k[j]) by {
            assert(is_clean_line(k[j]));
        }
        lemma_split_join(k);
    }
}

} // verus!
