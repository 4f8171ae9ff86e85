use vstd::multiset::Multiset;
use vstd::prelude::*;

use crate::chars::{chars_of, push_char};
use crate::document::{DocumentView, ParsedDocument};
use crate::container::{
    container_opens, entry_names, name_views, open_container, read_entry, zip_entry_names,
    zip_entry_text,
};
use crate::text::{
    clean_text, ends_with, join_with, lemma_join_push, normalize, starts_with, trim, trim_bounds,
    with_prefix,
};
use crate::xml::{extract_text_from_xml, occurs_at, occurs_at_exec, tag_text};

verus! {

/// `s` with every leading repetition of `p` removed.
pub open spec fn trim_prefix_all(s: Seq<char>, p: Seq<char>) -> Seq<char>
    decreases s.len(),
{
    if p.len() > 0 && starts_with(s, p) {
        trim_prefix_all(s.subrange(p.len() as int, s.len() as int), p)
    } else {
        s
    }
}

/// `s` with every trailing repetition of `p` removed.
pub open spec fn trim_suffix_all(s: Seq<char>, p: Seq<char>) -> Seq<char>
    decreases s.len(),
{
    if p.len() > 0 && ends_with(s, p) {
        trim_suffix_all(s.subrange(0, s.len() - p.len()), p)
    } else {
        s
    }
}

/// An ASCII decimal digit.
pub open spec fn is_digit(c: char) -> bool {
    '0' <= c <= '9'
}

/// The value of a decimal digit.
pub open spec fn digit_value(c: char) -> nat {
    if c == '1' {
        1
    } else if c == '2' {
        2
    } else if c == '3' {
        3
    } else if c == '4' {
        4
    } else if c == '5' {
        5
    } else if c == '6' {
        6
    } else if c == '7' {
        7
    } else if c == '8' {
        8
    } else if c == '9' {
        9
    } else {
        0
    }
}

/// The value of a run of decimal digits.
pub open spec fn digits_value(d: Seq<char>) -> nat
    decreases d.len(),
{
    if d.len() == 0 {
        0
    } else {
        digits_value(d.drop_last()) * 10 + digit_value(d.last())
    }
}

/// `s` without a leading `+`.
pub open spec fn unsigned_part(s: Seq<char>) -> Seq<char> {
    if s.len() > 0 && s[0] == '+' {
        s.drop_first()
    } else {
        s
    }
}

/// Every character of `d` is a decimal digit.
pub open spec fn all_digits(d: Seq<char>) -> bool {
    forall|k: int| 0 <= k < d.len() ==> is_digit(#[trigger] d[k])
}

/// A decimal number as `usize::from_str` reads it: an optional `+`, then
/// one digit or more, with a value that fits in a `usize`.
pub open spec fn parse_index(s: Seq<char>) -> Option<nat> {
    let d = unsigned_part(s);
    if d.len() > 0 && all_digits(d) && digits_value(d) <= usize::MAX {
        Some(digits_value(d))
    } else {
        None
    }
}

/// Where slide entries sit in a presentation container.
pub open spec fn slide_prefix() -> Seq<char> {
    "ppt/slides/slide"@
}

/// The suffix of a slide entry's name.
pub open spec fn slide_suffix() -> Seq<char> {
    ".xml"@
}

/// An entry of a presentation container that holds one slide: the slide
/// prefix, one decimal digit or more, then `.xml`.
pub open spec fn is_slide_entry(name: Seq<char>) -> bool {
    &&& starts_with(name, slide_prefix())
    &&& ends_with(name, slide_suffix())
    &&& name.len() > slide_prefix().len() + slide_suffix().len()
    &&& all_digits(name.subrange(slide_prefix().len() as int, name.len() - slide_suffix().len()))
}

/// The number of the slide that an entry holds: the number between the
/// slide prefix and the `.xml` suffix, or 0 where there is none.
pub open spec fn slide_number(name: Seq<char>) -> nat {
    match parse_index(trim_suffix_all(trim_prefix_all(name, slide_prefix()), slide_suffix())) {
        Some(n) => n,
        None => 0,
    }
}

/// A slide read from its entry: its number and its text runs.
pub open spec fn slide_of(part: (Seq<char>, Seq<char>)) -> (nat, Seq<char>) {
    (slide_number(part.0), tag_text(part.1, "a:t"@))
}

/// The slides of the given (entry name, markup) parts, in order, without
/// those whose text is blank.
pub open spec fn kept_slides(parts: Seq<(Seq<char>, Seq<char>)>) -> Seq<(nat, Seq<char>)>
    decreases parts.len(),
{
    if parts.len() == 0 {
        Seq::empty()
    } else {
        let prev = kept_slides(parts.drop_last());
        let s = slide_of(parts.last());
        if trim(s.1).len() > 0 {
            prev.push(s)
        } else {
            prev
        }
    }
}

/// `x` put into `sorted` after every slide whose number is not greater.
pub open spec fn insert_slide(sorted: Seq<(nat, Seq<char>)>, x: (nat, Seq<char>)) -> Seq<
    (nat, Seq<char>),
>
    decreases sorted.len(),
{
    if sorted.len() == 0 {
        seq![x]
    } else if sorted.last().0 <= x.0 {
        sorted.push(x)
    } else {
        insert_slide(sorted.drop_last(), x).push(sorted.last())
    }
}

/// The slides ordered by number; slides with equal numbers keep their order.
pub open spec fn sort_slides(s: Seq<(nat, Seq<char>)>) -> Seq<(nat, Seq<char>)>
    decreases s.len(),
{
    if s.len() == 0 {
        s
    } else {
        insert_slide(sort_slides(s.drop_last()), s.last())
    }
}

/// The character of a decimal digit.
pub open spec fn digit_char(d: nat) -> char {
    if d == 0 {
        '0'
    } else if d == 1 {
        '1'
    } else if d == 2 {
        '2'
    } else if d == 3 {
        '3'
    } else if d == 4 {
        '4'
    } else if d == 5 {
        '5'
    } else if d == 6 {
        '6'
    } else if d == 7 {
        '7'
    } else if d == 8 {
        '8'
    } else {
        '9'
    }
}

/// The slides are in ascending order of number.
pub open spec fn ordered_by_number(s: Seq<(nat, Seq<char>)>) -> bool {
    forall|i: int, j: int| 0 <= i < j < s.len() ==> s[i].0 <= s[j].0
}

proof fn lemma_insert_slide(sorted: Seq<(nat, Seq<char>)>, x: (nat, Seq<char>))
    requires
        ordered_by_number(sorted),
    ensures
        ordered_by_number(insert_slide(sorted, x)),
        insert_slide(sorted, x).to_multiset() == sorted.to_multiset().insert(x),
        forall|i: int|
            0 <= i < insert_slide(sorted, x).len() ==> #[trigger] insert_slide(sorted, x)[i].0 <= x.0
                || (sorted.len() > 0 && insert_slide(sorted, x)[i].0 <= sorted.last().0),
    decreases sorted.len(),
{
    broadcast use vstd::seq_lib::group_to_multiset_ensures;

    if sorted.len() == 0 {
        assert(sorted.to_multiset() =~= Multiset::empty());
        assert(seq![x] =~= sorted.push(x));
    } else if sorted.last().0 <= x.0 {
    } else {
        let d = sorted.drop_last();
        let l = sorted.last();
        lemma_insert_slide(d, x);
        let r0 = insert_slide(d, x);
        assert forall|i: int| 0 <= i < r0.len() implies #[trigger] r0[i].0 <= l.0 by {
            if r0[i].0 > x.0 {
                assert(d.len() > 0);
                assert(d.last() == sorted[d.len() - 1]);
            }
        }
        assert(sorted =~= d.push(l));
        assert(r0.push(l).to_multiset() =~= sorted.to_multiset().insert(x));
    }
}

/// Ordering the slides puts them in ascending order of number, and keeps
/// every slide, as many times as it occurs.
pub proof fn lemma_sort_slides(s: Seq<(nat, Seq<char>)>)
    ensures
        ordered_by_number(sort_slides(s)),
        sort_slides(s).to_multiset() == s.to_multiset(),
    decreases s.len(),
{
    broadcast use vstd::seq_lib::group_to_multiset_ensures;

    if s.len() == 0 {
    } else {
        lemma_sort_slides(s.drop_last());
        lemma_insert_slide(sort_slides(s.drop_last()), s.last());
        assert(s =~= s.drop_last().push(s.last()));
    }
}

/// The slides numbered `n`, in order.
pub open spec fn numbered(s: Seq<(nat, Seq<char>)>, n: nat) -> Seq<(nat, Seq<char>)>
    decreases s.len(),
{
    if s.len() == 0 {
        Seq::empty()
    } else if s.last().0 == n {
        numbered(s.drop_last(), n).push(s.last())
    } else {
        numbered(s.drop_last(), n)
    }
}

proof fn lemma_insert_slide_numbered(sorted: Seq<(nat, Seq<char>)>, x: (nat, Seq<char>), n: nat)
    ensures
        numbered(insert_slide(sorted, x), n) == if x.0 == n {
            numbered(sorted, n).push(x)
        } else {
            numbered(sorted, n)
        },
    decreases sorted.len(),
{
    if sorted.len() == 0 {
        assert(seq![x].drop_last() =~= sorted);
    } else if sorted.last().0 <= x.0 {
        assert(sorted.push(x).drop_last() =~= sorted);
    } else {
        let d = sorted.drop_last();
        let l = sorted.last();
        lemma_insert_slide_numbered(d, x, n);
        assert(insert_slide(d, x).push(l).drop_last() =~= insert_slide(d, x));
    }
}

/// Ordering the slides keeps slides of equal number in the order they came in.
pub proof fn lemma_sort_slides_stable(s: Seq<(nat, Seq<char>)>, n: nat)
    ensures
        numbered(sort_slides(s), n) == numbered(s, n),
    decreases s.len(),
{
    if s.len() > 0 {
        lemma_sort_slides_stable(s.drop_last(), n);
        lemma_insert_slide_numbered(sort_slides(s.drop_last()), s.last(), n);
    }
}

/// The decimal digits of `n`.
pub open spec fn decimal(n: nat) -> Seq<char>
    decreases n,
{
    if n < 10 {
        seq![digit_char(n)]
    } else {
        decimal(n / 10).push(digit_char(n % 10))
    }
}

/// One slide as it is written out: a `[Slide n]` line, then its text.
pub open spec fn slide_block(s: (nat, Seq<char>)) -> Seq<char> {
    "[Slide "@ + decimal(s.0) + "]\n"@ + s.1
}

/// The document made of the given slide parts, in container order.
pub open spec fn slides_view(parts: Seq<(Seq<char>, Seq<char>)>) -> DocumentView {
    let slides = kept_slides(parts);
    DocumentView {
        text: normalize(join_with(sort_slides(slides).map_values(|s| slide_block(s)), "\n\n"@)),
        pages: slides.len(),
        file_type: "pptx"@,
    }
}

/// The (entry name, markup) parts as mathematical values.
pub open spec fn part_views(parts: Seq<(String, String)>) -> Seq<(Seq<char>, Seq<char>)> {
    parts.map_values(|p: (String, String)| (p.0@, p.1@))
}

/// The (number, text) slides as mathematical values.
pub open spec fn slide_views(v: Seq<(usize, String)>) -> Seq<(nat, Seq<char>)> {
    v.map_values(|p: (usize, String)| (p.0 as nat, p.1@))
}

/// Whether `cs[from..]` begins with `p`.
fn starts_at(cs: &Vec<char>, p: &Vec<char>, from: usize, to: usize) -> (r: bool)
    requires
        from <= to <= cs@.len(),
    ensures
        r == starts_with(cs@.subrange(from as int, to as int), p@),
{
    if p.len() <= to - from {
        let r = occurs_at_exec(cs, p, from);
        assert(cs@.subrange(from as int, to as int).subrange(0, p@.len() as int) =~= cs@.subrange(
            from as int,
            from + p@.len(),
        ));
        r
    } else {
        false
    }
}

/// Whether `cs[from..to]` ends with `p`.
fn ends_at(cs: &Vec<char>, p: &Vec<char>, from: usize, to: usize) -> (r: bool)
    requires
        from <= to <= cs@.len(),
    ensures
        r == ends_with(cs@.subrange(from as int, to as int), p@),
{
    if p.len() <= to - from {
        let r = occurs_at_exec(cs, p, to - p.len());
        assert(cs@.subrange(from as int, to as int).subrange(
            to - from - p@.len(),
            to - from,
        ) =~= cs@.subrange(to - p@.len(), to as int));
        r
    } else {
        false
    }
}

/// Whether `cs[from..to]` is all decimal digits.
fn digits_only(cs: &Vec<char>, from: usize, to: usize) -> (r: bool)
    requires
        from <= to <= cs@.len(),
    ensures
        r == all_digits(cs@.subrange(from as int, to as int)),
{
    let mut i = from;
    while i < to
        invariant
            from <= i <= to <= cs@.len(),
            forall|k: int| from <= k < i ==> is_digit(#[trigger] cs@[k]),
        decreases to - i,
    {
        if !('0' <= cs[i] && cs[i] <= '9') {
            assert(!is_digit(cs@.subrange(from as int, to as int)[i - from]));
            return false;
        }
        i = i + 1;
    }
    assert forall|k: int| 0 <= k < to - from implies is_digit(
        #[trigger] cs@.subrange(from as int, to as int)[k],
    ) by {
        assert(cs@.subrange(from as int, to as int)[k] == cs@[from + k]);
    }
    true
}

/// Whether the named entry of a presentation container holds a slide.
pub fn is_slide_entry_name(name: &str) -> (r: bool)
    ensures
        r == is_slide_entry(name@),
{
    let cs = chars_of(name);
    let p = chars_of("ppt/slides/slide");
    let x = chars_of(".xml");
    let n = cs.len();
    assert(cs@.subrange(0, n as int) =~= cs@);
    if !(starts_at(&cs, &p, 0, n) && ends_at(&cs, &x, 0, n)) {
        return false;
    }
    if n - p.len() <= x.len() {
        return false;
    }
    digits_only(&cs, p.len(), n - x.len())
}

proof fn lemma_digits_value_grows(d: Seq<char>, k: int)
    requires
        0 <= k <= d.len(),
    ensures
        digits_value(d.subrange(0, k)) <= digits_value(d),
    decreases d.len(),
{
    if k < d.len() {
        assert(d.drop_last().subrange(0, k) =~= d.subrange(0, k));
        lemma_digits_value_grows(d.drop_last(), k);
    } else {
        assert(d.subrange(0, k) =~= d);
    }
}

/// Reads `cs[from..to]` as `usize::from_str` does.
fn parse_index_exec(cs: &Vec<char>, from: usize, to: usize) -> (r: Option<usize>)
    requires
        from <= to <= cs@.len(),
    ensures
        match r {
            Some(v) => parse_index(cs@.subrange(from as int, to as int)) == Some(v as nat),
            None => parse_index(cs@.subrange(from as int, to as int)) is None,
        },
{
    let ghost s = cs@.subrange(from as int, to as int);
    let mut start = from;
    if from < to && cs[from] == '+' {
        start = from + 1;
    }
    let ghost d = cs@.subrange(start as int, to as int);
    assert(d =~= unsigned_part(s));
    if start == to {
        return None;
    }
    let mut v: usize = 0;
    let mut i = start;
    while i < to
        invariant
            from <= start <= i <= to <= cs@.len(),
            s == cs@.subrange(from as int, to as int),
            d == cs@.subrange(start as int, to as int),
            d == unsigned_part(s),
            d.len() > 0,
            forall|k: int| start <= k < i ==> is_digit(#[trigger] cs@[k]),
            v as nat == digits_value(cs@.subrange(start as int, i as int)),
        decreases to - i,
    {
        let c = cs[i];
        if !('0' <= c && c <= '9') {
            assert(d[i - start] == c);
            assert(!is_digit(d[i - start]));
            assert(!all_digits(d));
            return None;
        }
        let dv: usize = if c == '1' {
            1
        } else if c == '2' {
            2
        } else if c == '3' {
            3
        } else if c == '4' {
            4
        } else if c == '5' {
            5
        } else if c == '6' {
            6
        } else if c == '7' {
            7
        } else if c == '8' {
            8
        } else if c == '9' {
            9
        } else {
            0
        };
        let ghost p1 = cs@.subrange(start as int, i + 1);
        assert(p1.drop_last() =~= cs@.subrange(start as int, i as int));
        if v > (usize::MAX - dv) / 10 {
            assert(v * 10 + dv > usize::MAX) by (nonlinear_arith)
                requires
                    v > (usize::MAX - dv) / 10,
                    dv <= 9,
            ;
            proof {
                assert(d.subrange(0, i + 1 - start) =~= p1);
                lemma_digits_value_grows(d, i + 1 - start);
            }
            return None;
        }
        assert(v * 10 + dv <= usize::MAX) by (nonlinear_arith)
            requires
                v <= (usize::MAX - dv) / 10,
                dv <= 9,
        ;
        v = v * 10 + dv;
        i = i + 1;
    }
    assert(cs@.subrange(start as int, i as int) =~= d);
    assert forall|k: int| 0 <= k < d.len() implies is_digit(#[trigger] d[k]) by {
        assert(d[k] == cs@[start + k]);
    }
    Some(v)
}

/// The number of the slide that the named entry holds, 0 where the name
/// carries none.
pub fn slide_number_of(name: &str) -> (r: usize)
    ensures
        r as nat == slide_number(name@),
{
    let cs = chars_of(name);
    let p = chars_of("ppt/slides/slide");
    let x = chars_of(".xml");
    let n = cs.len();
    let mut a: usize = 0;
    assert(cs@.subrange(0, n as int) =~= cs@);
    while p.len() > 0 && starts_at(&cs, &p, a, n)
        invariant
            a <= n == cs@.len(),
            p@ == slide_prefix(),
            trim_prefix_all(name@, slide_prefix()) == trim_prefix_all(
                cs@.subrange(a as int, n as int),
                slide_prefix(),
            ),
        decreases n - a,
    {
        assert(cs@.subrange(a as int, n as int).subrange(p@.len() as int, n - a) =~= cs@.subrange(
            a + p@.len(),
            n as int,
        ));
        a = a + p.len();
    }
    let mut b: usize = n;
    while x.len() > 0 && ends_at(&cs, &x, a, b)
        invariant
            a <= b <= n == cs@.len(),
            x@ == slide_suffix(),
            trim_suffix_all(trim_prefix_all(name@, slide_prefix()), slide_suffix())
                == trim_suffix_all(cs@.subrange(a as int, b as int), slide_suffix()),
        decreases b - a,
    {
        assert(cs@.subrange(a as int, b as int).subrange(0, b - a - x@.len()) =~= cs@.subrange(
            a as int,
            b - x@.len(),
        ));
        b = b - x.len();
    }
    match parse_index_exec(&cs, a, b) {
        Some(v) => v,
        None => 0,
    }
}

/// Appends the decimal digits of `n`.
fn push_decimal(out: &mut String, n: usize)
    ensures
        final(out)@ == old(out)@ + decimal(n as nat),
    decreases n,
{
    let d = n % 10;
    let c = if d == 0 {
        '0'
    } else if d == 1 {
        '1'
    } else if d == 2 {
        '2'
    } else if d == 3 {
        '3'
    } else if d == 4 {
        '4'
    } else if d == 5 {
        '5'
    } else if d == 6 {
        '6'
    } else if d == 7 {
        '7'
    } else if d == 8 {
        '8'
    } else {
        '9'
    };
    if n >= 10 {
        push_decimal(out, n / 10);
    }
    push_char(out, c);
}

/// Puts `x` into the ordered `v` after every slide whose number is not greater.
fn insert_by_number(v: &mut Vec<(usize, String)>, x: (usize, String))
    ensures
        slide_views(final(v)@) == insert_slide(slide_views(old(v)@), (x.0 as nat, x.1@)),
{
    let ghost sv = slide_views(v@);
    let ghost xv = (x.0 as nat, x.1@);
    let n = v.len();
    let mut j = n;
    assert(sv.subrange(0, n as int) =~= sv);
    assert(sv.subrange(n as int, n as int) =~= Seq::<(nat, Seq<char>)>::empty());
    assert(insert_slide(sv, xv) + Seq::<(nat, Seq<char>)>::empty() =~= insert_slide(sv, xv));
    while j > 0 && v[j - 1].0 > x.0
        invariant
            j <= n == v@.len(),
            sv == slide_views(v@),
            xv == (x.0 as nat, x.1@),
            insert_slide(sv, xv) == insert_slide(sv.subrange(0, j as int), xv) + sv.subrange(
                j as int,
                n as int,
            ),
        decreases j,
    {
        let ghost pre = sv.subrange(0, j as int);
        assert(sv[j - 1].0 == v@[j - 1].0 as nat);
        assert(pre.drop_last() =~= sv.subrange(0, j - 1));
        assert(pre.last() == sv[j - 1]);
        assert(insert_slide(pre, xv) == insert_slide(sv.subrange(0, j - 1), xv).push(sv[j - 1]));
        assert(insert_slide(sv.subrange(0, j - 1), xv).push(sv[j - 1]) + sv.subrange(
            j as int,
            n as int,
        ) =~= insert_slide(sv.subrange(0, j - 1), xv) + sv.subrange(j - 1, n as int));
        j = j - 1;
    }
    proof {
        let pre = sv.subrange(0, j as int);
        if j == 0 {
            assert(insert_slide(pre, xv) == seq![xv]);
        } else {
            assert(pre.last() == sv[j - 1]);
            assert(sv[j - 1].0 == v@[j - 1].0 as nat);
            assert(insert_slide(pre, xv) == pre.push(xv));
        }
    }
    v.insert(j, x);
    assert(slide_views(v@) =~= sv.subrange(0, j as int).push(xv) + sv.subrange(j as int, n as int));
}

/// The document made of the given slide parts: (entry name, markup) pairs
/// in the order in which the container lists them. Each slide's text is the
/// `a:t` runs of its markup; blank slides are dropped, the rest ordered by
/// number and written as `[Slide n]` blocks separated by a blank line, then
/// normalized. The page count is the number of slides kept, so it is 0
/// where no slide has text.
pub fn slides_document(parts: &Vec<(String, String)>) -> (r: ParsedDocument)
    ensures
        r@ == slides_view(part_views(parts@)),
{
    let ghost pv = part_views(parts@);
    let mut sorted: Vec<(usize, String)> = Vec::new();
    let mut count: usize = 0;
    let mut i: usize = 0;
    while i < parts.len()
        invariant
            i <= parts@.len(),
            pv == part_views(parts@),
            count as nat == kept_slides(pv.subrange(0, i as int)).len(),
            count <= i,
            slide_views(sorted@) == sort_slides(kept_slides(pv.subrange(0, i as int))),
        decreases parts@.len() - i,
    {
        let number = slide_number_of(parts[i].0.as_str());
        let text = extract_text_from_xml(parts[i].1.as_str(), "a:t");
        let cs = chars_of(text.as_str());
        let (a, b) = trim_bounds(&cs, 0, cs.len());
        let ghost pre = pv.subrange(0, i as int);
        proof {
            assert(pv.subrange(0, i + 1).drop_last() =~= pre);
            assert(pv.subrange(0, i + 1).last() == pv[i as int]);
            assert(cs@.subrange(0, cs@.len() as int) =~= cs@);
        }
        if a < b {
            insert_by_number(&mut sorted, (number, text));
            count = count + 1;
            proof {
                let k = kept_slides(pre);
                let s = slide_of(pv[i as int]);
                assert(k.push(s).drop_last() =~= k);
            }
        }
        i = i + 1;
    }
    assert(pv.subrange(0, i as int) =~= pv);
    let ghost blocks = sort_slides(kept_slides(pv)).map_values(|s| slide_block(s));
    let mut joined = String::new();
    let mut j: usize = 0;
    while j < sorted.len()
        invariant
            j <= sorted@.len(),
            slide_views(sorted@) == sort_slides(kept_slides(pv)),
            blocks == sort_slides(kept_slides(pv)).map_values(|s| slide_block(s)),
            joined@ == join_with(blocks.subrange(0, j as int), "\n\n"@),
        decreases sorted@.len() - j,
    {
        let ghost before = joined@;
        proof {
            lemma_join_push(blocks.subrange(0, j as int), blocks[j as int], "\n\n"@);
            assert(blocks.subrange(0, j + 1) =~= blocks.subrange(0, j as int).push(blocks[j as int]));
        }
        if j > 0 {
            joined.append("\n\n");
        }
        let ghost mid = joined@;
        joined.append("[Slide ");
        push_decimal(&mut joined, sorted[j].0);
        joined.append("]\n");
        joined.append(sorted[j].1.as_str());
        assert(joined@ =~= mid + slide_block(slide_views(sorted@)[j as int]));
        j = j + 1;
    }
    assert(blocks.subrange(0, j as int) =~= blocks);
    ParsedDocument { text: clean_text(joined.as_str()), pages: count, file_type: String::from_str("pptx") }
}

/// The slide parts of the container held in `data`, from the entry names
/// `names` in index order: each entry named as a slide whose text can be
/// read, with that text.
pub open spec fn slide_parts(data: Seq<u8>, names: Seq<Option<Seq<char>>>) -> Seq<
    (Seq<char>, Seq<char>),
>
    decreases names.len(),
{
    if names.len() == 0 {
        Seq::empty()
    } else {
        let prev = slide_parts(data, names.drop_last());
        match names.last() {
            Some(n) => if is_slide_entry(n) {
                match zip_entry_text(data, n) {
                    Some(Some(xml)) => prev.push((n, xml)),
                    _ => prev,
                }
            } else {
                prev
            },
            None => prev,
        }
    }
}

/// What `parse_pptx` returns for `data`: bytes that are no container give
/// an opening error; a container gives the document of its slide parts.
pub open spec fn slides_outcome(data: Seq<u8>, r: Result<ParsedDocument, String>) -> bool {
    if !container_opens(data) {
        r matches Err(m) && starts_with(m@, "Failed to open PPTX as ZIP: "@)
    } else {
        r matches Ok(d) && d@ == slides_view(slide_parts(data, zip_entry_names(data)))
    }
}

/// Extracts the text of a presentation: every entry named like
/// `ppt/slides/slide<n>.xml` that can be read gives a slide (see
/// `slides_document`). Bytes that are no container give an error.
pub fn parse_pptx(data: &[u8]) -> (r: Result<ParsedDocument, String>)
    ensures
        slides_outcome(data@, r),
{
    let mut archive = match open_container(data) {
        Ok(a) => a,
        Err(e) => {
            return Err(with_prefix("Failed to open PPTX as ZIP: ", e.to_string()));
        },
    };
    let names = entry_names(&archive);
    let ghost all = zip_entry_names(data@);
    let mut parts: Vec<(String, String)> = Vec::new();
    let mut i: usize = 0;
    while i < names.len()
        invariant
            i <= names@.len(),
            archive.source() == data@,
            name_views(names@) == all,
            all == zip_entry_names(data@),
            part_views(parts@) == slide_parts(data@, all.subrange(0, i as int)),
        decreases names@.len() - i,
    {
        let ghost prev = parts@;
        assert(all.subrange(0, i + 1).drop_last() =~= all.subrange(0, i as int));
        assert(all[i as int] == match names@[i as int] {
            Some(s) => Some(s@),
            None => None::<Seq<char>>,
        });
        if let Some(name) = &names[i] {
            if is_slide_entry_name(name.as_str()) {
                if let Some(Ok(xml)) = read_entry(&mut archive, name.as_str()) {
                    parts.push((name.clone(), xml));
                    assert(part_views(parts@) =~= part_views(prev).push((name@, xml@)));
                }
            }
        }
        i = i + 1;
    }
    assert(all.subrange(0, i as int) =~= all);
    let d = slides_document(&parts);
    Ok(d)
}

} // verus!
