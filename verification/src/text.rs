//! Text helpers on characters and bytes.

use vstd::prelude::*;

verus! {

/// `String::push` appends one character at the end of the string.
pub assume_specification[ String::push ](s: &mut String, c: char)
    ensures
        final(s)@ == old(s)@.push(c),
;

/// The characters of `s`, in order.
pub fn chars_of(s: &str) -> (out: Vec<char>)
    ensures
        out@ == s@,
{
    let mut out: Vec<char> = Vec::new();
    for c in it: s.chars()
        invariant
            it.seq() == s@,
            out@ == s@.take(it.index() as int),
    {
        assert(s@.take(it.index() as int + 1) =~= s@.take(it.index() as int).push(c));
        out.push(c);
    }
    assert(s@.take(s@.len() as int) =~= s@);
    out
}

/// The string made of `chars`, in order.
pub fn string_of(chars: &[char]) -> (out: String)
    ensures
        out@ == chars@,
{
    let mut out = String::new();
    for i in 0..chars.len()
        invariant
            out@ == chars@.take(i as int),
    {
        out.push(chars[i]);
        assert(chars@.take(i as int + 1) =~= chars@.take(i as int).push(chars@[i as int]));
    }
    assert(chars@.take(chars@.len() as int) =~= chars@);
    out
}

/// Whether `s` starts with `prefix`.
pub fn starts_with(s: &str, prefix: &str) -> (r: bool)
    ensures
        r == prefix@.is_prefix_of(s@),
{
    let s: Vec<char> = chars_of(s);
    let prefix: Vec<char> = chars_of(prefix);
    occurs_at(&s, &prefix, 0)
}

/// Whether `needle` stands in `hay` at position `at`.
pub open spec fn matches_at(hay: Seq<char>, needle: Seq<char>, at: int) -> bool {
    &&& 0 <= at
    &&& at + needle.len() <= hay.len()
    &&& hay.subrange(at, at + needle.len()) == needle
}

/// Whether `needle` stands in `hay` at position `at`.
pub fn occurs_at(hay: &Vec<char>, needle: &Vec<char>, at: usize) -> (r: bool)
    ensures
        r == matches_at(hay@, needle@, at as int),
        at == 0 ==> r == needle@.is_prefix_of(hay@),
{
    if at > hay.len() || needle.len() > hay.len() - at {
        return false;
    }
    for i in 0..needle.len()
        invariant
            at + needle.len() <= hay.len(),
            forall|k: int| 0 <= k < i ==> hay@[at + k] == needle@[k],
    {
        if hay[at + i] != needle[i] {
            assert(hay@.subrange(at as int, at + needle@.len())[i as int] != needle@[i as int]);
            return false;
        }
    }
    assert(hay@.subrange(at as int, at + needle@.len()) =~= needle@);
    true
}

/// Whether `needle` stands anywhere in `hay`.
pub open spec fn has_substring(hay: Seq<char>, needle: Seq<char>) -> bool {
    exists|at: int| matches_at(hay, needle, at)
}

/// The first position, not before `from`, at which `needle` stands in `hay`.
pub open spec fn find_from(hay: Seq<char>, needle: Seq<char>, from: int) -> Option<int>
    decreases hay.len() - from + 1,
{
    if from + needle.len() > hay.len() {
        None
    } else if matches_at(hay, needle, from) {
        Some(from)
    } else {
        find_from(hay, needle, from + 1)
    }
}

/// What is found is the first occurrence, and nothing is found only where there is
/// none.
pub proof fn law_finds_the_first(hay: Seq<char>, needle: Seq<char>, from: int)
    requires
        0 <= from,
    ensures
        match find_from(hay, needle, from) {
            Some(at) => from <= at && matches_at(hay, needle, at) && forall|k: int|
                from <= k < at ==> !matches_at(hay, needle, k),
            None => forall|k: int| from <= k ==> !matches_at(hay, needle, k),
        },
    decreases hay.len() - from + 1,
{
    if from + needle.len() <= hay.len() && !matches_at(hay, needle, from) {
        law_finds_the_first(hay, needle, from + 1);
    }
}

/// The first position, not before `from`, at which `needle` stands in `hay`.
pub fn find(hay: &Vec<char>, needle: &Vec<char>, from: usize) -> (r: Option<usize>)
    ensures
        match r {
            Some(at) => find_from(hay@, needle@, from as int) == Some(at as int) && from <= at && at
                + needle@.len() <= hay@.len(),
            None => find_from(hay@, needle@, from as int) is None,
        },
{
    if needle.len() > hay.len() {
        return None;
    }
    let last: usize = hay.len() - needle.len();
    let mut at: usize = from;
    while at <= last
        invariant
            last + needle@.len() == hay.len(),
            from <= at,
            find_from(hay@, needle@, from as int) == find_from(hay@, needle@, at as int),
        decreases last + 1 - at,
    {
        if occurs_at(hay, needle, at) {
            return Some(at);
        }
        proof {
            if needle@.len() == 0 {
                assert(hay@.subrange(at as int, at as int) =~= needle@);
            }
        }
        at = at + 1;
    }
    None
}

/// Whether `needle` stands anywhere in `hay`.
pub fn contains(hay: &str, needle: &str) -> (r: bool)
    ensures
        r == has_substring(hay@, needle@),
{
    let hay: Vec<char> = chars_of(hay);
    let needle: Vec<char> = chars_of(needle);
    proof {
        law_finds_the_first(hay@, needle@, 0);
    }
    find(&hay, &needle, 0).is_some()
}

/// Whether a character is white space, by the Unicode property of that name.
pub open spec fn is_space(c: char) -> bool {
    ||| '\u{9}' <= c <= '\u{d}'
    ||| c == ' '
    ||| c == '\u{85}'
    ||| c == '\u{a0}'
    ||| c == '\u{1680}'
    ||| '\u{2000}' <= c <= '\u{200a}'
    ||| c == '\u{2028}'
    ||| c == '\u{2029}'
    ||| c == '\u{202f}'
    ||| c == '\u{205f}'
    ||| c == '\u{3000}'
}

fn is_space_char(c: char) -> (r: bool)
    ensures
        r == is_space(c),
{
    ('\u{9}' <= c && c <= '\u{d}') || c == ' ' || c == '\u{85}' || c == '\u{a0}' || c == '\u{1680}'
        || ('\u{2000}' <= c && c <= '\u{200a}') || c == '\u{2028}' || c == '\u{2029}' || c
        == '\u{202f}' || c == '\u{205f}' || c == '\u{3000}'
}

/// The text without white space at its start.
pub open spec fn trimmed_start(s: Seq<char>) -> Seq<char>
    decreases s.len(),
{
    if s.len() > 0 && is_space(s.first()) {
        trimmed_start(s.drop_first())
    } else {
        s
    }
}

/// The text without white space at its end.
pub open spec fn trimmed_end(s: Seq<char>) -> Seq<char>
    decreases s.len(),
{
    if s.len() > 0 && is_space(s.last()) {
        trimmed_end(s.drop_last())
    } else {
        s
    }
}

/// The text without white space at either end.
pub open spec fn trimmed(s: Seq<char>) -> Seq<char> {
    trimmed_end(trimmed_start(s))
}

/// Trimmed text neither starts nor ends with white space, and trimming it again
/// changes nothing.
pub proof fn law_trimming_is_final(s: Seq<char>)
    ensures
        trimmed(s).len() > 0 ==> !is_space(trimmed(s).first()) && !is_space(trimmed(s).last()),
        trimmed(trimmed(s)) == trimmed(s),
        trimmed(s).len() <= s.len(),
{
    lemma_trimmed_start(s);
    lemma_trimmed_end(trimmed_start(s));
}

proof fn lemma_trimmed_start(s: Seq<char>)
    ensures
        trimmed_start(s).len() > 0 ==> !is_space(trimmed_start(s).first()),
        trimmed_start(s).len() <= s.len(),
    decreases s.len(),
{
    if s.len() > 0 && is_space(s.first()) {
        lemma_trimmed_start(s.drop_first());
    }
}

proof fn lemma_trimmed_end(s: Seq<char>)
    ensures
        trimmed_end(s).len() > 0 ==> !is_space(trimmed_end(s).last()) && trimmed_end(s).first()
            == s.first(),
        trimmed_end(s).len() <= s.len(),
    decreases s.len(),
{
    if s.len() > 0 && is_space(s.last()) {
        lemma_trimmed_end(s.drop_last());
    }
}

/// Position of the first character that is not white space, or the length.
pub fn trim_start(s: &Vec<char>) -> (lo: usize)
    ensures
        lo <= s@.len(),
        s@.skip(lo as int) == trimmed_start(s@),
{
    let mut lo: usize = 0;
    assert(s@.skip(0) =~= s@);
    while lo < s.len() && is_space_char(s[lo])
        invariant
            lo <= s@.len(),
            trimmed_start(s@) == trimmed_start(s@.skip(lo as int)),
        decreases s@.len() - lo,
    {
        assert(s@.skip(lo as int).drop_first() =~= s@.skip(lo as int + 1));
        lo = lo + 1;
    }
    lo
}

/// The characters without white space at either end.
pub fn trim_chars(s: &Vec<char>) -> (r: Vec<char>)
    ensures
        r@ == trimmed(s@),
{
    let lo: usize = trim_start(s);
    let mut hi: usize = s.len();
    assert(s@.subrange(lo as int, hi as int) =~= s@.skip(lo as int));
    while hi > lo && is_space_char(s[hi - 1])
        invariant
            lo <= hi <= s@.len(),
            trimmed(s@) == trimmed_end(s@.subrange(lo as int, hi as int)),
        decreases hi,
    {
        assert(s@.subrange(lo as int, hi as int).drop_last() =~= s@.subrange(lo as int, hi - 1));
        hi = hi - 1;
    }
    slice_of(s, lo, hi)
}

/// The characters from `lo` up to `hi`.
pub fn slice_of(s: &Vec<char>, lo: usize, hi: usize) -> (r: Vec<char>)
    requires
        lo <= hi <= s@.len(),
    ensures
        r@ == s@.subrange(lo as int, hi as int),
{
    let mut out: Vec<char> = Vec::new();
    for i in lo..hi
        invariant
            lo <= i <= hi <= s@.len(),
            out@ == s@.subrange(lo as int, i as int),
    {
        out.push(s[i]);
        assert(s@.subrange(lo as int, i as int + 1) =~= s@.subrange(lo as int, i as int).push(
            s@[i as int],
        ));
    }
    out
}

/// The text without white space at either end.
pub fn trim(s: &str) -> (r: String)
    ensures
        r@ == trimmed(s@),
{
    let v: Vec<char> = trim_chars(&chars_of(s));
    string_of(v.as_slice())
}

/// A line without the carriage return at its end, if it has one.
pub open spec fn without_cr(line: Seq<char>) -> Seq<char> {
    if line.len() > 0 && line.last() == '\r' {
        line.drop_last()
    } else {
        line
    }
}

/// The lines that have ended so far, and the one that has not.
pub open spec fn ended_lines(s: Seq<char>) -> (Seq<Seq<char>>, Seq<char>)
    decreases s.len(),
{
    if s.len() == 0 {
        (Seq::empty(), Seq::empty())
    } else {
        let (done, rest) = ended_lines(s.drop_last());
        if s.last() == '\n' {
            (done.push(without_cr(rest)), Seq::empty())
        } else {
            (done, rest.push(s.last()))
        }
    }
}

/// The lines of a text. Each ends with a line feed, or with a carriage return and a
/// line feed; the last one need not.
pub open spec fn lines_of(s: Seq<char>) -> Seq<Seq<char>> {
    let (done, rest) = ended_lines(s);
    if rest.len() == 0 {
        done
    } else {
        done.push(rest)
    }
}

/// The characters of each of some lines.
pub open spec fn views(lines: Seq<Vec<char>>) -> Seq<Seq<char>> {
    lines.map_values(|l: Vec<char>| l@)
}

/// The lines of a text.
pub fn lines(s: &str) -> (r: Vec<Vec<char>>)
    ensures
        views(r@) == lines_of(s@),
{
    let text: Vec<char> = chars_of(s);
    let mut done: Vec<Vec<char>> = Vec::new();
    let mut rest: Vec<char> = Vec::new();
    assert(views(done@) =~= Seq::<Seq<char>>::empty());
    for i in 0..text.len()
        invariant
            views(done@) == ended_lines(text@.take(i as int)).0,
            rest@ == ended_lines(text@.take(i as int)).1,
    {
        let c = text[i];
        let ghost before = done@;
        proof {
            assert(text@.take(i as int + 1).drop_last() =~= text@.take(i as int));
            assert(text@.take(i as int + 1).last() == c);
        }
        if c == '\n' {
            if rest.len() > 0 && rest[rest.len() - 1] == '\r' {
                rest.pop();
            }
            let mut line: Vec<char> = Vec::new();
            std::mem::swap(&mut line, &mut rest);
            done.push(line);
            assert(views(done@) =~= views(before).push(line@));
        } else {
            rest.push(c);
        }
    }
    proof {
        assert(text@.take(text@.len() as int) =~= text@);
    }
    if rest.len() > 0 {
        let ghost before = done@;
        let ghost tail = rest@;
        done.push(rest);
        assert(views(done@) =~= views(before).push(tail));
    }
    done
}

/// `n` spaces.
pub open spec fn spaces(n: int) -> Seq<char> {
    Seq::new(
        if n < 0 {
            0
        } else {
            n as nat
        },
        |i: int| ' ',
    )
}

/// The text, with spaces behind it up to `width` characters.
pub open spec fn padded_right(s: Seq<char>, width: int) -> Seq<char> {
    s + spaces(width - s.len())
}

/// The text, with spaces before it up to `width` characters.
pub open spec fn padded_left(s: Seq<char>, width: int) -> Seq<char> {
    spaces(width - s.len()) + s
}

fn gap(s: &str, width: usize) -> (r: String)
    ensures
        r@ == spaces(width - s@.len()),
{
    let n: usize = chars_of(s).len();
    let mut out = String::new();
    assert(out@ =~= spaces(0));
    let mut i: usize = n;
    while i < width
        invariant
            n == s@.len(),
            n <= i,
            i <= if n <= width {
                width
            } else {
                n
            },
            out@ == spaces(i - n),
        decreases width - i,
    {
        out.push(' ');
        assert(spaces(i + 1 - n) =~= spaces(i - n).push(' '));
        i = i + 1;
    }
    assert(out@ =~= spaces(width - n));
    out
}

/// The text, with spaces behind it up to `width` characters.
pub fn pad_right(s: &str, width: usize) -> (r: String)
    ensures
        r@ == padded_right(s@, width as int),
{
    s.to_owned().concat(gap(s, width).as_str())
}

/// The text, with spaces before it up to `width` characters.
pub fn pad_left(s: &str, width: usize) -> (r: String)
    ensures
        r@ == padded_left(s@, width as int),
{
    gap(s, width).concat(s)
}

/// The decimal digit of a number below ten.
pub open spec fn digit(d: int) -> char {
    (d + 48) as char
}

/// A number in decimal.
pub open spec fn decimal_of(n: nat) -> Seq<char>
    decreases n,
{
    if n < 10 {
        seq![digit(n as int)]
    } else {
        decimal_of(n / 10).push(digit(n as int % 10))
    }
}

/// A number in decimal.
pub fn decimal(n: usize) -> (r: String)
    ensures
        r@ == decimal_of(n as nat),
    decreases n,
{
    let d = ((n % 10) as u8 + 48) as char;
    if n < 10 {
        let mut out = String::new();
        out.push(d);
        assert(out@ =~= decimal_of(n as nat));
        out
    } else {
        let mut out = decimal(n / 10);
        out.push(d);
        out
    }
}

/// Whether `a` comes before `b` in the dictionary order of bytes.
pub open spec fn comes_before(a: Seq<u8>, b: Seq<u8>) -> bool
    decreases a.len(),
{
    if b.len() == 0 {
        false
    } else if a.len() == 0 {
        true
    } else if a[0] != b[0] {
        a[0] < b[0]
    } else {
        comes_before(a.drop_first(), b.drop_first())
    }
}

/// Whether `a` comes before `b` in the dictionary order of bytes.
pub fn precedes(a: &[u8], b: &[u8]) -> (r: bool)
    ensures
        r == comes_before(a@, b@),
{
    let mut i: usize = 0;
    assert(a@.skip(0) =~= a@ && b@.skip(0) =~= b@);
    while i < a.len() && i < b.len()
        invariant
            i <= a@.len(),
            i <= b@.len(),
            comes_before(a@, b@) == comes_before(a@.skip(i as int), b@.skip(i as int)),
        decreases a@.len() - i,
    {
        if a[i] != b[i] {
            return a[i] < b[i];
        }
        assert(a@.skip(i as int).drop_first() =~= a@.skip(i as int + 1));
        assert(b@.skip(i as int).drop_first() =~= b@.skip(i as int + 1));
        i = i + 1;
    }
    i < b.len()
}

/// The dictionary order is a strict total order.
pub proof fn law_dictionary_order(a: Seq<u8>, b: Seq<u8>, c: Seq<u8>)
    ensures
        !comes_before(a, a),
        comes_before(a, b) ==> !comes_before(b, a),
        comes_before(a, b) || comes_before(b, a) || a == b,
        comes_before(a, b) && comes_before(b, c) ==> comes_before(a, c),
    decreases a.len() + b.len() + c.len(),
{
    if a.len() > 0 && b.len() > 0 && c.len() > 0 {
        law_dictionary_order(a.drop_first(), b.drop_first(), c.drop_first());
    } else if a.len() > 0 && b.len() > 0 {
        law_dictionary_order(a.drop_first(), b.drop_first(), c);
    } else if a.len() > 0 {
        law_dictionary_order(a.drop_first(), b, c);
    }
    if a.len() > 0 && b.len() > 0 && a[0] == b[0] && a.drop_first() == b.drop_first() {
        assert(a =~= seq![a[0]] + a.drop_first());
        assert(b =~= seq![b[0]] + b.drop_first());
    }
    if a.len() == 0 && b.len() == 0 {
        assert(a =~= b);
    }
}

/// One text comes before another where they first differ by a lower byte, or where
/// it ends first.
pub proof fn law_first_difference_decides(common: Seq<u8>, a: Seq<u8>, b: Seq<u8>)
    ensures
        !comes_before(common, common),
        b.len() > 0 ==> comes_before(common, common + b) && !comes_before(common + b, common),
        a.len() > 0 && b.len() > 0 && a[0] != b[0] ==> (comes_before(common + a, common + b) <==> a[0]
            < b[0]),
    decreases common.len(),
{
    if common.len() == 0 {
        assert(common + a =~= a && common + b =~= b);
    } else {
        let rest = common.drop_first();
        law_first_difference_decides(rest, a, b);
        assert((common + a).drop_first() =~= rest + a);
        assert((common + b).drop_first() =~= rest + b);
    }
}

/// A text stands in another at the place where what comes before it is that long,
/// and it stands anywhere exactly where the other is made of something, the text and
/// something again.
pub proof fn law_occurrences(before: Seq<char>, needle: Seq<char>, behind: Seq<char>, at: int)
    ensures
        matches_at(before + needle + behind, needle, before.len() as int),
        has_substring(before + needle + behind, needle),
        matches_at(before, needle, at) ==> 0 <= at <= before.len() - needle.len() && before
            == before.take(at) + needle + before.skip(at + needle.len()),
        has_substring(before, needle) ==> exists|k: int|
            0 <= k <= before.len() - needle.len() && before == #[trigger] before.take(k) + needle
                + before.skip(k + needle.len()),
{
    let hay = before + needle + behind;
    let start = before.len() as int;
    assert(hay.subrange(start, start + needle.len()) =~= needle);
    assert(matches_at(hay, needle, before.len() as int));
    assert forall|k: int| #[trigger] matches_at(before, needle, k) implies before == before.take(k)
        + needle + before.skip(k + needle.len()) by {
        let mid = before.subrange(k, k + needle.len());
        assert(before =~= before.take(k) + mid + before.skip(k + needle.len()));
    }
    if has_substring(before, needle) {
        let k = choose|k: int| matches_at(before, needle, k);
        assert(before == before.take(k) + needle + before.skip(k + needle.len()));
    }
}

/// White space is what Unicode calls so: of ASCII the tab, the line feeds, the
/// carriage return and the space, and a few code points beyond.
pub proof fn law_white_space(c: char)
    ensures
        (c as u32) < 128 ==> (is_space(c) <==> c as u32 == 32 || 9 <= c as u32 <= 13),
        (c as u32) >= 128 ==> (is_space(c) <==> [
            0x85u32,
            0xa0,
            0x1680,
            0x2028,
            0x2029,
            0x202f,
            0x205f,
            0x3000,
        ]@.contains(c as u32) || 0x2000 <= c as u32 <= 0x200a),
{
    let others = [0x85u32, 0xa0, 0x1680, 0x2028, 0x2029, 0x202f, 0x205f, 0x3000]@;
    assert(others[0] == 0x85 && others[1] == 0xa0 && others[2] == 0x1680 && others[3] == 0x2028);
    assert(others[4] == 0x2029 && others[5] == 0x202f && others[6] == 0x205f && others[7] == 0x3000);
    assert(others.len() == 8);
}

/// Whether a text is white space throughout.
spec fn is_blank(s: Seq<char>) -> bool {
    forall|i: int| 0 <= i < s.len() ==> is_space(#[trigger] s[i])
}

proof fn lemma_trimmed_start_of(blank: Seq<char>, s: Seq<char>)
    requires
        is_blank(blank),
        s.len() > 0 ==> !is_space(s[0]),
    ensures
        trimmed_start(blank + s) == s,
    decreases blank.len(),
{
    if blank.len() == 0 {
        assert(blank + s =~= s);
    } else {
        assert(is_space(blank[0]));
        assert(is_blank(blank.drop_first())) by {
            assert forall|i: int| 0 <= i < blank.drop_first().len() implies is_space(
                #[trigger] blank.drop_first()[i],
            ) by {
                assert(is_space(blank[i + 1]));
            }
        }
        lemma_trimmed_start_of(blank.drop_first(), s);
        assert((blank + s).drop_first() =~= blank.drop_first() + s);
    }
}

proof fn lemma_trimmed_end_of(s: Seq<char>, blank: Seq<char>)
    requires
        is_blank(blank),
        s.len() > 0 ==> !is_space(s[s.len() - 1]),
    ensures
        trimmed_end(s + blank) == s,
    decreases blank.len(),
{
    if blank.len() == 0 {
        assert(s + blank =~= s);
    } else {
        assert(is_space(blank[blank.len() - 1]));
        assert(is_blank(blank.drop_last())) by {
            assert forall|i: int| 0 <= i < blank.drop_last().len() implies is_space(
                #[trigger] blank.drop_last()[i],
            ) by {
                assert(is_space(blank[i]));
            }
        }
        lemma_trimmed_end_of(s, blank.drop_last());
        assert((s + blank).drop_last() =~= s + blank.drop_last());
    }
}

/// Trimming takes away the white space at either end and nothing else, however much
/// of it there is.
pub proof fn law_trimming(front: Seq<char>, s: Seq<char>, back: Seq<char>)
    requires
        forall|i: int| 0 <= i < front.len() ==> is_space(#[trigger] front[i]),
        forall|i: int| 0 <= i < back.len() ==> is_space(#[trigger] back[i]),
        s.len() > 0 ==> !is_space(s.first()) && !is_space(s.last()),
    ensures
        trimmed(front + s + back) == s,
        s.len() > 0 ==> trimmed_start(front + s + back) == s + back,
        trimmed_start(front).len() == 0,
{
    if s.len() > 0 {
        assert(front + s + back =~= front + (s + back));
        lemma_trimmed_start_of(front, s + back);
        lemma_trimmed_end_of(s, back);
    } else {
        let all = front + s + back;
        assert(is_blank(all)) by {
            assert forall|i: int| 0 <= i < all.len() implies is_space(#[trigger] all[i]) by {
                if i < front.len() {
                    assert(is_space(front[i]));
                } else {
                    assert(is_space(back[i - front.len()]));
                }
            }
        }
        lemma_trimmed_start_of(all, s);
        assert(all + s =~= all);
        lemma_trimmed_end_of(s, s);
        assert(s + s =~= s);
    }
    lemma_trimmed_start_of(front, Seq::empty());
    assert(front + Seq::<char>::empty() =~= front);
}

proof fn lemma_ended_lines_join(a: Seq<char>, b: Seq<char>)
    requires
        !a.contains('\n'),
    ensures
        ended_lines(a) == (Seq::<Seq<char>>::empty(), a),
        ended_lines(a.push('\n') + b).0 == seq![without_cr(a)] + ended_lines(b).0,
        ended_lines(a.push('\n') + b).1 == ended_lines(b).1,
    decreases a.len() + b.len(),
{
    let line = a.push('\n');
    if a.len() > 0 && b.len() == 0 {
        let shorter = a.drop_last();
        assert(!shorter.contains('\n')) by {
            if shorter.contains('\n') {
                let i = choose|i: int| 0 <= i < shorter.len() && shorter[i] == '\n';
                assert(a[i] == '\n');
            }
        }
        lemma_ended_lines_join(shorter, b);
        assert(a.contains(a.last()));
        assert(a =~= shorter.push(a.last()));
    }
    if b.len() == 0 {
        assert(ended_lines(a).1 =~= a);
        assert(line + b =~= line);
        assert(line.drop_last() =~= a);
        assert(ended_lines(line).0 =~= seq![without_cr(a)]);
        assert(seq![without_cr(a)] + ended_lines(b).0 =~= seq![without_cr(a)]);
    } else {
        lemma_ended_lines_join(a, b.drop_last());
        assert((line + b).drop_last() =~= line + b.drop_last());
        assert((line + b).last() == b.last());
        assert(ended_lines(line + b).0 =~= seq![without_cr(a)] + ended_lines(b).0);
    }
}

/// A text is read line by line: up to each line feed, without a carriage return just
/// before it. What stands behind the last line feed is a line as it is, unless it is
/// empty.
pub proof fn law_lines(line: Seq<char>, rest: Seq<char>)
    requires
        !line.contains('\n'),
    ensures
        lines_of(line.push('\n') + rest) == seq![without_cr(line)] + lines_of(rest),
        line.len() > 0 ==> lines_of(line) == seq![line],
        lines_of(Seq::<char>::empty()).len() == 0,
        without_cr(line.push('\r')) == line,
        line.len() == 0 || line.last() != '\r' ==> without_cr(line) == line,
{
    lemma_ended_lines_join(line, rest);
    assert(line.push('\r').drop_last() =~= line);
    assert(lines_of(line.push('\n') + rest) =~= seq![without_cr(line)] + lines_of(rest));
    if line.len() > 0 {
        assert(lines_of(line) =~= seq![line]);
    }
}

/// Padding fills a text up to the width with spaces, on one side, and leaves the text
/// as it is. One that is as wide already gets none.
pub proof fn law_padding(s: Seq<char>, width: int, i: int)
    ensures
        s.len() >= width ==> padded_right(s, width) == s && padded_left(s, width) == s,
        s.len() < width ==> padded_right(s, width).len() == width && padded_left(s, width).len()
            == width,
        padded_right(s, width).take(s.len() as int) == s,
        padded_left(s, width).skip(padded_left(s, width).len() - s.len()) == s,
        s.len() <= i < width ==> padded_right(s, width)[i] == ' ',
        0 <= i < width - s.len() ==> padded_left(s, width)[i] == ' ',
{
    assert(padded_right(s, width).take(s.len() as int) =~= s);
    assert(padded_left(s, width).skip(padded_left(s, width).len() - s.len()) =~= s);
    if s.len() >= width {
        assert(padded_right(s, width) =~= s);
        assert(padded_left(s, width) =~= s);
    }
}

/// The number that decimal digits stand for.
pub open spec fn number_of(digits: Seq<char>) -> int
    decreases digits.len(),
{
    if digits.len() == 0 {
        0
    } else {
        10 * number_of(digits.drop_last()) + (digits.last() as int - '0' as int)
    }
}

/// The decimal of a number is made of digits, stands for the number, and starts with
/// a zero only where that is all of it.
pub proof fn law_decimal_reads_back(n: nat)
    ensures
        n < 10 ==> decimal_of(n) == seq![('0' as int + n) as char],
        n >= 10 ==> decimal_of(n) == decimal_of(n / 10) + decimal_of(n % 10),
        number_of(decimal_of(n)) == n,
        decimal_of(n).len() > 0,
        forall|i: int| 0 <= i < decimal_of(n).len() ==> '0' <= #[trigger] decimal_of(n)[i] <= '9',
        decimal_of(n).len() > 1 ==> decimal_of(n)[0] != '0',
        n > 0 ==> decimal_of(n)[0] != '0',
    decreases n,
{
    reveal_with_fuel(number_of, 2);
    if n < 10 {
        assert(decimal_of(n).drop_last() =~= Seq::<char>::empty());
    } else {
        law_decimal_reads_back(n / 10);
        assert(decimal_of(n).drop_last() =~= decimal_of(n / 10));
        assert(decimal_of(n)[0] == decimal_of(n / 10)[0]);
        assert(decimal_of(n) =~= decimal_of(n / 10) + decimal_of(n % 10));
    }
}

} // verus!
