//! Character-sequence primitives.
//!
//! Every name, path and line handled by this crate is modelled as a
//! `Seq<char>`. The spec functions below define searching, splitting and
//! trimming on that model; the executable functions compute them on
//! `&[char]` and are proved equal to the model.

use vstd::prelude::*;
use vstd::slice::slice_subrange;

verus! {

/// What is taken on trust of `String::push` of the standard library: it
/// appends the character to the end of the string and leaves the characters
/// already present as they are. Every `String` that the library builds from
/// characters rests on this.
pub assume_specification[ String::push ](s: &mut String, c: char)
    ensures
        final(s)@ == old(s)@.push(c),
;

/// The characters of `s`, in order.
pub fn to_chars(s: &str) -> (out: Vec<char>)
    ensures
        out@ == s@,
{
    let mut out: Vec<char> = Vec::new();
    for c in it: s.chars()
        invariant
            out@ == it.seq().take(it.index() as int),
            it.seq() == s@,
    {
        out.push(c);
    }
    out
}

/// The string made of the characters of `v`, in order.
pub fn from_chars(v: &[char]) -> (out: String)
    ensures
        out@ == v@,
{
    let mut out = String::new();
    let mut i: usize = 0;
    while i < v.len()
        invariant
            i <= v.len(),
            out@ == v@.take(i as int),
        decreases v.len() - i,
    {
        out.push(v[i]);
        i += 1;
    }
    out
}

/// A fresh copy of `v`.
pub fn copy_chars(v: &[char]) -> (out: Vec<char>)
    ensures
        out@ == v@,
{
    let mut out: Vec<char> = Vec::new();
    let mut i: usize = 0;
    while i < v.len()
        invariant
            i <= v.len(),
            out@ == v@.take(i as int),
        decreases v.len() - i,
    {
        out.push(v[i]);
        i += 1;
    }
    out
}

/// The views of a list of character vectors.
pub open spec fn views(v: Seq<Vec<char>>) -> Seq<Seq<char>> {
    Seq::new(v.len(), |i: int| v[i]@)
}

/// The views of a list of strings.
pub open spec fn string_views(v: Seq<String>) -> Seq<Seq<char>> {
    Seq::new(v.len(), |i: int| v[i]@)
}

/// Appends `x` to `v`; the views grow by `x@`.
pub fn push_chars(v: &mut Vec<Vec<char>>, x: Vec<char>)
    ensures
        views(final(v)@) == views(old(v)@).push(x@),
        final(v).len() == old(v).len() + 1,
{
    v.push(x);
    assert(views(v@) =~= views(old(v)@).push(x@));
}

/// Appends `x` to `v`; the views grow by `x@`.
pub fn push_string(v: &mut Vec<String>, x: String)
    ensures
        string_views(final(v)@) == string_views(old(v)@).push(x@),
        final(v).len() == old(v).len() + 1,
{
    v.push(x);
    assert(string_views(v@) =~= string_views(old(v)@).push(x@));
}

/// Converts every element of `v` to a `String`.
pub fn to_strings(v: &Vec<Vec<char>>) -> (out: Vec<String>)
    ensures
        string_views(out@) == views(v@),
{
    let mut out: Vec<String> = Vec::new();
    let mut i: usize = 0;
    while i < v.len()
        invariant
            i <= v.len(),
            string_views(out@) == views(v@).take(i as int),
        decreases v.len() - i,
    {
        let s = from_chars(v[i].as_slice());
        push_string(&mut out, s);
        assert(views(v@).take(i as int).push(v[i as int]@) =~= views(v@).take(i + 1));
        i += 1;
    }
    assert(views(v@).take(v.len() as int) =~= views(v@));
    out
}

/// Whether `a` and `b` hold the same characters.
pub fn same_chars(a: &[char], b: &[char]) -> (r: bool)
    ensures
        r == (a@ == b@),
{
    if a.len() != b.len() {
        return false;
    }
    let mut i: usize = 0;
    while i < a.len()
        invariant
            a.len() == b.len(),
            i <= a.len(),
            a@.take(i as int) == b@.take(i as int),
        decreases a.len() - i,
    {
        if a[i] != b[i] {
            assert(a@[i as int] != b@[i as int]);
            return false;
        }
        assert(a@.take(i + 1) =~= a@.take(i as int).push(a@[i as int]));
        assert(b@.take(i + 1) =~= b@.take(i as int).push(b@[i as int]));
        i += 1;
    }
    assert(a@ =~= a@.take(a.len() as int));
    assert(b@ =~= b@.take(b.len() as int));
    true
}

/// `pat` occurs in `s` at position `i`.
pub open spec fn occurs_at(s: Seq<char>, pat: Seq<char>, i: int) -> bool {
    0 <= i && i + pat.len() <= s.len() && s.subrange(i, i + pat.len()) == pat
}

/// The position of the first occurrence of `pat` in `s` at or after `from`,
/// or `s.len()` when there is none.
pub open spec fn first_at(s: Seq<char>, pat: Seq<char>, from: int) -> int
    decreases s.len() - from,
{
    if from < 0 || from + pat.len() > s.len() {
        s.len() as int
    } else if occurs_at(s, pat, from) || from >= s.len() {
        from
    } else {
        first_at(s, pat, from + 1)
    }
}

/// The position of the last occurrence of `pat` in `s` that starts before
/// `upto`, or `-1` when there is none.
pub open spec fn last_before(s: Seq<char>, pat: Seq<char>, upto: int) -> int
    decreases upto,
{
    if upto <= 0 {
        -1
    } else if occurs_at(s, pat, upto - 1) {
        upto - 1
    } else {
        last_before(s, pat, upto - 1)
    }
}

/// The position of the last occurrence of `pat` in `s`, or `-1`.
pub open spec fn last_at(s: Seq<char>, pat: Seq<char>) -> int {
    last_before(s, pat, s.len() as int + 1)
}

/// What `first_at` returns: the least position at or after `from` where `pat`
/// occurs, if there is one.
pub proof fn lemma_first_at(s: Seq<char>, pat: Seq<char>, from: int)
    requires
        0 <= from <= s.len(),
    ensures
        from <= first_at(s, pat, from) <= s.len(),
        first_at(s, pat, from) + pat.len() <= s.len() ==> occurs_at(
            s,
            pat,
            first_at(s, pat, from),
        ),
        first_at(s, pat, from) + pat.len() > s.len() ==> first_at(s, pat, from) == s.len(),
        forall|k: int| from <= k < first_at(s, pat, from) ==> !occurs_at(s, pat, k),
    decreases s.len() - from,
{
    if from + pat.len() > s.len() {
    } else if occurs_at(s, pat, from) || from >= s.len() {
        assert(s.subrange(from, from + pat.len()) =~= pat);
    } else {
        lemma_first_at(s, pat, from + 1);
    }
}

/// An occurrence with none before it is the first one.
pub proof fn lemma_first_at_is(s: Seq<char>, pat: Seq<char>, from: int, i: int)
    requires
        0 <= from <= i,
        occurs_at(s, pat, i),
        forall|k: int| from <= k < i ==> !occurs_at(s, pat, k),
    ensures
        first_at(s, pat, from) == i,
    decreases i - from,
{
    if from < i {
        lemma_first_at_is(s, pat, from + 1, i);
    }
}

/// Without any occurrence at or after `from`, `first_at` is `s.len()`.
pub proof fn lemma_first_at_none(s: Seq<char>, pat: Seq<char>, from: int)
    requires
        0 <= from,
        forall|k: int| from <= k ==> !occurs_at(s, pat, k),
    ensures
        first_at(s, pat, from) == s.len(),
    decreases s.len() - from,
{
    if from + pat.len() <= s.len() {
        assert(from < s.len()) by {
            if from >= s.len() {
                assert(s.subrange(from, from + pat.len()) =~= pat);
                assert(occurs_at(s, pat, from));
            }
        }
        lemma_first_at_none(s, pat, from + 1);
    }
}

/// What `last_before` returns: the greatest position before `upto` where
/// `pat` occurs, if there is one.
pub proof fn lemma_last_before(s: Seq<char>, pat: Seq<char>, upto: int)
    ensures
        -1 <= last_before(s, pat, upto),
        upto >= 0 ==> last_before(s, pat, upto) < upto,
        last_before(s, pat, upto) >= 0 ==> occurs_at(s, pat, last_before(s, pat, upto)),
        forall|k: int| last_before(s, pat, upto) < k < upto ==> !occurs_at(s, pat, k),
    decreases upto,
{
    if upto <= 0 {
    } else if occurs_at(s, pat, upto - 1) {
    } else {
        lemma_last_before(s, pat, upto - 1);
    }
}

/// Whether `pat` occurs in `s` at position `i`.
pub fn matches_at(s: &[char], pat: &[char], i: usize) -> (r: bool)
    requires
        i <= s.len(),
    ensures
        r == occurs_at(s@, pat@, i as int),
{
    if pat.len() > s.len() - i {
        return false;
    }
    let mut j: usize = 0;
    while j < pat.len()
        invariant
            i + pat.len() <= s.len(),
            j <= pat.len(),
            s@.subrange(i as int, i + j) == pat@.take(j as int),
        decreases pat.len() - j,
    {
        if s[i + j] != pat[j] {
            assert(s@.subrange(i as int, i + pat.len())[j as int] != pat@[j as int]);
            return false;
        }
        assert(s@.subrange(i as int, i + j + 1) =~= s@.subrange(i as int, i + j).push(
            s@[i + j],
        ));
        assert(pat@.take(j + 1) =~= pat@.take(j as int).push(pat@[j as int]));
        j += 1;
    }
    assert(pat@.take(pat.len() as int) =~= pat@);
    true
}

/// The first occurrence of `pat` in `s` at or after `from`.
pub fn find(s: &[char], pat: &[char], from: usize) -> (r: usize)
    requires
        from <= s.len(),
    ensures
        r == first_at(s@, pat@, from as int),
        from <= r <= s.len(),
{
    let mut i: usize = from;
    while i < s.len()
        invariant
            from <= i <= s.len(),
            first_at(s@, pat@, from as int) == first_at(s@, pat@, i as int),
        decreases s.len() - i,
    {
        if matches_at(s, pat, i) {
            return i;
        }
        i += 1;
    }
    proof {
        lemma_first_at(s@, pat@, i as int);
    }
    i
}

/// The last occurrence of `pat` in `s`, if any.
pub fn rfind(s: &[char], pat: &[char]) -> (r: Option<usize>)
    ensures
        match r {
            Some(i) => i == last_at(s@, pat@),
            None => last_at(s@, pat@) == -1,
        },
{
    let mut i: usize = s.len();
    if matches_at(s, pat, i) {
        return Some(i);
    }
    while i > 0
        invariant
            i <= s.len(),
            last_at(s@, pat@) == last_before(s@, pat@, i as int),
        decreases i,
    {
        i -= 1;
        if matches_at(s, pat, i) {
            return Some(i);
        }
    }
    None
}

/// `s` begins with `pat`.
pub open spec fn starts_with(s: Seq<char>, pat: Seq<char>) -> bool {
    occurs_at(s, pat, 0)
}

/// `s` ends with `pat`.
pub open spec fn ends_with(s: Seq<char>, pat: Seq<char>) -> bool {
    occurs_at(s, pat, s.len() - pat.len())
}

/// Whether `s` begins with `pat`.
pub fn has_prefix(s: &[char], pat: &[char]) -> (r: bool)
    ensures
        r == starts_with(s@, pat@),
{
    matches_at(s, pat, 0)
}

/// Whether `s` ends with `pat`.
pub fn has_suffix(s: &[char], pat: &[char]) -> (r: bool)
    ensures
        r == ends_with(s@, pat@),
{
    if pat.len() > s.len() {
        return false;
    }
    matches_at(s, pat, s.len() - pat.len())
}

/// `s` with every `from` replaced by `to`.
pub open spec fn replaced(s: Seq<char>, from: char, to: char) -> Seq<char> {
    Seq::new(s.len(), |i: int| if s[i] == from { to } else { s[i] })
}

/// `s` with every `from` replaced by `to`.
pub fn replace(s: &[char], from: char, to: char) -> (out: Vec<char>)
    ensures
        out@ == replaced(s@, from, to),
{
    let mut out: Vec<char> = Vec::new();
    let mut i: usize = 0;
    while i < s.len()
        invariant
            i <= s.len(),
            out@ == replaced(s@, from, to).take(i as int),
        decreases s.len() - i,
    {
        let c = if s[i] == from { to } else { s[i] };
        out.push(c);
        assert(out@ =~= replaced(s@, from, to).take(i + 1));
        i += 1;
    }
    assert(replaced(s@, from, to).take(s.len() as int) =~= replaced(s@, from, to));
    out
}

/// `s` without any occurrence of `c`.
pub open spec fn without(s: Seq<char>, c: char) -> Seq<char>
    decreases s.len(),
{
    if s.len() == 0 {
        s
    } else if s.last() == c {
        without(s.drop_last(), c)
    } else {
        without(s.drop_last(), c).push(s.last())
    }
}

/// `s` without any occurrence of `c`.
pub fn remove(s: &[char], c: char) -> (out: Vec<char>)
    ensures
        out@ == without(s@, c),
{
    let mut out: Vec<char> = Vec::new();
    let mut i: usize = 0;
    while i < s.len()
        invariant
            i <= s.len(),
            out@ == without(s@.take(i as int), c),
        decreases s.len() - i,
    {
        assert(s@.take(i + 1).drop_last() =~= s@.take(i as int));
        if s[i] != c {
            out.push(s[i]);
        }
        i += 1;
    }
    assert(s@.take(s.len() as int) =~= s@);
    out
}

/// `a` followed by `b`.
pub fn concat(a: &[char], b: &[char]) -> (out: Vec<char>)
    ensures
        out@ == a@ + b@,
{
    let mut out = copy_chars(a);
    let mut i: usize = 0;
    while i < b.len()
        invariant
            i <= b.len(),
            out@ == a@ + b@.take(i as int),
        decreases b.len() - i,
    {
        out.push(b[i]);
        assert(out@ =~= a@ + b@.take(i + 1));
        i += 1;
    }
    assert(b@.take(b.len() as int) =~= b@);
    out
}

/// The characters that count as white space: those with the Unicode
/// property `White_Space`.
pub open spec fn is_space(c: char) -> bool {
    let n = c as int;
    ||| 0x09 <= n <= 0x0d
    ||| n == 0x20
    ||| n == 0x85
    ||| n == 0xa0
    ||| n == 0x1680
    ||| 0x2000 <= n <= 0x200a
    ||| n == 0x2028
    ||| n == 0x2029
    ||| n == 0x202f
    ||| n == 0x205f
    ||| n == 0x3000
}

/// Whether `c` is white space.
pub fn char_is_space(c: char) -> (r: bool)
    ensures
        r == is_space(c),
{
    let n: u32 = c as u32;
    (0x09 <= n && n <= 0x0d) || n == 0x20 || n == 0x85 || n == 0xa0 || n == 0x1680 || (0x2000 <= n
        && n <= 0x200a) || n == 0x2028 || n == 0x2029 || n == 0x202f || n == 0x205f || n == 0x3000
}

/// The first position at or after `i` that holds no white space.
pub open spec fn skip_space(s: Seq<char>, i: int) -> int
    decreases s.len() - i,
{
    if 0 <= i < s.len() && is_space(s[i]) {
        skip_space(s, i + 1)
    } else {
        i
    }
}

/// The end of the last stretch without trailing white space that starts at
/// or after `lo`: the least `j >= lo` such that `s[j..hi]` is white space.
pub open spec fn skip_space_back(s: Seq<char>, lo: int, hi: int) -> int
    decreases hi,
{
    if 0 <= lo < hi <= s.len() && is_space(s[hi - 1]) {
        skip_space_back(s, lo, hi - 1)
    } else {
        hi
    }
}

/// `s` without its leading and trailing white space.
pub open spec fn trimmed(s: Seq<char>) -> Seq<char> {
    let a = skip_space(s, 0);
    let b = skip_space_back(s, a, s.len() as int);
    s.subrange(a, b)
}

/// `s` without its leading and trailing white space.
pub fn trim(s: &[char]) -> (out: &[char])
    ensures
        out@ == trimmed(s@),
{
    let mut a: usize = 0;
    while a < s.len() && char_is_space(s[a])
        invariant
            a <= s.len(),
            skip_space(s@, 0) == skip_space(s@, a as int),
        decreases s.len() - a,
    {
        a += 1;
    }
    let mut b: usize = s.len();
    while a < b && char_is_space(s[b - 1])
        invariant
            a <= b <= s.len(),
            skip_space_back(s@, a as int, s.len() as int) == skip_space_back(
                s@,
                a as int,
                b as int,
            ),
        decreases b,
    {
        b -= 1;
    }
    slice_subrange(s, a, b)
}

/// The pieces of `s` between occurrences of `sep`, starting at `from`. There
/// is always at least one piece; an empty `s` has the one piece `""`.
pub open spec fn fields_from(s: Seq<char>, sep: char, from: int) -> Seq<Seq<char>>
    decreases s.len() - from,
{
    let i = first_at(s, seq![sep], from);
    if 0 <= from <= i < s.len() {
        seq![s.subrange(from, i)] + fields_from(s, sep, i + 1)
    } else {
        seq![s.subrange(from, s.len() as int)]
    }
}

/// The pieces of `s` between occurrences of `sep`.
pub open spec fn fields(s: Seq<char>, sep: char) -> Seq<Seq<char>> {
    fields_from(s, sep, 0)
}

/// The single-character pattern.
pub fn pattern_of(c: char) -> (out: Vec<char>)
    ensures
        out@ == seq![c],
{
    let mut out: Vec<char> = Vec::new();
    out.push(c);
    assert(out@ =~= seq![c]);
    out
}

/// The pieces of `s` between occurrences of `sep`.
pub fn split(s: &[char], sep: char) -> (out: Vec<Vec<char>>)
    ensures
        views(out@) == fields(s@, sep),
{
    let pat = pattern_of(sep);
    let mut out: Vec<Vec<char>> = Vec::new();
    let mut from: usize = 0;
    loop
        invariant_except_break
            fields(s@, sep) == views(out@) + fields_from(s@, sep, from as int),
        invariant
            from <= s.len(),
            pat@ == seq![sep],
        ensures
            views(out@) == fields(s@, sep),
        decreases s.len() - from,
    {
        let i = find(s, pat.as_slice(), from);
        if i < s.len() {
            push_chars(&mut out, copy_chars(slice_subrange(s, from, i)));
            assert(fields(s@, sep) =~= views(out@) + fields_from(s@, sep, i + 1));
            from = i + 1;
        } else {
            push_chars(&mut out, copy_chars(slice_subrange(s, from, s.len())));
            assert(fields(s@, sep) =~= views(out@));
            break;
        }
    }
    out
}

/// `l` without one trailing carriage return.
pub open spec fn without_cr(l: Seq<char>) -> Seq<char> {
    if l.len() > 0 && l.last() == '\r' {
        l.drop_last()
    } else {
        l
    }
}

/// The lines of `s` from position `from` on. A line ends at `"\n"` or
/// `"\r\n"`, neither of which belongs to it; the last line needs no line
/// ending, and an empty rest holds no line.
pub open spec fn lines_from(s: Seq<char>, from: int) -> Seq<Seq<char>>
    decreases s.len() - from,
{
    let i = first_at(s, seq!['\n'], from);
    if 0 <= from <= i < s.len() {
        seq![without_cr(s.subrange(from, i))] + lines_from(s, i + 1)
    } else if 0 <= from < s.len() {
        seq![s.subrange(from, s.len() as int)]
    } else {
        Seq::empty()
    }
}

/// The lines of `s`.
pub open spec fn lines_of(s: Seq<char>) -> Seq<Seq<char>> {
    lines_from(s, 0)
}

/// The lines of `s`.
pub fn lines(s: &[char]) -> (out: Vec<Vec<char>>)
    ensures
        views(out@) == lines_of(s@),
{
    let pat = pattern_of('\n');
    let mut out: Vec<Vec<char>> = Vec::new();
    let mut from: usize = 0;
    while from < s.len()
        invariant
            from <= s.len(),
            pat@ == seq!['\n'],
            lines_of(s@) == views(out@) + lines_from(s@, from as int),
        decreases s.len() - from,
    {
        let i = find(s, pat.as_slice(), from);
        if i < s.len() {
            let end = if i > from && s[i - 1] == '\r' {
                i - 1
            } else {
                i
            };
            assert(s@.subrange(from as int, end as int) =~= without_cr(
                s@.subrange(from as int, i as int),
            ));
            push_chars(&mut out, copy_chars(slice_subrange(s, from, end)));
            assert(lines_of(s@) =~= views(out@) + lines_from(s@, i + 1));
            from = i + 1;
        } else {
            push_chars(&mut out, copy_chars(slice_subrange(s, from, s.len())));
            assert(lines_of(s@) =~= views(out@) + lines_from(s@, s.len() as int));
            from = s.len();
        }
    }
    assert(lines_of(s@) =~= views(out@));
    out
}

/// What a list holds after a push: what it held before, and the new
/// element.
pub proof fn lemma_push_contains(s: Seq<Seq<char>>, x: Seq<char>)
    ensures
        forall|m: Seq<char>| #[trigger] s.push(x).contains(m) <==> s.contains(m) || m == x,
{
    let t = s.push(x);
    assert forall|m: Seq<char>| #[trigger] t.contains(m) <==> s.contains(m) || m == x by {
        if s.contains(m) {
            assert(t[s.index_of(m)] == m);
        }
        if m == x {
            assert(t[s.len() as int] == m);
        }
        if t.contains(m) && m != x {
            assert(s[t.index_of(m)] == m);
        }
    }
}

/// What the first `j + 1` elements of a list hold: what the first `j` hold,
/// and element `j`.
pub proof fn lemma_take_contains(s: Seq<Seq<char>>, j: int)
    requires
        0 <= j < s.len(),
    ensures
        s.take(j + 1) == s.take(j).push(s[j]),
        forall|m: Seq<char>|
            #[trigger] s.take(j + 1).contains(m) <==> s.take(j).contains(m) || m == s[j],
{
    assert(s.take(j + 1) =~= s.take(j).push(s[j]));
    lemma_push_contains(s.take(j), s[j]);
}

/// What a list holds after an insertion: what it held before, and the new
/// element.
pub proof fn lemma_insert_contains(s: Seq<Seq<char>>, p: int, x: Seq<char>)
    requires
        0 <= p <= s.len(),
    ensures
        forall|m: Seq<char>| #[trigger] s.insert(p, x).contains(m) <==> s.contains(m) || m == x,
{
    let t = s.insert(p, x);
    assert forall|m: Seq<char>| #[trigger] t.contains(m) <==> s.contains(m) || m == x by {
        if s.contains(m) {
            let k = s.index_of(m);
            assert(t[if k < p { k } else { k + 1 }] == m);
        }
        if m == x {
            assert(t[p] == m);
        }
        if t.contains(m) && m != x {
            let k = t.index_of(m);
            assert(s[if k < p { k } else { k - 1 }] == m);
        }
    }
}

/// What a list holds: what it holds without its last element, and that
/// element.
pub proof fn lemma_drop_last_contains(s: Seq<Seq<char>>)
    requires
        s.len() > 0,
    ensures
        forall|m: Seq<char>|
            #![trigger s.contains(m)]
            #![trigger s.drop_last().contains(m)]
            s.contains(m) <==> s.drop_last().contains(m) || m == s.last(),
{
    assert(s =~= s.drop_last().push(s.last()));
    lemma_push_contains(s.drop_last(), s.last());
}

/// Whether `name` is one of `list`.
pub fn list_contains(list: &Vec<Vec<char>>, name: &[char]) -> (r: bool)
    ensures
        r == views(list@).contains(name@),
{
    let mut i: usize = 0;
    while i < list.len()
        invariant
            i <= list.len(),
            forall|k: int| 0 <= k < i ==> views(list@)[k] != name@,
        decreases list.len() - i,
    {
        if same_chars(list[i].as_slice(), name) {
            assert(views(list@)[i as int] == name@);
            return true;
        }
        i += 1;
    }
    false
}

} // verus!
