//! Character classes and plain-text operations on sequences of characters.

use vstd::prelude::*;

verus! {

/// `String::push` appends one character to the end of the string.
pub assume_specification[ String::push ](s: &mut String, ch: char)
    ensures
        final(s)@ == old(s)@.push(ch),
;

/// ASCII `A`..=`Z`, as `char::is_ascii_uppercase` defines it.
pub open spec fn is_upper(c: char) -> bool {
    'A' <= c && c <= 'Z'
}

/// ASCII `a`..=`z`, as `char::is_ascii_lowercase` defines it.
pub open spec fn is_lower(c: char) -> bool {
    'a' <= c && c <= 'z'
}

/// ASCII `0`..=`9`, as `char::is_ascii_digit` defines it.
pub open spec fn is_digit(c: char) -> bool {
    '0' <= c && c <= '9'
}

pub fn char_is_upper(c: char) -> (r: bool)
    ensures
        r == is_upper(c),
{
    'A' <= c && c <= 'Z'
}

pub fn char_is_lower(c: char) -> (r: bool)
    ensures
        r == is_lower(c),
{
    'a' <= c && c <= 'z'
}

pub fn char_is_digit(c: char) -> (r: bool)
    ensures
        r == is_digit(c),
{
    '0' <= c && c <= '9'
}

/// A string made of one character.
pub fn char_to_string(c: char) -> (r: String)
    ensures
        r@ == seq![c],
{
    let mut s = String::new();
    s.push(c);
    s
}

} // verus!

verus! {

/// The characters with the Unicode `White_Space` property, which is what
/// `char::is_whitespace` (and so `str::trim`) tests.
pub open spec fn is_space(c: char) -> bool {
    ||| '\u{9}' <= c && c <= '\u{d}'
    ||| c == ' '
    ||| c == '\u{85}'
    ||| c == '\u{a0}'
    ||| c == '\u{1680}'
    ||| '\u{2000}' <= c && c <= '\u{200a}'
    ||| c == '\u{2028}'
    ||| c == '\u{2029}'
    ||| c == '\u{202f}'
    ||| c == '\u{205f}'
    ||| c == '\u{3000}'
}

pub fn char_is_space(c: char) -> (r: bool)
    ensures
        r == is_space(c),
{
    ('\u{9}' <= c && c <= '\u{d}') || c == ' ' || c == '\u{85}' || c == '\u{a0}' || c
        == '\u{1680}' || ('\u{2000}' <= c && c <= '\u{200a}') || c == '\u{2028}' || c
        == '\u{2029}' || c == '\u{202f}' || c == '\u{205f}' || c == '\u{3000}'
}

/// `s` without its leading white space.
pub open spec fn trim_start(s: Seq<char>) -> Seq<char>
    decreases s.len(),
{
    if s.len() > 0 && is_space(s[0]) {
        trim_start(s.drop_first())
    } else {
        s
    }
}

/// `s` without its trailing white space.
pub open spec fn trim_end(s: Seq<char>) -> Seq<char>
    decreases s.len(),
{
    if s.len() > 0 && is_space(s.last()) {
        trim_end(s.drop_last())
    } else {
        s
    }
}

/// `s` without leading and trailing white space, as `str::trim` gives it.
pub open spec fn trim(s: Seq<char>) -> Seq<char> {
    trim_end(trim_start(s))
}

/// The pieces of `s` between the occurrences of `sep`, as `str::split` with
/// a character gives them: there is always one piece more than there are
/// separators.
pub open spec fn split_on(s: Seq<char>, sep: char) -> Seq<Seq<char>>
    decreases s.len(),
{
    if s.len() == 0 {
        seq![Seq::<char>::empty()]
    } else {
        let prev = split_on(s.drop_last(), sep);
        if s.last() == sep {
            prev.push(Seq::<char>::empty())
        } else {
            prev.update(prev.len() - 1, prev.last().push(s.last()))
        }
    }
}

/// Whether `pat` occurs in `s` at index `i`.
pub open spec fn occurs_at(s: Seq<char>, pat: Seq<char>, i: int) -> bool {
    0 <= i && i + pat.len() <= s.len() && s.subrange(i, i + pat.len()) == pat
}

/// The first index at or after `i` where `pat` occurs in `s`.
pub open spec fn find_from(s: Seq<char>, pat: Seq<char>, i: int) -> Option<int>
    decreases s.len() + 1 - i,
{
    if i < 0 || i + pat.len() > s.len() {
        None
    } else if occurs_at(s, pat, i) {
        Some(i)
    } else {
        find_from(s, pat, i + 1)
    }
}

/// The first index where `pat` occurs in `s`, as `str::find` gives it (in
/// characters rather than bytes).
pub open spec fn find(s: Seq<char>, pat: Seq<char>) -> Option<int> {
    find_from(s, pat, 0)
}

pub proof fn lemma_split_on_nonempty(s: Seq<char>, sep: char)
    ensures
        split_on(s, sep).len() >= 1,
    decreases s.len(),
{
    if s.len() > 0 {
        lemma_split_on_nonempty(s.drop_last(), sep);
    }
}

/// Text without the separator is one piece.
pub proof fn lemma_split_on_single(s: Seq<char>, sep: char)
    requires
        !s.contains(sep),
    ensures
        split_on(s, sep) == seq![s],
    decreases s.len(),
{
    if s.len() > 0 {
        let prev = s.drop_last();
        assert(!prev.contains(sep)) by {
            if prev.contains(sep) {
                let k = choose|k: int| 0 <= k < prev.len() && prev[k] == sep;
                assert(s[k] == sep);
            }
        }
        lemma_split_on_single(prev, sep);
        assert(s.last() != sep) by {
            assert(s[s.len() - 1] == s.last());
        }
        assert(prev.push(s.last()) =~= s);
        assert(split_on(s, sep) =~= seq![s]);
    } else {
        assert(s =~= Seq::<char>::empty());
    }
}

/// Splitting text joined at a separator splits each side.
pub proof fn lemma_split_on_concat(a: Seq<char>, sep: char, b: Seq<char>)
    ensures
        split_on(a + seq![sep] + b, sep) == split_on(a, sep) + split_on(b, sep),
    decreases b.len(),
{
    let whole = a + seq![sep] + b;
    if b.len() == 0 {
        assert(whole =~= (a + seq![sep]));
        assert(whole.drop_last() =~= a);
        assert(split_on(b, sep) =~= seq![Seq::<char>::empty()]);
        assert(split_on(whole, sep) =~= split_on(a, sep) + split_on(b, sep));
    } else {
        let bp = b.drop_last();
        lemma_split_on_concat(a, sep, bp);
        lemma_split_on_nonempty(bp, sep);
        assert(whole.drop_last() =~= a + seq![sep] + bp);
        assert(whole.last() == b.last());
        let left = split_on(a, sep);
        let pb = split_on(bp, sep);
        if b.last() == sep {
            assert(split_on(whole, sep) =~= left + pb.push(Seq::<char>::empty()));
        } else {
            assert((left + pb).update((left + pb).len() - 1, (left + pb).last().push(b.last()))
                =~= left + pb.update(pb.len() - 1, pb.last().push(b.last())));
        }
    }
}

/// Text that starts and ends with other characters than white space is
/// its own trim.
pub proof fn lemma_trim_none(s: Seq<char>)
    requires
        s.len() > 0,
        !is_space(s[0]),
        !is_space(s.last()),
    ensures
        trim(s) == s,
{
}

/// Leading and trailing spaces are trimmed away.
pub proof fn lemma_trim_spaces(s: Seq<char>, before: bool, after: bool)
    requires
        s.len() > 0,
        !is_space(s[0]),
        !is_space(s.last()),
    ensures
        trim((if before { seq![' '] } else { Seq::<char>::empty() }) + s + (if after {
            seq![' ']
        } else {
            Seq::<char>::empty()
        })) == s,
{
    let pre = if before { seq![' '] } else { Seq::<char>::empty() };
    let post = if after { seq![' '] } else { Seq::<char>::empty() };
    let t = pre + s + post;
    let s1 = s + post;
    if before {
        assert(t[0] == ' ');
        assert(t.drop_first() =~= s1);
    } else {
        assert(t =~= s1);
    }
    assert(s1[0] == s[0]);
    assert(trim_start(s1) == s1);
    if after {
        assert(s1.last() == ' ');
        assert(s1.drop_last() =~= s);
        assert(trim_end(s) == s);
    } else {
        assert(s1 =~= s);
    }
}

pub proof fn lemma_find_from_result(s: Seq<char>, pat: Seq<char>, i: int)
    requires
        0 <= i,
    ensures
        find_from(s, pat, i) matches Some(k) ==> i <= k && occurs_at(s, pat, k),
    decreases s.len() + 1 - i,
{
    if i + pat.len() <= s.len() && !occurs_at(s, pat, i) {
        lemma_find_from_result(s, pat, i + 1);
    }
}

/// The characters of `s`.
pub fn chars_of(s: &str) -> (r: Vec<char>)
    ensures
        r@ == s@,
{
    let n = s.unicode_len();
    let mut out: Vec<char> = Vec::new();
    let mut i: usize = 0;
    while i < n
        invariant
            i <= n,
            n == s@.len(),
            out@ == s@.take(i as int),
        decreases n - i,
    {
        let c = s.get_char(i);
        out.push(c);
        assert(s@.take(i + 1) =~= s@.take(i as int).push(c));
        i = i + 1;
    }
    assert(s@.take(n as int) =~= s@);
    out
}

/// A string holding the characters `s[lo..hi]`.
pub fn string_of(s: &Vec<char>, lo: usize, hi: usize) -> (r: String)
    requires
        lo <= hi <= s@.len(),
    ensures
        r@ == s@.subrange(lo as int, hi as int),
{
    let mut out = String::new();
    let mut i = lo;
    while i < hi
        invariant
            lo <= i <= hi,
            hi <= s@.len(),
            out@ == s@.subrange(lo as int, i as int),
        decreases hi - i,
    {
        out.push(s[i]);
        assert(s@.subrange(lo as int, i + 1) =~= s@.subrange(lo as int, i as int).push(s@[i as int]));
        i = i + 1;
    }
    out
}

/// The characters `s[lo..hi]`.
pub fn sub_chars(s: &Vec<char>, lo: usize, hi: usize) -> (r: Vec<char>)
    requires
        lo <= hi <= s@.len(),
    ensures
        r@ == s@.subrange(lo as int, hi as int),
{
    let mut out: Vec<char> = Vec::new();
    let mut i = lo;
    while i < hi
        invariant
            lo <= i <= hi,
            hi <= s@.len(),
            out@ == s@.subrange(lo as int, i as int),
        decreases hi - i,
    {
        out.push(s[i]);
        assert(s@.subrange(lo as int, i + 1) =~= s@.subrange(lo as int, i as int).push(s@[i as int]));
        i = i + 1;
    }
    out
}

/// `s` without leading and trailing white space.
pub fn trim_chars(s: &Vec<char>) -> (r: Vec<char>)
    ensures
        r@ == trim(s@),
{
    let n = s.len();
    let mut lo: usize = 0;
    assert(s@.skip(0) =~= s@);
    while lo < n && char_is_space(s[lo])
        invariant
            lo <= n,
            n == s@.len(),
            trim_start(s@) == trim_start(s@.skip(lo as int)),
        decreases n - lo,
    {
        assert(s@.skip(lo as int).drop_first() =~= s@.skip(lo + 1));
        lo = lo + 1;
    }
    let ghost front = s@.skip(lo as int);
    assert(trim_start(front) == front);
    let mut hi: usize = n;
    while hi > lo && char_is_space(s[hi - 1])
        invariant
            lo <= hi <= n,
            n == s@.len(),
            front == s@.skip(lo as int),
            trim_end(front) == trim_end(s@.subrange(lo as int, hi as int)),
        decreases hi,
    {
        assert(s@.subrange(lo as int, hi as int).drop_last() =~= s@.subrange(
            lo as int,
            hi - 1,
        ));
        hi = hi - 1;
    }
    assert(front =~= s@.subrange(lo as int, n as int));
    sub_chars(s, lo, hi)
}

/// The pieces of `s` between the occurrences of `sep`.
pub fn split_chars(s: &Vec<char>, sep: char) -> (r: Vec<Vec<char>>)
    ensures
        r.deep_view() == split_on(s@, sep),
{
    let n = s.len();
    let mut done: Vec<Vec<char>> = Vec::new();
    let mut current: Vec<char> = Vec::new();
    let mut i: usize = 0;
    assert(s@.take(0) =~= Seq::<char>::empty());
    assert(current.deep_view() =~= Seq::<char>::empty());
    assert(done.deep_view() =~= Seq::<Seq<char>>::empty());
    assert(done.deep_view().push(current.deep_view()) =~= seq![Seq::<char>::empty()]);
    while i < n
        invariant
            i <= n,
            n == s@.len(),
            done.deep_view().push(current.deep_view()) == split_on(s@.take(i as int), sep),
        decreases n - i,
    {
        let c = s[i];
        assert(s@.take(i + 1).drop_last() =~= s@.take(i as int));
        let ghost before = done.deep_view();
        let ghost cur = current.deep_view();
        if c == sep {
            let piece = current;
            done.push(piece);
            current = Vec::new();
            assert(done.deep_view() =~= before.push(cur));
            assert(current.deep_view() =~= Seq::<char>::empty());
            assert(done.deep_view().push(current.deep_view()) =~= split_on(s@.take(i + 1), sep));
        } else {
            current.push(c);
            assert(current.deep_view() =~= cur.push(c));
            assert(done.deep_view().push(current.deep_view()) =~= before.push(cur).update(
                before.len() as int,
                cur.push(c),
            ));
            assert(done.deep_view().push(current.deep_view()) =~= split_on(s@.take(i + 1), sep));
        }
        i = i + 1;
    }
    assert(s@.take(n as int) =~= s@);
    let ghost before = done.deep_view();
    let ghost cur = current.deep_view();
    done.push(current);
    assert(done.deep_view() =~= before.push(cur));
    done
}

/// Whether `pat` occurs in `s` at index `i`.
fn chars_occur_at(s: &Vec<char>, pat: &Vec<char>, i: usize) -> (r: bool)
    requires
        i + pat@.len() <= s@.len(),
    ensures
        r == occurs_at(s@, pat@, i as int),
{
    let m = pat.len();
    let n = s.len();
    let mut j: usize = 0;
    while j < m
        invariant
            j <= m,
            m == pat@.len(),
            n == s@.len(),
            i + m <= n,
            forall|k: int| 0 <= k < j ==> s@[i + k] == pat@[k],
        decreases m - j,
    {
        if s[i + j] != pat[j] {
            assert(s@.subrange(i as int, i + m)[j as int] != pat@[j as int]);
            return false;
        }
        j = j + 1;
    }
    assert(s@.subrange(i as int, i + m) =~= pat@);
    true
}

/// The first index where `pat` occurs in `s`.
pub fn find_chars(s: &Vec<char>, pat: &Vec<char>) -> (r: Option<usize>)
    ensures
        r matches Some(k) ==> find(s@, pat@) == Some(k as int),
        r is None ==> find(s@, pat@) is None,
{
    let n = s.len();
    let m = pat.len();
    if m > n {
        return None;
    }
    if m == 0 {
        assert(s@.subrange(0, 0) =~= pat@);
        return Some(0);
    }
    let mut i: usize = 0;
    while i <= n - m
        invariant
            1 <= m <= n,
            i <= n - m + 1,
            n == s@.len(),
            m == pat@.len(),
            find(s@, pat@) == find_from(s@, pat@, i as int),
        decreases n - i,
    {
        if chars_occur_at(s, pat, i) {
            return Some(i);
        }
        i = i + 1;
    }
    None
}

/// Appends the characters of `extra` to `s`.
pub fn push_all(s: &mut String, extra: &Vec<char>)
    ensures
        final(s)@ == old(s)@ + extra@,
{
    let mut i: usize = 0;
    let n = extra.len();
    while i < n
        invariant
            i <= n,
            n == extra@.len(),
            s@ == old(s)@ + extra@.take(i as int),
        decreases n - i,
    {
        s.push(extra[i]);
        assert(extra@.take(i + 1) =~= extra@.take(i as int).push(extra@[i as int]));
        i = i + 1;
    }
    assert(extra@.take(n as int) =~= extra@);
}

} // verus!

verus! {

/// The pieces one after the other, with `sep` between each two.
pub open spec fn join(parts: Seq<Seq<char>>, sep: Seq<char>) -> Seq<char>
    decreases parts.len(),
{
    if parts.len() == 0 {
        Seq::empty()
    } else if parts.len() == 1 {
        parts[0]
    } else {
        join(parts.drop_last(), sep) + sep + parts.last()
    }
}

/// The strings one after the other, with `sep` between each two.
pub fn join_strings(parts: &Vec<String>, sep: &str) -> (r: String)
    ensures
        r@ == join(parts.deep_view(), sep@),
{
    let ghost p = parts.deep_view();
    let mut out = String::new();
    let n = parts.len();
    let mut i: usize = 0;
    assert(p.take(0) =~= Seq::<Seq<char>>::empty());
    while i < n
        invariant
            i <= n,
            n == p.len(),
            p == parts.deep_view(),
            out@ == join(p.take(i as int), sep@),
        decreases n - i,
    {
        assert(p.take(i + 1).drop_last() =~= p.take(i as int));
        assert(p[i as int] == parts@[i as int]@);
        if i > 0 {
            out.append(sep);
        } else {
            assert(p.take(1) =~= seq![p[0]]);
        }
        out.append(parts[i].as_str());
        i = i + 1;
    }
    assert(p.take(n as int) =~= p);
    out
}

} // verus!
