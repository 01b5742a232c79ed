//! Wrong answers for a sentence: strings near it that the grammar's regular
//! expression rejects.

use vstd::prelude::*;

use crate::grammar::{Grammar, GrammarModel};
use crate::pattern::{Pattern, compile_pattern, pattern_matches, regex_error, regex_matches};
use crate::regex_conversion::{RegexTraceModel, regex_trace_of, to_regex};
use crate::seq_facts::{lemma_deep_view, lemma_deep_view_push, lemma_push};
use crate::symbol::{ErrorModel, GrammarError, decimal, decimal_string, string_from};
use crate::text::{chars_of, string_of};

verus! {

/// `char::from_u32` gives the character with the code `i`, when `i` is one.
pub assume_specification[ core::char::from_u32 ](i: u32) -> (r: Option<char>)
    ensures
        r == if i <= 0xD7FF || (0xE000 <= i && i <= 0x10FFFF) {
            Some(i as char)
        } else {
            None::<char>
        },
;

/// The regular expression of `g`, or the error that stops its conversion.
pub open spec fn pattern_of(g: GrammarModel) -> Result<Seq<char>, ErrorModel> {
    match regex_trace_of(g) {
        Ok(t) => Ok(t.final_expression),
        Err(e) => Err(e),
    }
}

/// The expression that matches exactly the words of `pattern`.
pub open spec fn anchored(pattern: Seq<char>) -> Seq<char> {
    "^(?:"@ + pattern + ")$"@
}

/// `s` without its `i`-th character, for each `i` in turn.
pub open spec fn removals(s: Seq<char>) -> Seq<Seq<char>> {
    Seq::new(s.len(), |i: int| s.take(i) + s.skip(i + 1))
}

/// `s` with `m` in place of its `i`-th character, for each `i` in turn.
pub open spec fn replacements(s: Seq<char>, m: char) -> Seq<Seq<char>> {
    Seq::new(s.len(), |i: int| s.update(i, m))
}

/// What the marker `m` offers: `s` followed by `m`, `m` followed by `s`,
/// then the replacements.
pub open spec fn marker_block(s: Seq<char>, m: char) -> Seq<Seq<char>> {
    seq![s.push(m), seq![m] + s] + replacements(s, m)
}

/// The marker characters, in the order they are tried: a few symbols, the
/// lower-case letters, then the characters of the private use area.
pub open spec fn markers() -> Seq<char> {
    seq!['?', '#', '!', '0', 'x', 'y', 'z'] + Seq::new(26, |i: int| (97 + i) as char) + Seq::new(
        6400,
        |i: int| (0xE000 + i) as char,
    )
}

/// The blocks of the markers `ms` that are not terminals, one after the
/// other.
pub open spec fn marker_candidates(s: Seq<char>, terminals: Seq<char>, ms: Seq<char>) -> Seq<
    Seq<char>,
>
    decreases ms.len(),
{
    if ms.len() == 0 {
        Seq::empty()
    } else {
        marker_candidates(s, terminals, ms.drop_last()) + if terminals.contains(ms.last()) {
            Seq::<Seq<char>>::empty()
        } else {
            marker_block(s, ms.last())
        }
    }
}

/// Every candidate for `s`, in the order they are tried.
pub open spec fn candidates(s: Seq<char>, terminals: Seq<char>) -> Seq<Seq<char>> {
    removals(s) + marker_candidates(s, terminals, markers())
}

/// Whether the candidate `c` joins the distractors `prev`: it differs from
/// the sentence, is not among them yet, and the expression rejects it.
pub open spec fn accept_step(prev: Seq<Seq<char>>, c: Seq<char>, s: Seq<char>, pattern: Seq<char>) -> Seq<
    Seq<char>,
> {
    if c != s && !prev.contains(c) && !regex_matches(pattern, c) {
        prev.push(c)
    } else {
        prev
    }
}

/// The distractors that the candidates `cands` give, in order.
pub open spec fn accepted(cands: Seq<Seq<char>>, s: Seq<char>, pattern: Seq<char>) -> Seq<
    Seq<char>,
>
    decreases cands.len(),
{
    if cands.len() == 0 {
        Seq::empty()
    } else {
        accept_step(accepted(cands.drop_last(), s, pattern), cands.last(), s, pattern)
    }
}

pub open spec fn not_in_language_message() -> Seq<char> {
    "a sentença de referência não pertence à linguagem da gramática"@
}

pub open spec fn too_few_message(count: usize) -> Seq<char> {
    "não foi possível gerar "@ + decimal(count as nat) + " distratores fora da linguagem"@
}

/// What `generate_distractors` gives: nothing for a count of zero; else
/// the error of the conversion or of the compilation, the refusal of a
/// sentence outside the language, or the first `count` distractors when
/// there are that many.
pub open spec fn distractors_of(g: GrammarModel, s: Seq<char>, count: usize) -> Result<
    Seq<Seq<char>>,
    ErrorModel,
> {
    if count == 0 {
        Ok(Seq::empty())
    } else {
        match pattern_of(g) {
            Err(e) => Err(e),
            Ok(p) => {
                let a = anchored(p);
                match regex_error(a) {
                    Some(m) => Err(ErrorModel::RegexConversionFailed(m)),
                    None => if !regex_matches(a, s) {
                        Err(ErrorModel::RegexConversionFailed(not_in_language_message()))
                    } else {
                        let pool = accepted(candidates(s, g.terminals), s, a);
                        if pool.len() >= count {
                            Ok(pool.take(count as int))
                        } else {
                            Err(ErrorModel::RegexConversionFailed(too_few_message(count)))
                        }
                    },
                }
            },
        }
    }
}

/// The distractors of candidates are distinct, differ from the sentence,
/// and are rejected by the expression.
pub proof fn lemma_accepted_are_distractors(cands: Seq<Seq<char>>, s: Seq<char>, p: Seq<char>)
    ensures
        forall|i: int, j: int|
            0 <= i < j < accepted(cands, s, p).len() ==> accepted(cands, s, p)[i] != accepted(
                cands,
                s,
                p,
            )[j],
        forall|i: int|
            0 <= i < accepted(cands, s, p).len() ==> #[trigger] accepted(cands, s, p)[i] != s
                && !regex_matches(p, accepted(cands, s, p)[i]),
    decreases cands.len(),
{
    if cands.len() > 0 {
        let prev = accepted(cands.drop_last(), s, p);
        lemma_accepted_are_distractors(cands.drop_last(), s, p);
        let c = cands.last();
        if c != s && !prev.contains(c) && !regex_matches(p, c) {
            lemma_push(prev, c);
            let a = accepted(cands, s, p);
            assert forall|i: int, j: int| 0 <= i < j < a.len() implies a[i] != a[j] by {
                if j == prev.len() {
                    assert(a[i] == prev[i]);
                    if a[i] == c {
                        assert(prev.contains(c));
                    }
                }
            }
        }
    }
}

/// What `generate_distractors` gives, when it succeeds, is `count`
/// distinct strings, none of them the sentence, that the grammar's
/// expression, anchored at both ends, rejects.
pub proof fn lemma_distractors_are_rejected(g: GrammarModel, s: Seq<char>, count: usize)
    ensures
        distractors_of(g, s, count) matches Ok(v) ==> {
            &&& v.len() == count
            &&& forall|i: int, j: int| 0 <= i < j < v.len() ==> v[i] != v[j]
            &&& forall|i: int|
                0 <= i < v.len() ==> #[trigger] v[i] != s && (pattern_of(g) matches Ok(p)
                    ==> !regex_matches(anchored(p), v[i]))
        },
{
    if count > 0 {
        match pattern_of(g) {
            Ok(p) => {
                let a = anchored(p);
                let pool = accepted(candidates(s, g.terminals), s, a);
                lemma_accepted_are_distractors(candidates(s, g.terminals), s, a);
                if pool.len() >= count {
                    let v = pool.take(count as int);
                    assert forall|i: int| 0 <= i < v.len() implies #[trigger] v[i] != s
                        && !regex_matches(anchored(p), v[i]) by {
                        assert(v[i] == pool[i]);
                    }
                    assert forall|i: int, j: int| 0 <= i < j < v.len() implies v[i] != v[j] by {
                        assert(v[i] == pool[i]);
                        assert(v[j] == pool[j]);
                    }
                }
            },
            Err(_) => {},
        }
    }
}

// ---------------------------------------------------------------------------
// Facts about the order of the candidates.

proof fn lemma_prefix_trans(a: Seq<Seq<char>>, b: Seq<Seq<char>>, c: Seq<Seq<char>>)
    requires
        a.len() <= b.len() <= c.len(),
        a == b.take(a.len() as int),
        b == c.take(b.len() as int),
    ensures
        a == c.take(a.len() as int),
{
    assert(a =~= c.take(a.len() as int));
}

/// The distractors of a prefix of the candidates begin those of all of them.
pub proof fn lemma_accepted_prefix(all: Seq<Seq<char>>, n: int, s: Seq<char>, p: Seq<char>)
    requires
        0 <= n <= all.len(),
    ensures
        accepted(all, s, p).len() >= accepted(all.take(n), s, p).len(),
        accepted(all, s, p).take(accepted(all.take(n), s, p).len() as int) == accepted(
            all.take(n),
            s,
            p,
        ),
    decreases all.len(),
{
    if n == all.len() {
        assert(all.take(n) =~= all);
        assert(accepted(all, s, p).take(accepted(all, s, p).len() as int) =~= accepted(all, s, p));
    } else {
        let prev = all.drop_last();
        assert(prev.take(n) =~= all.take(n));
        lemma_accepted_prefix(prev, n, s, p);
        let a = accepted(prev, s, p);
        let b = accepted(all, s, p);
        let k = accepted(all.take(n), s, p).len() as int;
        if b != a {
            lemma_push(a, all.last());
            assert(b.take(k) =~= a.take(k));
        }
    }
}

/// The blocks of the first `k` markers begin those of all of them.
proof fn lemma_marker_prefix(s: Seq<char>, terminals: Seq<char>, ms: Seq<char>, k: int)
    requires
        0 <= k <= ms.len(),
    ensures
        marker_candidates(s, terminals, ms.take(k)).len() <= marker_candidates(
            s,
            terminals,
            ms,
        ).len(),
        marker_candidates(s, terminals, ms).take(
            marker_candidates(s, terminals, ms.take(k)).len() as int,
        ) == marker_candidates(s, terminals, ms.take(k)),
    decreases ms.len(),
{
    let whole = marker_candidates(s, terminals, ms);
    if k == ms.len() {
        assert(ms.take(k) =~= ms);
        assert(whole.take(whole.len() as int) =~= whole);
    } else {
        let prev = ms.drop_last();
        assert(prev.take(k) =~= ms.take(k));
        lemma_marker_prefix(s, terminals, prev, k);
        let a = marker_candidates(s, terminals, prev);
        let m = marker_candidates(s, terminals, ms.take(k));
        assert(whole.take(m.len() as int) =~= a.take(m.len() as int));
    }
}

/// The candidates up to the end of the block of marker `k` begin all the
/// candidates.
proof fn lemma_block_prefix(s: Seq<char>, terminals: Seq<char>, k: int)
    requires
        0 <= k < markers().len(),
    ensures
        removals(s).len() + marker_candidates(s, terminals, markers().take(k + 1)).len()
            <= candidates(s, terminals).len(),
        removals(s) + marker_candidates(s, terminals, markers().take(k + 1)) == candidates(
            s,
            terminals,
        ).take(
            (removals(s).len() + marker_candidates(s, terminals, markers().take(k + 1)).len()) as int,
        ),
        marker_candidates(s, terminals, markers().take(k + 1)) == marker_candidates(
            s,
            terminals,
            markers().take(k),
        ) + if terminals.contains(markers()[k]) {
            Seq::<Seq<char>>::empty()
        } else {
            marker_block(s, markers()[k])
        },
{
    let ms = markers();
    assert(ms.take(k + 1).drop_last() =~= ms.take(k));
    assert(ms.take(k + 1).last() == ms[k]);
    lemma_marker_prefix(s, terminals, ms, k + 1);
    let r = removals(s);
    let mc = marker_candidates(s, terminals, ms.take(k + 1));
    let all = candidates(s, terminals);
    assert(r + mc =~= all.take((r.len() + mc.len()) as int));
}

// ---------------------------------------------------------------------------
// Building and offering candidates.

fn same_chars(a: &Vec<char>, b: &Vec<char>) -> (r: bool)
    ensures
        r == (a@ == b@),
{
    if a.len() != b.len() {
        return false;
    }
    let n = a.len();
    let mut i: usize = 0;
    while i < n
        invariant
            i <= n,
            n == a@.len(),
            n == b@.len(),
            forall|j: int| 0 <= j < i ==> a@[j] == b@[j],
        decreases n - i,
    {
        if a[i] != b[i] {
            return false;
        }
        i = i + 1;
    }
    assert(a@ =~= b@);
    true
}

fn contains_chars(pool: &Vec<Vec<char>>, c: &Vec<char>) -> (r: bool)
    ensures
        r == pool.deep_view().contains(c@),
{
    proof {
        lemma_deep_view(*pool);
    }
    let n = pool.len();
    let mut i: usize = 0;
    while i < n
        invariant
            i <= n,
            n == pool@.len(),
            pool.deep_view().len() == n,
            forall|j: int| 0 <= j < pool@.len() ==> pool.deep_view()[j] == pool@[j]@,
            forall|j: int| 0 <= j < i ==> pool.deep_view()[j] != c@,
        decreases n - i,
    {
        if same_chars(&pool[i], c) {
            assert(pool.deep_view()[i as int] == c@);
            return true;
        }
        i = i + 1;
    }
    false
}

fn contains_char(items: &Vec<char>, c: char) -> (r: bool)
    ensures
        r == items@.contains(c),
{
    let n = items.len();
    let mut i: usize = 0;
    while i < n
        invariant
            i <= n,
            n == items@.len(),
            forall|j: int| 0 <= j < i ==> items@[j] != c,
        decreases n - i,
    {
        if items[i] == c {
            assert(items@[i as int] == c);
            return true;
        }
        i = i + 1;
    }
    false
}

/// Offers `c` to the distractors `pool`; true when they reach `count`.
fn offer(
    pool: &mut Vec<Vec<char>>,
    c: Vec<char>,
    sentence: &Vec<char>,
    pattern: &Pattern,
    count: usize,
) -> (full: bool)
    requires
        old(pool)@.len() < count,
    ensures
        final(pool).deep_view() == accept_step(old(pool).deep_view(), c@, sentence@, pattern@),
        final(pool)@.len() <= count,
        full == (final(pool)@.len() == count),
{
    proof {
        lemma_deep_view(*pool);
    }
    if same_chars(&c, sentence) {
        return false;
    }
    if contains_chars(pool, &c) {
        return false;
    }
    let text = string_of(&c, 0, c.len());
    assert(c@.subrange(0, c@.len() as int) =~= c@);
    if pattern_matches(pattern, text.as_str()) {
        return false;
    }
    let ghost before = *pool;
    let ghost cc = c;
    proof {
        lemma_deep_view(cc);
        assert(cc.deep_view() =~= cc@);
    }
    pool.push(c);
    proof {
        lemma_deep_view_push(before, *pool, cc);
        lemma_push(before@, cc);
    }
    pool.len() == count
}

/// `s` without its `i`-th character.
fn without(s: &Vec<char>, i: usize) -> (r: Vec<char>)
    requires
        i < s@.len(),
    ensures
        r@ == s@.take(i as int) + s@.skip(i + 1),
{
    let n = s.len();
    let mut out: Vec<char> = Vec::new();
    let mut t: usize = 0;
    while t < n
        invariant
            t <= n,
            n == s@.len(),
            i < n,
            out@ == if t <= i {
                s@.take(t as int)
            } else {
                s@.take(i as int) + s@.subrange(i + 1, t as int)
            },
        decreases n - t,
    {
        if t != i {
            out.push(s[t]);
        }
        proof {
            if t < i {
                assert(s@.take(t + 1) =~= s@.take(t as int).push(s@[t as int]));
            } else if t == i {
                assert(s@.take(i as int) + s@.subrange(i + 1, i + 1) =~= s@.take(i as int));
            } else {
                assert(s@.take(i as int) + s@.subrange(i + 1, t + 1) =~= (s@.take(i as int)
                    + s@.subrange(i + 1, t as int)).push(s@[t as int]));
            }
        }
        t = t + 1;
    }
    assert(s@.subrange(i + 1, n as int) =~= s@.skip(i + 1));
    out
}

/// The markers, in the order they are tried.
fn marker_list() -> (r: Vec<char>)
    ensures
        r@ == markers(),
{
    let mut out: Vec<char> = vec!['?', '#', '!', '0', 'x', 'y', 'z'];
    let ghost head = out@;
    let mut i: u8 = 0;
    while i < 26
        invariant
            i <= 26,
            out@ == head + Seq::new(i as nat, |j: int| (97 + j) as char),
        decreases 26 - i,
    {
        let ghost before = out@;
        out.push((97 + i) as char);
        assert(out@ =~= head + Seq::new((i + 1) as nat, |j: int| (97 + j) as char));
        i = i + 1;
    }
    let ghost mid = out@;
    let mut k: u32 = 0;
    while k < 6400
        invariant
            k <= 6400,
            out@ == mid + Seq::new(k as nat, |j: int| (0xE000 + j) as char),
        decreases 6400 - k,
    {
        match core::char::from_u32(0xE000 + k) {
            Some(c) => {
                out.push(c);
                assert(out@ =~= mid + Seq::new((k + 1) as nat, |j: int| (0xE000 + j) as char));
            },
            None => {},
        }
        k = k + 1;
    }
    assert(out@ =~= markers());
    out
}

/// When the distractors of a prefix of the candidates reach `count`, they
/// are the first `count` of all.
proof fn lemma_full(
    all: Seq<Seq<char>>,
    done: Seq<Seq<char>>,
    pool: Seq<Seq<char>>,
    count: usize,
    s: Seq<char>,
    p: Seq<char>,
)
    requires
        done.len() <= all.len(),
        done == all.take(done.len() as int),
        pool == accepted(done, s, p),
        pool.len() == count,
    ensures
        accepted(all, s, p).len() >= count,
        accepted(all, s, p).take(count as int) == pool,
{
    lemma_accepted_prefix(all, done.len() as int, s, p);
}

/// Offering `c` after the candidates `done` extends them by `c`.
proof fn lemma_offered(done: Seq<Seq<char>>, c: Seq<char>, s: Seq<char>, p: Seq<char>)
    ensures
        accepted(done.push(c), s, p) == accept_step(accepted(done, s, p), c, s, p),
{
    assert(done.push(c).drop_last() =~= done);
}

fn copy_chars(s: &Vec<char>) -> (r: Vec<char>)
    ensures
        r@ == s@,
{
    let r = crate::text::sub_chars(s, 0, s.len());
    assert(s@.subrange(0, s@.len() as int) =~= s@);
    r
}

/// `m` followed by `s`.
fn prepend(m: char, s: &Vec<char>) -> (r: Vec<char>)
    ensures
        r@ == seq![m] + s@,
{
    let mut out: Vec<char> = Vec::new();
    out.push(m);
    let n = s.len();
    let mut i: usize = 0;
    while i < n
        invariant
            i <= n,
            n == s@.len(),
            out@ == seq![m] + s@.take(i as int),
        decreases n - i,
    {
        out.push(s[i]);
        assert(seq![m] + s@.take(i + 1) =~= (seq![m] + s@.take(i as int)).push(s@[i as int]));
        i = i + 1;
    }
    assert(s@.take(n as int) =~= s@);
    out
}

fn to_strings(pool: &Vec<Vec<char>>) -> (r: Vec<String>)
    ensures
        r.deep_view() == pool.deep_view(),
{
    proof {
        lemma_deep_view(*pool);
    }
    let n = pool.len();
    let mut out: Vec<String> = Vec::new();
    let mut i: usize = 0;
    while i < n
        invariant
            i <= n,
            n == pool@.len(),
            pool.deep_view().len() == n,
            forall|j: int| 0 <= j < n ==> pool.deep_view()[j] == pool@[j]@,
            out.deep_view() == pool.deep_view().take(i as int),
        decreases n - i,
    {
        let text = string_of(&pool[i], 0, pool[i].len());
        assert(pool@[i as int]@.subrange(0, pool@[i as int]@.len() as int) =~= pool@[i as int]@);
        let ghost before = out;
        let ghost t = text;
        out.push(text);
        proof {
            lemma_deep_view_push(before, out, t);
            assert(pool.deep_view().take(i + 1) =~= pool.deep_view().take(i as int).push(t@));
        }
        i = i + 1;
    }
    assert(pool.deep_view().take(n as int) =~= pool.deep_view());
    out
}

/// Creates `count` distinct strings near `sentence` that the grammar's
/// language does not hold: `sentence` without one character, with a marker
/// after it, before it or in place of one of its characters, in that order,
/// the markers being characters that are not terminals. Each is checked
/// against the grammar's regular expression, anchored at both ends, before it
/// is taken. The sentence itself must be in the language.
pub fn generate_distractors(grammar: &Grammar, sentence: &str, count: usize) -> (r: Result<
    Vec<String>,
    GrammarError,
>)
    ensures
        match r {
            Ok(v) => distractors_of(grammar.deep_view(), sentence@, count) == Ok::<
                Seq<Seq<char>>,
                ErrorModel,
            >(v.deep_view()),
            Err(e) => distractors_of(grammar.deep_view(), sentence@, count) == Err::<
                Seq<Seq<char>>,
                ErrorModel,
            >(e.deep_view()),
        },
{
    if count == 0 {
        let out: Vec<String> = Vec::new();
        assert(out.deep_view() =~= Seq::<Seq<char>>::empty());
        return Ok(out);
    }
    let expression = match to_regex(grammar) {
        Ok(p) => p,
        Err(e) => {
            return Err(e);
        },
    };
    let mut source = string_from("^(?:");
    source.append(expression.as_str());
    source.append(")$");
    let ghost a = source@;
    assert(a == anchored(expression@));
    let pattern = match compile_pattern(source) {
        Ok(p) => p,
        Err(m) => {
            return Err(GrammarError::RegexConversionFailed(m));
        },
    };
    if !pattern_matches(&pattern, sentence) {
        return Err(
            GrammarError::RegexConversionFailed(
                string_from("a sentença de referência não pertence à linguagem da gramática"),
            ),
        );
    }
    let s = chars_of(sentence);
    let ghost sv = s@;
    let ghost terminals = grammar.terminals@;
    let ghost all = candidates(sv, terminals);
    let ghost rem = removals(sv);
    let n = s.len();
    let mut pool: Vec<Vec<char>> = Vec::new();
    let ghost mut done: Seq<Seq<char>> = Seq::empty();
    assert(pool.deep_view() =~= Seq::<Seq<char>>::empty());
    let mut i: usize = 0;
    while i < n
        invariant
            i <= n,
            n == sv.len(),
            s@ == sv,
            pattern@ == a,
            sv == sentence@,
            terminals == grammar.terminals@,
            a == anchored(expression@),
            pattern_of(grammar.deep_view()) == Ok::<Seq<char>, ErrorModel>(expression@),
            regex_error(a) is None,
            regex_matches(a, sentence@),
            rem == removals(sv),
            all == candidates(sv, terminals),
            done == rem.take(i as int),
            pool.deep_view() == accepted(done, sv, a),
            pool@.len() < count,
        decreases n - i,
    {
        let c = without(&s, i);
        let ghost cv = c@;
        assert(cv == rem[i as int]);
        proof {
            lemma_offered(done, cv, sv, a);
            done = done.push(cv);
            assert(done =~= rem.take(i + 1));
        }
        if offer(&mut pool, c, &s, &pattern, count) {
            proof {
                assert(done =~= all.take(done.len() as int));
                lemma_full(all, done, pool.deep_view(), count, sv, a);
            }
            return Ok(to_strings(&pool));
        }
        i = i + 1;
    }
    assert(done =~= rem);
    let ms = marker_list();
    let total = ms.len();
    let mut k: usize = 0;
    assert(ms@.take(0) =~= Seq::<char>::empty());
    assert(done =~= rem + marker_candidates(sv, terminals, ms@.take(0)));
    while k < total
        invariant
            k <= total,
            total == ms@.len(),
            ms@ == markers(),
            n == sv.len(),
            s@ == sv,
            pattern@ == a,
            sv == sentence@,
            terminals == grammar.terminals@,
            a == anchored(expression@),
            pattern_of(grammar.deep_view()) == Ok::<Seq<char>, ErrorModel>(expression@),
            regex_error(a) is None,
            regex_matches(a, sentence@),
            rem == removals(sv),
            all == candidates(sv, terminals),
            terminals == grammar.terminals@,
            done == rem + marker_candidates(sv, terminals, ms@.take(k as int)),
            pool.deep_view() == accepted(done, sv, a),
            pool@.len() < count,
        decreases total - k,
    {
        let m = ms[k];
        proof {
            lemma_block_prefix(sv, terminals, k as int);
        }
        if !contains_char(&grammar.terminals, m) {
            let ghost base = done;
            let ghost block = marker_block(sv, m);
            assert(base + block =~= rem + marker_candidates(sv, terminals, ms@.take(k + 1)));
            let mut c = copy_chars(&s);
            c.push(m);
            let ghost cv = c@;
            proof {
                assert(cv == block[0]);
                lemma_offered(done, cv, sv, a);
                done = done.push(cv);
                assert(done =~= base + block.take(1));
            }
            if offer(&mut pool, c, &s, &pattern, count) {
                proof {
                    assert(done =~= (base + block).take(done.len() as int));
                    lemma_prefix_trans(done, base + block, all);
                    lemma_full(all, done, pool.deep_view(), count, sv, a);
                }
                return Ok(to_strings(&pool));
            }
            let c = prepend(m, &s);
            let ghost cv = c@;
            proof {
                assert(cv == block[1]);
                lemma_offered(done, cv, sv, a);
                done = done.push(cv);
                assert(done =~= base + block.take(2));
            }
            if offer(&mut pool, c, &s, &pattern, count) {
                proof {
                    assert(done =~= (base + block).take(done.len() as int));
                    lemma_prefix_trans(done, base + block, all);
                    lemma_full(all, done, pool.deep_view(), count, sv, a);
                }
                return Ok(to_strings(&pool));
            }
            let mut t: usize = 0;
            while t < n
                invariant
                    t <= n,
                    n == sv.len(),
                    s@ == sv,
                    pattern@ == a,
                    sv == sentence@,
                    terminals == grammar.terminals@,
                    a == anchored(expression@),
                    pattern_of(grammar.deep_view()) == Ok::<Seq<char>, ErrorModel>(expression@),
                    regex_error(a) is None,
                    regex_matches(a, sentence@),
                    all == candidates(sv, terminals),
                    all.len() >= (base + block).len(),
                    block == marker_block(sv, m),
                    base + block == all.take((base + block).len() as int),
                    done == base + block.take(t + 2),
                    pool.deep_view() == accepted(done, sv, a),
                    pool@.len() < count,
                decreases n - t,
            {
                let mut c = copy_chars(&s);
                c.set(t, m);
                let ghost cv = c@;
                proof {
                    assert(cv == block[t + 2]);
                    lemma_offered(done, cv, sv, a);
                    done = done.push(cv);
                    assert(done =~= base + block.take(t + 3));
                }
                if offer(&mut pool, c, &s, &pattern, count) {
                    proof {
                        assert(done =~= (base + block).take(done.len() as int));
                    lemma_prefix_trans(done, base + block, all);
                        lemma_full(all, done, pool.deep_view(), count, sv, a);
                    }
                    return Ok(to_strings(&pool));
                }
                t = t + 1;
            }
            assert(block.take(n + 2) =~= block);
        }
        assert(ms@.take(k + 1) =~= ms@.take(k as int).push(m));
        k = k + 1;
    }
    assert(ms@.take(total as int) =~= ms@);
    assert(done =~= all);
    let mut msg = string_from("não foi possível gerar ");
    let digits = decimal_string(count);
    msg.append(digits.as_str());
    msg.append(" distratores fora da linguagem");
    Err(GrammarError::RegexConversionFailed(msg))
}

} // verus!
