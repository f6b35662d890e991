//! Character-sequence utilities that the rest of the library builds on:
//! substring matching, splitting and joining, search-and-replace, decimal
//! rendering and whitespace trimming, each specified over `Seq<char>`.

use vstd::prelude::*;

verus! {

/// Relies on `String::push`: appends the given character to the end of the string.
#[verifier::external_body]
pub fn push_char(s: &mut String, c: char)
    ensures
        final(s)@ == old(s)@.push(c),
{
    s.push(c)
}

/// The decimal digit character for a value below ten.
pub open spec fn digit_char(d: nat) -> char {
    if d == 0 {
        '0'
    } else if d == 1 {
        '1'
    } else if d == 2 {
        '2'
    } else if d == 3 {
        '3'
    } else if d == 4 {
        '4'
    } else if d == 5 {
        '5'
    } else if d == 6 {
        '6'
    } else if d == 7 {
        '7'
    } else if d == 8 {
        '8'
    } else {
        '9'
    }
}

/// The usual base-ten rendering of `n`, most significant digit first.
pub open spec fn spec_dec(n: nat) -> Seq<char>
    decreases n,
{
    if n < 10 {
        seq![digit_char(n)]
    } else {
        spec_dec(n / 10) + seq![digit_char(n % 10)]
    }
}

pub open spec fn is_digit_char(c: char) -> bool {
    c == '0' || c == '1' || c == '2' || c == '3' || c == '4' || c == '5' || c == '6' || c == '7'
        || c == '8' || c == '9'
}

pub proof fn lemma_dec_digits(n: nat)
    ensures
        spec_dec(n).len() >= 1,
        forall|i: int| 0 <= i < spec_dec(n).len() ==> is_digit_char(#[trigger] spec_dec(n)[i]),
    decreases n,
{
    if n >= 10 {
        lemma_dec_digits(n / 10);
    }
}

/// Renders `n` in decimal.
pub fn dec_string(n: usize) -> (r: String)
    ensures
        r@ == spec_dec(n as nat),
    decreases n,
{
    let d = n % 10;
    let c: char = if d == 0 {
        '0'
    } else if d == 1 {
        '1'
    } else if d == 2 {
        '2'
    } else if d == 3 {
        '3'
    } else if d == 4 {
        '4'
    } else if d == 5 {
        '5'
    } else if d == 6 {
        '6'
    } else if d == 7 {
        '7'
    } else if d == 8 {
        '8'
    } else {
        '9'
    };
    if n < 10 {
        let mut r = String::new();
        push_char(&mut r, c);
        assert(r@ =~= spec_dec(n as nat));
        r
    } else {
        let mut r = dec_string(n / 10);
        push_char(&mut r, c);
        assert(r@ =~= spec_dec(n as nat));
        r
    }
}

/// `pat` occurs in `t` starting at position `i`.
pub open spec fn matches_at(t: Seq<char>, pat: Seq<char>, i: int) -> bool {
    0 <= i && i + pat.len() <= t.len() && t.subrange(i, i + pat.len() as int) == pat
}

/// `pat` occurs somewhere in `t`.
pub open spec fn occurs(t: Seq<char>, pat: Seq<char>) -> bool {
    exists|i: int| matches_at(t, pat, i)
}

/// Whether `pat` occurs in `s` at position `i`.
pub fn match_at(s: &str, pat: &str, i: usize) -> (r: bool)
    requires
        i <= s@.len(),
    ensures
        r == matches_at(s@, pat@, i as int),
{
    let n = s.unicode_len();
    let p = pat.unicode_len();
    if p > n - i {
        return false;
    }
    let mut j: usize = 0;
    while j < p
        invariant
            j <= p,
            i + p <= n,
            n == s@.len(),
            p == pat@.len(),
            forall|k: int| 0 <= k < j ==> s@[i + k] == pat@[k],
        decreases p - j,
    {
        if s.get_char(i + j) != pat.get_char(j) {
            return false;
        }
        j += 1;
    }
    assert(s@.subrange(i as int, i + p) =~= pat@);
    true
}

/// Whether `pat` occurs anywhere in `s`.
pub fn contains_str(s: &str, pat: &str) -> (r: bool)
    ensures
        r == occurs(s@, pat@),
{
    let n = s.unicode_len();
    let mut i: usize = 0;
    while i < n
        invariant
            i <= n,
            n == s@.len(),
            forall|k: int| 0 <= k < i ==> !matches_at(s@, pat@, k),
        decreases n - i,
    {
        if match_at(s, pat, i) {
            return true;
        }
        i += 1;
    }
    let r = match_at(s, pat, n);
    assert(forall|k: int| matches_at(s@, pat@, k) ==> 0 <= k <= n);
    r
}

/// Whether two string slices hold the same characters.
pub fn str_eq(a: &str, b: &str) -> (r: bool)
    ensures
        r == (a@ == b@),
{
    let n = a.unicode_len();
    if n != b.unicode_len() {
        return false;
    }
    let r = match_at(a, b, 0);
    proof {
        assert(a@.subrange(0, n as int) =~= a@);
    }
    r
}

/// `p` is a prefix of `t`.
pub open spec fn spec_starts_with(t: Seq<char>, p: Seq<char>) -> bool {
    p.len() <= t.len() && t.take(p.len() as int) == p
}

/// `p` is a suffix of `t`.
pub open spec fn spec_ends_with(t: Seq<char>, p: Seq<char>) -> bool {
    p.len() <= t.len() && t.skip(t.len() - p.len()) == p
}

pub fn starts_with(s: &str, p: &str) -> (r: bool)
    ensures
        r == spec_starts_with(s@, p@),
{
    let r = match_at(s, p, 0);
    assert(s@.subrange(0, p@.len() as int) =~= s@.take(p@.len() as int));
    r
}

pub fn ends_with(s: &str, p: &str) -> (r: bool)
    ensures
        r == spec_ends_with(s@, p@),
{
    let n = s.unicode_len();
    let pl = p.unicode_len();
    if pl > n {
        return false;
    }
    let r = match_at(s, p, n - pl);
    assert(s@.subrange(n - pl, n - pl + p@.len()) =~= s@.skip(s@.len() - p@.len()));
    r
}

/// `t` with every occurrence of `pat` replaced by `repl`, scanning left to
/// right and never rescanning replaced text.
pub open spec fn spec_replace(t: Seq<char>, pat: Seq<char>, repl: Seq<char>) -> Seq<char>
    decreases t.len(),
{
    if pat.len() == 0 || t.len() < pat.len() {
        t
    } else if t.take(pat.len() as int) == pat {
        repl + spec_replace(t.skip(pat.len() as int), pat, repl)
    } else {
        seq![t[0]] + spec_replace(t.skip(1), pat, repl)
    }
}

pub fn replace_all(s: &str, pat: &str, repl: &str) -> (r: String)
    requires
        pat@.len() > 0,
    ensures
        r@ == spec_replace(s@, pat@, repl@),
{
    let n = s.unicode_len();
    let p = pat.unicode_len();
    let mut out = String::new();
    let mut i: usize = 0;
    proof {
        assert(s@.skip(0) =~= s@);
    }
    while i < n
        invariant
            i <= n,
            n == s@.len(),
            p == pat@.len(),
            p > 0,
            out@ + spec_replace(s@.skip(i as int), pat@, repl@) == spec_replace(s@, pat@, repl@),
        decreases n - i,
    {
        let ghost rest = s@.skip(i as int);
        if match_at(s, pat, i) {
            proof {
                assert(rest.take(p as int) =~= s@.subrange(i as int, i + p));
                assert(rest.skip(p as int) =~= s@.skip(i + p));
            }
            out.append(repl);
            i += p;
        } else {
            let c = s.get_char(i);
            proof {
                if rest.len() < p {
                    assert(spec_replace(rest, pat@, repl@) == rest);
                    assert(s@.skip(i + 1).len() < p);
                    assert(spec_replace(s@.skip(i + 1), pat@, repl@) == s@.skip(i + 1));
                    assert(rest =~= seq![c] + s@.skip(i + 1));
                } else {
                    assert(rest.take(p as int) =~= s@.subrange(i as int, i + p));
                    assert(rest.skip(1) =~= s@.skip(i + 1));
                    assert(seq![rest[0]] =~= seq![c]);
                }
            }
            push_char(&mut out, c);
            assert(out@ + spec_replace(s@.skip(i + 1), pat@, repl@) == spec_replace(s@, pat@, repl@));
            i += 1;
        }
    }
    proof {
        assert(s@.skip(n as int) =~= Seq::<char>::empty());
        assert(spec_replace(s@.skip(n as int), pat@, repl@) == Seq::<char>::empty());
        assert(out@ =~= out@ + Seq::<char>::empty());
    }
    out
}

/// An occurrence in a suffix is an occurrence in the whole.
pub proof fn lemma_occurs_shift(t: Seq<char>, q: Seq<char>, k: int)
    requires
        0 <= k <= t.len(),
        occurs(t.skip(k), q),
    ensures
        occurs(t, q),
{
    let i = choose|i: int| matches_at(t.skip(k), q, i);
    assert(t.subrange(k + i, k + i + q.len()) =~= t.skip(k).subrange(i, i + q.len()));
    assert(matches_at(t, q, k + i));
}

/// Replacement never eats the final character where the text does not end in
/// the pattern's last character: the result still ends as the text did.
pub proof fn lemma_replace_last(t: Seq<char>, pat: Seq<char>, repl: Seq<char>)
    requires
        t.len() >= 1,
        pat.len() >= 1,
        t.last() != pat.last(),
    ensures
        spec_replace(t, pat, repl).len() >= 1,
        spec_replace(t, pat, repl).last() == t.last(),
    decreases t.len(),
{
    let pl = pat.len() as int;
    if t.len() < pat.len() {
    } else if t.take(pl) == pat {
        assert(t.len() > pat.len()) by {
            if t.len() == pat.len() {
                assert(t.take(pl) =~= t);
            }
        }
        assert(t.skip(pl).last() == t.last());
        lemma_replace_last(t.skip(pl), pat, repl);
    } else {
        if t.len() == 1 {
            assert(t.skip(1) =~= Seq::<char>::empty());
            assert(spec_replace(t.skip(1), pat, repl) == t.skip(1));
            assert(spec_replace(t, pat, repl) =~= seq![t[0]]);
        } else {
            assert(t.skip(1).last() == t.last());
            lemma_replace_last(t.skip(1), pat, repl);
        }
    }
}

/// Replacement keeps the first character where the replacement starts as the
/// text does.
pub proof fn lemma_replace_first(t: Seq<char>, pat: Seq<char>, repl: Seq<char>)
    requires
        t.len() >= 1,
        pat.len() >= 1,
        repl.len() >= 1,
        t[0] == repl[0],
    ensures
        spec_replace(t, pat, repl).len() >= 1,
        spec_replace(t, pat, repl)[0] == t[0],
{
    let pl = pat.len() as int;
    if t.len() < pat.len() {
    } else if t.take(pl) == pat {
        assert(spec_replace(t, pat, repl)[0] == repl[0]);
    } else {
        assert(spec_replace(t, pat, repl)[0] == t[0]);
    }
}

/// Chasing a pattern's proper suffix through a replacement: where such a
/// suffix opens the result, it already opened the text, provided neither the
/// pattern suffix nor the replacement's first character can be confused —
/// the suffix never holds the replacement's opening character.
proof fn lemma_replace_prefix_chase(
    t: Seq<char>,
    pat: Seq<char>,
    repl: Seq<char>,
    q: Seq<char>,
    j: int,
)
    requires
        pat.len() >= 1,
        repl.len() >= 1,
        repl[0] == '#',
        forall|x: int| 0 <= x < q.len() ==> q[x] != '#',
        1 <= j < q.len(),
        spec_starts_with(spec_replace(t, pat, repl), q.skip(j)),
    ensures
        spec_starts_with(t, q.skip(j)),
    decreases t.len(),
{
    let res = spec_replace(t, pat, repl);
    let suf = q.skip(j);
    let sl = suf.len() as int;
    let pl = pat.len() as int;
    assert(sl >= 1);
    assert(suf[0] == q[j]);
    assert(res.take(sl) == suf);
    assert(res[0] == suf[0]);
    if t.len() < pat.len() {
    } else if t.take(pl) == pat {
        assert(res[0] == repl[0]);
        assert(false);
    } else {
        assert(res[0] == t[0]);
        if j + 1 < q.len() {
            let rest = spec_replace(t.skip(1), pat, repl);
            assert(spec_starts_with(rest, q.skip(j + 1))) by {
                assert(q.skip(j + 1).len() == sl - 1);
                assert(rest.len() == res.len() - 1);
                assert(rest.take(sl - 1) =~= q.skip(j + 1)) by {
                    assert forall|x: int| 0 <= x < sl - 1 implies rest[x] == q.skip(j + 1)[x] by {
                        assert(rest[x] == res[x + 1]);
                        assert(res[x + 1] == res.take(sl)[x + 1]);
                        assert(suf[x + 1] == q[j + 1 + x]);
                    }
                }
            }
            lemma_replace_prefix_chase(t.skip(1), pat, repl, q, j + 1);
            assert(t.take(sl) =~= suf) by {
                assert(t[0] == suf[0]);
                assert(t.skip(1).take(sl - 1) == q.skip(j + 1));
                assert forall|x: int| 0 <= x < sl implies t.take(sl)[x] == suf[x] by {
                    if x >= 1 {
                        assert(t.skip(1).take(sl - 1)[x - 1] == q.skip(j + 1)[x - 1]);
                        assert(t[x] == q[j + x]);
                    }
                }
            }
        } else {
            assert(suf =~= seq![q[j]]);
            assert(t.take(1) =~= suf);
        }
    }
}

/// After replacing `pat` by `repl`, no occurrence of `q` stands in the
/// result: neither one the text carried (unless `q` is the pattern itself,
/// which the replacement removes) nor one written across a seam — provided
/// `q` is bracket-shaped (no `#` anywhere, `]` only last), the replacement
/// is footnote-shaped (opens with `#`, closes with `]`) and does not carry
/// `q` itself.
pub proof fn lemma_replace_no_occurrence(
    t: Seq<char>,
    pat: Seq<char>,
    repl: Seq<char>,
    q: Seq<char>,
)
    requires
        pat.len() >= 1,
        q.len() >= 1,
        forall|x: int| 0 <= x < q.len() ==> q[x] != '#',
        forall|x: int| 0 <= x < q.len() - 1 ==> q[x] != ']',
        repl.len() >= 1,
        repl[0] == '#',
        repl.last() == ']',
        !occurs(repl, q),
        q == pat || !occurs(t, q),
    ensures
        !occurs(spec_replace(t, pat, repl), q),
    decreases t.len(),
{
    let res = spec_replace(t, pat, repl);
    let pl = pat.len() as int;
    let ql = q.len() as int;
    let rl = repl.len() as int;
    if t.len() < pat.len() {
        if q == pat {
            assert forall|i: int| !matches_at(res, q, i) by {
                if matches_at(res, q, i) {
                    assert(i >= 0 && i + ql <= t.len());
                    assert(false);
                }
            }
        }
    } else if t.take(pl) == pat {
        if q != pat {
            assert(!occurs(t.skip(pl), q)) by {
                if occurs(t.skip(pl), q) {
                    lemma_occurs_shift(t, q, pl);
                }
            }
        }
        lemma_replace_no_occurrence(t.skip(pl), pat, repl, q);
        let rest = spec_replace(t.skip(pl), pat, repl);
        assert forall|i: int| !matches_at(res, q, i) by {
            if matches_at(res, q, i) {
                assert(res.subrange(i, i + ql) == q);
                if i + ql <= rl {
                    assert(repl.subrange(i, i + ql) =~= res.subrange(i, i + ql));
                    assert(matches_at(repl, q, i));
                    assert(false);
                } else if i < rl {
                    let m = rl - i;
                    assert(1 <= m < ql);
                    assert(q[m - 1] == res.subrange(i, i + ql)[m - 1]);
                    assert(res[i + m - 1] == repl[rl - 1]);
                    assert(q[m - 1] == ']');
                    assert(false);
                } else {
                    assert(rest.subrange(i - rl, i - rl + ql) =~= res.subrange(i, i + ql));
                    assert(matches_at(rest, q, i - rl));
                    assert(false);
                }
            }
        }
        assert(!occurs(res, q));
    } else {
        if q != pat {
            assert(!occurs(t.skip(1), q)) by {
                if occurs(t.skip(1), q) {
                    lemma_occurs_shift(t, q, 1);
                }
            }
        }
        lemma_replace_no_occurrence(t.skip(1), pat, repl, q);
        let rest = spec_replace(t.skip(1), pat, repl);
        assert forall|i: int| !matches_at(res, q, i) by {
            if matches_at(res, q, i) {
                assert(res.subrange(i, i + ql) == q);
                if i >= 1 {
                    assert(rest.subrange(i - 1, i - 1 + ql) =~= res.subrange(i, i + ql));
                    assert(matches_at(rest, q, i - 1));
                    assert(false);
                } else {
                    assert(i == 0);
                    assert(q[0] == res.subrange(0, ql)[0]);
                    assert(res[0] == t[0]);
                    if ql == 1 {
                        assert(q =~= seq![t[0]]);
                        assert(t.subrange(0, 1) =~= q);
                        assert(matches_at(t, q, 0));
                        if q == pat {
                            assert(t.take(pl) == q);
                            assert(false);
                        } else {
                            assert(false);
                        }
                    } else {
                        assert(spec_starts_with(rest, q.skip(1))) by {
                            assert(rest.len() == res.len() - 1);
                            assert(rest.take(ql - 1) =~= q.skip(1)) by {
                                assert forall|x: int| 0 <= x < ql - 1 implies rest[x] == q.skip(
                                    1,
                                )[x] by {
                                    assert(rest[x] == res[x + 1]);
                                    assert(res.subrange(0, ql)[x + 1] == q[x + 1]);
                                }
                            }
                        }
                        lemma_replace_prefix_chase(t.skip(1), pat, repl, q, 1);
                        assert(t.skip(1).take(ql - 1) == q.skip(1));
                        assert(matches_at(t, q, 0)) by {
                            assert(t.subrange(0, ql) =~= q) by {
                                assert forall|x: int| 0 <= x < ql implies t.subrange(0, ql)[x]
                                    == q[x] by {
                                    if x >= 1 {
                                        assert(t.skip(1).take(ql - 1)[x - 1] == q.skip(1)[x
                                            - 1]);
                                    } else {
                                        assert(t[0] == q[0]);
                                    }
                                }
                            }
                        }
                        if q == pat {
                            assert(t.take(pl) =~= t.subrange(0, ql));
                            assert(false);
                        } else {
                            assert(false);
                        }
                    }
                }
            }
        }
        assert(!occurs(res, q));
    }
}

/// `s` cut at every occurrence of `sep`; adjacent separators and separators
/// at either end produce empty segments, so the result is never empty.
pub open spec fn raw_split(s: Seq<char>, sep: char) -> Seq<Seq<char>>
    decreases s.len(),
{
    if s.len() == 0 {
        seq![Seq::<char>::empty()]
    } else {
        let prev = raw_split(s.drop_last(), sep);
        if s.last() == sep {
            prev.push(Seq::<char>::empty())
        } else {
            prev.update(prev.len() - 1, prev.last().push(s.last()))
        }
    }
}

pub proof fn lemma_raw_split_len(s: Seq<char>, sep: char)
    ensures
        raw_split(s, sep).len() >= 1,
    decreases s.len(),
{
    if s.len() > 0 {
        lemma_raw_split_len(s.drop_last(), sep);
    }
}

pub fn split_raw(s: &str, sep: char) -> (r: Vec<String>)
    ensures
        r.deep_view() == raw_split(s@, sep),
{
    let n = s.unicode_len();
    let mut parts: Vec<String> = Vec::new();
    let mut cur = String::new();
    let mut i: usize = 0;
    proof {
        assert(s@.take(0) =~= Seq::<char>::empty());
        assert(parts.deep_view().push(cur@) =~= raw_split(s@.take(0), sep));
    }
    while i < n
        invariant
            i <= n,
            n == s@.len(),
            parts.deep_view().push(cur@) == raw_split(s@.take(i as int), sep),
        decreases n - i,
    {
        let c = s.get_char(i);
        let ghost pre = s@.take(i as int);
        let ghost prev = raw_split(pre, sep);
        proof {
            assert(s@.take(i + 1).drop_last() =~= pre);
            assert(s@.take(i + 1).last() == c);
            lemma_raw_split_len(pre, sep);
        }
        if c == sep {
            let done = cur;
            cur = String::new();
            parts.push(done);
            proof {
                assert(parts.deep_view().push(cur@) =~= prev.push(Seq::<char>::empty()));
            }
        } else {
            push_char(&mut cur, c);
            proof {
                assert(parts.deep_view().push(cur@) =~= prev.update(
                    prev.len() - 1,
                    prev.last().push(c),
                ));
            }
        }
        i += 1;
    }
    proof {
        assert(s@.take(n as int) =~= s@);
    }
    parts.push(cur);
    proof {
        assert(parts.deep_view() =~= raw_split(s@, sep));
    }
    parts
}

pub proof fn lemma_raw_split_no_sep(s: Seq<char>, sep: char)
    ensures
        forall|i: int, j: int|
            0 <= i < raw_split(s, sep).len() && 0 <= j < raw_split(s, sep)[i].len()
                ==> #[trigger] raw_split(s, sep)[i][j] != sep,
    decreases s.len(),
{
    if s.len() > 0 {
        lemma_raw_split_no_sep(s.drop_last(), sep);
        lemma_raw_split_len(s.drop_last(), sep);
    }
}

/// Splitting around an explicit separator splits the two sides on their own.
pub proof fn lemma_raw_split_concat(x: Seq<char>, y: Seq<char>, sep: char)
    ensures
        raw_split(x + seq![sep] + y, sep) == raw_split(x, sep) + raw_split(y, sep),
    decreases y.len(),
{
    if y.len() == 0 {
        assert((x + seq![sep] + y) =~= (x + seq![sep]));
        assert((x + seq![sep]).drop_last() =~= x);
        assert((x + seq![sep]).last() == sep);
        assert(raw_split(x, sep).push(Seq::<char>::empty()) =~= raw_split(x, sep) + raw_split(
            y,
            sep,
        ));
    } else {
        lemma_raw_split_concat(x, y.drop_last(), sep);
        lemma_raw_split_len(y.drop_last(), sep);
        let s = x + seq![sep] + y;
        let rx = raw_split(x, sep);
        let ry0 = raw_split(y.drop_last(), sep);
        assert(s.drop_last() =~= x + seq![sep] + y.drop_last());
        assert(s.last() == y.last());
        if y.last() == sep {
            assert((rx + ry0).push(Seq::<char>::empty()) =~= rx + ry0.push(
                Seq::<char>::empty(),
            ));
        } else {
            let upd = ry0.update(ry0.len() - 1, ry0.last().push(y.last()));
            assert((rx + ry0).update(rx.len() + ry0.len() - 1, ry0.last().push(y.last())) =~= rx
                + upd);
            assert((rx + ry0).last() == ry0.last());
        }
    }
}

/// Splitting a text that never holds the separator gives it back whole.
pub proof fn lemma_raw_split_whole(s: Seq<char>, sep: char)
    requires
        forall|i: int| 0 <= i < s.len() ==> s[i] != sep,
    ensures
        raw_split(s, sep) == seq![s],
    decreases s.len(),
{
    if s.len() == 0 {
        assert(s =~= Seq::<char>::empty());
        assert(raw_split(s, sep) =~~= seq![s]);
    } else {
        lemma_raw_split_whole(s.drop_last(), sep);
        assert(s.drop_last().push(s.last()) =~= s);
        assert(seq![s.drop_last()].update(0, s.drop_last().push(s.last())) =~= seq![s]);
    }
}

/// The segments of `ps` that are not empty, in order.
pub open spec fn nonempty_parts(ps: Seq<Seq<char>>) -> Seq<Seq<char>> {
    ps.filter(|p: Seq<char>| p.len() > 0)
}

pub fn drop_empty(parts: Vec<String>) -> (r: Vec<String>)
    ensures
        r.deep_view() == nonempty_parts(parts.deep_view()),
{
    let mut r: Vec<String> = Vec::new();
    let mut i: usize = 0;
    proof {
        reveal(Seq::filter);
        assert(parts.deep_view().take(0) =~= Seq::<Seq<char>>::empty());
        assert(r.deep_view() =~= nonempty_parts(parts.deep_view().take(0)));
    }
    while i < parts.len()
        invariant
            i <= parts.len(),
            r.deep_view() == nonempty_parts(parts.deep_view().take(i as int)),
        decreases parts.len() - i,
    {
        let ghost pre = parts.deep_view().take(i as int);
        proof {
            reveal(Seq::filter);
            assert(parts.deep_view().take(i + 1).drop_last() =~= pre);
            assert(parts.deep_view().take(i + 1).last() == parts.deep_view()[i as int]);
        }
        if parts[i].as_str().unicode_len() > 0 {
            let item = parts[i].clone();
            r.push(item);
            proof {
                reveal(Seq::filter);
                assert(r.deep_view() =~= nonempty_parts(pre).push(parts.deep_view()[i as int]));
            }
        }
        i += 1;
    }
    proof {
        assert(parts.deep_view().take(parts.deep_view().len() as int) =~= parts.deep_view());
    }
    r
}

/// Keeping the nonempty segments of two scans in turn is keeping the
/// nonempty segments of their concatenation.
pub proof fn lemma_nonempty_parts_concat(a: Seq<Seq<char>>, b: Seq<Seq<char>>)
    ensures
        nonempty_parts(a + b) == nonempty_parts(a) + nonempty_parts(b),
    decreases b.len(),
{
    reveal(Seq::filter);
    if b.len() == 0 {
        assert(a + b =~= a);
        assert(nonempty_parts(b) =~= Seq::<Seq<char>>::empty());
        assert(nonempty_parts(a) + nonempty_parts(b) =~= nonempty_parts(a));
    } else {
        lemma_nonempty_parts_concat(a, b.drop_last());
        assert((a + b).drop_last() =~= a + b.drop_last());
        assert((a + b).last() == b.last());
        if b.last().len() > 0 {
            assert((nonempty_parts(a) + nonempty_parts(b.drop_last())).push(b.last())
                =~= nonempty_parts(a) + nonempty_parts(b.drop_last()).push(b.last()));
        }
    }
}

/// One nonempty segment passes the scan whole; an empty one vanishes.
pub proof fn lemma_nonempty_parts_single(x: Seq<char>)
    ensures
        nonempty_parts(seq![x]) == if x.len() > 0 {
            seq![x]
        } else {
            Seq::<Seq<char>>::empty()
        },
{
    reveal(Seq::filter);
    assert(seq![x].drop_last() =~= Seq::<Seq<char>>::empty());
    assert(nonempty_parts(Seq::<Seq<char>>::empty()) == Seq::<Seq<char>>::empty());
    if x.len() > 0 {
        assert(nonempty_parts(seq![x]) =~= seq![x]);
    } else {
        assert(nonempty_parts(seq![x]) =~= Seq::<Seq<char>>::empty());
    }
}

/// The segments of `ps` joined with `sep` between each adjacent pair.
pub open spec fn join_parts(ps: Seq<Seq<char>>, sep: char) -> Seq<char>
    decreases ps.len(),
{
    if ps.len() == 0 {
        Seq::<char>::empty()
    } else if ps.len() == 1 {
        ps[0]
    } else {
        join_parts(ps.drop_last(), sep) + seq![sep] + ps.last()
    }
}

pub fn join_strings(parts: &Vec<String>, sep: char) -> (r: String)
    ensures
        r@ == join_parts(parts.deep_view(), sep),
{
    let mut r = String::new();
    let mut i: usize = 0;
    proof {
        assert(parts.deep_view().take(0) =~= Seq::<Seq<char>>::empty());
    }
    while i < parts.len()
        invariant
            i <= parts.len(),
            r@ == join_parts(parts.deep_view().take(i as int), sep),
        decreases parts.len() - i,
    {
        let ghost pre = parts.deep_view().take(i as int);
        proof {
            assert(parts.deep_view().take(i + 1).drop_last() =~= pre);
            assert(parts.deep_view().take(i + 1).last() == parts.deep_view()[i as int]);
        }
        if i > 0 {
            push_char(&mut r, sep);
        }
        r.append(parts[i].as_str());
        proof {
            if i == 0 {
                assert(parts.deep_view().take(1).len() == 1);
                assert(r@ =~= join_parts(parts.deep_view().take(1), sep));
            }
        }
        i += 1;
    }
    proof {
        assert(parts.deep_view().take(parts.deep_view().len() as int) =~= parts.deep_view());
    }
    r
}

/// The characters with the Unicode `White_Space` property.
pub open spec fn is_space_char(c: char) -> bool {
    c == ' ' || c == '\t' || c == '\n' || c == '\r' || c == '\u{0B}' || c == '\u{0C}'
        || c == '\u{85}' || c == '\u{A0}' || c == '\u{1680}' || c == '\u{2000}' || c == '\u{2001}'
        || c == '\u{2002}' || c == '\u{2003}' || c == '\u{2004}' || c == '\u{2005}'
        || c == '\u{2006}' || c == '\u{2007}' || c == '\u{2008}' || c == '\u{2009}'
        || c == '\u{200A}' || c == '\u{2028}' || c == '\u{2029}' || c == '\u{202F}'
        || c == '\u{205F}' || c == '\u{3000}'
}

pub open spec fn spec_trim_start(s: Seq<char>) -> Seq<char>
    decreases s.len(),
{
    if s.len() > 0 && is_space_char(s[0]) {
        spec_trim_start(s.drop_first())
    } else {
        s
    }
}

pub open spec fn spec_trim_end(s: Seq<char>) -> Seq<char>
    decreases s.len(),
{
    if s.len() > 0 && is_space_char(s.last()) {
        spec_trim_end(s.drop_last())
    } else {
        s
    }
}

/// `s` with leading and trailing whitespace removed.
pub open spec fn spec_trim(s: Seq<char>) -> Seq<char> {
    spec_trim_end(spec_trim_start(s))
}

proof fn lemma_trim_start_skip(s: Seq<char>, a: int)
    requires
        0 <= a <= s.len(),
        forall|k: int| 0 <= k < a ==> is_space_char(s[k]),
        a < s.len() ==> !is_space_char(s[a]),
    ensures
        spec_trim_start(s) == s.skip(a),
    decreases a,
{
    if a == 0 {
        assert(s.skip(0) =~= s);
    } else {
        assert(is_space_char(s[0]));
        lemma_trim_start_skip(s.drop_first(), a - 1);
        assert(s.drop_first().skip(a - 1) =~= s.skip(a));
    }
}

proof fn lemma_trim_end_take(s: Seq<char>, b: int)
    requires
        0 <= b <= s.len(),
        forall|k: int| b <= k < s.len() ==> is_space_char(s[k]),
        b > 0 ==> !is_space_char(s[b - 1]),
    ensures
        spec_trim_end(s) == s.take(b),
    decreases s.len(),
{
    if b == s.len() {
        if s.len() > 0 {
            assert(!is_space_char(s.last()));
        }
        assert(s.take(b) =~= s);
    } else {
        assert(is_space_char(s.last()));
        lemma_trim_end_take(s.drop_last(), b);
        assert(s.drop_last().take(b) =~= s.take(b));
    }
}

fn is_space(c: char) -> (r: bool)
    ensures
        r == is_space_char(c),
{
    c == ' ' || c == '\t' || c == '\n' || c == '\r' || c == '\u{0B}' || c == '\u{0C}'
        || c == '\u{85}' || c == '\u{A0}' || c == '\u{1680}' || c == '\u{2000}' || c == '\u{2001}'
        || c == '\u{2002}' || c == '\u{2003}' || c == '\u{2004}' || c == '\u{2005}'
        || c == '\u{2006}' || c == '\u{2007}' || c == '\u{2008}' || c == '\u{2009}'
        || c == '\u{200A}' || c == '\u{2028}' || c == '\u{2029}' || c == '\u{202F}'
        || c == '\u{205F}' || c == '\u{3000}'
}

/// `s` with leading and trailing whitespace removed.
pub fn trim(s: &str) -> (r: String)
    ensures
        r@ == spec_trim(s@),
{
    let n = s.unicode_len();
    let mut a: usize = 0;
    while a < n && is_space(s.get_char(a))
        invariant
            a <= n,
            n == s@.len(),
            forall|k: int| 0 <= k < a ==> is_space_char(s@[k]),
        decreases n - a,
    {
        a += 1;
    }
    proof {
        lemma_trim_start_skip(s@, a as int);
    }
    let mut b: usize = n;
    while b > a && is_space(s.get_char(b - 1))
        invariant
            a <= b <= n,
            n == s@.len(),
            forall|k: int| b <= k < n ==> is_space_char(s@[k]),
        decreases b,
    {
        b -= 1;
    }
    let ghost tail = s@.skip(a as int);
    proof {
        if b == a {
            lemma_trim_end_take(tail, 0);
        } else {
            assert(forall|k: int|
                b - a <= k < tail.len() ==> is_space_char(#[trigger] tail[k]) && tail[k] == s@[k
                    + a]);
            lemma_trim_end_take(tail, b - a);
        }
    }
    let mut r = String::new();
    let mut j: usize = a;
    while j < b
        invariant
            a <= j <= b <= n,
            n == s@.len(),
            r@ == s@.subrange(a as int, j as int),
        decreases b - j,
    {
        let c = s.get_char(j);
        push_char(&mut r, c);
        proof {
            assert(r@ =~= s@.subrange(a as int, j + 1));
        }
        j += 1;
    }
    proof {
        assert(s@.subrange(a as int, b as int) =~= tail.take(b - a));
    }
    r
}

/// The characters of `s` from position `a` up to (excluding) `b`.
pub fn chars_range(s: &str, a: usize, b: usize) -> (r: String)
    requires
        a <= b <= s@.len(),
    ensures
        r@ == s@.subrange(a as int, b as int),
{
    let mut r = String::new();
    let mut j: usize = a;
    proof {
        assert(r@ =~= s@.subrange(a as int, a as int));
    }
    while j < b
        invariant
            a <= j <= b <= s@.len(),
            r@ == s@.subrange(a as int, j as int),
        decreases b - j,
    {
        let c = s.get_char(j);
        push_char(&mut r, c);
        proof {
            assert(r@ =~= s@.subrange(a as int, j + 1));
        }
        j += 1;
    }
    r
}

/// Every character of `s` is a decimal digit.
pub open spec fn all_digits(s: Seq<char>) -> bool {
    forall|i: int| 0 <= i < s.len() ==> is_digit_char(#[trigger] s[i])
}

pub fn check_all_digits(s: &str) -> (r: bool)
    ensures
        r == all_digits(s@),
{
    let n = s.unicode_len();
    let mut i: usize = 0;
    while i < n
        invariant
            i <= n,
            n == s@.len(),
            forall|k: int| 0 <= k < i ==> is_digit_char(#[trigger] s@[k]),
        decreases n - i,
    {
        let c = s.get_char(i);
        let d = (c as u32) >= 48 && (c as u32) <= 57;
        proof {
            assert(d == is_digit_char(c)) by {
                assert(('0' as u32) == 48 && ('9' as u32) == 57);
                if d && !is_digit_char(c) {
                    assert(false) by {
                        assert((c as u32) == 48 || (c as u32) == 49 || (c as u32) == 50 || (c
                            as u32) == 51 || (c as u32) == 52 || (c as u32) == 53 || (c as u32)
                            == 54 || (c as u32) == 55 || (c as u32) == 56 || (c as u32) == 57);
                    }
                }
            }
        }
        if !d {
            return false;
        }
        i += 1;
    }
    true
}

/// `n` copies of `c`.
pub open spec fn repeat_char(c: char, n: nat) -> Seq<char> {
    Seq::new(n, |i: int| c)
}

pub fn repeat(c: char, n: usize) -> (r: String)
    ensures
        r@ == repeat_char(c, n as nat),
{
    let mut r = String::new();
    let mut i: usize = 0;
    while i < n
        invariant
            i <= n,
            r@ == repeat_char(c, i as nat),
        decreases n - i,
    {
        push_char(&mut r, c);
        proof {
            assert(r@ =~= repeat_char(c, (i + 1) as nat));
        }
        i += 1;
    }
    r
}

} // verus!
