//! Character-level helpers: conversion between `String` and `Vec<char>`,
//! the SQL `LIKE` matcher used by the history search, blank detection,
//! and decimal integers as the settings table stores them.

use vstd::prelude::*;

verus! {

broadcast use vstd::string::group_string_axioms;

/// Appends one character to a string (`String::push`).
#[verifier::external_body]
fn push_char(s: &mut String, c: char)
    ensures
        final(s)@ == old(s)@.push(c),
{
    s.push(c);
}

/// The characters of `s`, in order.
pub fn chars_of(s: &str) -> (v: Vec<char>)
    ensures
        v@ == s@,
{
    let mut v: Vec<char> = Vec::new();
    for c in it: s.chars()
        invariant
            v@ == it.seq().take(it.index() as int),
            it.seq() == s@,
    {
        v.push(c);
    }
    v
}

/// Appends the characters `cs` to `s`.
pub fn push_chars(s: &mut String, cs: &[char])
    ensures
        final(s)@ == old(s)@ + cs@,
{
    let mut i: usize = 0;
    while i < cs.len()
        invariant
            i <= cs@.len(),
            s@ == old(s)@ + cs@.take(i as int),
        decreases cs@.len() - i,
    {
        push_char(s, cs[i]);
        assert(cs@.take(i + 1) =~= cs@.take(i as int).push(cs@[i as int]));
        i = i + 1;
    }
    assert(cs@.take(cs@.len() as int) =~= cs@);
}

/// A string made of the characters `cs`.
pub fn string_of(cs: &[char]) -> (s: String)
    ensures
        s@ == cs@,
{
    let mut s = String::new();
    push_chars(&mut s, cs);
    s
}

// ---------------------------------------------------------------------------
// SQL LIKE
// ---------------------------------------------------------------------------

/// The code of `c` with ASCII upper-case letters folded to lower case,
/// the only case folding that SQLite's `LIKE` performs.
pub open spec fn fold_ascii(c: char) -> u32 {
    if 65 <= c as u32 && c as u32 <= 90 {
        (c as u32 + 32) as u32
    } else {
        c as u32
    }
}

/// SQLite's `LIKE` without `ESCAPE`: `%` matches any run of characters,
/// `_` matches exactly one character, and any other pattern character
/// matches a text character equal to it up to ASCII case.
pub open spec fn like_match(p: Seq<char>, t: Seq<char>) -> bool
    decreases p.len() + t.len(),
{
    if p.len() == 0 {
        t.len() == 0
    } else if p[0] == '%' {
        like_match(p.drop_first(), t) || (t.len() > 0 && like_match(p, t.drop_first()))
    } else if t.len() == 0 {
        false
    } else if p[0] == '_' || fold_ascii(p[0]) == fold_ascii(t[0]) {
        like_match(p.drop_first(), t.drop_first())
    } else {
        false
    }
}

proof fn lemma_like_any(t: Seq<char>)
    ensures
        like_match(seq!['%'], t),
    decreases t.len(),
{
    let p = seq!['%'];
    assert(p.drop_first() =~= Seq::<char>::empty());
    assert(p[0] == '%');
    if t.len() > 0 {
        lemma_like_any(t.drop_first());
        assert(like_match(p, t.drop_first()));
    } else {
        assert(like_match(p.drop_first(), t));
    }
}

proof fn lemma_like_skip(p: Seq<char>, pre: Seq<char>, t: Seq<char>)
    requires
        like_match(p, t),
    ensures
        like_match(seq!['%'] + p, pre + t),
    decreases pre.len(),
{
    let pp = seq!['%'] + p;
    assert(pp.drop_first() =~= p);
    assert(pp[0] == '%');
    if pre.len() > 0 {
        lemma_like_skip(p, pre.drop_first(), t);
        assert((pre + t).drop_first() =~= pre.drop_first() + t);
    } else {
        assert(pre + t =~= t);
    }
}

/// Characters that a pattern character accepts: `%` and `_` accept any
/// one character, others the same character up to ASCII case.
pub open spec fn accepts(pc: char, c: char) -> bool {
    pc == '%' || pc == '_' || fold_ascii(pc) == fold_ascii(c)
}

/// The query occurs in `t` at position `i`, character by character as
/// `accepts` allows.
pub open spec fn occurs_at(q: Seq<char>, t: Seq<char>, i: int) -> bool {
    &&& 0 <= i
    &&& i + q.len() <= t.len()
    &&& forall|k: int| 0 <= k < q.len() ==> accepts(#[trigger] q[k], t[i + k])
}

proof fn lemma_like_literal(q: Seq<char>, p: Seq<char>, s: Seq<char>, t: Seq<char>)
    requires
        s.len() == q.len(),
        forall|k: int| 0 <= k < q.len() ==> accepts(#[trigger] q[k], s[k]),
        like_match(p, t),
    ensures
        like_match(q + p, s + t),
    decreases q.len(),
{
    if q.len() == 0 {
        assert(q + p =~= p);
        assert(s + t =~= t);
    } else {
        let qp = q + p;
        let st = s + t;
        assert(qp.drop_first() =~= q.drop_first() + p);
        assert(st.drop_first() =~= s.drop_first() + t);
        assert(qp[0] == q[0] && st[0] == s[0]);
        assert(accepts(q[0], s[0]));
        assert forall|k: int| 0 <= k < q.drop_first().len() implies accepts(
            #[trigger] q.drop_first()[k],
            s.drop_first()[k],
        ) by {
            assert(accepts(q[k + 1], s[k + 1]));
        }
        lemma_like_literal(q.drop_first(), p, s.drop_first(), t);
        if q[0] == '%' {
            assert(like_match(qp.drop_first(), st.drop_first()));
            assert(like_match(qp, st.drop_first()));
        }
    }
}

/// The search finds every text that contains the query, ASCII case aside
/// (`%` and `_` in the query accept any character).
pub proof fn law_search_finds_occurrence(q: Seq<char>, t: Seq<char>, i: int)
    requires
        occurs_at(q, t, i),
    ensures
        like_match(contains_pattern(q), t),
{
    let n = q.len() as int;
    let pre = t.subrange(0, i);
    let mid = t.subrange(i, i + n);
    let post = t.subrange(i + n, t.len() as int);
    lemma_like_any(post);
    assert forall|k: int| 0 <= k < q.len() implies accepts(#[trigger] q[k], mid[k]) by {
        assert(mid[k] == t[i + k]);
    }
    lemma_like_literal(q, seq!['%'], mid, post);
    lemma_like_skip(q + seq!['%'], pre, mid + post);
    assert(pre + (mid + post) =~= t);
    assert(seq!['%'] + (q + seq!['%']) =~= contains_pattern(q));
}

proof fn lemma_like_skip_inv(p: Seq<char>, t: Seq<char>)
    requires
        like_match(seq!['%'] + p, t),
    ensures
        exists|j: int| 0 <= j <= t.len() && like_match(p, #[trigger] t.subrange(j, t.len() as int)),
    decreases t.len(),
{
    let pp = seq!['%'] + p;
    assert(pp.drop_first() =~= p);
    assert(pp[0] == '%');
    if like_match(p, t) {
        assert(t.subrange(0, t.len() as int) =~= t);
    } else {
        assert(t.len() > 0 && like_match(pp, t.drop_first()));
        lemma_like_skip_inv(p, t.drop_first());
        let t1 = t.drop_first();
        let j = choose|j: int| 0 <= j <= t1.len() && like_match(p, #[trigger] t1.subrange(j, t1.len() as int));
        assert(t1.subrange(j, t1.len() as int) =~= t.subrange(j + 1, t.len() as int));
    }
}

proof fn lemma_like_literal_inv(q: Seq<char>, p: Seq<char>, t: Seq<char>)
    requires
        forall|k: int| 0 <= k < q.len() ==> #[trigger] q[k] != '%',
        like_match(q + p, t),
    ensures
        q.len() <= t.len(),
        forall|k: int| 0 <= k < q.len() ==> accepts(#[trigger] q[k], t[k]),
        like_match(p, t.subrange(q.len() as int, t.len() as int)),
    decreases q.len(),
{
    if q.len() == 0 {
        assert(q + p =~= p);
        assert(t.subrange(0, t.len() as int) =~= t);
    } else {
        let qp = q + p;
        assert(qp.drop_first() =~= q.drop_first() + p);
        assert(qp[0] == q[0]);
        assert(q[0] != '%');
        assert(t.len() > 0);
        let q1 = q.drop_first();
        assert forall|k: int| 0 <= k < q1.len() implies #[trigger] q1[k] != '%' by {
            assert(q1[k] == q[k + 1]);
        }
        lemma_like_literal_inv(q1, p, t.drop_first());
        assert(t.drop_first().subrange(q1.len() as int, t.drop_first().len() as int) =~= t.subrange(
            q.len() as int,
            t.len() as int,
        ));
        assert forall|k: int| 0 <= k < q.len() implies accepts(#[trigger] q[k], t[k]) by {
            if k > 0 {
                assert(q1[k - 1] == q[k]);
                assert(t.drop_first()[k - 1] == t[k]);
            }
        }
    }
}

/// The search finds only texts that contain the query, ASCII case aside
/// (`_` in the query accepts any character), for queries without `%`.
pub proof fn law_search_only_finds_occurrences(q: Seq<char>, t: Seq<char>)
    requires
        forall|k: int| 0 <= k < q.len() ==> #[trigger] q[k] != '%',
        like_match(contains_pattern(q), t),
    ensures
        exists|i: int| occurs_at(q, t, i),
{
    assert(contains_pattern(q) =~= seq!['%'] + (q + seq!['%']));
    lemma_like_skip_inv(q + seq!['%'], t);
    let j = choose|j: int|
        0 <= j <= t.len() && like_match(q + seq!['%'], #[trigger] t.subrange(j, t.len() as int));
    let tj = t.subrange(j, t.len() as int);
    lemma_like_literal_inv(q, seq!['%'], tj);
    assert forall|k: int| 0 <= k < q.len() implies accepts(#[trigger] q[k], t[j + k]) by {
        assert(tj[k] == t[j + k]);
    }
    assert(occurs_at(q, t, j));
}

/// The pattern `'%' || q || '%'` with which the history is searched.
pub open spec fn contains_pattern(q: Seq<char>) -> Seq<char> {
    seq!['%'] + q + seq!['%']
}

fn fold_ascii_exec(c: char) -> (r: u32)
    ensures
        r == fold_ascii(c),
{
    let u = c as u32;
    if 65 <= u && u <= 90 {
        u + 32
    } else {
        u
    }
}

proof fn lemma_suffix_step<A>(s: Seq<A>, i: int)
    requires
        0 <= i < s.len(),
    ensures
        s.subrange(i, s.len() as int).drop_first() == s.subrange(i + 1, s.len() as int),
        s.subrange(i, s.len() as int)[0] == s[i],
        s.subrange(i, s.len() as int).len() == s.len() - i,
{
    assert(s.subrange(i, s.len() as int).drop_first() =~= s.subrange(i + 1, s.len() as int));
}

/// Whether the text `t` matches the `LIKE` pattern `p`.
/// Dynamic programming over suffixes, one row of the table at a time.
pub fn like_matches(p: &[char], t: &[char]) -> (r: bool)
    ensures
        r == like_match(p@, t@),
{
    let n = p.len();
    let m = t.len();
    let ghost ps = p@;
    let ghost ts = t@;
    // next[j] == like_match(p[i..], t[j..]) for j < m; next_end is the entry for j == m.
    let mut next: Vec<bool> = Vec::new();
    let mut k: usize = 0;
    while k < m
        invariant
            k <= m,
            m == ts.len(),
            n == ps.len(),
            next@.len() == k,
            forall|j: int| 0 <= j < k ==> next@[j] == false,
        decreases m - k,
    {
        next.push(false);
        k = k + 1;
    }
    proof {
        assert forall|j: int| 0 <= j < m implies next@[j] == like_match(
            ps.subrange(n as int, n as int),
            ts.subrange(j, m as int),
        ) by {
            assert(ps.subrange(n as int, n as int).len() == 0);
        }
        assert(ts.subrange(m as int, m as int).len() == 0);
    }
    let mut next_end: bool = true;
    let mut i: usize = n;
    while i > 0
        invariant
            i <= n,
            n == ps.len(),
            m == ts.len(),
            ps == p@,
            ts == t@,
            next@.len() == m,
            forall|j: int|
                0 <= j < m ==> #[trigger] next@[j] == like_match(
                    ps.subrange(i as int, n as int),
                    ts.subrange(j, m as int),
                ),
            next_end == like_match(ps.subrange(i as int, n as int), ts.subrange(m as int, m as int)),
        decreases i,
    {
        i = i - 1;
        let pc = p[i];
        let ghost pi = ps.subrange(i as int, n as int);
        let ghost pn = ps.subrange(i + 1, n as int);
        proof {
            lemma_suffix_step(ps, i as int);
        }
        let ghost tend = ts.subrange(m as int, m as int);
        assert(tend.len() == 0);
        let cur_end: bool = if pc == '%' {
            next_end
        } else {
            false
        };
        assert(cur_end == like_match(pi, tend));
        let mut cur: Vec<bool> = Vec::new();
        let mut k2: usize = 0;
        while k2 < m
            invariant
                k2 <= m,
                cur@.len() == k2,
            decreases m - k2,
        {
            cur.push(false);
            k2 = k2 + 1;
        }
        let mut j: usize = m;
        while j > 0
            invariant
                j <= m,
                m == ts.len(),
                n == ps.len(),
                i < n,
                ps == p@,
                ts == t@,
                pc == ps[i as int],
                pi == ps.subrange(i as int, n as int),
                pn == ps.subrange(i + 1, n as int),
                pi.len() > 0,
                pi[0] == pc,
                pi.drop_first() == pn,
                cur@.len() == m,
                next@.len() == m,
                forall|x: int|
                    0 <= x < m ==> #[trigger] next@[x] == like_match(pn, ts.subrange(x, m as int)),
                next_end == like_match(pn, ts.subrange(m as int, m as int)),
                cur_end == like_match(pi, ts.subrange(m as int, m as int)),
                forall|x: int|
                    j <= x < m ==> #[trigger] cur@[x] == like_match(pi, ts.subrange(x, m as int)),
            decreases j,
        {
            j = j - 1;
            let ghost tj = ts.subrange(j as int, m as int);
            proof {
                lemma_suffix_step(ts, j as int);
            }
            let after_drop_text: bool = if j + 1 < m {
                cur[j + 1]
            } else {
                cur_end
            };
            let after_both: bool = if j + 1 < m {
                next[j + 1]
            } else {
                next_end
            };
            let v: bool = if pc == '%' {
                next[j] || after_drop_text
            } else if pc == '_' || fold_ascii_exec(pc) == fold_ascii_exec(t[j]) {
                after_both
            } else {
                false
            };
            assert(v == like_match(pi, tj));
            cur.set(j, v);
        }
        next = cur;
        next_end = cur_end;
    }
    assert(ps.subrange(0, n as int) =~= ps);
    if m == 0 {
        assert(ts.subrange(0, 0) =~= ts);
        next_end
    } else {
        assert(ts.subrange(0, m as int) =~= ts);
        next[0]
    }
}

/// Whether `text` matches `'%' || q || '%'`, the history search condition.
pub fn like_contains(text: &[char], q: &[char]) -> (r: bool)
    ensures
        r == like_match(contains_pattern(q@), text@),
{
    let mut pat: Vec<char> = Vec::new();
    pat.push('%');
    let mut i: usize = 0;
    while i < q.len()
        invariant
            i <= q@.len(),
            pat@ == seq!['%'] + q@.take(i as int),
        decreases q@.len() - i,
    {
        pat.push(q[i]);
        assert(q@.take(i + 1) =~= q@.take(i as int).push(q@[i as int]));
        i = i + 1;
    }
    pat.push('%');
    assert(q@.take(q@.len() as int) =~= q@);
    assert(pat@ =~= contains_pattern(q@));
    like_matches(pat.as_slice(), text)
}


// ---------------------------------------------------------------------------
// Blank text
// ---------------------------------------------------------------------------

/// The Unicode `White_Space` property, which `char::is_whitespace` and
/// `str::trim` go by.
pub open spec fn is_white_space(c: char) -> bool {
    let u = c as u32;
    (9 <= u && u <= 13) || u == 32 || u == 0x85 || u == 0xA0 || u == 0x1680 || (0x2000 <= u
        && u <= 0x200A) || u == 0x2028 || u == 0x2029 || u == 0x202F || u == 0x205F || u == 0x3000
}

/// Whether `s.trim()` is empty: every character is white space.
pub open spec fn is_blank(s: Seq<char>) -> bool {
    forall|i: int| 0 <= i < s.len() ==> is_white_space(#[trigger] s[i])
}

fn is_white_space_exec(c: char) -> (r: bool)
    ensures
        r == is_white_space(c),
{
    let u = c as u32;
    (9 <= u && u <= 13) || u == 32 || u == 0x85 || u == 0xA0 || u == 0x1680 || (0x2000 <= u
        && u <= 0x200A) || u == 0x2028 || u == 0x2029 || u == 0x202F || u == 0x205F || u == 0x3000
}

/// Whether `s` holds nothing but white space (`s.trim().is_empty()`).
pub fn blank(s: &str) -> (r: bool)
    ensures
        r == is_blank(s@),
{
    let cs = chars_of(s);
    let mut i: usize = 0;
    while i < cs.len()
        invariant
            i <= cs@.len(),
            cs@ == s@,
            forall|k: int| 0 <= k < i ==> is_white_space(#[trigger] cs@[k]),
        decreases cs@.len() - i,
    {
        if !is_white_space_exec(cs[i]) {
            return false;
        }
        i = i + 1;
    }
    true
}

/// Whether two strings hold the same characters.
pub fn same_text(a: &str, b: &str) -> (r: bool)
    ensures
        r == (a@ == b@),
{
    let x = chars_of(a);
    let y = chars_of(b);
    if x.len() != y.len() {
        return false;
    }
    let mut i: usize = 0;
    while i < x.len()
        invariant
            i <= x@.len(),
            x@.len() == y@.len(),
            x@ == a@,
            y@ == b@,
            forall|k: int| 0 <= k < i ==> x@[k] == y@[k],
        decreases x@.len() - i,
    {
        if x[i] != y[i] {
            return false;
        }
        i = i + 1;
    }
    assert(x@ =~= y@);
    true
}

// ---------------------------------------------------------------------------
// Decimal integers
// ---------------------------------------------------------------------------

pub open spec fn is_digit(c: char) -> bool {
    '0' <= c && c <= '9'
}

pub open spec fn digit_value(c: char) -> int {
    c as int - '0' as int
}

pub open spec fn digit_char(d: int) -> char {
    (d + '0' as int) as char
}

pub open spec fn all_digits(s: Seq<char>) -> bool {
    forall|i: int| 0 <= i < s.len() ==> is_digit(#[trigger] s[i])
}

/// The value of a run of decimal digits.
pub open spec fn digits_value(s: Seq<char>) -> int
    decreases s.len(),
{
    if s.len() == 0 {
        0
    } else {
        digits_value(s.drop_last()) * 10 + digit_value(s.last())
    }
}

/// What `str::parse::<i64>` gives: an optional `+` or `-`, then one or more
/// ASCII digits, with a value in the range of `i64`; `None` for anything else.
pub open spec fn parse_i64_spec(s: Seq<char>) -> Option<int> {
    let neg = s.len() > 0 && s[0] == '-';
    let body = if s.len() > 0 && (s[0] == '-' || s[0] == '+') {
        s.drop_first()
    } else {
        s
    };
    if body.len() == 0 || !all_digits(body) {
        None
    } else {
        let v = if neg {
            -digits_value(body)
        } else {
            digits_value(body)
        };
        if i64::MIN <= v && v <= i64::MAX {
            Some(v)
        } else {
            None
        }
    }
}

/// The decimal digits of a natural number, without leading zeros.
pub open spec fn decimal(n: nat) -> Seq<char>
    decreases n,
{
    if n < 10 {
        seq![digit_char(n as int)]
    } else {
        decimal(n / 10).push(digit_char((n % 10) as int))
    }
}

/// What `i64::to_string` gives: a `-` for negative values, then the digits.
pub open spec fn format_i64_spec(n: int) -> Seq<char> {
    if n < 0 {
        seq!['-'] + decimal((-n) as nat)
    } else {
        decimal(n as nat)
    }
}

proof fn lemma_digits_value_nonneg(s: Seq<char>)
    requires
        all_digits(s),
    ensures
        digits_value(s) >= 0,
    decreases s.len(),
{
    if s.len() > 0 {
        lemma_digits_value_nonneg(s.drop_last());
    }
}

/// Appending digits never makes the value smaller.
proof fn lemma_digits_value_prefix(s: Seq<char>, k: int)
    requires
        all_digits(s),
        0 <= k <= s.len(),
    ensures
        digits_value(s.take(k)) <= digits_value(s),
    decreases s.len() - k,
{
    if k < s.len() {
        let t = s.take(k + 1);
        assert(t.drop_last() =~= s.take(k));
        assert(all_digits(s.take(k)));
        lemma_digits_value_nonneg(s.take(k));
        lemma_digits_value_prefix(s, k + 1);
    } else {
        assert(s.take(k) =~= s);
    }
}

proof fn lemma_decimal(n: nat)
    ensures
        decimal(n).len() > 0,
        all_digits(decimal(n)),
        digits_value(decimal(n)) == n,
    decreases n,
{
    if n >= 10 {
        lemma_decimal(n / 10);
        let d = decimal(n);
        assert(d.drop_last() =~= decimal(n / 10));
        assert(n == (n / 10) * 10 + n % 10) by (nonlinear_arith);
        assert(d.last() == digit_char((n % 10) as int));
        assert(digit_value(digit_char((n % 10) as int)) == n % 10);
    } else {
        assert(digit_value(digit_char(n as int)) == n);
        let d = decimal(n);
        assert(d.drop_last() =~= Seq::<char>::empty());
        assert(digits_value(Seq::<char>::empty()) == 0);
    }
}

/// Reading back what was written: a formatted `i64` parses to itself.
pub proof fn lemma_parse_format_i64(n: i64)
    ensures
        parse_i64_spec(format_i64_spec(n as int)) == Some(n as int),
{
    if n < 0 {
        let m = (-(n as int)) as nat;
        lemma_decimal(m);
        let s = format_i64_spec(n as int);
        assert(s.drop_first() =~= decimal(m));
    } else {
        lemma_decimal(n as nat);
        let d = decimal(n as nat);
        assert(d[0] != '-' && d[0] != '+');
    }
}

/// Parses a decimal `i64` as `str::parse::<i64>` does.
pub fn parse_i64(s: &str) -> (r: Option<i64>)
    ensures
        r matches Some(v) ==> parse_i64_spec(s@) == Some(v as int),
        r is None ==> parse_i64_spec(s@) is None,
{
    let cs = chars_of(s);
    let n = cs.len();
    if n == 0 {
        return None;
    }
    let neg = cs[0] == '-';
    let start: usize = if cs[0] == '-' || cs[0] == '+' {
        1
    } else {
        0
    };
    if start == n {
        return None;
    }
    let ghost body = if start == 1 {
        s@.drop_first()
    } else {
        s@
    };
    assert(body =~= cs@.subrange(start as int, n as int));
    assert(body == (if s@.len() > 0 && (s@[0] == '-' || s@[0] == '+') {
        s@.drop_first()
    } else {
        s@
    }));
    assert(neg == (s@.len() > 0 && s@[0] == '-'));
    // acc == digits_value(body[..i - start]), kept at most 2^63
    let mut acc: u64 = 0;
    let mut i: usize = start;
    while i < n
        invariant
            start <= i <= n,
            cs@ == s@,
            n == cs@.len(),
            body == cs@.subrange(start as int, n as int),
            body == (if s@.len() > 0 && (s@[0] == '-' || s@[0] == '+') {
                s@.drop_first()
            } else {
                s@
            }),
            neg == (s@.len() > 0 && s@[0] == '-'),
            all_digits(body.take(i - start)),
            acc == digits_value(body.take(i - start)),
            acc <= 0x8000_0000_0000_0000u64,
        decreases n - i,
    {
        let c = cs[i];
        assert(body[i - start] == c);
        if !('0' <= c && c <= '9') {
            assert(!all_digits(body));
            return None;
        }
        let d = (c as u32 - '0' as u32) as u64;
        let ghost pre = body.take(i - start);
        let ghost post = body.take(i + 1 - start);
        assert(post.drop_last() =~= pre);
        assert(all_digits(post));
        if acc > (0x8000_0000_0000_0000u64 - d) / 10 {
            proof {
                assert(digits_value(post) == acc * 10 + d);
                assert(acc * 10 + d > 0x8000_0000_0000_0000u64) by (nonlinear_arith)
                    requires
                        acc > (0x8000_0000_0000_0000u64 - d) / 10,
                        d <= 9,
                ;
                if all_digits(body) {
                    lemma_digits_value_prefix(body, i + 1 - start);
                }
            }
            return None;
        }
        assert(acc * 10 + d <= 0x8000_0000_0000_0000u64) by (nonlinear_arith)
            requires
                acc <= (0x8000_0000_0000_0000u64 - d) / 10,
                d <= 9,
        ;
        acc = acc * 10 + d;
        i = i + 1;
    }
    assert(body.take(n - start) =~= body);
    if neg {
        if acc == 0x8000_0000_0000_0000u64 {
            Some(i64::MIN)
        } else {
            Some(-(acc as i64))
        }
    } else {
        if acc > 0x7FFF_FFFF_FFFF_FFFFu64 {
            None
        } else {
            Some(acc as i64)
        }
    }
}

fn push_decimal(s: &mut String, n: u64)
    ensures
        final(s)@ == old(s)@ + decimal(n as nat),
    decreases n,
{
    if n >= 10 {
        push_decimal(s, n / 10);
    }
    let d = n % 10;
    let c: char = ((d as u8) + 48) as char;
    assert(c == digit_char(d as int));
    push_char(s, c);
    if n >= 10 {
        assert(decimal(n as nat) == decimal((n / 10) as nat).push(digit_char(d as int)));
    } else {
        assert(d == n);
    }
    assert(final(s)@ =~= old(s)@ + decimal(n as nat));
}

/// Formats an `i64` as `i64::to_string` does.
pub fn format_i64(n: i64) -> (s: String)
    ensures
        s@ == format_i64_spec(n as int),
{
    let mut s = String::new();
    if n < 0 {
        push_char(&mut s, '-');
        let m: u64 = if n == i64::MIN {
            0x8000_0000_0000_0000u64
        } else {
            (-n) as u64
        };
        push_decimal(&mut s, m);
        assert(s@ =~= format_i64_spec(n as int));
    } else {
        push_decimal(&mut s, n as u64);
        assert(s@ =~= format_i64_spec(n as int));
    }
    s
}

} // verus!
