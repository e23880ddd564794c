//! Text handling shared by the reducers and the validation harness:
//! whitespace classification, tokenization, token reversal, joining with
//! single spaces, and trimming, all specified over character sequences.

use vstd::prelude::*;
use rayon::iter::IntoParallelRefIterator;
use rayon::iter::ParallelIterator;

verus! {

/// A character with the Unicode `White_Space` property, the class used by
/// whitespace splitting and trimming.
pub open spec fn is_ws(c: char) -> bool {
    let u = c as u32;
    u == 0x20 || (0x09 <= u && u <= 0x0D) || u == 0x85 || u == 0xA0 || u == 0x1680 || (0x2000
        <= u && u <= 0x200A) || u == 0x2028 || u == 0x2029 || u == 0x202F || u == 0x205F || u
        == 0x3000
}

/// Runtime test for `is_ws`.
pub fn char_is_ws(c: char) -> (r: bool)
    ensures
        r == is_ws(c),
{
    let u = c as u32;
    u == 0x20 || (0x09 <= u && u <= 0x0D) || u == 0x85 || u == 0xA0 || u == 0x1680 || (0x2000
        <= u && u <= 0x200A) || u == 0x2028 || u == 0x2029 || u == 0x202F || u == 0x205F || u
        == 0x3000
}

/// Length of the maximal non-whitespace prefix of `s`.
pub open spec fn token_len(s: Seq<char>) -> nat
    decreases s.len(),
{
    if s.len() == 0 || is_ws(s[0]) {
        0
    } else {
        1 + token_len(s.drop_first())
    }
}

/// The leading token never extends past the end of the sequence, consists of
/// non-whitespace characters, and if anything follows it, that is whitespace.
pub proof fn lemma_token_len_facts(s: Seq<char>)
    ensures
        token_len(s) <= s.len(),
        forall|i: int| 0 <= i < token_len(s) ==> !is_ws(s[i]),
        token_len(s) < s.len() ==> is_ws(s[token_len(s) as int]),
    decreases s.len(),
{
    if s.len() != 0 && !is_ws(s[0]) {
        lemma_token_len_facts(s.drop_first());
        assert forall|i: int| 0 <= i < token_len(s) implies !is_ws(s[i]) by {
            if i > 0 {
                assert(s[i] == s.drop_first()[i - 1]);
            }
        }
    }
}

/// The whitespace-split tokens of `s`, in order.
pub open spec fn tokenize(s: Seq<char>) -> Seq<Seq<char>>
    decreases s.len(),
    via tokenize_decreases
{
    if s.len() == 0 {
        Seq::empty()
    } else if is_ws(s[0]) {
        tokenize(s.drop_first())
    } else {
        seq![s.take(token_len(s) as int)] + tokenize(s.skip(token_len(s) as int))
    }
}

#[via_fn]
proof fn tokenize_decreases(s: Seq<char>) {
    if s.len() != 0 && !is_ws(s[0]) {
        lemma_token_len_facts(s);
    }
}

/// A well-formed token: nonempty and free of whitespace.
pub open spec fn wf_token(t: Seq<char>) -> bool {
    t.len() >= 1 && forall|i: int| 0 <= i < t.len() ==> !is_ws(t[i])
}

/// Every element is a well-formed token.
pub open spec fn wf_tokens(ts: Seq<Seq<char>>) -> bool {
    forall|i: int| 0 <= i < ts.len() ==> wf_token(#[trigger] ts[i])
}

/// Tokenization only produces well-formed tokens.
pub proof fn lemma_tokenize_wf(s: Seq<char>)
    ensures
        wf_tokens(tokenize(s)),
    decreases s.len(),
{
    if s.len() == 0 {
    } else if is_ws(s[0]) {
        lemma_tokenize_wf(s.drop_first());
    } else {
        lemma_token_len_facts(s);
        lemma_tokenize_wf(s.skip(token_len(s) as int));
        let ts = tokenize(s);
        let rest = tokenize(s.skip(token_len(s) as int));
        assert forall|i: int| 0 <= i < ts.len() implies wf_token(ts[i]) by {
            if i == 0 {
                let t = s.take(token_len(s) as int);
                assert(forall|j: int| 0 <= j < t.len() ==> t[j] == s[j]);
            } else {
                assert(ts[i] == rest[i - 1]);
            }
        }
    }
}

/// A sequence all of whose characters are non-whitespace is one whole token.
pub proof fn lemma_token_len_all(s: Seq<char>)
    requires
        forall|i: int| 0 <= i < s.len() ==> !is_ws(s[i]),
    ensures
        token_len(s) == s.len(),
{
    lemma_token_len_facts(s);
}

/// The elements joined with single spaces between them.
pub open spec fn join_spaces(ts: Seq<Seq<char>>) -> Seq<char>
    decreases ts.len(),
{
    if ts.len() == 0 {
        Seq::empty()
    } else if ts.len() == 1 {
        ts[0]
    } else {
        ts[0] + seq![' '] + join_spaces(ts.drop_first())
    }
}

/// Appending one more element to a join appends a space and the element.
pub proof fn lemma_join_snoc(ts: Seq<Seq<char>>, t: Seq<char>)
    ensures
        ts.len() == 0 ==> join_spaces(ts.push(t)) == t,
        ts.len() >= 1 ==> join_spaces(ts.push(t)) == join_spaces(ts) + seq![' '] + t,
    decreases ts.len(),
{
    let p = ts.push(t);
    if ts.len() == 0 {
        assert(p.len() == 1);
        assert(p[0] == t);
    } else if ts.len() == 1 {
        assert(p.len() == 2);
        assert(p[0] == ts[0]);
        assert(p.drop_first() =~= seq![t]);
        assert(join_spaces(seq![t]) == t);
        assert(join_spaces(ts) == ts[0]);
    } else {
        lemma_join_snoc(ts.drop_first(), t);
        assert(p.drop_first() =~= ts.drop_first().push(t));
        assert(join_spaces(p) == p[0] + seq![' '] + join_spaces(ts.drop_first().push(t)));
        assert(join_spaces(ts.drop_first().push(t)) == join_spaces(ts.drop_first()) + seq![' ']
            + t);
        assert(p[0] == ts[0]);
        assert(ts[0] + seq![' '] + (join_spaces(ts.drop_first()) + seq![' '] + t) =~= (ts[0]
            + seq![' '] + join_spaces(ts.drop_first())) + seq![' '] + t);
    }
}

/// Joining a concatenation of two nonempty token lists inserts a single
/// space between the two joined halves.
pub proof fn lemma_join_append(a: Seq<Seq<char>>, b: Seq<Seq<char>>)
    requires
        a.len() >= 1,
        b.len() >= 1,
    ensures
        join_spaces(a + b) == join_spaces(a) + seq![' '] + join_spaces(b),
    decreases a.len(),
{
    let ab = a + b;
    if a.len() == 1 {
        assert(ab.len() >= 2);
        assert(ab[0] == a[0]);
        assert(ab.drop_first() =~= b);
        assert(join_spaces(a) == a[0]);
    } else {
        lemma_join_append(a.drop_first(), b);
        assert(ab.drop_first() =~= a.drop_first() + b);
        assert(ab[0] == a[0]);
        assert(join_spaces(ab) == a[0] + seq![' '] + (join_spaces(a.drop_first()) + seq![' ']
            + join_spaces(b)));
        assert(a[0] + seq![' '] + (join_spaces(a.drop_first()) + seq![' '] + join_spaces(b)) =~= (
        a[0] + seq![' '] + join_spaces(a.drop_first())) + seq![' '] + join_spaces(b));
    }
}

/// Tokenizing a space-joined list of well-formed tokens gives the list back.
pub proof fn lemma_tokenize_join(ts: Seq<Seq<char>>)
    requires
        wf_tokens(ts),
    ensures
        tokenize(join_spaces(ts)) == ts,
    decreases ts.len(),
{
    if ts.len() == 0 {
        assert(tokenize(join_spaces(ts)) =~= ts);
    } else if ts.len() == 1 {
        let t = ts[0];
        assert(wf_token(t));
        lemma_token_len_all(t);
        assert(!is_ws(t[0]));
        assert(t.take(t.len() as int) =~= t);
        assert(t.skip(t.len() as int) =~= Seq::<char>::empty());
        assert(tokenize(t) == seq![t] + tokenize(Seq::<char>::empty()));
        assert(seq![t] + Seq::<Seq<char>>::empty() =~= ts);
    } else {
        let t = ts[0];
        let rest = ts.drop_first();
        let s = join_spaces(ts);
        let tail = join_spaces(rest);
        assert(wf_token(t));
        assert(wf_tokens(rest)) by {
            assert(forall|i: int| 0 <= i < rest.len() ==> rest[i] == ts[i + 1]);
        }
        lemma_tokenize_join(rest);
        assert(s == t + seq![' '] + tail);
        // The leading token of `s` is exactly `t`.
        lemma_token_len_facts(s);
        let tl = token_len(s) as int;
        assert(forall|i: int| 0 <= i < t.len() ==> s[i] == t[i]);
        assert(s[t.len() as int] == ' ');
        assert(is_ws(' '));
        if tl < t.len() {
            assert(!is_ws(s[tl]));
            assert(false);
        }
        if tl > t.len() {
            assert(!is_ws(s[t.len() as int]));
            assert(false);
        }
        assert(tl == t.len());
        assert(!is_ws(s[0]));
        assert(s.take(tl) =~= t);
        assert(s.skip(tl) =~= seq![' '] + tail);
        assert(tokenize(s) == seq![t] + tokenize(seq![' '] + tail));
        assert((seq![' '] + tail).drop_first() =~= tail);
        assert(tokenize(seq![' '] + tail) == tokenize(tail));
        assert(seq![t] + rest =~= ts);
    }
}

/// The reversal of a character sequence.
pub open spec fn rev_seq(s: Seq<char>) -> Seq<char> {
    Seq::new(s.len(), |i: int| s[s.len() - 1 - i])
}

/// Reversing twice restores the original sequence.
pub proof fn lemma_rev_rev(s: Seq<char>)
    ensures
        rev_seq(rev_seq(s)) == s,
{
    assert(rev_seq(rev_seq(s)) =~= s);
}

/// Reversal keeps length and (reversed) contents, so a well-formed token
/// stays well-formed.
pub proof fn lemma_rev_wf(t: Seq<char>)
    requires
        wf_token(t),
    ensures
        wf_token(rev_seq(t)),
{
    assert forall|i: int| 0 <= i < rev_seq(t).len() implies !is_ws(rev_seq(t)[i]) by {
        assert(rev_seq(t)[i] == t[t.len() - 1 - i]);
    }
}

/// Length of the whitespace prefix of `s`.
pub open spec fn leading_ws(s: Seq<char>) -> nat
    decreases s.len(),
{
    if s.len() == 0 || !is_ws(s[0]) {
        0
    } else {
        1 + leading_ws(s.drop_first())
    }
}

/// The whitespace prefix stays within the sequence, consists of whitespace,
/// and is followed by a non-whitespace character if anything follows it.
pub proof fn lemma_leading_ws_facts(s: Seq<char>)
    ensures
        leading_ws(s) <= s.len(),
        forall|i: int| 0 <= i < leading_ws(s) ==> is_ws(s[i]),
        leading_ws(s) < s.len() ==> !is_ws(s[leading_ws(s) as int]),
    decreases s.len(),
{
    if s.len() != 0 && is_ws(s[0]) {
        lemma_leading_ws_facts(s.drop_first());
        assert forall|i: int| 0 <= i < leading_ws(s) implies is_ws(s[i]) by {
            if i > 0 {
                assert(s[i] == s.drop_first()[i - 1]);
            }
        }
    }
}

/// `s` with leading and trailing whitespace removed.
pub open spec fn trim_spec(s: Seq<char>) -> Seq<char> {
    if leading_ws(s) == s.len() {
        Seq::empty()
    } else {
        s.subrange(leading_ws(s) as int, s.len() - leading_ws(rev_seq(s)))
    }
}

/// Copy of a character vector.
#[verifier::loop_isolation(false)]
pub fn copy_chars(t: &Vec<char>) -> (r: Vec<char>)
    ensures
        r@ == t@,
{
    let mut out: Vec<char> = Vec::new();
    let mut k: usize = 0;
    while k < t.len()
        invariant
            k <= t.len(),
            out@ == t@.take(k as int),
        decreases t.len() - k,
    {
        out.push(t[k]);
        proof {
            assert(t@.take((k + 1) as int) =~= t@.take(k as int).push(t@[k as int]));
        }
        k = k + 1;
    }
    proof {
        assert(t@.take(t@.len() as int) =~= t@);
    }
    out
}

/// The characters of `t` in reverse order.
#[verifier::loop_isolation(false)]
pub fn reverse_chars(t: &Vec<char>) -> (r: Vec<char>)
    ensures
        r@ == rev_seq(t@),
{
    let mut out: Vec<char> = Vec::new();
    let mut k: usize = 0;
    while k < t.len()
        invariant
            k <= t.len(),
            out@ == rev_seq(t@).take(k as int),
        decreases t.len() - k,
    {
        out.push(t[t.len() - 1 - k]);
        proof {
            assert(rev_seq(t@)[k as int] == t@[t@.len() - 1 - k]);
            assert(rev_seq(t@).take((k + 1) as int) =~= rev_seq(t@).take(k as int).push(
                rev_seq(t@)[k as int]));
        }
        k = k + 1;
    }
    proof {
        assert(rev_seq(t@).take(t@.len() as int) =~= rev_seq(t@));
    }
    out
}

/// Element-wise equality of two character vectors.
#[verifier::loop_isolation(false)]
pub fn chars_equal(a: &Vec<char>, b: &Vec<char>) -> (r: bool)
    ensures
        r == (a@ == b@),
{
    if a.len() != b.len() {
        proof {
            if a@ == b@ {
                assert(a@.len() == b@.len());
            }
        }
        return false;
    }
    let mut k: usize = 0;
    while k < a.len()
        invariant
            k <= a.len(),
            a@.len() == b@.len(),
            forall|m: int| 0 <= m < k ==> a@[m] == b@[m],
        decreases a.len() - k,
    {
        if a[k] != b[k] {
            proof {
                if a@ == b@ {
                    assert(a@[k as int] == b@[k as int]);
                }
            }
            return false;
        }
        k = k + 1;
    }
    proof {
        assert(a@ =~= b@);
    }
    true
}

/// The whitespace-split tokens of `v`, each as its own vector.
#[verifier::loop_isolation(false)]
pub fn tokenize_vec(v: &Vec<char>) -> (r: Vec<Vec<char>>)
    ensures
        r.deep_view() == tokenize(v@),
{
    let mut out: Vec<Vec<char>> = Vec::new();
    let mut i: usize = 0;
    proof {
        assert(v@.skip(0) =~= v@);
        assert(out.deep_view() =~= Seq::<Seq<char>>::empty());
        assert(Seq::<Seq<char>>::empty() + tokenize(v@) =~= tokenize(v@));
    }
    while i < v.len()
        invariant
            i <= v.len(),
            tokenize(v@) == out.deep_view() + tokenize(v@.skip(i as int)),
        decreases v.len() - i,
    {
        if char_is_ws(v[i]) {
            proof {
                assert(v@.skip(i as int).drop_first() =~= v@.skip((i + 1) as int));
            }
            i = i + 1;
        } else {
            let ghost srem = v@.skip(i as int);
            proof {
                assert(srem[0] == v@[i as int]);
                assert(srem.drop_first() =~= v@.skip((i + 1) as int));
            }
            let mut j: usize = i + 1;
            while j < v.len() && !char_is_ws(v[j])
                invariant
                    i < j <= v.len(),
                    token_len(srem) == (j - i) + token_len(v@.skip(j as int)),
                decreases v.len() - j,
            {
                proof {
                    assert(v@.skip(j as int)[0] == v@[j as int]);
                    assert(v@.skip(j as int).drop_first() =~= v@.skip((j + 1) as int));
                }
                j = j + 1;
            }
            proof {
                if j < v.len() {
                    assert(token_len(v@.skip(j as int)) == 0);
                } else {
                    assert(v@.skip(j as int).len() == 0);
                }
                assert(token_len(srem) == j - i);
            }
            let mut tok: Vec<char> = Vec::new();
            let mut k: usize = i;
            while k < j
                invariant
                    i <= k <= j <= v.len(),
                    tok@ == v@.subrange(i as int, k as int),
                decreases j - k,
            {
                tok.push(v[k]);
                proof {
                    assert(v@.subrange(i as int, (k + 1) as int) =~= v@.subrange(
                        i as int,
                        k as int,
                    ).push(v@[k as int]));
                }
                k = k + 1;
            }
            let ghost prev = out.deep_view();
            out.push(tok);
            proof {
                assert(tok.deep_view() =~= tok@);
                assert(out.deep_view() =~= prev.push(tok@));
                assert(srem.take((j - i) as int) =~= v@.subrange(i as int, j as int));
                assert(srem.skip((j - i) as int) =~= v@.skip(j as int));
                assert(tokenize(srem) == seq![tok@] + tokenize(v@.skip(j as int)));
                assert(prev.push(tok@) + tokenize(v@.skip(j as int)) =~= prev + (seq![tok@]
                    + tokenize(v@.skip(j as int))));
            }
            i = j;
        }
    }
    proof {
        assert(v@.skip(v@.len() as int) =~= Seq::<char>::empty());
        assert(out.deep_view() + Seq::<Seq<char>>::empty() =~= out.deep_view());
    }
    out
}

/// The elements of `ts` joined with single spaces.
#[verifier::loop_isolation(false)]
pub fn join_tokens(ts: &Vec<Vec<char>>) -> (r: Vec<char>)
    ensures
        r@ == join_spaces(ts.deep_view()),
{
    let ghost dv = ts.deep_view();
    let mut out: Vec<char> = Vec::new();
    let mut i: usize = 0;
    while i < ts.len()
        invariant
            i <= ts.len(),
            dv == ts.deep_view(),
            dv.len() == ts@.len(),
            out@ == join_spaces(dv.take(i as int)),
        decreases ts.len() - i,
    {
        if i > 0 {
            out.push(' ');
        }
        let t = &ts[i];
        let ghost base = out@;
        let mut k: usize = 0;
        while k < t.len()
            invariant
                k <= t.len(),
                out@ == base + t@.take(k as int),
            decreases t.len() - k,
        {
            out.push(t[k]);
            proof {
                assert(t@.take((k + 1) as int) =~= t@.take(k as int).push(t@[k as int]));
                assert(base + t@.take(k as int).push(t@[k as int]) =~= (base + t@.take(
                    k as int,
                )).push(t@[k as int]));
            }
            k = k + 1;
        }
        proof {
            assert(t@.take(t@.len() as int) =~= t@);
            assert(dv[i as int] == t@);
            lemma_join_snoc(dv.take(i as int), dv[i as int]);
            assert(dv.take((i + 1) as int) =~= dv.take(i as int).push(dv[i as int]));
            if i == 0 {
                assert(base =~= Seq::<char>::empty());
                assert(base + t@ =~= t@);
            } else {
                assert(base =~= join_spaces(dv.take(i as int)) + seq![' ']);
                assert(base + t@ =~= join_spaces(dv.take(i as int)) + seq![' '] + t@);
            }
        }
        i = i + 1;
    }
    proof {
        assert(dv.take(dv.len() as int) =~= dv);
    }
    out
}

/// `v` with leading and trailing whitespace removed.
#[verifier::loop_isolation(false)]
pub fn trim_chars(v: &Vec<char>) -> (r: Vec<char>)
    ensures
        r@ == trim_spec(v@),
{
    let s = v;
    let ghost sv = v@;
    proof {
        lemma_leading_ws_facts(sv);
    }
    let mut i: usize = 0;
    proof {
        assert(sv.skip(0) =~= sv);
    }
    while i < s.len() && char_is_ws(s[i])
        invariant
            i <= s.len(),
            leading_ws(sv) == i + leading_ws(sv.skip(i as int)),
        decreases s.len() - i,
    {
        proof {
            assert(sv.skip(i as int)[0] == sv[i as int]);
            assert(sv.skip(i as int).drop_first() =~= sv.skip((i + 1) as int));
        }
        i = i + 1;
    }
    proof {
        if i < s.len() {
            assert(leading_ws(sv.skip(i as int)) == 0);
        } else {
            assert(sv.skip(i as int).len() == 0);
        }
        assert(leading_ws(sv) == i);
    }
    if i == s.len() {
        return Vec::new();
    }
    // There is a non-whitespace character at index `i`; scan back from the end.
    let ghost rv = rev_seq(sv);
    let mut j: usize = s.len();
    proof {
        assert(sv.take(j as int) =~= sv);
        assert(rev_seq(sv.take(j as int)) == rv);
    }
    while char_is_ws(s[j - 1])
        invariant
            i + 1 <= j <= s.len(),
            leading_ws(rv) == (sv.len() - j) + leading_ws(rev_seq(sv.take(j as int))),
        decreases j,
    {
        proof {
            assert(rev_seq(sv.take(j as int))[0] == sv[j - 1]);
            if j - 1 == i {
                assert(!is_ws(sv[i as int]));
                assert(false);
            }
            assert(rev_seq(sv.take(j as int)).drop_first() =~= rev_seq(sv.take((j - 1) as int)));
        }
        j = j - 1;
    }
    proof {
        assert(rev_seq(sv.take(j as int))[0] == sv[j - 1]);
        assert(leading_ws(rev_seq(sv.take(j as int))) == 0);
        assert(leading_ws(rv) == sv.len() - j);
    }
    let mut out: Vec<char> = Vec::new();
    let mut k: usize = i;
    while k < j
        invariant
            i <= k <= j <= s.len(),
            out@ == sv.subrange(i as int, k as int),
        decreases j - k,
    {
        out.push(s[k]);
        proof {
            assert(sv.subrange(i as int, (k + 1) as int) =~= sv.subrange(i as int, k as int).push(
                sv[k as int]));
        }
        k = k + 1;
    }
    proof {
        assert(out@ =~= trim_spec(sv));
    }
    out
}

/// `ts` cut into consecutive chunks of `c` elements, the last chunk shorter.
pub open spec fn chunk_seq(ts: Seq<Seq<char>>, c: int) -> Seq<Seq<Seq<char>>>
    decreases ts.len(),
{
    if ts.len() == 0 {
        Seq::empty()
    } else if c < 1 || ts.len() <= c {
        seq![ts]
    } else {
        seq![ts.take(c)] + chunk_seq(ts.skip(c), c)
    }
}

/// Each chunk joined with single spaces.
pub open spec fn chunk_joins(ts: Seq<Seq<char>>, c: int) -> Seq<Seq<char>> {
    chunk_seq(ts, c).map_values(|chunk: Seq<Seq<char>>| join_spaces(chunk))
}

/// Joining the per-chunk joins with single spaces gives the same text as
/// joining all the tokens directly: the chunked, parallel reduction is
/// equivalent to the sequential one.
pub proof fn lemma_chunks_flat(ts: Seq<Seq<char>>, c: int)
    ensures
        join_spaces(chunk_joins(ts, c)) == join_spaces(ts),
    decreases ts.len(),
{
    if ts.len() == 0 {
        assert(chunk_joins(ts, c) =~= Seq::<Seq<char>>::empty());
    } else if c < 1 || ts.len() <= c {
        assert(chunk_joins(ts, c) =~= seq![join_spaces(ts)]);
        assert(join_spaces(seq![join_spaces(ts)]) == join_spaces(ts));
    } else {
        lemma_chunks_flat(ts.skip(c), c);
        let head = join_spaces(ts.take(c));
        let rest = chunk_joins(ts.skip(c), c);
        assert(chunk_joins(ts, c) =~= seq![head] + rest);
        assert(ts.skip(c).len() >= 1);
        assert(rest.len() >= 1);
        assert((seq![head] + rest).len() >= 2);
        assert((seq![head] + rest)[0] == head);
        assert((seq![head] + rest).drop_first() =~= rest);
        assert(join_spaces(seq![head] + rest) == head + seq![' '] + join_spaces(rest));
        lemma_join_append(ts.take(c), ts.skip(c));
        assert(ts.take(c) + ts.skip(c) =~= ts);
    }
}

/// The chunk size does not affect the joined output.
pub proof fn lemma_chunk_size_irrelevant(ts: Seq<Seq<char>>, c1: int, c2: int)
    ensures
        join_spaces(chunk_joins(ts, c1)) == join_spaces(chunk_joins(ts, c2)),
{
    lemma_chunks_flat(ts, c1);
    lemma_chunks_flat(ts, c2);
}

/// Reversing every token keeps the token list well formed, so tokenizing the
/// reducer's output returns exactly the reversed tokens of the input: token
/// count and order are preserved.
pub proof fn lemma_reverse_output_tokens(s: Seq<char>)
    ensures
        tokenize(join_spaces(tokenize(s).map_values(|t: Seq<char>| rev_seq(t)))) == tokenize(
            s,
        ).map_values(|t: Seq<char>| rev_seq(t)),
        tokenize(s).map_values(|t: Seq<char>| rev_seq(t)).len() == tokenize(s).len(),
{
    let rts = tokenize(s).map_values(|t: Seq<char>| rev_seq(t));
    lemma_tokenize_wf(s);
    assert forall|i: int| 0 <= i < rts.len() implies wf_token(#[trigger] rts[i]) by {
        assert(rts[i] == rev_seq(tokenize(s)[i]));
        lemma_rev_wf(tokenize(s)[i]);
    }
    lemma_tokenize_join(rts);
}

/// Skipping the leading whitespace does not change the tokens.
pub proof fn lemma_tokenize_skip_leading(s: Seq<char>)
    ensures
        tokenize(s.skip(leading_ws(s) as int)) == tokenize(s),
    decreases s.len(),
{
    if s.len() == 0 {
        assert(s.skip(0) =~= s);
    } else if !is_ws(s[0]) {
        assert(s.skip(0) =~= s);
    } else {
        lemma_leading_ws_facts(s);
        lemma_tokenize_skip_leading(s.drop_first());
        assert(s.drop_first() =~= s.skip(1));
        let lw = leading_ws(s) as int;
        assert(leading_ws(s.drop_first()) == lw - 1);
        lemma_leading_ws_facts(s.drop_first());
        assert forall|m: int| 0 <= m < s.skip(lw).len() implies s.skip(lw)[m]
            == s.drop_first().skip(lw - 1)[m] by {
            assert(s.skip(lw)[m] == s[lw + m]);
            assert(s.drop_first().skip(lw - 1)[m] == s.drop_first()[lw - 1 + m]);
            assert(s.drop_first()[lw - 1 + m] == s[lw + m]);
        }
        assert(s.skip(lw) =~= s.drop_first().skip(lw - 1));
    }
}

/// Dropping a trailing whitespace character does not change the tokens.
pub proof fn lemma_tokenize_drop_trailing(s: Seq<char>)
    requires
        s.len() >= 1,
        is_ws(s.last()),
    ensures
        tokenize(s.drop_last()) == tokenize(s),
    decreases s.len(),
{
    if s.len() == 1 {
        assert(s[0] == s.last());
        assert(is_ws(s[0]));
        assert(s.drop_first() =~= Seq::<char>::empty());
        assert(s.drop_last() =~= Seq::<char>::empty());
        assert(tokenize(s) == tokenize(s.drop_first()));
    } else if is_ws(s[0]) {
        assert(s.drop_first().last() == s.last());
        lemma_tokenize_drop_trailing(s.drop_first());
        assert(s.drop_first().drop_last() =~= s.drop_last().drop_first());
        assert(s.drop_last().len() >= 1);
        assert(s.drop_last()[0] == s[0]);
        assert(tokenize(s.drop_last()) == tokenize(s.drop_last().drop_first()));
        assert(tokenize(s) == tokenize(s.drop_first()));
        assert(tokenize(s.drop_last().drop_first()) == tokenize(s.drop_first().drop_last()));
    } else {
        lemma_token_len_facts(s);
        let tl = token_len(s) as int;
        if tl == s.len() {
            assert(!is_ws(s[s.len() - 1]));
            assert(false);
        }
        let d = s.drop_last();
        lemma_token_len_facts(d);
        let tld = token_len(d) as int;
        // The leading token is the same in `s` and in `s.drop_last()`.
        assert(forall|i: int| 0 <= i < d.len() ==> d[i] == s[i]);
        if tld < tl {
            assert(is_ws(d[tld]));
            assert(!is_ws(s[tld]));
            assert(false);
        }
        if tld > tl {
            assert(tl < d.len());
            assert(!is_ws(d[tl]));
            assert(is_ws(s[tl]));
            assert(false);
        }
        assert(tld == tl);
        assert(d.take(tl) =~= s.take(tl));
        let rest = s.skip(tl);
        assert(rest.len() >= 1);
        assert(rest.last() == s.last());
        lemma_tokenize_drop_trailing(rest);
        assert(rest.drop_last() =~= d.skip(tl));
        assert(tokenize(d.skip(tl)) == tokenize(rest));
        assert(d.len() >= 1);
        assert(d[0] == s[0]);
        assert(tokenize(s) == seq![s.take(tl)] + tokenize(rest));
        assert(tokenize(d) == seq![d.take(tl)] + tokenize(d.skip(tl)));
        assert(seq![d.take(tl)] + tokenize(d.skip(tl)) =~= seq![s.take(tl)] + tokenize(rest));
        assert(tokenize(d) == tokenize(s));
    }
}

/// Cutting off a whitespace-only suffix does not change the tokens.
pub proof fn lemma_tokenize_take(s: Seq<char>, m: int)
    requires
        0 <= m <= s.len(),
        forall|i: int| m <= i < s.len() ==> is_ws(s[i]),
    ensures
        tokenize(s.take(m)) == tokenize(s),
    decreases s.len(),
{
    if m == s.len() {
        assert(s.take(m) =~= s);
    } else {
        lemma_tokenize_drop_trailing(s);
        lemma_tokenize_take(s.drop_last(), m);
        assert(s.drop_last().take(m) =~= s.take(m));
    }
}

/// Trimming does not change the tokens.
pub proof fn lemma_tokenize_trim(s: Seq<char>)
    ensures
        tokenize(trim_spec(s)) == tokenize(s),
{
    lemma_leading_ws_facts(s);
    let lead = leading_ws(s) as int;
    if lead == s.len() {
        lemma_tokenize_take(s, 0);
        assert(s.take(0) =~= Seq::<char>::empty());
        assert(trim_spec(s) == Seq::<char>::empty());
    } else {
        let rv = rev_seq(s);
        lemma_leading_ws_facts(rv);
        let trail = leading_ws(rv) as int;
        assert(forall|j: int| 0 <= j < trail ==> is_ws(rv[j]));
        assert forall|i: int| s.len() - trail <= i < s.len() implies is_ws(s[i]) by {
            assert(rv[s.len() - 1 - i] == s[i]);
        }
        assert(!is_ws(s[lead]));
        assert(lead < s.len() - trail);
        let t1 = s.take(s.len() - trail);
        lemma_tokenize_take(s, s.len() - trail);
        // The leading whitespace run of the shortened text is unchanged.
        lemma_leading_ws_facts(t1);
        let l1 = leading_ws(t1) as int;
        assert(forall|i: int| 0 <= i < t1.len() ==> t1[i] == s[i]);
        if l1 < lead {
            assert(!is_ws(t1[l1]));
            assert(is_ws(s[l1]));
            assert(false);
        }
        if l1 > lead {
            assert(is_ws(t1[lead]));
            assert(!is_ws(s[lead]));
            assert(false);
        }
        lemma_tokenize_skip_leading(t1);
        assert(t1.skip(lead) =~= s.subrange(lead, s.len() - trail));
        assert(trim_spec(s) == s.subrange(lead, s.len() - trail));
    }
}

/// A candidate that echoes its input fails the reversal challenge whenever
/// some input token is not a palindrome: the trimmed echo can never equal
/// the trimmed reference output.
pub proof fn lemma_echo_fails_reversal(s: Seq<char>)
    requires
        exists|i: int|
            0 <= i < tokenize(s).len() && rev_seq(#[trigger] tokenize(s)[i]) != tokenize(s)[i],
    ensures
        trim_spec(join_spaces(tokenize(s).map_values(|t: Seq<char>| rev_seq(t)))) != trim_spec(s),
{
    let toks = tokenize(s);
    let rts = toks.map_values(|t: Seq<char>| rev_seq(t));
    let out = join_spaces(rts);
    let i = choose|i: int| 0 <= i < toks.len() && rev_seq(#[trigger] toks[i]) != toks[i];
    if trim_spec(out) == trim_spec(s) {
        lemma_tokenize_trim(out);
        lemma_tokenize_trim(s);
        lemma_reverse_output_tokens(s);
        assert(tokenize(out) == rts);
        assert(rts == toks);
        assert(rts[i] == rev_seq(toks[i]));
        assert(false);
    }
}

/// Relies on `str::chars` (through `Iterator::collect` into a `Vec`):
/// it yields exactly the characters of the string, in order, which is
/// the string's view.
#[verifier::external_body]
pub(crate) fn str_to_chars(s: &str) -> (r: Vec<char>)
    ensures
        r@ == s@,
{
    s.chars().collect()
}

/// Relies on `String` implementing `FromIterator<char>` (through
/// `Iterator::collect`): the resulting string consists of exactly the
/// characters of the vector, in order.
#[verifier::external_body]
pub(crate) fn chars_to_string(v: &Vec<char>) -> (r: String)
    ensures
        r@ == v@,
{
    v.iter().collect()
}

/// Relies on rayon's `par_iter().map(..).collect()` on `Vec`: the closure is
/// applied to every element and the results are collected in the input's
/// order, independent of worker count. The closure only calls the verified
/// `join_tokens`.
#[verifier::external_body]
fn par_join_chunks(chunks: &Vec<Vec<Vec<char>>>) -> (r: Vec<Vec<char>>)
    ensures
        r.deep_view().len() == chunks.deep_view().len(),
        forall|i: int|
            0 <= i < chunks.deep_view().len() ==> r.deep_view()[i] == join_spaces(
                chunks.deep_view()[i],
            ),
{
    chunks.par_iter().map(|c| join_tokens(c)).collect()
}

/// Every token of `ts` reversed, in order.
#[verifier::loop_isolation(false)]
fn reverse_tokens(ts: &Vec<Vec<char>>) -> (r: Vec<Vec<char>>)
    ensures
        r.deep_view() == ts.deep_view().map_values(|t: Seq<char>| rev_seq(t)),
{
    let ghost target = ts.deep_view().map_values(|t: Seq<char>| rev_seq(t));
    let mut out: Vec<Vec<char>> = Vec::new();
    let mut i: usize = 0;
    proof {
        assert(out.deep_view() =~= target.take(0));
    }
    while i < ts.len()
        invariant
            i <= ts.len(),
            target == ts.deep_view().map_values(|t: Seq<char>| rev_seq(t)),
            target.len() == ts@.len(),
            out.deep_view() == target.take(i as int),
        decreases ts.len() - i,
    {
        let rt = reverse_chars(&ts[i]);
        let ghost prev = out.deep_view();
        out.push(rt);
        proof {
            assert(rt.deep_view() =~= rt@);
            assert(out.deep_view() =~= prev.push(rt@));
            assert(ts@[i as int].deep_view() =~= ts@[i as int]@);
            assert(target[i as int] == rev_seq(ts.deep_view()[i as int]));
            assert(target.take((i + 1) as int) =~= target.take(i as int).push(target[i as int]));
        }
        i = i + 1;
    }
    proof {
        assert(target.take(target.len() as int) =~= target);
    }
    out
}

/// `ts` cut into consecutive chunks of `c` tokens each.
#[verifier::loop_isolation(false)]
fn chunk_tokens(ts: &Vec<Vec<char>>, c: usize) -> (r: Vec<Vec<Vec<char>>>)
    requires
        c >= 1,
    ensures
        r.deep_view() == chunk_seq(ts.deep_view(), c as int),
{
    let ghost dv = ts.deep_view();
    let mut out: Vec<Vec<Vec<char>>> = Vec::new();
    let mut i: usize = 0;
    proof {
        assert(dv.skip(0) =~= dv);
        assert(out.deep_view() =~= Seq::<Seq<Seq<char>>>::empty());
        assert(Seq::<Seq<Seq<char>>>::empty() + chunk_seq(dv, c as int) =~= chunk_seq(
            dv,
            c as int,
        ));
    }
    while i < ts.len()
        invariant
            i <= ts.len(),
            dv == ts.deep_view(),
            dv.len() == ts@.len(),
            chunk_seq(dv, c as int) == out.deep_view() + chunk_seq(dv.skip(i as int), c as int),
        decreases ts.len() - i,
    {
        let end = if ts.len() - i > c {
            i + c
        } else {
            ts.len()
        };
        let mut chunk: Vec<Vec<char>> = Vec::new();
        let mut k: usize = i;
        proof {
            assert(chunk.deep_view() =~= dv.subrange(i as int, i as int));
        }
        while k < end
            invariant
                i <= k <= end <= ts.len(),
                dv == ts.deep_view(),
                dv.len() == ts@.len(),
                chunk.deep_view() == dv.subrange(i as int, k as int),
            decreases end - k,
        {
            let t = copy_chars(&ts[k]);
            let ghost prev = chunk.deep_view();
            chunk.push(t);
            proof {
                assert(t.deep_view() =~= t@);
                assert(ts@[k as int].deep_view() =~= ts@[k as int]@);
                assert(chunk.deep_view() =~= prev.push(t@));
                assert(dv.subrange(i as int, (k + 1) as int) =~= dv.subrange(
                    i as int,
                    k as int,
                ).push(dv[k as int]));
            }
            k = k + 1;
        }
        let ghost prevout = out.deep_view();
        let ghost srem = dv.skip(i as int);
        out.push(chunk);
        proof {
            assert(out.deep_view() =~= prevout.push(chunk.deep_view()));
            if dv.len() - i > c {
                assert(srem.take(c as int) =~= dv.subrange(i as int, end as int));
                assert(srem.skip(c as int) =~= dv.skip(end as int));
                assert(chunk_seq(srem, c as int) == seq![srem.take(c as int)] + chunk_seq(
                    dv.skip(end as int),
                    c as int,
                ));
                assert(prevout.push(chunk.deep_view()) + chunk_seq(dv.skip(end as int), c as int)
                    =~= prevout + (seq![chunk.deep_view()] + chunk_seq(
                    dv.skip(end as int),
                    c as int,
                )));
            } else {
                assert(srem =~= dv.subrange(i as int, end as int));
                assert(srem.len() >= 1 && srem.len() <= c);
                assert(chunk_seq(srem, c as int) == seq![srem]);
                assert(dv.skip(end as int).len() == 0);
                assert(chunk_seq(dv.skip(end as int), c as int) =~= Seq::<Seq<Seq<char>>>::empty());
                assert(prevout.push(chunk.deep_view()) + Seq::<Seq<Seq<char>>>::empty() =~= prevout
                    + seq![srem]);
            }
        }
        i = end;
    }
    proof {
        assert(dv.skip(dv.len() as int).len() == 0);
        assert(chunk_seq(dv.skip(dv.len() as int), c as int) =~= Seq::<Seq<Seq<char>>>::empty());
        assert(out.deep_view() + Seq::<Seq<Seq<char>>>::empty() =~= out.deep_view());
    }
    out
}

/// Reference output for the word-reversal challenge, computed sequentially:
/// every whitespace-separated token is reversed character-wise, and the
/// reversed tokens are joined with single spaces.
pub fn reference_reverse_old(input: &str) -> (r: String)
    ensures
        r@ == join_spaces(tokenize(input@).map_values(|t: Seq<char>| rev_seq(t))),
{
    let chars = str_to_chars(input);
    let toks = tokenize_vec(&chars);
    let rts = reverse_tokens(&toks);
    let out = join_tokens(&rts);
    chars_to_string(&out)
}

/// Reference output for the word-reversal challenge. The tokens are cut into
/// chunks of ten thousand which are reversed and joined in parallel; the
/// chunked result is proved identical to the sequential one, so the output
/// does not depend on worker count or chunk boundaries.
pub fn reference_reverse(input: &str) -> (r: String)
    ensures
        r@ == join_spaces(tokenize(input@).map_values(|t: Seq<char>| rev_seq(t))),
{
    let ghost rdv = tokenize(input@).map_values(|t: Seq<char>| rev_seq(t));
    let chars = str_to_chars(input);
    let toks = tokenize_vec(&chars);
    let rts = reverse_tokens(&toks);
    let chunks = chunk_tokens(&rts, 10000);
    let joined = par_join_chunks(&chunks);
    proof {
        assert(joined.deep_view() =~= chunk_joins(rdv, 10000));
        lemma_chunks_flat(rdv, 10000);
    }
    let out = join_tokens(&joined);
    chars_to_string(&out)
}

} // verus!
