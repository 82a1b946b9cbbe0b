//! Byte-string tokenization: splitting on runs of ASCII whitespace, and
//! joining token lists back with single spaces.

use vstd::prelude::*;

verus! {

/// The sequence of byte-sequence views of a sequence of byte vectors.
pub open spec fn seqs_of(vs: Seq<Vec<u8>>) -> Seq<Seq<u8>> {
    Seq::new(vs.len(), |i: int| vs[i]@)
}

/// ASCII whitespace: space, tab, line feed, vertical tab, form feed,
/// carriage return.
pub open spec fn is_space(b: u8) -> bool {
    b == 32 || b == 9 || b == 10 || b == 11 || b == 12 || b == 13
}

/// Length of the maximal leading run of non-whitespace bytes.
pub open spec fn token_len(s: Seq<u8>) -> int
    decreases s.len(),
{
    if s.len() == 0 || is_space(s[0]) {
        0
    } else {
        1 + token_len(s.skip(1))
    }
}

pub proof fn lemma_token_len_bounds(s: Seq<u8>)
    ensures
        0 <= token_len(s) <= s.len(),
        forall|i: int| 0 <= i < token_len(s) ==> !is_space(s[i]),
        token_len(s) < s.len() ==> is_space(s[token_len(s)]),
    decreases s.len(),
{
    if s.len() == 0 || is_space(s[0]) {
    } else {
        lemma_token_len_bounds(s.skip(1));
        assert forall|i: int| 0 <= i < token_len(s) implies !is_space(s[i]) by {
            if i > 0 {
                assert(s.skip(1)[i - 1] == s[i]);
            }
        }
        if token_len(s) < s.len() {
            assert(s.skip(1)[token_len(s) - 1] == s[token_len(s)]);
        }
    }
}

/// The whitespace-separated tokens of `s`, in order.
pub open spec fn spec_tokens(s: Seq<u8>) -> Seq<Seq<u8>>
    decreases s.len(),
    via spec_tokens_dec
{
    if s.len() == 0 {
        Seq::empty()
    } else if is_space(s[0]) {
        spec_tokens(s.skip(1))
    } else {
        seq![s.take(token_len(s))] + spec_tokens(s.skip(token_len(s)))
    }
}

#[via_fn]
proof fn spec_tokens_dec(s: Seq<u8>) {
    lemma_token_len_bounds(s);
}

/// A well-formed token: nonempty and free of whitespace. Tokenization
/// produces only such tokens.
pub open spec fn wf_token(t: Seq<u8>) -> bool {
    t.len() > 0 && forall|i: int| 0 <= i < t.len() ==> !is_space(t[i])
}

pub open spec fn wf_tokens(ts: Seq<Seq<u8>>) -> bool {
    forall|i: int| 0 <= i < ts.len() ==> wf_token(#[trigger] ts[i])
}

/// The tokens joined back into one byte string, a single space between
/// neighbours.
pub open spec fn spec_join(ts: Seq<Seq<u8>>) -> Seq<u8>
    decreases ts.len(),
{
    if ts.len() == 0 {
        Seq::empty()
    } else if ts.len() == 1 {
        ts[0]
    } else {
        ts[0] + seq![32u8] + spec_join(ts.skip(1))
    }
}

/// If the first `n` bytes are not whitespace and byte `n` (if any) is,
/// then the leading token is exactly `n` bytes long.
pub proof fn lemma_token_len_is(s: Seq<u8>, n: int)
    requires
        0 <= n <= s.len(),
        forall|i: int| 0 <= i < n ==> !is_space(s[i]),
        n < s.len() ==> is_space(s[n]),
    ensures
        token_len(s) == n,
    decreases n,
{
    if n == 0 {
    } else {
        assert forall|i: int| 0 <= i < n - 1 implies !is_space(s.skip(1)[i]) by {
            assert(s.skip(1)[i] == s[i + 1]);
        }
        if n - 1 < s.skip(1).len() {
            assert(s.skip(1)[n - 1] == s[n]);
        }
        lemma_token_len_is(s.skip(1), n - 1);
    }
}

/// Every token that tokenization produces is nonempty and whitespace-free.
pub proof fn lemma_tokens_wf(s: Seq<u8>)
    ensures
        wf_tokens(spec_tokens(s)),
    decreases s.len(),
{
    if s.len() == 0 {
    } else if is_space(s[0]) {
        lemma_tokens_wf(s.skip(1));
    } else {
        lemma_token_len_bounds(s);
        lemma_tokens_wf(s.skip(token_len(s)));
        let n = token_len(s);
        assert(wf_token(s.take(n))) by {
            assert(forall|i: int| 0 <= i < n ==> s.take(n)[i] == s[i]);
        }
        assert forall|i: int| 0 <= i < spec_tokens(s).len()
            implies wf_token(#[trigger] spec_tokens(s)[i]) by {
            if i > 0 {
                assert(spec_tokens(s)[i] == spec_tokens(s.skip(n))[i - 1]);
            }
        }
    }
}

/// Joining well-formed tokens and tokenizing the result gives the tokens
/// back unchanged.
pub proof fn lemma_tokens_of_join(ts: Seq<Seq<u8>>)
    requires
        wf_tokens(ts),
    ensures
        spec_tokens(spec_join(ts)) == ts,
    decreases ts.len(),
{
    if ts.len() == 0 {
        assert(spec_tokens(spec_join(ts)) =~= ts);
    } else if ts.len() == 1 {
        let s = ts[0];
        assert(wf_token(s));
        assert(!is_space(s[0]));
        lemma_token_len_is(s, s.len() as int);
        assert(s.take(s.len() as int) =~= s);
        assert(s.skip(s.len() as int) =~= Seq::<u8>::empty());
        assert(spec_tokens(Seq::<u8>::empty()) == Seq::<Seq<u8>>::empty());
        assert(spec_tokens(s) == seq![s] + Seq::<Seq<u8>>::empty());
        assert(seq![s] + Seq::<Seq<u8>>::empty() =~= ts);
    } else {
        let s = spec_join(ts);
        let t0 = ts[0];
        let n = t0.len() as int;
        assert(wf_token(t0));
        let rest = spec_join(ts.skip(1));
        assert(s == t0 + seq![32u8] + rest);
        assert forall|i: int| 0 <= i < n implies !is_space(s[i]) by {
            assert(s[i] == t0[i]);
        }
        assert(s[n] == 32u8);
        lemma_token_len_is(s, n);
        assert(s.take(n) =~= t0);
        assert(s.skip(n)[0] == 32u8);
        assert(s.skip(n).skip(1) =~= rest);
        assert forall|i: int| 0 <= i < ts.skip(1).len()
            implies wf_token(#[trigger] ts.skip(1)[i]) by {
            assert(ts.skip(1)[i] == ts[i + 1]);
        }
        lemma_tokens_of_join(ts.skip(1));
        assert(spec_tokens(s) == seq![t0] + spec_tokens(s.skip(n)));
        assert(spec_tokens(s.skip(n)) == spec_tokens(rest));
        assert(seq![t0] + ts.skip(1) =~= ts);
    }
}

/// Byte-string equality.
pub fn bytes_eq(a: &[u8], b: &[u8]) -> (r: bool)
    ensures
        r == (a@ == b@),
{
    if a.len() != b.len() {
        return false;
    }
    let mut i: usize = 0;
    while i < a.len()
        invariant
            i <= a.len(),
            a.len() == b.len(),
            forall|k: int| 0 <= k < i ==> a@[k] == b@[k],
        decreases a.len() - i,
    {
        if a[i] != b[i] {
            return false;
        }
        i = i + 1;
    }
    proof {
        assert(a@ =~= b@);
    }
    true
}

/// Does `t` begin with prefix `p`?
pub open spec fn starts_with(t: Seq<u8>, p: Seq<u8>) -> bool {
    t.len() >= p.len() && t.take(p.len() as int) == p
}

pub fn starts_with_bytes(t: &[u8], p: &[u8]) -> (r: bool)
    ensures
        r == starts_with(t@, p@),
{
    if t.len() < p.len() {
        return false;
    }
    let mut i: usize = 0;
    while i < p.len()
        invariant
            i <= p.len(),
            p.len() <= t.len(),
            forall|k: int| 0 <= k < i ==> t@[k] == p@[k],
        decreases p.len() - i,
    {
        if t[i] != p[i] {
            proof {
                assert(t@.take(p@.len() as int)[i as int] == t@[i as int]);
            }
            return false;
        }
        i = i + 1;
    }
    proof {
        assert(t@.take(p@.len() as int) =~= p@);
    }
    true
}

/// Copy a byte slice into an owned vector.
pub fn copy_bytes(s: &[u8]) -> (r: Vec<u8>)
    ensures
        r@ == s@,
{
    let mut r: Vec<u8> = Vec::new();
    let mut i: usize = 0;
    while i < s.len()
        invariant
            i <= s.len(),
            r@ =~= s@.take(i as int),
        decreases s.len() - i,
    {
        r.push(s[i]);
        i = i + 1;
    }
    proof {
        assert(s@.take(s@.len() as int) =~= s@);
    }
    r
}

/// Appending a token to a join appends a space and the token.
proof fn lemma_join_push(ts: Seq<Seq<u8>>, t: Seq<u8>)
    ensures
        spec_join(ts.push(t)) == if ts.len() == 0 {
            t
        } else {
            spec_join(ts) + seq![32u8] + t
        },
    decreases ts.len(),
{
    if ts.len() == 0 {
        assert(ts.push(t)[0] == t);
        assert(spec_join(ts.push(t)) == t);
    } else if ts.len() == 1 {
        assert(ts.push(t)[0] == ts[0]);
        assert(ts.push(t).skip(1) =~= seq![t]);
        assert(spec_join(seq![t]) == t);
    } else {
        assert(ts.push(t).skip(1) =~= ts.skip(1).push(t));
        lemma_join_push(ts.skip(1), t);
        assert(ts.push(t)[0] == ts[0]);
        assert(spec_join(ts.push(t))
            == ts[0] + seq![32u8] + (spec_join(ts.skip(1)) + seq![32u8] + t));
        assert(ts[0] + seq![32u8] + (spec_join(ts.skip(1)) + seq![32u8] + t)
            =~= (ts[0] + seq![32u8] + spec_join(ts.skip(1))) + seq![32u8] + t);
    }
}

/// Join tokens into one byte string, a single space between neighbours.
pub fn join_tokens(ts: &Vec<Vec<u8>>) -> (r: Vec<u8>)
    ensures
        r@ == spec_join(seqs_of(ts@)),
{
    let mut r: Vec<u8> = Vec::new();
    let mut i: usize = 0;
    proof {
        assert(seqs_of(ts@).take(0) =~= Seq::<Seq<u8>>::empty());
    }
    while i < ts.len()
        invariant
            i <= ts.len(),
            r@ == spec_join(seqs_of(ts@).take(i as int)),
        decreases ts.len() - i,
    {
        let ghost prefix = seqs_of(ts@).take(i as int);
        if i > 0 {
            r.push(32u8);
        }
        let ghost base = r@;
        let t = &ts[i];
        let mut j: usize = 0;
        while j < t.len()
            invariant
                j <= t.len(),
                r@ =~= base + t@.take(j as int),
            decreases t.len() - j,
        {
            r.push(t[j]);
            j = j + 1;
        }
        proof {
            lemma_join_push(prefix, ts@[i as int]@);
            assert(seqs_of(ts@).take(i as int + 1) =~= prefix.push(ts@[i as int]@));
            assert(t@.take(t@.len() as int) =~= t@);
            if i == 0 {
                assert(base =~= Seq::<u8>::empty());
                assert(r@ =~= ts@[i as int]@);
            } else {
                assert(base =~= spec_join(prefix) + seq![32u8]);
                assert(r@ =~= spec_join(prefix) + seq![32u8] + ts@[i as int]@);
            }
        }
        i = i + 1;
    }
    proof {
        assert(seqs_of(ts@).take(ts@.len() as int) =~= seqs_of(ts@));
    }
    r
}

pub(crate) fn exec_is_space(b: u8) -> (r: bool)
    ensures
        r == is_space(b),
{
    b == 32 || b == 9 || b == 10 || b == 11 || b == 12 || b == 13
}

/// Split `s` into its whitespace-separated tokens.
pub fn tokenize(s: &[u8]) -> (r: Vec<Vec<u8>>)
    ensures
        seqs_of(r@) == spec_tokens(s@),
{
    let mut r: Vec<Vec<u8>> = Vec::new();
    let mut i: usize = 0;
    proof {
        assert(s@.skip(0) =~= s@);
        assert(seqs_of(r@) + spec_tokens(s@) =~= spec_tokens(s@));
    }
    while i < s.len()
        invariant
            i <= s.len(),
            spec_tokens(s@) == seqs_of(r@) + spec_tokens(s@.skip(i as int)),
        decreases s.len() - i,
    {
        if exec_is_space(s[i]) {
            proof {
                assert(s@.skip(i as int).skip(1) =~= s@.skip(i as int + 1));
            }
            i = i + 1;
        } else {
            let ghost rest = s@.skip(i as int);
            let mut tok: Vec<u8> = Vec::new();
            let mut j: usize = i;
            while j < s.len() && !exec_is_space(s[j])
                invariant
                    i <= j <= s.len(),
                    tok@ =~= s@.subrange(i as int, j as int),
                    forall|k: int| i <= k < j ==> !is_space(s@[k]),
                decreases s.len() - j,
            {
                tok.push(s[j]);
                j = j + 1;
            }
            proof {
                lemma_token_len_bounds(rest);
                assert forall|k: int| 0 <= k < j - i implies !is_space(rest[k]) by {
                    assert(rest[k] == s@[i + k]);
                }
                if j < s.len() {
                    assert(rest[j - i] == s@[j as int]);
                }
                assert(token_len(rest) == j - i) by {
                    if token_len(rest) < j - i {
                        assert(!is_space(rest[token_len(rest)]));
                    }
                    if token_len(rest) > j - i {
                        assert(j - i < rest.len());
                        assert(is_space(rest[j - i]));
                    }
                }
                assert(rest.take(token_len(rest)) =~= tok@);
                assert(rest.skip(token_len(rest)) =~= s@.skip(j as int));
            }
            let ghost old_r = r@;
            r.push(tok);
            proof {
                assert(seqs_of(r@) =~= seqs_of(old_r) + seq![tok@]);
                assert(seqs_of(r@) + spec_tokens(s@.skip(j as int))
                    =~= seqs_of(old_r) + spec_tokens(s@.skip(i as int)));
            }
            i = j;
        }
    }
    proof {
        assert(s@.skip(s@.len() as int) =~= Seq::<u8>::empty());
        assert(seqs_of(r@) + Seq::<Seq<u8>>::empty() =~= seqs_of(r@));
    }
    r
}

} // verus!
