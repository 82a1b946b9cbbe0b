//! The argument normalizer: parses a raw mirroring-tool argument string
//! into a filtered token list. Tokens are processed left to right with one
//! token of lookahead:
//! - a token beginning with `--crop` is kept verbatim;
//! - `-m` is dropped together with one following token, if present;
//! - `-b` and `--video-bit-rate` are dropped the same way;
//! - any other token is kept, and if the next token exists and does not
//!   begin with `-`, that next token is kept and consumed as its value.

use vstd::prelude::*;

use crate::tokens::{
    bytes_eq, lemma_tokens_of_join, lemma_tokens_wf, seqs_of, spec_join, spec_tokens,
    starts_with, starts_with_bytes, tokenize, wf_token, wf_tokens,
};

verus! {

/// The bytes of `-m`.
pub open spec fn tok_m() -> Seq<u8> {
    seq![45u8, 109u8]
}

/// The bytes of `-b`.
pub open spec fn tok_b() -> Seq<u8> {
    seq![45u8, 98u8]
}

/// The bytes of `--crop`.
pub open spec fn tok_crop() -> Seq<u8> {
    seq![45u8, 45u8, 99u8, 114u8, 111u8, 112u8]
}

/// The bytes of `--video-bit-rate`.
pub open spec fn tok_bitrate() -> Seq<u8> {
    seq![
        45u8, 45u8, 118u8, 105u8, 100u8, 101u8, 111u8, 45u8, 98u8, 105u8, 116u8, 45u8, 114u8,
        97u8, 116u8, 101u8,
    ]
}

/// The legacy flags that are suppressed together with their value.
pub open spec fn suppressed(t: Seq<u8>) -> bool {
    t == tok_m() || t == tok_b() || t == tok_bitrate()
}

/// Does the token begin with `-`?
pub open spec fn dashed(t: Seq<u8>) -> bool {
    t.len() >= 1 && t[0] == 45u8
}

/// The normalized form of a token list.
pub open spec fn norm_tokens(ts: Seq<Seq<u8>>) -> Seq<Seq<u8>>
    decreases ts.len(),
{
    if ts.len() == 0 {
        Seq::empty()
    } else if starts_with(ts[0], tok_crop()) {
        seq![ts[0]] + norm_tokens(ts.skip(1))
    } else if suppressed(ts[0]) {
        if ts.len() >= 2 {
            norm_tokens(ts.skip(2))
        } else {
            norm_tokens(ts.skip(1))
        }
    } else if ts.len() >= 2 && !dashed(ts[1]) {
        seq![ts[0], ts[1]] + norm_tokens(ts.skip(2))
    } else {
        seq![ts[0]] + norm_tokens(ts.skip(1))
    }
}

/// No suppressed flag survives normalization.
pub proof fn lemma_norm_output_clean(ts: Seq<Seq<u8>>)
    ensures
        forall|i: int| 0 <= i < norm_tokens(ts).len() ==> !suppressed(#[trigger] norm_tokens(ts)[i]),
    decreases ts.len(),
{
    if ts.len() == 0 {
    } else if starts_with(ts[0], tok_crop()) {
        lemma_norm_output_clean(ts.skip(1));
        assert(!suppressed(ts[0])) by {
            assert(tok_bitrate()[2] == 118u8);
            assert(tok_crop()[2] == 99u8);
            if ts[0] == tok_bitrate() {
                assert(ts[0].take(tok_crop().len() as int)[2] == 118u8);
            }
        }
        assert forall|i: int| 0 <= i < norm_tokens(ts).len()
            implies !suppressed(#[trigger] norm_tokens(ts)[i]) by {
            if i > 0 {
                assert(norm_tokens(ts)[i] == norm_tokens(ts.skip(1))[i - 1]);
            }
        }
    } else if suppressed(ts[0]) {
        if ts.len() >= 2 {
            lemma_norm_output_clean(ts.skip(2));
            assert forall|i: int| 0 <= i < norm_tokens(ts).len()
                implies !suppressed(#[trigger] norm_tokens(ts)[i]) by {
                assert(norm_tokens(ts)[i] == norm_tokens(ts.skip(2))[i]);
            }
        } else {
            lemma_norm_output_clean(ts.skip(1));
            assert forall|i: int| 0 <= i < norm_tokens(ts).len()
                implies !suppressed(#[trigger] norm_tokens(ts)[i]) by {
                assert(norm_tokens(ts)[i] == norm_tokens(ts.skip(1))[i]);
            }
        }
    } else if ts.len() >= 2 && !dashed(ts[1]) {
        lemma_norm_output_clean(ts.skip(2));
        assert(!suppressed(ts[1])) by {
            assert(tok_m()[0] == 45u8 && tok_b()[0] == 45u8 && tok_bitrate()[0] == 45u8);
        }
        assert forall|i: int| 0 <= i < norm_tokens(ts).len()
            implies !suppressed(#[trigger] norm_tokens(ts)[i]) by {
            if i > 1 {
                assert(norm_tokens(ts)[i] == norm_tokens(ts.skip(2))[i - 2]);
            }
        }
    } else {
        lemma_norm_output_clean(ts.skip(1));
        assert forall|i: int| 0 <= i < norm_tokens(ts).len()
            implies !suppressed(#[trigger] norm_tokens(ts)[i]) by {
            if i > 0 {
                assert(norm_tokens(ts)[i] == norm_tokens(ts.skip(1))[i - 1]);
            }
        }
    }
}

/// A token list with no suppressed flag in it normalizes to itself.
pub proof fn lemma_norm_fixed(ts: Seq<Seq<u8>>)
    requires
        forall|i: int| 0 <= i < ts.len() ==> !suppressed(#[trigger] ts[i]),
    ensures
        norm_tokens(ts) == ts,
    decreases ts.len(),
{
    if ts.len() == 0 {
        assert(norm_tokens(ts) =~= ts);
    } else if starts_with(ts[0], tok_crop()) {
        assert forall|i: int| 0 <= i < ts.skip(1).len()
            implies !suppressed(#[trigger] ts.skip(1)[i]) by {
            assert(ts.skip(1)[i] == ts[i + 1]);
        }
        lemma_norm_fixed(ts.skip(1));
        assert(seq![ts[0]] + ts.skip(1) =~= ts);
    } else if ts.len() >= 2 && !dashed(ts[1]) {
        assert forall|i: int| 0 <= i < ts.skip(2).len()
            implies !suppressed(#[trigger] ts.skip(2)[i]) by {
            assert(ts.skip(2)[i] == ts[i + 2]);
        }
        lemma_norm_fixed(ts.skip(2));
        assert(seq![ts[0], ts[1]] + ts.skip(2) =~= ts);
    } else {
        assert forall|i: int| 0 <= i < ts.skip(1).len()
            implies !suppressed(#[trigger] ts.skip(1)[i]) by {
            assert(ts.skip(1)[i] == ts[i + 1]);
        }
        lemma_norm_fixed(ts.skip(1));
        assert(seq![ts[0]] + ts.skip(1) =~= ts);
    }
}

/// Normalization keeps only tokens of the input, so well-formedness is
/// preserved.
pub proof fn lemma_norm_preserves_wf(ts: Seq<Seq<u8>>)
    requires
        wf_tokens(ts),
    ensures
        wf_tokens(norm_tokens(ts)),
    decreases ts.len(),
{
    if ts.len() == 0 {
    } else {
        assert forall|i: int| 0 <= i < ts.skip(1).len()
            implies wf_token(#[trigger] ts.skip(1)[i]) by {
            assert(ts.skip(1)[i] == ts[i + 1]);
        }
        if ts.len() >= 2 {
            assert forall|i: int| 0 <= i < ts.skip(2).len()
                implies wf_token(#[trigger] ts.skip(2)[i]) by {
                assert(ts.skip(2)[i] == ts[i + 2]);
            }
        }
        if starts_with(ts[0], tok_crop()) {
            lemma_norm_preserves_wf(ts.skip(1));
            assert forall|i: int| 0 <= i < norm_tokens(ts).len()
                implies wf_token(#[trigger] norm_tokens(ts)[i]) by {
                if i > 0 {
                    assert(norm_tokens(ts)[i] == norm_tokens(ts.skip(1))[i - 1]);
                }
            }
        } else if suppressed(ts[0]) {
            if ts.len() >= 2 {
                lemma_norm_preserves_wf(ts.skip(2));
            } else {
                lemma_norm_preserves_wf(ts.skip(1));
            }
        } else if ts.len() >= 2 && !dashed(ts[1]) {
            lemma_norm_preserves_wf(ts.skip(2));
            assert forall|i: int| 0 <= i < norm_tokens(ts).len()
                implies wf_token(#[trigger] norm_tokens(ts)[i]) by {
                if i > 1 {
                    assert(norm_tokens(ts)[i] == norm_tokens(ts.skip(2))[i - 2]);
                }
            }
        } else {
            lemma_norm_preserves_wf(ts.skip(1));
            assert forall|i: int| 0 <= i < norm_tokens(ts).len()
                implies wf_token(#[trigger] norm_tokens(ts)[i]) by {
                if i > 0 {
                    assert(norm_tokens(ts)[i] == norm_tokens(ts.skip(1))[i - 1]);
                }
            }
        }
    }
}

/// Normalization is idempotent on its output: joining the normalized
/// tokens of a raw string with spaces and normalizing again yields the
/// same token sequence.
pub proof fn lemma_normalize_idempotent(raw: Seq<u8>)
    ensures
        norm_tokens(spec_tokens(spec_join(norm_tokens(spec_tokens(raw)))))
            == norm_tokens(spec_tokens(raw)),
{
    let ts = spec_tokens(raw);
    let ns = norm_tokens(ts);
    lemma_tokens_wf(raw);
    lemma_norm_preserves_wf(ts);
    lemma_tokens_of_join(ns);
    lemma_norm_output_clean(ts);
    lemma_norm_fixed(ns);
}

fn flag_m() -> (r: Vec<u8>)
    ensures
        r@ == tok_m(),
{
    let mut v: Vec<u8> = Vec::new();
    v.push(45u8);
    v.push(109u8);
    proof {
        assert(v@ =~= tok_m());
    }
    v
}

fn flag_b() -> (r: Vec<u8>)
    ensures
        r@ == tok_b(),
{
    let mut v: Vec<u8> = Vec::new();
    v.push(45u8);
    v.push(98u8);
    proof {
        assert(v@ =~= tok_b());
    }
    v
}

fn flag_crop() -> (r: Vec<u8>)
    ensures
        r@ == tok_crop(),
{
    let mut v: Vec<u8> = Vec::new();
    v.push(45u8);
    v.push(45u8);
    v.push(99u8);
    v.push(114u8);
    v.push(111u8);
    v.push(112u8);
    proof {
        assert(v@ =~= tok_crop());
    }
    v
}

fn flag_bitrate() -> (r: Vec<u8>)
    ensures
        r@ == tok_bitrate(),
{
    let mut v: Vec<u8> = Vec::new();
    v.push(45u8);
    v.push(45u8);
    v.push(118u8);
    v.push(105u8);
    v.push(100u8);
    v.push(101u8);
    v.push(111u8);
    v.push(45u8);
    v.push(98u8);
    v.push(105u8);
    v.push(116u8);
    v.push(45u8);
    v.push(114u8);
    v.push(97u8);
    v.push(116u8);
    v.push(101u8);
    proof {
        assert(v@ =~= tok_bitrate());
    }
    v
}

/// Normalize an already tokenized argument list.
pub fn normalize_tokens(ts: &Vec<Vec<u8>>) -> (r: Vec<Vec<u8>>)
    ensures
        seqs_of(r@) == norm_tokens(seqs_of(ts@)),
{
    let m = flag_m();
    let b = flag_b();
    let crop = flag_crop();
    let bitrate = flag_bitrate();
    let ghost full = seqs_of(ts@);
    let mut r: Vec<Vec<u8>> = Vec::new();
    let mut i: usize = 0;
    proof {
        assert(full.skip(0) =~= full);
        assert(seqs_of(r@) + norm_tokens(full) =~= norm_tokens(full));
    }
    while i < ts.len()
        invariant
            i <= ts.len(),
            full == seqs_of(ts@),
            m@ == tok_m(),
            b@ == tok_b(),
            crop@ == tok_crop(),
            bitrate@ == tok_bitrate(),
            norm_tokens(full) == seqs_of(r@) + norm_tokens(full.skip(i as int)),
        decreases ts.len() - i,
    {
        let ghost rest = full.skip(i as int);
        let ghost old_r = r@;
        proof {
            assert(rest[0] == ts@[i as int]@);
            if i + 1 < ts.len() {
                assert(rest[1] == ts@[i as int + 1]@);
            }
            assert(rest.skip(1) =~= full.skip(i as int + 1));
            if i + 2 <= ts.len() {
                assert(rest.skip(2) =~= full.skip(i as int + 2));
            }
        }
        let cur = &ts[i];
        if starts_with_bytes(cur.as_slice(), crop.as_slice()) {
            let kept = crate::tokens::copy_bytes(cur.as_slice());
            r.push(kept);
            proof {
                assert(seqs_of(r@) =~= seqs_of(old_r) + seq![rest[0]]);
                assert(norm_tokens(rest) == seq![rest[0]] + norm_tokens(rest.skip(1)));
                assert(norm_tokens(rest.skip(1)) == norm_tokens(full.skip(i as int + 1)));
                assert(seqs_of(r@) + norm_tokens(full.skip(i as int + 1))
                    =~= seqs_of(old_r) + norm_tokens(rest));
            }
            i = i + 1;
        } else if bytes_eq(cur.as_slice(), m.as_slice())
            || bytes_eq(cur.as_slice(), b.as_slice())
            || bytes_eq(cur.as_slice(), bitrate.as_slice()) {
            if i + 1 < ts.len() {
                i = i + 2;
            } else {
                i = i + 1;
            }
        } else {
            let kept = crate::tokens::copy_bytes(cur.as_slice());
            r.push(kept);
            let mut took_value = false;
            if i + 1 < ts.len() {
                let next = &ts[i + 1];
                if !(next.len() >= 1 && next[0] == 45u8) {
                    let val = crate::tokens::copy_bytes(next.as_slice());
                    r.push(val);
                    took_value = true;
                }
            }
            proof {
                if took_value {
                    assert(!dashed(rest[1]));
                    assert(seqs_of(r@) =~= seqs_of(old_r) + seq![rest[0], rest[1]]);
                    assert(norm_tokens(rest) == seq![rest[0], rest[1]] + norm_tokens(rest.skip(2)));
                    assert(norm_tokens(rest.skip(2)) == norm_tokens(full.skip(i as int + 2)));
                    assert(seqs_of(r@) + norm_tokens(full.skip(i as int + 2))
                        =~= seqs_of(old_r) + norm_tokens(rest));
                } else {
                    if i + 1 < ts.len() {
                        assert(dashed(rest[1]));
                    }
                    assert(seqs_of(r@) =~= seqs_of(old_r) + seq![rest[0]]);
                    assert(norm_tokens(rest) == seq![rest[0]] + norm_tokens(rest.skip(1)));
                    assert(norm_tokens(rest.skip(1)) == norm_tokens(full.skip(i as int + 1)));
                    assert(seqs_of(r@) + norm_tokens(full.skip(i as int + 1))
                        =~= seqs_of(old_r) + norm_tokens(rest));
                }
            }
            if took_value {
                i = i + 2;
            } else {
                i = i + 1;
            }
        }
    }
    proof {
        assert(full.skip(full.len() as int) =~= Seq::<Seq<u8>>::empty());
        assert(seqs_of(r@) + Seq::<Seq<u8>>::empty() =~= seqs_of(r@));
    }
    r
}

/// Normalize a raw argument string: tokenize it and filter the tokens.
/// Returns nothing when no token survives, so callers can tell "no extra
/// arguments" from "arguments not yet computed".
pub fn normalize(raw: &[u8]) -> (r: Option<Vec<Vec<u8>>>)
    ensures
        ({
            let ns = norm_tokens(spec_tokens(raw@));
            match r {
                Option::None => ns.len() == 0,
                Option::Some(v) => ns.len() > 0 && seqs_of(v@) == ns,
            }
        }),
{
    let ts = tokenize(raw);
    let ns = normalize_tokens(&ts);
    if ns.len() == 0 {
        None
    } else {
        Some(ns)
    }
}

} // verus!
