//! Parsers for the bridge tool's output: the device list (one header
//! line, then `<identity> <status>` rows, of which only rows whose status
//! is exactly `device` are kept), the mirroring binary's version line,
//! and whitespace trimming for property query output.

use vstd::prelude::*;

use crate::tokens::{
    bytes_eq, copy_bytes, exec_is_space, is_space, seqs_of, spec_tokens, tokenize,
};

verus! {

/// Length of the maximal leading run of bytes before a line feed.
pub open spec fn nl_len(s: Seq<u8>) -> int
    decreases s.len(),
{
    if s.len() == 0 || s[0] == 10u8 {
        0
    } else {
        1 + nl_len(s.skip(1))
    }
}

pub proof fn lemma_nl_len_bounds(s: Seq<u8>)
    ensures
        0 <= nl_len(s) <= s.len(),
        forall|i: int| 0 <= i < nl_len(s) ==> s[i] != 10u8,
        nl_len(s) < s.len() ==> s[nl_len(s)] == 10u8,
    decreases s.len(),
{
    if s.len() == 0 || s[0] == 10u8 {
    } else {
        lemma_nl_len_bounds(s.skip(1));
        assert forall|i: int| 0 <= i < nl_len(s) implies s[i] != 10u8 by {
            if i > 0 {
                assert(s.skip(1)[i - 1] == s[i]);
            }
        }
        if nl_len(s) < s.len() {
            assert(s.skip(1)[nl_len(s) - 1] == s[nl_len(s)]);
        }
    }
}

/// A line with a trailing carriage return removed, as happens before
/// each line feed.
pub open spec fn strip_cr(l: Seq<u8>) -> Seq<u8> {
    if l.len() > 0 && l[l.len() - 1] == 13u8 {
        l.drop_last()
    } else {
        l
    }
}

/// The lines of `s`: split at line feeds, a carriage return before each
/// line feed removed, no empty final line after a terminating line feed.
pub open spec fn spec_lines(s: Seq<u8>) -> Seq<Seq<u8>>
    decreases s.len(),
    via spec_lines_dec
{
    if s.len() == 0 {
        Seq::empty()
    } else if nl_len(s) == s.len() {
        seq![s]
    } else {
        seq![strip_cr(s.take(nl_len(s)))] + spec_lines(s.skip(nl_len(s) + 1))
    }
}

#[via_fn]
proof fn spec_lines_dec(s: Seq<u8>) {
    lemma_nl_len_bounds(s);
}

/// Split a byte string into its lines.
pub fn split_lines(s: &[u8]) -> (r: Vec<Vec<u8>>)
    ensures
        seqs_of(r@) == spec_lines(s@),
{
    let mut r: Vec<Vec<u8>> = Vec::new();
    let mut i: usize = 0;
    proof {
        assert(s@.skip(0) =~= s@);
        assert(seqs_of(r@) + spec_lines(s@) =~= spec_lines(s@));
    }
    while i < s.len()
        invariant
            i <= s.len(),
            spec_lines(s@) == seqs_of(r@) + spec_lines(s@.skip(i as int)),
        decreases s.len() - i,
    {
        let ghost rest = s@.skip(i as int);
        let mut line: Vec<u8> = Vec::new();
        let mut j: usize = i;
        while j < s.len() && s[j] != 10u8
            invariant
                i <= j <= s.len(),
                line@ =~= s@.subrange(i as int, j as int),
                forall|k: int| i <= k < j ==> s@[k] != 10u8,
            decreases s.len() - j,
        {
            line.push(s[j]);
            j = j + 1;
        }
        proof {
            lemma_nl_len_bounds(rest);
            assert forall|k: int| 0 <= k < j - i implies rest[k] != 10u8 by {
                assert(rest[k] == s@[i + k]);
            }
            if j < s.len() {
                assert(rest[j - i] == s@[j as int]);
            }
            assert(nl_len(rest) == j - i) by {
                if nl_len(rest) < j - i {
                    assert(rest[nl_len(rest)] != 10u8);
                }
                if nl_len(rest) > j - i {
                    assert(j - i < rest.len());
                }
            }
        }
        let ghost old_r = r@;
        if j < s.len() {
            // a line feed terminates this line; drop a carriage return
            // standing just before it
            if line.len() > 0 && line[line.len() - 1] == 13u8 {
                line.pop();
            }
            proof {
                assert(rest.take(nl_len(rest)) =~= s@.subrange(i as int, j as int));
                assert(line@ =~= strip_cr(rest.take(nl_len(rest))));
                assert(rest.skip(nl_len(rest) + 1) =~= s@.skip(j as int + 1));
            }
            r.push(line);
            proof {
                assert(seqs_of(r@) =~= seqs_of(old_r) + seq![strip_cr(rest.take(nl_len(rest)))]);
                assert(seqs_of(r@) + spec_lines(s@.skip(j as int + 1))
                    =~= seqs_of(old_r) + spec_lines(rest));
            }
            i = j + 1;
        } else {
            proof {
                assert(nl_len(rest) == rest.len());
                assert(line@ =~= rest);
                assert(spec_lines(rest) == seq![rest]);
            }
            r.push(line);
            proof {
                assert(seqs_of(r@) =~= seqs_of(old_r) + seq![rest]);
                assert(s@.skip(s@.len() as int) =~= Seq::<u8>::empty());
                assert(seqs_of(r@) + spec_lines(s@.skip(s@.len() as int))
                    =~= seqs_of(old_r) + spec_lines(rest));
            }
            i = j;
        }
    }
    proof {
        assert(s@.skip(s@.len() as int) =~= Seq::<u8>::empty());
        assert(seqs_of(r@) + Seq::<Seq<u8>>::empty() =~= seqs_of(r@));
    }
    r
}

/// The bytes of the status word `device`.
pub open spec fn device_word() -> Seq<u8> {
    seq![100u8, 101u8, 118u8, 105u8, 99u8, 101u8]
}

/// The bytes of the fallback word `Unknown`.
pub open spec fn unknown_word() -> Seq<u8> {
    seq![85u8, 110u8, 107u8, 110u8, 111u8, 119u8, 110u8]
}

/// The identities in rows of exactly two tokens whose second token is
/// `device`; all other rows (headers, offline or unauthorized devices)
/// are discarded.
pub open spec fn spec_device_rows(lines: Seq<Seq<u8>>) -> Seq<Seq<u8>>
    decreases lines.len(),
{
    if lines.len() == 0 {
        Seq::empty()
    } else {
        let ts = spec_tokens(lines[0]);
        let rest = spec_device_rows(lines.skip(1));
        if ts.len() == 2 && ts[1] == device_word() {
            seq![ts[0]] + rest
        } else {
            rest
        }
    }
}

/// The device identities in the bridge tool's `devices` output: every
/// line but the first is kept when it has exactly two tokens and the
/// second is `device`.
pub open spec fn spec_parse_devices(out: Seq<u8>) -> Seq<Seq<u8>> {
    let ls = spec_lines(out);
    if ls.len() == 0 {
        Seq::empty()
    } else {
        spec_device_rows(ls.skip(1))
    }
}

fn device_status_word() -> (r: Vec<u8>)
    ensures
        r@ == device_word(),
{
    let mut v: Vec<u8> = Vec::new();
    v.push(100u8);
    v.push(101u8);
    v.push(118u8);
    v.push(105u8);
    v.push(99u8);
    v.push(101u8);
    proof {
        assert(v@ =~= device_word());
    }
    v
}

/// The fallback version string `Unknown`, as owned bytes.
pub fn unknown_bytes() -> (r: Vec<u8>)
    ensures
        r@ == unknown_word(),
{
    let mut v: Vec<u8> = Vec::new();
    v.push(85u8);
    v.push(110u8);
    v.push(107u8);
    v.push(110u8);
    v.push(111u8);
    v.push(119u8);
    v.push(110u8);
    proof {
        assert(v@ =~= unknown_word());
    }
    v
}

/// Parse the bridge tool's `devices` output into the attached device
/// identities, in output order.
pub fn parse_devices(out: &[u8]) -> (r: Vec<Vec<u8>>)
    ensures
        seqs_of(r@) == spec_parse_devices(out@),
{
    let status = device_status_word();
    let lines = split_lines(out);
    let ghost ls = spec_lines(out@);
    let mut r: Vec<Vec<u8>> = Vec::new();
    if lines.len() == 0 {
        proof {
            assert(seqs_of(r@) =~= spec_parse_devices(out@));
        }
        return r;
    }
    let mut i: usize = 1;
    proof {
        assert(seqs_of(r@) + spec_device_rows(ls.skip(1)) =~= spec_device_rows(ls.skip(1)));
    }
    while i < lines.len()
        invariant
            1 <= i <= lines.len(),
            ls == spec_lines(out@),
            seqs_of(lines@) == ls,
            status@ == device_word(),
            spec_device_rows(ls.skip(1)) == seqs_of(r@) + spec_device_rows(ls.skip(i as int)),
        decreases lines.len() - i,
    {
        let ghost rest = ls.skip(i as int);
        let ghost old_r = r@;
        proof {
            assert(rest[0] == lines@[i as int]@);
            assert(rest.skip(1) =~= ls.skip(i as int + 1));
        }
        let ts = tokenize(lines[i].as_slice());
        proof {
            assert(seqs_of(ts@) == spec_tokens(rest[0]));
        }
        if ts.len() == 2 && bytes_eq(ts[1].as_slice(), status.as_slice()) {
            proof {
                assert(spec_tokens(rest[0])[1] == ts@[1]@);
                assert(spec_tokens(rest[0])[0] == ts@[0]@);
            }
            let ident = copy_bytes(ts[0].as_slice());
            r.push(ident);
            proof {
                assert(seqs_of(r@) =~= seqs_of(old_r) + seq![spec_tokens(rest[0])[0]]);
                assert(seqs_of(r@) + spec_device_rows(ls.skip(i as int + 1))
                    =~= seqs_of(old_r) + spec_device_rows(rest));
            }
        } else {
            proof {
                if seqs_of(ts@).len() == 2 {
                    assert(spec_tokens(rest[0])[1] == ts@[1]@);
                }
                assert(spec_device_rows(rest) == spec_device_rows(ls.skip(i as int + 1)));
            }
        }
        i = i + 1;
    }
    proof {
        assert(ls.skip(ls.len() as int) =~= Seq::<Seq<u8>>::empty());
        assert(seqs_of(r@) + Seq::<Seq<u8>>::empty() =~= seqs_of(r@));
    }
    r
}

/// The version reported on the mirroring binary's first output line: its
/// second token, or `Unknown` when the line is missing or malformed.
pub open spec fn spec_parse_version(out: Seq<u8>) -> Seq<u8> {
    let ls = spec_lines(out);
    if ls.len() == 0 {
        unknown_word()
    } else {
        let ts = spec_tokens(ls[0]);
        if ts.len() >= 2 {
            ts[1]
        } else {
            unknown_word()
        }
    }
}

/// Extract the version string from the mirroring binary's `--version`
/// output.
pub fn parse_version(out: &[u8]) -> (r: Vec<u8>)
    ensures
        r@ == spec_parse_version(out@),
{
    let lines = split_lines(out);
    if lines.len() == 0 {
        return unknown_bytes();
    }
    let ts = tokenize(lines[0].as_slice());
    proof {
        assert(lines@[0]@ == spec_lines(out@)[0]);
        assert(seqs_of(ts@) == spec_tokens(spec_lines(out@)[0]));
    }
    if ts.len() >= 2 {
        proof {
            assert(ts@[1]@ == spec_tokens(spec_lines(out@)[0])[1]);
        }
        copy_bytes(ts[1].as_slice())
    } else {
        unknown_bytes()
    }
}

/// `s` with leading and trailing ASCII whitespace removed.
pub open spec fn spec_trim(s: Seq<u8>) -> Seq<u8>
    decreases s.len(),
{
    if s.len() == 0 {
        s
    } else if is_space(s[0]) {
        spec_trim(s.skip(1))
    } else if is_space(s[s.len() - 1]) {
        spec_trim(s.take(s.len() - 1))
    } else {
        s
    }
}

proof fn lemma_trim_sub(s: Seq<u8>, lo: int, hi: int)
    requires
        0 <= lo <= hi <= s.len(),
        forall|i: int| 0 <= i < lo ==> is_space(s[i]),
        forall|i: int| hi <= i < s.len() ==> is_space(s[i]),
        lo < hi ==> !is_space(s[lo]) && !is_space(s[hi - 1]),
        lo == hi ==> lo == s.len(),
    ensures
        spec_trim(s) == s.subrange(lo, hi),
    decreases s.len(),
{
    if s.len() == 0 {
        assert(spec_trim(s) =~= s.subrange(lo, hi));
    } else if is_space(s[0]) {
        assert(lo >= 1);
        let t = s.skip(1);
        assert forall|i: int| 0 <= i < lo - 1 implies is_space(t[i]) by {
            assert(t[i] == s[i + 1]);
        }
        assert forall|i: int| hi - 1 <= i < t.len() implies is_space(t[i]) by {
            assert(t[i] == s[i + 1]);
        }
        if lo < hi {
            assert(t[lo - 1] == s[lo]);
            assert(t[hi - 2] == s[hi - 1]);
        }
        lemma_trim_sub(t, lo - 1, hi - 1);
        assert(t.subrange(lo - 1, hi - 1) =~= s.subrange(lo, hi));
    } else if is_space(s[s.len() - 1]) {
        assert(hi <= s.len() - 1) by {
            if hi == s.len() {
                if lo < hi {
                    assert(!is_space(s[hi - 1]));
                } else {
                    assert(lo == s.len());
                    assert(is_space(s[0]));
                }
            }
        }
        let t = s.take(s.len() - 1);
        assert forall|i: int| 0 <= i < lo implies is_space(t[i]) by {
            assert(t[i] == s[i]);
        }
        lemma_trim_sub(t, lo, hi);
        assert(t.subrange(lo, hi) =~= s.subrange(lo, hi));
    } else {
        assert(lo == 0) by {
            if lo > 0 {
                assert(is_space(s[0]));
            }
        }
        assert(hi == s.len()) by {
            if hi < s.len() {
                assert(is_space(s[s.len() - 1]));
            }
        }
        assert(s.subrange(0, s.len() as int) =~= s);
    }
}

/// Remove leading and trailing ASCII whitespace, as the property query
/// output is trimmed.
pub fn trim_bytes(s: &[u8]) -> (r: Vec<u8>)
    ensures
        r@ == spec_trim(s@),
{
    let mut lo: usize = 0;
    while lo < s.len() && exec_is_space(s[lo])
        invariant
            lo <= s.len(),
            forall|i: int| 0 <= i < lo ==> is_space(s@[i]),
        decreases s.len() - lo,
    {
        lo = lo + 1;
    }
    if lo == s.len() {
        proof {
            lemma_trim_sub(s@, lo as int, lo as int);
        }
        let r: Vec<u8> = Vec::new();
        proof {
            assert(r@ =~= s@.subrange(lo as int, lo as int));
        }
        return r;
    }
    let mut hi: usize = s.len();
    while hi > lo + 1 && exec_is_space(s[hi - 1])
        invariant
            lo < hi <= s.len(),
            forall|i: int| hi <= i < s.len() ==> is_space(s@[i]),
        decreases hi,
    {
        hi = hi - 1;
    }
    proof {
        assert(!is_space(s@[lo as int]));
        assert(!is_space(s@[hi - 1])) by {
            if hi == lo + 1 {
            }
        }
        lemma_trim_sub(s@, lo as int, hi as int);
    }
    let mut r: Vec<u8> = Vec::new();
    let mut k: usize = lo;
    while k < hi
        invariant
            lo <= k <= hi <= s.len(),
            r@ =~= s@.subrange(lo as int, k as int),
        decreases hi - k,
    {
        r.push(s[k]);
        k = k + 1;
    }
    r
}

} // verus!
