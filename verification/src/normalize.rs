//! Whitespace normalization of raw menu text: runs of repeated spaces and of
//! repeated newlines collapse to a single one, and decorative asterisks are
//! removed. The pass is pure and idempotent.

use vstd::prelude::*;

use crate::text::{chars_of, string_from};

verus! {

/// Whether `c` may stand in normalized text right after a kept `prev`:
/// asterisks are dropped, and a space or a newline may not repeat.
pub open spec fn keeps(prev: char, c: char) -> bool {
    c != '*' && !(c == ' ' && prev == ' ') && !(c == '\n' && prev == '\n')
}

/// The normalized form of `s` when the last kept character so far is `prev`.
pub open spec fn norm_from(prev: char, s: Seq<char>) -> Seq<char>
    decreases s.len(),
{
    if s.len() == 0 {
        Seq::empty()
    } else if keeps(prev, s.first()) {
        seq![s.first()] + norm_from(s.first(), s.drop_first())
    } else {
        norm_from(prev, s.drop_first())
    }
}

/// Normalized text. The initial `prev` of a space also drops a leading space.
pub open spec fn normalize_spec(s: Seq<char>) -> Seq<char> {
    norm_from(' ', s)
}

/// Collapses repeated spaces and newlines and strips asterisks.
pub fn general_cleanup(menu: String) -> (r: String)
    ensures
        r@ == normalize_spec(menu@),
{
    let v = chars_of(menu.as_str());
    let n = v.len();
    let mut out: Vec<char> = Vec::new();
    let mut prev: char = ' ';
    let mut i: usize = 0;
    proof {
        assert(v@.subrange(0, n as int) =~= v@);
    }
    while i < n
        invariant
            i <= n,
            n == v@.len(),
            v@ == menu@,
            normalize_spec(menu@) == out@ + norm_from(prev, v@.subrange(i as int, n as int)),
        decreases n - i,
    {
        let ghost suf = v@.subrange(i as int, n as int);
        proof {
            assert(suf.first() == v@[i as int]);
            assert(suf.drop_first() =~= v@.subrange(i as int + 1, n as int));
        }
        let c = v[i];
        if c != '*' && !(c == ' ' && prev == ' ') && !(c == '\n' && prev == '\n') {
            let ghost old_out = out@;
            out.push(c);
            prev = c;
            proof {
                assert(old_out + (seq![c] + norm_from(c, suf.drop_first())) =~= out@
                    + norm_from(c, suf.drop_first()));
            }
        }
        i = i + 1;
    }
    proof {
        assert(v@.subrange(i as int, n as int) =~= Seq::<char>::empty());
        assert(out@ + Seq::<char>::empty() =~= out@);
    }
    string_from(&out)
}

/// Text in normal form: nothing that `norm_from` would drop after `prev`.
pub open spec fn normal_from(prev: char, s: Seq<char>) -> bool
    decreases s.len(),
{
    s.len() == 0 || (keeps(prev, s.first()) && normal_from(s.first(), s.drop_first()))
}

proof fn lemma_norm_normal(prev: char, s: Seq<char>)
    ensures
        normal_from(prev, norm_from(prev, s)),
    decreases s.len(),
{
    if s.len() == 0 {
    } else if keeps(prev, s.first()) {
        lemma_norm_normal(s.first(), s.drop_first());
        let t = seq![s.first()] + norm_from(s.first(), s.drop_first());
        assert(t.first() == s.first());
        assert(t.drop_first() =~= norm_from(s.first(), s.drop_first()));
    } else {
        lemma_norm_normal(prev, s.drop_first());
    }
}

proof fn lemma_normal_fixed(prev: char, s: Seq<char>)
    requires
        normal_from(prev, s),
    ensures
        norm_from(prev, s) == s,
    decreases s.len(),
{
    if s.len() == 0 {
        assert(norm_from(prev, s) =~= s);
    } else {
        lemma_normal_fixed(s.first(), s.drop_first());
        assert(seq![s.first()] + s.drop_first() =~= s);
    }
}

/// The normalizer is idempotent: normalizing already-normalized text gives it
/// back unchanged.
pub proof fn normalize_idempotent(s: Seq<char>)
    ensures
        normalize_spec(normalize_spec(s)) == normalize_spec(s),
{
    lemma_norm_normal(' ', s);
    lemma_normal_fixed(' ', normalize_spec(s));
}

} // verus!
