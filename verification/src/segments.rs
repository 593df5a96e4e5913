//! Splitting a domain name into its labels, rightmost (top-level) first.

use vstd::prelude::*;

verus! {

/// Index of the rightmost `'.'` in `s`, or `-1` if `s` holds none.
pub open spec fn last_dot(s: Seq<char>) -> int
    decreases s.len(),
{
    if s.len() == 0 {
        -1
    } else if s.last() == '.' {
        s.len() - 1
    } else {
        last_dot(s.drop_last())
    }
}

/// The labels of `s` split on `'.'`, rightmost label first, as
/// `str::rsplit('.')` yields them: every string has at least one label,
/// and empty labels are kept.
pub open spec fn rsegs(s: Seq<char>) -> Seq<Seq<char>>
    decreases s.len(),
{
    let j = last_dot(s);
    if 0 <= j < s.len() {
        seq![s.subrange(j + 1, s.len() as int)] + rsegs(s.subrange(0, j))
    } else {
        seq![s]
    }
}

/// `last_dot` finds a dot, within bounds, with no dot to its right.
pub proof fn lemma_last_dot(s: Seq<char>)
    ensures
        -1 <= last_dot(s) < s.len(),
        last_dot(s) >= 0 ==> s[last_dot(s)] == '.',
        forall|j: int| last_dot(s) < j < s.len() ==> s[j] != '.',
    decreases s.len(),
{
    if s.len() == 0 {
    } else if s.last() == '.' {
    } else {
        lemma_last_dot(s.drop_last());
        assert forall|j: int| last_dot(s) < j < s.len() implies s[j] != '.' by {
            if j < s.len() - 1 {
                assert(s.drop_last()[j] == s[j]);
            }
        }
    }
}

/// A split yields at least one label.
pub proof fn lemma_rsegs_len(s: Seq<char>)
    ensures
        rsegs(s).len() >= 1,
{
}

/// A leading dot only adds one empty label at the specific end of the
/// split: the labels of `"." + x` are the labels of `x`, then `""`.
pub proof fn lemma_rsegs_dot(x: Seq<char>)
    ensures
        rsegs(seq!['.'] + x) == rsegs(x) + seq![Seq::<char>::empty()],
    decreases x.len(),
{
    let p = seq!['.'] + x;
    lemma_last_dot(x);
    lemma_last_dot(p);
    let jx = last_dot(x);
    if jx >= 0 {
        assert(p[jx + 1] == '.');
        assert(forall|j: int| jx + 1 < j < p.len() ==> p[j] == x[j - 1] && p[j] != '.');
        assert(last_dot(p) == jx + 1);
        assert(p.subrange(jx + 2, p.len() as int) =~= x.subrange(jx + 1, x.len() as int));
        assert(p.subrange(0, jx + 1) =~= seq!['.'] + x.subrange(0, jx));
        lemma_rsegs_dot(x.subrange(0, jx));
        assert(seq![p.subrange(jx + 2, p.len() as int)] + (rsegs(x.subrange(0, jx)) + seq![
            Seq::<char>::empty(),
        ]) =~~= (seq![x.subrange(jx + 1, x.len() as int)] + rsegs(x.subrange(0, jx))) + seq![
            Seq::<char>::empty(),
        ]);
    } else {
        assert(p[0] == '.');
        assert(forall|j: int| 0 < j < p.len() ==> p[j] == x[j - 1] && p[j] != '.');
        assert(last_dot(p) == 0);
        assert(p.subrange(1, p.len() as int) =~= x);
        assert(p.subrange(0, 0) =~= Seq::<char>::empty());
        lemma_last_dot(Seq::<char>::empty());
        assert(rsegs(Seq::<char>::empty()) == seq![Seq::<char>::empty()]);
        assert(seq![p.subrange(1, p.len() as int)] + rsegs(Seq::<char>::empty()) =~~= rsegs(x)
            + seq![Seq::<char>::empty()]);
    }
}

/// Splits `domain` into its labels on `'.'`, rightmost label first.
pub fn domain_rseg(domain: &str) -> (segs: Vec<String>)
    ensures
        segs.deep_view() == rsegs(domain@),
        segs@.len() >= 1,
{
    let n: usize = domain.unicode_len();
    let mut segs: Vec<String> = Vec::new();
    let mut end: usize = n;
    let mut i: usize = n;
    proof {
        assert(domain@.subrange(0, n as int) =~= domain@);
        assert(segs.deep_view() =~~= Seq::<Seq<char>>::empty());
        assert(segs.deep_view() + rsegs(domain@.subrange(0, end as int)) =~~= rsegs(domain@));
    }
    while i > 0
        invariant
            i <= end <= n,
            n == domain@.len(),
            forall|j: int| i <= j < end ==> domain@[j] != '.',
            rsegs(domain@) == segs.deep_view() + rsegs(domain@.subrange(0, end as int)),
        decreases i,
    {
        i = i - 1;
        let c = domain.get_char(i);
        if c == '.' {
            let seg = domain.substring_char(i + 1, end);
            let ghost old_dv = segs.deep_view();
            segs.push(String::from_str(seg));
            proof {
                let s = domain@;
                let t = s.subrange(0, end as int);
                lemma_last_dot(t);
                assert(t[i as int] == '.');
                assert(last_dot(t) == i as int);
                assert(t.subrange(i + 1, t.len() as int) =~= s.subrange(i + 1, end as int));
                assert(t.subrange(0, i as int) =~= s.subrange(0, i as int));
                assert(segs.deep_view() =~~= old_dv + seq![seg@]);
                assert(rsegs(s) =~~= segs.deep_view() + rsegs(s.subrange(0, i as int)));
            }
            end = i;
        }
    }
    let seg = domain.substring_char(0, end);
    let ghost old_dv = segs.deep_view();
    segs.push(String::from_str(seg));
    proof {
        let s = domain@;
        let t = s.subrange(0, end as int);
        lemma_last_dot(t);
        assert(last_dot(t) == -1);
        assert(rsegs(t) == seq![t]);
        assert(segs.deep_view() =~~= old_dv + seq![seg@]);
        assert(rsegs(s) =~~= segs.deep_view());
    }
    segs
}

} // verus!
