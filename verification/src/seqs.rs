//! Sequence facts the other modules share.
use vstd::prelude::*;

verus! {

pub proof fn lemma_filter_push<A>(s: Seq<A>, x: A, p: spec_fn(A) -> bool)
    ensures
        s.push(x).filter(p) == if p(x) {
            s.filter(p).push(x)
        } else {
            s.filter(p)
        },
{
    reveal(Seq::filter);
    assert(s.push(x).drop_last() =~= s);
}

/// One more element of a prefix, filtered.
pub proof fn lemma_filter_take<A>(s: Seq<A>, k: int, p: spec_fn(A) -> bool)
    requires
        0 <= k < s.len(),
    ensures
        s.take(k + 1).filter(p) == if p(s[k]) {
            s.take(k).filter(p).push(s[k])
        } else {
            s.take(k).filter(p)
        },
{
    assert(s.take(k + 1) =~= s.take(k).push(s[k]));
    lemma_filter_push(s.take(k), s[k], p);
}

/// A filter that keeps everything a narrower one keeps does not change what the
/// narrower one finds.
pub proof fn lemma_filter_narrows<A>(
    s: Seq<A>,
    wide: spec_fn(A) -> bool, narrow: spec_fn(A) -> bool,
)
    requires
        forall|i: int| 0 <= i < s.len() && narrow(s[i]) ==> wide(#[trigger] s[i]),
    ensures
        s.filter(wide).filter(narrow) == s.filter(narrow),
    decreases s.len(),
{
    reveal(Seq::filter);
    if s.len() > 0 {
        let rest = s.drop_last();
        assert forall|i: int| 0 <= i < rest.len() && narrow(rest[i]) implies wide(
            #[trigger] rest[i],
        ) by {
            assert(rest[i] == s[i]);
        }
        lemma_filter_narrows(rest, wide, narrow);
        assert(s[s.len() - 1] == s.last());
        if wide(s.last()) {
            lemma_filter_push(rest.filter(wide), s.last(), narrow);
        }
    }
}

/// What a filter keeps was there before.
pub proof fn lemma_filter_member<A>(s: Seq<A>, p: spec_fn(A) -> bool, j: int) -> (i: int)
    requires
        0 <= j < s.filter(p).len(),
    ensures
        0 <= i < s.len(),
        s[i] == s.filter(p)[j],
        p(s[i]),
    decreases s.len(),
{
    reveal(Seq::filter);
    let rest = s.drop_last();
    if j < rest.filter(p).len() {
        lemma_filter_member(rest, p, j)
    } else {
        s.len() - 1
    }
}

/// A filter that lets everything pass changes nothing.
pub proof fn lemma_filter_all<A>(s: Seq<A>, p: spec_fn(A) -> bool)
    requires
        forall|i: int| 0 <= i < s.len() ==> p(#[trigger] s[i]),
    ensures
        s.filter(p) == s,
    decreases s.len(),
{
    reveal(Seq::filter);
    if s.len() > 0 {
        let rest = s.drop_last();
        assert forall|i: int| 0 <= i < rest.len() implies p(#[trigger] rest[i]) by {
            assert(rest[i] == s[i]);
        }
        lemma_filter_all(rest, p);
        assert(p(s[s.len() - 1]));
        assert(rest.push(s.last()) =~= s);
    }
}

} // verus!
