use vstd::prelude::*;

verus! {

/// A property of every element of every inner sequence holds of every
/// element of the flattened sequence.
pub proof fn lemma_flatten_all<A>(ss: Seq<Seq<A>>, p: spec_fn(A) -> bool)
    requires
        forall|i: int, j: int| 0 <= i < ss.len() && 0 <= j < ss[i].len() ==> p(#[trigger] ss[i][j]),
    ensures
        forall|k: int| 0 <= k < ss.flatten().len() ==> p(#[trigger] ss.flatten()[k]),
    decreases ss.len(),
{
    if ss.len() > 0 {
        let rest = ss.drop_first();
        assert forall|i: int, j: int| 0 <= i < rest.len() && 0 <= j < rest[i].len() implies p(
            #[trigger] rest[i][j],
        ) by {
            assert(rest[i] == ss[i + 1]);
        }
        lemma_flatten_all(rest, p);
        let f = ss.flatten();
        assert(f == ss[0] + rest.flatten());
        assert forall|k: int| 0 <= k < f.len() implies p(#[trigger] f[k]) by {
            if k < ss[0].len() {
                assert(f[k] == ss[0][k]);
            } else {
                assert(f[k] == rest.flatten()[k - ss[0].len()]);
            }
        }
    }
}

/// Every element of an inner sequence is an element of the flattened sequence.
pub proof fn lemma_flatten_member<A>(ss: Seq<Seq<A>>, i: int, j: int)
    requires
        0 <= i < ss.len(),
        0 <= j < ss[i].len(),
    ensures
        ss.flatten().contains(ss[i][j]),
    decreases ss.len(),
{
    let rest = ss.drop_first();
    let f = ss.flatten();
    assert(f == ss[0] + rest.flatten());
    if i == 0 {
        assert(f[j] == ss[0][j]);
    } else {
        assert(rest[i - 1] == ss[i]);
        lemma_flatten_member(rest, i - 1, j);
        let k = choose|k: int| 0 <= k < rest.flatten().len() && rest.flatten()[k] == ss[i][j];
        assert(f[ss[0].len() + k] == rest.flatten()[k]);
    }
}

/// Every element that a `filter_map` keeps comes from an element of the input.
pub proof fn lemma_filter_map_source<A, B>(s: Seq<A>, f: spec_fn(A) -> Option<B>, k: int)
    requires
        0 <= k < s.filter_map(f).len(),
    ensures
        exists|i: int| 0 <= i < s.len() && f(s[i]) == Some(#[trigger] s.filter_map(f)[k]),
    decreases s.len(),
{
    let rest = s.drop_last();
    match f(s.last()) {
        Some(b) => {
            if k == s.filter_map(f).len() - 1 {
                assert(f(s[s.len() - 1]) == Some(s.filter_map(f)[k]));
            } else {
                lemma_filter_map_source(rest, f, k);
                let i = choose|i: int| 0 <= i < rest.len() && f(rest[i]) == Some(rest.filter_map(f)[k]);
                assert(s[i] == rest[i]);
            }
        },
        None => {
            lemma_filter_map_source(rest, f, k);
            let i = choose|i: int| 0 <= i < rest.len() && f(rest[i]) == Some(rest.filter_map(f)[k]);
            assert(s[i] == rest[i]);
        },
    }
}

/// Every value that `f` gives for an element of the input is kept by `filter_map`.
pub proof fn lemma_filter_map_member<A, B>(s: Seq<A>, f: spec_fn(A) -> Option<B>, i: int)
    requires
        0 <= i < s.len(),
        f(s[i]) is Some,
    ensures
        s.filter_map(f).contains(f(s[i]).unwrap()),
    decreases s.len(),
{
    let rest = s.drop_last();
    if i == s.len() - 1 {
        let r = s.filter_map(f);
        assert(r[r.len() - 1] == f(s[i]).unwrap());
    } else {
        assert(rest[i] == s[i]);
        lemma_filter_map_member(rest, f, i);
        let r = rest.filter_map(f);
        let k = choose|k: int| 0 <= k < r.len() && r[k] == f(s[i]).unwrap();
        match f(s.last()) {
            Some(b) => {
                assert(s.filter_map(f)[k] == r[k]);
            },
            None => {},
        }
    }
}

/// Flattening keeps elements apart when each inner sequence has no duplicates
/// and `key` tells which inner sequence an element came from.
pub proof fn lemma_flatten_no_duplicates<A>(ss: Seq<Seq<A>>, key: spec_fn(A) -> int)
    requires
        forall|i: int| 0 <= i < ss.len() ==> (#[trigger] ss[i]).no_duplicates(),
        forall|i: int, j: int| 0 <= i < ss.len() && 0 <= j < ss[i].len() ==> key(#[trigger] ss[i][j]) == i,
    ensures
        ss.flatten().no_duplicates(),
    decreases ss.len(),
{
    if ss.len() > 0 {
        let rest = ss.drop_first();
        let rest_key = |a: A| key(a) - 1;
        assert forall|i: int| 0 <= i < rest.len() implies (#[trigger] rest[i]).no_duplicates() by {
            assert(rest[i] == ss[i + 1]);
        }
        assert forall|i: int, j: int| 0 <= i < rest.len() && 0 <= j < rest[i].len() implies rest_key(
            #[trigger] rest[i][j],
        ) == i by {
            assert(rest[i] == ss[i + 1]);
        }
        lemma_flatten_no_duplicates(rest, rest_key);
        let p = |a: A| key(a) >= 1;
        assert forall|i: int, j: int| 0 <= i < rest.len() && 0 <= j < rest[i].len() implies p(
            #[trigger] rest[i][j],
        ) by {
            assert(rest[i] == ss[i + 1]);
        }
        lemma_flatten_all(rest, p);
        let f = ss.flatten();
        let h = ss[0];
        let t = rest.flatten();
        assert(f == h + t);
        assert forall|a: int, b: int| 0 <= a < f.len() && 0 <= b < f.len() && a != b implies f[a]
            != f[b] by {
            if a < h.len() && b < h.len() {
                assert(f[a] == h[a] && f[b] == h[b]);
            } else if a >= h.len() && b >= h.len() {
                assert(f[a] == t[a - h.len()] && f[b] == t[b - h.len()]);
            } else if a < h.len() {
                assert(f[a] == h[a] && f[b] == t[b - h.len()]);
                assert(key(h[a]) == 0);
                assert(p(t[b - h.len()]));
            } else {
                assert(f[b] == h[b] && f[a] == t[a - h.len()]);
                assert(key(h[b]) == 0);
                assert(p(t[a - h.len()]));
            }
        }
    }
}

/// A `filter_map` that never maps two elements of a duplicate-free input to
/// the same value gives a duplicate-free output.
pub proof fn lemma_filter_map_no_duplicates<A, B>(s: Seq<A>, f: spec_fn(A) -> Option<B>)
    requires
        s.no_duplicates(),
        forall|i: int, j: int|
            0 <= i < s.len() && 0 <= j < s.len() && #[trigger] f(s[i]) is Some && f(s[i]) == #[trigger] f(
                s[j],
            ) ==> i == j,
    ensures
        s.filter_map(f).no_duplicates(),
    decreases s.len(),
{
    if s.len() > 0 {
        let rest = s.drop_last();
        assert forall|i: int, j: int|
            0 <= i < rest.len() && 0 <= j < rest.len() && #[trigger] f(rest[i]) is Some && f(rest[i])
                == #[trigger] f(rest[j]) implies i == j by {
            assert(rest[i] == s[i] && rest[j] == s[j]);
        }
        lemma_filter_map_no_duplicates(rest, f);
        let r = rest.filter_map(f);
        match f(s.last()) {
            Some(b) => {
                let out = s.filter_map(f);
                assert(out == r + seq![b]);
                assert forall|k: int| 0 <= k < r.len() implies r[k] != b by {
                    lemma_filter_map_source(rest, f, k);
                    let i = choose|i: int| 0 <= i < rest.len() && f(rest[i]) == Some(#[trigger] r[k]);
                    if r[k] == b {
                        assert(f(s[i]) == f(s[s.len() - 1]));
                    }
                }
                assert forall|a: int, c: int| 0 <= a < out.len() && 0 <= c < out.len() && a != c implies out[a]
                    != out[c] by {
                    if a < r.len() && c < r.len() {
                        assert(out[a] == r[a] && out[c] == r[c]);
                    } else if a < r.len() {
                        assert(out[a] == r[a] && out[c] == b);
                    } else {
                        assert(out[c] == r[c] && out[a] == b);
                    }
                }
            },
            None => {},
        }
    }
}

} // verus!
