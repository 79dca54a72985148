use vstd::prelude::*;
use itertools::Itertools;

verus! {

/// Lexicographic order on text, character by character, by code point.
pub open spec fn text_lt(a: Seq<char>, b: Seq<char>) -> bool
    decreases a.len(),
{
    if a.len() == 0 {
        b.len() > 0
    } else if b.len() == 0 {
        false
    } else if a[0] != b[0] {
        (a[0] as int) < (b[0] as int)
    } else {
        text_lt(a.drop_first(), b.drop_first())
    }
}

/// Every earlier element is smaller than every later one.
pub open spec fn ascending(s: Seq<Seq<char>>) -> bool {
    forall|i: int, j: int| 0 <= i < j < s.len() ==> text_lt(s[i], s[j])
}

pub open spec fn texts(v: Seq<String>) -> Seq<Seq<char>> {
    v.map_values(|s: String| s@)
}

pub proof fn lemma_text_lt_irreflexive(a: Seq<char>)
    ensures
        !text_lt(a, a),
    decreases a.len(),
{
    if a.len() > 0 {
        lemma_text_lt_irreflexive(a.drop_first());
    }
}

pub proof fn lemma_text_lt_trichotomy(a: Seq<char>, b: Seq<char>)
    ensures
        a == b || text_lt(a, b) || text_lt(b, a),
        !(text_lt(a, b) && text_lt(b, a)),
    decreases a.len(),
{
    if a.len() == 0 || b.len() == 0 {
        if a.len() == 0 && b.len() == 0 {
            assert(a =~= b);
        }
    } else if a[0] != b[0] {
        assert((a[0] as int) != (b[0] as int));
    } else {
        let (ta, tb) = (a.drop_first(), b.drop_first());
        lemma_text_lt_trichotomy(ta, tb);
        if ta == tb {
            assert forall|i: int| 0 <= i < a.len() implies a[i] == b[i] by {
                if i > 0 {
                    assert(a[i] == ta[i - 1]);
                    assert(b[i] == tb[i - 1]);
                }
            }
            assert(a =~= b);
        }
    }
}

pub proof fn lemma_text_lt_transitive(a: Seq<char>, b: Seq<char>, c: Seq<char>)
    requires
        text_lt(a, b),
        text_lt(b, c),
    ensures
        text_lt(a, c),
    decreases a.len(),
{
    if a.len() > 0 && b.len() > 0 && c.len() > 0 && a[0] == b[0] && b[0] == c[0] {
        lemma_text_lt_transitive(a.drop_first(), b.drop_first(), c.drop_first());
    }
}

/// An ascending sequence holds no element twice.
pub proof fn lemma_ascending_distinct(s: Seq<Seq<char>>, i: int, j: int)
    requires
        ascending(s),
        0 <= i < s.len(),
        0 <= j < s.len(),
        i != j,
    ensures
        s[i] != s[j],
{
    if i < j {
        lemma_text_lt_irreflexive(s[i]);
    } else {
        lemma_text_lt_irreflexive(s[j]);
    }
}

/// Whether `a` comes before `b` in lexicographic order.
pub fn text_less(a: &str, b: &str) -> (r: bool)
    ensures
        r == text_lt(a@, b@),
{
    let la = a.unicode_len();
    let lb = b.unicode_len();
    let mut i: usize = 0;
    assert(a@.subrange(0, la as int) =~= a@);
    assert(b@.subrange(0, lb as int) =~= b@);
    while i < la && i < lb
        invariant
            la == a@.len(),
            lb == b@.len(),
            i <= la,
            i <= lb,
            text_lt(a@, b@) == text_lt(a@.subrange(i as int, la as int), b@.subrange(i as int, lb as int)),
        decreases la - i,
    {
        let ca = a.get_char(i);
        let cb = b.get_char(i);
        if ca != cb {
            return (ca as u32) < (cb as u32);
        }
        assert(a@.subrange(i as int, la as int).drop_first() =~= a@.subrange(i + 1, la as int));
        assert(b@.subrange(i as int, lb as int).drop_first() =~= b@.subrange(i + 1, lb as int));
        i = i + 1;
    }
    i < lb
}

/// Every later element is at least as large as every earlier one.
pub open spec fn non_decreasing(s: Seq<Seq<char>>) -> bool {
    forall|i: int, j: int| 0 <= i < j < s.len() ==> !text_lt(s[j], s[i])
}

/// Relies on itertools' `sorted`, which collects the elements into a `Vec` and
/// calls `slice::sort` (the same elements, in ascending `Ord` order), and on
/// std's `Ord` for strings: lexicographic, ordering code points by their
/// position in the code charts, which is `text_lt`.
#[verifier::external_body]
fn sorted_texts(v: Vec<String>) -> (r: Vec<String>)
    ensures
        texts(r@).to_multiset() == texts(v@).to_multiset(),
        non_decreasing(texts(r@)),
{
    v.into_iter().sorted().collect()
}

/// The elements of a sorted list, each once.
fn dedup_sorted(s: &Vec<String>) -> (r: Vec<String>)
    requires
        non_decreasing(texts(s@)),
    ensures
        ascending(texts(r@)),
        forall|x: Seq<char>| texts(r@).contains(x) <==> texts(s@).contains(x),
{
    let ghost ts = texts(s@);
    let mut r: Vec<String> = Vec::new();
    let mut i: usize = 0;
    while i < s.len()
        invariant
            ts == texts(s@),
            non_decreasing(ts),
            i <= s.len(),
            ascending(texts(r@)),
            i > 0 ==> r.len() > 0 && texts(r@).last() == ts[i - 1],
            i == 0 ==> r.len() == 0,
            forall|x: Seq<char>| texts(r@).contains(x) <==> ts.subrange(0, i as int).contains(x),
        decreases s.len() - i,
    {
        let ghost before = texts(r@);
        let ghost pre = ts.subrange(0, i as int);
        let ghost next = ts.subrange(0, i + 1);
        assert(next =~= pre.push(ts[i as int]));
        let fresh = r.len() == 0 || r[r.len() - 1] != s[i];
        assert(ts[i as int] == s@[i as int]@);
        assert(r.len() > 0 ==> before.last() == r@[r.len() - 1]@);
        assert(fresh <==> (r.len() == 0 || before.last() != ts[i as int]));
        if fresh {
            r.push(s[i].clone());
            let ghost after = texts(r@);
            assert(after =~= before.push(ts[i as int]));
            proof {
            if i > 0 {
                assert(before.last() == ts[i - 1]);
                assert(!text_lt(ts[i as int], ts[i - 1]));
                lemma_text_lt_trichotomy(ts[i - 1], ts[i as int]);
                assert forall|a: int, b: int| 0 <= a < b < after.len() implies text_lt(after[a], after[b]) by {
                    assert(after[a] == before[a]);
                    if b == after.len() - 1 {
                        assert(after[b] == ts[i as int]);
                        if a < b - 1 {
                            assert(text_lt(before[a], before[before.len() - 1]));
                            lemma_text_lt_transitive(before[a], before[before.len() - 1], ts[i as int]);
                        }
                    } else {
                        assert(after[b] == before[b]);
                    }
                }
            }
            assert forall|x: Seq<char>| after.contains(x) <==> next.contains(x) by {
                if after.contains(x) {
                    let t = choose|t: int| 0 <= t < after.len() && after[t] == x;
                    if t < before.len() {
                        assert(before[t] == x);
                        assert(before.contains(x));
                        assert(pre.contains(x));
                        let w = choose|w: int| 0 <= w < pre.len() && pre[w] == x;
                        assert(next[w] == x);
                    } else {
                        assert(next[i as int] == x);
                    }
                }
                if next.contains(x) {
                    let t = choose|t: int| 0 <= t < next.len() && next[t] == x;
                    if t < i {
                        assert(pre[t] == x);
                        assert(pre.contains(x));
                        assert(before.contains(x));
                        let u = choose|u: int| 0 <= u < before.len() && before[u] == x;
                        assert(after[u] == x);
                    } else {
                        assert(after[after.len() - 1] == x);
                    }
                }
            }
            }
        } else {
            assert(before.last() == ts[i as int]);
            assert forall|x: Seq<char>| before.contains(x) <==> next.contains(x) by {
                if next.contains(x) {
                    let t = choose|t: int| 0 <= t < next.len() && next[t] == x;
                    if t < i {
                        assert(pre[t] == x);
                    } else {
                        assert(before[before.len() - 1] == x);
                    }
                }
                if before.contains(x) {
                    assert(pre.contains(x));
                    let t = choose|t: int| 0 <= t < pre.len() && pre[t] == x;
                    assert(next[t] == x);
                }
            }
        }
        i = i + 1;
    }
    assert(ts.subrange(0, s.len() as int) =~= ts);
    r
}

/// The distinct texts of `v`, each once, ascending.
pub fn distinct_sorted(v: Vec<String>) -> (r: Vec<String>)
    ensures
        ascending(texts(r@)),
        forall|x: Seq<char>| texts(r@).contains(x) <==> texts(v@).contains(x),
{
    let ghost tv = texts(v@);
    let sorted = sorted_texts(v);
    let r = dedup_sorted(&sorted);
    proof {
        let ts = texts(sorted@);
        ts.to_multiset_ensures();
        tv.to_multiset_ensures();
        assert forall|x: Seq<char>| ts.contains(x) <==> tv.contains(x) by {
            assert(ts.contains(x) <==> ts.to_multiset().count(x) > 0);
            assert(tv.contains(x) <==> tv.to_multiset().count(x) > 0);
        }
    }
    r
}

} // verus!
