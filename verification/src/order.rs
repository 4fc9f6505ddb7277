//! Ordering rows: text order and ranking by count.
use vstd::prelude::*;
use vstd::seq_lib::*;

use crate::text::chars_of;

verus! {

/// Lexicographic order of texts by character code (the order of `str` in Rust).
pub open spec fn lex_less(a: Seq<char>, b: Seq<char>) -> bool
    decreases a.len(),
{
    if a.len() == 0 {
        b.len() > 0
    } else if b.len() == 0 {
        false
    } else if a[0] != b[0] {
        a[0] < b[0]
    } else {
        lex_less(a.drop_first(), b.drop_first())
    }
}

/// `lex_less` is transitive.
pub proof fn lemma_lex_transitive(a: Seq<char>, b: Seq<char>, c: Seq<char>)
    requires
        lex_less(a, b),
        lex_less(b, c),
    ensures
        lex_less(a, c),
    decreases a.len(),
{
    if a.len() > 0 && b.len() > 0 && c.len() > 0 && a[0] == b[0] && b[0] == c[0] {
        lemma_lex_transitive(a.drop_first(), b.drop_first(), c.drop_first());
    }
}

/// `lex_less` is irreflexive.
pub proof fn lemma_lex_irreflexive(a: Seq<char>)
    ensures
        !lex_less(a, a),
    decreases a.len(),
{
    if a.len() > 0 {
        lemma_lex_irreflexive(a.drop_first());
    }
}

/// Two different texts are ordered one way or the other.
pub proof fn lemma_lex_total(a: Seq<char>, b: Seq<char>)
    requires
        a != b,
    ensures
        lex_less(a, b) || lex_less(b, a),
    decreases a.len(),
{
    if a.len() > 0 && b.len() > 0 && a[0] == b[0] {
        if a.drop_first() == b.drop_first() {
            assert(a =~= seq![a[0]] + a.drop_first());
            assert(b =~= seq![b[0]] + b.drop_first());
        }
        lemma_lex_total(a.drop_first(), b.drop_first());
    } else if a.len() == 0 && b.len() == 0 {
        assert(a =~= b);
    }
}

/// Whether `a` comes before `b` in text order.
pub fn text_less(a: &str, b: &str) -> (r: bool)
    ensures
        r == lex_less(a@, b@),
{
    let x = chars_of(a);
    let y = chars_of(b);
    let mut i: usize = 0;
    assert(x@.skip(0) =~= x@);
    assert(y@.skip(0) =~= y@);
    while i < x.len() && i < y.len()
        invariant
            i <= x@.len(),
            i <= y@.len(),
            x@ == a@,
            y@ == b@,
            lex_less(a@, b@) == lex_less(x@.skip(i as int), y@.skip(i as int)),
        decreases x@.len() - i,
    {
        assert(x@.skip(i as int)[0] == x@[i as int]);
        assert(y@.skip(i as int)[0] == y@[i as int]);
        if x[i] != y[i] {
            return x[i] < y[i];
        }
        assert(x@.skip(i as int).drop_first() =~= x@.skip(i + 1));
        assert(y@.skip(i as int).drop_first() =~= y@.skip(i + 1));
        i += 1;
    }
    i < y.len()
}

/// A count and a name, as values.
pub type Rank = (u64, Seq<char>);

/// Whether `a` ranks before `b`: a greater count first; equal counts by name, in
/// decreasing text order when `names_desc` holds and increasing otherwise.
pub open spec fn rank_before(a: Rank, b: Rank, names_desc: bool) -> bool {
    a.0 > b.0 || (a.0 == b.0 && if names_desc {
        lex_less(b.1, a.1)
    } else {
        lex_less(a.1, b.1)
    })
}

/// The values of ranked items.
pub open spec fn ranks(items: Seq<(u64, String)>) -> Seq<Rank> {
    items.map_values(|p: (u64, String)| (p.0, p.1@))
}

/// No item ranks before an earlier one.
pub open spec fn rank_sorted(s: Seq<Rank>, names_desc: bool) -> bool {
    forall|i: int, j: int| 0 <= i < j < s.len() ==> !rank_before(#[trigger] s[j], #[trigger] s[i], names_desc)
}

proof fn lemma_rank_transitive(a: Rank, b: Rank, c: Rank, names_desc: bool)
    requires
        rank_before(a, b, names_desc),
        rank_before(b, c, names_desc),
    ensures
        rank_before(a, c, names_desc),
{
    if a.0 == b.0 && b.0 == c.0 {
        if names_desc {
            lemma_lex_transitive(c.1, b.1, a.1);
        } else {
            lemma_lex_transitive(a.1, b.1, c.1);
        }
    }
}

proof fn lemma_rank_asymmetric(a: Rank, b: Rank, names_desc: bool)
    requires
        rank_before(a, b, names_desc),
    ensures
        !rank_before(b, a, names_desc),
{
    if a.0 == b.0 && rank_before(b, a, names_desc) {
        if names_desc {
            lemma_lex_transitive(b.1, a.1, b.1);
            lemma_lex_irreflexive(b.1);
        } else {
            lemma_lex_transitive(a.1, b.1, a.1);
            lemma_lex_irreflexive(a.1);
        }
    }
}

fn ranks_before(a: &(u64, String), b: &(u64, String), names_desc: bool) -> (r: bool)
    ensures
        r == rank_before((a.0, a.1@), (b.0, b.1@), names_desc),
{
    if a.0 != b.0 {
        a.0 > b.0
    } else if names_desc {
        text_less(b.1.as_str(), a.1.as_str())
    } else {
        text_less(a.1.as_str(), b.1.as_str())
    }
}

fn insert_ranked(sorted: &mut Vec<(u64, String)>, x: (u64, String), names_desc: bool)
    requires
        rank_sorted(ranks(old(sorted)@), names_desc),
    ensures
        rank_sorted(ranks(final(sorted)@), names_desc),
        ranks(final(sorted)@).to_multiset() == ranks(old(sorted)@).to_multiset().insert((x.0, x.1@)),
{
    let ghost s = ranks(sorted@);
    let ghost xv = (x.0, x.1@);
    let mut p: usize = 0;
    while p < sorted.len()
        invariant_except_break
            p <= sorted@.len(),
            s == ranks(sorted@),
            xv == (x.0, x.1@),
            forall|t: int| 0 <= t < p ==> !rank_before(xv, #[trigger] s[t], names_desc),
        ensures
            p <= sorted@.len(),
            s == ranks(sorted@),
            xv == (x.0, x.1@),
            forall|t: int| 0 <= t < p ==> !rank_before(xv, #[trigger] s[t], names_desc),
            (p < sorted@.len()) ==> rank_before(xv, s[p as int], names_desc),
        decreases sorted@.len() - p,
    {
        assert(s[p as int] == (sorted@[p as int].0, sorted@[p as int].1@));
        let ahead = ranks_before(&x, &sorted[p], names_desc);
        assert(ahead == rank_before(xv, s[p as int], names_desc));
        if ahead {
            break;
        }
        p += 1;
    }
    let ghost before = sorted@;
    sorted.insert(p, x);
    proof {
        let s2 = ranks(sorted@);
        assert(s2 =~= s.insert(p as int, xv));
        s.insert_ensures(p as int, xv);
        assert forall|i: int, j: int| 0 <= i < j < s2.len() implies !rank_before(#[trigger] s2[j], #[trigger] s2[i], names_desc) by {
            if j < p {
                assert(s2[i] == s[i] && s2[j] == s[j]);
            } else if j == p {
                assert(s2[i] == s[i]);
            } else if i == p {
                // s2[j] == s[j - 1] and x ranks before s[p] (or p is the end, impossible here)
                assert(s2[j] == s[j - 1]);
                assert(rank_before(xv, s[p as int], names_desc));
                if rank_before(s[j - 1], xv, names_desc) {
                    lemma_rank_transitive(s[j - 1], xv, s[p as int], names_desc);
                    if j - 1 > p {
                        assert(!rank_before(s[j - 1], s[p as int], names_desc));
                    } else {
                        lemma_rank_asymmetric(xv, s[p as int], names_desc);
                    }
                }
            } else if i < p {
                assert(s2[i] == s[i]);
                assert(s2[j] == s[j - 1]);
            } else {
                assert(s2[i] == s[i - 1]);
                assert(s2[j] == s[j - 1]);
            }
        }
        to_multiset_insert(s, p as int, xv);
    }
}

/// `items` ordered by rank (see `rank_before`).
pub fn sort_ranks(items: Vec<(u64, String)>, names_desc: bool) -> (out: Vec<(u64, String)>)
    ensures
        rank_sorted(ranks(out@), names_desc),
        ranks(out@).to_multiset() == ranks(items@).to_multiset(),
        out@.len() == items@.len(),
{
    let ghost all = ranks(items@);
    let ghost n = items@.len();
    assert(n == items.len());
    let mut rest = items;
    let mut out: Vec<(u64, String)> = Vec::new();
    let mut i: usize = 0;
    assert(ranks(out@).to_multiset() =~= all.take(0).to_multiset()) by {
        assert(all.take(0) =~= Seq::<Rank>::empty());
        assert(ranks(out@) =~= Seq::<Rank>::empty());
    }
    while rest.len() > 0
        invariant
            i + rest@.len() == n,
            n == all.len(),
            n <= usize::MAX,
            ranks(rest@) == all.skip(i as int),
            rank_sorted(ranks(out@), names_desc),
            ranks(out@).to_multiset() == all.take(i as int).to_multiset(),
        decreases rest@.len(),
    {
        let ghost r0 = rest@;
        let x = rest.remove(0);
        assert(ranks(r0)[0] == (x.0, x.1@));
        assert(all[i as int] == (x.0, x.1@));
        insert_ranked(&mut out, x, names_desc);
        proof {
            assert(all.take(i + 1) =~= all.take(i as int).push(all[i as int]));
            lemma_multiset_push(all.take(i as int), all[i as int]);
            assert(ranks(rest@) =~= ranks(r0).drop_first());
            assert(all.skip(i as int).drop_first() =~= all.skip(i + 1));
        }
        i += 1;
    }
    assert(all.take(i as int) =~= all);
    proof {
        lemma_multiset_len(ranks(out@));
        lemma_multiset_len(all);
    }
    out
}

proof fn lemma_multiset_push(s: Seq<Rank>, x: Rank)
    ensures
        s.push(x).to_multiset() == s.to_multiset().insert(x),
{
    broadcast use vstd::seq_lib::group_to_multiset_ensures;
}

proof fn lemma_multiset_len(s: Seq<Rank>)
    ensures
        s.to_multiset().len() == s.len(),
{
    broadcast use vstd::seq_lib::group_to_multiset_ensures;
}


/// No two items share a name.
pub open spec fn distinct_names(s: Seq<Rank>) -> bool {
    forall|i: int, j: int| 0 <= i < j < s.len() ==> #[trigger] s[i].1 != #[trigger] s[j].1
}

/// `top` holds the `k` best-ranked items of `all` (all of them when there are fewer),
/// best first.
pub open spec fn ranked_top(top: Seq<Rank>, all: Seq<Rank>, k: nat, names_desc: bool) -> bool {
    &&& top.len() == if all.len() < k { all.len() } else { k }
    &&& forall|i: int| 0 <= i < top.len() ==> all.contains(#[trigger] top[i])
    &&& forall|i: int, j: int| 0 <= i < j < top.len() ==> rank_before(#[trigger] top[i], #[trigger] top[j], names_desc)
    &&& forall|x: Rank| #[trigger] all.contains(x) && !top.contains(x) && top.len() > 0 ==> rank_before(
        top.last(),
        x,
        names_desc,
    )
}

/// The `k` best-ranked of `items`, best first.
pub fn top_ranks(items: Vec<(u64, String)>, k: usize, names_desc: bool) -> (out: Vec<(u64, String)>)
    requires
        distinct_names(ranks(items@)),
    ensures
        ranked_top(ranks(out@), ranks(items@), k as nat, names_desc),
{
    let ghost r_in = ranks(items@);
    let mut sorted = sort_ranks(items, names_desc);
    let ghost r_s = ranks(sorted@);
    proof {
        broadcast use vstd::seq_lib::group_to_multiset_ensures;
        assert(r_in.no_duplicates()) by {
            assert forall|i: int, j: int| 0 <= i < r_in.len() && 0 <= j < r_in.len() && i != j implies r_in[i] != r_in[j] by {
                if i < j {
                    assert(r_in[i].1 != r_in[j].1);
                } else {
                    assert(r_in[j].1 != r_in[i].1);
                }
            }
        }
        r_in.lemma_multiset_has_no_duplicates();
        r_s.lemma_multiset_has_no_duplicates_conv();
        assert forall|x: Rank| r_s.contains(x) <==> r_in.contains(x) by {
            to_multiset_contains(r_s, x);
            to_multiset_contains(r_in, x);
        }
        assert forall|i: int, j: int| 0 <= i < j < r_s.len() implies rank_before(#[trigger] r_s[i], #[trigger] r_s[j], names_desc) by {
            assert(r_s.contains(r_s[i]));
            assert(r_s.contains(r_s[j]));
            let p = choose|p: int| 0 <= p < r_in.len() && r_in[p] == r_s[i];
            let q = choose|q: int| 0 <= q < r_in.len() && r_in[q] == r_s[j];
            assert(r_s[i] != r_s[j]);
            assert(p != q);
            if p < q {
                assert(r_in[p].1 != r_in[q].1);
            } else {
                assert(r_in[q].1 != r_in[p].1);
            }
            assert(!rank_before(r_s[j], r_s[i], names_desc));
            if r_s[i].0 == r_s[j].0 {
                lemma_lex_total(r_s[i].1, r_s[j].1);
            }
        }
    }
    if sorted.len() > k {
        sorted.truncate(k);
    }
    proof {
        let top = ranks(sorted@);
        assert(top =~= r_s.take(top.len() as int));
        assert forall|x: Rank| #[trigger] r_in.contains(x) && !top.contains(x) && top.len() > 0 implies rank_before(
            top.last(),
            x,
            names_desc,
        ) by {
            assert(r_s.contains(x));
            let p = choose|p: int| 0 <= p < r_s.len() && r_s[p] == x;
            if p < top.len() {
                assert(top[p] == x);
            }
            assert(r_s[top.len() - 1] == top.last());
            if top.len() - 1 < p {
                assert(rank_before(r_s[top.len() - 1], r_s[p], names_desc));
            }
        }
        assert forall|i: int| 0 <= i < top.len() implies r_in.contains(#[trigger] top[i]) by {
            assert(r_s.contains(r_s[i]));
        }
    }
    sorted
}

proof fn lemma_not_before_other(t1: Seq<Rank>, t2: Seq<Rank>, a1: Seq<Rank>, a2: Seq<Rank>, k: nat, d: bool, i: int)
    requires
        ranked_top(t1, a1, k, d),
        ranked_top(t2, a2, k, d),
        t1.len() == t2.len(),
        forall|x: Rank| a1.contains(x) ==> a2.contains(x),
        0 <= i < t1.len(),
        forall|j: int| 0 <= j < i ==> t1[j] == t2[j],
    ensures
        !rank_before(t1[i], t2[i], d),
{
    let a = t1[i];
    let b = t2[i];
    if rank_before(a, b, d) {
        assert(a1.contains(a));
        assert(a2.contains(a));
        if t2.contains(a) {
            let j = choose|j: int| 0 <= j < t2.len() && t2[j] == a;
            if j < i {
                assert(t1[j] == a);
                assert(rank_before(t1[j], t1[i], d));
                lemma_rank_asymmetric(a, a, d);
            } else if j == i {
                lemma_rank_asymmetric(a, a, d);
            } else {
                assert(rank_before(t2[i], t2[j], d));
                lemma_rank_asymmetric(a, b, d);
            }
        } else {
            let n = t2.len() - 1;
            assert(rank_before(t2.last(), a, d));
            if n == i {
                assert(t2.last() == b);
                lemma_rank_asymmetric(a, b, d);
            } else {
                assert(rank_before(t2[i], t2[n], d));
                assert(t2.last() == t2[n]);
                lemma_rank_transitive(b, t2.last(), a, d);
                lemma_rank_asymmetric(a, b, d);
            }
        }
    }
}

proof fn lemma_ranked_prefix(t1: Seq<Rank>, t2: Seq<Rank>, a1: Seq<Rank>, a2: Seq<Rank>, k: nat, d: bool, i: int)
    requires
        ranked_top(t1, a1, k, d),
        ranked_top(t2, a2, k, d),
        t1.len() == t2.len(),
        forall|x: Rank| a1.contains(x) <==> a2.contains(x),
        0 <= i <= t1.len(),
    ensures
        forall|j: int| 0 <= j < i ==> t1[j] == t2[j],
    decreases i,
{
    if i > 0 {
        lemma_ranked_prefix(t1, t2, a1, a2, k, d, i - 1);
        let m = i - 1;
        lemma_not_before_other(t1, t2, a1, a2, k, d, m);
        lemma_not_before_other(t2, t1, a2, a1, k, d, m);
        let a = t1[m];
        let b = t2[m];
        if a != b {
            if a.0 == b.0 {
                if a.1 == b.1 {
                    assert(a == b);
                }
                lemma_lex_total(a.1, b.1);
            }
        }
    }
}

/// The best-ranked items of a collection are determined by the collection: two ranked
/// tops of the same size over the same items are the same.
pub proof fn lemma_ranked_top_unique(t1: Seq<Rank>, t2: Seq<Rank>, a1: Seq<Rank>, a2: Seq<Rank>, k: nat, d: bool)
    requires
        ranked_top(t1, a1, k, d),
        ranked_top(t2, a2, k, d),
        a1.len() == a2.len(),
        forall|x: Rank| a1.contains(x) <==> a2.contains(x),
    ensures
        t1 == t2,
{
    lemma_ranked_prefix(t1, t2, a1, a2, k, d, t1.len() as int);
    assert(t1 =~= t2);
}

} // verus!
