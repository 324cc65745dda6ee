//! Turns a classifier's scores into a ranked list of symbol identifiers.

use crate::encoding::{base32_to_base64, reencode_base32_as_base64};
use crate::table::{lemma_id_determines_position, lemma_index_of, SymbolTable};
use vstd::prelude::*;

verus! {

/// A classifier's score for one symbol, which it names by the base32 form of
/// the symbol's identifier text. Keys order as distances do: lower is closer.
pub struct Score {
    pub id: String,
    pub key: u64,
}

/// The lowest key among `scores` that name the symbol at position `ix` of
/// `t`, or `None` when none names it.
#[verifier::opaque]
pub open spec fn best_key(t: &SymbolTable, scores: Seq<Score>, ix: int) -> Option<u64>
    decreases scores.len(),
{
    if scores.len() == 0 {
        None
    } else {
        let prev = best_key(t, scores.drop_last(), ix);
        let s = scores.last();
        if base32_to_base64(s.id@) == Some(t@[ix].spec_id()) {
            match prev {
                Some(k) => Some(if s.key < k { s.key } else { k }),
                None => Some(s.key),
            }
        } else {
            prev
        }
    }
}

/// Whether the symbol at position `a` comes before the one at `b`: both are
/// scored, and `a` has the lower best key, or the same key and the lower
/// position.
pub open spec fn ranks_before(t: &SymbolTable, scores: Seq<Score>, a: int, b: int) -> bool {
    match (best_key(t, scores, a), best_key(t, scores, b)) {
        (Some(ka), Some(kb)) => ka < kb || (ka == kb && a < b),
        _ => false,
    }
}

/// Whether `r` ranks the symbols of `t` that `scores` name: each such
/// symbol's identifier appears, nothing else does, and each identifier comes
/// before every later one by `ranks_before`, so none appears twice.
pub open spec fn is_ranking(t: &SymbolTable, scores: Seq<Score>, r: Seq<String>) -> bool {
    &&& forall|a: int| 0 <= a < r.len() ==> t.contains_id(#[trigger] r[a]@) && best_key(t, scores, t.index_of(r[a]@)) is Some
    &&& forall|ix: int| 0 <= ix < t@.len() && #[trigger] best_key(t, scores, ix) is Some
            ==> exists|a: int| 0 <= a < r.len() && #[trigger] r[a]@ == t@[ix].spec_id()
    &&& forall|a: int, b: int| 0 <= a < b < r.len() ==> ranks_before(t, scores, t.index_of(#[trigger] r[a]@), t.index_of(#[trigger] r[b]@))
}

/// Order of positions by the best keys in `best`, ties by position.
spec fn before_in(best: Seq<Option<u64>>, a: int, b: int) -> bool {
    best[a]->Some_0 < best[b]->Some_0 || (best[a]->Some_0 == best[b]->Some_0 && a < b)
}

/// The key at position `i` of `best`, which holds one.
fn key_at(best: &Vec<Option<u64>>, i: usize) -> (k: u64)
    requires
        i < best@.len(),
        best@[i as int] is Some,
    ensures
        best@[i as int] == Some(k),
{
    match best[i] {
        Some(k) => k,
        None => 0,
    }
}

/// The lowest key per symbol of `t`, position by position.
fn best_keys(t: &SymbolTable, scores: &Vec<Score>) -> (best: Vec<Option<u64>>)
    requires
        t.wf(),
    ensures
        best@.len() == t@.len(),
        forall|ix: int| 0 <= ix < t@.len() ==> #[trigger] best@[ix] == best_key(t, scores@, ix),
{
    let n = t.len();
    let mut best: Vec<Option<u64>> = Vec::new();
    let mut j: usize = 0;
    while j < n
        invariant
            j <= n,
            n == t@.len(),
            best@.len() == j,
            forall|ix: int| 0 <= ix < j ==> #[trigger] best@[ix] is None,
        decreases n - j,
    {
        best.push(None);
        j = j + 1;
    }
    let mut i: usize = 0;
    proof {
        reveal(best_key);
    }
    while i < scores.len()
        invariant
            t.wf(),
            n == t@.len(),
            i <= scores@.len(),
            best@.len() == n,
            forall|ix: int| 0 <= ix < n ==> #[trigger] best@[ix] == best_key(t, scores@.subrange(0, i as int), ix),
        decreases scores@.len() - i,
    {
        let s = &scores[i];
        let ghost prefix = scores@.subrange(0, i + 1);
        proof {
            reveal(best_key);
            assert(prefix.drop_last() =~= scores@.subrange(0, i as int));
            assert(prefix.last() == *s);
        }
        match reencode_base32_as_base64(s.id.as_str()) {
            Some(id) => match t.position_of(id.as_str()) {
                Some(ix) => {
                    let k = match best[ix] {
                        Some(old_key) => if s.key < old_key { s.key } else { old_key },
                        None => s.key,
                    };
                    best.set(ix, Some(k));
                    proof {
                        reveal(best_key);
                        assert forall|m: int| 0 <= m < n && m != ix implies #[trigger] best_key(t, prefix, m)
                            == best_key(t, scores@.subrange(0, i as int), m) by {
                            if base32_to_base64(s.id@) == Some(t@[m].spec_id()) {
                                lemma_id_determines_position(t, m, ix as int);
                            }
                        }
                    }
                },
                None => {},
            },
            None => {},
        }
        i = i + 1;
    }
    assert(scores@.subrange(0, scores@.len() as int) =~= scores@);
    best
}

/// The positions of `best` that hold a key, ordered by key and, among equal
/// keys, by position.
fn order_by_key(best: &Vec<Option<u64>>) -> (order: Vec<usize>)
    ensures
        forall|a: int| 0 <= a < order@.len() ==> #[trigger] order@[a] < best@.len() && best@[order@[a] as int] is Some,
        forall|m: int| 0 <= m < best@.len() && best@[m] is Some ==> exists|a: int|
            0 <= a < order@.len() && #[trigger] order@[a] == m,
        forall|a: int, b: int| 0 <= a < b < order@.len() ==> before_in(best@, #[trigger] order@[a] as int, #[trigger] order@[b] as int),
{
    let n = best.len();
    let mut order: Vec<usize> = Vec::new();
    let mut ix: usize = 0;
    while ix < n
        invariant
            ix <= n,
            n == best@.len(),
            forall|a: int| 0 <= a < order@.len() ==> #[trigger] order@[a] < ix && best@[order@[a] as int] is Some,
            forall|m: int| 0 <= m < ix && best@[m] is Some ==> exists|a: int|
                0 <= a < order@.len() && #[trigger] order@[a] == m,
            forall|a: int, b: int| 0 <= a < b < order@.len() ==> before_in(best@, #[trigger] order@[a] as int, #[trigger] order@[b] as int),
        decreases n - ix,
    {
        match best[ix] {
            Some(k) => {
                let mut p: usize = 0;
                while p < order.len() && key_at(&best, order[p]) <= k
                    invariant
                        p <= order@.len(),
                        ix < n,
                        n == best@.len(),
                        best@[ix as int] == Some(k),
                        forall|a: int| 0 <= a < order@.len() ==> #[trigger] order@[a] < ix && best@[order@[a] as int] is Some,
                        forall|a: int| 0 <= a < p ==> (#[trigger] best@[order@[a] as int])->Some_0 <= k,
                    decreases order@.len() - p,
                {
                    p = p + 1;
                }
                let ghost old_order = order@;
                order.insert(p, ix);
                proof {
                    assert(order@ == old_order.insert(p as int, ix));
                    assert forall|a: int, b: int| 0 <= a < b < order@.len() implies before_in(best@, #[trigger] order@[a] as int, #[trigger] order@[b] as int) by {
                        if a < p && b == p {
                        } else if a == p && b > p {
                            let q = old_order[p as int];
                            if b - 1 > p {
                                assert(before_in(best@, q as int, old_order[b - 1] as int));
                            }
                        } else if a < p && b > p {
                            assert(before_in(best@, old_order[a] as int, old_order[b - 1] as int));
                        } else if b < p {
                            assert(before_in(best@, old_order[a] as int, old_order[b] as int));
                        } else {
                            assert(before_in(best@, old_order[a - 1] as int, old_order[b - 1] as int));
                        }
                    }
                    assert forall|m: int| 0 <= m < ix + 1 && best@[m] is Some implies exists|a: int|
                        0 <= a < order@.len() && #[trigger] order@[a] == m by {
                        if m == ix {
                            assert(order@[p as int] == m);
                        } else {
                            let a = choose|a: int| 0 <= a < old_order.len() && #[trigger] old_order[a] == m;
                            if a < p {
                                assert(order@[a] == m);
                            } else {
                                assert(order@[a + 1] == m);
                            }
                        }
                    }
                }
            },
            None => {},
        }
        ix = ix + 1;
    }
    order
}

/// What `rank` returns, from the keys per position and their order.
proof fn lemma_ranked(t: &SymbolTable, scores: Seq<Score>, best: Seq<Option<u64>>, order: Seq<usize>, r: Seq<String>)
    requires
        t.wf(),
        best.len() == t@.len(),
        forall|ix: int| 0 <= ix < t@.len() ==> #[trigger] best[ix] == best_key(t, scores, ix),
        forall|a: int| 0 <= a < order.len() ==> #[trigger] order[a] < best.len() && best[order[a] as int] is Some,
        forall|m: int| 0 <= m < best.len() && best[m] is Some ==> exists|a: int|
            0 <= a < order.len() && #[trigger] order[a] == m,
        forall|a: int, b: int| 0 <= a < b < order.len() ==> before_in(best, #[trigger] order[a] as int, #[trigger] order[b] as int),
        r.len() == order.len(),
        forall|c: int| 0 <= c < order.len() ==> #[trigger] r[c]@ == t@[order[c] as int].spec_id(),
    ensures
        forall|a: int| 0 <= a < r.len() ==> t.contains_id(#[trigger] r[a]@) && best_key(t, scores, t.index_of(r[a]@)) is Some,
        forall|ix: int| 0 <= ix < t@.len() && #[trigger] best_key(t, scores, ix) is Some
            ==> exists|a: int| 0 <= a < r.len() && #[trigger] r[a]@ == t@[ix].spec_id(),
        forall|a: int, b: int| 0 <= a < b < r.len() ==> ranks_before(t, scores, t.index_of(#[trigger] r[a]@), t.index_of(#[trigger] r[b]@)),
{
    assert forall|a: int| 0 <= a < r.len() implies t.contains_id(#[trigger] r[a]@) && best_key(t, scores, t.index_of(r[a]@)) is Some by {
        let ix = order[a] as int;
        lemma_index_of(t, ix);
        assert(best[ix] == best_key(t, scores, ix));
    }
    assert forall|a: int, b: int| 0 <= a < b < r.len() implies ranks_before(t, scores, t.index_of(#[trigger] r[a]@), t.index_of(#[trigger] r[b]@)) by {
        let ia = order[a] as int;
        let ib = order[b] as int;
        lemma_index_of(t, ia);
        lemma_index_of(t, ib);
        assert(before_in(best, ia, ib));
        assert(best[ia] == best_key(t, scores, ia));
        assert(best[ib] == best_key(t, scores, ib));
    }
    assert forall|ix: int| 0 <= ix < t@.len() && #[trigger] best_key(t, scores, ix) is Some implies
        exists|a: int| 0 <= a < r.len() && #[trigger] r[a]@ == t@[ix].spec_id() by {
        assert(best[ix] is Some);
        let a = choose|a: int| 0 <= a < order.len() && #[trigger] order[a] == ix;
        assert(r[a]@ == t@[ix].spec_id());
    }
}

/// Ranks the symbols of `t` that `scores` name: each appears once, by its
/// identifier, ordered by its lowest key and, among equal keys, by its
/// position in the table.
pub fn rank(t: &SymbolTable, scores: &Vec<Score>) -> (r: Vec<String>)
    requires
        t.wf(),
    ensures
        is_ranking(t, scores@, r@),
{
    let best = best_keys(t, scores);
    let n = best.len();
    let order = order_by_key(&best);
    let mut r: Vec<String> = Vec::new();
    let mut a: usize = 0;
    while a < order.len()
        invariant
            t.wf(),
            n == t@.len(),
            a <= order@.len(),
            r@.len() == a,
            forall|c: int| 0 <= c < order@.len() ==> #[trigger] order@[c] < n,
            forall|c: int| 0 <= c < a ==> #[trigger] r@[c]@ == t@[order@[c] as int].spec_id(),
        decreases order@.len() - a,
    {
        let id = t.id_at(order[a]).clone();
        r.push(id);
        a = a + 1;
    }
    proof {
        lemma_ranked(t, scores@, best@, order@, r@);
    }
    r
}

/// Two sequences of positions, both strictly ordered by `ranks_before` and
/// holding the same positions, are equal.
proof fn lemma_sorted_positions_equal(t: &SymbolTable, scores: Seq<Score>, p1: Seq<int>, p2: Seq<int>)
    requires
        forall|a: int, b: int| 0 <= a < b < p1.len() ==> ranks_before(t, scores, #[trigger] p1[a], #[trigger] p1[b]),
        forall|a: int, b: int| 0 <= a < b < p2.len() ==> ranks_before(t, scores, #[trigger] p2[a], #[trigger] p2[b]),
        forall|x: int| p1.contains(x) <==> p2.contains(x),
    ensures
        p1 == p2,
    decreases p1.len(),
{
    if p1.len() == 0 {
        if p2.len() > 0 {
            assert(p2.contains(p2[0]));
        }
        assert(p1 =~= p2);
    } else {
        assert(p1.contains(p1[0]));
        assert(p2.len() > 0);
        assert(p2.contains(p2[0]));
        if p1[0] != p2[0] {
            let b = choose|b: int| 0 <= b < p2.len() && p2[b] == p1[0];
            let a = choose|a: int| 0 <= a < p1.len() && p1[a] == p2[0];
            assert(ranks_before(t, scores, p2[0], p2[b]));
            assert(ranks_before(t, scores, p1[0], p1[a]));
        }
        let q1 = p1.drop_first();
        let q2 = p2.drop_first();
        assert forall|x: int| q1.contains(x) implies q2.contains(x) by {
            let i = choose|i: int| 0 <= i < q1.len() && q1[i] == x;
            assert(ranks_before(t, scores, p1[0], p1[i + 1]));
            assert(p2.contains(x));
            let j = choose|j: int| 0 <= j < p2.len() && p2[j] == x;
            assert(j != 0);
            assert(q2[j - 1] == x);
        }
        assert forall|x: int| q2.contains(x) implies q1.contains(x) by {
            let i = choose|i: int| 0 <= i < q2.len() && q2[i] == x;
            assert(ranks_before(t, scores, p2[0], p2[i + 1]));
            assert(p1.contains(x));
            let j = choose|j: int| 0 <= j < p1.len() && p1[j] == x;
            assert(j != 0);
            assert(q1[j - 1] == x);
        }
        assert forall|a: int, b: int| 0 <= a < b < q1.len() implies ranks_before(t, scores, #[trigger] q1[a], #[trigger] q1[b]) by {
            assert(ranks_before(t, scores, p1[a + 1], p1[b + 1]));
        }
        assert forall|a: int, b: int| 0 <= a < b < q2.len() implies ranks_before(t, scores, #[trigger] q2[a], #[trigger] q2[b]) by {
            assert(ranks_before(t, scores, p2[a + 1], p2[b + 1]));
        }
        lemma_sorted_positions_equal(t, scores, q1, q2);
        assert(p1 =~= seq![p1[0]] + q1);
        assert(p2 =~= seq![p2[0]] + q2);
    }
}

/// The positions in the table of the identifiers of a ranking.
spec fn ranked_positions(t: &SymbolTable, r: Seq<String>) -> Seq<int> {
    Seq::new(r.len(), |a: int| t.index_of(r[a]@))
}

/// Facts on the positions of a ranking: each names its identifier, they
/// are strictly ordered, and they are exactly the scored positions.
proof fn lemma_ranked_positions(t: &SymbolTable, scores: Seq<Score>, r: Seq<String>)
    requires
        t.wf(),
        is_ranking(t, scores, r),
    ensures
        forall|a: int| 0 <= a < r.len() ==> #[trigger] r[a]@ == t@[ranked_positions(t, r)[a]].spec_id(),
        forall|a: int, b: int| 0 <= a < b < r.len() ==> ranks_before(t, scores, #[trigger] ranked_positions(t, r)[a], #[trigger] ranked_positions(t, r)[b]),
        forall|x: int| ranked_positions(t, r).contains(x) <==> (0 <= x < t@.len() && best_key(t, scores, x) is Some),
{
    let p = ranked_positions(t, r);
    assert forall|a: int| 0 <= a < r.len() implies #[trigger] r[a]@ == t@[p[a]].spec_id() by {
        assert(t.contains_id(r[a]@));
    }
    assert forall|a: int, b: int| 0 <= a < b < r.len() implies ranks_before(t, scores, #[trigger] p[a], #[trigger] p[b]) by {
        assert(ranks_before(t, scores, t.index_of(r[a]@), t.index_of(r[b]@)));
    }
    assert forall|x: int| p.contains(x) <==> (0 <= x < t@.len() && best_key(t, scores, x) is Some) by {
        if p.contains(x) {
            let a = choose|a: int| 0 <= a < p.len() && p[a] == x;
            assert(t.contains_id(r[a]@));
            assert(best_key(t, scores, t.index_of(r[a]@)) is Some);
        }
        if 0 <= x < t@.len() && best_key(t, scores, x) is Some {
            let a = choose|a: int| 0 <= a < r.len() && #[trigger] r[a]@ == t@[x].spec_id();
            lemma_index_of(t, x);
            assert(p[a] == x);
        }
    }
}

/// Ranking is deterministic: any two rankings of the same scores against the
/// same table list the same identifiers in the same order, ties included.
pub proof fn lemma_ranking_unique(t: &SymbolTable, scores: Seq<Score>, r1: Seq<String>, r2: Seq<String>)
    requires
        t.wf(),
        is_ranking(t, scores, r1),
        is_ranking(t, scores, r2),
    ensures
        r1.len() == r2.len(),
        forall|a: int| 0 <= a < r1.len() ==> #[trigger] r1[a]@ == r2[a]@,
{
    lemma_ranked_positions(t, scores, r1);
    lemma_ranked_positions(t, scores, r2);
    let p1 = ranked_positions(t, r1);
    let p2 = ranked_positions(t, r2);
    assert forall|x: int| p1.contains(x) <==> p2.contains(x) by {}
    lemma_sorted_positions_equal(t, scores, p1, p2);
    assert(p1.len() == r1.len());
    assert(p2.len() == r2.len());
    assert forall|a: int| 0 <= a < r1.len() implies #[trigger] r1[a]@ == r2[a]@ by {
        assert(r1[a]@ == t@[p1[a]].spec_id());
        assert(r2[a]@ == t@[p2[a]].spec_id());
    }
}

/// A symbol whose lowest key is the least of all the scored symbols' is
/// ranked, and only symbols with the same lowest key come before it; when
/// its key is strictly the least, it comes first.
pub proof fn lemma_closest_ranks_first(t: &SymbolTable, scores: Seq<Score>, r: Seq<String>, ix: int)
    requires
        t.wf(),
        is_ranking(t, scores, r),
        0 <= ix < t@.len(),
        best_key(t, scores, ix) is Some,
        forall|j: int| 0 <= j < t@.len() && #[trigger] best_key(t, scores, j) is Some
            ==> best_key(t, scores, ix)->Some_0 <= best_key(t, scores, j)->Some_0,
    ensures
        exists|a: int| 0 <= a < r.len() && #[trigger] r[a]@ == t@[ix].spec_id() && forall|b: int|
            0 <= b < a ==> best_key(t, scores, t.index_of(#[trigger] r[b]@)) == best_key(t, scores, ix),
{
    let a = choose|a: int| 0 <= a < r.len() && #[trigger] r[a]@ == t@[ix].spec_id();
    lemma_index_of(t, ix);
    assert forall|b: int| 0 <= b < a implies best_key(t, scores, t.index_of(#[trigger] r[b]@)) == best_key(t, scores, ix) by {
        let jb = t.index_of(r[b]@);
        assert(t.contains_id(r[b]@));
        assert(best_key(t, scores, jb) is Some);
        assert(ranks_before(t, scores, t.index_of(r[b]@), t.index_of(r[a]@)));
    }
}

} // verus!
