//! Why gossip converges: a merge that commutes and absorbs repeats gives a
//! result that depends only on which payloads arrived, not on their order or
//! on how often each arrived.

use vstd::prelude::*;
use vstd::seq_lib::seq_to_set_is_finite;
use vstd::set::fold::{is_fun_commutative, lemma_fold_empty, lemma_fold_insert};

verus! {

/// Merging two payloads in either order gives the same state.
pub open spec fn merge_commutes<S, G>(f: spec_fn(S, G) -> S) -> bool {
    forall|a: G, b: G, s: S| #[trigger] f(f(s, b), a) == f(f(s, a), b)
}

/// Merging a payload a second time changes nothing.
pub open spec fn merge_idempotent<S, G>(f: spec_fn(S, G) -> S) -> bool {
    forall|s: S, a: G| #[trigger] f(f(s, a), a) == f(s, a)
}

/// The state after merging the payloads of `gs` into `s`, first to last.
pub open spec fn merge_all<S, G>(s: S, gs: Seq<G>, f: spec_fn(S, G) -> S) -> S {
    gs.fold_left(s, f)
}

/// Merging a sequence of payloads is folding the set of them.
pub proof fn lemma_merge_all_is_set_fold<S, G>(s: S, gs: Seq<G>, f: spec_fn(S, G) -> S)
    requires
        merge_commutes(f),
        merge_idempotent(f),
    ensures
        merge_all(s, gs, f) == gs.to_set().fold(s, f),
    decreases gs.len(),
{
    assert(is_fun_commutative(f));
    if gs.len() == 0 {
        assert(gs.to_set() =~= Set::<G>::empty());
        lemma_fold_empty(s, f);
    } else {
        let rest = gs.drop_last();
        let g = gs.last();
        lemma_merge_all_is_set_fold(s, rest, f);
        assert(gs =~= rest.push(g));
        rest.lemma_push_to_set_commute(g);
        let set = rest.to_set();
        seq_to_set_is_finite(rest);
        if set.contains(g) {
            // The payload arrived before: folding it in again is absorbed.
            let without = set.remove(g);
            lemma_fold_insert(without, s, f, g);
            assert(without.insert(g) =~= set);
            assert(set.insert(g) =~= set);
            assert(f(f(without.fold(s, f), g), g) == f(without.fold(s, f), g));
        } else {
            lemma_fold_insert(set, s, f, g);
        }
    }
}

/// Any two sequences holding the same payloads, in whatever order and
/// repetition, merge to the same state.
pub proof fn lemma_merge_order_free<S, G>(s: S, gs1: Seq<G>, gs2: Seq<G>, f: spec_fn(S, G) -> S)
    requires
        merge_commutes(f),
        merge_idempotent(f),
        gs1.to_set() == gs2.to_set(),
    ensures
        merge_all(s, gs1, f) == merge_all(s, gs2, f),
{
    lemma_merge_all_is_set_fold(s, gs1, f);
    lemma_merge_all_is_set_fold(s, gs2, f);
}

/// `f` joins states: among the states that satisfy `valid` it is closed,
/// commutative, associative and idempotent.
pub open spec fn is_join<S>(f: spec_fn(S, S) -> S, valid: spec_fn(S) -> bool) -> bool {
    &&& forall|a: S, b: S| valid(a) && valid(b) ==> #[trigger] valid(f(a, b))
    &&& forall|a: S, b: S| valid(a) && valid(b) ==> #[trigger] f(a, b) == f(b, a)
    &&& forall|a: S, b: S, c: S|
        valid(a) && valid(b) && valid(c) ==> #[trigger] f(f(a, b), c) == f(a, f(b, c))
    &&& forall|a: S| valid(a) ==> #[trigger] f(a, a) == a
}

/// `x` is below `y`: joining `x` into `y` changes nothing.
pub open spec fn below<S>(f: spec_fn(S, S) -> S, x: S, y: S) -> bool {
    f(y, x) == y
}

/// The join of all states of `xs`, which is not empty.
pub open spec fn join_all<S>(xs: Seq<S>, f: spec_fn(S, S) -> S) -> S
    decreases xs.len(),
{
    if xs.len() <= 1 {
        xs[0]
    } else {
        f(join_all(xs.drop_last(), f), xs.last())
    }
}

/// The states after full-state gossip along `edges`, first to last: along
/// edge `(a, b)`, `b` joins in the whole state of `a`.
pub open spec fn exchange_all<S>(nodes: Seq<S>, edges: Seq<(int, int)>, f: spec_fn(S, S) -> S) -> Seq<S>
    decreases edges.len(),
{
    if edges.len() == 0 {
        nodes
    } else {
        let s = exchange_all(nodes, edges.drop_last(), f);
        let (a, b) = edges.last();
        s.update(b, f(s[b], s[a]))
    }
}

proof fn lemma_below_trans<S>(f: spec_fn(S, S) -> S, valid: spec_fn(S) -> bool, x: S, y: S, z: S)
    requires
        is_join(f, valid),
        valid(x),
        valid(y),
        valid(z),
        below(f, x, y),
        below(f, y, z),
    ensures
        below(f, x, z),
{
    assert(f(f(z, y), x) == f(z, f(y, x)));
}

/// The join of all states is valid, above each of them, and below any valid
/// state above each of them.
proof fn lemma_join_all<S>(xs: Seq<S>, f: spec_fn(S, S) -> S, valid: spec_fn(S) -> bool, ub: S)
    requires
        is_join(f, valid),
        xs.len() > 0,
        forall|i: int| 0 <= i < xs.len() ==> valid(#[trigger] xs[i]),
        valid(ub),
    ensures
        valid(join_all(xs, f)),
        forall|i: int| 0 <= i < xs.len() ==> below(f, #[trigger] xs[i], join_all(xs, f)),
        (forall|i: int| 0 <= i < xs.len() ==> below(f, #[trigger] xs[i], ub)) ==> below(
            f,
            join_all(xs, f),
            ub,
        ),
    decreases xs.len(),
{
    if xs.len() > 1 {
        let rest = xs.drop_last();
        let x = xs.last();
        assert(x == xs[xs.len() - 1]);
        assert forall|i: int| 0 <= i < rest.len() implies valid(#[trigger] rest[i]) by {
            assert(rest[i] == xs[i]);
        }
        lemma_join_all(rest, f, valid, ub);
        let jr = join_all(rest, f);
        let j = f(jr, x);
        assert(below(f, x, j)) by {
            assert(f(f(jr, x), x) == f(jr, f(x, x)));
        }
        assert forall|i: int| 0 <= i < xs.len() implies below(f, #[trigger] xs[i], j) by {
            if i < xs.len() - 1 {
                assert(rest[i] == xs[i]);
                assert(below(f, jr, j)) by {
                    assert(f(f(jr, x), jr) == f(jr, f(x, jr)));
                    assert(f(x, jr) == f(jr, x));
                    assert(f(jr, f(jr, x)) == f(f(jr, jr), x));
                }
                lemma_below_trans(f, valid, xs[i], jr, j);
            }
        }
        if forall|i: int| 0 <= i < xs.len() ==> below(f, #[trigger] xs[i], ub) {
            assert forall|i: int| 0 <= i < rest.len() implies below(f, #[trigger] rest[i], ub) by {
                assert(rest[i] == xs[i]);
            }
            assert(below(f, x, ub));
            assert(f(ub, f(jr, x)) == f(f(ub, jr), x));
        }
    }
}

/// Full-state gossip along any edges keeps states valid and below `top`,
/// only raises them, and along each edge leaves the receiver above what the
/// sender held at the start.
proof fn lemma_exchange_all<S>(
    nodes: Seq<S>,
    edges: Seq<(int, int)>,
    f: spec_fn(S, S) -> S,
    valid: spec_fn(S) -> bool,
    top: S,
)
    requires
        is_join(f, valid),
        valid(top),
        forall|i: int| 0 <= i < nodes.len() ==> valid(#[trigger] nodes[i]) && below(f, nodes[i], top),
        forall|i: int|
            0 <= i < edges.len() ==> 0 <= #[trigger] edges[i].0 < nodes.len() && 0 <= edges[i].1
                < nodes.len(),
    ensures
        exchange_all(nodes, edges, f).len() == nodes.len(),
        forall|i: int|
            0 <= i < nodes.len() ==> valid(#[trigger] exchange_all(nodes, edges, f)[i]) && below(
                f,
                exchange_all(nodes, edges, f)[i],
                top,
            ) && below(f, nodes[i], exchange_all(nodes, edges, f)[i]),
        forall|j: int|
            0 <= j < edges.len() ==> below(
                f,
                nodes[#[trigger] edges[j].0],
                exchange_all(nodes, edges, f)[edges[j].1],
            ),
    decreases edges.len(),
{
    if edges.len() == 0 {
        assert forall|i: int| 0 <= i < nodes.len() implies below(f, nodes[i], nodes[i]) by {}
    } else {
        let rest = edges.drop_last();
        assert forall|i: int| 0 <= i < rest.len() implies 0 <= #[trigger] rest[i].0 < nodes.len()
            && 0 <= rest[i].1 < nodes.len() by {
            assert(rest[i] == edges[i]);
        }
        lemma_exchange_all(nodes, rest, f, valid, top);
        let s = exchange_all(nodes, rest, f);
        let (a, b) = edges.last();
        assert(edges.last() == edges[edges.len() - 1]);
        let nb = f(s[b], s[a]);
        let t = exchange_all(nodes, edges, f);
        assert(t == s.update(b, nb));
        assert(valid(nb));
        assert(below(f, nb, top)) by {
            assert(f(top, f(s[b], s[a])) == f(f(top, s[b]), s[a]));
        }
        assert(below(f, s[b], nb)) by {
            assert(f(f(s[b], s[a]), s[b]) == f(s[b], f(s[a], s[b])));
            assert(f(s[a], s[b]) == f(s[b], s[a]));
            assert(f(s[b], f(s[b], s[a])) == f(f(s[b], s[b]), s[a]));
        }
        assert(below(f, s[a], nb)) by {
            assert(f(f(s[b], s[a]), s[a]) == f(s[b], f(s[a], s[a])));
        }
        assert forall|i: int| 0 <= i < nodes.len() implies valid(#[trigger] t[i]) && below(f, t[i], top)
            && below(f, nodes[i], t[i]) by {
            if i == b {
                lemma_below_trans(f, valid, nodes[i], s[i], t[i]);
            }
        }
        assert forall|j: int| 0 <= j < edges.len() implies below(
            f,
            nodes[#[trigger] edges[j].0],
            t[edges[j].1],
        ) by {
            if j == edges.len() - 1 {
                lemma_below_trans(f, valid, nodes[a], s[a], nb);
            } else {
                assert(rest[j] == edges[j]);
                let c = edges[j].1;
                if c == b {
                    lemma_below_trans(f, valid, nodes[edges[j].0], s[c], nb);
                }
            }
        }
    }
}

/// Convergence of full-state gossip: once every node has sent its whole
/// state to every other node, in any order, every node holds the join of
/// all the states the nodes started from.
pub proof fn lemma_full_state_converges<S>(
    nodes: Seq<S>,
    edges: Seq<(int, int)>,
    f: spec_fn(S, S) -> S,
    valid: spec_fn(S) -> bool,
)
    requires
        is_join(f, valid),
        nodes.len() > 0,
        forall|i: int| 0 <= i < nodes.len() ==> valid(#[trigger] nodes[i]),
        forall|i: int|
            0 <= i < edges.len() ==> 0 <= #[trigger] edges[i].0 < nodes.len() && 0 <= edges[i].1
                < nodes.len(),
        forall|a: int, b: int|
            0 <= a < nodes.len() && 0 <= b < nodes.len() && a != b ==> #[trigger] edges.contains(
                (a, b),
            ),
    ensures
        forall|b: int| 0 <= b < nodes.len() ==> #[trigger] exchange_all(nodes, edges, f)[b] == join_all(nodes, f),
{
    let top = join_all(nodes, f);
    lemma_join_all(nodes, f, valid, nodes[0]);
    lemma_exchange_all(nodes, edges, f, valid, top);
    let t = exchange_all(nodes, edges, f);
    assert forall|b: int| 0 <= b < nodes.len() implies #[trigger] exchange_all(nodes, edges, f)[b] == top by {
        assert forall|a: int| 0 <= a < nodes.len() implies below(f, #[trigger] nodes[a], t[b]) by {
            if a != b {
                assert(edges.contains((a, b)));
                let j = choose|j: int| 0 <= j < edges.len() && edges[j] == (a, b);
                assert(below(f, nodes[edges[j].0], t[edges[j].1]));
            }
        }
        lemma_join_all(nodes, f, valid, t[b]);
        assert(f(t[b], top) == f(top, t[b]));
    }
}

} // verus!
