//! The mathematical model of a router: a map from edge paths to entries,
//! and what adding a pattern and recognizing a path mean on it.
use vstd::prelude::*;
use crate::segments::{is_catch_all, is_param, pattern_segments, split, wild_names};

verus! {

/// One step down the trie: to a static child with its text, to the
/// parameter child, or to the catch-all child.
pub ghost enum Edge {
    Lit(Seq<char>),
    Param,
    CatchAll,
}

/// What a node holds: the value of the route that ends there, and the
/// names bound on the way to it.
pub ghost struct Entry<T> {
    pub data: Option<T>,
    pub names: Seq<Seq<char>>,
}

/// What a node made on the way to another holds: nothing.
pub open spec fn empty_entry<T>() -> Entry<T> {
    Entry { data: None, names: seq![] }
}

/// The edge a pattern segment leads along.
pub open spec fn edge_of(seg: Seq<char>) -> Edge {
    if is_param(seg) {
        Edge::Param
    } else if is_catch_all(seg) {
        Edge::CatchAll
    } else {
        Edge::Lit(seg)
    }
}

/// The edges a sequence of pattern segments leads along.
pub open spec fn edges_of(segs: Seq<Seq<char>>) -> Seq<Edge> {
    segs.map_values(|s: Seq<char>| edge_of(s))
}

/// The node a pattern ends at, as a key of the model.
pub open spec fn route_key(r: Seq<char>) -> Seq<Edge> {
    edges_of(pattern_segments(r))
}

/// The names a pattern binds, in order.
pub open spec fn route_names(r: Seq<char>) -> Seq<Seq<char>> {
    wild_names(pattern_segments(r))
}

/// How many parameter and catch-all edges `es` has.
pub open spec fn wild_count(es: Seq<Edge>) -> nat
    decreases es.len(),
{
    if es.len() == 0 {
        0
    } else if es.last() is Lit {
        wild_count(es.drop_last())
    } else {
        wild_count(es.drop_last()) + 1
    }
}

/// `a` is a prefix of `b`.
pub open spec fn is_prefix(a: Seq<Edge>, b: Seq<Edge>) -> bool {
    a.len() <= b.len() && b.take(a.len() as int) == a
}

/// `m` with every prefix of `es` present, new nodes holding nothing.
pub open spec fn grown<T>(m: Map<Seq<Edge>, Entry<T>>, es: Seq<Edge>) -> Map<Seq<Edge>, Entry<T>> {
    Map::new(
        |k: Seq<Edge>| m.contains_key(k) || is_prefix(k, es),
        |k: Seq<Edge>| if m.contains_key(k) { m[k] } else { empty_entry() },
    )
}

/// The part of `m` below `at`, keyed from `at`.
pub open spec fn subtree<T>(m: Map<Seq<Edge>, Entry<T>>, at: Seq<Edge>) -> Map<Seq<Edge>, Entry<T>> {
    Map::new(|k: Seq<Edge>| m.contains_key(at + k), |k: Seq<Edge>| m[at + k])
}

/// `m` with the part below `at` replaced by `sub`.
pub open spec fn graft<T>(
    m: Map<Seq<Edge>, Entry<T>>,
    at: Seq<Edge>,
    sub: Map<Seq<Edge>, Entry<T>>,
) -> Map<Seq<Edge>, Entry<T>> {
    Map::new(
        |k: Seq<Edge>|
            if is_prefix(at, k) {
                sub.contains_key(k.skip(at.len() as int))
            } else {
                m.contains_key(k)
            },
        |k: Seq<Edge>|
            if is_prefix(at, k) {
                sub[k.skip(at.len() as int)]
            } else {
                m[k]
            },
    )
}

/// Edge `i` of `es` is a parameter where a catch-all hangs, or the reverse.
pub open spec fn clash_at<T>(m: Map<Seq<Edge>, Entry<T>>, es: Seq<Edge>, i: int) -> bool {
    ||| es[i] is Param && m.contains_key(es.take(i).push(Edge::CatchAll))
    ||| es[i] is CatchAll && m.contains_key(es.take(i).push(Edge::Param))
}

/// A parameter and a catch-all would both hang below one node.
pub open spec fn kind_clash<T>(m: Map<Seq<Edge>, Entry<T>>, es: Seq<Edge>) -> bool {
    exists|i: int| 0 <= i < es.len() && #[trigger] clash_at(m, es, i)
}

/// The node already records other names than those given.
pub open spec fn name_clash<T>(m: Map<Seq<Edge>, Entry<T>>, es: Seq<Edge>, names: Seq<Seq<char>>) -> bool {
    m.contains_key(es) && m[es].names.len() > 0 && m[es].names != names
}

/// Adding pattern `r` to `m` fails with a conflict.
pub open spec fn conflicts<T>(m: Map<Seq<Edge>, Entry<T>>, r: Seq<char>) -> bool {
    kind_clash(m, route_key(r)) || name_clash(m, route_key(r), route_names(r))
}

/// `m` after pattern `r` is added with value `v`.
pub open spec fn added<T>(m: Map<Seq<Edge>, Entry<T>>, r: Seq<char>, v: T) -> Map<Seq<Edge>, Entry<T>> {
    grown(m, route_key(r)).insert(route_key(r), Entry { data: Some(v), names: route_names(r) })
}

/// Segments joined with `/`.
pub open spec fn join(s: Seq<Seq<char>>) -> Seq<char>
    decreases s.len(),
{
    if s.len() == 0 {
        seq![]
    } else if s.len() == 1 {
        s[0]
    } else {
        join(s.drop_last()) + seq!['/'] + s.last()
    }
}

/// The walk of path segments `segs[j..]` from the node at `at`, with the
/// values `vals` captured so far: the node where it ends and all values
/// captured, or `None` where a segment finds no child.
pub open spec fn walk<T>(
    m: Map<Seq<Edge>, Entry<T>>,
    at: Seq<Edge>,
    segs: Seq<Seq<char>>,
    j: int,
    vals: Seq<Seq<char>>,
) -> Option<(Seq<Edge>, Seq<Seq<char>>)>
    decreases segs.len() - j,
{
    if j < 0 || j >= segs.len() {
        Some((at, vals))
    } else {
        let seg = segs[j];
        if seg.len() == 0 {
            walk(m, at, segs, j + 1, vals)
        } else if m.contains_key(at.push(Edge::Lit(seg))) {
            walk(m, at.push(Edge::Lit(seg)), segs, j + 1, vals)
        } else if m.contains_key(at.push(Edge::Param)) {
            walk(m, at.push(Edge::Param), segs, j + 1, vals.push(seg))
        } else if m.contains_key(at.push(Edge::CatchAll)) {
            Some((at.push(Edge::CatchAll), vals.push(join(segs.skip(j)))))
        } else {
            None
        }
    }
}

/// Pairs of `a` and `b` in order, as many as the shorter has.
pub open spec fn zip(a: Seq<Seq<char>>, b: Seq<Seq<char>>) -> Seq<(Seq<char>, Seq<char>)> {
    Seq::new(
        if a.len() <= b.len() { a.len() } else { b.len() },
        |i: int| (a[i], b[i]),
    )
}

/// The path with the empty path read as `/`.
pub open spec fn normalized(p: Seq<char>) -> Seq<char> {
    if p.len() == 0 { seq!['/'] } else { p }
}

/// What recognizing path `p` gives on `m`: the value of the route reached
/// and the names paired with the values captured.
pub open spec fn recognized<T>(m: Map<Seq<Edge>, Entry<T>>, p: Seq<char>) -> Option<
    (T, Seq<(Seq<char>, Seq<char>)>),
> {
    let p = normalized(p);
    if p[0] != '/' {
        None
    } else {
        match walk(m, seq![], split(p.skip(1)), 0, seq![]) {
            Some((k, vals)) => if m.contains_key(k) && m[k].data is Some {
                Some((m[k].data->0, zip(m[k].names, vals)))
            } else {
                None
            },
            None => None,
        }
    }
}

/// Wildcards counted along an edge: one for a parameter or catch-all.
pub open spec fn depth_after(e: Edge, w: nat) -> nat {
    if e is Lit {
        w
    } else {
        w + 1
    }
}

/// The view of a router with no routes: its root alone, holding nothing.
pub open spec fn fresh_trie<T>() -> Map<Seq<Edge>, Entry<T>> {
    Map::<Seq<Edge>, Entry<T>>::empty().insert(seq![], empty_entry())
}

/// Counting wildcards from the front.
pub proof fn lemma_wild_count_cons(e: Edge, rest: Seq<Edge>)
    ensures
        wild_count(seq![e] + rest) == wild_count(rest) + depth_after(e, 0),
    decreases rest.len(),
{
    let es = seq![e] + rest;
    if rest.len() == 0 {
        assert(es.drop_last() =~= seq![]);
        assert(es.last() == e);
        assert(wild_count(Seq::<Edge>::empty()) == 0);
    } else {
        assert(es.drop_last() =~= seq![e] + rest.drop_last());
        assert(es.last() == rest.last());
        lemma_wild_count_cons(e, rest.drop_last());
    }
}

/// Growing by a path whose every prefix is present changes nothing.
pub proof fn lemma_grown_present<T>(m: Map<Seq<Edge>, Entry<T>>, es: Seq<Edge>)
    requires
        forall|j: int| 0 <= j <= es.len() ==> m.contains_key(#[trigger] es.take(j)),
    ensures
        grown(m, es) == m,
{
    assert forall|k: Seq<Edge>| is_prefix(k, es) implies m.contains_key(k) by {
        assert(m.contains_key(es.take(k.len() as int)));
    }
    assert(grown(m, es) =~= m);
}

/// Grafting at the root replaces everything.
pub proof fn lemma_graft_root<T>(m: Map<Seq<Edge>, Entry<T>>)
    ensures
        forall|x: Map<Seq<Edge>, Entry<T>>| #[trigger] graft(m, seq![], x) == x,
        m.contains_key(seq![]) ==> grown(m, seq![]) == m,
        subtree(m, seq![]) == m,
{
    assert forall|x: Map<Seq<Edge>, Entry<T>>| #[trigger] graft(m, seq![], x) == x by {
        assert forall|k: Seq<Edge>| is_prefix(seq![], k) && k.skip(0) == k by {
            assert(k.take(0) =~= seq![]);
            assert(k.skip(0) =~= k);
        }
        assert(graft(m, seq![], x) =~= x);
    }
    if m.contains_key(seq![]) {
        assert forall|k: Seq<Edge>| is_prefix(k, seq![]) implies k == Seq::<Edge>::empty() by {
            assert(k =~= seq![]);
        }
        assert(grown(m, seq![]) =~= m);
    }
    assert forall|k: Seq<Edge>| #[trigger] (Seq::<Edge>::empty() + k) == k by {
        assert(Seq::<Edge>::empty() + k =~= k);
    }
    assert(subtree(m, seq![]) =~= m);
}

/// A new empty node grafted where nothing was is just growing.
pub proof fn lemma_graft_fresh<T>(m: Map<Seq<Edge>, Entry<T>>, e: Edge)
    requires
        forall|r: Seq<Edge>| !m.contains_key(#[trigger] (seq![e] + r)),
    ensures
        graft(grown(m, seq![e]), seq![e], fresh_trie()) == grown(m, seq![e]),
{
    let g = grown(m, seq![e]);
    let lhs = graft(g, seq![e], fresh_trie::<T>());
    assert forall|k: Seq<Edge>| #[trigger] lhs.contains_key(k) == g.contains_key(k) && (
    lhs.contains_key(k) ==> lhs[k] == g[k]) by {
        if is_prefix(seq![e], k) {
            let r = k.skip(1);
            assert(k =~= seq![e] + r);
            if r.len() == 0 {
                assert(r =~= seq![]);
                assert(is_prefix(k, seq![e]));
            } else {
                assert(!is_prefix(k, seq![e]));
            }
        }
    }
    assert(lhs =~= g);
}

/// A common first edge does not change which key is a prefix of which.
pub proof fn lemma_prefix_cons(e: Edge, a: Seq<Edge>, b: Seq<Edge>)
    ensures
        is_prefix(seq![e] + a, seq![e] + b) == is_prefix(a, b),
{
    let ea = seq![e] + a;
    let eb = seq![e] + b;
    if a.len() <= b.len() {
        assert(eb.take(ea.len() as int) =~= seq![e] + b.take(a.len() as int));
        if is_prefix(ea, eb) {
            assert(b.take(a.len() as int) =~= eb.take(ea.len() as int).skip(1));
            assert(a =~= ea.skip(1));
        }
    }
}

/// A one-edge prefix is the first edge.
pub proof fn lemma_prefix_head(e: Edge, k: Seq<Edge>)
    requires
        k.len() > 0,
    ensures
        is_prefix(seq![e], k) == (k[0] == e),
        k =~= seq![k[0]] + k.skip(1),
{
    if k[0] == e {
        assert(k.take(1) =~= seq![e]);
    }
    if is_prefix(seq![e], k) {
        assert(k.take(1)[0] == k[0]);
    }
}

/// A key is a prefix of its extensions, and no extension of a key is a
/// prefix of it but the key itself.
pub proof fn lemma_prefix_self(a: Seq<Edge>, k: Seq<Edge>)
    ensures
        is_prefix(a + k, a) == (k.len() == 0),
        is_prefix(a, a + k),
        (a + k).skip(a.len() as int) == k,
{
    if k.len() == 0 {
        assert(a + k =~= a);
        assert(a.take(a.len() as int) =~= a);
    }
    assert((a + k).take(a.len() as int) =~= a);
    assert((a + k).skip(a.len() as int) =~= k);
}

/// One step of a descent along `seq![e] + rest`, composed with the rest.
pub proof fn lemma_descend_compose<T>(m: Map<Seq<Edge>, Entry<T>>, e: Edge, rest: Seq<Edge>)
    ensures
        ({
            let g = grown(m, seq![e]);
            let s = subtree(g, seq![e]);
            let es = seq![e] + rest;
            &&& subtree(grown(s, rest), rest) == subtree(grown(m, es), es)
            &&& forall|x: Map<Seq<Edge>, Entry<T>>| #[trigger]
                graft(g, seq![e], graft(grown(s, rest), rest, x)) == graft(grown(m, es), es, x)
            &&& !kind_clash(m, es) ==> !kind_clash(s, rest)
        }),
{
    let g = grown(m, seq![e]);
    let s = subtree(g, seq![e]);
    let es = seq![e] + rest;
    assert forall|k: Seq<Edge>| #[trigger] is_prefix(seq![e] + k, seq![e]) == (k.len() == 0) by {
        lemma_prefix_self(seq![e], k);
    }
    let a = subtree(grown(s, rest), rest);
    let b = subtree(grown(m, es), es);
    assert forall|k: Seq<Edge>| #[trigger] a.contains_key(k) == b.contains_key(k) && (
    a.contains_key(k) ==> a[k] == b[k]) by {
        assert(es + k =~= seq![e] + (rest + k));
        lemma_prefix_self(rest, k);
        lemma_prefix_cons(e, rest + k, rest);
    }
    assert(a =~= b);
    assert forall|x: Map<Seq<Edge>, Entry<T>>| #[trigger]
        graft(g, seq![e], graft(grown(s, rest), rest, x)) == graft(grown(m, es), es, x) by {
        let l = graft(g, seq![e], graft(grown(s, rest), rest, x));
        let r = graft(grown(m, es), es, x);
        assert forall|k: Seq<Edge>| #[trigger] l.contains_key(k) == r.contains_key(k) && (
        l.contains_key(k) ==> l[k] == r[k]) by {
            if k.len() == 0 {
                assert(!is_prefix(seq![e], k));
                assert(!is_prefix(es, k));
                assert(is_prefix(k, es) && is_prefix(k, seq![e])) by {
                    assert(es.take(0) =~= k);
                    assert(seq![e].take(0) =~= k);
                }
            } else {
                lemma_prefix_head(e, k);
                let k1 = k.skip(1);
                lemma_prefix_head(e, es);
                assert(es.skip(1) =~= rest);
                if k[0] == e {
                    assert(k == seq![e] + k1);
                    lemma_prefix_cons(e, rest, k1);
                    lemma_prefix_cons(e, k1, rest);
                    lemma_prefix_self(seq![e], k1);
                    if is_prefix(rest, k1) {
                        assert(k1.skip(rest.len() as int) =~= k.skip(es.len() as int));
                    }
                } else {
                    assert(!is_prefix(es, k)) by {
                        if is_prefix(es, k) {
                            assert(k[0] == es[0]);
                        }
                    }
                    assert(!is_prefix(k, es)) by {
                        if is_prefix(k, es) {
                            assert(es.take(k.len() as int)[0] == es[0]);
                        }
                    }
                    assert(!is_prefix(k, seq![e])) by {
                        if is_prefix(k, seq![e]) {
                            assert(seq![e].take(k.len() as int)[0] == e);
                        }
                    }
                }
            }
        }
        assert(l =~= r);
    }
    if kind_clash(s, rest) {
        let i = choose|i: int| 0 <= i < rest.len() && #[trigger] clash_at(s, rest, i);
        assert(es[i + 1] == rest[i]);
        assert(seq![e] + rest.take(i).push(Edge::CatchAll) =~= es.take(i + 1).push(Edge::CatchAll));
        assert(seq![e] + rest.take(i).push(Edge::Param) =~= es.take(i + 1).push(Edge::Param));
        lemma_prefix_self(seq![e], rest.take(i).push(Edge::CatchAll));
        lemma_prefix_self(seq![e], rest.take(i).push(Edge::Param));
        assert(clash_at(m, es, i + 1));
    }
}

/// Grafting a subtree back with a new root entry sets the entry at `at`.
pub proof fn lemma_graft_entry<T>(m: Map<Seq<Edge>, Entry<T>>, at: Seq<Edge>)
    requires
        m.contains_key(at),
    ensures
        forall|en: Entry<T>| #[trigger]
            graft(m, at, subtree(m, at).insert(seq![], en)) == m.insert(at, en),
{
    assert forall|en: Entry<T>| #[trigger]
        graft(m, at, subtree(m, at).insert(seq![], en)) == m.insert(at, en) by {
        let l = graft(m, at, subtree(m, at).insert(seq![], en));
        let r = m.insert(at, en);
        assert forall|k: Seq<Edge>| #[trigger] l.contains_key(k) == r.contains_key(k) && (
        l.contains_key(k) ==> l[k] == r[k]) by {
            if is_prefix(at, k) {
                let k1 = k.skip(at.len() as int);
                assert(k =~= at + k1);
                if k1.len() == 0 {
                    assert(k1 =~= seq![]);
                    assert(k =~= at);
                } else {
                    assert(k != at);
                }
            } else {
                assert(k != at) by {
                    if k == at {
                        assert(k.take(at.len() as int) =~= at);
                    }
                }
            }
        }
        assert(l =~= r);
    }
}

/// Literal edges hold no wildcard, so they clash with nothing.
pub proof fn lemma_literal_edges<T>(m: Map<Seq<Edge>, Entry<T>>, es: Seq<Edge>)
    requires
        forall|i: int| 0 <= i < es.len() ==> (#[trigger] es[i]) is Lit,
    ensures
        wild_count(es) == 0,
        !kind_clash(m, es),
    decreases es.len(),
{
    if es.len() > 0 {
        assert(es.last() is Lit);
        lemma_literal_edges(m, es.drop_last());
    }
}

/// A pattern binds one name per wildcard edge.
pub proof fn lemma_edge_count(ss: Seq<Seq<char>>)
    ensures
        wild_names(ss).len() == wild_count(edges_of(ss)),
    decreases ss.len(),
{
    if ss.len() > 0 {
        assert(edges_of(ss).drop_last() =~= edges_of(ss.drop_last()));
        assert(edges_of(ss).last() == edge_of(ss.last()));
        lemma_edge_count(ss.drop_last());
    }
}

/// The text of one edge in a route's pattern, its wildcard named by
/// `names[j]` (empty where there is no such name).
pub open spec fn piece(e: Edge, names: Seq<Seq<char>>, j: int) -> Seq<char> {
    let name = if 0 <= j < names.len() {
        names[j]
    } else {
        seq![]
    };
    match e {
        Edge::Lit(t) => t,
        Edge::Param => seq![':'] + name,
        Edge::CatchAll => seq!['*'] + name,
    }
}

/// `/` and the piece of each edge of `k`, wildcards named from `names[j]` on.
pub open spec fn filled(k: Seq<Edge>, names: Seq<Seq<char>>, j: int) -> Seq<char>
    decreases k.len(),
{
    if k.len() == 0 {
        seq![]
    } else {
        seq!['/'] + piece(k[0], names, j) + filled(
            k.drop_first(),
            names,
            if k[0] is Lit {
                j
            } else {
                j + 1
            },
        )
    }
}

/// The pattern of the route at `k` whose wildcards bind `names`.
pub open spec fn route_text(k: Seq<Edge>, names: Seq<Seq<char>>) -> Seq<char> {
    if k.len() == 0 {
        seq!['/']
    } else {
        filled(k, names, 0)
    }
}

} // verus!
