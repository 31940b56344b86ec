//! Properties of routers, stated over their model and proved.
use vstd::prelude::*;
use crate::model::{
    added, clash_at, conflicts, edge_of, edges_of, graft, grown, is_prefix, join, kind_clash,
    name_clash, recognized, route_key, route_names, walk, zip, Edge, Entry,
};
use crate::segments::{
    is_catch_all, is_param, is_wild, lemma_split_concat, lemma_split_empty, lemma_split_push_slash,
    name_of, pattern_segments, split, valid_base, valid_route,
};

verus! {

/// Adding a route makes no kind clash with its own edges: every key it adds
/// lies on its own path.
proof fn lemma_added_keys<T>(m: Map<Seq<Edge>, Entry<T>>, r: Seq<char>, v: T)
    requires
        !kind_clash(m, route_key(r)),
    ensures
        !kind_clash(added(m, r, v), route_key(r)),
{
    let es = route_key(r);
    let m2 = added(m, r, v);
    if kind_clash(m2, es) {
        let i = choose|i: int| 0 <= i < es.len() && #[trigger] clash_at(m2, es, i);
        let a = es.take(i).push(Edge::CatchAll);
        let b = es.take(i).push(Edge::Param);
        assert(is_prefix(a, es) ==> es[i] is CatchAll) by {
            if is_prefix(a, es) {
                assert(es.take(i + 1)[i] == es[i]);
                assert(es.take(i + 1) == a);
            }
        }
        assert(is_prefix(b, es) ==> es[i] is Param) by {
            if is_prefix(b, es) {
                assert(es.take(i + 1)[i] == es[i]);
                assert(es.take(i + 1) == b);
            }
        }
        if es[i] is Param {
            assert(a != es) by {
                if a == es {
                    assert(a[i] == es[i]);
                }
            }
        } else {
            assert(b != es) by {
                if b == es {
                    assert(b[i] == es[i]);
                }
            }
        }
        assert(clash_at(m, es, i));
    }
}

/// Adding a route again, with another value, succeeds and leaves the router
/// as if only the second value had been added: the value is replaced.
pub proof fn lemma_add_again<T>(m: Map<Seq<Edge>, Entry<T>>, r: Seq<char>, v1: T, v2: T)
    requires
        valid_route(r),
        !conflicts(m, r),
    ensures
        !conflicts(added(m, r, v1), r),
        added(added(m, r, v1), r, v2) == added(m, r, v2),
{
    let es = route_key(r);
    lemma_added_keys(m, r, v1);
    let m1 = added(m, r, v1);
    assert(m1[es].names == route_names(r));
    assert(grown(m1, es) =~= m1);
    assert(added(m1, r, v2) =~= added(m, r, v2));
}

/// Once a route with wildcards is added, a pattern along the same edges
/// that names its wildcards otherwise conflicts.
pub proof fn lemma_rename_conflicts<T>(m: Map<Seq<Edge>, Entry<T>>, r: Seq<char>, r2: Seq<char>, v: T)
    requires
        valid_route(r),
        valid_route(r2),
        !conflicts(m, r),
        route_key(r2) == route_key(r),
        route_names(r2) != route_names(r),
        route_names(r).len() > 0,
    ensures
        conflicts(added(m, r, v), r2),
{
    let m1 = added(m, r, v);
    assert(name_clash(m1, route_key(r2), route_names(r2)));
}

/// A static child whose text is the segment wins over a parameter or
/// catch-all child of the same node: the walk goes on from it.
pub proof fn lemma_static_first<T>(
    m: Map<Seq<Edge>, Entry<T>>,
    at: Seq<Edge>,
    segs: Seq<Seq<char>>,
    j: int,
    vals: Seq<Seq<char>>,
)
    requires
        0 <= j < segs.len(),
        segs[j].len() > 0,
        m.contains_key(at.push(Edge::Lit(segs[j]))),
    ensures
        walk(m, at, segs, j, vals) == walk(m, at.push(Edge::Lit(segs[j])), segs, j + 1, vals),
{
}

/// The walk ended on a catch-all reached after `at`.
pub open spec fn caught(at: Seq<Edge>, k: Seq<Edge>) -> bool {
    k.len() > at.len() && k.last() is CatchAll
}

/// The last captured value with a `/` after it.
pub open spec fn slash_last(vs: Seq<Seq<char>>) -> Seq<Seq<char>> {
    vs.update(vs.len() - 1, vs.last() + seq!['/'])
}

/// One more, empty, segment at the end changes a walk only where it ended
/// on a catch-all, whose value then ends with `/`.
proof fn lemma_walk_trailing<T>(
    m: Map<Seq<Edge>, Entry<T>>,
    at: Seq<Edge>,
    segs: Seq<Seq<char>>,
    j: int,
    vals: Seq<Seq<char>>,
)
    requires
        0 <= j <= segs.len(),
    ensures
        ({
            let w1 = walk(m, at, segs, j, vals);
            let w2 = walk(m, at, segs.push(seq![]), j, vals);
            match w1 {
                None => w2 is None,
                Some((k, vs)) => {
                    &&& k.len() >= at.len()
                    &&& (k.len() == at.len() ==> k == at)
                    &&& (caught(at, k) ==> vs.len() > 0 && w2 == Some((k, slash_last(vs))))
                    &&& (!caught(at, k) ==> w2 == w1)
                },
            }
        }),
    decreases segs.len() - j,
{
    let segs2 = segs.push(seq![]);
    if j == segs.len() {
        assert(segs2[j] == Seq::<char>::empty());
        assert(walk(m, at, segs2, j + 1, vals) == Some((at, vals)));
    } else {
        let seg = segs[j];
        assert(segs2[j] == seg);
        if seg.len() == 0 {
            lemma_walk_trailing(m, at, segs, j + 1, vals);
        } else if m.contains_key(at.push(Edge::Lit(seg))) {
            lemma_walk_trailing(m, at.push(Edge::Lit(seg)), segs, j + 1, vals);
        } else if m.contains_key(at.push(Edge::Param)) {
            lemma_walk_trailing(m, at.push(Edge::Param), segs, j + 1, vals.push(seg));
        } else if m.contains_key(at.push(Edge::CatchAll)) {
            let rest = segs.skip(j);
            assert(segs2.skip(j) =~= rest.push(seq![]));
            assert(rest.push(seq![]).drop_last() =~= rest);
            let v1 = vals.push(join(rest));
            assert(v1.update(v1.len() - 1, v1.last() + seq!['/']) =~= vals.push(
                join(segs2.skip(j)),
            ));
        }
    }
}

/// A trailing `/` finds what the path without it finds, unless the path
/// ends in a catch-all: then the catch-all's value ends with `/` as well.
pub proof fn lemma_trailing_slash<T>(m: Map<Seq<Edge>, Entry<T>>, p: Seq<char>)
    requires
        p.len() > 0,
        p[0] == '/',
    ensures
        ({
            let q = p + seq!['/'];
            let w = walk(m, seq![], split(p.skip(1)), 0, seq![]);
            let wq = walk(m, seq![], split(q.skip(1)), 0, seq![]);
            match w {
                Some((k, vs)) => if caught(seq![], k) {
                    wq == Some((k, slash_last(vs)))
                } else {
                    recognized(m, q) == recognized(m, p)
                },
                None => recognized(m, q) == recognized(m, p),
            }
        }),
{
    let q = p + seq!['/'];
    assert(q.skip(1) =~= p.skip(1) + seq!['/']);
    lemma_split_push_slash(p.skip(1));
    lemma_walk_trailing(m, seq![], split(p.skip(1)), 0, seq![]);
}

/// What `add` refuses as `InvalidFormat`: a pattern not starting with `/`,
/// with a trailing `/` (but `/` itself), with `//`, with an empty parameter
/// or catch-all name, with a name twice, or with a catch-all before its end.
pub proof fn lemma_invalid_patterns(r: Seq<char>)
    ensures
        r.len() == 0 || r[0] != '/' ==> !valid_route(r),
        r.len() > 1 && r.last() == '/' ==> !valid_route(r),
        (exists|i: int| 0 <= i < r.len() - 1 && r[i] == '/' && #[trigger] r[i + 1] == '/')
            ==> !valid_route(r),
        ({
            let segs = pattern_segments(r);
            &&& (exists|i: int| 0 <= i < segs.len() && is_wild(segs[i]) && #[trigger] segs[i].len() == 1)
                ==> !valid_route(r)
            &&& (exists|i: int, j: int|
                0 <= i < j < segs.len() && is_wild(segs[i]) && is_wild(segs[j]) && name_of(
                    #[trigger] segs[i],
                ) == name_of(#[trigger] segs[j])) ==> !valid_route(r)
            &&& (exists|i: int| 0 <= i < segs.len() - 1 && #[trigger] is_catch_all(segs[i]))
                ==> !valid_route(r)
        }),
{
    if exists|i: int| 0 <= i < r.len() - 1 && r[i] == '/' && #[trigger] r[i + 1] == '/' {
        let i = choose|i: int| 0 <= i < r.len() - 1 && r[i] == '/' && #[trigger] r[i + 1] == '/';
        let body = r.skip(1);
        assert(body[i] == r[i + 1]);
        if i > 0 {
            assert(body[i - 1] == r[i]);
        }
        lemma_split_empty(body, i);
        let k = choose|k: int| 0 <= k < split(body).len() && (#[trigger] split(body)[k]).len() == 0;
        assert(pattern_segments(r)[k].len() == 0);
    }
}

/// The pattern's last segment is a catch-all.
pub open spec fn ends_caught(ps: Seq<Seq<char>>) -> bool {
    ps.len() > 0 && is_catch_all(ps.last())
}

/// Path segments `qs` fit pattern segments `ps`: the same literal segments,
/// one non-empty segment for each parameter, and for a catch-all one
/// non-empty segment and any after it; without a catch-all, one empty
/// segment (a trailing `/`) may follow.
pub open spec fn fits(ps: Seq<Seq<char>>, qs: Seq<Seq<char>>) -> bool {
    let n = ps.len();
    &&& qs.len() >= n
    &&& forall|i: int| 0 <= i < n ==> (#[trigger] qs[i]).len() > 0
    &&& forall|i: int| 0 <= i < n && !is_wild(ps[i]) ==> #[trigger] qs[i] == ps[i]
    &&& !ends_caught(ps) ==> (qs.len() == n || (qs.len() == n + 1 && qs[n as int].len() == 0))
}

/// The values that the wildcards among the first `j` segments of `ps` bind
/// from `qs`: a parameter its segment, a catch-all the rest joined by `/`.
pub open spec fn bound(ps: Seq<Seq<char>>, qs: Seq<Seq<char>>, j: int) -> Seq<Seq<char>>
    decreases j,
{
    if j <= 0 {
        seq![]
    } else if is_param(ps[j - 1]) {
        bound(ps, qs, j - 1).push(qs[j - 1])
    } else if is_catch_all(ps[j - 1]) {
        bound(ps, qs, j - 1).push(join(qs.skip(j - 1)))
    } else {
        bound(ps, qs, j - 1)
    }
}

/// No static child beside a wildcard of the pattern has the text of the
/// path segment that wildcard should bind.
pub open spec fn unshadowed<T>(m: Map<Seq<Edge>, Entry<T>>, ps: Seq<Seq<char>>, qs: Seq<Seq<char>>) -> bool {
    forall|i: int|
        0 <= i < ps.len() && is_wild(ps[i]) ==> !m.contains_key(
            #[trigger] edges_of(ps).take(i).push(Edge::Lit(qs[i])),
        )
}

/// The walk of a fitting path from the `j`-th edge of the route's key on
/// ends at the route with all its values bound.
proof fn lemma_walk_fits<T>(
    m: Map<Seq<Edge>, Entry<T>>,
    r: Seq<char>,
    v: T,
    qs: Seq<Seq<char>>,
    j: int,
)
    requires
        valid_route(r),
        !conflicts(m, r),
        fits(pattern_segments(r), qs),
        unshadowed(added(m, r, v), pattern_segments(r), qs),
        0 <= j <= pattern_segments(r).len(),
        ends_caught(pattern_segments(r)) ==> j < pattern_segments(r).len(),
    ensures
        ({
            let ps = pattern_segments(r);
            let es = edges_of(ps);
            walk(added(m, r, v), es.take(j), qs, j, bound(ps, qs, j)) == Some(
                (es, bound(ps, qs, ps.len() as int)),
            )
        }),
    decreases pattern_segments(r).len() - j,
{
    let ps = pattern_segments(r);
    let es = edges_of(ps);
    let m2 = added(m, r, v);
    let n = ps.len() as int;
    if j == n {
        assert(es.take(j) =~= es);
        if qs.len() > n {
            assert(walk(m2, es, qs, n + 1, bound(ps, qs, n)) == Some((es, bound(ps, qs, n))));
        }
    } else {
        let seg = qs[j];
        assert(seg.len() > 0);
        assert(es[j] == edge_of(ps[j]));
        let next = es.take(j + 1);
        assert(is_prefix(next, es));
        assert(m2.contains_key(next));
        if !is_wild(ps[j]) {
            assert(seg == ps[j]);
            assert(es.take(j).push(Edge::Lit(seg)) =~= next);
            lemma_walk_fits(m, r, v, qs, j + 1);
        } else if is_param(ps[j]) {
            assert(!m2.contains_key(es.take(j).push(Edge::Lit(seg))));
            assert(es.take(j).push(Edge::Param) =~= next);
            lemma_walk_fits(m, r, v, qs, j + 1);
        } else {
            assert(j == n - 1);
            assert(!m2.contains_key(es.take(j).push(Edge::Lit(seg))));
            let b = es.take(j).push(Edge::Param);
            assert(es.take(j).push(Edge::CatchAll) =~= es);
            assert(!is_prefix(b, es)) by {
                if is_prefix(b, es) {
                    assert(es.take(j + 1)[j] == b[j]);
                }
            }
            assert(b != es) by {
                assert(b[j] != es[j]);
            }
            if m.contains_key(b) {
                assert(clash_at(m, es, j));
            }
            assert(!m2.contains_key(b));
        }
    }
}

/// After a route is added, a path that fits its pattern is recognized with
/// the route's value and with each name bound to what its wildcard takes
/// from the path: provided that no static child beside a wildcard has the
/// text of the segment the wildcard should bind, which would win.
pub proof fn lemma_added_recognized<T>(m: Map<Seq<Edge>, Entry<T>>, r: Seq<char>, v: T, p: Seq<char>)
    requires
        valid_route(r),
        !conflicts(m, r),
        p.len() > 0,
        p[0] == '/',
        fits(pattern_segments(r), split(p.skip(1))),
        unshadowed(added(m, r, v), pattern_segments(r), split(p.skip(1))),
    ensures
        recognized(added(m, r, v), p) == Some(
            (
                v,
                zip(
                    route_names(r),
                    bound(pattern_segments(r), split(p.skip(1)), pattern_segments(r).len() as int),
                ),
            ),
        ),
{
    let ps = pattern_segments(r);
    let es = edges_of(ps);
    let qs = split(p.skip(1));
    assert(es.take(0) =~= seq![]);
    if ends_caught(ps) {
        assert(0 < ps.len());
    }
    lemma_walk_fits(m, r, v, qs, 0);
    assert(bound(ps, qs, 0) == Seq::<Seq<char>>::empty());
}

/// A walk below `bk` in `sub` grafted at `bk`: the walk in `sub`, its keys
/// below `bk`.
proof fn lemma_walk_grafted<T>(
    g: Map<Seq<Edge>, Entry<T>>,
    bk: Seq<Edge>,
    sub: Map<Seq<Edge>, Entry<T>>,
    at: Seq<Edge>,
    segs: Seq<Seq<char>>,
    qs: Seq<Seq<char>>,
    j: int,
    vals: Seq<Seq<char>>,
)
    requires
        0 <= j <= qs.len(),
        segs.len() >= qs.len(),
        forall|i: int| 0 <= i < qs.len() ==> #[trigger] segs[segs.len() - qs.len() + i] == qs[i],
    ensures
        ({
            let d = segs.len() - qs.len();
            let w = walk(sub, at, qs, j, vals);
            walk(graft(g, bk, sub), bk + at, segs, d + j, vals) == match w {
                Some((k, vs)) => Some((bk + k, vs)),
                None => None,
            }
        }),
    decreases qs.len() - j,
{
    let mg = graft(g, bk, sub);
    let d = segs.len() - qs.len();
    assert forall|e: Edge| #[trigger] mg.contains_key((bk + at).push(e)) == sub.contains_key(at.push(e))
        && (sub.contains_key(at.push(e)) ==> mg[(bk + at).push(e)] == sub[at.push(e)]) by {
        assert((bk + at).push(e) =~= bk + at.push(e));
        assert((bk + at.push(e)).take(bk.len() as int) =~= bk);
        assert((bk + at.push(e)).skip(bk.len() as int) =~= at.push(e));
    }
    if j < qs.len() {
        let seg = qs[j];
        assert(segs[d + j] == seg);
        if seg.len() == 0 {
            lemma_walk_grafted(g, bk, sub, at, segs, qs, j + 1, vals);
        } else if sub.contains_key(at.push(Edge::Lit(seg))) {
            assert((bk + at).push(Edge::Lit(seg)) =~= bk + at.push(Edge::Lit(seg)));
            lemma_walk_grafted(g, bk, sub, at.push(Edge::Lit(seg)), segs, qs, j + 1, vals);
        } else if sub.contains_key(at.push(Edge::Param)) {
            assert((bk + at).push(Edge::Param) =~= bk + at.push(Edge::Param));
            lemma_walk_grafted(g, bk, sub, at.push(Edge::Param), segs, qs, j + 1, vals.push(seg));
        } else if sub.contains_key(at.push(Edge::CatchAll)) {
            assert((bk + at).push(Edge::CatchAll) =~= bk + at.push(Edge::CatchAll));
            assert forall|k: int| 0 <= k < qs.len() - j implies #[trigger] segs.skip(d + j)[k]
                == qs.skip(j)[k] by {
                assert(segs[segs.len() - qs.len() + (j + k)] == qs[j + k]);
            }
            assert(segs.skip(d + j) =~= qs.skip(j));
        }
    }
}

/// The literal segments of a base lead, one static child at a time, to
/// the node it names.
proof fn lemma_walk_base<T>(
    m: Map<Seq<Edge>, Entry<T>>,
    bs: Seq<Seq<char>>,
    segs: Seq<Seq<char>>,
    i: int,
)
    requires
        0 <= i <= bs.len() <= segs.len(),
        forall|k: int| 0 <= k < bs.len() ==> (#[trigger] segs[k]) == bs[k],
        forall|k: int| 0 <= k < bs.len() ==> (#[trigger] bs[k]).len() > 0 && !is_wild(bs[k]),
        forall|k: int| 0 < k <= bs.len() ==> m.contains_key(#[trigger] edges_of(bs).take(k)),
    ensures
        walk(m, edges_of(bs).take(i), segs, i, seq![]) == walk(
            m,
            edges_of(bs),
            segs,
            bs.len() as int,
            seq![],
        ),
    decreases bs.len() - i,
{
    let bk = edges_of(bs);
    if i < bs.len() {
        assert(bk[i] == edge_of(bs[i]));
        assert(bk.take(i).push(Edge::Lit(segs[i])) =~= bk.take(i + 1));
        assert(m.contains_key(bk.take(i + 1)));
        lemma_walk_base(m, bs, segs, i + 1);
    } else {
        assert(bk.take(i) =~= bk);
    }
}

/// A router mounted below a literal base answers for that base and a path
/// what it answers for the path alone: `sub`, grafted where `sub_route`
/// puts it, recognizes `b + p` as `sub` recognizes `p`.
pub proof fn lemma_mounted_recognized<T>(
    m: Map<Seq<Edge>, Entry<T>>,
    b: Seq<char>,
    sub: Map<Seq<Edge>, Entry<T>>,
    p: Seq<char>,
)
    requires
        valid_base(b),
        b.len() > 1,
        sub.contains_key(seq![]),
        p.len() > 0,
        p[0] == '/',
    ensures
        recognized(graft(grown(m, route_key(b)), route_key(b), sub), b + p) == recognized(sub, p),
{
    let bk = route_key(b);
    let bs = pattern_segments(b);
    let g = grown(m, bk);
    let mg = graft(g, bk, sub);
    let qs = split(p.skip(1));
    let full = b + p;
    assert(full.skip(1) =~= b.skip(1) + seq!['/'] + p.skip(1));
    lemma_split_concat(b.skip(1), p.skip(1));
    let segs = split(full.skip(1));
    assert(segs == bs + qs);
    assert forall|k: int| 0 < k <= bs.len() implies mg.contains_key(#[trigger] edges_of(bs).take(k)) by {
        let key = bk.take(k);
        assert(is_prefix(key, bk));
        if is_prefix(bk, key) {
            assert(key =~= bk);
            assert(key.skip(bk.len() as int) =~= seq![]);
        }
    }
    assert forall|k: int| 0 <= k < bs.len() implies (#[trigger] segs[k]) == bs[k] by {}
    lemma_walk_base(mg, bs, segs, 0);
    assert(bk.take(0) =~= seq![]);
    assert forall|i: int| 0 <= i < qs.len() implies #[trigger] segs[segs.len() - qs.len() + i] == qs[i] by {}
    lemma_walk_grafted(g, bk, sub, seq![], segs, qs, 0, seq![]);
    assert(bk + Seq::<Edge>::empty() =~= bk);
    match walk(sub, seq![], qs, 0, seq![]) {
        Some((k, vs)) => {
            assert((bk + k).take(bk.len() as int) =~= bk);
            assert((bk + k).skip(bk.len() as int) =~= k);
        },
        None => {},
    }
}

} // verus!
