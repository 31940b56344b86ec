//! The trie router.
use vstd::prelude::*;
use crate::error::Error;
use crate::matching::{Match, Params};
use crate::model::{
    added, clash_at, conflicts, depth_after, edge_of, edges_of, empty_entry, filled, fresh_trie,
    graft, grown, is_prefix, join, kind_clash, lemma_descend_compose, lemma_edge_count,
    lemma_graft_entry, lemma_graft_fresh, lemma_graft_root, lemma_grown_present,
    lemma_literal_edges, lemma_wild_count_cons, name_clash, normalized, piece, recognized,
    route_key, route_text, subtree, walk, wild_count, zip, Edge, Entry,
};
use crate::segments::{
    compare_text, lemma_text_lt_irreflexive, lemma_text_lt_transitive, text_lt, body_segments, first_char, is_valid_base, is_valid_route, lemma_wild_names_distinct,
    route_segments, same_strings, split, valid_base, valid_route, views, wildcard_names,
};

verus! {

/// A path router, and equally one node of its trie.
///
/// A node holds the value of the route that ends at it, if any, and the names
/// of the parameters bound on the way there. Below it hang static children,
/// each under the literal text of its segment and kept in the order of those
/// texts so that they are found by binary search, at most one parameter child
/// (`:name`) and at most one catch-all child (`*name`), never both. A node's
/// kind and text are where it hangs in its parent.
///
/// Patterns start with `/` and have no trailing `/` (but `/` itself); a
/// segment `:name` binds one path segment, and a last segment `*name` binds
/// the rest of the path.
pub struct Router<T> {
    data: Option<T>,
    params: Vec<String>,
    static_children: Vec<(String, Router<T>)>,
    param_child: Option<Box<Router<T>>>,
    catch_all_child: Option<Box<Router<T>>>,
}

impl<T> Router<T> {
    /// A static child hangs under text `t`.
    pub closed spec fn has_static(self, t: Seq<char>) -> bool {
        exists|i: int|
            0 <= i < self.static_children@.len() && #[trigger] self.static_children@[i].0@ == t
    }

    /// The static child under text `t`, where there is one.
    pub closed spec fn static_child(self, t: Seq<char>) -> Router<T> {
        self.static_children@[choose|i: int|
            0 <= i < self.static_children@.len() && #[trigger] self.static_children@[i].0@
                == t].1
    }

    /// The child along edge `e`.
    pub closed spec fn child(self, e: Edge) -> Option<Router<T>> {
        match e {
            Edge::Lit(t) => if self.has_static(t) {
                Some(self.static_child(t))
            } else {
                None
            },
            Edge::Param => match self.param_child {
                Some(b) => Some(*b),
                None => None,
            },
            Edge::CatchAll => match self.catch_all_child {
                Some(b) => Some(*b),
                None => None,
            },
        }
    }

    /// The node reached along the edges of `k`.
    pub closed spec fn lookup(self, k: Seq<Edge>) -> Option<Router<T>>
        decreases k.len(),
    {
        if k.len() == 0 {
            Some(self)
        } else {
            match self.child(k[0]) {
                Some(c) => c.lookup(k.drop_first()),
                None => None,
            }
        }
    }

    /// The value and names this node holds.
    pub closed spec fn entry(self) -> Entry<T> {
        Entry { data: self.data, names: views(self.params@) }
    }

    /// The static children's texts are in increasing order.
    pub closed spec fn statics_sorted(self) -> bool {
        forall|i: int, j: int|
            0 <= i < j < self.static_children@.len() ==> text_lt(
                #[trigger] self.static_children@[i].0@,
                #[trigger] self.static_children@[j].0@,
            )
    }

    /// Well-formed, for a node with `w` wildcards above it: names recorded
    /// only with a value, one per wildcard and all distinct; static children
    /// under distinct texts, in order; never both a parameter and a catch-all
    /// child.
    pub closed spec fn wf_at(self, w: nat) -> bool
        decreases self,
    {
        &&& if self.data is Some {
            self.params@.len() == w
        } else {
            self.params@.len() == 0
        }
        &&& views(self.params@).no_duplicates()
        &&& self.statics_sorted()
        &&& forall|i: int, j: int|
            0 <= i < j < self.static_children@.len() ==> #[trigger] self.static_children@[i].0@
                != #[trigger] self.static_children@[j].0@
        &&& forall|i: int|
            0 <= i < self.static_children@.len() ==> (#[trigger] self.static_children@[i]).1.wf_at(w)
        &&& !(self.param_child is Some && self.catch_all_child is Some)
        &&& match self.param_child {
            Some(b) => b.wf_at(w + 1),
            None => true,
        }
        &&& match self.catch_all_child {
            Some(b) => b.wf_at(w + 1),
            None => true,
        }
    }

    /// Well-formed as the root of a router.
    pub closed spec fn wf(self) -> bool {
        self.wf_at(0)
    }
}

/// A router is seen as the map from the edges leading to each of its nodes
/// to what that node holds.
impl<T> View for Router<T> {
    type V = Map<Seq<Edge>, Entry<T>>;

    closed spec fn view(&self) -> Map<Seq<Edge>, Entry<T>> {
        Map::new(|k: Seq<Edge>| self.lookup(k) is Some, |k: Seq<Edge>| self.lookup(k)->0.entry())
    }
}

/// The root is in the view, holding the node's own entry.
proof fn lemma_view_root<T>(n: Router<T>)
    ensures
        n@.contains_key(seq![]),
        n@[seq![]] == n.entry(),
{
    assert(n.lookup(seq![]) == Some(n));
}

/// The view below one edge is the child's view.
proof fn lemma_view_cons<T>(n: Router<T>, e: Edge, r: Seq<Edge>)
    ensures
        n@.contains_key(seq![e] + r) == (n.child(e) is Some && n.child(e)->0@.contains_key(r)),
        n@.contains_key(seq![e] + r) ==> n@[seq![e] + r] == n.child(e)->0@[r],
{
    let k = seq![e] + r;
    assert(k[0] == e);
    assert(k.drop_first() =~= r);
}

/// One more edge at the end of a key is one more step from the node found.
proof fn lemma_lookup_push<T>(n: Router<T>, at: Seq<Edge>, e: Edge)
    ensures
        n.lookup(at.push(e)) == (match n.lookup(at) {
            Some(c) => c.child(e),
            None => None,
        }),
    decreases at.len(),
{
    let k = at.push(e);
    if at.len() == 0 {
        assert(k.drop_first() =~= seq![]);
        match n.child(e) {
            Some(c) => assert(c.lookup(seq![]) == Some(c)),
            None => {},
        }
    } else {
        assert(k[0] == at[0]);
        assert(k.drop_first() =~= at.drop_first().push(e));
        match n.child(at[0]) {
            Some(c) => lemma_lookup_push(c, at.drop_first(), e),
            None => {},
        }
    }
}

/// The view holds every prefix of a key it holds.
proof fn lemma_lookup_prefix<T>(n: Router<T>, k: Seq<Edge>, j: int)
    requires
        n.lookup(k) is Some,
        0 <= j <= k.len(),
    ensures
        n.lookup(k.take(j)) is Some,
    decreases k.len(),
{
    if j > 0 {
        let c = n.child(k[0])->0;
        lemma_lookup_prefix(c, k.drop_first(), j - 1);
        assert(k.take(j)[0] == k[0]);
        assert(k.take(j).drop_first() =~= k.drop_first().take(j - 1));
    } else {
        assert(k.take(0) =~= seq![]);
    }
}

/// In a well-formed node, the static child at index `i` is the one found
/// under its text.
proof fn lemma_static_child<T>(n: Router<T>, w: nat, i: int)
    requires
        n.wf_at(w),
        0 <= i < n.static_children@.len(),
    ensures
        n.has_static(n.static_children@[i].0@),
        n.static_child(n.static_children@[i].0@) == n.static_children@[i].1,
        n.child(Edge::Lit(n.static_children@[i].0@)) == Some(n.static_children@[i].1),
        n.static_children@[i].1.wf_at(w),
{
    let t = n.static_children@[i].0@;
    assert(n.has_static(t));
    let j = choose|j: int| 0 <= j < n.static_children@.len() && #[trigger] n.static_children@[j].0@ == t;
    if j != i {
        if i < j {
            assert(n.static_children@[i].0@ != n.static_children@[j].0@);
        } else {
            assert(n.static_children@[j].0@ != n.static_children@[i].0@);
        }
    }
}

impl<T> Router<T> {
    /// An empty router: no routes.
    pub fn new() -> (r: Router<T>)
        ensures
            r.wf(),
            r@ == fresh_trie::<T>(),
    {
        Router::empty_node()
    }

    /// A node with nothing in or below it.
    fn empty_node() -> (r: Router<T>)
        ensures
            forall|w: nat| #[trigger] r.wf_at(w),
            forall|e: Edge| #[trigger] r.child(e) is None,
            r@ == fresh_trie::<T>(),
    {
        let r = Router {
            data: None,
            params: Vec::new(),
            static_children: Vec::new(),
            param_child: None,
            catch_all_child: None,
        };
        proof {
            assert(views(r.params@) =~= seq![]);
            assert forall|k: Seq<Edge>| r@.contains_key(k) implies k == Seq::<Edge>::empty() by {
                if k.len() > 0 {
                    assert(!r.has_static(k[0]->Lit_0));
                } else {
                    assert(k =~= seq![]);
                }
            }
            lemma_view_root(r);
            assert(r.entry() == empty_entry::<T>());
            assert(r@ =~= fresh_trie::<T>());
        }
        r
    }

    /// Index of the static child under `seg`.
    fn child_index(&self, seg: &String) -> (r: Option<usize>)
        requires
            self.statics_sorted(),
        ensures
            match r {
                Some(i) => i < self.static_children@.len() && self.static_children@[i as int].0@
                    == seg@,
                None => !self.has_static(seg@),
            },
    {
        match self.find_static(seg) {
            Ok(i) => Some(i),
            Err(_) => {
                proof {
                    lemma_text_lt_irreflexive(seg@);
                }
                None
            },
        }
    }
}

impl<T> Default for Router<T> {
    fn default() -> (r: Router<T>)
        ensures
            r.wf(),
            r@ == fresh_trie::<T>(),
    {
        Router::new()
    }
}

/// The segments `segs[from..]` joined with `/`.
fn join_from(segs: &Vec<String>, from: usize) -> (r: String)
    requires
        from < segs@.len(),
    ensures
        r@ == join(views(segs@).skip(from as int)),
{
    let ghost ss = views(segs@);
    let mut acc = segs[from].clone();
    let n = segs.len();
    let mut k: usize = from + 1;
    assert(ss.subrange(from as int, k as int).len() == 1);
    while k < segs.len()
        invariant
            ss == views(segs@),
            from < k <= segs@.len(),
            acc@ == join(ss.subrange(from as int, k as int)),
        decreases segs.len() - k,
    {
        proof {
            reveal_strlit("/");
        }
        acc.append("/");
        acc.append(segs[k].as_str());
        proof {
            let sub = ss.subrange(from as int, k + 1);
            assert(sub.drop_last() =~= ss.subrange(from as int, k as int));
            assert(sub.last() == ss[k as int]);
        }
        k = k + 1;
    }
    assert(ss.subrange(from as int, k as int) =~= ss.skip(from as int));
    acc
}

impl<T> Router<T> {
    /// The match at this node, for the values captured on the way to it.
    fn matched<'a>(&'a self, vals: &Vec<String>) -> (r: Option<Match<&'a T>>)
        ensures
            match self.data {
                Some(d) => r is Some && *r->0.data == d && r->0.params@ == zip(
                    views(self.params@),
                    views(vals@),
                ),
                None => r is None,
            },
    {
        match &self.data {
            None => None,
            Some(d) => {
                let n = if self.params.len() <= vals.len() {
                    self.params.len()
                } else {
                    vals.len()
                };
                let ghost z = zip(views(self.params@), views(vals@));
                let mut entries: Vec<(String, String)> = Vec::new();
                let mut i: usize = 0;
                while i < n
                    invariant
                        n == z.len(),
                        n <= self.params@.len(),
                        n <= vals@.len(),
                        i <= n,
                        z == zip(views(self.params@), views(vals@)),
                        entries@.map_values(|p: (String, String)| (p.0@, p.1@)) =~= z.take(
                            i as int,
                        ),
                    decreases n - i,
                {
                    entries.push((self.params[i].clone(), vals[i].clone()));
                    proof {
                        assert(z.take(i + 1) =~= z.take(i as int).push(z[i as int]));
                    }
                    i = i + 1;
                }
                assert(z.take(n as int) =~= z);
                Some(Match { data: d, params: Params::from_entries(entries) })
            },
        }
    }

    /// Recognizes `path`: the value of the route it leads to and the
    /// parameters captured, or `None` where no route matches.
    ///
    /// The empty path reads as `/`; other paths must start with `/`. At each
    /// segment a static child with that text wins, then the parameter child,
    /// then the catch-all child, which takes the rest of the path. Empty
    /// segments are skipped, so `/users/` finds what `/users` finds.
    pub fn recognize<'a>(&'a self, path: &str) -> (r: Option<Match<&'a T>>)
        requires
            self.wf(),
        ensures
            match recognized(self@, path@) {
                Some((v, ps)) => r is Some && *r->0.data == v && r->0.params@ == ps,
                None => r is None,
            },
    {
        proof {
            reveal_strlit("/");
        }
        let p: &str = if path.unicode_len() == 0 {
            "/"
        } else {
            path
        };
        assert(p@ == normalized(path@));
        match first_char(p) {
            Some(c) => {
                if c != '/' {
                    return None;
                }
            },
            None => {
                return None;
            },
        }
        let segs = body_segments(p);
        let ghost ss = views(segs@);
        let ghost m = self@;
        let mut cur: &Router<T> = self;
        let ghost mut at: Seq<Edge> = seq![];
        let ghost mut w: nat = 0;
        let mut vals: Vec<String> = Vec::new();
        let mut j: usize = 0;
        assert(views(vals@) =~= seq![]);
        while j < segs.len()
            invariant
                ss == views(segs@),
                ss == split(p@.skip(1)),
                p@ == normalized(path@),
                p@.len() > 0 && p@[0] == '/',
                m == self@,
                j <= segs@.len(),
                self.lookup(at) == Some(*cur),
                cur.wf_at(w),
                walk(m, at, ss, j as int, views(vals@)) == walk(m, seq![], ss, 0, seq![]),
            decreases segs.len() - j,
        {
            let seg = &segs[j];
            assert(seg@ == ss[j as int]);
            if seg.as_str().is_empty() {
                j = j + 1;
            } else {
                proof {
                    lemma_lookup_push(*self, at, Edge::Lit(seg@));
                    lemma_lookup_push(*self, at, Edge::Param);
                    lemma_lookup_push(*self, at, Edge::CatchAll);
                }
                match cur.child_index(seg) {
                    Some(idx) => {
                        proof {
                            lemma_static_child(*cur, w, idx as int);
                        }
                        cur = &cur.static_children[idx].1;
                        proof {
                            at = at.push(Edge::Lit(seg@));
                        }
                        j = j + 1;
                    },
                    None => {
                        match &cur.param_child {
                            Some(b) => {
                                let ghost before = views(vals@);
                                vals.push(seg.clone());
                                assert(views(vals@) =~= before.push(seg@));
                                cur = &**b;
                                proof {
                                    at = at.push(Edge::Param);
                                    w = w + 1;
                                }
                                j = j + 1;
                            },
                            None => {
                                match &cur.catch_all_child {
                                    Some(b) => {
                                        let rest = join_from(&segs, j);
                                        let ghost before = views(vals@);
                                        vals.push(rest);
                                        assert(views(vals@) =~= before.push(rest@));
                                        let node: &Router<T> = &**b;
                                        proof {
                                            let k = at.push(Edge::CatchAll);
                                            assert(self.lookup(k) == Some(*node));
                                            assert(!m.contains_key(at.push(Edge::Lit(seg@))));
                                            assert(!m.contains_key(at.push(Edge::Param)));
                                            assert(m.contains_key(k));
                                            assert(m[k] == node.entry());
                                            assert(walk(m, at, ss, j as int, before) == Some(
                                                (k, before.push(join(ss.skip(j as int)))),
                                            ));
                                        }
                                        return node.matched(&vals);
                                    },
                                    None => {
                                        assert(!m.contains_key(at.push(Edge::Lit(seg@))));
                                        assert(!m.contains_key(at.push(Edge::Param)));
                                        assert(!m.contains_key(at.push(Edge::CatchAll)));
                                        assert(walk(m, at, ss, j as int, views(vals@)) is None);
                                        return None;
                                    },
                                }
                            },
                        }
                    },
                }
            }
        }
        cur.matched(&vals)
    }
}

/// A node whose entry and children are those of `o` but for the child along
/// `e`, now `fc`, has the view of `o` with the part below `e` replaced.
proof fn lemma_view_replace_child<T>(o: Router<T>, f: Router<T>, e: Edge, fc: Router<T>)
    requires
        f.entry() == o.entry(),
        f.child(e) == Some(fc),
        forall|e2: Edge| e2 != e ==> #[trigger] f.child(e2) == o.child(e2),
    ensures
        f@ == graft(grown(o@, seq![e]), seq![e], fc@),
{
    let g = graft(grown(o@, seq![e]), seq![e], fc@);
    assert forall|k: Seq<Edge>| #[trigger] f@.contains_key(k) == g.contains_key(k) && (
    f@.contains_key(k) ==> f@[k] == g[k]) by {
        lemma_view_root(o);
        lemma_view_root(f);
        if k.len() == 0 {
            assert(k =~= seq![]);
            assert(!is_prefix(seq![e], k));
        } else {
            let r = k.drop_first();
            assert(k =~= seq![k[0]] + r);
            lemma_view_cons(o, k[0], r);
            lemma_view_cons(f, k[0], r);
            if k[0] == e {
                assert(k.take(1) =~= seq![e]);
                assert(k.skip(1) =~= r);
            } else {
                assert(k.take(1) != seq![e]) by {
                    assert(k.take(1)[0] == k[0]);
                }
                assert(!is_prefix(k, seq![e])) by {
                    if is_prefix(k, seq![e]) {
                        assert(seq![e].take(k.len() as int)[0] == e);
                    }
                }
            }
        }
    }
    assert(f@ =~= g);
}

/// A node with the children of `o` has the view of `o` but at its own key.
proof fn lemma_view_same_children<T>(o: Router<T>, f: Router<T>)
    requires
        forall|e: Edge| #[trigger] f.child(e) == o.child(e),
    ensures
        f@ == o@.insert(seq![], f.entry()),
{
    let g = o@.insert(seq![], f.entry());
    assert forall|k: Seq<Edge>| #[trigger] f@.contains_key(k) == g.contains_key(k) && (
    f@.contains_key(k) ==> f@[k] == g[k]) by {
        lemma_view_root(o);
        lemma_view_root(f);
        if k.len() == 0 {
            assert(k =~= seq![]);
        } else {
            let r = k.drop_first();
            assert(k =~= seq![k[0]] + r);
            lemma_view_cons(o, k[0], r);
            lemma_view_cons(f, k[0], r);
        }
    }
    assert(f@ =~= g);
}

impl<T> Router<T> {
    /// `f` is `o` with the child along `e` (for a static child, the one at
    /// `idx`) replaced by `fc`.
    closed spec fn replaced(o: Router<T>, f: Router<T>, e: Edge, fc: Router<T>, idx: int) -> bool {
        &&& f.data == o.data
        &&& f.params == o.params
        &&& match e {
            Edge::Lit(_) => {
                &&& f.static_children@ == o.static_children@.update(
                    idx,
                    (o.static_children@[idx].0, fc),
                )
                &&& f.param_child == o.param_child
                &&& f.catch_all_child == o.catch_all_child
            },
            Edge::Param => {
                &&& f.static_children == o.static_children
                &&& f.param_child == Some(Box::new(fc))
                &&& f.catch_all_child == o.catch_all_child
            },
            Edge::CatchAll => {
                &&& f.static_children == o.static_children
                &&& f.param_child == o.param_child
                &&& f.catch_all_child == Some(Box::new(fc))
            },
        }
    }
}

/// A child's view is the part of its parent's view below its edge.
proof fn lemma_child_subtree<T>(o: Router<T>, e: Edge)
    requires
        o.child(e) is Some,
    ensures
        o.child(e)->0@ == subtree(o@, seq![e]),
{
    let c = o.child(e)->0;
    assert forall|r: Seq<Edge>| #[trigger] c@.contains_key(r) == o@.contains_key(seq![e] + r) && (
    c@.contains_key(r) ==> c@[r] == o@[seq![e] + r]) by {
        lemma_view_cons(o, e, r);
    }
    assert(c@ =~= subtree(o@, seq![e]));
}

/// Growing a view by an edge to an existing child changes nothing.
proof fn lemma_view_prefixes<T>(o: Router<T>, e: Edge)
    requires
        o.child(e) is Some,
    ensures
        grown(o@, seq![e]) == o@,
{
    lemma_view_root(o);
    lemma_view_cons(o, e, seq![]);
    assert(seq![e] + Seq::<Edge>::empty() =~= seq![e]);
    let c = o.child(e)->0;
    lemma_view_root(c);
    assert forall|j: int| 0 <= j <= 1 implies o@.contains_key(#[trigger] seq![e].take(j)) by {
        if j == 0 {
            assert(seq![e].take(j) =~= seq![]);
        } else {
            assert(seq![e].take(j) =~= seq![e]);
        }
    }
    lemma_grown_present(o@, seq![e]);
}

/// Replacing the child along `e` of a well-formed node grafts the new
/// child's view there, and keeps the node well-formed if the child is.
proof fn lemma_replaced<T>(o: Router<T>, e: Edge, idx: int, w: nat)
    requires
        o.wf_at(w),
        o.child(e) is Some,
        e is Lit ==> 0 <= idx < o.static_children@.len() && o.static_children@[idx].0@ == e->Lit_0,
    ensures
        forall|f: Router<T>, fc: Router<T>|
            #![trigger f@, fc@]
            Router::replaced(o, f, e, fc, idx) ==> f@ == graft(o@, seq![e], fc@) && (fc.wf_at(
                depth_after(e, w),
            ) ==> f.wf_at(w)),
{
    lemma_view_prefixes(o, e);
    assert forall|f: Router<T>, fc: Router<T>|
        #![trigger f@, fc@]
        Router::replaced(o, f, e, fc, idx) implies f@ == graft(o@, seq![e], fc@) && (fc.wf_at(
            depth_after(e, w),
        ) ==> f.wf_at(w)) by {
        assert(f.entry() == o.entry());
        if let Edge::Lit(t) = e {
            assert(f.static_children@[idx].0@ == t);
            assert forall|i: int| 0 <= i < f.static_children@.len() implies #[trigger] f.static_children@[i].0
                == o.static_children@[i].0 by {}
            assert(f.has_static(t));
            let j = choose|j: int|
                0 <= j < f.static_children@.len() && #[trigger] f.static_children@[j].0@ == t;
            if j != idx {
                assert(o.static_children@[j].0@ == o.static_children@[idx].0@);
                if j < idx {
                    assert(o.static_children@[j].0@ != o.static_children@[idx].0@);
                } else {
                    assert(o.static_children@[idx].0@ != o.static_children@[j].0@);
                }
            }
            assert(f.child(e) == Some(fc));
            assert forall|e2: Edge| e2 != e implies #[trigger] f.child(e2) == o.child(e2) by {
                if let Edge::Lit(t2) = e2 {
                    if o.has_static(t2) {
                        let i2 = choose|i2: int|
                            0 <= i2 < o.static_children@.len() && #[trigger] o.static_children@[i2].0@
                                == t2;
                        assert(f.static_children@[i2].0@ == t2);
                        assert(f.has_static(t2));
                        let j2 = choose|j2: int|
                            0 <= j2 < f.static_children@.len() && #[trigger] f.static_children@[j2].0@
                                == t2;
                        assert(o.static_children@[j2].0@ == t2);
                        if j2 != i2 {
                            if j2 < i2 {
                                assert(o.static_children@[j2].0@ != o.static_children@[i2].0@);
                            } else {
                                assert(o.static_children@[i2].0@ != o.static_children@[j2].0@);
                            }
                        }
                        assert(i2 != idx);
                    } else {
                        assert(!f.has_static(t2)) by {
                            if f.has_static(t2) {
                                let j2 = choose|j2: int|
                                    0 <= j2 < f.static_children@.len()
                                        && #[trigger] f.static_children@[j2].0@ == t2;
                                assert(o.static_children@[j2].0@ == t2);
                            }
                        }
                    }
                }
            }
            lemma_view_replace_child(o, f, e, fc);
            if fc.wf_at(depth_after(e, w)) {
                assert forall|i: int| 0 <= i < f.static_children@.len() implies (
                #[trigger] f.static_children@[i]).1.wf_at(w) by {
                    if i != idx {
                        assert(f.static_children@[i] == o.static_children@[i]);
                    }
                }
                assert forall|i: int, j: int|
                    0 <= i < j < f.static_children@.len() implies #[trigger] f.static_children@[i].0@
                    != #[trigger] f.static_children@[j].0@ by {
                    assert(o.static_children@[i].0@ != o.static_children@[j].0@);
                }
            }
        } else {
            assert(f.child(e) == Some(fc));
            assert forall|e2: Edge| e2 != e implies #[trigger] f.child(e2) == o.child(e2) by {}
            lemma_view_replace_child(o, f, e, fc);
        }
    }
}

impl<T> Router<T> {
    /// `n` is `o` with a fresh static child under `t` inserted at `pos`,
    /// where it keeps the texts in order: `n` is well-formed, and its other
    /// children are those of `o`.
    proof fn lemma_inserted_static(o: Router<T>, n: Router<T>, t: Seq<char>, pos: int, fresh: Router<T>, w: nat)
        requires
            o.wf_at(w),
            fresh.wf_at(w),
            0 <= pos <= o.static_children@.len(),
            n.static_children@.len() == o.static_children@.len() + 1,
            n.static_children@[pos].0@ == t,
            n.static_children@[pos].1 == fresh,
            forall|k: int| 0 <= k < pos ==> #[trigger] n.static_children@[k] == o.static_children@[k],
            forall|k: int|
                pos < k < n.static_children@.len() ==> #[trigger] n.static_children@[k]
                    == o.static_children@[k - 1],
            forall|k: int| 0 <= k < pos ==> text_lt(#[trigger] o.static_children@[k].0@, t),
            forall|k: int|
                pos <= k < o.static_children@.len() ==> text_lt(t, #[trigger] o.static_children@[k].0@),
            n.data == o.data,
            n.params == o.params,
            n.param_child == o.param_child,
            n.catch_all_child == o.catch_all_child,
        ensures
            n.wf_at(w),
            n.child(Edge::Lit(t)) == Some(fresh),
            forall|e2: Edge| e2 != Edge::Lit(t) ==> #[trigger] n.child(e2) == o.child(e2),
    {
        let ns = n.static_children@;
        let os = o.static_children@;
        assert forall|i: int, j: int|
            0 <= i < j < ns.len() implies text_lt(#[trigger] ns[i].0@, #[trigger] ns[j].0@) by {
            if j < pos {
            } else if j == pos {
            } else if i < pos {
                lemma_text_lt_transitive(os[i].0@, t, os[j - 1].0@);
            } else if i == pos {
            } else {
            }
        }
        assert forall|i: int, j: int|
            0 <= i < j < ns.len() implies #[trigger] ns[i].0@ != #[trigger] ns[j].0@ by {
            lemma_text_lt_irreflexive(ns[i].0@);
        }
        assert forall|i: int| 0 <= i < ns.len() implies (#[trigger] ns[i]).1.wf_at(w) by {
            if i < pos {
            } else if i > pos {
                assert(ns[i] == os[i - 1]);
            }
        }
        assert(n.wf_at(w));
        lemma_static_child(n, w, pos);
        assert forall|e2: Edge| e2 != Edge::Lit(t) implies #[trigger] n.child(e2) == o.child(e2) by {
            if let Edge::Lit(t2) = e2 {
                if o.has_static(t2) {
                    let i2 = choose|i2: int| 0 <= i2 < os.len() && #[trigger] os[i2].0@ == t2;
                    let j2 = if i2 < pos {
                        i2
                    } else {
                        i2 + 1
                    };
                    assert(ns[j2] == os[i2]);
                    lemma_static_child(o, w, i2);
                    lemma_static_child(n, w, j2);
                } else {
                    assert(!n.has_static(t2)) by {
                        if n.has_static(t2) {
                            let j2 = choose|j2: int| 0 <= j2 < ns.len() && #[trigger] ns[j2].0@ == t2;
                            if j2 < pos {
                                assert(os[j2].0@ == t2);
                            } else if j2 > pos {
                                assert(os[j2 - 1].0@ == t2);
                            }
                        }
                    }
                }
            }
        }
    }

    /// Where the static child under `seg` is (`Ok`), or where it would go to
    /// keep the texts in order (`Err`), found by binary search.
    fn find_static(&self, seg: &String) -> (r: Result<usize, usize>)
        requires
            self.statics_sorted(),
        ensures
            match r {
                Ok(i) => i < self.static_children@.len() && self.static_children@[i as int].0@
                    == seg@,
                Err(p) => {
                    &&& p <= self.static_children@.len()
                    &&& forall|k: int|
                        0 <= k < p ==> text_lt(#[trigger] self.static_children@[k].0@, seg@)
                    &&& forall|k: int|
                        p <= k < self.static_children@.len() ==> text_lt(
                            seg@,
                            #[trigger] self.static_children@[k].0@,
                        )
                },
            },
    {
        let mut lo: usize = 0;
        let mut hi: usize = self.static_children.len();
        while lo < hi
            invariant
                lo <= hi <= self.static_children@.len(),
                self.statics_sorted(),
                forall|k: int| 0 <= k < lo ==> text_lt(#[trigger] self.static_children@[k].0@, seg@),
                forall|k: int|
                    hi <= k < self.static_children@.len() ==> text_lt(
                        seg@,
                        #[trigger] self.static_children@[k].0@,
                    ),
            decreases hi - lo,
        {
            let mid = lo + (hi - lo) / 2;
            let ghost m = self.static_children@[mid as int].0@;
            match compare_text(self.static_children[mid].0.as_str(), seg.as_str()) {
                core::cmp::Ordering::Less => {
                    assert forall|k: int| 0 <= k < mid + 1 implies text_lt(
                        #[trigger] self.static_children@[k].0@,
                        seg@,
                    ) by {
                        if k < mid {
                            lemma_text_lt_transitive(self.static_children@[k].0@, m, seg@);
                        }
                    }
                    lo = mid + 1;
                },
                core::cmp::Ordering::Greater => {
                    assert forall|k: int| mid <= k < self.static_children@.len() implies text_lt(
                        seg@,
                        #[trigger] self.static_children@[k].0@,
                    ) by {
                        if k > mid {
                            lemma_text_lt_transitive(seg@, m, self.static_children@[k].0@);
                        }
                    }
                    hi = mid;
                },
                core::cmp::Ordering::Equal => {
                    return Ok(mid);
                },
            }
        }
        Err(lo)
    }
}

impl<T> Router<T> {
    /// Makes the child along the edge of segment `seg` if it is missing;
    /// gives the index of a static child.
    fn add_segment(&mut self, seg: &String, Ghost(w): Ghost<nat>) -> (idx: usize)
        requires
            old(self).wf_at(w),
            seg@.len() > 0,
            edge_of(seg@) is Param ==> old(self).catch_all_child is None,
            edge_of(seg@) is CatchAll ==> old(self).param_child is None,
        ensures
            final(self).wf_at(w),
            final(self)@ == grown(old(self)@, seq![edge_of(seg@)]),
            final(self).child(edge_of(seg@)) is Some,
            edge_of(seg@) is Lit ==> idx < final(self).static_children@.len()
                && final(self).static_children@[idx as int].0@ == seg@,
    {
        let ghost e = edge_of(seg@);
        let ghost o = *self;
        let k = first_char(seg.as_str()).unwrap();
        let mut idx: usize = 0;
        let mut made = false;
        let node = Router::empty_node();
        let ghost fresh = node;
        if k == ':' {
            if self.param_child.is_none() {
                self.param_child = Some(Box::new(node));
                made = true;
            }
        } else if k == '*' {
            if self.catch_all_child.is_none() {
                self.catch_all_child = Some(Box::new(node));
                made = true;
            }
        } else {
            match self.find_static(seg) {
                Ok(i) => {
                    idx = i;
                },
                Err(pos) => {
                    self.static_children.insert(pos, (seg.clone(), node));
                    idx = pos;
                    made = true;
                },
            }
        }
        proof {
            if made {
                assert(fresh.wf_at(w) && fresh.wf_at(w + 1));
                if e is Lit {
                    lemma_text_lt_irreflexive(seg@);
                    assert(!o.has_static(seg@));
                    Router::lemma_inserted_static(o, *self, seg@, idx as int, fresh, w);
                } else {
                    assert(self.static_children == o.static_children);
                    assert(forall|e2: Edge| e2 is Lit ==> #[trigger] self.child(e2) == o.child(e2));
                }
                assert(self.wf_at(w));
                assert(self.child(e) == Some(fresh));
                assert(forall|e2: Edge| e2 != e ==> #[trigger] self.child(e2) == o.child(e2));
                lemma_view_replace_child(o, *self, e, fresh);
                assert forall|r: Seq<Edge>| !o@.contains_key(#[trigger] (seq![e] + r)) by {
                    lemma_view_cons(o, e, r);
                }
                lemma_graft_fresh(o@, e);
            } else {
                if e is Lit {
                    lemma_static_child(o, w, idx as int);
                }
                lemma_view_prefixes(o, e);
            }
        }
        idx
    }

    /// The child along the edge of segment `seg`, which is there (for a
    /// static child, at `idx`), for the caller to change.
    fn child_mut(&mut self, seg: &String, idx: usize, Ghost(w): Ghost<nat>) -> (c: &mut Router<T>)
        requires
            old(self).wf_at(w),
            seg@.len() > 0,
            old(self).child(edge_of(seg@)) is Some,
            edge_of(seg@) is Lit ==> idx < old(self).static_children@.len()
                && old(self).static_children@[idx as int].0@ == seg@,
        ensures
            c@ == subtree(old(self)@, seq![edge_of(seg@)]),
            c.wf_at(depth_after(edge_of(seg@), w)),
            final(self)@ == graft(old(self)@, seq![edge_of(seg@)], final(c)@),
            final(c).wf_at(depth_after(edge_of(seg@), w)) ==> final(self).wf_at(w),
    {
        let ghost e = edge_of(seg@);
        proof {
            lemma_child_subtree(*self, e);
            lemma_replaced(*self, e, idx as int, w);
            if e is Lit {
                lemma_static_child(*self, w, idx as int);
            }
        }
        let k = first_char(seg.as_str()).unwrap();
        if k == ':' {
            let b = self.param_child.as_mut().unwrap();
            &mut **b
        } else if k == '*' {
            let b = self.catch_all_child.as_mut().unwrap();
            &mut **b
        } else {
            let pair = &mut self.static_children[idx];
            &mut pair.1
        }
    }
}

/// Nothing at or below a missing node, so nothing there clashes.
proof fn lemma_absent_below<T>(n: Router<T>, es: Seq<Edge>, i: int, names: Seq<Seq<char>>)
    requires
        0 <= i < es.len(),
        n.lookup(es.take(i + 1)) is None,
    ensures
        forall|k: int| i < k < es.len() ==> !#[trigger] clash_at(n@, es, k),
        !name_clash(n@, es, names),
{
    assert forall|k: int| i < k < es.len() implies !#[trigger] clash_at(n@, es, k) by {
        let a = es.take(k).push(Edge::CatchAll);
        let b = es.take(k).push(Edge::Param);
        assert(a.take(i + 1) =~= es.take(i + 1));
        assert(b.take(i + 1) =~= es.take(i + 1));
        if n@.contains_key(a) {
            lemma_lookup_prefix(n, a, i + 1);
        }
        if n@.contains_key(b) {
            lemma_lookup_prefix(n, b, i + 1);
        }
    }
    if n@.contains_key(es) {
        lemma_lookup_prefix(n, es, i + 1);
    }
}

/// Edges of segments from `i` on: the first, then the rest.
proof fn lemma_edges_from(ss: Seq<Seq<char>>, i: int)
    requires
        0 <= i < ss.len(),
    ensures
        edges_of(ss.skip(i)) == seq![edge_of(ss[i])] + edges_of(ss.skip(i + 1)),
        edges_of(ss.skip(i))[0] == edge_of(ss[i]),
{
    assert(edges_of(ss.skip(i)) =~= seq![edge_of(ss[i])] + edges_of(ss.skip(i + 1)));
}

impl<T> Router<T> {
    /// The node at the end of the segments `segs[i..]`, made where missing.
    fn descend(&mut self, segs: &Vec<String>, i: usize, Ghost(w): Ghost<nat>) -> (n: &mut Router<T>)
        requires
            old(self).wf_at(w),
            i <= segs@.len(),
            forall|k: int| i <= k < segs@.len() ==> (#[trigger] segs@[k])@.len() > 0,
            !kind_clash(old(self)@, edges_of(views(segs@).skip(i as int))),
        ensures
            ({
                let es = edges_of(views(segs@).skip(i as int));
                &&& n@ == subtree(grown(old(self)@, es), es)
                &&& n.wf_at(w + wild_count(es))
                &&& final(self)@ == graft(grown(old(self)@, es), es, final(n)@)
                &&& final(n).wf_at(w + wild_count(es)) ==> final(self).wf_at(w)
            }),
        decreases segs@.len() - i,
    {
        let ghost ss = views(segs@);
        let ghost o = *self;
        if i == segs.len() {
            proof {
                let es = edges_of(ss.skip(i as int));
                assert(es =~= seq![]);
                lemma_view_root(o);
                lemma_graft_root(o@);
            }
            return self;
        }
        let seg = &segs[i];
        let ghost e = edge_of(seg@);
        let ghost rest = edges_of(ss.skip(i + 1));
        proof {
            assert(seg@ == ss[i as int]);
            lemma_edges_from(ss, i as int);
            let es = edges_of(ss.skip(i as int));
            assert(!clash_at(o@, es, 0));
            assert(es.take(0) =~= seq![]);
            lemma_view_cons(o, Edge::CatchAll, seq![]);
            lemma_view_cons(o, Edge::Param, seq![]);
            assert(seq![Edge::CatchAll] + Seq::<Edge>::empty() =~= seq![Edge::CatchAll]);
            assert(seq![Edge::Param] + Seq::<Edge>::empty() =~= seq![Edge::Param]);
            lemma_descend_compose(o@, e, rest);
            lemma_wild_count_cons(e, rest);
        }
        let idx = self.add_segment(seg, Ghost(w));
        let c = self.child_mut(seg, idx, Ghost(w));
        c.descend(segs, i + 1, Ghost(depth_after(e, w)))
    }

    /// Whether adding the pattern of `segs`, binding `names`, would clash
    /// with the routes already here.
    fn will_conflict(&self, segs: &Vec<String>, names: &Vec<String>) -> (r: bool)
        requires
            self.wf(),
            forall|k: int| 0 <= k < segs@.len() ==> (#[trigger] segs@[k])@.len() > 0,
        ensures
            r == (kind_clash(self@, edges_of(views(segs@))) || name_clash(
                self@,
                edges_of(views(segs@)),
                views(names@),
            )),
    {
        let ghost ss = views(segs@);
        let ghost es = edges_of(ss);
        let ghost m = self@;
        let mut cur: &Router<T> = self;
        let ghost mut at: Seq<Edge> = seq![];
        let ghost mut w: nat = 0;
        let mut i: usize = 0;
        assert(es.take(0) =~= at);
        while i < segs.len()
            invariant
                ss == views(segs@),
                es == edges_of(ss),
                m == self@,
                forall|k: int| 0 <= k < segs@.len() ==> (#[trigger] segs@[k])@.len() > 0,
                i <= segs@.len(),
                at == es.take(i as int),
                self.lookup(at) == Some(*cur),
                cur.wf_at(w),
                forall|k: int| 0 <= k < i ==> !#[trigger] clash_at(m, es, k),
            decreases segs.len() - i,
        {
            let seg = &segs[i];
            let ghost e = edge_of(seg@);
            proof {
                assert(seg@ == ss[i as int]);
                assert(es[i as int] == e);
                lemma_lookup_push(*self, at, Edge::CatchAll);
                lemma_lookup_push(*self, at, Edge::Param);
                lemma_lookup_push(*self, at, e);
                assert(es.take(i + 1) =~= at.push(e));
            }
            let k = first_char(seg.as_str()).unwrap();
            if k == ':' {
                if cur.catch_all_child.is_some() {
                    assert(clash_at(m, es, i as int));
                    return true;
                }
                match &cur.param_child {
                    Some(b) => {
                        cur = &**b;
                        proof {
                            w = w + 1;
                        }
                    },
                    None => {
                        proof {
                            lemma_absent_below(*self, es, i as int, views(names@));
                        }
                        return false;
                    },
                }
            } else if k == '*' {
                if cur.param_child.is_some() {
                    assert(clash_at(m, es, i as int));
                    return true;
                }
                match &cur.catch_all_child {
                    Some(b) => {
                        cur = &**b;
                        proof {
                            w = w + 1;
                        }
                    },
                    None => {
                        proof {
                            lemma_absent_below(*self, es, i as int, views(names@));
                        }
                        return false;
                    },
                }
            } else {
                match cur.child_index(seg) {
                    Some(idx) => {
                        proof {
                            lemma_static_child(*cur, w, idx as int);
                        }
                        cur = &cur.static_children[idx].1;
                    },
                    None => {
                        proof {
                            lemma_absent_below(*self, es, i as int, views(names@));
                        }
                        return false;
                    },
                }
            }
            proof {
                at = at.push(e);
            }
            i = i + 1;
        }
        assert(at =~= es);
        assert(m.contains_key(es) && m[es] == cur.entry());
        cur.params.len() > 0 && !same_strings(&cur.params, names)
    }

    /// Sets the value and names of this node; gives the value back to change.
    fn set_data(&mut self, data: T, names: Vec<String>, Ghost(w): Ghost<nat>) -> (d: &mut T)
        requires
            old(self).wf_at(w),
            views(names@).len() == w,
            views(names@).no_duplicates(),
        ensures
            *d == data,
            final(self)@ == old(self)@.insert(
                seq![],
                Entry { data: Some(*final(d)), names: views(names@) },
            ),
            final(self).wf_at(w),
    {
        let ghost o = *self;
        proof {
            assert forall|f: Router<T>|
                #![trigger f@]
                f.static_children == o.static_children && f.param_child == o.param_child
                    && f.catch_all_child == o.catch_all_child implies f@ == o@.insert(
                seq![],
                f.entry(),
            ) by {
                assert forall|e: Edge| #[trigger] f.child(e) == o.child(e) by {}
                lemma_view_same_children(o, f);
            }
        }
        self.params = names;
        self.data.insert(data)
    }

    /// Adds the route `route` with value `data`, and gives the stored value
    /// back to change.
    ///
    /// Fails with `InvalidFormat` where `route` is no valid pattern: it must
    /// start with `/`, have no empty segment (so no `//` and no trailing `/`
    /// but in `/`), no empty or repeated parameter name, and a catch-all
    /// only as its last segment. Fails with `RouteConflict` where a
    /// parameter would hang beside a catch-all or the reverse, or where the
    /// node the route ends at records other names. A failure changes nothing.
    /// Adding a route again replaces its value.
    pub fn add(&mut self, route: &str, data: T) -> (r: Result<&mut T, Error>)
        requires
            old(self).wf(),
        ensures
            final(self).wf(),
            match r {
                Ok(d) => {
                    &&& valid_route(route@)
                    &&& !conflicts(old(self)@, route@)
                    &&& *d == data
                    &&& final(self)@ == added(old(self)@, route@, *final(d))
                },
                Err(e) => {
                    &&& *final(self) == *old(self)
                    &&& (e == Error::InvalidFormat <==> !valid_route(route@))
                    &&& (e == Error::RouteConflict <==> valid_route(route@) && conflicts(
                        old(self)@,
                        route@,
                    ))
                },
            },
    {
        if !is_valid_route(route) {
            return Err(Error::InvalidFormat);
        }
        let segs = route_segments(route);
        assert forall|k: int| 0 <= k < segs@.len() implies (#[trigger] segs@[k])@.len() > 0 by {
            assert(views(segs@)[k] == segs@[k]@);
        }
        let names = wildcard_names(&segs);
        if self.will_conflict(&segs, &names) {
            return Err(Error::RouteConflict);
        }
        let ghost ss = views(segs@);
        let ghost es = edges_of(ss);
        proof {
            assert(ss.skip(0) =~= ss);
            lemma_wild_names_distinct(ss);
            lemma_edge_count(ss);
            let g = grown(self@, es);
            assert(g.contains_key(es)) by {
                assert(es.take(es.len() as int) =~= es);
            }
            lemma_graft_entry(g, es);
        }
        let node = self.descend(&segs, 0, Ghost(0));
        Ok(node.set_data(data, names, Ghost(wild_count(es))))
    }
}

impl<T> Router<T> {
    /// The node at the end of the literal pattern `route`, made where
    /// missing, as a router of its own: routes added to it are found below
    /// `route` here.
    ///
    /// Fails with `InvalidFormat` where `route` is not a pattern of literal
    /// segments only.
    pub fn sub_route(&mut self, route: &str) -> (r: Result<&mut Router<T>, Error>)
        requires
            old(self).wf(),
        ensures
            match r {
                Ok(n) => {
                    &&& valid_base(route@)
                    &&& n.wf()
                    &&& n@ == subtree(grown(old(self)@, route_key(route@)), route_key(route@))
                    &&& final(self)@ == graft(
                        grown(old(self)@, route_key(route@)),
                        route_key(route@),
                        final(n)@,
                    )
                    &&& final(n).wf() ==> final(self).wf()
                },
                Err(e) => {
                    &&& e == Error::InvalidFormat
                    &&& !valid_base(route@)
                    &&& *final(self) == *old(self)
                },
            },
    {
        if !is_valid_base(route) {
            return Err(Error::InvalidFormat);
        }
        let segs = route_segments(route);
        let ghost ss = views(segs@);
        let ghost es = edges_of(ss);
        proof {
            assert(ss.skip(0) =~= ss);
            assert forall|k: int| 0 <= k < segs@.len() implies (#[trigger] segs@[k])@.len() > 0 by {
                assert(ss[k] == segs@[k]@);
            }
            assert forall|k: int| 0 <= k < es.len() implies (#[trigger] es[k]) is Lit by {
                assert(es[k] == edge_of(ss[k]));
            }
            lemma_literal_edges(self@, es);
        }
        let n = self.descend(&segs, 0, Ghost(0));
        Ok(n)
    }
}

/// Where a node hangs below its parent.
pub enum NodeKind {
    /// Under the literal text of a segment.
    Static,
    /// As the parameter child.
    Param,
    /// As the catch-all child.
    CatchAll,
}

/// The edge to a node that hangs as `p.0`, under text `p.1` if static.
pub open spec fn part_edge(p: (NodeKind, String)) -> Edge {
    match p.0 {
        NodeKind::Static => Edge::Lit(p.1@),
        NodeKind::Param => Edge::Param,
        NodeKind::CatchAll => Edge::CatchAll,
    }
}

/// The key of the node reached along `parts`.
pub open spec fn parts_key(parts: Seq<(NodeKind, String)>) -> Seq<Edge> {
    parts.map_values(|p: (NodeKind, String)| part_edge(p))
}

/// The pattern of the route at the node reached along `parts`, with `names`.
fn combine_route_parts(parts: &Vec<(NodeKind, String)>, names: &Vec<String>) -> (r: String)
    ensures
        r@ == route_text(parts_key(parts@), views(names@)),
{
    proof {
        reveal_strlit("/");
        reveal_strlit(":");
        reveal_strlit("*");
    }
    if parts.len() == 0 {
        return String::from_str("/");
    }
    let ghost key = parts_key(parts@);
    let ghost ns = views(names@);
    let mut acc = String::new();
    let mut i: usize = 0;
    let mut j: usize = 0;
    assert(key.skip(0) =~= key);
    assert(acc@ + filled(key, ns, 0) =~= filled(key, ns, 0));
    while i < parts.len()
        invariant
            key == parts_key(parts@),
            ns == views(names@),
            i <= parts@.len(),
            j <= i,
            acc@ + filled(key.skip(i as int), ns, j as int) == filled(key, ns, 0),
        decreases parts.len() - i,
    {
        let ghost before = acc@;
        let ghost k = key.skip(i as int);
        assert(k[0] == key[i as int]);
        assert(k.drop_first() =~= key.skip(i + 1));
        let ghost p = piece(key[i as int], ns, j as int);
        assert(key[i as int] == part_edge(parts@[i as int]));
        proof {
            reveal_strlit("/");
            reveal_strlit(":");
            reveal_strlit("*");
        }
        acc.append("/");
        match parts[i].0 {
            NodeKind::Static => {
                acc.append(parts[i].1.as_str());
            },
            NodeKind::Param => {
                acc.append(":");
                if j < names.len() {
                    acc.append(names[j].as_str());
                }
                j = j + 1;
            },
            NodeKind::CatchAll => {
                acc.append("*");
                if j < names.len() {
                    acc.append(names[j].as_str());
                }
                j = j + 1;
            },
        }
        assert(acc@ =~= before + seq!['/'] + p);
        assert(acc@ + filled(key.skip(i + 1), ns, j as int) =~= before + filled(k, ns, j as int - (
        if key[i as int] is Lit {
            0int
        } else {
            1int
        })));
        i = i + 1;
    }
    assert(filled(key.skip(i as int), ns, j as int) == Seq::<char>::empty());
    assert(acc@ =~= filled(key, ns, 0));
    acc
}

impl<T> Router<T> {
    pub closed spec fn static_count(self) -> int {
        self.static_children@.len() as int
    }

    /// The patterns of the routes at and below this node, which hangs at
    /// `at`: its own first, then those below its static children in order,
    /// then below its parameter child, then below its catch-all child.
    pub closed spec fn listing(self, at: Seq<Edge>) -> Seq<Seq<char>>
        decreases self, self.static_count() + 1,
    {
        (if self.data is Some {
            seq![route_text(at, views(self.params@))]
        } else {
            seq![]
        }) + self.listing_statics(at, 0) + (match self.param_child {
            Some(b) => b.listing(at.push(Edge::Param)),
            None => seq![],
        }) + (match self.catch_all_child {
            Some(b) => b.listing(at.push(Edge::CatchAll)),
            None => seq![],
        })
    }

    /// The patterns below the static children from the `j`-th on.
    pub closed spec fn listing_statics(self, at: Seq<Edge>, j: int) -> Seq<Seq<char>>
        decreases self, self.static_count() - j,
    {
        if j < 0 || j >= self.static_children@.len() {
            seq![]
        } else {
            self.static_children@[j].1.listing(at.push(Edge::Lit(self.static_children@[j].0@)))
                + self.listing_statics(at, j + 1)
        }
    }
}

impl<T> Router<T> {
    /// Appends to `out` the patterns of the routes at and below this node,
    /// which hangs along `parts`.
    fn list_sub_routes(&self, parts: &mut Vec<(NodeKind, String)>, out: &mut Vec<String>)
        ensures
            final(parts)@ == old(parts)@,
            views(final(out)@) == views(old(out)@) + self.listing(parts_key(old(parts)@)),
        decreases self,
    {
        let ghost parts0 = parts@;
        let ghost at = parts_key(parts0);
        let ghost out0 = views(out@);
        let ghost own = if self.data is Some {
            seq![route_text(at, views(self.params@))]
        } else {
            Seq::<Seq<char>>::empty()
        };
        if self.data.is_some() {
            let text = combine_route_parts(parts, &self.params);
            out.push(text);
        }
        assert(views(out@) =~= out0 + own);
        let mut j: usize = 0;
        while j < self.static_children.len()
            invariant
                parts@ == parts0,
                at == parts_key(parts0),
                j <= self.static_children@.len(),
                views(out@) + self.listing_statics(at, j as int) == out0 + own
                    + self.listing_statics(at, 0),
            decreases self.static_children.len() - j,
        {
            let ghost before = views(out@);
            let text = self.static_children[j].0.clone();
            parts.push((NodeKind::Static, text));
            assert(parts_key(parts@) =~= at.push(Edge::Lit(self.static_children@[j as int].0@)));
            self.static_children[j].1.list_sub_routes(parts, out);
            let _ = parts.pop();
            assert(parts@ =~= parts0);
            let ghost child = self.static_children@[j as int].1.listing(
                at.push(Edge::Lit(self.static_children@[j as int].0@)),
            );
            assert(self.listing_statics(at, j as int) == child + self.listing_statics(
                at,
                j + 1,
            ));
            assert(views(out@) + self.listing_statics(at, j + 1) =~= before
                + self.listing_statics(at, j as int));
            j = j + 1;
        }
        let ghost mid = views(out@);
        match &self.param_child {
            Some(b) => {
                parts.push((NodeKind::Param, String::new()));
                assert(parts_key(parts@) =~= at.push(Edge::Param));
                b.list_sub_routes(parts, out);
                let _ = parts.pop();
                assert(parts@ =~= parts0);
            },
            None => {},
        }
        let ghost mid2 = views(out@);
        match &self.catch_all_child {
            Some(b) => {
                parts.push((NodeKind::CatchAll, String::new()));
                assert(parts_key(parts@) =~= at.push(Edge::CatchAll));
                b.list_sub_routes(parts, out);
                let _ = parts.pop();
                assert(parts@ =~= parts0);
            },
            None => {},
        }
        assert(self.listing_statics(at, j as int) == Seq::<Seq<char>>::empty());
        assert(views(out@) =~= out0 + self.listing(at));
    }

    /// The patterns of all routes, depth first: a node's own route, then
    /// those below its static children in the order of their texts, then
    /// below its parameter child, then below its catch-all child.
    pub fn list_routes(&self) -> (r: Vec<String>)
        ensures
            views(r@) == self.listing(seq![]),
    {
        let mut parts: Vec<(NodeKind, String)> = Vec::new();
        let mut out: Vec<String> = Vec::new();
        assert(parts_key(parts@) =~= seq![]);
        self.list_sub_routes(&mut parts, &mut out);
        assert(views(out@) =~= self.listing(seq![]));
        out
    }
}

} // verus!
