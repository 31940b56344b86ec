//! Splitting paths and patterns into segments.
use vstd::prelude::*;
use vstd::string::*;

verus! {

/// Index of the first `/` in `s`, or `s.len()` when there is none.
pub open spec fn slash_at(s: Seq<char>) -> nat
    decreases s.len(),
{
    if s.len() == 0 {
        0
    } else if s[0] == '/' {
        0
    } else {
        1 + slash_at(s.drop_first())
    }
}

/// `s` cut at every `/`: empty pieces included, so the result is never empty.
pub open spec fn split(s: Seq<char>) -> Seq<Seq<char>>
    decreases s.len(),
{
    let j = slash_at(s);
    if j >= s.len() {
        seq![s]
    } else {
        seq![s.take(j as int)] + split(s.skip((j + 1) as int))
    }
}

/// `j` is the first `/` in `s`, or its end.
pub proof fn lemma_slash_at(s: Seq<char>, j: int)
    requires
        0 <= j <= s.len(),
        forall|k: int| 0 <= k < j ==> s[k] != '/',
        j == s.len() || s[j] == '/',
    ensures
        slash_at(s) == j,
    decreases j,
{
    if j > 0 {
        lemma_slash_at(s.drop_first(), j - 1);
    }
}

/// The characters of `s`, one per element.
pub fn chars_of(s: &str) -> (r: Vec<char>)
    ensures
        r@ == s@,
{
    let mut r: Vec<char> = Vec::new();
    for c in it: s.chars()
        invariant
            r@ == it.seq().take(it.index() as int),
    {
        r.push(c);
    }
    r
}

/// `s` cut at every `/`.
pub fn split_segments(s: &str) -> (r: Vec<String>)
    ensures
        r@.map_values(|x: String| x@) == split(s@),
{
    let chars = chars_of(s);
    let n = chars.len();
    let mut out: Vec<String> = Vec::new();
    let mut start: usize = 0;
    assert(s@.skip(0) =~= s@);
    assert(out@.map_values(|x: String| x@) + split(s@) =~= split(s@));
    loop
        invariant
            chars@ == s@,
            n == s@.len(),
            start <= n,
            out@.map_values(|x: String| x@) + split(s@.skip(start as int)) == split(s@),
        decreases n - start,
    {
        let mut j: usize = start;
        while j < n && chars[j] != '/'
            invariant
                chars@ == s@,
                n == s@.len(),
                start <= j <= n,
                forall|k: int| start <= k < j ==> s@[k] != '/',
            decreases n - j,
        {
            j = j + 1;
        }
        let seg = s.substring_char(start, j).to_owned();
        let ghost t = s@.skip(start as int);
        proof {
            lemma_slash_at(t, j - start);
            assert(t.take(j - start) =~= s@.subrange(start as int, j as int));
            if j < n {
                assert(t.skip(j - start + 1) =~= s@.skip(j + 1));
            }
        }
        let ghost before = out@.map_values(|x: String| x@);
        out.push(seg);
        assert(out@.map_values(|x: String| x@) =~= before.push(seg@));
        if j == n {
            assert(before.push(seg@) =~= before + split(t));
            return out;
        }
        assert(before.push(seg@) + split(s@.skip(j + 1)) =~= before + split(t));
        start = j + 1;
    }
}

/// A `:name` segment: binds one path segment.
pub open spec fn is_param(seg: Seq<char>) -> bool {
    seg.len() > 0 && seg[0] == ':'
}

/// A `*name` segment: binds the rest of the path.
pub open spec fn is_catch_all(seg: Seq<char>) -> bool {
    seg.len() > 0 && seg[0] == '*'
}

/// A parameter or a catch-all segment.
pub open spec fn is_wild(seg: Seq<char>) -> bool {
    is_param(seg) || is_catch_all(seg)
}

/// The name a wildcard segment binds: all after its prefix.
pub open spec fn name_of(seg: Seq<char>) -> Seq<char> {
    seg.drop_first()
}

/// The names bound by the wildcard segments of `segs`, in order.
pub open spec fn wild_names(segs: Seq<Seq<char>>) -> Seq<Seq<char>>
    decreases segs.len(),
{
    if segs.len() == 0 {
        seq![]
    } else if is_wild(segs.last()) {
        wild_names(segs.drop_last()).push(name_of(segs.last()))
    } else {
        wild_names(segs.drop_last())
    }
}

/// Starts with `/`, and ends with one only when it is `/` itself.
pub open spec fn in_good_shape(r: Seq<char>) -> bool {
    &&& r.len() >= 1
    &&& r[0] == '/'
    &&& !(r.len() > 1 && r.last() == '/')
}

/// The segments of a pattern: none for `/`, else its body cut at every `/`.
pub open spec fn pattern_segments(r: Seq<char>) -> Seq<Seq<char>> {
    if r.len() <= 1 {
        seq![]
    } else {
        split(r.skip(1))
    }
}

/// What a pattern given to `add` must be.
pub open spec fn valid_route(r: Seq<char>) -> bool {
    let segs = pattern_segments(r);
    &&& in_good_shape(r)
    &&& forall|i: int| 0 <= i < segs.len() ==> #[trigger] segs[i].len() > 0
    &&& forall|i: int| 0 <= i < segs.len() && is_wild(segs[i]) ==> #[trigger] segs[i].len() >= 2
    &&& forall|i: int, j: int|
        0 <= i < j < segs.len() && is_wild(segs[i]) && is_wild(segs[j]) ==> name_of(
            #[trigger] segs[i],
        ) != name_of(#[trigger] segs[j])
    &&& forall|i: int| 0 <= i < segs.len() && #[trigger] is_catch_all(segs[i]) ==> i == segs.len() - 1
}

/// What a pattern given to `sub_route` must be: literal segments only.
pub open spec fn valid_base(r: Seq<char>) -> bool {
    let segs = pattern_segments(r);
    &&& in_good_shape(r)
    &&& forall|i: int| 0 <= i < segs.len() ==> #[trigger] segs[i].len() > 0 && !is_wild(segs[i])
}

/// The contents of each string.
pub open spec fn views(v: Seq<String>) -> Seq<Seq<char>> {
    v.map_values(|x: String| x@)
}

/// First character of `s`, if any.
pub fn first_char(s: &str) -> (r: Option<char>)
    ensures
        r == (if s@.len() > 0 { Some(s@[0]) } else { None::<char> }),
{
    if s.unicode_len() == 0 {
        None
    } else {
        Some(s.get_char(0))
    }
}

/// The segment with its first character removed.
pub fn param_name(seg: &str) -> (r: String)
    requires
        seg@.len() > 0,
    ensures
        r@ == name_of(seg@),
{
    let n = seg.unicode_len();
    seg.substring_char(1, n).to_owned()
}

/// Whether `v` holds a string with the contents of `s`.
pub fn contains_string(v: &Vec<String>, s: &String) -> (r: bool)
    ensures
        r == views(v@).contains(s@),
{
    let mut i: usize = 0;
    while i < v.len()
        invariant
            i <= v.len(),
            forall|k: int| 0 <= k < i ==> v@[k]@ != s@,
        decreases v.len() - i,
    {
        if v[i] == *s {
            assert(views(v@)[i as int] == s@);
            return true;
        }
        i = i + 1;
    }
    assert(!views(v@).contains(s@)) by {
        if views(v@).contains(s@) {
            let k = choose|k: int| 0 <= k < views(v@).len() && views(v@)[k] == s@;
            assert(v@[k]@ == s@);
        }
    }
    false
}

/// The body of a pattern that starts with `/`, cut at every `/`.
pub(crate) fn body_segments(r: &str) -> (segs: Vec<String>)
    requires
        r@.len() >= 1,
    ensures
        views(segs@) == split(r@.skip(1)),
{
    let n = r.unicode_len();
    let body = r.substring_char(1, n);
    assert(body@ =~= r@.skip(1));
    split_segments(body)
}

/// Whether `r` starts with `/` and, unless it is `/`, does not end with one.
pub fn is_route_in_good_shape(r: &str) -> (b: bool)
    ensures
        b == in_good_shape(r@),
{
    let n = r.unicode_len();
    if n == 0 {
        return false;
    }
    if r.get_char(0) != '/' {
        return false;
    }
    if n > 1 && r.get_char(n - 1) == '/' {
        return false;
    }
    true
}

/// Whether `r` may be given to `add`.
pub fn is_valid_route(r: &str) -> (b: bool)
    ensures
        b == valid_route(r@),
{
    if !is_route_in_good_shape(r) {
        return false;
    }
    if r.unicode_len() == 1 {
        return true;
    }
    let segs = body_segments(r);
    let ghost ss = views(segs@);
    let mut seen: Vec<String> = Vec::new();
    let mut has_catch_all = false;
    let mut i: usize = 0;
    while i < segs.len()
        invariant
            ss == views(segs@),
            ss == pattern_segments(r@),
            in_good_shape(r@),
            i <= segs.len(),
            has_catch_all == (i > 0 && is_catch_all(ss[i - 1])),
            forall|k: int| 0 <= k < i ==> #[trigger] ss[k].len() > 0,
            forall|k: int| 0 <= k < i && is_wild(ss[k]) ==> #[trigger] ss[k].len() >= 2,
            forall|k: int, l: int|
                0 <= k < l < i && is_wild(ss[k]) && is_wild(ss[l]) ==> name_of(#[trigger] ss[k])
                    != name_of(#[trigger] ss[l]),
            forall|k: int| 0 <= k < i - 1 ==> !is_catch_all(#[trigger] ss[k]),
            forall|x: Seq<char>|
                views(seen@).contains(x) <==> exists|k: int|
                    0 <= k < i && is_wild(#[trigger] ss[k]) && name_of(ss[k]) == x,
        decreases segs.len() - i,
    {
        let seg = segs[i].as_str();
        assert(seg@ == ss[i as int]);
        let c = first_char(seg);
        if c.is_none() || has_catch_all {
            return false;
        }
        let c = c.unwrap();
        if c == ':' || c == '*' {
            if seg.unicode_len() == 1 {
                return false;
            }
            let name = param_name(seg);
            if contains_string(&seen, &name) {
                return false;
            }
            let ghost old_seen = views(seen@);
            seen.push(name);
            assert(views(seen@) =~= old_seen.push(name@));
            assert forall|x: Seq<char>|
                views(seen@).contains(x) implies exists|k: int|
                    0 <= k < i + 1 && is_wild(#[trigger] ss[k]) && name_of(ss[k]) == x by {
                if x != name@ {
                    assert(old_seen.contains(x));
                }
            }
            assert forall|x: Seq<char>|
                (exists|k: int| 0 <= k < i + 1 && is_wild(#[trigger] ss[k]) && name_of(ss[k]) == x)
                implies views(seen@).contains(x) by {
                let k = choose|k: int| 0 <= k < i + 1 && is_wild(#[trigger] ss[k]) && name_of(ss[k]) == x;
                if k < i {
                    assert(old_seen.contains(x));
                    let j = choose|j: int| 0 <= j < old_seen.len() && old_seen[j] == x;
                    assert(views(seen@)[j] == x);
                } else {
                    assert(views(seen@)[old_seen.len() as int] == x);
                }
            }
        }
        if c == '*' {
            has_catch_all = true;
        }
        i = i + 1;
    }
    true
}

/// Whether `r` may be given to `sub_route`.
pub fn is_valid_base(r: &str) -> (b: bool)
    ensures
        b == valid_base(r@),
{
    if !is_route_in_good_shape(r) {
        return false;
    }
    if r.unicode_len() == 1 {
        return true;
    }
    let segs = body_segments(r);
    let ghost ss = views(segs@);
    let mut i: usize = 0;
    while i < segs.len()
        invariant
            ss == views(segs@),
            ss == pattern_segments(r@),
            i <= segs.len(),
            forall|k: int| 0 <= k < i ==> #[trigger] ss[k].len() > 0 && !is_wild(ss[k]),
        decreases segs.len() - i,
    {
        let seg = segs[i].as_str();
        assert(seg@ == ss[i as int]);
        let c = first_char(seg);
        if c.is_none() {
            return false;
        }
        let c = c.unwrap();
        if c == ':' || c == '*' {
            return false;
        }
        i = i + 1;
    }
    true
}

/// The segments of pattern `r`, which starts with `/`.
pub fn route_segments(r: &str) -> (segs: Vec<String>)
    requires
        r@.len() >= 1,
    ensures
        views(segs@) == pattern_segments(r@),
{
    if r.unicode_len() <= 1 {
        let v: Vec<String> = Vec::new();
        assert(views(v@) =~= seq![]);
        v
    } else {
        body_segments(r)
    }
}

/// The names bound by the wildcard segments of `segs`, in order.
pub fn wildcard_names(segs: &Vec<String>) -> (names: Vec<String>)
    requires
        forall|k: int| 0 <= k < segs@.len() ==> (#[trigger] segs@[k])@.len() > 0,
    ensures
        views(names@) == wild_names(views(segs@)),
{
    let ghost ss = views(segs@);
    let mut names: Vec<String> = Vec::new();
    let mut i: usize = 0;
    assert(ss.take(0) =~= seq![]);
    assert(views(names@) =~= seq![]);
    while i < segs.len()
        invariant
            ss == views(segs@),
            i <= segs@.len(),
            forall|k: int| 0 <= k < segs@.len() ==> (#[trigger] segs@[k])@.len() > 0,
            views(names@) == wild_names(ss.take(i as int)),
        decreases segs.len() - i,
    {
        let seg = segs[i].as_str();
        assert(ss.take(i + 1).drop_last() =~= ss.take(i as int));
        assert(ss.take(i + 1).last() == seg@);
        let c = first_char(seg).unwrap();
        if c == ':' || c == '*' {
            let ghost before = views(names@);
            names.push(param_name(seg));
            assert(views(names@) =~= before.push(name_of(seg@)));
        }
        i = i + 1;
    }
    assert(ss.take(i as int) =~= ss);
    names
}

/// Whether `a` and `b` hold the same strings in the same order.
pub fn same_strings(a: &Vec<String>, b: &Vec<String>) -> (r: bool)
    ensures
        r == (views(a@) == views(b@)),
{
    if a.len() != b.len() {
        assert(views(a@).len() != views(b@).len());
        return false;
    }
    let mut i: usize = 0;
    while i < a.len()
        invariant
            a@.len() == b@.len(),
            i <= a@.len(),
            forall|k: int| 0 <= k < i ==> (#[trigger] a@[k])@ == b@[k]@,
        decreases a.len() - i,
    {
        if a[i] != b[i] {
            assert(views(a@)[i as int] != views(b@)[i as int]);
            return false;
        }
        i = i + 1;
    }
    assert(views(a@) =~= views(b@));
    true
}

/// A name bound by `segs` is the name of one of its wildcard segments.
pub proof fn lemma_wild_names_from(segs: Seq<Seq<char>>, x: Seq<char>)
    requires
        wild_names(segs).contains(x),
    ensures
        exists|i: int| 0 <= i < segs.len() && is_wild(#[trigger] segs[i]) && name_of(segs[i]) == x,
    decreases segs.len(),
{
    let init = segs.drop_last();
    if is_wild(segs.last()) && x == name_of(segs.last()) {
        assert(is_wild(segs[segs.len() - 1]));
    } else {
        if is_wild(segs.last()) {
            let w = wild_names(init);
            let j = choose|j: int| 0 <= j < w.push(name_of(segs.last())).len() && w.push(name_of(segs.last()))[j] == x;
            assert(w[j] == x);
        }
        lemma_wild_names_from(init, x);
        let i = choose|i: int| 0 <= i < init.len() && is_wild(#[trigger] init[i]) && name_of(init[i]) == x;
        assert(segs[i] == init[i]);
    }
}

/// Distinct wildcard names, as a valid pattern has, bind distinct names.
pub proof fn lemma_wild_names_distinct(segs: Seq<Seq<char>>)
    requires
        forall|i: int, j: int|
            0 <= i < j < segs.len() && is_wild(segs[i]) && is_wild(segs[j]) ==> name_of(
                #[trigger] segs[i],
            ) != name_of(#[trigger] segs[j]),
    ensures
        wild_names(segs).no_duplicates(),
    decreases segs.len(),
{
    if segs.len() > 0 {
        let init = segs.drop_last();
        assert forall|i: int, j: int|
            0 <= i < j < init.len() && is_wild(init[i]) && is_wild(init[j]) implies name_of(
                #[trigger] init[i],
            ) != name_of(#[trigger] init[j]) by {
            assert(init[i] == segs[i] && init[j] == segs[j]);
        }
        lemma_wild_names_distinct(init);
        if is_wild(segs.last()) {
            let w = wild_names(init);
            let x = name_of(segs.last());
            if w.contains(x) {
                lemma_wild_names_from(init, x);
                let i = choose|i: int| 0 <= i < init.len() && is_wild(#[trigger] init[i]) && name_of(init[i]) == x;
                assert(segs[i] == init[i]);
                assert(name_of(segs[i]) != name_of(segs[segs.len() - 1]));
            }
            assert forall|i: int, j: int|
                0 <= i < w.push(x).len() && 0 <= j < w.push(x).len() && i != j implies w.push(x)[i]
                != w.push(x)[j] by {
                if i < w.len() && j < w.len() {
                } else if i < w.len() {
                    assert(w.contains(w[i]));
                } else {
                    assert(w.contains(w[j]));
                }
            }
        }
    }
}

/// What `slash_at` finds: no `/` before it, and a `/` at it unless it is
/// the end.
pub proof fn lemma_slash_at_props(s: Seq<char>)
    ensures
        slash_at(s) <= s.len(),
        forall|k: int| 0 <= k < slash_at(s) ==> s[k] != '/',
        slash_at(s) < s.len() ==> s[slash_at(s) as int] == '/',
    decreases s.len(),
{
    if s.len() > 0 && s[0] != '/' {
        lemma_slash_at_props(s.drop_first());
        assert forall|k: int| 0 <= k < slash_at(s) implies s[k] != '/' by {
            if k > 0 {
                assert(s[k] == s.drop_first()[k - 1]);
            }
        }
    }
}

/// A trailing `/` adds one empty segment.
pub proof fn lemma_split_push_slash(s: Seq<char>)
    ensures
        split(s + seq!['/']) == split(s).push(seq![]),
    decreases s.len(),
{
    let t = s + seq!['/'];
    let j = slash_at(s) as int;
    lemma_slash_at_props(s);
    lemma_slash_at(t, j);
    assert(split(Seq::<char>::empty()) == seq![Seq::<char>::empty()]);
    if j < s.len() {
        assert(t.take(j) =~= s.take(j));
        assert(t.skip(j + 1) =~= s.skip(j + 1) + seq!['/']);
        lemma_split_push_slash(s.skip(j + 1));
        assert(split(t) =~= split(s).push(seq![]));
    } else {
        assert(t.take(j) =~= s);
        assert(t.skip(j + 1) =~= Seq::<char>::empty());
        assert(split(t) =~= split(s).push(seq![]));
    }
}

/// A `/` at the start, or right after another, makes an empty segment.
pub proof fn lemma_split_empty(s: Seq<char>, i: int)
    requires
        0 <= i < s.len(),
        s[i] == '/',
        i == 0 || s[i - 1] == '/',
    ensures
        exists|k: int| 0 <= k < split(s).len() && (#[trigger] split(s)[k]).len() == 0,
    decreases s.len(),
{
    lemma_slash_at_props(s);
    let j = slash_at(s) as int;
    if j == i {
        assert(split(s)[0].len() == 0);
    } else {
        let t = s.skip(j + 1);
        assert(t[i - j - 1] == s[i]);
        if i - j - 1 > 0 {
            assert(t[i - j - 2] == s[i - 1]);
        }
        lemma_split_empty(t, i - j - 1);
        let k = choose|k: int| 0 <= k < split(t).len() && (#[trigger] split(t)[k]).len() == 0;
        assert(split(s)[k + 1] == split(t)[k]);
    }
}

/// Text joined at a `/` splits into the segments of each side.
pub proof fn lemma_split_concat(x: Seq<char>, y: Seq<char>)
    ensures
        split(x + seq!['/'] + y) == split(x) + split(y),
    decreases x.len(),
{
    let t = x + seq!['/'] + y;
    let j = slash_at(x) as int;
    lemma_slash_at_props(x);
    lemma_slash_at(t, j);
    if j < x.len() {
        assert(t.take(j) =~= x.take(j));
        assert(t.skip(j + 1) =~= x.skip(j + 1) + seq!['/'] + y);
        lemma_split_concat(x.skip(j + 1), y);
        assert(split(t) =~= split(x) + split(y));
    } else {
        assert(t.take(j) =~= x);
        assert(t.skip(j + 1) =~= y);
        assert(split(t) =~= split(x) + split(y));
    }
}

/// `a` sorts before `b`: by code point, a proper prefix first. This is the
/// order of `str`, since UTF-8 bytes sort as their code points do.
pub open spec fn text_lt(a: Seq<char>, b: Seq<char>) -> bool
    decreases a.len(),
{
    if a.len() == 0 {
        b.len() > 0
    } else if b.len() == 0 {
        false
    } else if a[0] != b[0] {
        (a[0] as int) < (b[0] as int)
    } else {
        text_lt(a.drop_first(), b.drop_first())
    }
}

pub proof fn lemma_text_lt_irreflexive(a: Seq<char>)
    ensures
        !text_lt(a, a),
    decreases a.len(),
{
    if a.len() > 0 {
        lemma_text_lt_irreflexive(a.drop_first());
    }
}

pub proof fn lemma_text_lt_transitive(a: Seq<char>, b: Seq<char>, c: Seq<char>)
    requires
        text_lt(a, b),
        text_lt(b, c),
    ensures
        text_lt(a, c),
    decreases a.len(),
{
    if a.len() > 0 && b.len() > 0 && c.len() > 0 && a[0] == b[0] && b[0] == c[0] {
        lemma_text_lt_transitive(a.drop_first(), b.drop_first(), c.drop_first());
    }
}

pub proof fn lemma_text_lt_total(a: Seq<char>, b: Seq<char>)
    requires
        a != b,
    ensures
        text_lt(a, b) || text_lt(b, a),
    decreases a.len(),
{
    if a.len() == 0 && b.len() == 0 {
        assert(a =~= b);
    }
    if a.len() > 0 && b.len() > 0 && a[0] == b[0] {
        assert(a =~= seq![a[0]] + a.drop_first());
        assert(b =~= seq![b[0]] + b.drop_first());
        lemma_text_lt_total(a.drop_first(), b.drop_first());
    }
}

/// Compares `a` and `b` in the order of `text_lt`.
pub fn compare_text(a: &str, b: &str) -> (r: core::cmp::Ordering)
    ensures
        (r == core::cmp::Ordering::Less) == text_lt(a@, b@),
        (r == core::cmp::Ordering::Equal) == (a@ == b@),
        (r == core::cmp::Ordering::Greater) == text_lt(b@, a@),
{
    let x = chars_of(a);
    let y = chars_of(b);
    let mut i: usize = 0;
    assert(a@.skip(0) =~= a@ && b@.skip(0) =~= b@);
    while i < x.len() && i < y.len() && x[i] == y[i]
        invariant
            x@ == a@,
            y@ == b@,
            i <= x@.len(),
            i <= y@.len(),
            a@.take(i as int) == b@.take(i as int),
            text_lt(a@, b@) == text_lt(a@.skip(i as int), b@.skip(i as int)),
            text_lt(b@, a@) == text_lt(b@.skip(i as int), a@.skip(i as int)),
        decreases x.len() - i,
    {
        assert(a@.skip(i as int).drop_first() =~= a@.skip(i + 1));
        assert(b@.skip(i as int).drop_first() =~= b@.skip(i + 1));
        assert(a@.take(i + 1) =~= a@.take(i as int).push(a@[i as int]));
        assert(b@.take(i + 1) =~= b@.take(i as int).push(b@[i as int]));
        i = i + 1;
    }
    proof {
        lemma_text_lt_irreflexive(a@);
        if i < x.len() && i < y.len() {
            assert(a@ != b@) by {
                if a@ == b@ {
                    assert(a@[i as int] == b@[i as int]);
                }
            }
            let sa = a@.skip(i as int);
            let sb = b@.skip(i as int);
            assert(sa[0] == x@[i as int] && sb[0] == y@[i as int]);
            assert(sa[0] != sb[0]);
            assert(text_lt(sa, sb) == ((sa[0] as int) < (sb[0] as int)));
            assert(text_lt(sb, sa) == ((sb[0] as int) < (sa[0] as int)));
        }
        if i == x.len() && i == y.len() {
            assert(a@ =~= a@.take(i as int));
            assert(b@ =~= b@.take(i as int));
        }
        if i == x.len() && i < y.len() {
            assert(a@ =~= a@.take(i as int));
            assert(a@ != b@);
            assert(a@.skip(i as int).len() == 0);
        }
        if i < x.len() && i == y.len() {
            assert(b@ =~= b@.take(i as int));
            assert(a@ != b@);
            assert(b@.skip(i as int).len() == 0);
        }
    }
    if i < x.len() && i < y.len() {
        let cx = x[i];
        let cy = y[i];
        if cx < cy {
            core::cmp::Ordering::Less
        } else {
            core::cmp::Ordering::Greater
        }
    } else if i == x.len() && i == y.len() {
        core::cmp::Ordering::Equal
    } else if i == x.len() {
        core::cmp::Ordering::Less
    } else {
        core::cmp::Ordering::Greater
    }
}

} // verus!
