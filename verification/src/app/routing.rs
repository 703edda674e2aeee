//! Route patterns and how a path is matched against them.
//!
//! A route is a sequence of segments separated by `/`: a literal segment, a parameter `:name`
//! that takes one path segment, or a catch-all `*` (unnamed) or `:name*` (named) that takes the
//! rest of the path, possibly nothing. Empty segments are ignored, so `/a/` and `/a` are the
//! same route.
use vstd::prelude::*;
use crate::text::{str_to_chars, chars_to_string, subrange_to_string, string_push, push_str};

verus! {

/// One segment of a route.
#[derive(Debug)]
pub enum Segment {
    /// A literal segment.
    Static(String),
    /// `:name`: takes one path segment.
    Param(String),
    /// `*` or `:name*`: takes the rest of the path.
    CatchAll(Option<String>),
}

/// The abstract value of a [`Segment`].
pub enum SegView {
    Static(Seq<char>),
    Param(Seq<char>),
    CatchAll(Option<Seq<char>>),
}

impl View for Segment {
    type V = SegView;

    open spec fn view(&self) -> SegView {
        match self {
            Segment::Static(s) => SegView::Static(s@),
            Segment::Param(s) => SegView::Param(s@),
            Segment::CatchAll(None) => SegView::CatchAll(None),
            Segment::CatchAll(Some(s)) => SegView::CatchAll(Some(s@)),
        }
    }
}

/// A route pattern.
#[derive(Debug)]
pub struct Route {
    segments: Vec<Segment>,
}

/// The abstract values of segments.
pub open spec fn seg_views(s: Seq<Segment>) -> Seq<SegView> {
    Seq::new(s.len(), |i: int| s[i]@)
}

impl View for Route {
    type V = Seq<SegView>;

    closed spec fn view(&self) -> Seq<SegView> {
        seg_views(self.segments@)
    }
}

/// The non-empty pieces of `cs[i..]` between `/`, after the pieces `acc` and the unfinished piece
/// `cur`.
pub open spec fn pieces_from(cs: Seq<char>, i: int, cur: Seq<char>, acc: Seq<Seq<char>>) -> Seq<Seq<char>>
    decreases cs.len() - i,
{
    if i < 0 || i >= cs.len() {
        if cur.len() > 0 {
            acc.push(cur)
        } else {
            acc
        }
    } else if cs[i] == '/' {
        pieces_from(cs, i + 1, Seq::empty(), if cur.len() > 0 { acc.push(cur) } else { acc })
    } else {
        pieces_from(cs, i + 1, cur.push(cs[i]), acc)
    }
}

/// The non-empty pieces of a path between `/`.
pub open spec fn path_pieces(cs: Seq<char>) -> Seq<Seq<char>> {
    pieces_from(cs, 0, Seq::empty(), Seq::empty())
}

/// The segment a piece of a route stands for.
pub open spec fn segment_of(p: Seq<char>) -> SegView {
    if p == seq!['*'] {
        SegView::CatchAll(None)
    } else if p.len() >= 2 && p[0] == ':' && p.last() == '*' {
        SegView::CatchAll(Some(p.subrange(1, p.len() - 1)))
    } else if p.len() >= 1 && p[0] == ':' {
        SegView::Param(p.drop_first())
    } else {
        SegView::Static(p)
    }
}

/// The route a text stands for.
pub open spec fn parse_route(cs: Seq<char>) -> Seq<SegView> {
    let ps = path_pieces(cs);
    Seq::new(ps.len(), |i: int| segment_of(ps[i]))
}

/// The text of a segment.
pub open spec fn segment_text(s: SegView) -> Seq<char> {
    match s {
        SegView::Static(t) => t,
        SegView::Param(n) => seq![':'] + n,
        SegView::CatchAll(None) => seq!['*'],
        SegView::CatchAll(Some(n)) => seq![':'] + n + seq!['*'],
    }
}

/// `/` and the text of each segment, for the first `k` segments.
pub open spec fn render_segments(r: Seq<SegView>, k: int) -> Seq<char>
    decreases k,
{
    if k <= 0 || k > r.len() {
        Seq::empty()
    } else {
        render_segments(r, k - 1) + seq!['/'] + segment_text(r[k - 1])
    }
}

/// The text of a route: `/` for the empty route.
pub open spec fn render_route(r: Seq<SegView>) -> Seq<char> {
    if r.len() == 0 {
        seq!['/']
    } else {
        render_segments(r, r.len() as int)
    }
}

/// The path segments joined with `/`.
pub open spec fn join_pieces(ps: Seq<Seq<char>>) -> Seq<char>
    decreases ps.len(),
{
    if ps.len() == 0 {
        Seq::empty()
    } else if ps.len() == 1 {
        ps[0]
    } else {
        join_pieces(ps.drop_last()) + seq!['/'] + ps.last()
    }
}

/// The parameters a route takes from path segments when it matches them.
pub open spec fn route_match(pat: Seq<SegView>, path: Seq<Seq<char>>) -> Option<Seq<(Seq<char>, Seq<char>)>>
    decreases pat.len(),
{
    if pat.len() == 0 {
        if path.len() == 0 {
            Some(Seq::empty())
        } else {
            None
        }
    } else {
        match pat[0] {
            SegView::Static(t) => if path.len() > 0 && path[0] == t {
                route_match(pat.drop_first(), path.drop_first())
            } else {
                None
            },
            SegView::Param(n) => if path.len() > 0 {
                match route_match(pat.drop_first(), path.drop_first()) {
                    Some(ps) => Some(seq![(n, path[0])] + ps),
                    None => None,
                }
            } else {
                None
            },
            SegView::CatchAll(Some(n)) => Some(seq![(n, join_pieces(path))]),
            SegView::CatchAll(None) => Some(Seq::empty()),
        }
    }
}

/// The precedence of a segment: literal first, then parameter, then catch-all.
pub open spec fn segment_rank(s: SegView) -> int {
    match s {
        SegView::Static(_) => 0,
        SegView::Param(_) => 1,
        SegView::CatchAll(_) => 2,
    }
}

/// Whether route `a` takes precedence over route `b`: the first segment where their kinds differ
/// decides, and a route that ends first wins.
pub open spec fn route_less(a: Seq<SegView>, b: Seq<SegView>) -> bool
    decreases a.len(),
{
    if a.len() == 0 {
        b.len() > 0
    } else if b.len() == 0 {
        false
    } else if segment_rank(a[0]) != segment_rank(b[0]) {
        segment_rank(a[0]) < segment_rank(b[0])
    } else {
        route_less(a.drop_first(), b.drop_first())
    }
}

/// The index of the route that a path goes to among the first `k` routes: of the routes that
/// match, the first one that no later one takes precedence over.
pub open spec fn best_match(routes: Seq<Seq<SegView>>, path: Seq<Seq<char>>, k: int) -> Option<int>
    decreases k,
{
    if k <= 0 || k > routes.len() {
        None
    } else {
        let prev = best_match(routes, path, k - 1);
        if route_match(routes[k - 1], path) is Some {
            match prev {
                None => Some(k - 1),
                Some(j) => if route_less(routes[k - 1], routes[j]) {
                    Some(k - 1)
                } else {
                    Some(j)
                },
            }
        } else {
            prev
        }
    }
}

/// A best match is one of the routes considered.
pub proof fn lemma_best_match_in_range(routes: Seq<Seq<SegView>>, path: Seq<Seq<char>>, k: int)
    ensures
        best_match(routes, path, k) matches Some(i) ==> 0 <= i < k && i < routes.len() && route_match(
            routes[i],
            path,
        ) is Some,
    decreases k,
{
    if k > 0 && k <= routes.len() {
        lemma_best_match_in_range(routes, path, k - 1);
    }
}

/// Splits a path into its non-empty pieces between `/`.
pub fn split_path(path: &str) -> (r: Vec<String>)
    ensures
        crate::text::string_views(r@) == path_pieces(path@),
{
    let cs = str_to_chars(path);
    let mut acc: Vec<String> = Vec::new();
    let mut cur: Vec<char> = Vec::new();
    let mut i: usize = 0;
    assert(crate::text::string_views(acc@) =~= Seq::<Seq<char>>::empty());
    assert(cur@ =~= Seq::<char>::empty());
    while i < cs.len()
        invariant
            cs@ == path@,
            i <= cs@.len(),
            path_pieces(path@) == pieces_from(cs@, i as int, cur@, crate::text::string_views(acc@)),
        decreases cs@.len() - i,
    {
        if cs[i] == '/' {
            if cur.len() > 0 {
                let piece = chars_to_string(cur.as_slice());
                let ghost before = acc@;
                acc.push(piece);
                assert(crate::text::string_views(acc@) =~= crate::text::string_views(before).push(cur@));
            }
            cur = Vec::new();
        } else {
            cur.push(cs[i]);
        }
        i = i + 1;
    }
    if cur.len() > 0 {
        let piece = chars_to_string(cur.as_slice());
        let ghost before = acc@;
        acc.push(piece);
        assert(crate::text::string_views(acc@) =~= crate::text::string_views(before).push(cur@));
    }
    acc
}

fn segment_from_piece(p: &str) -> (r: Segment)
    ensures
        r@ == segment_of(p@),
{
    let cs = str_to_chars(p);
    let n = cs.len();
    if n == 1 && cs[0] == '*' {
        assert(cs@ =~= seq!['*']);
        Segment::CatchAll(None)
    } else if n >= 2 && cs[0] == ':' && cs[n - 1] == '*' {
        proof {
            if cs@ == seq!['*'] {
                assert(cs@[0] == '*');
            }
        }
        Segment::CatchAll(Some(subrange_to_string(cs.as_slice(), 1, n - 1)))
    } else if n >= 1 && cs[0] == ':' {
        proof {
            if cs@ == seq!['*'] {
                assert(cs@[0] == '*');
            }
        }
        let s = subrange_to_string(cs.as_slice(), 1, n);
        assert(cs@.subrange(1, n as int) =~= cs@.drop_first());
        Segment::Param(s)
    } else {
        proof {
            if cs@ == seq!['*'] {
                assert(cs@.len() == 1);
                assert(cs@[0] == '*');
            }
        }
        Segment::Static(chars_to_string(cs.as_slice()))
    }
}

impl Route {
    /// The route `/`, without segments.
    pub fn root() -> (r: Route)
        ensures
            r@ == Seq::<SegView>::empty(),
    {
        let r = Route { segments: Vec::new() };
        assert(r@ =~= Seq::<SegView>::empty());
        r
    }

    /// The route `/*`, one unnamed catch-all.
    pub fn catch_all() -> (r: Route)
        ensures
            r@ == seq![SegView::CatchAll(None)],
    {
        let mut segments: Vec<Segment> = Vec::new();
        segments.push(Segment::CatchAll(None));
        let r = Route { segments };
        assert(r@ =~= seq![SegView::CatchAll(None)]);
        r
    }

    /// The route a text stands for.
    pub fn new(route: &str) -> (r: Route)
        ensures
            r@ == parse_route(route@),
    {
        let pieces = split_path(route);
        let mut segments: Vec<Segment> = Vec::new();
        let mut i: usize = 0;
        while i < pieces.len()
            invariant
                i <= pieces@.len(),
                crate::text::string_views(pieces@) == path_pieces(route@),
                segments@.len() == i,
                seg_views(segments@) == Seq::new(i as nat, |j: int| segment_of(path_pieces(route@)[j])),
            decreases pieces@.len() - i,
        {
            let s = segment_from_piece(pieces[i].as_str());
            let ghost before = segments@;
            segments.push(s);
            assert(crate::text::string_views(pieces@)[i as int] == pieces@[i as int]@);
            assert(segments@[i as int]@ == segment_of(path_pieces(route@)[i as int]));
            assert forall|j: int| 0 <= j < i + 1 implies seg_views(segments@)[j] == segment_of(path_pieces(route@)[j]) by {
                if j < i {
                    assert(segments@[j] == before[j]);
                    assert(seg_views(before)[j] == segment_of(path_pieces(route@)[j]));
                }
            }
            assert(seg_views(segments@) =~= Seq::new((i + 1) as nat, |j: int| segment_of(path_pieces(route@)[j])));
            i = i + 1;
        }
        let r = Route { segments };
        assert(r@ =~= parse_route(route@));
        r
    }

    /// Whether every segment is literal.
    pub fn is_static(&self) -> (r: bool)
        ensures
            r == forall|i: int| 0 <= i < self@.len() ==> self@[i] is Static,
    {
        let mut i: usize = 0;
        while i < self.segments.len()
            invariant
                i <= self.segments@.len(),
                self@ == seg_views(self.segments@),
                forall|j: int| 0 <= j < i ==> self@[j] is Static,
            decreases self.segments@.len() - i,
        {
            assert(self@[i as int] == self.segments@[i as int]@);
            match &self.segments[i] {
                Segment::Static(_) => {},
                _ => {
                    return false;
                },
            }
            i = i + 1;
        }
        true
    }

    /// The text of the route.
    pub fn to_string(&self) -> (r: String)
        ensures
            r@ == render_route(self@),
    {
        let mut out = String::new();
        let n = self.segments.len();
        if n == 0 {
            string_push(&mut out, '/');
            assert(out@ =~= seq!['/']);
            return out;
        }
        let mut i: usize = 0;
        while i < n
            invariant
                n == self.segments@.len(),
                self@ == seg_views(self.segments@),
                i <= n,
                out@ == render_segments(self@, i as int),
            decreases n - i,
        {
            let ghost before = out@;
            string_push(&mut out, '/');
            match &self.segments[i] {
                Segment::Static(t) => {
                    push_str(&mut out, t.as_str());
                },
                Segment::Param(name) => {
                    string_push(&mut out, ':');
                    push_str(&mut out, name.as_str());
                },
                Segment::CatchAll(None) => {
                    string_push(&mut out, '*');
                },
                Segment::CatchAll(Some(name)) => {
                    string_push(&mut out, ':');
                    push_str(&mut out, name.as_str());
                    string_push(&mut out, '*');
                },
            }
            assert(out@ =~= before + seq!['/'] + segment_text(self@[i as int]));
            i = i + 1;
        }
        out
    }

    /// A copy of the route.
    pub fn duplicate(&self) -> (r: Route)
        ensures
            r@ == self@,
    {
        let mut segments: Vec<Segment> = Vec::new();
        let mut i: usize = 0;
        while i < self.segments.len()
            invariant
                i <= self.segments@.len(),
                segments@.len() == i,
                seg_views(segments@) == seg_views(self.segments@.take(i as int)),
            decreases self.segments@.len() - i,
        {
            let s = match &self.segments[i] {
                Segment::Static(t) => Segment::Static(crate::text::copy_string(t.as_str())),
                Segment::Param(n) => Segment::Param(crate::text::copy_string(n.as_str())),
                Segment::CatchAll(None) => Segment::CatchAll(None),
                Segment::CatchAll(Some(n)) => Segment::CatchAll(Some(crate::text::copy_string(n.as_str()))),
            };
            let ghost before = segments@;
            assert(s@ == self.segments@[i as int]@);
            segments.push(s);
            assert(seg_views(before) =~= seg_views(self.segments@.take(i as int)));
            assert forall|j: int| 0 <= j <= i implies seg_views(segments@)[j] == seg_views(self.segments@.take(i + 1))[j] by {
                if j < i {
                    assert(seg_views(before)[j] == seg_views(self.segments@.take(i as int))[j]);
                }
            }
            assert(seg_views(segments@) =~= seg_views(self.segments@.take(i + 1)));
            i = i + 1;
        }
        assert(self.segments@.take(self.segments@.len() as int) =~= self.segments@);
        Route { segments }
    }
}


} // verus!

verus! {

/// The abstract values of route parameters.
pub open spec fn param_views(ps: Seq<(String, String)>) -> Seq<(Seq<char>, Seq<char>)> {
    Seq::new(ps.len(), |i: int| (ps[i].0@, ps[i].1@))
}

/// Parameters added in front of a match result.
pub open spec fn prepend_params(acc: Seq<(Seq<char>, Seq<char>)>, r: Option<Seq<(Seq<char>, Seq<char>)>>) -> Option<Seq<(Seq<char>, Seq<char>)>> {
    match r {
        Some(ps) => Some(acc + ps),
        None => None,
    }
}

fn join_path(path: &Vec<String>, from: usize) -> (r: String)
    requires
        from <= path@.len(),
    ensures
        r@ == join_pieces(crate::text::string_views(path@).skip(from as int)),
{
    let ghost ps = crate::text::string_views(path@);
    let mut out = String::new();
    let mut k = from;
    assert(ps.subrange(from as int, from as int) =~= Seq::<Seq<char>>::empty());
    while k < path.len()
        invariant
            from <= k <= path@.len(),
            ps == crate::text::string_views(path@),
            out@ == join_pieces(ps.subrange(from as int, k as int)),
        decreases path@.len() - k,
    {
        let ghost before = ps.subrange(from as int, k as int);
        if k > from {
            string_push(&mut out, '/');
        }
        push_str(&mut out, path[k].as_str());
        k = k + 1;
        assert(ps.subrange(from as int, k as int).drop_last() =~= before);
        assert(ps[k - 1] == path@[k - 1]@);
        proof {
            if before.len() == 0 {
                assert(ps.subrange(from as int, k as int) =~= seq![ps[k - 1]]);
            }
        }
    }
    assert(ps.subrange(from as int, path@.len() as int) =~= ps.skip(from as int));
    out
}

/// The parameters a route takes from path pieces, when it matches them.
pub fn match_route(route: &Route, path: &Vec<String>) -> (r: Option<Vec<(String, String)>>)
    ensures
        match r {
            Some(ps) => route_match(route@, crate::text::string_views(path@)) == Some(param_views(ps@)),
            None => route_match(route@, crate::text::string_views(path@)) is None,
        },
{
    let ghost pat = route@;
    let ghost pp = crate::text::string_views(path@);
    let mut acc: Vec<(String, String)> = Vec::new();
    let mut i: usize = 0;
    assert(pat.skip(0) =~= pat);
    assert(pp.skip(0) =~= pp);
    assert(param_views(acc@) =~= Seq::empty());
    loop
        invariant
            pat == route@,
            pat == seg_views(route.segments@),
            pp == crate::text::string_views(path@),
            i <= pat.len(),
            i <= pp.len(),
            route_match(pat, pp) == prepend_params(param_views(acc@), route_match(pat.skip(i as int), pp.skip(i as int))),
        decreases pat.len() - i,
    {
        let ghost rest = pat.skip(i as int);
        let ghost prest = pp.skip(i as int);
        if i == route.segments.len() {
            assert(rest.len() == 0);
            if i == path.len() {
                assert(prest.len() == 0);
                assert(param_views(acc@) + Seq::empty() =~= param_views(acc@));
                return Some(acc);
            }
            return None;
        }
        assert(rest[0] == route.segments@[i as int]@);
        assert(rest.drop_first() =~= pat.skip(i + 1));
        assert(prest.len() > 0 ==> prest.drop_first() =~= pp.skip(i + 1) && prest[0] == path@[i as int]@);
        match &route.segments[i] {
            Segment::Static(t) => {
                if i < path.len() && crate::text::str_eq(path[i].as_str(), t.as_str()) {
                    i = i + 1;
                } else {
                    return None;
                }
            },
            Segment::Param(n) => {
                if i < path.len() {
                    let ghost before = param_views(acc@);
                    let name = crate::text::copy_string(n.as_str());
                    let value = crate::text::copy_string(path[i].as_str());
                    acc.push((name, value));
                    assert(param_views(acc@) =~= before + seq![(n@, prest[0])]);
                    proof {
                        match route_match(pat.skip(i + 1), pp.skip(i + 1)) {
                            Some(ps) => {
                                assert(before + (seq![(n@, prest[0])] + ps) =~= (before + seq![(n@, prest[0])]) + ps);
                            },
                            None => {},
                        }
                    }
                    i = i + 1;
                } else {
                    return None;
                }
            },
            Segment::CatchAll(None) => {
                assert(param_views(acc@) + Seq::empty() =~= param_views(acc@));
                return Some(acc);
            },
            Segment::CatchAll(Some(n)) => {
                let ghost before = param_views(acc@);
                let name = crate::text::copy_string(n.as_str());
                let value = join_path(path, i);
                acc.push((name, value));
                assert(param_views(acc@) =~= before + seq![(n@, join_pieces(prest))]);
                return Some(acc);
            },
        }
    }
}

/// Whether route `a` takes precedence over route `b`.
pub fn route_precedes(a: &Route, b: &Route) -> (r: bool)
    ensures
        r == route_less(a@, b@),
{
    let ghost x = a@;
    let ghost y = b@;
    let mut i: usize = 0;
    assert(x.skip(0) =~= x);
    assert(y.skip(0) =~= y);
    loop
        invariant
            x == a@,
            y == b@,
            x == seg_views(a.segments@),
            y == seg_views(b.segments@),
            i <= x.len(),
            i <= y.len(),
            route_less(x, y) == route_less(x.skip(i as int), y.skip(i as int)),
        decreases x.len() - i,
    {
        let ghost xs = x.skip(i as int);
        let ghost ys = y.skip(i as int);
        if i == a.segments.len() {
            return i < b.segments.len();
        }
        if i == b.segments.len() {
            return false;
        }
        assert(xs[0] == a.segments@[i as int]@);
        assert(ys[0] == b.segments@[i as int]@);
        let ra = rank_of(&a.segments[i]);
        let rb = rank_of(&b.segments[i]);
        if ra != rb {
            return ra < rb;
        }
        assert(xs.drop_first() =~= x.skip(i + 1));
        assert(ys.drop_first() =~= y.skip(i + 1));
        i = i + 1;
    }
}

fn rank_of(s: &Segment) -> (r: u8)
    ensures
        r as int == segment_rank(s@),
{
    match s {
        Segment::Static(_) => 0,
        Segment::Param(_) => 1,
        Segment::CatchAll(_) => 2,
    }
}

fn same_segment(a: &Segment, b: &Segment) -> (r: bool)
    ensures
        r == (a@ == b@),
{
    match (a, b) {
        (Segment::Static(x), Segment::Static(y)) => crate::text::str_eq(x.as_str(), y.as_str()),
        (Segment::Param(x), Segment::Param(y)) => crate::text::str_eq(x.as_str(), y.as_str()),
        (Segment::CatchAll(None), Segment::CatchAll(None)) => true,
        (Segment::CatchAll(Some(x)), Segment::CatchAll(Some(y))) => crate::text::str_eq(x.as_str(), y.as_str()),
        _ => false,
    }
}

/// Whether two routes are the same.
pub fn same_route(a: &Route, b: &Route) -> (r: bool)
    ensures
        r == (a@ == b@),
{
    if a.segments.len() != b.segments.len() {
        proof {
            if a@ == b@ {
                assert(a@.len() == b@.len());
            }
        }
        return false;
    }
    let mut i: usize = 0;
    while i < a.segments.len()
        invariant
            a.segments@.len() == b.segments@.len(),
            a@ == seg_views(a.segments@),
            b@ == seg_views(b.segments@),
            i <= a.segments@.len(),
            forall|j: int| 0 <= j < i ==> a@[j] == b@[j],
        decreases a.segments@.len() - i,
    {
        if !same_segment(&a.segments[i], &b.segments[i]) {
            assert(a@[i as int] != b@[i as int]);
            return false;
        }
        i = i + 1;
    }
    assert(a@ =~= b@);
    true
}

} // verus!

verus! {

/// The index of the first route equal to `r` among the first `k`.
pub open spec fn route_index_upto(rs: Seq<Seq<SegView>>, r: Seq<SegView>, k: int) -> Option<int>
    decreases k,
{
    if k <= 0 || k > rs.len() {
        None
    } else {
        match route_index_upto(rs, r, k - 1) {
            Some(i) => Some(i),
            None => if rs[k - 1] == r {
                Some(k - 1)
            } else {
                None
            },
        }
    }
}

/// The index of the first route equal to `r`.
pub open spec fn route_index(rs: Seq<Seq<SegView>>, r: Seq<SegView>) -> Option<int> {
    route_index_upto(rs, r, rs.len() as int)
}

pub proof fn lemma_route_index_upto(rs: Seq<Seq<SegView>>, r: Seq<SegView>, k: int)
    requires
        0 <= k <= rs.len(),
    ensures
        match route_index_upto(rs, r, k) {
            Some(i) => 0 <= i < k && rs[i] == r && forall|j: int| 0 <= j < i ==> rs[j] != r,
            None => forall|j: int| 0 <= j < k ==> rs[j] != r,
        },
    decreases k,
{
    if k > 0 {
        lemma_route_index_upto(rs, r, k - 1);
    }
}

/// Routes paired with values: a path finds the value of the route that takes it.
#[derive(Debug)]
pub struct Router<T> {
    routes: Vec<Route>,
    values: Vec<T>,
}

/// The abstract values of routes.
pub open spec fn route_views(rs: Seq<Route>) -> Seq<Seq<SegView>> {
    Seq::new(rs.len(), |i: int| rs[i]@)
}

impl<T> Router<T> {
    /// The routes, in the order they were first inserted.
    pub closed spec fn spec_routes(&self) -> Seq<Seq<SegView>> {
        route_views(self.routes@)
    }

    /// The value of each route.
    pub closed spec fn spec_values(&self) -> Seq<T> {
        self.values@
    }

    /// One value per route.
    pub closed spec fn wf(&self) -> bool {
        self.routes@.len() == self.values@.len()
    }

    /// A well-formed router has one value per route.
    pub proof fn lemma_wf_len(&self)
        requires
            self.wf(),
        ensures
            self.spec_routes().len() == self.spec_values().len(),
    {
    }

    /// The index of the route a path goes to.
    pub open spec fn spec_find(&self, path: Seq<char>) -> Option<int> {
        best_match(self.spec_routes(), path_pieces(path), self.spec_routes().len() as int)
    }

    /// A router without routes.
    pub fn new() -> (r: Self)
        ensures
            r.wf(),
            r.spec_routes() == Seq::<Seq<SegView>>::empty(),
            r.spec_values() == Seq::<T>::empty(),
    {
        let r = Router { routes: Vec::new(), values: Vec::new() };
        assert(r.spec_routes() =~= Seq::<Seq<SegView>>::empty());
        r
    }

    /// The number of routes.
    pub fn len(&self) -> (r: usize)
        requires
            self.wf(),
        ensures
            r == self.spec_routes().len(),
    {
        self.routes.len()
    }

    /// The index of the route equal to `route`, if any.
    pub fn position(&self, route: &Route) -> (r: Option<usize>)
        ensures
            match r {
                Some(i) => route_index(self.spec_routes(), route@) == Some(i as int) && i < self.spec_routes().len(),
                None => route_index(self.spec_routes(), route@) is None,
            },
    {
        let ghost rs = self.spec_routes();
        proof {
            lemma_route_index_upto(rs, route@, rs.len() as int);
        }
        let mut i: usize = 0;
        while i < self.routes.len()
            invariant
                rs == route_views(self.routes@),
                i <= self.routes@.len(),
                forall|j: int| 0 <= j < i ==> rs[j] != route@,
                match route_index_upto(rs, route@, rs.len() as int) {
                    Some(k) => 0 <= k < rs.len() && rs[k] == route@ && forall|j: int| 0 <= j < k ==> rs[j] != route@,
                    None => forall|j: int| 0 <= j < rs.len() ==> rs[j] != route@,
                },
            decreases self.routes@.len() - i,
        {
            assert(rs[i as int] == self.routes@[i as int]@);
            if same_route(&self.routes[i], route) {
                return Some(i);
            }
            i = i + 1;
        }
        None
    }

    /// Sets the value of a route: an equal route keeps its place and gets the new value, a new
    /// route goes last.
    pub fn insert_route(&mut self, route: Route, value: T)
        requires
            old(self).wf(),
        ensures
            final(self).wf(),
            match route_index(old(self).spec_routes(), route@) {
                Some(j) => final(self).spec_routes() == old(self).spec_routes() && final(self).spec_values()
                    == old(self).spec_values().update(j, value),
                None => final(self).spec_routes() == old(self).spec_routes().push(route@)
                    && final(self).spec_values() == old(self).spec_values().push(value),
            },
    {
        match self.position(&route) {
            Some(j) => {
                self.values.set(j, value);
                assert(self.spec_routes() =~= old(self).spec_routes());
            },
            None => {
                let ghost rv = route@;
                self.routes.push(route);
                self.values.push(value);
                assert(self.spec_routes() =~= old(self).spec_routes().push(rv));
            },
        }
    }

    /// Sets the value of the route a text stands for.
    pub fn insert(&mut self, route: &str, value: T)
        requires
            old(self).wf(),
        ensures
            final(self).wf(),
            match route_index(old(self).spec_routes(), parse_route(route@)) {
                Some(j) => final(self).spec_routes() == old(self).spec_routes() && final(self).spec_values()
                    == old(self).spec_values().update(j, value),
                None => final(self).spec_routes() == old(self).spec_routes().push(parse_route(route@))
                    && final(self).spec_values() == old(self).spec_values().push(value),
            },
    {
        let r = Route::new(route);
        self.insert_route(r, value);
    }

    /// The index of the route that path pieces go to, with the parameters it takes.
    pub fn find_index(&self, pieces: &Vec<String>) -> (r: Option<(usize, Vec<(String, String)>)>)
        requires
            self.wf(),
        ensures
            match r {
                Some((i, ps)) => best_match(self.spec_routes(), crate::text::string_views(pieces@), self.spec_routes().len() as int)
                    == Some(i as int) && i < self.spec_routes().len() && route_match(self.spec_routes()[i as int], crate::text::string_views(pieces@))
                    == Some(param_views(ps@)),
                None => best_match(self.spec_routes(), crate::text::string_views(pieces@), self.spec_routes().len() as int) is None,
            },
    {
        let ghost rs = self.spec_routes();
        let ghost pp = crate::text::string_views(pieces@);
        let mut best: Option<(usize, Vec<(String, String)>)> = None;
        let mut k: usize = 0;
        while k < self.routes.len()
            invariant
                rs == route_views(self.routes@),
                pp == crate::text::string_views(pieces@),
                k <= self.routes@.len(),
                match best {
                    Some((i, ps)) => best_match(rs, pp, k as int) == Some(i as int) && i < k
                        && route_match(rs[i as int], pp) == Some(param_views(ps@)),
                    None => best_match(rs, pp, k as int) is None,
                },
            decreases self.routes@.len() - k,
        {
            match match_route(&self.routes[k], pieces) {
                Some(ps) => {
                    match best {
                        None => {
                            best = Some((k, ps));
                        },
                        Some((j, old_ps)) => {
                            if route_precedes(&self.routes[k], &self.routes[j]) {
                                best = Some((k, ps));
                            } else {
                                best = Some((j, old_ps));
                            }
                        },
                    }
                },
                None => {},
            }
            k = k + 1;
        }
        best
    }

    /// The value of the route a path goes to, with the parameters it takes.
    pub fn find(&self, path: &str) -> (r: Option<(Vec<(String, String)>, &T)>)
        requires
            self.wf(),
        ensures
            match r {
                Some((ps, v)) => exists|i: int|
                    #![trigger self.spec_values()[i]]
                    self.spec_find(path@) == Some(i) && *v == self.spec_values()[i] && route_match(
                        self.spec_routes()[i],
                        path_pieces(path@),
                    ) == Some(param_views(ps@)),
                None => self.spec_find(path@) is None,
            },
    {
        let pieces = split_path(path);
        match self.find_index(&pieces) {
            Some((i, ps)) => {
                assert(self.spec_values()[i as int] == self.values@[i as int]);
                Some((ps, &self.values[i]))
            },
            None => None,
        }
    }

    /// The value of the route at index `j`.
    pub fn value(&self, j: usize) -> (r: &T)
        requires
            self.wf(),
            j < self.spec_routes().len(),
        ensures
            *r == self.spec_values()[j as int],
    {
        &self.values[j]
    }

    /// The route at index `j`.
    pub fn route(&self, j: usize) -> (r: &Route)
        requires
            self.wf(),
            j < self.spec_routes().len(),
        ensures
            r@ == self.spec_routes()[j as int],
    {
        &self.routes[j]
    }

    /// Replaces the value of the route at index `j`, and returns the value it had.
    pub fn replace_value(&mut self, j: usize, value: T) -> (r: T)
        requires
            old(self).wf(),
            j < old(self).spec_routes().len(),
        ensures
            final(self).wf(),
            final(self).spec_routes() == old(self).spec_routes(),
            final(self).spec_values() == old(self).spec_values().update(j as int, value),
            r == old(self).spec_values()[j as int],
    {
        let r = self.values.remove(j);
        self.values.insert(j, value);
        assert(self.values@ =~= old(self).values@.update(j as int, value));
        r
    }

    /// The routes and their values, in order.
    pub fn entries(&self) -> (r: Vec<(&Route, &T)>)
        requires
            self.wf(),
        ensures
            r@.len() == self.spec_routes().len(),
            forall|i: int| 0 <= i < r@.len() ==> (#[trigger] r@[i]).0@ == self.spec_routes()[i] && *r@[i].1 == self.spec_values()[i],
    {
        let mut out: Vec<(&Route, &T)> = Vec::new();
        let mut i: usize = 0;
        while i < self.routes.len()
            invariant
                self.wf(),
                i <= self.routes@.len(),
                out@.len() == i,
                forall|j: int| 0 <= j < i ==> (#[trigger] out@[j]).0@ == self.spec_routes()[j] && *out@[j].1 == self.spec_values()[j],
            decreases self.routes@.len() - i,
        {
            out.push((&self.routes[i], &self.values[i]));
            i = i + 1;
        }
        out
    }

    /// The routes and their values, in order, taken out of the router.
    pub fn into_entries(self) -> (r: (Vec<Route>, Vec<T>))
        requires
            self.wf(),
        ensures
            route_views(r.0@) == self.spec_routes(),
            r.1@ == self.spec_values(),
            r.0@.len() == r.1@.len(),
    {
        (self.routes, self.values)
    }
}

} // verus!
