//! Scopes: routes with a handler per method, and fallbacks for paths that no route answers.
use vstd::prelude::*;
use crate::app::method::{Method, MethodRoute};
use crate::app::routing::{SegView, Router, Route, route_index, route_views, lemma_route_index_upto, param_views, route_less, parse_route, render_route, best_match, path_pieces, route_match, split_path};
use crate::text::{str_to_chars, string_push};

verus! {

/// The index of the first entry for method `m` among the first `k` entries of a method table.
pub open spec fn method_index(ms: Seq<(Method, usize)>, m: Method, k: int) -> Option<int>
    decreases k,
{
    if k <= 0 || k > ms.len() {
        None
    } else {
        match method_index(ms, m, k - 1) {
            Some(i) => Some(i),
            None => if ms[k - 1].0 == m {
                Some(k - 1)
            } else {
                None
            },
        }
    }
}

proof fn lemma_method_index(ms: Seq<(Method, usize)>, m: Method, k: int)
    requires
        0 <= k <= ms.len(),
    ensures
        match method_index(ms, m, k) {
            Some(i) => 0 <= i < k && ms[i].0 == m && forall|j: int| 0 <= j < i ==> ms[j].0 != m,
            None => forall|j: int| 0 <= j < k ==> ms[j].0 != m,
        },
    decreases k,
{
    if k > 0 {
        lemma_method_index(ms, m, k - 1);
    }
}

/// The handler a method table gives a method.
pub open spec fn method_handler(ms: Seq<(Method, usize)>, m: Method) -> Option<usize> {
    match method_index(ms, m, ms.len() as int) {
        Some(i) => Some(ms[i].1),
        None => None,
    }
}

/// A method table with `m` going to handler `h`: an entry for `m` is changed in place, else one
/// is added last.
pub open spec fn set_method(ms: Seq<(Method, usize)>, m: Method, h: usize) -> Seq<(Method, usize)> {
    match method_index(ms, m, ms.len() as int) {
        Some(i) => ms.update(i, (m, h)),
        None => ms.push((m, h)),
    }
}

/// A method table with each of `list` going to handler `h`, in order.
pub open spec fn set_methods(ms: Seq<(Method, usize)>, list: Seq<Method>, h: usize) -> Seq<(Method, usize)>
    decreases list.len(),
{
    if list.len() == 0 {
        ms
    } else {
        set_method(set_methods(ms, list.drop_last(), h), list.last(), h)
    }
}

/// Routes and their method tables after `list` of route `r` goes to handler `h`.
pub open spec fn add_methods(
    rs: Seq<Seq<SegView>>,
    ts: Seq<Seq<(Method, usize)>>,
    r: Seq<SegView>,
    list: Seq<Method>,
    h: usize,
) -> (Seq<Seq<SegView>>, Seq<Seq<(Method, usize)>>) {
    match route_index(rs, r) {
        Some(j) => (rs, ts.update(j, set_methods(ts[j], list, h))),
        None => (rs.push(r), ts.push(set_methods(Seq::empty(), list, h))),
    }
}

/// Routes and values after route `r` gets value `v`.
pub open spec fn router_insert<T>(rs: Seq<Seq<SegView>>, vs: Seq<T>, r: Seq<SegView>, v: T) -> (Seq<Seq<SegView>>, Seq<T>) {
    match route_index(rs, r) {
        Some(j) => (rs, vs.update(j, v)),
        None => (rs.push(r), vs.push(v)),
    }
}

/// A route of a nested scope as seen from the scope it is added to under `prefix`.
pub open spec fn joined_route(prefix: Seq<char>, r: Seq<SegView>) -> Seq<SegView> {
    if prefix == seq!['/'] {
        parse_route(render_route(r))
    } else {
        parse_route(prefix + render_route(r))
    }
}

/// Fallbacks after the first `k` fallbacks of a nested scope are added under `prefix`, their
/// handlers moved by `offset`.
pub open spec fn merge_fallbacks(
    fb: (Seq<Seq<SegView>>, Seq<usize>),
    sub_rs: Seq<Seq<SegView>>,
    sub_vs: Seq<usize>,
    prefix: Seq<char>,
    offset: int,
    k: int,
) -> (Seq<Seq<SegView>>, Seq<usize>)
    decreases k,
{
    if k <= 0 || k > sub_rs.len() {
        fb
    } else {
        let p = merge_fallbacks(fb, sub_rs, sub_vs, prefix, offset, k - 1);
        router_insert(p.0, p.1, joined_route(prefix, sub_rs[k - 1]), (sub_vs[k - 1] + offset) as usize)
    }
}

/// Routes after the first `j` method entries of route `r` are added, their handlers moved by
/// `offset`.
pub open spec fn merge_entry(
    rt: (Seq<Seq<SegView>>, Seq<Seq<(Method, usize)>>),
    r: Seq<SegView>,
    ms: Seq<(Method, usize)>,
    offset: int,
    j: int,
) -> (Seq<Seq<SegView>>, Seq<Seq<(Method, usize)>>)
    decreases j,
{
    if j <= 0 || j > ms.len() {
        rt
    } else {
        let p = merge_entry(rt, r, ms, offset, j - 1);
        add_methods(p.0, p.1, r, seq![ms[j - 1].0], (ms[j - 1].1 + offset) as usize)
    }
}

/// Routes after the first `k` routes of a nested scope are added under `prefix`.
pub open spec fn merge_routes(
    rt: (Seq<Seq<SegView>>, Seq<Seq<(Method, usize)>>),
    sub_rs: Seq<Seq<SegView>>,
    sub_ts: Seq<Seq<(Method, usize)>>,
    prefix: Seq<char>,
    offset: int,
    k: int,
) -> (Seq<Seq<SegView>>, Seq<Seq<(Method, usize)>>)
    decreases k,
{
    if k <= 0 || k > sub_rs.len() {
        rt
    } else {
        let p = merge_routes(rt, sub_rs, sub_ts, prefix, offset, k - 1);
        merge_entry(p, joined_route(prefix, sub_rs[k - 1]), sub_ts[k - 1], offset, sub_ts[k - 1].len() as int)
    }
}

/// Every handler index in the method tables is below `n`.
pub open spec fn tables_bounded(ts: Seq<Seq<(Method, usize)>>, n: int) -> bool {
    forall|i: int, j: int| 0 <= i < ts.len() && 0 <= j < ts[i].len() ==> (#[trigger] ts[i][j]).1 < n
}

/// Every handler index is below `n`.
pub open spec fn values_bounded(vs: Seq<usize>, n: int) -> bool {
    forall|i: int| 0 <= i < vs.len() ==> #[trigger] vs[i] < n
}

/// The method tables of a router.
pub open spec fn tables(vs: Seq<Vec<(Method, usize)>>) -> Seq<Seq<(Method, usize)>> {
    Seq::new(vs.len(), |i: int| vs[i]@)
}

/// The result of finding a path: the parameters it takes, and the handler, none standing for the
/// default handler that answers "not found".
pub struct Match<'a, H> {
    pub params: Vec<(String, String)>,
    pub value: Option<&'a H>,
}

/// Routes with a handler per method, and fallbacks for paths that no route answers.
pub struct Scope<H> {
    handlers: Vec<H>,
    method_router: Router<Vec<(Method, usize)>>,
    fallbacks: Router<usize>,
    is_root: bool,
}

impl<H> Scope<H> {
    /// The handlers, in the order they were added.
    pub closed spec fn spec_handlers(&self) -> Seq<H> {
        self.handlers@
    }

    /// The routes, in the order they were first added.
    pub closed spec fn spec_routes(&self) -> Seq<Seq<SegView>> {
        self.method_router.spec_routes()
    }

    /// The method table of each route: methods and the index of their handler.
    pub closed spec fn spec_tables(&self) -> Seq<Seq<(Method, usize)>> {
        tables(self.method_router.spec_values())
    }

    /// The fallback routes.
    pub closed spec fn spec_fallback_routes(&self) -> Seq<Seq<SegView>> {
        self.fallbacks.spec_routes()
    }

    /// The handler index of each fallback route.
    pub closed spec fn spec_fallback_values(&self) -> Seq<usize> {
        self.fallbacks.spec_values()
    }

    /// Whether this is the scope of an application.
    pub closed spec fn spec_is_root(&self) -> bool {
        self.is_root
    }

    /// Every handler index refers to a handler.
    pub closed spec fn wf(&self) -> bool {
        &&& self.method_router.wf()
        &&& self.fallbacks.wf()
        &&& tables_bounded(self.spec_tables(), self.handlers@.len() as int)
        &&& values_bounded(self.spec_fallback_values(), self.handlers@.len() as int)
    }

    /// The index of the fallback handler for a path.
    pub open spec fn spec_find_fallback(&self, path: Seq<char>) -> Option<int> {
        match best_match(self.spec_fallback_routes(), path_pieces(path), self.spec_fallback_routes().len() as int) {
            Some(i) => Some(self.spec_fallback_values()[i] as int),
            None => None,
        }
    }

    /// The index of the route a path goes to.
    pub open spec fn spec_find_route(&self, path: Seq<char>) -> Option<int> {
        best_match(self.spec_routes(), path_pieces(path), self.spec_routes().len() as int)
    }

    /// The index of the handler for a path and a method: the route's handler for the method, else
    /// the fallback handler; none stands for the default handler.
    pub open spec fn spec_find(&self, path: Seq<char>, m: Method) -> Option<int> {
        match self.spec_find_route(path) {
            Some(j) => match method_handler(self.spec_tables()[j], m) {
                Some(h) => Some(h as int),
                None => self.spec_find_fallback(path),
            },
            None => self.spec_find_fallback(path),
        }
    }

    /// The parameters a path gives: those of the route it goes to, none without a route.
    pub open spec fn spec_find_params(&self, path: Seq<char>) -> Seq<(Seq<char>, Seq<char>)> {
        match self.spec_find_route(path) {
            Some(j) => match route_match(self.spec_routes()[j], path_pieces(path)) {
                Some(ps) => ps,
                None => Seq::empty(),
            },
            None => Seq::empty(),
        }
    }

    /// A scope without routes.
    pub fn new() -> (r: Self)
        ensures
            r.wf(),
            r.spec_handlers() == Seq::<H>::empty(),
            r.spec_routes() == Seq::<Seq<SegView>>::empty(),
            r.spec_fallback_routes() == Seq::<Seq<SegView>>::empty(),
            !r.spec_is_root(),
    {
        let r = Scope { handlers: Vec::new(), method_router: Router::new(), fallbacks: Router::new(), is_root: false };
        assert(r.spec_tables() =~= Seq::<Seq<(Method, usize)>>::empty());
        r
    }

    /// The scope of an application.
    pub(crate) fn root() -> (r: Self)
        ensures
            r.wf(),
            r.spec_handlers() == Seq::<H>::empty(),
            r.spec_routes() == Seq::<Seq<SegView>>::empty(),
            r.spec_fallback_routes() == Seq::<Seq<SegView>>::empty(),
            r.spec_is_root(),
    {
        let r = Scope { handlers: Vec::new(), method_router: Router::new(), fallbacks: Router::new(), is_root: true };
        assert(r.spec_tables() =~= Seq::<Seq<(Method, usize)>>::empty());
        r
    }
}

fn set_method_exec(ms: &mut Vec<(Method, usize)>, m: Method, h: usize)
    ensures
        final(ms)@ == set_method(old(ms)@, m, h),
{
    proof {
        lemma_method_index(ms@, m, ms@.len() as int);
    }
    let mut i: usize = 0;
    while i < ms.len()
        invariant
            ms@ == old(ms)@,
            i <= ms@.len(),
            forall|j: int| 0 <= j < i ==> ms@[j].0 != m,
            match method_index(ms@, m, ms@.len() as int) {
                Some(k) => 0 <= k < ms@.len() && ms@[k].0 == m && forall|j: int| 0 <= j < k ==> ms@[j].0 != m,
                None => forall|j: int| 0 <= j < ms@.len() ==> ms@[j].0 != m,
            },
        decreases ms@.len() - i,
    {
        if ms[i].0 == m {
            ms.set(i, (m, h));
            return;
        }
        i = i + 1;
    }
    ms.push((m, h));
}

fn set_methods_exec(ms: &mut Vec<(Method, usize)>, list: &Vec<Method>, h: usize)
    ensures
        final(ms)@ == set_methods(old(ms)@, list@, h),
{
    let mut i: usize = 0;
    assert(list@.take(0) =~= Seq::<Method>::empty());
    while i < list.len()
        invariant
            i <= list@.len(),
            ms@ == set_methods(old(ms)@, list@.take(i as int), h),
        decreases list@.len() - i,
    {
        set_method_exec(ms, list[i], h);
        assert(list@.take(i + 1).drop_last() =~= list@.take(i as int));
        i = i + 1;
    }
    assert(list@.take(list@.len() as int) =~= list@);
}

fn lookup_method(ms: &Vec<(Method, usize)>, m: Method) -> (r: Option<usize>)
    ensures
        r == method_handler(ms@, m),
{
    proof {
        lemma_method_index(ms@, m, ms@.len() as int);
    }
    let mut i: usize = 0;
    while i < ms.len()
        invariant
            i <= ms@.len(),
            forall|j: int| 0 <= j < i ==> ms@[j].0 != m,
            match method_index(ms@, m, ms@.len() as int) {
                Some(k) => 0 <= k < ms@.len() && ms@[k].0 == m && forall|j: int| 0 <= j < k ==> ms@[j].0 != m,
                None => forall|j: int| 0 <= j < ms@.len() ==> ms@[j].0 != m,
            },
        decreases ms@.len() - i,
    {
        if ms[i].0 == m {
            return Some(ms[i].1);
        }
        i = i + 1;
    }
    None
}

} // verus!

verus! {

proof fn lemma_set_method_bound(ms: Seq<(Method, usize)>, m: Method, h: usize, n: int)
    requires
        h < n,
        forall|j: int| 0 <= j < ms.len() ==> (#[trigger] ms[j]).1 < n,
    ensures
        forall|j: int| 0 <= j < set_method(ms, m, h).len() ==> (#[trigger] set_method(ms, m, h)[j]).1 < n,
{
    lemma_method_index(ms, m, ms.len() as int);
    let r = set_method(ms, m, h);
    assert forall|j: int| 0 <= j < r.len() implies (#[trigger] r[j]).1 < n by {
        match method_index(ms, m, ms.len() as int) {
            Some(i) => {
                if j != i {
                    assert(r[j] == ms[j]);
                }
            },
            None => {
                if j < ms.len() {
                    assert(r[j] == ms[j]);
                }
            },
        }
    }
}

proof fn lemma_set_methods_bound(ms: Seq<(Method, usize)>, list: Seq<Method>, h: usize, n: int)
    requires
        h < n,
        forall|j: int| 0 <= j < ms.len() ==> (#[trigger] ms[j]).1 < n,
    ensures
        forall|j: int| 0 <= j < set_methods(ms, list, h).len() ==> (#[trigger] set_methods(ms, list, h)[j]).1 < n,
    decreases list.len(),
{
    if list.len() > 0 {
        lemma_set_methods_bound(ms, list.drop_last(), h, n);
        lemma_set_method_bound(set_methods(ms, list.drop_last(), h), list.last(), h, n);
    }
}

proof fn lemma_router_insert_bounded(rs: Seq<Seq<SegView>>, vs: Seq<usize>, r: Seq<SegView>, v: usize, n: int)
    requires
        values_bounded(vs, n),
        v < n,
        rs.len() == vs.len(),
    ensures
        values_bounded(router_insert(rs, vs, r, v).1, n),
{
    lemma_route_index_upto(rs, r, rs.len() as int);
    let out = router_insert(rs, vs, r, v).1;
    assert forall|i: int| 0 <= i < out.len() implies #[trigger] out[i] < n by {
        match route_index(rs, r) {
            Some(j) => {
                if i != j {
                    assert(out[i] == vs[i]);
                }
            },
            None => {
                if i < vs.len() {
                    assert(out[i] == vs[i]);
                }
            },
        }
    }
}

proof fn lemma_tables_bounded_mono(ts: Seq<Seq<(Method, usize)>>, n: int, m: int)
    requires
        tables_bounded(ts, n),
        n <= m,
    ensures
        tables_bounded(ts, m),
{
}

proof fn lemma_values_bounded_mono(vs: Seq<usize>, n: int, m: int)
    requires
        values_bounded(vs, n),
        n <= m,
    ensures
        values_bounded(vs, m),
{
}

/// The text of a nested scope's route under `prefix`: the route's own text for the prefix `/`,
/// else the prefix followed by it.
fn join_route(prefix: &str, r: &Route) -> (out: Route)
    ensures
        out@ == joined_route(prefix@, r@),
{
    let text = r.to_string();
    let pc = str_to_chars(prefix);
    if pc.len() == 1 && pc[0] == '/' {
        assert(prefix@ =~= seq!['/']);
        Route::new(text.as_str())
    } else {
        proof {
            if prefix@ == seq!['/'] {
                assert(pc@[0] == '/');
            }
        }
        let mut full = String::new();
        let mut i: usize = 0;
        while i < pc.len()
            invariant
                pc@ == prefix@,
                i <= pc@.len(),
                full@ == pc@.take(i as int),
            decreases pc@.len() - i,
        {
            string_push(&mut full, pc[i]);
            i = i + 1;
            assert(full@ =~= pc@.take(i as int));
        }
        let tc = str_to_chars(text.as_str());
        let mut k: usize = 0;
        assert(pc@.take(pc@.len() as int) =~= prefix@);
        while k < tc.len()
            invariant
                tc@ == text@,
                k <= tc@.len(),
                full@ == prefix@ + tc@.take(k as int),
            decreases tc@.len() - k,
        {
            string_push(&mut full, tc[k]);
            k = k + 1;
            assert(full@ =~= prefix@ + tc@.take(k as int));
        }
        assert(tc@.take(tc@.len() as int) =~= text@);
        Route::new(full.as_str())
    }
}

/// The routes and methods of the first `k` routes: each route once for every method it has.
pub open spec fn route_method_pairs(rs: Seq<Seq<SegView>>, ts: Seq<Seq<(Method, usize)>>, k: int) -> Seq<(Seq<SegView>, Method)>
    decreases k,
{
    if k <= 0 || k > rs.len() || k > ts.len() {
        Seq::empty()
    } else {
        route_method_pairs(rs, ts, k - 1) + Seq::new(ts[k - 1].len(), |j: int| (rs[k - 1], ts[k - 1][j].0))
    }
}

impl<H> Scope<H> {
    /// Routes `list` of route `r` to the handler at index `h`.
    fn add_route_handler(&mut self, r: Route, list: &Vec<Method>, h: usize)
        requires
            old(self).wf(),
            h < old(self).spec_handlers().len(),
        ensures
            final(self).wf(),
            final(self).spec_handlers() == old(self).spec_handlers(),
            final(self).spec_fallback_routes() == old(self).spec_fallback_routes(),
            final(self).spec_fallback_values() == old(self).spec_fallback_values(),
            final(self).spec_is_root() == old(self).spec_is_root(),
            (final(self).spec_routes(), final(self).spec_tables()) == add_methods(
                old(self).spec_routes(),
                old(self).spec_tables(),
                r@,
                list@,
                h,
            ),
    {
        let ghost n = self.handlers@.len();
        proof {
            self.method_router.lemma_wf_len();
        }
        match self.method_router.position(&r) {
            Some(j) => {
                let mut ms = self.method_router.replace_value(j, Vec::new());
                let ghost before = ms@;
                assert(before == old(self).spec_tables()[j as int]);
                set_methods_exec(&mut ms, list, h);
                proof {
                    assert forall|x: int| 0 <= x < before.len() implies (#[trigger] before[x]).1 < n by {
                        assert(old(self).spec_tables()[j as int][x] == before[x]);
                    }
                    lemma_set_methods_bound(before, list@, h, n as int);
                }
                let _ = self.method_router.replace_value(j, ms);
                assert(self.spec_tables() =~= old(self).spec_tables().update(j as int, set_methods(before, list@, h)));
                proof {
                    let t = self.spec_tables();
                    assert forall|a: int, b: int| 0 <= a < t.len() && 0 <= b < t[a].len() implies (#[trigger] t[a][b]).1 < n by {
                        if a != j {
                            assert(t[a] == old(self).spec_tables()[a]);
                        }
                    }
                }
            },
            None => {
                let mut ms: Vec<(Method, usize)> = Vec::new();
                let ghost rv = r@;
                set_methods_exec(&mut ms, list, h);
                proof {
                    lemma_set_methods_bound(Seq::empty(), list@, h, n as int);
                }
                self.method_router.insert_route(r, ms);
                assert(self.spec_tables() =~= old(self).spec_tables().push(set_methods(Seq::empty(), list@, h)));
                proof {
                    let t = self.spec_tables();
                    assert forall|a: int, b: int| 0 <= a < t.len() && 0 <= b < t[a].len() implies (#[trigger] t[a][b]).1 < n by {
                        if a < old(self).spec_tables().len() {
                            assert(t[a] == old(self).spec_tables()[a]);
                        }
                    }
                }
            },
        }
    }

    /// Adds a handler for the methods of `method` on a route.
    pub fn add_route(&mut self, route: &str, method: MethodRoute, handler: H)
        requires
            old(self).wf(),
        ensures
            final(self).wf(),
            final(self).spec_handlers() == old(self).spec_handlers().push(handler),
            final(self).spec_fallback_routes() == old(self).spec_fallback_routes(),
            final(self).spec_fallback_values() == old(self).spec_fallback_values(),
            final(self).spec_is_root() == old(self).spec_is_root(),
            (final(self).spec_routes(), final(self).spec_tables()) == add_methods(
                old(self).spec_routes(),
                old(self).spec_tables(),
                parse_route(route@),
                method.spec_methods(),
                old(self).spec_handlers().len() as usize,
            ),
    {
        let idx = self.handlers.len();
        self.handlers.push(handler);
        proof {
            lemma_tables_bounded_mono(self.spec_tables(), idx as int, self.handlers@.len() as int);
            lemma_values_bounded_mono(self.spec_fallback_values(), idx as int, self.handlers@.len() as int);
        }
        let list = method.into_methods();
        self.add_route_handler(Route::new(route), &list, idx);
    }

    /// Makes a handler the fallback for `/` and every path below it.
    pub fn add_fallback(&mut self, fallback: H)
        requires
            old(self).wf(),
        ensures
            final(self).wf(),
            final(self).spec_handlers() == old(self).spec_handlers().push(fallback),
            final(self).spec_routes() == old(self).spec_routes(),
            final(self).spec_tables() == old(self).spec_tables(),
            final(self).spec_is_root() == old(self).spec_is_root(),
            ({
                let idx = old(self).spec_handlers().len() as usize;
                let first = router_insert(
                    old(self).spec_fallback_routes(),
                    old(self).spec_fallback_values(),
                    Seq::empty(),
                    idx,
                );
                (final(self).spec_fallback_routes(), final(self).spec_fallback_values()) == router_insert(
                    first.0,
                    first.1,
                    seq![SegView::CatchAll(None)],
                    idx,
                )
            }),
    {
        let idx = self.handlers.len();
        self.handlers.push(fallback);
        let ghost n = self.handlers@.len() as int;
        proof {
            lemma_tables_bounded_mono(self.spec_tables(), idx as int, n);
            lemma_values_bounded_mono(self.spec_fallback_values(), idx as int, n);
            self.fallbacks.lemma_wf_len();
            lemma_router_insert_bounded(self.spec_fallback_routes(), self.spec_fallback_values(), Seq::empty(), idx, n);
        }
        self.fallbacks.insert_route(Route::root(), idx);
        proof {
            self.fallbacks.lemma_wf_len();
            lemma_router_insert_bounded(self.spec_fallback_routes(), self.spec_fallback_values(), seq![SegView::CatchAll(None)], idx, n);
        }
        self.fallbacks.insert_route(Route::catch_all(), idx);
    }

    /// Adds the routes and fallbacks of a nested scope under a route; its fallbacks come first.
    pub fn add_scope(&mut self, route: &str, scope: Scope<H>)
        requires
            old(self).wf(),
            scope.wf(),
        ensures
            final(self).wf(),
            final(self).spec_handlers() == old(self).spec_handlers() + scope.spec_handlers(),
            final(self).spec_is_root() == old(self).spec_is_root(),
            (final(self).spec_fallback_routes(), final(self).spec_fallback_values()) == merge_fallbacks(
                (old(self).spec_fallback_routes(), old(self).spec_fallback_values()),
                scope.spec_fallback_routes(),
                scope.spec_fallback_values(),
                route@,
                old(self).spec_handlers().len() as int,
                scope.spec_fallback_routes().len() as int,
            ),
            (final(self).spec_routes(), final(self).spec_tables()) == merge_routes(
                (old(self).spec_routes(), old(self).spec_tables()),
                scope.spec_routes(),
                scope.spec_tables(),
                route@,
                old(self).spec_handlers().len() as int,
                scope.spec_routes().len() as int,
            ),
    {
        let ghost sub_fb_routes = scope.spec_fallback_routes();
        let ghost sub_fb_values = scope.spec_fallback_values();
        let ghost sub_routes = scope.spec_routes();
        let ghost sub_tables = scope.spec_tables();
        let ghost sub_n = scope.handlers@.len();
        let ghost subh = scope.handlers@;
        let offset = self.handlers.len();
        let Scope { handlers, method_router, fallbacks, is_root: _ } = scope;
        let mut handlers = handlers;
        self.handlers.append(&mut handlers);
        let total = self.handlers.len();
        assert(total == offset + sub_n);
        proof {
            lemma_tables_bounded_mono(self.spec_tables(), offset as int, total as int);
            lemma_values_bounded_mono(self.spec_fallback_values(), offset as int, total as int);
        }
        assert(self.spec_handlers() == old(self).spec_handlers() + subh);
        let (fb_routes, fb_values) = fallbacks.into_entries();
        let mut k: usize = 0;
        while k < fb_routes.len()
            invariant
                self.wf(),
                self.handlers@.len() == total,
                total == offset + sub_n,
                subh.len() == sub_n,
                fb_routes@.len() == fb_values@.len(),
                route_views(fb_routes@) == sub_fb_routes,
                fb_values@ == sub_fb_values,
                forall|i: int| 0 <= i < sub_fb_values.len() ==> #[trigger] sub_fb_values[i] < sub_n,
                k <= fb_routes@.len(),
                self.spec_handlers() == old(self).spec_handlers() + subh,
                self.spec_routes() == old(self).spec_routes(),
                self.spec_tables() == old(self).spec_tables(),
                self.spec_is_root() == old(self).spec_is_root(),
                (self.spec_fallback_routes(), self.spec_fallback_values()) == merge_fallbacks(
                    (old(self).spec_fallback_routes(), old(self).spec_fallback_values()),
                    sub_fb_routes,
                    sub_fb_values,
                    route@,
                    offset as int,
                    k as int,
                ),
            decreases fb_routes@.len() - k,
        {
            let full = join_route(route, &fb_routes[k]);
            assert(sub_fb_values[k as int] < sub_n);
            let v = fb_values[k] + offset;
            proof {
                self.fallbacks.lemma_wf_len();
                lemma_router_insert_bounded(self.spec_fallback_routes(), self.spec_fallback_values(), full@, v, total as int);
            }
            self.fallbacks.insert_route(full, v);
            assert(route_views(fb_routes@)[k as int] == fb_routes@[k as int]@);
            k = k + 1;
        }
        let (routes, tabs) = method_router.into_entries();
        proof {
            assert(tables(tabs@) == sub_tables);
            assert(sub_tables.len() == tabs@.len());
        }
        let mut k: usize = 0;
        while k < routes.len()
            invariant
                self.wf(),
                self.handlers@.len() == total,
                total == offset + sub_n,
                routes@.len() == tabs@.len(),
                route_views(routes@) == sub_routes,
                tables(tabs@) == sub_tables,
                forall|i: int, j: int| 0 <= i < sub_tables.len() && 0 <= j < sub_tables[i].len() ==> (
                    #[trigger] sub_tables[i][j]).1 < sub_n,
                k <= routes@.len(),
                self.spec_handlers() == old(self).spec_handlers() + subh,
                self.spec_is_root() == old(self).spec_is_root(),
                (self.spec_fallback_routes(), self.spec_fallback_values()) == merge_fallbacks(
                    (old(self).spec_fallback_routes(), old(self).spec_fallback_values()),
                    sub_fb_routes,
                    sub_fb_values,
                    route@,
                    offset as int,
                    sub_fb_routes.len() as int,
                ),
                (self.spec_routes(), self.spec_tables()) == merge_routes(
                    (old(self).spec_routes(), old(self).spec_tables()),
                    sub_routes,
                    sub_tables,
                    route@,
                    offset as int,
                    k as int,
                ),
            decreases routes@.len() - k,
        {
            let full = join_route(route, &routes[k]);
            let ms = &tabs[k];
            assert(sub_tables.len() == tabs@.len());
            assert(route_views(routes@)[k as int] == routes@[k as int]@);
            assert(tables(tabs@)[k as int] == ms@);
            let ghost base = (self.spec_routes(), self.spec_tables());
            let mut j: usize = 0;
            while j < ms.len()
                invariant
                    self.wf(),
                    self.handlers@.len() == total,
                    total == offset + sub_n,
                    ms@ == sub_tables[k as int],
                    forall|x: int| 0 <= x < ms@.len() ==> (#[trigger] ms@[x]).1 < sub_n,
                    j <= ms@.len(),
                    self.spec_handlers() == old(self).spec_handlers() + subh,
                    self.spec_is_root() == old(self).spec_is_root(),
                    (self.spec_fallback_routes(), self.spec_fallback_values()) == merge_fallbacks(
                        (old(self).spec_fallback_routes(), old(self).spec_fallback_values()),
                        sub_fb_routes,
                        sub_fb_values,
                        route@,
                        offset as int,
                        sub_fb_routes.len() as int,
                    ),
                    (self.spec_routes(), self.spec_tables()) == merge_entry(base, full@, ms@, offset as int, j as int),
                decreases ms@.len() - j,
            {
                let (m, h) = ms[j];
                assert(ms@[j as int].1 < sub_n);
                let mut single: Vec<Method> = Vec::new();
                single.push(m);
                assert(single@ =~= seq![m]);
                self.add_route_handler(full.duplicate(), &single, h + offset);
                j = j + 1;
            }
            k = k + 1;
        }
        assert(self.spec_handlers() =~= old(self).spec_handlers() + subh);
    }
}

} // verus!

verus! {

impl<H> Scope<H> {
    /// The index of the fallback handler for path pieces.
    fn find_fallback_index(&self, pieces: &Vec<String>) -> (r: Option<usize>)
        requires
            self.wf(),
        ensures
            match best_match(self.spec_fallback_routes(), crate::text::string_views(pieces@), self.spec_fallback_routes().len() as int) {
                Some(i) => r == Some(self.spec_fallback_values()[i]),
                None => r is None,
            },
            r matches Some(h) ==> h < self.spec_handlers().len(),
    {
        proof {
            self.fallbacks.lemma_wf_len();
        }
        match self.fallbacks.find_index(pieces) {
            Some((i, _)) => Some(*self.fallbacks.value(i)),
            None => None,
        }
    }

    /// The handler for a path and a method, with the parameters the path gives. The handler is
    /// the route's handler for the method, else the fallback for the path; none stands for the
    /// default handler that answers "not found".
    pub fn find(&self, path: &str, method: Method) -> (r: Match<'_, H>)
        requires
            self.wf(),
        ensures
            r.value == (match self.spec_find(path@, method) {
                Some(h) => Some(&self.spec_handlers()[h]),
                None => None,
            }),
            param_views(r.params@) == self.spec_find_params(path@),
    {
        proof {
            self.method_router.lemma_wf_len();
        }
        let pieces = split_path(path);
        let fallback = self.find_fallback_index(&pieces);
        match self.method_router.find_index(&pieces) {
            Some((j, ps)) => {
                let ms = self.method_router.value(j);
                assert(self.spec_tables()[j as int] == ms@);
                match lookup_method(ms, method) {
                    Some(h) => {
                        assert(self.spec_tables()[j as int][method_index(ms@, method, ms@.len() as int).unwrap()].1 == h) by {
                            lemma_method_index(ms@, method, ms@.len() as int);
                        }
                        proof {
                            lemma_method_index(ms@, method, ms@.len() as int);
                            let i = method_index(ms@, method, ms@.len() as int).unwrap();
                            assert(ms@[i].1 < self.handlers@.len());
                        }
                        Match { params: ps, value: Some(&self.handlers[h]) }
                    },
                    None => {
                        let value = match fallback {
                            Some(h) => Some(&self.handlers[h]),
                            None => None,
                        };
                        Match { params: ps, value }
                    },
                }
            },
            None => {
                let value = match fallback {
                    Some(h) => Some(&self.handlers[h]),
                    None => None,
                };
                let params: Vec<(String, String)> = Vec::new();
                assert(param_views(params@) =~= Seq::empty());
                Match { params, value }
            },
        }
    }

    /// The route a path goes to: the matching route, else the first fallback route whose handler
    /// is the path's fallback handler.
    pub fn find_route(&self, path: &str) -> (r: Option<Route>)
        requires
            self.wf(),
        ensures
            match self.spec_find_route(path@) {
                Some(j) => r matches Some(x) && x@ == self.spec_routes()[j],
                None => match self.spec_find_fallback(path@) {
                    Some(h) => r matches Some(x) && exists|k: int|
                        #![trigger self.spec_fallback_values()[k]]
                        0 <= k < self.spec_fallback_values().len() && self.spec_fallback_values()[k] == h
                            && x@ == self.spec_fallback_routes()[k] && forall|i: int|
                            0 <= i < k ==> self.spec_fallback_values()[i] != h,
                    None => r is None,
                },
            },
    {
        proof {
            self.method_router.lemma_wf_len();
            self.fallbacks.lemma_wf_len();
        }
        let pieces = split_path(path);
        match self.method_router.find_index(&pieces) {
            Some((j, _)) => Some(self.method_router.route(j).duplicate()),
            None => {
                match self.find_fallback_index(&pieces) {
                    Some(h) => {
                        let n = self.fallbacks.len();
                        let mut k: usize = 0;
                        while k < n
                            invariant
                                self.wf(),
                                n == self.spec_fallback_values().len(),
                                n == self.spec_fallback_routes().len(),
                                k <= n,
                                self.spec_find_fallback(path@) == Some(h as int),
                                self.spec_find_route(path@) is None,
                                forall|i: int| 0 <= i < k ==> self.spec_fallback_values()[i] != h,
                            decreases n - k,
                        {
                            if *self.fallbacks.value(k) == h {
                                return Some(self.fallbacks.route(k).duplicate());
                            }
                            k = k + 1;
                        }
                        proof {
                            let i = best_match(self.spec_fallback_routes(), path_pieces(path@), n as int).unwrap();
                            crate::app::routing::lemma_best_match_in_range(self.spec_fallback_routes(), path_pieces(path@), n as int);
                            assert(self.spec_fallback_values()[i] == h);
                        }
                        None
                    },
                    None => None,
                }
            },
        }
    }

    /// Adds a fallback handler.
    pub fn fallback(self, fallback: H) -> (r: Self)
        requires
            self.wf(),
        ensures
            r.wf(),
            r.spec_handlers() == self.spec_handlers().push(fallback),
            r.spec_routes() == self.spec_routes(),
            r.spec_tables() == self.spec_tables(),
            ({
                let idx = self.spec_handlers().len() as usize;
                let first = router_insert(self.spec_fallback_routes(), self.spec_fallback_values(), Seq::empty(), idx);
                (r.spec_fallback_routes(), r.spec_fallback_values()) == router_insert(
                    first.0,
                    first.1,
                    seq![SegView::CatchAll(None)],
                    idx,
                )
            }),
    {
        let mut s = self;
        s.add_fallback(fallback);
        s
    }

    /// Adds a nested scope under a route.
    pub fn scope(self, route: &str, scope: Scope<H>) -> (r: Self)
        requires
            self.wf(),
            scope.wf(),
        ensures
            r.wf(),
            r.spec_handlers() == self.spec_handlers() + scope.spec_handlers(),
            (r.spec_fallback_routes(), r.spec_fallback_values()) == merge_fallbacks(
                (self.spec_fallback_routes(), self.spec_fallback_values()),
                scope.spec_fallback_routes(),
                scope.spec_fallback_values(),
                route@,
                self.spec_handlers().len() as int,
                scope.spec_fallback_routes().len() as int,
            ),
            (r.spec_routes(), r.spec_tables()) == merge_routes(
                (self.spec_routes(), self.spec_tables()),
                scope.spec_routes(),
                scope.spec_tables(),
                route@,
                self.spec_handlers().len() as int,
                scope.spec_routes().len() as int,
            ),
    {
        let mut s = self;
        s.add_scope(route, scope);
        s
    }

    /// Adds a route with the given methods, route path and handler.
    pub fn route(self, method: MethodRoute, route: &str, handler: H) -> (r: Self)
        requires
            self.wf(),
        ensures
            r.wf(),
            r.spec_handlers() == self.spec_handlers().push(handler),
            r.spec_fallback_routes() == self.spec_fallback_routes(),
            r.spec_fallback_values() == self.spec_fallback_values(),
            (r.spec_routes(), r.spec_tables()) == add_methods(
                self.spec_routes(),
                self.spec_tables(),
                parse_route(route@),
                method.spec_methods(),
                self.spec_handlers().len() as usize,
            ),
    {
        let mut s = self;
        s.add_route(route, method, handler);
        s
    }
}

} // verus!

verus! {

impl<H> Scope<H> {
    /// Adds a `GET` route handler.
    pub fn get(self, route: &str, handler: H) -> (r: Self)
        requires
            self.wf(),
        ensures
            r.wf(),
            r.spec_handlers() == self.spec_handlers().push(handler),
            r.spec_fallback_routes() == self.spec_fallback_routes(),
            r.spec_fallback_values() == self.spec_fallback_values(),
            (r.spec_routes(), r.spec_tables()) == add_methods(
                self.spec_routes(),
                self.spec_tables(),
                parse_route(route@),
                seq![Method::GET],
                self.spec_handlers().len() as usize,
            ),
    {
        let m = MethodRoute::from_method(Method::GET);
        proof {
            MethodRoute::lemma_single_methods(m, Method::GET);
        }
        self.route(m, route, handler)
    }

    /// Adds a `POST` route handler.
    pub fn post(self, route: &str, handler: H) -> (r: Self)
        requires
            self.wf(),
        ensures
            r.wf(),
            r.spec_handlers() == self.spec_handlers().push(handler),
            r.spec_fallback_routes() == self.spec_fallback_routes(),
            r.spec_fallback_values() == self.spec_fallback_values(),
            (r.spec_routes(), r.spec_tables()) == add_methods(
                self.spec_routes(),
                self.spec_tables(),
                parse_route(route@),
                seq![Method::POST],
                self.spec_handlers().len() as usize,
            ),
    {
        let m = MethodRoute::from_method(Method::POST);
        proof {
            MethodRoute::lemma_single_methods(m, Method::POST);
        }
        self.route(m, route, handler)
    }

    /// Adds a `PUT` route handler.
    pub fn put(self, route: &str, handler: H) -> (r: Self)
        requires
            self.wf(),
        ensures
            r.wf(),
            r.spec_handlers() == self.spec_handlers().push(handler),
            r.spec_fallback_routes() == self.spec_fallback_routes(),
            r.spec_fallback_values() == self.spec_fallback_values(),
            (r.spec_routes(), r.spec_tables()) == add_methods(
                self.spec_routes(),
                self.spec_tables(),
                parse_route(route@),
                seq![Method::PUT],
                self.spec_handlers().len() as usize,
            ),
    {
        let m = MethodRoute::from_method(Method::PUT);
        proof {
            MethodRoute::lemma_single_methods(m, Method::PUT);
        }
        self.route(m, route, handler)
    }

    /// Adds a `DELETE` route handler.
    pub fn delete(self, route: &str, handler: H) -> (r: Self)
        requires
            self.wf(),
        ensures
            r.wf(),
            r.spec_handlers() == self.spec_handlers().push(handler),
            r.spec_fallback_routes() == self.spec_fallback_routes(),
            r.spec_fallback_values() == self.spec_fallback_values(),
            (r.spec_routes(), r.spec_tables()) == add_methods(
                self.spec_routes(),
                self.spec_tables(),
                parse_route(route@),
                seq![Method::DELETE],
                self.spec_handlers().len() as usize,
            ),
    {
        let m = MethodRoute::from_method(Method::DELETE);
        proof {
            MethodRoute::lemma_single_methods(m, Method::DELETE);
        }
        self.route(m, route, handler)
    }

    /// Adds a `PATCH` route handler.
    pub fn patch(self, route: &str, handler: H) -> (r: Self)
        requires
            self.wf(),
        ensures
            r.wf(),
            r.spec_handlers() == self.spec_handlers().push(handler),
            r.spec_fallback_routes() == self.spec_fallback_routes(),
            r.spec_fallback_values() == self.spec_fallback_values(),
            (r.spec_routes(), r.spec_tables()) == add_methods(
                self.spec_routes(),
                self.spec_tables(),
                parse_route(route@),
                seq![Method::PATCH],
                self.spec_handlers().len() as usize,
            ),
    {
        let m = MethodRoute::from_method(Method::PATCH);
        proof {
            MethodRoute::lemma_single_methods(m, Method::PATCH);
        }
        self.route(m, route, handler)
    }

    /// Adds a `OPTIONS` route handler.
    pub fn options(self, route: &str, handler: H) -> (r: Self)
        requires
            self.wf(),
        ensures
            r.wf(),
            r.spec_handlers() == self.spec_handlers().push(handler),
            r.spec_fallback_routes() == self.spec_fallback_routes(),
            r.spec_fallback_values() == self.spec_fallback_values(),
            (r.spec_routes(), r.spec_tables()) == add_methods(
                self.spec_routes(),
                self.spec_tables(),
                parse_route(route@),
                seq![Method::OPTIONS],
                self.spec_handlers().len() as usize,
            ),
    {
        let m = MethodRoute::from_method(Method::OPTIONS);
        proof {
            MethodRoute::lemma_single_methods(m, Method::OPTIONS);
        }
        self.route(m, route, handler)
    }

    /// Adds a `HEAD` route handler.
    pub fn head(self, route: &str, handler: H) -> (r: Self)
        requires
            self.wf(),
        ensures
            r.wf(),
            r.spec_handlers() == self.spec_handlers().push(handler),
            r.spec_fallback_routes() == self.spec_fallback_routes(),
            r.spec_fallback_values() == self.spec_fallback_values(),
            (r.spec_routes(), r.spec_tables()) == add_methods(
                self.spec_routes(),
                self.spec_tables(),
                parse_route(route@),
                seq![Method::HEAD],
                self.spec_handlers().len() as usize,
            ),
    {
        let m = MethodRoute::from_method(Method::HEAD);
        proof {
            MethodRoute::lemma_single_methods(m, Method::HEAD);
        }
        self.route(m, route, handler)
    }

    /// Adds a `TRACE` route handler.
    pub fn trace(self, route: &str, handler: H) -> (r: Self)
        requires
            self.wf(),
        ensures
            r.wf(),
            r.spec_handlers() == self.spec_handlers().push(handler),
            r.spec_fallback_routes() == self.spec_fallback_routes(),
            r.spec_fallback_values() == self.spec_fallback_values(),
            (r.spec_routes(), r.spec_tables()) == add_methods(
                self.spec_routes(),
                self.spec_tables(),
                parse_route(route@),
                seq![Method::TRACE],
                self.spec_handlers().len() as usize,
            ),
    {
        let m = MethodRoute::from_method(Method::TRACE);
        proof {
            MethodRoute::lemma_single_methods(m, Method::TRACE);
        }
        self.route(m, route, handler)
    }

    /// Adds a handler for every method of a route.
    pub fn any(self, route: &str, handler: H) -> (r: Self)
        requires
            self.wf(),
        ensures
            r.wf(),
            r.spec_handlers() == self.spec_handlers().push(handler),
            r.spec_fallback_routes() == self.spec_fallback_routes(),
            r.spec_fallback_values() == self.spec_fallback_values(),
            (r.spec_routes(), r.spec_tables()) == add_methods(
                self.spec_routes(),
                self.spec_tables(),
                parse_route(route@),
                crate::app::method::all_methods(),
                self.spec_handlers().len() as usize,
            ),
    {
        let m = MethodRoute::any();
        proof {
            MethodRoute::lemma_all_methods(m);
        }
        self.route(m, route, handler)
    }

    /// Every route with each method it has a handler for.
    pub fn routes(&self) -> (r: Vec<(Route, Method)>)
        requires
            self.wf(),
        ensures
            r@.len() == route_method_pairs(self.spec_routes(), self.spec_tables(), self.spec_routes().len() as int).len(),
            forall|i: int|
                0 <= i < r@.len() ==> ((#[trigger] r@[i]).0@, r@[i].1) == route_method_pairs(
                    self.spec_routes(),
                    self.spec_tables(),
                    self.spec_routes().len() as int,
                )[i],
    {
        proof {
            self.method_router.lemma_wf_len();
        }
        let ghost rs = self.spec_routes();
        let ghost ts = self.spec_tables();
        let n = self.method_router.len();
        let mut out: Vec<(Route, Method)> = Vec::new();
        let mut k: usize = 0;
        while k < n
            invariant
                self.wf(),
                rs == self.spec_routes(),
                ts == self.spec_tables(),
                n == rs.len(),
                n == ts.len(),
                k <= n,
                out@.len() == route_method_pairs(rs, ts, k as int).len(),
                forall|i: int| 0 <= i < out@.len() ==> ((#[trigger] out@[i]).0@, out@[i].1) == route_method_pairs(rs, ts, k as int)[i],
            decreases n - k,
        {
            let route = self.method_router.route(k);
            let ms = self.method_router.value(k);
            assert(ts[k as int] == ms@);
            let ghost before = out@;
            let ghost prev = route_method_pairs(rs, ts, k as int);
            let mut j: usize = 0;
            while j < ms.len()
                invariant
                    ms@ == ts[k as int],
                    route@ == rs[k as int],
                    j <= ms@.len(),
                    out@.len() == before.len() + j,
                    before.len() == prev.len(),
                    forall|i: int| 0 <= i < before.len() ==> out@[i] == before[i],
                    forall|i: int| 0 <= i < before.len() ==> ((#[trigger] before[i]).0@, before[i].1) == prev[i],
                    forall|i: int| before.len() <= i < out@.len() ==> ((#[trigger] out@[i]).0@, out@[i].1) == (rs[k as int], ts[k as int][i - before.len()].0),
                decreases ms@.len() - j,
            {
                out.push((route.duplicate(), ms[j].0));
                j = j + 1;
            }
            proof {
                let next = route_method_pairs(rs, ts, k + 1);
                assert(next == prev + Seq::new(ts[k as int].len(), |x: int| (rs[k as int], ts[k as int][x].0)));
                assert forall|i: int| 0 <= i < out@.len() implies ((#[trigger] out@[i]).0@, out@[i].1) == next[i] by {
                    if i < before.len() {
                        assert(out@[i] == before[i]);
                    }
                }
            }
            k = k + 1;
        }
        out
    }
}

} // verus!

verus! {

/// A route of literal segments spelling path pieces matches them, without parameters.
proof fn lemma_static_match(r: Seq<SegView>, ps: Seq<Seq<char>>)
    requires
        r.len() == ps.len(),
        forall|i: int| 0 <= i < r.len() ==> r[i] == SegView::Static(ps[i]),
    ensures
        route_match(r, ps) == Some(Seq::<(Seq<char>, Seq<char>)>::empty()),
    decreases r.len(),
{
    if r.len() > 0 {
        assert forall|i: int| 0 <= i < r.drop_first().len() implies r.drop_first()[i] == SegView::Static(ps.drop_first()[i]) by {
            assert(r.drop_first()[i] == r[i + 1]);
        }
        lemma_static_match(r.drop_first(), ps.drop_first());
    }
}

/// A route of literal segments spelling the path takes precedence over any other route that
/// matches the path.
proof fn lemma_static_precedes(r: Seq<SegView>, q: Seq<SegView>, ps: Seq<Seq<char>>)
    requires
        r.len() == ps.len(),
        forall|i: int| 0 <= i < r.len() ==> r[i] == SegView::Static(ps[i]),
        route_match(q, ps) is Some,
        q != r,
    ensures
        route_less(r, q),
    decreases r.len(),
{
    if r.len() == 0 {
        if q.len() == 0 {
            assert(q =~= r);
        }
    } else {
        if q.len() > 0 {
            match q[0] {
                SegView::Static(t) => {
                    assert(q[0] == r[0]);
                    if q.drop_first() == r.drop_first() {
                        assert(q =~= seq![q[0]] + q.drop_first());
                        assert(r =~= seq![r[0]] + r.drop_first());
                    }
                    assert forall|i: int| 0 <= i < r.drop_first().len() implies r.drop_first()[i] == SegView::Static(ps.drop_first()[i]) by {
                        assert(r.drop_first()[i] == r[i + 1]);
                    }
                    lemma_static_precedes(r.drop_first(), q.drop_first(), ps.drop_first());
                },
                _ => {},
            }
        }
    }
}

/// No route that matches a path takes precedence over a route of literal segments spelling it.
proof fn lemma_nothing_precedes_static(r: Seq<SegView>, q: Seq<SegView>, ps: Seq<Seq<char>>)
    requires
        r.len() == ps.len(),
        forall|i: int| 0 <= i < r.len() ==> r[i] == SegView::Static(ps[i]),
        route_match(q, ps) is Some,
    ensures
        !route_less(q, r),
    decreases q.len(),
{
    if q.len() > 0 && r.len() > 0 {
        match q[0] {
            SegView::Static(t) => {
                assert forall|i: int| 0 <= i < r.drop_first().len() implies r.drop_first()[i] == SegView::Static(ps.drop_first()[i]) by {
                    assert(r.drop_first()[i] == r[i + 1]);
                }
                lemma_nothing_precedes_static(r.drop_first(), q.drop_first(), ps.drop_first());
            },
            _ => {},
        }
    }
}

/// Among routes where a route of literal segments spelling the path first occurs at `j`, the path
/// goes to `j`.
proof fn lemma_best_is_static(rs: Seq<Seq<SegView>>, ps: Seq<Seq<char>>, j: int, k: int)
    requires
        0 <= j < rs.len(),
        j < k <= rs.len(),
        rs[j].len() == ps.len(),
        forall|i: int| 0 <= i < rs[j].len() ==> rs[j][i] == SegView::Static(ps[i]),
        forall|i: int| 0 <= i < j ==> rs[i] != rs[j],
    ensures
        best_match(rs, ps, k) == Some(j),
    decreases k,
{
    lemma_static_match(rs[j], ps);
    if k == j + 1 {
        crate::app::routing::lemma_best_match_in_range(rs, ps, j);
        match best_match(rs, ps, j) {
            Some(i) => {
                lemma_static_precedes(rs[j], rs[i], ps);
            },
            None => {},
        }
    } else {
        lemma_best_is_static(rs, ps, j, k - 1);
        if route_match(rs[k - 1], ps) is Some {
            lemma_nothing_precedes_static(rs[j], rs[k - 1], ps);
        }
    }
}

proof fn lemma_set_method_found(ms: Seq<(Method, usize)>, m: Method, h: usize)
    ensures
        method_handler(set_method(ms, m, h), m) == Some(h),
{
    lemma_method_index(ms, m, ms.len() as int);
    let r = set_method(ms, m, h);
    lemma_method_index(r, m, r.len() as int);
    match method_index(ms, m, ms.len() as int) {
        Some(i) => {
            assert(r[i] == (m, h));
            match method_index(r, m, r.len() as int) {
                Some(k) => {
                    if k < i {
                        assert(r[k] == ms[k]);
                    }
                },
                None => {},
            }
        },
        None => {
            assert(r[ms.len() as int] == (m, h));
            match method_index(r, m, r.len() as int) {
                Some(k) => {
                    if k < ms.len() {
                        assert(r[k] == ms[k]);
                    }
                },
                None => {},
            }
        },
    }
}

proof fn lemma_set_method_other(ms: Seq<(Method, usize)>, x: Method, m: Method, h: usize)
    requires
        x != m,
    ensures
        method_handler(set_method(ms, x, h), m) == method_handler(ms, m),
{
    lemma_method_index(ms, x, ms.len() as int);
    lemma_method_index(ms, m, ms.len() as int);
    let r = set_method(ms, x, h);
    lemma_method_index(r, m, r.len() as int);
    assert forall|i: int| 0 <= i < ms.len() implies (r[i].0 == m) == (ms[i].0 == m) && (ms[i].0 == m ==> r[i] == ms[i]) by {
        match method_index(ms, x, ms.len() as int) {
            Some(k) => {
                if i != k {
                    assert(r[i] == ms[i]);
                }
            },
            None => {
                assert(r[i] == ms[i]);
            },
        }
    }
    match method_index(ms, m, ms.len() as int) {
        Some(i) => {
            match method_index(r, m, r.len() as int) {
                Some(k) => {
                    if k < i {
                        assert(r[k].0 == m);
                    } else if k > i {
                        assert(r[i].0 == m);
                    }
                },
                None => {
                    assert(r[i].0 == m);
                },
            }
        },
        None => {
            match method_index(r, m, r.len() as int) {
                Some(k) => {
                    if k < ms.len() {
                        assert(ms[k].0 == m);
                    } else {
                        assert(r[k].0 == x);
                    }
                },
                None => {},
            }
        },
    }
}

proof fn lemma_set_methods_found(ms: Seq<(Method, usize)>, list: Seq<Method>, m: Method, h: usize)
    requires
        list.contains(m),
    ensures
        method_handler(set_methods(ms, list, h), m) == Some(h),
    decreases list.len(),
{
    let prev = set_methods(ms, list.drop_last(), h);
    if list.last() == m {
        lemma_set_method_found(prev, m, h);
    } else {
        let i = choose|i: int| 0 <= i < list.len() && list[i] == m;
        assert(i < list.len() - 1);
        assert(list.drop_last()[i] == m);
        lemma_set_methods_found(ms, list.drop_last(), m, h);
        lemma_set_method_other(prev, list.last(), m, h);
    }
}

/// Whether every segment of a route is literal.
pub open spec fn is_static_route(r: Seq<SegView>) -> bool {
    forall|i: int| 0 <= i < r.len() ==> r[i] is Static
}

/// After a handler is added for the methods `list` of a route whose segments are all literal,
/// the text of that route, as a path, finds that handler for each of those methods, whatever
/// other routes and fallbacks the scope has.
pub proof fn law_static_route_read_after_write<H>(
    before: Scope<H>,
    after: Scope<H>,
    route: Seq<char>,
    list: Seq<Method>,
    m: Method,
)
    requires
        (after.spec_routes(), after.spec_tables()) == add_methods(
            before.spec_routes(),
            before.spec_tables(),
            parse_route(route),
            list,
            before.spec_handlers().len() as usize,
        ),
        after.spec_routes().len() == after.spec_tables().len(),
        before.spec_routes().len() == before.spec_tables().len(),
        is_static_route(parse_route(route)),
        list.contains(m),
    ensures
        after.spec_find(route, m) == Some((before.spec_handlers().len() as usize) as int),
        after.spec_find_params(route) == Seq::<(Seq<char>, Seq<char>)>::empty(),
{
    let r = parse_route(route);
    let ps = path_pieces(route);
    let h = before.spec_handlers().len() as usize;
    assert forall|i: int| 0 <= i < r.len() implies r[i] == SegView::Static(ps[i]) by {
        assert(r[i] == crate::app::routing::segment_of(ps[i]));
        assert(r[i] is Static);
    }
    let rs = before.spec_routes();
    let ts = before.spec_tables();
    lemma_route_index_upto(rs, r, rs.len() as int);
    let j = match route_index(rs, r) {
        Some(j) => j,
        None => rs.len() as int,
    };
    let rs2 = after.spec_routes();
    assert(rs2[j] == r);
    assert forall|i: int| 0 <= i < j implies rs2[i] != rs2[j] by {
        assert(rs2[i] == rs[i]);
    }
    lemma_best_is_static(rs2, ps, j, rs2.len() as int);
    lemma_static_match(r, ps);
    match route_index(rs, r) {
        Some(j) => {
            lemma_set_methods_found(ts[j], list, m, h);
        },
        None => {
            lemma_set_methods_found(Seq::empty(), list, m, h);
        },
    }
}

/// Whether some route equal to `r` has a handler for method `m`.
pub open spec fn has_route_method(rs: Seq<Seq<SegView>>, ts: Seq<Seq<(Method, usize)>>, r: Seq<SegView>, m: Method) -> bool {
    exists|i: int| 0 <= i < rs.len() && i < ts.len() && rs[i] == r && #[trigger] method_handler(ts[i], m) is Some
}

/// Whether some entry of a method table is for method `m`.
pub open spec fn has_method(ms: Seq<(Method, usize)>, m: Method) -> bool {
    exists|j: int| 0 <= j < ms.len() && #[trigger] ms[j].0 == m
}

proof fn lemma_method_handler_some(ms: Seq<(Method, usize)>, m: Method)
    ensures
        (method_handler(ms, m) is Some) == has_method(ms, m),
{
    lemma_method_index(ms, m, ms.len() as int);
    if has_method(ms, m) {
        let j = choose|j: int| 0 <= j < ms.len() && #[trigger] ms[j].0 == m;
        assert(ms[j].0 == m);
    }
}

proof fn lemma_set_method_names(ms: Seq<(Method, usize)>, m: Method, h: usize, m2: Method)
    ensures
        has_method(set_method(ms, m, h), m),
        has_method(ms, m2) ==> has_method(set_method(ms, m, h), m2),
{
    lemma_method_index(ms, m, ms.len() as int);
    let r = set_method(ms, m, h);
    match method_index(ms, m, ms.len() as int) {
        Some(i) => {
            assert(r[i].0 == m);
            if has_method(ms, m2) {
                let j = choose|j: int| 0 <= j < ms.len() && #[trigger] ms[j].0 == m2;
                assert(r[j].0 == m2);
            }
        },
        None => {
            assert(r[ms.len() as int].0 == m);
            if has_method(ms, m2) {
                let j = choose|j: int| 0 <= j < ms.len() && #[trigger] ms[j].0 == m2;
                assert(r[j].0 == m2);
            }
        },
    }
}

proof fn lemma_add_method_keeps(
    rs: Seq<Seq<SegView>>,
    ts: Seq<Seq<(Method, usize)>>,
    r: Seq<SegView>,
    m: Method,
    h: usize,
    r2: Seq<SegView>,
    m2: Method,
)
    requires
        rs.len() == ts.len(),
    ensures
        add_methods(rs, ts, r, seq![m], h).0.len() == add_methods(rs, ts, r, seq![m], h).1.len(),
        has_route_method(add_methods(rs, ts, r, seq![m], h).0, add_methods(rs, ts, r, seq![m], h).1, r, m),
        has_route_method(rs, ts, r2, m2) ==> has_route_method(
            add_methods(rs, ts, r, seq![m], h).0,
            add_methods(rs, ts, r, seq![m], h).1,
            r2,
            m2,
        ),
{
    let list = seq![m];
    assert(list.drop_last() =~= Seq::<Method>::empty());
    lemma_route_index_upto(rs, r, rs.len() as int);
    let (nrs, nts) = add_methods(rs, ts, r, list, h);
    match route_index(rs, r) {
        Some(j) => {
            assert(set_methods(ts[j], list.drop_last(), h) == ts[j]);
            assert(list.last() == m);
            assert(set_methods(ts[j], list, h) == set_method(ts[j], m, h));
            lemma_set_method_names(ts[j], m, h, m);
            lemma_method_handler_some(nts[j], m);
            assert(method_handler(nts[j], m) is Some);
            if has_route_method(rs, ts, r2, m2) {
                let i = choose|i: int| 0 <= i < rs.len() && i < ts.len() && rs[i] == r2 && #[trigger] method_handler(ts[i], m2) is Some;
                if i == j {
                    lemma_method_handler_some(ts[j], m2);
                    lemma_set_method_names(ts[j], m, h, m2);
                    lemma_method_handler_some(nts[j], m2);
                }
                assert(method_handler(nts[i], m2) is Some);
            }
        },
        None => {
            let n = rs.len() as int;
            assert(set_methods(Seq::<(Method, usize)>::empty(), list.drop_last(), h) == Seq::<(Method, usize)>::empty());
            assert(list.last() == m);
            assert(set_methods(Seq::empty(), list, h) == set_method(Seq::empty(), m, h));
            lemma_set_method_names(Seq::empty(), m, h, m);
            lemma_method_handler_some(nts[n], m);
            assert(nrs[n] == r);
            assert(method_handler(nts[n], m) is Some);
            if has_route_method(rs, ts, r2, m2) {
                let i = choose|i: int| 0 <= i < rs.len() && i < ts.len() && rs[i] == r2 && #[trigger] method_handler(ts[i], m2) is Some;
                assert(nrs[i] == rs[i] && nts[i] == ts[i]);
                assert(method_handler(nts[i], m2) is Some);
            }
        },
    }
}

proof fn lemma_merge_entry(
    rt: (Seq<Seq<SegView>>, Seq<Seq<(Method, usize)>>),
    r: Seq<SegView>,
    ms: Seq<(Method, usize)>,
    offset: int,
    j: int,
    r2: Seq<SegView>,
    m2: Method,
)
    requires
        rt.0.len() == rt.1.len(),
        0 <= j <= ms.len(),
    ensures
        merge_entry(rt, r, ms, offset, j).0.len() == merge_entry(rt, r, ms, offset, j).1.len(),
        has_route_method(rt.0, rt.1, r2, m2) ==> has_route_method(
            merge_entry(rt, r, ms, offset, j).0,
            merge_entry(rt, r, ms, offset, j).1,
            r2,
            m2,
        ),
        forall|e: int| 0 <= e < j ==> has_route_method(
            merge_entry(rt, r, ms, offset, j).0,
            merge_entry(rt, r, ms, offset, j).1,
            r,
            #[trigger] ms[e].0,
        ),
    decreases j,
{
    if j > 0 {
        let p = merge_entry(rt, r, ms, offset, j - 1);
        lemma_merge_entry(rt, r, ms, offset, j - 1, r2, m2);
        let h = (ms[j - 1].1 + offset) as usize;
        lemma_add_method_keeps(p.0, p.1, r, ms[j - 1].0, h, r2, m2);
        assert forall|e: int| 0 <= e < j implies has_route_method(
            merge_entry(rt, r, ms, offset, j).0,
            merge_entry(rt, r, ms, offset, j).1,
            r,
            #[trigger] ms[e].0,
        ) by {
            lemma_merge_entry(rt, r, ms, offset, j - 1, r, ms[e].0);
            lemma_add_method_keeps(p.0, p.1, r, ms[j - 1].0, h, r, ms[e].0);
        }
    }
}

proof fn lemma_merge_routes(
    rt: (Seq<Seq<SegView>>, Seq<Seq<(Method, usize)>>),
    sub_rs: Seq<Seq<SegView>>,
    sub_ts: Seq<Seq<(Method, usize)>>,
    prefix: Seq<char>,
    offset: int,
    k: int,
    r2: Seq<SegView>,
    m2: Method,
)
    requires
        rt.0.len() == rt.1.len(),
        sub_rs.len() == sub_ts.len(),
        0 <= k <= sub_rs.len(),
    ensures
        merge_routes(rt, sub_rs, sub_ts, prefix, offset, k).0.len() == merge_routes(rt, sub_rs, sub_ts, prefix, offset, k).1.len(),
        has_route_method(rt.0, rt.1, r2, m2) ==> has_route_method(
            merge_routes(rt, sub_rs, sub_ts, prefix, offset, k).0,
            merge_routes(rt, sub_rs, sub_ts, prefix, offset, k).1,
            r2,
            m2,
        ),
        forall|x: int, e: int| 0 <= x < k && 0 <= e < sub_ts[x].len() ==> has_route_method(
            merge_routes(rt, sub_rs, sub_ts, prefix, offset, k).0,
            merge_routes(rt, sub_rs, sub_ts, prefix, offset, k).1,
            joined_route(prefix, sub_rs[x]),
            #[trigger] sub_ts[x][e].0,
        ),
    decreases k,
{
    if k > 0 {
        let p = merge_routes(rt, sub_rs, sub_ts, prefix, offset, k - 1);
        let r = joined_route(prefix, sub_rs[k - 1]);
        let ms = sub_ts[k - 1];
        lemma_merge_routes(rt, sub_rs, sub_ts, prefix, offset, k - 1, r2, m2);
        lemma_merge_entry(p, r, ms, offset, ms.len() as int, r2, m2);
        assert forall|x: int, e: int| 0 <= x < k && 0 <= e < sub_ts[x].len() implies has_route_method(
            merge_routes(rt, sub_rs, sub_ts, prefix, offset, k).0,
            merge_routes(rt, sub_rs, sub_ts, prefix, offset, k).1,
            joined_route(prefix, sub_rs[x]),
            #[trigger] sub_ts[x][e].0,
        ) by {
            if x < k - 1 {
                lemma_merge_routes(rt, sub_rs, sub_ts, prefix, offset, k - 1, joined_route(prefix, sub_rs[x]), sub_ts[x][e].0);
                lemma_merge_entry(p, r, ms, offset, ms.len() as int, joined_route(prefix, sub_rs[x]), sub_ts[x][e].0);
            } else {
                lemma_merge_entry(p, r, ms, offset, ms.len() as int, r, ms[e].0);
            }
        }
    }
}

proof fn lemma_merge_fallbacks(
    fb: (Seq<Seq<SegView>>, Seq<usize>),
    sub_rs: Seq<Seq<SegView>>,
    sub_vs: Seq<usize>,
    prefix: Seq<char>,
    offset: int,
    k: int,
    r2: Seq<SegView>,
)
    requires
        0 <= k <= sub_rs.len(),
    ensures
        fb.0.contains(r2) ==> merge_fallbacks(fb, sub_rs, sub_vs, prefix, offset, k).0.contains(r2),
        forall|x: int| 0 <= x < k ==> merge_fallbacks(fb, sub_rs, sub_vs, prefix, offset, k).0.contains(
            joined_route(prefix, #[trigger] sub_rs[x]),
        ),
    decreases k,
{
    if k > 0 {
        let p = merge_fallbacks(fb, sub_rs, sub_vs, prefix, offset, k - 1);
        let r = joined_route(prefix, sub_rs[k - 1]);
        let q = merge_fallbacks(fb, sub_rs, sub_vs, prefix, offset, k);
        lemma_merge_fallbacks(fb, sub_rs, sub_vs, prefix, offset, k - 1, r2);
        lemma_route_index_upto(p.0, r, p.0.len() as int);
        assert(q.0.contains(r)) by {
            match route_index(p.0, r) {
                Some(j) => {
                    assert(q.0[j] == r);
                },
                None => {
                    assert(q.0[p.0.len() as int] == r);
                },
            }
        }
        assert forall|y: Seq<SegView>| p.0.contains(y) implies q.0.contains(y) by {
            let i = choose|i: int| 0 <= i < p.0.len() && p.0[i] == y;
            assert(q.0[i] == y);
        }
        assert forall|x: int| 0 <= x < k implies q.0.contains(joined_route(prefix, #[trigger] sub_rs[x])) by {
            if x < k - 1 {
                lemma_merge_fallbacks(fb, sub_rs, sub_vs, prefix, offset, k - 1, joined_route(prefix, sub_rs[x]));
            }
        }
    }
}

/// Adding a scope under a prefix lists every route of the scope, joined to the prefix, with each
/// method it has a handler for, and every fallback of the scope joined to the prefix; the routes
/// and fallbacks the scope had before stay listed. A prefix of `/` adds nothing to the routes.
pub proof fn law_add_scope_lists_routes(
    rt: (Seq<Seq<SegView>>, Seq<Seq<(Method, usize)>>),
    sub_rs: Seq<Seq<SegView>>,
    sub_ts: Seq<Seq<(Method, usize)>>,
    fb: (Seq<Seq<SegView>>, Seq<usize>),
    sub_fb_rs: Seq<Seq<SegView>>,
    sub_fb_vs: Seq<usize>,
    prefix: Seq<char>,
    offset: int,
    r2: Seq<SegView>,
    m2: Method,
)
    requires
        rt.0.len() == rt.1.len(),
        sub_rs.len() == sub_ts.len(),
    ensures
        ({
            let merged = merge_routes(rt, sub_rs, sub_ts, prefix, offset, sub_rs.len() as int);
            &&& forall|x: int, e: int| 0 <= x < sub_rs.len() && 0 <= e < sub_ts[x].len() ==> has_route_method(
                merged.0,
                merged.1,
                joined_route(prefix, sub_rs[x]),
                #[trigger] sub_ts[x][e].0,
            )
            &&& has_route_method(rt.0, rt.1, r2, m2) ==> has_route_method(merged.0, merged.1, r2, m2)
        }),
        ({
            let merged = merge_fallbacks(fb, sub_fb_rs, sub_fb_vs, prefix, offset, sub_fb_rs.len() as int);
            &&& forall|x: int| 0 <= x < sub_fb_rs.len() ==> merged.0.contains(joined_route(prefix, #[trigger] sub_fb_rs[x]))
            &&& fb.0.contains(r2) ==> merged.0.contains(r2)
        }),
        prefix == seq!['/'] ==> forall|r: Seq<SegView>| #[trigger] joined_route(prefix, r) == parse_route(render_route(r)),
{
    lemma_merge_routes(rt, sub_rs, sub_ts, prefix, offset, sub_rs.len() as int, r2, m2);
    lemma_merge_fallbacks(fb, sub_fb_rs, sub_fb_vs, prefix, offset, sub_fb_rs.len() as int, r2);
}

/// Whether some route equal to `r` gives method `m` to handler `h`.
pub open spec fn has_route_handler(rs: Seq<Seq<SegView>>, ts: Seq<Seq<(Method, usize)>>, r: Seq<SegView>, m: Method, h: usize) -> bool {
    exists|i: int| 0 <= i < rs.len() && i < ts.len() && rs[i] == r && #[trigger] method_handler(ts[i], m) == Some(h)
}

proof fn lemma_set_method_handler(ms: Seq<(Method, usize)>, m: Method, h: usize, m2: Method)
    ensures
        method_handler(set_method(ms, m, h), m) == Some(h),
        m2 != m ==> method_handler(set_method(ms, m, h), m2) == method_handler(ms, m2),
{
    let n = set_method(ms, m, h);
    lemma_method_index(ms, m, ms.len() as int);
    match method_index(ms, m, ms.len() as int) {
        Some(i) => {
            assert(n.len() == ms.len());
            assert forall|k: int| 0 <= k < ms.len() implies #[trigger] n[k].0 == ms[k].0 by {}
        },
        None => {
            assert(n.len() == ms.len() + 1);
            assert forall|k: int| 0 <= k < ms.len() implies #[trigger] n[k] == ms[k] by {}
            assert(n[ms.len() as int] == (m, h));
        },
    }
    lemma_method_index(n, m, n.len() as int);
    lemma_method_index(ms, m2, ms.len() as int);
    lemma_method_index(n, m2, n.len() as int);
    match method_index(ms, m, ms.len() as int) {
        Some(i) => {
            match method_index(n, m, n.len() as int) {
                Some(i2) => {
                    if i2 < i {
                        assert(ms[i2].0 == n[i2].0);
                    } else if i2 > i {
                        assert(n[i].0 == m);
                    }
                },
                None => {
                    assert(n[i].0 == m);
                },
            }
            if m2 != m {
                match method_index(ms, m2, ms.len() as int) {
                    Some(j) => {
                        assert(j != i);
                        match method_index(n, m2, n.len() as int) {
                            Some(j2) => {
                                if j2 < j {
                                    assert(ms[j2].0 == n[j2].0);
                                } else if j2 > j {
                                    assert(n[j].0 == ms[j].0);
                                }
                            },
                            None => {
                                assert(n[j].0 == ms[j].0);
                            },
                        }
                    },
                    None => {
                        match method_index(n, m2, n.len() as int) {
                            Some(j2) => {
                                assert(ms[j2].0 == n[j2].0);
                            },
                            None => {},
                        }
                    },
                }
            }
        },
        None => {
            let last = ms.len() as int;
            match method_index(n, m, n.len() as int) {
                Some(i2) => {
                    if i2 < last {
                        assert(ms[i2] == n[i2]);
                    }
                },
                None => {
                    assert(n[last].0 == m);
                },
            }
            if m2 != m {
                match method_index(ms, m2, ms.len() as int) {
                    Some(j) => {
                        match method_index(n, m2, n.len() as int) {
                            Some(j2) => {
                                if j2 < j {
                                    assert(ms[j2] == n[j2]);
                                } else if j2 > j {
                                    assert(n[j] == ms[j]);
                                }
                            },
                            None => {
                                assert(n[j] == ms[j]);
                            },
                        }
                    },
                    None => {
                        match method_index(n, m2, n.len() as int) {
                            Some(j2) => {
                                if j2 < last {
                                    assert(ms[j2] == n[j2]);
                                }
                            },
                            None => {},
                        }
                    },
                }
            }
        },
    }
}

proof fn lemma_add_method_handler(
    rs: Seq<Seq<SegView>>,
    ts: Seq<Seq<(Method, usize)>>,
    r: Seq<SegView>,
    m: Method,
    h: usize,
    r2: Seq<SegView>,
    m2: Method,
    h2: usize,
)
    requires
        rs.len() == ts.len(),
    ensures
        has_route_handler(add_methods(rs, ts, r, seq![m], h).0, add_methods(rs, ts, r, seq![m], h).1, r, m, h),
        (r2 != r || m2 != m) && has_route_handler(rs, ts, r2, m2, h2) ==> has_route_handler(
            add_methods(rs, ts, r, seq![m], h).0,
            add_methods(rs, ts, r, seq![m], h).1,
            r2,
            m2,
            h2,
        ),
{
    let list = seq![m];
    assert(list.drop_last() =~= Seq::<Method>::empty());
    lemma_route_index_upto(rs, r, rs.len() as int);
    let (nrs, nts) = add_methods(rs, ts, r, list, h);
    match route_index(rs, r) {
        Some(j) => {
            assert(set_methods(ts[j], list.drop_last(), h) == ts[j]);
            assert(list.last() == m);
            assert(nts[j] == set_method(ts[j], m, h));
            lemma_set_method_handler(ts[j], m, h, m2);
            assert(method_handler(nts[j], m) == Some(h));
            if (r2 != r || m2 != m) && has_route_handler(rs, ts, r2, m2, h2) {
                let i = choose|i: int| 0 <= i < rs.len() && i < ts.len() && rs[i] == r2 && #[trigger] method_handler(ts[i], m2) == Some(h2);
                assert(method_handler(nts[i], m2) == Some(h2));
            }
        },
        None => {
            let n = rs.len() as int;
            assert(set_methods(Seq::<(Method, usize)>::empty(), list.drop_last(), h) == Seq::<(Method, usize)>::empty());
            assert(list.last() == m);
            assert(nts[n] == set_method(Seq::empty(), m, h));
            lemma_set_method_handler(Seq::empty(), m, h, m);
            assert(nrs[n] == r);
            assert(method_handler(nts[n], m) == Some(h));
            if has_route_handler(rs, ts, r2, m2, h2) {
                let i = choose|i: int| 0 <= i < rs.len() && i < ts.len() && rs[i] == r2 && #[trigger] method_handler(ts[i], m2) == Some(h2);
                assert(nrs[i] == rs[i] && nts[i] == ts[i]);
                assert(method_handler(nts[i], m2) == Some(h2));
            }
        },
    }
}

proof fn lemma_merge_entry_handlers(
    rt: (Seq<Seq<SegView>>, Seq<Seq<(Method, usize)>>),
    r: Seq<SegView>,
    ms: Seq<(Method, usize)>,
    offset: int,
    j: int,
    r2: Seq<SegView>,
    m2: Method,
    h2: usize,
)
    requires
        rt.0.len() == rt.1.len(),
        0 <= j <= ms.len(),
    ensures
        merge_entry(rt, r, ms, offset, j).0.len() == merge_entry(rt, r, ms, offset, j).1.len(),
        has_route_handler(rt.0, rt.1, r2, m2, h2) && !(r2 == r && exists|e: int| 0 <= e < j && #[trigger] ms[e].0 == m2)
            ==> has_route_handler(merge_entry(rt, r, ms, offset, j).0, merge_entry(rt, r, ms, offset, j).1, r2, m2, h2),
        forall|e: int|
            0 <= e < j && !(exists|e2: int| e < e2 < j && #[trigger] ms[e2].0 == ms[e].0) ==> has_route_handler(
                merge_entry(rt, r, ms, offset, j).0,
                merge_entry(rt, r, ms, offset, j).1,
                r,
                #[trigger] ms[e].0,
                (ms[e].1 + offset) as usize,
            ),
    decreases j,
{
    lemma_merge_entry(rt, r, ms, offset, j, r2, m2);
    if j > 0 {
        let p = merge_entry(rt, r, ms, offset, j - 1);
        let m = ms[j - 1].0;
        let h = (ms[j - 1].1 + offset) as usize;
        lemma_merge_entry_handlers(rt, r, ms, offset, j - 1, r2, m2, h2);
        lemma_add_method_handler(p.0, p.1, r, m, h, r2, m2, h2);
        if has_route_handler(rt.0, rt.1, r2, m2, h2) && !(r2 == r && exists|e: int| 0 <= e < j && #[trigger] ms[e].0 == m2) {
            assert(!(r2 == r && exists|e: int| 0 <= e < j - 1 && #[trigger] ms[e].0 == m2)) by {
                if r2 == r && exists|e: int| 0 <= e < j - 1 && #[trigger] ms[e].0 == m2 {
                    let e = choose|e: int| 0 <= e < j - 1 && #[trigger] ms[e].0 == m2;
                    assert(0 <= e < j && ms[e].0 == m2);
                }
            }
            if r2 == r {
                assert(ms[j - 1].0 != m2);
            }
        }
        assert forall|e: int|
            0 <= e < j && !(exists|e2: int| e < e2 < j && #[trigger] ms[e2].0 == ms[e].0) implies has_route_handler(
                merge_entry(rt, r, ms, offset, j).0,
                merge_entry(rt, r, ms, offset, j).1,
                r,
                #[trigger] ms[e].0,
                (ms[e].1 + offset) as usize,
            ) by {
            if e < j - 1 {
                lemma_merge_entry_handlers(rt, r, ms, offset, j - 1, r, ms[e].0, (ms[e].1 + offset) as usize);
                assert(!(exists|e2: int| e < e2 < j - 1 && #[trigger] ms[e2].0 == ms[e].0)) by {
                    if exists|e2: int| e < e2 < j - 1 && #[trigger] ms[e2].0 == ms[e].0 {
                        let e2 = choose|e2: int| e < e2 < j - 1 && #[trigger] ms[e2].0 == ms[e].0;
                        assert(e < e2 < j && ms[e2].0 == ms[e].0);
                    }
                }
                assert(ms[j - 1].0 != ms[e].0) by {
                    if ms[j - 1].0 == ms[e].0 {
                        assert(e < j - 1 < j);
                    }
                }
                lemma_add_method_handler(p.0, p.1, r, m, h, r, ms[e].0, (ms[e].1 + offset) as usize);
            }
        }
    }
}

/// Whether a method entry `e` of sub-scope route `x` is set again later among the first `k`
/// routes: by a later entry of the same route, or by an entry of a later route that joins to
/// the same route, for the same method.
pub open spec fn set_again_later(
    sub_rs: Seq<Seq<SegView>>,
    sub_ts: Seq<Seq<(Method, usize)>>,
    prefix: Seq<char>,
    x: int,
    e: int,
    k: int,
) -> bool {
    exists|x2: int, e2: int|
        ((x2 == x && e < e2 < sub_ts[x].len()) || (x < x2 < k && 0 <= e2 < sub_ts[x2].len()))
            && joined_route(prefix, sub_rs[x2]) == joined_route(prefix, sub_rs[x])
            && #[trigger] sub_ts[x2][e2].0 == sub_ts[x][e].0
}

/// Whether some method entry among the first `k` routes of a sub-scope joins to route `r` for
/// method `m`.
pub open spec fn sub_sets(
    sub_rs: Seq<Seq<SegView>>,
    sub_ts: Seq<Seq<(Method, usize)>>,
    prefix: Seq<char>,
    k: int,
    r: Seq<SegView>,
    m: Method,
) -> bool {
    exists|x: int, e: int|
        0 <= x < k && 0 <= e < sub_ts[x].len() && joined_route(prefix, sub_rs[x]) == r
            && #[trigger] sub_ts[x][e].0 == m
}

proof fn lemma_merge_routes_keep_handler(
    rt: (Seq<Seq<SegView>>, Seq<Seq<(Method, usize)>>),
    sub_rs: Seq<Seq<SegView>>,
    sub_ts: Seq<Seq<(Method, usize)>>,
    prefix: Seq<char>,
    offset: int,
    k: int,
    r2: Seq<SegView>,
    m2: Method,
    h2: usize,
)
    requires
        rt.0.len() == rt.1.len(),
        sub_rs.len() == sub_ts.len(),
        0 <= k <= sub_rs.len(),
        has_route_handler(rt.0, rt.1, r2, m2, h2),
        !sub_sets(sub_rs, sub_ts, prefix, k, r2, m2),
    ensures
        has_route_handler(
            merge_routes(rt, sub_rs, sub_ts, prefix, offset, k).0,
            merge_routes(rt, sub_rs, sub_ts, prefix, offset, k).1,
            r2,
            m2,
            h2,
        ),
    decreases k,
{
    if k > 0 {
        let p = merge_routes(rt, sub_rs, sub_ts, prefix, offset, k - 1);
        let r = joined_route(prefix, sub_rs[k - 1]);
        let ms = sub_ts[k - 1];
        lemma_merge_routes(rt, sub_rs, sub_ts, prefix, offset, k - 1, r2, m2);
        assert(!sub_sets(sub_rs, sub_ts, prefix, k - 1, r2, m2)) by {
            if sub_sets(sub_rs, sub_ts, prefix, k - 1, r2, m2) {
                let (x, e) = choose|x: int, e: int|
                    0 <= x < k - 1 && 0 <= e < sub_ts[x].len() && joined_route(prefix, sub_rs[x]) == r2
                        && #[trigger] sub_ts[x][e].0 == m2;
                assert(0 <= x < k && sub_ts[x][e].0 == m2);
            }
        }
        lemma_merge_routes_keep_handler(rt, sub_rs, sub_ts, prefix, offset, k - 1, r2, m2, h2);
        assert(!(r2 == r && exists|e: int| 0 <= e < ms.len() && #[trigger] ms[e].0 == m2)) by {
            if r2 == r && exists|e: int| 0 <= e < ms.len() && #[trigger] ms[e].0 == m2 {
                let e = choose|e: int| 0 <= e < ms.len() && #[trigger] ms[e].0 == m2;
                assert(sub_ts[k - 1][e].0 == m2);
            }
        }
        lemma_merge_entry_handlers(p, r, ms, offset, ms.len() as int, r2, m2, h2);
    }
}

#[verifier::rlimit(30)]
proof fn lemma_merge_routes_handler_at(
    rt: (Seq<Seq<SegView>>, Seq<Seq<(Method, usize)>>),
    sub_rs: Seq<Seq<SegView>>,
    sub_ts: Seq<Seq<(Method, usize)>>,
    prefix: Seq<char>,
    offset: int,
    k: int,
    x: int,
    e: int,
)
    requires
        rt.0.len() == rt.1.len(),
        sub_rs.len() == sub_ts.len(),
        0 <= x < k <= sub_rs.len(),
        0 <= e < sub_ts[x].len(),
        !set_again_later(sub_rs, sub_ts, prefix, x, e, k),
    ensures
        has_route_handler(
            merge_routes(rt, sub_rs, sub_ts, prefix, offset, k).0,
            merge_routes(rt, sub_rs, sub_ts, prefix, offset, k).1,
            joined_route(prefix, sub_rs[x]),
            sub_ts[x][e].0,
            (sub_ts[x][e].1 + offset) as usize,
        ),
    decreases k,
{
    let p = merge_routes(rt, sub_rs, sub_ts, prefix, offset, k - 1);
    let r = joined_route(prefix, sub_rs[k - 1]);
    let ms = sub_ts[k - 1];
    let rx = joined_route(prefix, sub_rs[x]);
    let mx = sub_ts[x][e].0;
    let hx = (sub_ts[x][e].1 + offset) as usize;
    lemma_merge_routes(rt, sub_rs, sub_ts, prefix, offset, k - 1, rx, mx);
    if x < k - 1 {
        assert(!set_again_later(sub_rs, sub_ts, prefix, x, e, k - 1)) by {
            if set_again_later(sub_rs, sub_ts, prefix, x, e, k - 1) {
                let (x2, e2) = choose|x2: int, e2: int|
                    ((x2 == x && e < e2 < sub_ts[x].len()) || (x < x2 < k - 1 && 0 <= e2 < sub_ts[x2].len()))
                        && joined_route(prefix, sub_rs[x2]) == joined_route(prefix, sub_rs[x])
                        && #[trigger] sub_ts[x2][e2].0 == sub_ts[x][e].0;
                assert(sub_ts[x2][e2].0 == sub_ts[x][e].0);
            }
        }
        lemma_merge_routes_handler_at(rt, sub_rs, sub_ts, prefix, offset, k - 1, x, e);
        assert(!(rx == r && exists|e3: int| 0 <= e3 < ms.len() && #[trigger] ms[e3].0 == mx)) by {
            if rx == r && exists|e3: int| 0 <= e3 < ms.len() && #[trigger] ms[e3].0 == mx {
                let e3 = choose|e3: int| 0 <= e3 < ms.len() && #[trigger] ms[e3].0 == mx;
                assert(sub_ts[k - 1][e3].0 == sub_ts[x][e].0);
            }
        }
        lemma_merge_entry_handlers(p, r, ms, offset, ms.len() as int, rx, mx, hx);
    } else {
        assert(!(exists|e2: int| e < e2 < ms.len() && #[trigger] ms[e2].0 == ms[e].0)) by {
            if exists|e2: int| e < e2 < ms.len() && #[trigger] ms[e2].0 == ms[e].0 {
                let e2 = choose|e2: int| e < e2 < ms.len() && #[trigger] ms[e2].0 == ms[e].0;
                assert(sub_ts[x][e2].0 == sub_ts[x][e].0);
            }
        }
        lemma_merge_entry_handlers(p, r, ms, offset, ms.len() as int, rx, mx, hx);
    }
}

/// Adding a scope under a prefix gives each method of each of its routes, on the route joined
/// to the prefix, the handler the scope had for it (moved past the handlers already held),
/// unless a later entry of the scope sets the same joined route and method again; and every
/// method the scope held before keeps its handler unless the added scope sets that route and
/// method.
pub proof fn law_add_scope_keeps_handlers(
    rt: (Seq<Seq<SegView>>, Seq<Seq<(Method, usize)>>),
    sub_rs: Seq<Seq<SegView>>,
    sub_ts: Seq<Seq<(Method, usize)>>,
    prefix: Seq<char>,
    offset: int,
    r2: Seq<SegView>,
    m2: Method,
    h2: usize,
)
    requires
        rt.0.len() == rt.1.len(),
        sub_rs.len() == sub_ts.len(),
    ensures
        ({
            let merged = merge_routes(rt, sub_rs, sub_ts, prefix, offset, sub_rs.len() as int);
            &&& forall|x: int, e: int|
                0 <= x < sub_rs.len() && 0 <= e < sub_ts[x].len() && !set_again_later(
                    sub_rs,
                    sub_ts,
                    prefix,
                    x,
                    e,
                    sub_rs.len() as int,
                ) ==> has_route_handler(
                    merged.0,
                    merged.1,
                    joined_route(prefix, sub_rs[x]),
                    #[trigger] sub_ts[x][e].0,
                    (sub_ts[x][e].1 + offset) as usize,
                )
            &&& has_route_handler(rt.0, rt.1, r2, m2, h2) && !sub_sets(sub_rs, sub_ts, prefix, sub_rs.len() as int, r2, m2)
                ==> has_route_handler(merged.0, merged.1, r2, m2, h2)
        }),
{
    let k = sub_rs.len() as int;
    if has_route_handler(rt.0, rt.1, r2, m2, h2) && !sub_sets(sub_rs, sub_ts, prefix, k, r2, m2) {
        lemma_merge_routes_keep_handler(rt, sub_rs, sub_ts, prefix, offset, k, r2, m2, h2);
    }
    assert forall|x: int, e: int|
        0 <= x < k && 0 <= e < sub_ts[x].len() && !set_again_later(sub_rs, sub_ts, prefix, x, e, k)
            implies has_route_handler(
            merge_routes(rt, sub_rs, sub_ts, prefix, offset, k).0,
            merge_routes(rt, sub_rs, sub_ts, prefix, offset, k).1,
            joined_route(prefix, sub_rs[x]),
            #[trigger] sub_ts[x][e].0,
            (sub_ts[x][e].1 + offset) as usize,
        ) by {
        lemma_merge_routes_handler_at(rt, sub_rs, sub_ts, prefix, offset, k, x, e);
    }
}

} // verus!
