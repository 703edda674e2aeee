//! An application: a root scope, middleware and shared state.
use vstd::prelude::*;
use crate::app::method::{Method, MethodRoute, all_methods};
use crate::app::routing::{Route, SegView, parse_route, param_views};
use crate::app::scope::{Scope, add_methods, merge_fallbacks, merge_routes, route_method_pairs, router_insert};

verus! {

/// What answering a request takes: the handler (none stands for the default handler that
/// answers "not found"), the parameters of the path, the route it went to, the middleware to run
/// around the handler (the last added runs first), the state, and whether the response body is
/// to be dropped (for `HEAD`).
pub struct Dispatch<'a, H, M, S> {
    pub handler: Option<&'a H>,
    pub params: Vec<(String, String)>,
    pub route: Option<Route>,
    pub middleware: &'a Vec<M>,
    pub state: Option<&'a S>,
    pub discard_body: bool,
}

/// A server application: a root scope of handlers of type `H`, middleware of type `M` and a state
/// of type `S` that handlers can ask for.
pub struct App<H, M, S> {
    scope: Scope<H>,
    middleware: Vec<M>,
    app_state: Option<S>,
}

impl<H, M, S> App<H, M, S> {
    /// The root scope.
    pub closed spec fn spec_scope(&self) -> Scope<H> {
        self.scope
    }

    /// The middleware, in the order it was added.
    pub closed spec fn spec_middleware(&self) -> Seq<M> {
        self.middleware@
    }

    /// The state.
    pub closed spec fn spec_state(&self) -> Option<S> {
        self.app_state
    }

    /// The root scope is well formed.
    pub open spec fn wf(&self) -> bool {
        self.spec_scope().wf()
    }

    /// An application without routes, middleware or state.
    pub fn new() -> (r: Self)
        ensures
            r.wf(),
            r.spec_scope().spec_is_root(),
            r.spec_scope().spec_handlers() == Seq::<H>::empty(),
            r.spec_scope().spec_routes() == Seq::<Seq<SegView>>::empty(),
            r.spec_scope().spec_fallback_routes() == Seq::<Seq<SegView>>::empty(),
            r.spec_middleware() == Seq::<M>::empty(),
            r.spec_state() is None,
    {
        App { scope: Scope::root(), middleware: Vec::new(), app_state: None }
    }

    /// Adds a middleware.
    pub fn add_middleware(&mut self, middleware: M)
        ensures
            final(self).spec_middleware() == old(self).spec_middleware().push(middleware),
            final(self).spec_scope() == old(self).spec_scope(),
            final(self).spec_state() == old(self).spec_state(),
    {
        self.middleware.push(middleware);
    }

    /// Adds a route handler for the methods of `method`.
    pub fn add_route(&mut self, method: MethodRoute, route: &str, handler: H)
        requires
            old(self).wf(),
        ensures
            final(self).wf(),
            final(self).spec_middleware() == old(self).spec_middleware(),
            final(self).spec_state() == old(self).spec_state(),
            final(self).spec_scope().spec_handlers() == old(self).spec_scope().spec_handlers().push(handler),
            final(self).spec_scope().spec_fallback_routes() == old(self).spec_scope().spec_fallback_routes(),
            final(self).spec_scope().spec_fallback_values() == old(self).spec_scope().spec_fallback_values(),
            (final(self).spec_scope().spec_routes(), final(self).spec_scope().spec_tables()) == add_methods(
                old(self).spec_scope().spec_routes(),
                old(self).spec_scope().spec_tables(),
                parse_route(route@),
                method.spec_methods(),
                old(self).spec_scope().spec_handlers().len() as usize,
            ),
    {
        self.scope.add_route(route, method, handler);
    }

    /// Adds a middleware.
    pub fn middleware(self, middleware: M) -> (r: Self)
        ensures
            r.spec_middleware() == self.spec_middleware().push(middleware),
            r.spec_scope() == self.spec_scope(),
            r.spec_state() == self.spec_state(),
    {
        let mut app = self;
        app.add_middleware(middleware);
        app
    }

    /// Sets the state that handlers can ask for.
    pub fn state(self, value: S) -> (r: Self)
        ensures
            r.spec_state() == Some(value),
            r.spec_scope() == self.spec_scope(),
            r.spec_middleware() == self.spec_middleware(),
    {
        App { scope: self.scope, middleware: self.middleware, app_state: Some(value) }
    }

    /// Adds a nested scope under a route.
    pub fn scope(self, route: &str, scope: Scope<H>) -> (r: Self)
        requires
            self.wf(),
            scope.wf(),
        ensures
            r.wf(),
            r.spec_middleware() == self.spec_middleware(),
            r.spec_state() == self.spec_state(),
            r.spec_scope().spec_handlers() == self.spec_scope().spec_handlers() + scope.spec_handlers(),
            (r.spec_scope().spec_fallback_routes(), r.spec_scope().spec_fallback_values()) == merge_fallbacks(
                (self.spec_scope().spec_fallback_routes(), self.spec_scope().spec_fallback_values()),
                scope.spec_fallback_routes(),
                scope.spec_fallback_values(),
                route@,
                self.spec_scope().spec_handlers().len() as int,
                scope.spec_fallback_routes().len() as int,
            ),
            (r.spec_scope().spec_routes(), r.spec_scope().spec_tables()) == merge_routes(
                (self.spec_scope().spec_routes(), self.spec_scope().spec_tables()),
                scope.spec_routes(),
                scope.spec_tables(),
                route@,
                self.spec_scope().spec_handlers().len() as int,
                scope.spec_routes().len() as int,
            ),
    {
        let App { scope: mut root, middleware, app_state } = self;
        root.add_scope(route, scope);
        App { scope: root, middleware, app_state }
    }

    /// Adds a route with the given methods, route path and handler.
    pub fn route(self, method: MethodRoute, route: &str, handler: H) -> (r: Self)
        requires
            self.wf(),
        ensures
            r.wf(),
            r.spec_middleware() == self.spec_middleware(),
            r.spec_state() == self.spec_state(),
            r.spec_scope().spec_handlers() == self.spec_scope().spec_handlers().push(handler),
            r.spec_scope().spec_fallback_routes() == self.spec_scope().spec_fallback_routes(),
            r.spec_scope().spec_fallback_values() == self.spec_scope().spec_fallback_values(),
            (r.spec_scope().spec_routes(), r.spec_scope().spec_tables()) == add_methods(
                self.spec_scope().spec_routes(),
                self.spec_scope().spec_tables(),
                parse_route(route@),
                method.spec_methods(),
                self.spec_scope().spec_handlers().len() as usize,
            ),
    {
        let mut app = self;
        app.add_route(method, route, handler);
        app
    }

    /// Adds a fallback route handler.
    pub fn fallback(self, handler: H) -> (r: Self)
        requires
            self.wf(),
        ensures
            r.wf(),
            r.spec_middleware() == self.spec_middleware(),
            r.spec_state() == self.spec_state(),
            r.spec_scope().spec_handlers() == self.spec_scope().spec_handlers().push(handler),
            r.spec_scope().spec_routes() == self.spec_scope().spec_routes(),
            r.spec_scope().spec_tables() == self.spec_scope().spec_tables(),
            ({
                let idx = self.spec_scope().spec_handlers().len() as usize;
                let first = router_insert(
                    self.spec_scope().spec_fallback_routes(),
                    self.spec_scope().spec_fallback_values(),
                    Seq::empty(),
                    idx,
                );
                (r.spec_scope().spec_fallback_routes(), r.spec_scope().spec_fallback_values()) == router_insert(
                    first.0,
                    first.1,
                    seq![SegView::CatchAll(None)],
                    idx,
                )
            }),
    {
        let App { scope: mut root, middleware, app_state } = self;
        root.add_fallback(handler);
        App { scope: root, middleware, app_state }
    }

    /// Adds a `GET` route handler.
    pub fn get(self, route: &str, handler: H) -> (r: Self)
        requires
            self.wf(),
        ensures
            r.wf(),
            r.spec_middleware() == self.spec_middleware(),
            r.spec_state() == self.spec_state(),
            r.spec_scope().spec_handlers() == self.spec_scope().spec_handlers().push(handler),
            r.spec_scope().spec_fallback_routes() == self.spec_scope().spec_fallback_routes(),
            r.spec_scope().spec_fallback_values() == self.spec_scope().spec_fallback_values(),
            (r.spec_scope().spec_routes(), r.spec_scope().spec_tables()) == add_methods(
                self.spec_scope().spec_routes(),
                self.spec_scope().spec_tables(),
                parse_route(route@),
                seq![Method::GET],
                self.spec_scope().spec_handlers().len() as usize,
            ),
    {
        let m = MethodRoute::from_method(Method::GET);
        proof {
            MethodRoute::lemma_single_methods(m, Method::GET);
        }
        self.route(m, route, handler)
    }

    /// Adds a `POST` route handler.
    pub fn post(self, route: &str, handler: H) -> (r: Self)
        requires
            self.wf(),
        ensures
            r.wf(),
            r.spec_middleware() == self.spec_middleware(),
            r.spec_state() == self.spec_state(),
            r.spec_scope().spec_handlers() == self.spec_scope().spec_handlers().push(handler),
            r.spec_scope().spec_fallback_routes() == self.spec_scope().spec_fallback_routes(),
            r.spec_scope().spec_fallback_values() == self.spec_scope().spec_fallback_values(),
            (r.spec_scope().spec_routes(), r.spec_scope().spec_tables()) == add_methods(
                self.spec_scope().spec_routes(),
                self.spec_scope().spec_tables(),
                parse_route(route@),
                seq![Method::POST],
                self.spec_scope().spec_handlers().len() as usize,
            ),
    {
        let m = MethodRoute::from_method(Method::POST);
        proof {
            MethodRoute::lemma_single_methods(m, Method::POST);
        }
        self.route(m, route, handler)
    }

    /// Adds a `PUT` route handler.
    pub fn put(self, route: &str, handler: H) -> (r: Self)
        requires
            self.wf(),
        ensures
            r.wf(),
            r.spec_middleware() == self.spec_middleware(),
            r.spec_state() == self.spec_state(),
            r.spec_scope().spec_handlers() == self.spec_scope().spec_handlers().push(handler),
            r.spec_scope().spec_fallback_routes() == self.spec_scope().spec_fallback_routes(),
            r.spec_scope().spec_fallback_values() == self.spec_scope().spec_fallback_values(),
            (r.spec_scope().spec_routes(), r.spec_scope().spec_tables()) == add_methods(
                self.spec_scope().spec_routes(),
                self.spec_scope().spec_tables(),
                parse_route(route@),
                seq![Method::PUT],
                self.spec_scope().spec_handlers().len() as usize,
            ),
    {
        let m = MethodRoute::from_method(Method::PUT);
        proof {
            MethodRoute::lemma_single_methods(m, Method::PUT);
        }
        self.route(m, route, handler)
    }

    /// Adds a `DELETE` route handler.
    pub fn delete(self, route: &str, handler: H) -> (r: Self)
        requires
            self.wf(),
        ensures
            r.wf(),
            r.spec_middleware() == self.spec_middleware(),
            r.spec_state() == self.spec_state(),
            r.spec_scope().spec_handlers() == self.spec_scope().spec_handlers().push(handler),
            r.spec_scope().spec_fallback_routes() == self.spec_scope().spec_fallback_routes(),
            r.spec_scope().spec_fallback_values() == self.spec_scope().spec_fallback_values(),
            (r.spec_scope().spec_routes(), r.spec_scope().spec_tables()) == add_methods(
                self.spec_scope().spec_routes(),
                self.spec_scope().spec_tables(),
                parse_route(route@),
                seq![Method::DELETE],
                self.spec_scope().spec_handlers().len() as usize,
            ),
    {
        let m = MethodRoute::from_method(Method::DELETE);
        proof {
            MethodRoute::lemma_single_methods(m, Method::DELETE);
        }
        self.route(m, route, handler)
    }

    /// Adds a `PATCH` route handler.
    pub fn patch(self, route: &str, handler: H) -> (r: Self)
        requires
            self.wf(),
        ensures
            r.wf(),
            r.spec_middleware() == self.spec_middleware(),
            r.spec_state() == self.spec_state(),
            r.spec_scope().spec_handlers() == self.spec_scope().spec_handlers().push(handler),
            r.spec_scope().spec_fallback_routes() == self.spec_scope().spec_fallback_routes(),
            r.spec_scope().spec_fallback_values() == self.spec_scope().spec_fallback_values(),
            (r.spec_scope().spec_routes(), r.spec_scope().spec_tables()) == add_methods(
                self.spec_scope().spec_routes(),
                self.spec_scope().spec_tables(),
                parse_route(route@),
                seq![Method::PATCH],
                self.spec_scope().spec_handlers().len() as usize,
            ),
    {
        let m = MethodRoute::from_method(Method::PATCH);
        proof {
            MethodRoute::lemma_single_methods(m, Method::PATCH);
        }
        self.route(m, route, handler)
    }

    /// Adds a `OPTIONS` route handler.
    pub fn options(self, route: &str, handler: H) -> (r: Self)
        requires
            self.wf(),
        ensures
            r.wf(),
            r.spec_middleware() == self.spec_middleware(),
            r.spec_state() == self.spec_state(),
            r.spec_scope().spec_handlers() == self.spec_scope().spec_handlers().push(handler),
            r.spec_scope().spec_fallback_routes() == self.spec_scope().spec_fallback_routes(),
            r.spec_scope().spec_fallback_values() == self.spec_scope().spec_fallback_values(),
            (r.spec_scope().spec_routes(), r.spec_scope().spec_tables()) == add_methods(
                self.spec_scope().spec_routes(),
                self.spec_scope().spec_tables(),
                parse_route(route@),
                seq![Method::OPTIONS],
                self.spec_scope().spec_handlers().len() as usize,
            ),
    {
        let m = MethodRoute::from_method(Method::OPTIONS);
        proof {
            MethodRoute::lemma_single_methods(m, Method::OPTIONS);
        }
        self.route(m, route, handler)
    }

    /// Adds a `HEAD` route handler.
    pub fn head(self, route: &str, handler: H) -> (r: Self)
        requires
            self.wf(),
        ensures
            r.wf(),
            r.spec_middleware() == self.spec_middleware(),
            r.spec_state() == self.spec_state(),
            r.spec_scope().spec_handlers() == self.spec_scope().spec_handlers().push(handler),
            r.spec_scope().spec_fallback_routes() == self.spec_scope().spec_fallback_routes(),
            r.spec_scope().spec_fallback_values() == self.spec_scope().spec_fallback_values(),
            (r.spec_scope().spec_routes(), r.spec_scope().spec_tables()) == add_methods(
                self.spec_scope().spec_routes(),
                self.spec_scope().spec_tables(),
                parse_route(route@),
                seq![Method::HEAD],
                self.spec_scope().spec_handlers().len() as usize,
            ),
    {
        let m = MethodRoute::from_method(Method::HEAD);
        proof {
            MethodRoute::lemma_single_methods(m, Method::HEAD);
        }
        self.route(m, route, handler)
    }

    /// Adds a `TRACE` route handler.
    pub fn trace(self, route: &str, handler: H) -> (r: Self)
        requires
            self.wf(),
        ensures
            r.wf(),
            r.spec_middleware() == self.spec_middleware(),
            r.spec_state() == self.spec_state(),
            r.spec_scope().spec_handlers() == self.spec_scope().spec_handlers().push(handler),
            r.spec_scope().spec_fallback_routes() == self.spec_scope().spec_fallback_routes(),
            r.spec_scope().spec_fallback_values() == self.spec_scope().spec_fallback_values(),
            (r.spec_scope().spec_routes(), r.spec_scope().spec_tables()) == add_methods(
                self.spec_scope().spec_routes(),
                self.spec_scope().spec_tables(),
                parse_route(route@),
                seq![Method::TRACE],
                self.spec_scope().spec_handlers().len() as usize,
            ),
    {
        let m = MethodRoute::from_method(Method::TRACE);
        proof {
            MethodRoute::lemma_single_methods(m, Method::TRACE);
        }
        self.route(m, route, handler)
    }

    /// Adds a handler for every method of a route.
    pub fn any(self, route: &str, handler: H) -> (r: Self)
        requires
            self.wf(),
        ensures
            r.wf(),
            r.spec_middleware() == self.spec_middleware(),
            r.spec_state() == self.spec_state(),
            r.spec_scope().spec_handlers() == self.spec_scope().spec_handlers().push(handler),
            r.spec_scope().spec_fallback_routes() == self.spec_scope().spec_fallback_routes(),
            r.spec_scope().spec_fallback_values() == self.spec_scope().spec_fallback_values(),
            (r.spec_scope().spec_routes(), r.spec_scope().spec_tables()) == add_methods(
                self.spec_scope().spec_routes(),
                self.spec_scope().spec_tables(),
                parse_route(route@),
                all_methods(),
                self.spec_scope().spec_handlers().len() as usize,
            ),
    {
        let m = MethodRoute::any();
        proof {
            MethodRoute::lemma_all_methods(m);
        }
        self.route(m, route, handler)
    }

    /// Every route with each method it has a handler for.
    pub fn routes(&self) -> (r: Vec<(Route, Method)>)
        requires
            self.wf(),
        ensures
            r@.len() == route_method_pairs(
                self.spec_scope().spec_routes(),
                self.spec_scope().spec_tables(),
                self.spec_scope().spec_routes().len() as int,
            ).len(),
            forall|i: int|
                0 <= i < r@.len() ==> ((#[trigger] r@[i]).0@, r@[i].1) == route_method_pairs(
                    self.spec_scope().spec_routes(),
                    self.spec_scope().spec_tables(),
                    self.spec_scope().spec_routes().len() as int,
                )[i],
    {
        self.scope.routes()
    }

    /// How to answer a request for a path with a method: the handler the root scope gives, the
    /// parameters and the route, with the middleware and the state; the body is dropped for
    /// `HEAD`.
    pub fn handle(&self, path: &str, method: Method) -> (r: Dispatch<'_, H, M, S>)
        requires
            self.wf(),
        ensures
            r.handler == (match self.spec_scope().spec_find(path@, method) {
                Some(h) => Some(&self.spec_scope().spec_handlers()[h]),
                None => None,
            }),
            param_views(r.params@) == self.spec_scope().spec_find_params(path@),
            match self.spec_scope().spec_find_route(path@) {
                Some(j) => r.route matches Some(x) && x@ == self.spec_scope().spec_routes()[j],
                None => match self.spec_scope().spec_find_fallback(path@) {
                    Some(h) => r.route matches Some(x) && exists|k: int|
                        #![trigger self.spec_scope().spec_fallback_values()[k]]
                        0 <= k < self.spec_scope().spec_fallback_values().len()
                            && self.spec_scope().spec_fallback_values()[k] == h && x@
                            == self.spec_scope().spec_fallback_routes()[k] && forall|i: int|
                            0 <= i < k ==> self.spec_scope().spec_fallback_values()[i] != h,
                    None => r.route is None,
                },
            },
            r.middleware@ == self.spec_middleware(),
            r.state == match self.spec_state() {
                Some(s) => Some(&s),
                None => None,
            },
            r.discard_body == (method == Method::HEAD),
    {
        let m = self.scope.find(path, method);
        let route = self.scope.find_route(path);
        let state = match &self.app_state {
            Some(s) => Some(s),
            None => None,
        };
        Dispatch {
            handler: m.value,
            params: m.params,
            route,
            middleware: &self.middleware,
            state,
            discard_body: method == Method::HEAD,
        }
    }
}

} // verus!
