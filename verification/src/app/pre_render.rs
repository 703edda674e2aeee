//! Pre-rendering: which routes of an application are fetched and written out as files.
use vstd::prelude::*;
use crate::app::method::Method;
use crate::app::routing::{Route, SegView, render_route};
use crate::text::{str_to_chars, string_views, subrange_to_string, copy_string, chars_to_string, decimal_chars, push_decimal_chars, push_str};

verus! {

/// A set of texts kept as a list without repetitions, in the order they were first inserted.
pub open spec fn set_insert(s: Seq<Seq<char>>, x: Seq<char>) -> Seq<Seq<char>> {
    if s.contains(x) {
        s
    } else {
        s.push(x)
    }
}

/// Whether no text occurs twice.
pub open spec fn distinct(s: Seq<Seq<char>>) -> bool {
    forall|i: int, j: int| 0 <= i < j < s.len() ==> s[i] != s[j]
}

fn contains_text(v: &Vec<String>, x: &str) -> (r: bool)
    ensures
        r == string_views(v@).contains(x@),
{
    let ghost vs = string_views(v@);
    let mut i: usize = 0;
    while i < v.len()
        invariant
            vs == string_views(v@),
            i <= v@.len(),
            forall|j: int| 0 <= j < i ==> vs[j] != x@,
        decreases v@.len() - i,
    {
        assert(vs[i as int] == v@[i as int]@);
        if crate::text::str_eq(v[i].as_str(), x) {
            return true;
        }
        i = i + 1;
    }
    false
}

fn insert_text(v: &mut Vec<String>, x: String)
    requires
        distinct(string_views(old(v)@)),
    ensures
        string_views(final(v)@) == set_insert(string_views(old(v)@), x@),
        distinct(string_views(final(v)@)),
{
    if !contains_text(v, x.as_str()) {
        let ghost before = v@;
        let ghost xv = x@;
        v.push(x);
        proof {
            crate::text::lemma_string_views_push(before, x);
            let s = string_views(v@);
            assert forall|i: int, j: int| 0 <= i < j < s.len() implies s[i] != s[j] by {
                if j == s.len() - 1 {
                    assert(s[j] == xv);
                    assert(s[i] == string_views(before)[i]);
                }
            }
        }
    }
}

/// Configuration of pre-rendering.
#[derive(Debug)]
pub struct PreRenderConfig {
    port: Option<u16>,
    included_routes: Option<Vec<String>>,
    exclude: Option<Vec<String>>,
}

impl PreRenderConfig {
    /// The port of the server that is started to fetch the routes.
    pub closed spec fn spec_port(&self) -> Option<u16> {
        self.port
    }

    /// The routes to pre-render, if given.
    pub closed spec fn spec_include(&self) -> Option<Seq<Seq<char>>> {
        match &self.included_routes {
            Some(v) => Some(string_views(v@)),
            None => None,
        }
    }

    /// The routes not to pre-render, if given.
    pub closed spec fn spec_exclude(&self) -> Option<Seq<Seq<char>>> {
        match &self.exclude {
            Some(v) => Some(string_views(v@)),
            None => None,
        }
    }

    /// The route lists hold no route twice.
    pub closed spec fn wf(&self) -> bool {
        &&& self.spec_include() matches Some(s) ==> distinct(s)
        &&& self.spec_exclude() matches Some(s) ==> distinct(s)
    }

    /// A configuration without port or route lists.
    pub fn new() -> (r: Self)
        ensures
            r.wf(),
            r.spec_port() is None,
            r.spec_include() is None,
            r.spec_exclude() is None,
    {
        PreRenderConfig { port: None, included_routes: None, exclude: None }
    }

    /// Sets the port.
    pub fn port(&mut self, port: u16)
        ensures
            final(self).spec_port() == Some(port),
            final(self).spec_include() == old(self).spec_include(),
            final(self).spec_exclude() == old(self).spec_exclude(),
            old(self).wf() ==> final(self).wf(),
    {
        self.port = Some(port);
    }

    /// Adds a route to pre-render.
    pub fn include_route(&mut self, route: String)
        requires
            old(self).wf(),
        ensures
            final(self).wf(),
            final(self).spec_port() == old(self).spec_port(),
            final(self).spec_exclude() == old(self).spec_exclude(),
            final(self).spec_include() == Some(set_insert(
                match old(self).spec_include() {
                    Some(s) => s,
                    None => Seq::empty(),
                },
                route@,
            )),
    {
        let mut list = match self.included_routes.take() {
            Some(v) => v,
            None => {
                let v: Vec<String> = Vec::new();
                assert(string_views(v@) =~= Seq::<Seq<char>>::empty());
                v
            },
        };
        insert_text(&mut list, route);
        self.included_routes = Some(list);
    }

    /// Meant to add a route not to pre-render; like [`Self::include_route`], it adds the route to the
    /// routes to pre-render.
    pub fn exclude(&mut self, route: String)
        requires
            old(self).wf(),
        ensures
            final(self).wf(),
            final(self).spec_port() == old(self).spec_port(),
            final(self).spec_exclude() == old(self).spec_exclude(),
            final(self).spec_include() == Some(set_insert(
                match old(self).spec_include() {
                    Some(s) => s,
                    None => Seq::empty(),
                },
                route@,
            )),
    {
        self.include_route(route);
    }

    /// The port, if one was set.
    pub fn get_port(&self) -> (r: Option<u16>)
        ensures
            r == self.spec_port(),
    {
        self.port
    }
}

/// Whether the current request is one of pre-rendering.
#[derive(Debug, Clone, Copy, PartialEq, Eq, Structural)]
pub struct PreRendering(pub bool);

impl PreRendering {
    /// Whether the current request is one of pre-rendering.
    pub fn is_pre_rendering(&self) -> (r: bool)
        ensures
            r == self.0,
    {
        self.0
    }

    /// A request is one of pre-rendering when the application was given a pre-rendering id and
    /// the request's `Pre-Render` header holds exactly that id.
    pub fn from_parts(pre_render_id: Option<&str>, header: Option<&str>) -> (r: PreRendering)
        ensures
            r.0 == (pre_render_id is Some && header is Some && header.unwrap()@ == pre_render_id.unwrap()@),
    {
        match pre_render_id {
            Some(id) => match header {
                Some(h) => PreRendering(crate::text::str_eq(h, id)),
                None => PreRendering(false),
            },
            None => PreRendering(false),
        }
    }
}

/// The texts of the `GET` routes whose segments are all literal, among the first `k` pairs,
/// each once.
pub open spec fn static_get_routes(pairs: Seq<(Seq<SegView>, Method)>, k: int) -> Seq<Seq<char>>
    decreases k,
{
    if k <= 0 || k > pairs.len() {
        Seq::empty()
    } else {
        let prev = static_get_routes(pairs, k - 1);
        let (r, m) = pairs[k - 1];
        if m == Method::GET && forall|i: int| 0 <= i < r.len() ==> r[i] is Static {
            set_insert(prev, render_route(r))
        } else {
            prev
        }
    }
}

/// The texts of `kept` that are not in `exclude`, in order.
pub open spec fn set_difference(kept: Seq<Seq<char>>, exclude: Seq<Seq<char>>) -> Seq<Seq<char>> {
    kept.filter(|x: Seq<char>| !exclude.contains(x))
}

/// The routes to pre-render: the routes given to pre-render, else the `GET` routes of the
/// application whose segments are all literal; less the routes given to exclude.
pub open spec fn routes_to_pre_render(
    pairs: Seq<(Seq<SegView>, Method)>,
    chosen: Option<Seq<Seq<char>>>,
    exclude: Option<Seq<Seq<char>>>,
) -> Seq<Seq<char>> {
    let included = match chosen {
        Some(s) => s,
        None => static_get_routes(pairs, pairs.len() as int),
    };
    let excluded = match exclude {
        Some(s) => s,
        None => Seq::empty(),
    };
    set_difference(included, excluded)
}

/// The routes to pre-render, from the routes of an application and a configuration.
pub fn pre_render_routes(routes: &Vec<(Route, Method)>, config: &PreRenderConfig) -> (r: Vec<String>)
    requires
        config.wf(),
    ensures
        string_views(r@) == routes_to_pre_render(
            Seq::new(routes@.len(), |i: int| (routes@[i].0@, routes@[i].1)),
            config.spec_include(),
            config.spec_exclude(),
        ),
{
    let ghost pairs = Seq::new(routes@.len(), |i: int| (routes@[i].0@, routes@[i].1));
    let included: Vec<String> = match &config.included_routes {
        Some(v) => {
            let mut out: Vec<String> = Vec::new();
            let mut i: usize = 0;
            while i < v.len()
                invariant
                    i <= v@.len(),
                    string_views(out@) == string_views(v@).take(i as int),
                decreases v@.len() - i,
            {
                let ghost before = out@;
                let s = copy_string(v[i].as_str());
                out.push(s);
                proof {
                    crate::text::lemma_string_views_push(before, s);
                    crate::text::lemma_string_views_take(v@, i as int);
                    assert(string_views(v@).take(i + 1) =~= string_views(v@.take(i + 1)));
                    assert(string_views(v@).take(i as int) =~= string_views(v@.take(i as int)));
                }
                i = i + 1;
            }
            assert(string_views(v@).take(v@.len() as int) =~= string_views(v@));
            out
        },
        None => {
            let mut out: Vec<String> = Vec::new();
            assert(string_views(out@) =~= Seq::<Seq<char>>::empty());
            let mut k: usize = 0;
            while k < routes.len()
                invariant
                    pairs == Seq::new(routes@.len(), |i: int| (routes@[i].0@, routes@[i].1)),
                    k <= routes@.len(),
                    string_views(out@) == static_get_routes(pairs, k as int),
                    distinct(string_views(out@)),
                decreases routes@.len() - k,
            {
                let (r, m) = (&routes[k].0, routes[k].1);
                if m == Method::GET && r.is_static() {
                    insert_text(&mut out, r.to_string());
                }
                k = k + 1;
            }
            out
        },
    };
    let mut result: Vec<String> = Vec::new();
    let ghost inc = string_views(included@);
    let ghost exc = match config.spec_exclude() {
        Some(s) => s,
        None => Seq::<Seq<char>>::empty(),
    };
    let ghost f = |x: Seq<char>| !exc.contains(x);
    assert(inc.take(0).filter(f) =~= Seq::<Seq<char>>::empty()) by {
        reveal(Seq::filter);
    }
    assert(string_views(result@) =~= Seq::<Seq<char>>::empty());
    let mut i: usize = 0;
    while i < included.len()
        invariant
            inc == string_views(included@),
            exc == match config.spec_exclude() {
                Some(s) => s,
                None => Seq::<Seq<char>>::empty(),
            },
            f == |x: Seq<char>| !exc.contains(x),
            i <= included@.len(),
            string_views(result@) == inc.take(i as int).filter(f),
        decreases included@.len() - i,
    {
        let ghost before = result@;
        proof {
            assert(inc.take(i + 1) =~= inc.take(i as int).push(inc[i as int]));
            inc.take(i as int).lemma_filter_push(inc[i as int], f);
        }
        assert(inc[i as int] == included@[i as int]@);
        let excluded = match &config.exclude {
            Some(v) => contains_text(v, included[i].as_str()),
            None => false,
        };
        if !excluded {
            let s = copy_string(included[i].as_str());
            result.push(s);
            proof {
                crate::text::lemma_string_views_push(before, s);
            }
        }
        i = i + 1;
    }
    assert(inc.take(included@.len() as int) =~= inc);
    result
}

/// The file a route is written to, relative to the destination directory: `/` is written to
/// `index`, any other route to its text without the leading `/`.
pub open spec fn pre_render_file(route: Seq<char>) -> Seq<char> {
    let r = if route == seq!['/'] {
        seq!['/', 'i', 'n', 'd', 'e', 'x']
    } else {
        route
    };
    if r.len() > 0 && r[0] == '/' {
        r.drop_first()
    } else {
        r
    }
}

/// The file a route is written to, relative to the destination directory.
pub fn pre_render_file_path(route: &str) -> (r: String)
    ensures
        r@ == pre_render_file(route@),
{
    let cs = str_to_chars(route);
    if cs.len() == 1 && cs[0] == '/' {
        assert(route@ =~= seq!['/']);
        let index = ['i', 'n', 'd', 'e', 'x'];
        let s = chars_to_string(&index);
        assert(s@ =~= seq!['/', 'i', 'n', 'd', 'e', 'x'].drop_first());
        return s;
    }
    proof {
        if route@ == seq!['/'] {
            assert(cs@.len() == 1 && cs@[0] == '/');
        }
    }
    if cs.len() > 0 && cs[0] == '/' {
        let s = subrange_to_string(cs.as_slice(), 1, cs.len());
        assert(cs@.subrange(1, cs@.len() as int) =~= cs@.drop_first());
        s
    } else {
        chars_to_string(cs.as_slice())
    }
}

/// The address a route is fetched from while pre-rendering: `http://127.0.0.1:{port}{route}`.
pub fn pre_render_url(port: u16, route: &str) -> (r: String)
    ensures
        r@ == "http://127.0.0.1:"@ + decimal_chars(port as nat) + route@,
{
    let mut out = String::new();
    push_str(&mut out, "http://127.0.0.1:");
    push_decimal_chars(&mut out, port as u128);
    push_str(&mut out, route);
    out
}

/// The error of a route whose page answered with a status that is not a success:
/// ``Failed to pre-render `{url}`, returned {status} status code``.
pub fn pre_render_status_error(url: &str, status: u16) -> (r: String)
    ensures
        r@ == "Failed to pre-render `"@ + url@ + "`, returned "@ + decimal_chars(status as nat)
            + " status code"@,
{
    let mut out = String::new();
    push_str(&mut out, "Failed to pre-render `");
    push_str(&mut out, url);
    push_str(&mut out, "`, returned ");
    push_decimal_chars(&mut out, status as u128);
    push_str(&mut out, " status code");
    out
}

} // verus!
