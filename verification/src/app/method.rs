//! Request methods, and sets of them that a route answers to.
use vstd::prelude::*;

verus! {

/// A request method.
#[allow(non_camel_case_types)]
#[derive(Debug, Clone, Copy, PartialEq, Eq, Structural, Hash)]
pub enum Method {
    GET,
    POST,
    PUT,
    DELETE,
    PATCH,
    OPTIONS,
    HEAD,
    TRACE,
    CONNECT,
}

/// All methods, in a fixed order.
pub open spec fn all_methods() -> Seq<Method> {
    seq![
        Method::GET,
        Method::POST,
        Method::PUT,
        Method::DELETE,
        Method::PATCH,
        Method::OPTIONS,
        Method::HEAD,
        Method::TRACE,
        Method::CONNECT,
    ]
}

impl Method {
    /// The name of the method.
    pub fn as_str(&self) -> (r: &'static str)
        ensures
            r@ == method_name(*self),
    {
        match self {
            Method::GET => "GET",
            Method::POST => "POST",
            Method::PUT => "PUT",
            Method::DELETE => "DELETE",
            Method::PATCH => "PATCH",
            Method::OPTIONS => "OPTIONS",
            Method::HEAD => "HEAD",
            Method::TRACE => "TRACE",
            Method::CONNECT => "CONNECT",
        }
    }
}

/// The name of a method.
pub open spec fn method_name(m: Method) -> Seq<char> {
    match m {
        Method::GET => "GET"@,
        Method::POST => "POST"@,
        Method::PUT => "PUT"@,
        Method::DELETE => "DELETE"@,
        Method::PATCH => "PATCH"@,
        Method::OPTIONS => "OPTIONS"@,
        Method::HEAD => "HEAD"@,
        Method::TRACE => "TRACE"@,
        Method::CONNECT => "CONNECT"@,
    }
}

/// A set of methods that a route answers to.
#[derive(Debug, Clone, Copy, PartialEq, Eq, Structural)]
pub struct MethodRoute {
    get: bool,
    post: bool,
    put: bool,
    delete: bool,
    patch: bool,
    options: bool,
    head: bool,
    trace: bool,
    connect: bool,
}

impl MethodRoute {
    /// Whether the set has a method.
    pub closed spec fn has(&self, m: Method) -> bool {
        match m {
            Method::GET => self.get,
            Method::POST => self.post,
            Method::PUT => self.put,
            Method::DELETE => self.delete,
            Method::PATCH => self.patch,
            Method::OPTIONS => self.options,
            Method::HEAD => self.head,
            Method::TRACE => self.trace,
            Method::CONNECT => self.connect,
        }
    }

    /// The methods of the set, in the order of [`all_methods`].
    pub open spec fn spec_methods(&self) -> Seq<Method> {
        all_methods().filter(|m: Method| self.has(m))
    }

    /// The set of one method.
    pub fn from_method(m: Method) -> (r: MethodRoute)
        ensures
            forall|x: Method| r.has(x) <==> x == m,
    {
        MethodRoute {
            get: m == Method::GET,
            post: m == Method::POST,
            put: m == Method::PUT,
            delete: m == Method::DELETE,
            patch: m == Method::PATCH,
            options: m == Method::OPTIONS,
            head: m == Method::HEAD,
            trace: m == Method::TRACE,
            connect: m == Method::CONNECT,
        }
    }

    /// The set of all methods.
    pub fn any() -> (r: MethodRoute)
        ensures
            forall|x: Method| r.has(x),
    {
        MethodRoute {
            get: true,
            post: true,
            put: true,
            delete: true,
            patch: true,
            options: true,
            head: true,
            trace: true,
            connect: true,
        }
    }

    /// The methods of both sets.
    pub fn union(self, other: MethodRoute) -> (r: MethodRoute)
        ensures
            forall|x: Method| r.has(x) <==> self.has(x) || other.has(x),
    {
        MethodRoute {
            get: self.get || other.get,
            post: self.post || other.post,
            put: self.put || other.put,
            delete: self.delete || other.delete,
            patch: self.patch || other.patch,
            options: self.options || other.options,
            head: self.head || other.head,
            trace: self.trace || other.trace,
            connect: self.connect || other.connect,
        }
    }

    /// Whether the set has a method.
    pub fn contains(&self, m: Method) -> (r: bool)
        ensures
            r == self.has(m),
    {
        match m {
            Method::GET => self.get,
            Method::POST => self.post,
            Method::PUT => self.put,
            Method::DELETE => self.delete,
            Method::PATCH => self.patch,
            Method::OPTIONS => self.options,
            Method::HEAD => self.head,
            Method::TRACE => self.trace,
            Method::CONNECT => self.connect,
        }
    }

    /// The methods of the set, in the order of [`all_methods`].
    pub fn into_methods(&self) -> (r: Vec<Method>)
        ensures
            r@ == self.spec_methods(),
    {
        let all = [
            Method::GET,
            Method::POST,
            Method::PUT,
            Method::DELETE,
            Method::PATCH,
            Method::OPTIONS,
            Method::HEAD,
            Method::TRACE,
            Method::CONNECT,
        ];
        assert(all@ =~= all_methods());
        let mut out: Vec<Method> = Vec::new();
        let mut i: usize = 0;
        while i < 9
            invariant
                all@ == all_methods(),
                i <= 9,
                out@ == all_methods().take(i as int).filter(|m: Method| self.has(m)),
            decreases 9 - i,
        {
            let m = all[i];
            if self.contains(m) {
                out.push(m);
            }
            proof {
                let f = |m: Method| self.has(m);
                assert(all_methods().take(i + 1).drop_last() =~= all_methods().take(i as int));
                all_methods().take(i as int).lemma_filter_push(m, f);
                assert(all_methods().take(i as int).push(m) =~= all_methods().take(i + 1));
            }
            i = i + 1;
        }
        assert(all_methods().take(9) =~= all_methods());
        out
    }
}

} // verus!

verus! {

/// The place of a method in [`all_methods`].
pub open spec fn method_pos(m: Method) -> int {
    match m {
        Method::GET => 0,
        Method::POST => 1,
        Method::PUT => 2,
        Method::DELETE => 3,
        Method::PATCH => 4,
        Method::OPTIONS => 5,
        Method::HEAD => 6,
        Method::TRACE => 7,
        Method::CONNECT => 8,
    }
}

proof fn lemma_single_filter(r: MethodRoute, m: Method, k: int)
    requires
        forall|x: Method| r.has(x) <==> x == m,
        0 <= k <= 9,
    ensures
        all_methods().take(k).filter(|x: Method| r.has(x)) == if method_pos(m) < k {
            seq![m]
        } else {
            Seq::<Method>::empty()
        },
    decreases k,
{
    let f = |x: Method| r.has(x);
    if k == 0 {
        assert(all_methods().take(0) =~= Seq::<Method>::empty());
        assert(Seq::<Method>::empty().filter(f) =~= Seq::<Method>::empty()) by {
            reveal(Seq::filter);
        }
    } else {
        lemma_single_filter(r, m, k - 1);
        assert(all_methods().take(k) =~= all_methods().take(k - 1).push(all_methods()[k - 1]));
        all_methods().take(k - 1).lemma_filter_push(all_methods()[k - 1], f);
        assert(f(all_methods()[k - 1]) <==> method_pos(m) == k - 1);
    }
}

proof fn lemma_all_filter(r: MethodRoute, k: int)
    requires
        forall|x: Method| r.has(x),
        0 <= k <= 9,
    ensures
        all_methods().take(k).filter(|x: Method| r.has(x)) == all_methods().take(k),
    decreases k,
{
    let f = |x: Method| r.has(x);
    if k == 0 {
        assert(all_methods().take(0) =~= Seq::<Method>::empty());
        assert(Seq::<Method>::empty().filter(f) =~= Seq::<Method>::empty()) by {
            reveal(Seq::filter);
        }
    } else {
        lemma_all_filter(r, k - 1);
        assert(all_methods().take(k) =~= all_methods().take(k - 1).push(all_methods()[k - 1]));
        all_methods().take(k - 1).lemma_filter_push(all_methods()[k - 1], f);
    }
}

impl MethodRoute {
    /// The set of one method has just that method.
    pub proof fn lemma_single_methods(r: MethodRoute, m: Method)
        requires
            forall|x: Method| r.has(x) <==> x == m,
        ensures
            r.spec_methods() == seq![m],
    {
        lemma_single_filter(r, m, 9);
        assert(all_methods().take(9) =~= all_methods());
    }

    /// The set of all methods has all methods, in order.
    pub proof fn lemma_all_methods(r: MethodRoute)
        requires
            forall|x: Method| r.has(x),
        ensures
            r.spec_methods() == all_methods(),
    {
        lemma_all_filter(r, 9);
        assert(all_methods().take(9) =~= all_methods());
    }
}

} // verus!
