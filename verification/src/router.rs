//! The router: matches an incoming request to a registered handler by
//! method and path. Registration order is priority — the first route whose
//! method matches and whose matcher accepts the path wins. `OPTIONS`
//! short-circuits to a preflight answer before any matching; an unsupported
//! verb is refused; an unmatched path falls through.

use vstd::prelude::*;
use crate::scan::starts_with;

verus! {

/// The four supported verbs.
#[derive(Clone, Copy, Debug, PartialEq, Eq, Structural)]
pub enum Method {
    Get,
    Post,
    Patch,
    Delete,
}

/// The verb a method string names, if supported.
pub open spec fn method_of(m: Seq<u8>) -> Option<Method> {
    if m == seq![71u8, 69, 84] {
        Some(Method::Get)
    } else if m == seq![80u8, 79, 83, 84] {
        Some(Method::Post)
    } else if m == seq![80u8, 65, 84, 67, 72] {
        Some(Method::Patch)
    } else if m == seq![68u8, 69, 76, 69, 84, 69] {
        Some(Method::Delete)
    } else {
        None
    }
}

impl Method {
    /// Maps `GET`/`POST`/`PATCH`/`DELETE` to its verb, per `method_of`.
    pub fn from_str(m: &[u8]) -> (r: Option<Method>)
        ensures
            r == method_of(m@),
    {
        let get: [u8; 3] = [71, 69, 84];
        let post: [u8; 4] = [80, 79, 83, 84];
        let patch: [u8; 5] = [80, 65, 84, 67, 72];
        let delete: [u8; 6] = [68, 69, 76, 69, 84, 69];
        proof {
            assert(get@ =~= seq![71u8, 69, 84]);
            assert(post@ =~= seq![80u8, 79, 83, 84]);
            assert(patch@ =~= seq![80u8, 65, 84, 67, 72]);
            assert(delete@ =~= seq![68u8, 69, 76, 69, 84, 69]);
        }
        if crate::store::bytes_eq(m, get.as_slice()) {
            Some(Method::Get)
        } else if crate::store::bytes_eq(m, post.as_slice()) {
            Some(Method::Post)
        } else if crate::store::bytes_eq(m, patch.as_slice()) {
            Some(Method::Patch)
        } else if crate::store::bytes_eq(m, delete.as_slice()) {
            Some(Method::Delete)
        } else {
            None
        }
    }
}

/// A route's path-acceptance rule: exact equality or prefix containment.
pub enum RouteMatch {
    Exact(Vec<u8>),
    Prefix(Vec<u8>),
}

/// Mathematical image of a `RouteMatch`.
pub enum RouteMatchView {
    Exact(Seq<u8>),
    Prefix(Seq<u8>),
}

impl View for RouteMatch {
    type V = RouteMatchView;

    open spec fn view(&self) -> RouteMatchView {
        match self {
            RouteMatch::Exact(p) => RouteMatchView::Exact(p@),
            RouteMatch::Prefix(p) => RouteMatchView::Prefix(p@),
        }
    }
}

/// Whether a matcher accepts `path`.
pub open spec fn route_matches(m: RouteMatchView, path: Seq<u8>) -> bool {
    match m {
        RouteMatchView::Exact(e) => path == e,
        RouteMatchView::Prefix(p) => starts_with(path, p),
    }
}

impl RouteMatch {
    /// Whether this matcher accepts `path`, per `route_matches`.
    pub fn matches(&self, path: &[u8]) -> (r: bool)
        ensures
            r == route_matches(self@, path@),
    {
        match self {
            RouteMatch::Exact(e) => crate::store::bytes_eq(path, e.as_slice()),
            RouteMatch::Prefix(p) => {
                if p.len() > path.len() {
                    return false;
                }
                let head = vstd::slice::slice_subrange(path, 0, p.len());
                proof {
                    assert(head@ =~= path@.take(p@.len() as int));
                }
                crate::store::bytes_eq(head, p.as_slice())
            },
        }
    }
}

/// One registered route: a verb, a matcher, and the tag of its handler.
pub struct Route<H> {
    pub method: Method,
    pub matcher: RouteMatch,
    pub handler: H,
}

/// Mathematical image of a `Route`.
pub struct RouteView<H> {
    pub method: Method,
    pub matcher: RouteMatchView,
    pub handler: H,
}

impl<H> View for Route<H> {
    type V = RouteView<H>;

    open spec fn view(&self) -> RouteView<H> {
        RouteView { method: self.method, matcher: self.matcher@, handler: self.handler }
    }
}

/// An ordered table of routes; handlers are opaque tags the caller maps to
/// its own actions.
pub struct Router<H> {
    pub routes: Vec<Route<H>>,
}

impl<H> View for Router<H> {
    type V = Seq<RouteView<H>>;

    open spec fn view(&self) -> Seq<RouteView<H>> {
        Seq::new(self.routes@.len(), |i: int| self.routes@[i]@)
    }
}

/// What dispatch decides: answer the preflight, refuse the verb, fall
/// through, or hand the request to the first matching route's handler.
pub enum Dispatch<H> {
    Preflight,
    MethodNotAllowed,
    NotFound,
    Handler(H),
}

/// The first route in order whose verb and matcher accept the request.
pub open spec fn first_route<H>(routes: Seq<RouteView<H>>, m: Method, path: Seq<u8>) -> Dispatch<
    H,
>
    decreases routes.len(),
{
    if routes.len() == 0 {
        Dispatch::NotFound
    } else if routes[0].method == m && route_matches(routes[0].matcher, path) {
        Dispatch::Handler(routes[0].handler)
    } else {
        first_route(routes.skip(1), m, path)
    }
}

/// The routing decision for a request: `OPTIONS` answers the preflight
/// before any matching; an unsupported verb is refused; otherwise the first
/// matching route wins, and no match falls through.
pub open spec fn dispatch_spec<H>(
    routes: Seq<RouteView<H>>,
    method: Seq<u8>,
    path: Seq<u8>,
) -> Dispatch<H> {
    if method == seq![79u8, 80, 84, 73, 79, 78, 83] {
        Dispatch::Preflight
    } else {
        match method_of(method) {
            None => Dispatch::MethodNotAllowed,
            Some(m) => first_route(routes, m, path),
        }
    }
}

impl<H: Copy> Router<H> {
    /// An empty router.
    pub fn new() -> (r: Router<H>)
        ensures
            r@ == Seq::<RouteView<H>>::empty(),
    {
        let r = Router { routes: Vec::new() };
        proof {
            assert(r@ =~= Seq::<RouteView<H>>::empty());
        }
        r
    }

    /// Registers an exact-match route for `path`, after every existing one.
    pub fn add_route(&mut self, method: Method, path: Vec<u8>, handler: H)
        ensures
            final(self)@ == old(self)@.push(
                RouteView { method, matcher: RouteMatchView::Exact(path@), handler },
            ),
    {
        self.routes.push(Route { method, matcher: RouteMatch::Exact(path), handler });
        proof {
            assert(self@ =~= old(self)@.push(
                RouteView { method, matcher: RouteMatchView::Exact(path@), handler },
            ));
        }
    }

    /// Registers a prefix route for paths starting with `prefix`.
    pub fn add_prefix_route(&mut self, method: Method, prefix: Vec<u8>, handler: H)
        ensures
            final(self)@ == old(self)@.push(
                RouteView { method, matcher: RouteMatchView::Prefix(prefix@), handler },
            ),
    {
        self.routes.push(Route { method, matcher: RouteMatch::Prefix(prefix), handler });
        proof {
            assert(self@ =~= old(self)@.push(
                RouteView { method, matcher: RouteMatchView::Prefix(prefix@), handler },
            ));
        }
    }

    /// Decides where a request goes, per `dispatch_spec`.
    pub fn handle(&self, method: &[u8], path: &[u8]) -> (r: Dispatch<H>)
        ensures
            r == dispatch_spec(self@, method@, path@),
    {
        let options: [u8; 7] = [79, 80, 84, 73, 79, 78, 83];
        proof {
            assert(options@ =~= seq![79u8, 80, 84, 73, 79, 78, 83]);
        }
        if crate::store::bytes_eq(method, options.as_slice()) {
            return Dispatch::Preflight;
        }
        let m = match Method::from_str(method) {
            Some(m) => m,
            None => {
                return Dispatch::MethodNotAllowed;
            },
        };
        let mut i: usize = 0;
        proof {
            assert(self@.skip(0) =~= self@);
        }
        while i < self.routes.len()
            invariant
                i <= self.routes.len(),
                self@.len() == self.routes.len(),
                method_of(method@) == Some(m),
                method@ != seq![79u8, 80, 84, 73, 79, 78, 83],
                first_route(self@, m, path@) == first_route(self@.skip(i as int), m, path@),
            decreases self.routes.len() - i,
        {
            proof {
                assert(self@.skip(i as int)[0] == self@[i as int]);
                assert(self@.skip(i as int).skip(1) =~= self@.skip(i + 1));
            }
            let route = &self.routes[i];
            if route.method == m && route.matcher.matches(path) {
                return Dispatch::Handler(route.handler);
            }
            i += 1;
        }
        proof {
            assert(self@.skip(i as int).len() == 0);
        }
        Dispatch::NotFound
    }
}

} // verus!
