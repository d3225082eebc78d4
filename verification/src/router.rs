//! The router as this core sees it: a table of routes and a stack of
//! layers. It starts empty and is only ever extended: routes are merged
//! behind those it holds, and a layer wraps all layers it holds. What a
//! route serves and what a layer does belongs to the serving runtime.
use vstd::prelude::*;

verus! {

/// What a list of strings holds, as plain values.
pub open spec fn strings_view(items: Seq<String>) -> Seq<Seq<char>> {
    items.map_values(|s: String| s@)
}

/// The routes that an application declares, in order.
#[derive(Debug, Clone, PartialEq, Eq)]
pub struct AppRoutes {
    routes: Vec<String>,
}

impl View for AppRoutes {
    type V = Seq<Seq<char>>;

    closed spec fn view(&self) -> Seq<Seq<char>> {
        strings_view(self.routes@)
    }
}

impl AppRoutes {
    /// A table without routes.
    pub fn new() -> (r: AppRoutes)
        ensures
            r@ == Seq::<Seq<char>>::empty(),
    {
        let routes: Vec<String> = Vec::new();
        assert(strings_view(routes@) =~= Seq::<Seq<char>>::empty());
        AppRoutes { routes }
    }

    /// The table with `uri` added behind its routes.
    pub fn add(self, uri: &str) -> (r: AppRoutes)
        ensures
            r@ == self@.push(uri@),
    {
        let mut routes = self.routes;
        routes.push(uri.to_owned());
        assert(strings_view(routes@) =~= self@.push(uri@));
        AppRoutes { routes }
    }

    /// The declared routes in order.
    pub fn routes(&self) -> (r: &Vec<String>)
        ensures
            strings_view(r@) == self@,
    {
        &self.routes
    }
}

/// What a router holds: its routes in the order in which they were
/// attached, and its layers from the innermost to the outermost.
pub struct RouterView {
    pub routes: Seq<Seq<char>>,
    pub layers: Seq<Seq<char>>,
}

/// The router with the routes of `table` merged behind its own.
pub open spec fn merged(router: RouterView, table: Seq<Seq<char>>) -> RouterView {
    RouterView { routes: router.routes + table, layers: router.layers }
}

/// The router wrapped in one more layer, which becomes its outermost.
pub open spec fn wrapped(router: RouterView, layer: Seq<char>) -> RouterView {
    RouterView { routes: router.routes, layers: router.layers.push(layer) }
}

/// The router wrapped in the given layers one after the other: the first
/// of them wraps the router, the last wraps all the others.
pub open spec fn wrapped_all(router: RouterView, layers: Seq<Seq<char>>) -> RouterView
    decreases layers.len(),
{
    if layers.len() == 0 {
        router
    } else {
        wrapped(wrapped_all(router, layers.drop_last()), layers.last())
    }
}

/// The router that start-up composes: the declared routes merged onto the
/// base router, wrapped in the layers of the initializers in the order of
/// the registry, and last in the layers of the application itself.
pub open spec fn composed(
    base: RouterView,
    table: Seq<Seq<char>>,
    layers: Seq<Seq<char>>,
    last: Seq<Seq<char>>,
) -> RouterView {
    wrapped_all(wrapped_all(merged(base, table), layers), last)
}

/// Wrapping leaves the routes alone and stacks the layers in the order
/// given on those already there.
pub proof fn lemma_wrapped_all(router: RouterView, layers: Seq<Seq<char>>)
    ensures
        wrapped_all(router, layers).routes == router.routes,
        wrapped_all(router, layers).layers == router.layers + layers,
    decreases layers.len(),
{
    if layers.len() == 0 {
        assert(router.layers + layers =~= router.layers);
    } else {
        lemma_wrapped_all(router, layers.drop_last());
        assert(router.layers + layers =~= (router.layers + layers.drop_last()).push(layers.last()));
    }
}

/// Composition keeps every part in its place: the routes of the base
/// router come first and the declared routes behind them, under whatever
/// layers; the layers of the base router are innermost, those of the
/// initializers follow in the order of the registry, and those of the
/// application are outermost.
pub proof fn lemma_composed(
    base: RouterView,
    table: Seq<Seq<char>>,
    layers: Seq<Seq<char>>,
    last: Seq<Seq<char>>,
)
    ensures
        composed(base, table, layers, last).routes == base.routes + table,
        composed(base, table, layers, last).layers == base.layers + layers + last,
{
    lemma_wrapped_all(merged(base, table), layers);
    lemma_wrapped_all(wrapped_all(merged(base, table), layers), last);
}

/// The order of the initializers shows in the router: the same layers in
/// another order give another router.
pub proof fn lemma_layer_order_matters(
    router: RouterView,
    first: Seq<Seq<char>>,
    second: Seq<Seq<char>>,
)
    requires
        first.to_multiset() == second.to_multiset(),
        first != second,
    ensures
        wrapped_all(router, first) != wrapped_all(router, second),
        wrapped_all(router, first).layers != wrapped_all(router, second).layers,
{
    lemma_wrapped_all(router, first);
    lemma_wrapped_all(router, second);
    let n = router.layers.len() as int;
    if router.layers + first == router.layers + second {
        assert((router.layers + first).subrange(n, n + first.len()) =~= first);
        assert((router.layers + second).subrange(n, n + second.len()) =~= second);
        assert(first.len() == second.len());
    }
}

/// A router under composition.
#[derive(Debug, Clone, PartialEq, Eq)]
pub struct Router {
    routes: Vec<String>,
    layers: Vec<String>,
}

impl View for Router {
    type V = RouterView;

    closed spec fn view(&self) -> RouterView {
        RouterView { routes: strings_view(self.routes@), layers: strings_view(self.layers@) }
    }
}

impl Router {
    /// The empty router: no route, no layer.
    pub fn new() -> (r: Router)
        ensures
            r@.routes == Seq::<Seq<char>>::empty(),
            r@.layers == Seq::<Seq<char>>::empty(),
    {
        let routes: Vec<String> = Vec::new();
        let layers: Vec<String> = Vec::new();
        assert(strings_view(routes@) =~= Seq::<Seq<char>>::empty());
        Router { routes, layers }
    }

    /// The router with one route attached behind those it holds.
    pub fn route(self, uri: &str) -> (r: Router)
        ensures
            r@ == merged(self@, seq![uri@]),
    {
        let mut routes = self.routes;
        routes.push(uri.to_owned());
        assert(strings_view(routes@) =~= self@.routes + seq![uri@]);
        Router { routes, layers: self.layers }
    }

    /// The router with the routes of `table` merged behind those it holds.
    pub fn merge(self, table: AppRoutes) -> (r: Router)
        ensures
            r@ == merged(self@, table@),
    {
        let mut routes = self.routes;
        let mut added = table.routes;
        routes.append(&mut added);
        assert(strings_view(routes@) =~= self@.routes + table@);
        Router { routes, layers: self.layers }
    }

    /// The router wrapped in one more layer, which becomes its outermost.
    pub fn layer(self, name: &str) -> (r: Router)
        ensures
            r@ == wrapped(self@, name@),
    {
        let mut layers = self.layers;
        layers.push(name.to_owned());
        assert(strings_view(layers@) =~= self@.layers.push(name@));
        Router { routes: self.routes, layers }
    }

    /// The routes in the order in which they were attached.
    pub fn routes(&self) -> (r: &Vec<String>)
        ensures
            strings_view(r@) == self@.routes,
    {
        &self.routes
    }

    /// The layers from the innermost to the outermost.
    pub fn layers(&self) -> (r: &Vec<String>)
        ensures
            strings_view(r@) == self@.layers,
    {
        &self.layers
    }
}

} // verus!
