//! What an application supplies and how its life is run: the hooks of the
//! application, its initializers, and the start-up and teardown that call
//! them in the order that the pipeline decides.
use crate::errors::Error;
use crate::pipeline::{rank, starting, Event, Pipeline, Progress, Stage};
use crate::router::{merged, wrapped, wrapped_all, AppRoutes, Router};
use vstd::pervasive::arbitrary;
use vstd::prelude::*;

verus! {

/// The context of an application: the handle to what the whole process
/// shares. It is made once before start-up, start-up may replace it once,
/// and every later stage sees the one that is current.
#[derive(Debug, Clone)]
pub struct AppContext {}

/// An initializer: a named extension that may prepare before the
/// application runs and may wrap the router. Its place in the registry is
/// what tells it from the others; names may be shared.
pub trait Initializer: Sync + Send {
    /// The name by which diagnostics call this initializer. It is not
    /// empty.
    fn name(&self) -> (name: String)
        ensures
            name@.len() > 0,
    ;

    /// Runs once before the router is built. Does nothing unless an
    /// initializer says otherwise.
    fn before_run(&self, _app_context: &AppContext) -> (r: Result<(), Error>)
        default_ensures
            r is Ok,
    {
        Ok(())
    }

    /// Wraps the router. Hands the router on as it is unless an
    /// initializer says otherwise.
    fn after_routes(&self, router: Router, _ctx: &AppContext) -> (r: Result<Router, Error>)
        default_ensures
            r == Ok::<Router, Error>(router),
    {
        Ok(router)
    }
}

/// The hooks of an application. Only its name and its routes must be
/// given; every other hook does nothing, or hands on what it was given,
/// unless the application says otherwise.
pub trait Hooks: Send {
    /// The version of the application: `dev` unless it says otherwise.
    fn app_version() -> (version: String)
        default_ensures
            version@ == "dev"@,
    {
        "dev".to_string()
    }

    /// The name of the application.
    fn app_name() -> &'static str;

    /// Builds the base router, onto which the declared routes are merged
    /// and around which all layers go. A fallback belongs here: attached
    /// later it would stand behind the routes it is to back.
    fn before_routes(_ctx: &AppContext) -> (r: Result<Router, Error>)
        default_ensures
            r matches Ok(router) && router@.routes.len() == 0 && router@.layers.len() == 0,
    {
        Ok(Router::new())
    }

    /// Wraps the router a last time, around the layers of all
    /// initializers.
    fn after_routes(router: Router, _ctx: &AppContext) -> (r: Result<Router, Error>)
        default_ensures
            r == Ok::<Router, Error>(router),
    {
        Ok(router)
    }

    /// Lists the initializers in the order in which they are to run.
    fn initializers(_ctx: &AppContext) -> (r: Result<Vec<Box<dyn Initializer>>, Error>)
        default_ensures
            r matches Ok(list) && list@.len() == 0,
    {
        Ok(Vec::new())
    }

    /// Runs once before the initializers.
    fn before_run(_app_context: &AppContext) -> (r: Result<(), Error>)
        default_ensures
            r is Ok,
    {
        Ok(())
    }

    /// The routes that the application declares.
    fn routes(_ctx: &AppContext) -> AppRoutes;

    /// May replace the context before anything else runs.
    fn after_context(ctx: AppContext) -> (r: Result<AppContext, Error>)
        default_ensures
            r == Ok::<AppContext, Error>(ctx),
    {
        Ok(ctx)
    }

    /// Cleans up at teardown. It cannot report a failure.
    fn on_shutdown(_ctx: &AppContext) {
    }
}

/// `r` is an outcome of the initializer's `before_run` in this context.
pub open spec fn prepares<I: Initializer + ?Sized>(
    initializer: &I,
    ctx: &AppContext,
    r: Result<(), Error>,
) -> bool {
    call_ensures(I::before_run, (initializer, ctx), r)
}

/// `r` is an outcome of the initializer's `after_routes` on this router in
/// this context.
pub open spec fn wraps<I: Initializer + ?Sized>(
    initializer: &I,
    router: Router,
    ctx: &AppContext,
    r: Result<Router, Error>,
) -> bool {
    call_ensures(I::after_routes, (initializer, router, ctx), r)
}

/// The first `count` initializers of the registry have prepared, each
/// with success.
pub open spec fn prepared(list: Seq<Box<dyn Initializer>>, ctx: AppContext, count: int) -> bool {
    forall|i: int|
        0 <= i < count ==> #[trigger] prepares::<dyn Initializer>(&*list[i], &ctx, Ok(()))
}

/// The first `count` initializers of the registry have made `to` of
/// `from`: the first wrapped `from`, each later one wrapped what the one
/// before it handed on, and the last of them handed on `to`.
pub open spec fn threaded(
    list: Seq<Box<dyn Initializer>>,
    ctx: AppContext,
    from: Router,
    to: Router,
    count: int,
) -> bool
    decreases count,
{
    if count <= 0 {
        to == from
    } else {
        exists|mid: Router|
            threaded(list, ctx, from, mid, count - 1) && #[trigger] wraps::<dyn Initializer>(
                &*list[count - 1],
                mid,
                &ctx,
                Ok(to),
            )
    }
}

/// Where every initializer that wraps the router does so in one layer of
/// its own, the router that they hand on is the router they were given,
/// wrapped in their layers in the order of the registry: the layer of the
/// first initializer is innermost, that of the last outermost.
pub proof fn lemma_threaded_layers(
    list: Seq<Box<dyn Initializer>>,
    ctx: AppContext,
    from: Router,
    to: Router,
    layers: Seq<Seq<char>>,
    count: int,
)
    requires
        0 <= count <= list.len(),
        layers.len() == list.len(),
        forall|i: int, inner: Router, outer: Router|
            0 <= i < list.len() && #[trigger] wraps::<dyn Initializer>(
                &*list[i],
                inner,
                &ctx,
                Ok(outer),
            ) ==> outer@ == wrapped(inner@, layers[i]),
        threaded(list, ctx, from, to, count),
    ensures
        to@ == wrapped_all(from@, layers.take(count)),
    decreases count,
{
    if count > 0 {
        let mid = choose|mid: Router|
            threaded(list, ctx, from, mid, count - 1) && #[trigger] wraps::<dyn Initializer>(
                &*list[count - 1],
                mid,
                &ctx,
                Ok(to),
            );
        lemma_threaded_layers(list, ctx, from, mid, layers, count - 1);
        assert(layers.take(count).drop_last() =~= layers.take(count - 1));
    }
}

/// What the stages of one start-up handed on to the stages behind them.
pub struct Handed {
    /// The context that `after_context` gave.
    pub context: AppContext,
    /// The registry that `initializers` gave.
    pub initializers: Vec<Box<dyn Initializer>>,
    /// The base router that `before_routes` gave.
    pub base: Router,
    /// The routes that `routes` gave.
    pub table: AppRoutes,
    /// The base router with the declared routes merged onto it.
    pub merged: Router,
    /// The router as the initializers that have wrapped it left it.
    pub layered: Router,
}

/// A start-up from `given` has come to `stage`: every stage before it in
/// the order has run with success, each on what the stages before it
/// handed on.
pub open spec fn reached<H: Hooks>(given: AppContext, h: Handed, stage: Stage) -> bool {
    let n = h.initializers.len();
    let place = rank(stage, n);
    &&& place > 0 ==> call_ensures(H::after_context, (given,), Ok(h.context))
    &&& place > 1 ==> call_ensures(H::before_run, (&h.context,), Ok(()))
    &&& place > 2 ==> call_ensures(H::initializers, (&h.context,), Ok(h.initializers))
    &&& place > 2 ==> prepared(
        h.initializers@,
        h.context,
        if place - 3 < n {
            place - 3
        } else {
            n as int
        },
    )
    &&& place > 3 + n ==> call_ensures(H::before_routes, (&h.context,), Ok(h.base))
    &&& place > 4 + n ==> call_ensures(H::routes, (&h.context,), h.table)
    &&& place > 4 + n ==> h.merged@ == merged(h.base@, h.table@)
    &&& place > 4 + n ==> threaded(
        h.initializers@,
        h.context,
        h.merged,
        h.layered,
        if place - 5 - n < n {
            place - 5 - n
        } else {
            n as int
        },
    )
}

/// A start-up from `given` has come to `stage`, and that stage has
/// failed with `error`.
pub open spec fn failed_at<H: Hooks>(given: AppContext, h: Handed, stage: Stage, error: Error)
    -> bool {
    &&& reached::<H>(given, h, stage)
    &&& match stage {
        Stage::AfterContext => call_ensures(H::after_context, (given,), Err(error)),
        Stage::BeforeRun => call_ensures(H::before_run, (&h.context,), Err(error)),
        Stage::Initializers => call_ensures(H::initializers, (&h.context,), Err(error)),
        Stage::InitializerBeforeRun(i) => i < h.initializers.len() && prepares::<dyn Initializer>(
            &*h.initializers@[i as int],
            &h.context,
            Err(error),
        ),
        Stage::BeforeRoutes => call_ensures(H::before_routes, (&h.context,), Err(error)),
        Stage::InitializerAfterRoutes(i) => i < h.initializers.len() && wraps::<dyn Initializer>(
            &*h.initializers@[i as int],
            h.layered,
            &h.context,
            Err(error),
        ),
        Stage::AfterRoutes => call_ensures(
            H::after_routes,
            (h.layered, &h.context),
            Err(error),
        ),
        _ => false,
    }
}

/// An application that has started: its context, its composed router and
/// its pipeline, which stands at `Serving`.
#[derive(Debug)]
pub struct Started {
    pub context: AppContext,
    pub router: Router,
    pub pipeline: Pipeline,
}

/// A start-up from `given` has run every stage with success and has given
/// `started`: the context is the one that `after_context` gave, and the
/// router is what `after_routes` made of the router that the initializers
/// had wrapped in the order of the registry.
pub open spec fn succeeded<H: Hooks>(given: AppContext, h: Handed, started: Started) -> bool {
    &&& reached::<H>(given, h, Stage::AfterRoutes)
    &&& call_ensures(H::after_routes, (h.layered, &h.context), Ok(started.router))
    &&& started.context == h.context
    &&& started.pipeline@ == Progress { stage: Stage::Serving, registry: h.initializers.len() }
}

/// Lets one initializer prepare.
fn prepare<I: Initializer + ?Sized>(initializer: &I, ctx: &AppContext) -> (r: Result<(), Error>)
    ensures
        prepares(initializer, ctx, r),
{
    initializer.before_run(ctx)
}

/// Lets one initializer wrap the router.
fn wrap<I: Initializer + ?Sized>(initializer: &I, router: Router, ctx: &AppContext) -> (r: Result<
    Router,
    Error,
>)
    ensures
        wraps(initializer, router, ctx, r),
{
    initializer.after_routes(router, ctx)
}

/// Reports to the pipeline that the current stage failed, and hands the
/// failure on as it is.
fn give_up<T>(pipeline: &mut Pipeline, error: Error) -> (r: Result<T, Error>)
    requires
        starting(old(pipeline)@.stage),
    ensures
        r == Err::<T, Error>(error),
        final(pipeline)@.stage == Stage::Failed,
{
    pipeline.advance(Event::Failed);
    Err(error)
}

/// Starts an application: runs the stages of start-up in their order,
/// each after the one before it has succeeded, and the initializers in
/// the order of the registry. The router is built by `before_routes`, the
/// declared routes are merged onto it, each initializer wraps what the
/// one before it handed on, and `after_routes` wraps last.
///
/// The first stage that fails ends start-up: no later stage runs, nothing
/// is undone, and the failure is handed back as it came.
pub fn start<H: Hooks>(context: AppContext) -> (r: Result<Started, Error>)
    ensures
        match r {
            Ok(started) => exists|h: Handed| succeeded::<H>(context, h, started),
            Err(error) => exists|h: Handed, stage: Stage| failed_at::<H>(context, h, stage, error),
        },
{
    let ghost given = context;
    let ghost mut h: Handed = arbitrary();
    let mut pipeline = Pipeline::new();
    let context = match H::after_context(context) {
        Ok(context) => context,
        Err(error) => {
            assert(failed_at::<H>(given, h, Stage::AfterContext, error));
            return give_up(&mut pipeline, error);
        },
    };
    proof {
        h.context = context;
    }
    pipeline.advance(Event::Done);
    let ran = H::before_run(&context);
    match ran {
        Ok(unit) => {
            assert(unit == ());
        },
        Err(error) => {
            assert(failed_at::<H>(given, h, Stage::BeforeRun, error));
            return give_up(&mut pipeline, error);
        },
    }
    pipeline.advance(Event::Done);
    let listed = H::initializers(&context);
    let initializers = match listed {
        Ok(list) => list,
        Err(error) => {
            assert(failed_at::<H>(given, h, Stage::Initializers, error));
            return give_up(&mut pipeline, error);
        },
    };
    proof {
        h.initializers = initializers;
    }
    let count: usize = initializers.len();
    pipeline.advance(Event::Listed(count));
    let mut i: usize = 0;
    while i < count
        invariant
            i <= count,
            count == initializers.len(),
            h.context == context,
            h.initializers == initializers,
            pipeline@.registry == count,
            pipeline@.stage == (if i < count {
                Stage::InitializerBeforeRun(i)
            } else {
                Stage::BeforeRoutes
            }),
            reached::<H>(given, h, pipeline@.stage),
        decreases count - i,
    {
        let item: &Box<dyn Initializer> = &initializers[i];
        let ran = prepare::<dyn Initializer>(&**item, &context);
        match ran {
            Ok(unit) => {
                assert(unit == ());
            },
            Err(error) => {
                assert(failed_at::<H>(given, h, Stage::InitializerBeforeRun(i), error));
                return give_up(&mut pipeline, error);
            },
        }
        pipeline.advance(Event::Done);
        i = i + 1;
    }
    let base = match H::before_routes(&context) {
        Ok(router) => router,
        Err(error) => {
            assert(failed_at::<H>(given, h, Stage::BeforeRoutes, error));
            return give_up(&mut pipeline, error);
        },
    };
    pipeline.advance(Event::Done);
    let table = H::routes(&context);
    proof {
        h.base = base;
        h.table = table;
    }
    let mut router = base.merge(table);
    proof {
        h.merged = router;
        h.layered = router;
    }
    pipeline.advance(Event::Done);
    let mut i: usize = 0;
    while i < count
        invariant
            i <= count,
            count == initializers.len(),
            h.context == context,
            h.initializers == initializers,
            h.layered == router,
            pipeline@.registry == count,
            pipeline@.stage == (if i < count {
                Stage::InitializerAfterRoutes(i)
            } else {
                Stage::AfterRoutes
            }),
            reached::<H>(given, h, pipeline@.stage),
        decreases count - i,
    {
        let item: &Box<dyn Initializer> = &initializers[i];
        let ghost inner = router;
        router = match wrap::<dyn Initializer>(&**item, router, &context) {
            Ok(router) => router,
            Err(error) => {
                assert(failed_at::<H>(given, h, Stage::InitializerAfterRoutes(i), error));
                return give_up(&mut pipeline, error);
            },
        };
        proof {
            let k = i + 1;
            assert(threaded(h.initializers@, h.context, h.merged, inner, k - 1));
            assert(wraps::<dyn Initializer>(&*h.initializers@[k - 1], inner, &h.context, Ok(router)));
            h.layered = router;
            assert(threaded(h.initializers@, h.context, h.merged, router, k));
        }
        pipeline.advance(Event::Done);
        i = i + 1;
    }
    let router = match H::after_routes(router, &context) {
        Ok(router) => router,
        Err(error) => {
            assert(failed_at::<H>(given, h, Stage::AfterRoutes, error));
            return give_up(&mut pipeline, error);
        },
    };
    pipeline.advance(Event::Done);
    let started = Started { context, router, pipeline };
    assert(succeeded::<H>(given, h, started));
    Ok(started)
}

/// Tears an application down: where its pipeline stands at `Serving`, the
/// application cleans up, once, and the pipeline ends at `Stopped`. On
/// any other pipeline nothing runs and nothing changes, so that cleaning
/// up cannot happen twice. Tells whether the application cleaned up.
pub fn shutdown<H: Hooks>(pipeline: &mut Pipeline, context: &AppContext) -> (ran: bool)
    ensures
        ran <==> old(pipeline)@.stage == Stage::Serving,
        ran ==> final(pipeline)@.stage == Stage::Stopped && final(pipeline)@.registry == old(
            pipeline,
        )@.registry,
        !ran ==> final(pipeline)@ == old(pipeline)@,
{
    match pipeline.advance(Event::Teardown) {
        Some(Stage::OnShutdown) => {
            H::on_shutdown(context);
            pipeline.advance(Event::Done);
            true
        },
        _ => false,
    }
}

} // verus!
