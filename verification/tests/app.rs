use app_lifecycle::app::{shutdown, start, AppContext, Hooks, Initializer};
use app_lifecycle::errors::Error;
use app_lifecycle::pipeline::{Pipeline, Stage};
use app_lifecycle::router::{AppRoutes, Router};

struct Layer {
    name: &'static str,
}

impl Initializer for Layer {
    fn name(&self) -> String {
        self.name.to_string()
    }

    fn after_routes(&self, router: Router, _ctx: &AppContext) -> Result<Router, Error> {
        Ok(router.layer(self.name))
    }
}

struct Quiet;

impl Initializer for Quiet {
    fn name(&self) -> String {
        "quiet".to_string()
    }
}

struct FailsBeforeRun;

impl Initializer for FailsBeforeRun {
    fn name(&self) -> String {
        "fails-before-run".to_string()
    }

    fn before_run(&self, _ctx: &AppContext) -> Result<(), Error> {
        Err(Error::Startup("no cache".to_string()))
    }

    fn after_routes(&self, _router: Router, _ctx: &AppContext) -> Result<Router, Error> {
        panic!("ran after its own failure");
    }
}

struct FailsAfterRoutes;

impl Initializer for FailsAfterRoutes {
    fn name(&self) -> String {
        "fails-after-routes".to_string()
    }

    fn after_routes(&self, _router: Router, _ctx: &AppContext) -> Result<Router, Error> {
        Err(Error::Opaque("layer refused".to_string()))
    }
}

struct MustNotRun;

impl Initializer for MustNotRun {
    fn name(&self) -> String {
        "must-not-run".to_string()
    }

    fn before_run(&self, _ctx: &AppContext) -> Result<(), Error> {
        panic!("ran after an earlier failure");
    }

    fn after_routes(&self, _router: Router, _ctx: &AppContext) -> Result<Router, Error> {
        panic!("ran after an earlier failure");
    }
}

struct Minimal;

impl Hooks for Minimal {
    fn app_name() -> &'static str {
        "minimal"
    }

    fn routes(_ctx: &AppContext) -> AppRoutes {
        AppRoutes::new().add("/users")
    }
}

struct Layered;

impl Hooks for Layered {
    fn app_version() -> String {
        "1.2.3".to_string()
    }

    fn app_name() -> &'static str {
        "layered"
    }

    fn before_routes(_ctx: &AppContext) -> Result<Router, Error> {
        Ok(Router::new().route("/fallback"))
    }

    fn after_routes(router: Router, _ctx: &AppContext) -> Result<Router, Error> {
        Ok(router.layer("app"))
    }

    fn initializers(_ctx: &AppContext) -> Result<Vec<Box<dyn Initializer>>, Error> {
        Ok(vec![Box::new(Layer { name: "X" }), Box::new(Quiet), Box::new(Layer { name: "Y" })])
    }

    fn routes(_ctx: &AppContext) -> AppRoutes {
        AppRoutes::new().add("/users").add("/posts")
    }
}

struct Swapped;

impl Hooks for Swapped {
    fn app_name() -> &'static str {
        "swapped"
    }

    fn before_routes(_ctx: &AppContext) -> Result<Router, Error> {
        Ok(Router::new().route("/fallback"))
    }

    fn after_routes(router: Router, _ctx: &AppContext) -> Result<Router, Error> {
        Ok(router.layer("app"))
    }

    fn initializers(_ctx: &AppContext) -> Result<Vec<Box<dyn Initializer>>, Error> {
        Ok(vec![Box::new(Layer { name: "Y" }), Box::new(Quiet), Box::new(Layer { name: "X" })])
    }

    fn routes(_ctx: &AppContext) -> AppRoutes {
        AppRoutes::new().add("/users").add("/posts")
    }
}

struct BrokenInitializer;

impl Hooks for BrokenInitializer {
    fn app_name() -> &'static str {
        "broken-initializer"
    }

    fn initializers(_ctx: &AppContext) -> Result<Vec<Box<dyn Initializer>>, Error> {
        Ok(vec![Box::new(Quiet), Box::new(FailsBeforeRun), Box::new(MustNotRun)])
    }

    fn before_routes(_ctx: &AppContext) -> Result<Router, Error> {
        panic!("ran after an earlier failure");
    }

    fn routes(_ctx: &AppContext) -> AppRoutes {
        panic!("ran after an earlier failure");
    }

    fn after_routes(_router: Router, _ctx: &AppContext) -> Result<Router, Error> {
        panic!("ran after an earlier failure");
    }
}

struct BrokenLayer;

impl Hooks for BrokenLayer {
    fn app_name() -> &'static str {
        "broken-layer"
    }

    fn initializers(_ctx: &AppContext) -> Result<Vec<Box<dyn Initializer>>, Error> {
        Ok(vec![
            Box::new(Layer { name: "X" }),
            Box::new(FailsAfterRoutes),
            Box::new(NeverWraps),
        ])
    }

    fn routes(_ctx: &AppContext) -> AppRoutes {
        AppRoutes::new()
    }

    fn after_routes(_router: Router, _ctx: &AppContext) -> Result<Router, Error> {
        panic!("ran after an earlier failure");
    }
}

struct NeverWraps;

impl Initializer for NeverWraps {
    fn name(&self) -> String {
        "never-wraps".to_string()
    }

    fn after_routes(&self, _router: Router, _ctx: &AppContext) -> Result<Router, Error> {
        panic!("ran after an earlier failure");
    }
}

struct BrokenContext;

impl Hooks for BrokenContext {
    fn app_name() -> &'static str {
        "broken-context"
    }

    fn after_context(_ctx: AppContext) -> Result<AppContext, Error> {
        Err(Error::Startup("no context".to_string()))
    }

    fn before_run(_ctx: &AppContext) -> Result<(), Error> {
        panic!("ran after an earlier failure");
    }

    fn initializers(_ctx: &AppContext) -> Result<Vec<Box<dyn Initializer>>, Error> {
        panic!("ran after an earlier failure");
    }

    fn routes(_ctx: &AppContext) -> AppRoutes {
        panic!("ran after an earlier failure");
    }
}

struct BrokenBeforeRun;

impl Hooks for BrokenBeforeRun {
    fn app_name() -> &'static str {
        "broken-before-run"
    }

    fn before_run(_ctx: &AppContext) -> Result<(), Error> {
        Err(Error::Startup("not ready".to_string()))
    }

    fn initializers(_ctx: &AppContext) -> Result<Vec<Box<dyn Initializer>>, Error> {
        panic!("ran after an earlier failure");
    }

    fn routes(_ctx: &AppContext) -> AppRoutes {
        panic!("ran after an earlier failure");
    }
}

struct NoisyShutdown;

impl Hooks for NoisyShutdown {
    fn app_name() -> &'static str {
        "noisy"
    }

    fn routes(_ctx: &AppContext) -> AppRoutes {
        AppRoutes::new()
    }

    fn on_shutdown(_ctx: &AppContext) {
        println!("bye");
    }
}

#[test]
fn minimal_application_needs_only_name_and_routes() {
    let started = start::<Minimal>(AppContext {}).unwrap();
    assert_eq!(started.router.routes(), &vec!["/users"]);
    assert!(started.router.layers().is_empty());
    assert_eq!(started.pipeline.stage(), Stage::Serving);
    assert_eq!(started.pipeline.registry(), 0);
    assert_eq!(Minimal::app_version(), "dev");
    assert_eq!(Minimal::app_name(), "minimal");
}

#[test]
fn defaults_do_nothing() {
    let ctx = AppContext {};
    assert!(Minimal::before_run(&ctx).is_ok());
    assert!(Minimal::initializers(&ctx).unwrap().is_empty());
    assert_eq!(Minimal::before_routes(&ctx).unwrap(), Router::new());
    let router = Router::new().route("/a").layer("l");
    assert_eq!(Minimal::after_routes(router.clone(), &ctx).unwrap(), router);
    assert!(Minimal::after_context(ctx.clone()).is_ok());
    Minimal::on_shutdown(&ctx);

    assert!(Quiet.before_run(&ctx).is_ok());
    assert_eq!(Quiet.after_routes(router.clone(), &ctx).unwrap(), router);
    assert!(!Quiet.name().is_empty());
}

#[test]
fn initializers_wrap_in_the_order_of_the_registry() {
    let started = start::<Layered>(AppContext {}).unwrap();
    assert_eq!(started.router.layers(), &vec!["X", "Y", "app"]);
    assert_eq!(started.pipeline.registry(), 3);
    assert_eq!(Layered::app_version(), "1.2.3");
}

#[test]
fn base_router_comes_before_declared_routes_and_layers() {
    let started = start::<Layered>(AppContext {}).unwrap();
    assert_eq!(started.router.routes(), &vec!["/fallback", "/users", "/posts"]);
    let bare = start::<Minimal>(AppContext {}).unwrap();
    assert_eq!(bare.router.routes(), &vec!["/users"]);
}

#[test]
fn another_order_of_initializers_gives_another_router() {
    let one = start::<Layered>(AppContext {}).unwrap().router;
    let other = start::<Swapped>(AppContext {}).unwrap().router;
    assert_eq!(other.layers(), &vec!["Y", "X", "app"]);
    assert_ne!(one.layers(), other.layers());
    assert_ne!(one, other);
    assert_eq!(one.routes(), other.routes());
}

#[test]
fn failing_initializer_ends_start_up() {
    let error = start::<BrokenInitializer>(AppContext {}).unwrap_err();
    assert_eq!(error, Error::Startup("no cache".to_string()));
}

#[test]
fn failing_layer_ends_start_up() {
    let error = start::<BrokenLayer>(AppContext {}).unwrap_err();
    assert_eq!(error, Error::Opaque("layer refused".to_string()));
}

#[test]
fn failing_context_ends_start_up_before_anything_runs() {
    let error = start::<BrokenContext>(AppContext {}).unwrap_err();
    assert_eq!(error, Error::Startup("no context".to_string()));
}

#[test]
fn failing_before_run_ends_start_up() {
    let error = start::<BrokenBeforeRun>(AppContext {}).unwrap_err();
    assert_eq!(error, Error::Startup("not ready".to_string()));
}

#[test]
fn shutdown_cleans_up_once() {
    let mut started = start::<NoisyShutdown>(AppContext {}).unwrap();
    assert!(shutdown::<NoisyShutdown>(&mut started.pipeline, &started.context));
    assert_eq!(started.pipeline.stage(), Stage::Stopped);
    assert!(!shutdown::<NoisyShutdown>(&mut started.pipeline, &started.context));
    assert!(!shutdown::<NoisyShutdown>(&mut started.pipeline, &started.context));
    assert_eq!(started.pipeline.stage(), Stage::Stopped);
}

#[test]
fn shutdown_does_nothing_before_serving() {
    let mut pipeline = Pipeline::new();
    assert!(!shutdown::<NoisyShutdown>(&mut pipeline, &AppContext {}));
    assert_eq!(pipeline.stage(), Stage::AfterContext);
}
