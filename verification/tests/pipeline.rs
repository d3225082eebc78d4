use app_lifecycle::pipeline::{Event, Pipeline, Stage};

fn run(pipeline: &mut Pipeline, events: &[Event]) -> Vec<Option<Stage>> {
    events.iter().map(|e| pipeline.advance(*e)).collect()
}

#[test]
fn new_pipeline_stands_at_the_first_stage() {
    let pipeline = Pipeline::new();
    assert_eq!(pipeline.stage(), Stage::AfterContext);
    assert_eq!(pipeline.registry(), 0);
}

#[test]
fn stages_run_in_order_with_two_initializers() {
    let mut pipeline = Pipeline::new();
    let told = run(
        &mut pipeline,
        &[
            Event::Done,
            Event::Done,
            Event::Listed(2),
            Event::Done,
            Event::Done,
            Event::Done,
            Event::Done,
            Event::Done,
            Event::Done,
            Event::Done,
        ],
    );
    assert_eq!(
        told,
        vec![
            Some(Stage::BeforeRun),
            Some(Stage::Initializers),
            Some(Stage::InitializerBeforeRun(0)),
            Some(Stage::InitializerBeforeRun(1)),
            Some(Stage::BeforeRoutes),
            Some(Stage::Routes),
            Some(Stage::InitializerAfterRoutes(0)),
            Some(Stage::InitializerAfterRoutes(1)),
            Some(Stage::AfterRoutes),
            Some(Stage::Serving),
        ]
    );
    assert_eq!(pipeline.stage(), Stage::Serving);
    assert_eq!(pipeline.registry(), 2);
}

#[test]
fn stages_run_in_order_without_initializers() {
    let mut pipeline = Pipeline::new();
    let told = run(
        &mut pipeline,
        &[Event::Done, Event::Done, Event::Listed(0), Event::Done, Event::Done, Event::Done],
    );
    assert_eq!(
        told,
        vec![
            Some(Stage::BeforeRun),
            Some(Stage::Initializers),
            Some(Stage::BeforeRoutes),
            Some(Stage::Routes),
            Some(Stage::AfterRoutes),
            Some(Stage::Serving),
        ]
    );
    assert_eq!(pipeline.registry(), 0);
}

#[test]
fn plain_success_at_the_listing_means_an_empty_registry() {
    let mut pipeline = Pipeline::new();
    let told = run(&mut pipeline, &[Event::Done, Event::Done, Event::Done]);
    assert_eq!(told[2], Some(Stage::BeforeRoutes));
    assert_eq!(pipeline.registry(), 0);
}

#[test]
fn a_count_outside_the_listing_is_a_plain_success() {
    let mut pipeline = Pipeline::new();
    assert_eq!(pipeline.advance(Event::Listed(5)), Some(Stage::BeforeRun));
    assert_eq!(pipeline.registry(), 0);
}

#[test]
fn one_initializer_has_one_stage_of_each_kind() {
    let mut pipeline = Pipeline::new();
    let told = run(
        &mut pipeline,
        &[Event::Done, Event::Done, Event::Listed(1), Event::Done, Event::Done, Event::Done],
    );
    assert_eq!(
        told[2..],
        [
            Some(Stage::InitializerBeforeRun(0)),
            Some(Stage::BeforeRoutes),
            Some(Stage::Routes),
            Some(Stage::InitializerAfterRoutes(0)),
        ]
    );
}

#[test]
fn failure_gives_start_up_up_at_every_stage() {
    for done in 0..10 {
        let mut pipeline = Pipeline::new();
        for k in 0..done {
            let event = if k == 2 { Event::Listed(2) } else { Event::Done };
            assert!(pipeline.advance(event).is_some());
        }
        assert_ne!(pipeline.stage(), Stage::Serving);
        assert_eq!(pipeline.advance(Event::Failed), Some(Stage::Failed));
        assert_eq!(pipeline.stage(), Stage::Failed);
        for event in [Event::Done, Event::Listed(3), Event::Failed, Event::Teardown] {
            assert_eq!(pipeline.advance(event), None);
            assert_eq!(pipeline.stage(), Stage::Failed);
        }
    }
}

#[test]
fn teardown_is_not_heard_during_start_up() {
    let mut pipeline = Pipeline::new();
    assert_eq!(pipeline.advance(Event::Teardown), None);
    assert_eq!(pipeline.stage(), Stage::AfterContext);
    pipeline.advance(Event::Done);
    assert_eq!(pipeline.advance(Event::Teardown), None);
    assert_eq!(pipeline.stage(), Stage::BeforeRun);
}

fn serving() -> Pipeline {
    let mut pipeline = Pipeline::new();
    for _ in 0..6 {
        pipeline.advance(Event::Done);
    }
    assert_eq!(pipeline.stage(), Stage::Serving);
    pipeline
}

#[test]
fn serving_hears_only_teardown() {
    let mut pipeline = serving();
    for event in [Event::Done, Event::Listed(1), Event::Failed] {
        assert_eq!(pipeline.advance(event), None);
        assert_eq!(pipeline.stage(), Stage::Serving);
    }
    assert_eq!(pipeline.advance(Event::Teardown), Some(Stage::OnShutdown));
}

#[test]
fn clean_up_is_asked_for_once() {
    let mut pipeline = serving();
    let told = run(
        &mut pipeline,
        &[
            Event::Teardown,
            Event::Teardown,
            Event::Done,
            Event::Teardown,
            Event::Done,
            Event::Failed,
            Event::Teardown,
        ],
    );
    assert_eq!(
        told,
        vec![Some(Stage::OnShutdown), None, Some(Stage::Stopped), None, None, None, None]
    );
    assert_eq!(told.iter().filter(|t| **t == Some(Stage::OnShutdown)).count(), 1);
    assert_eq!(pipeline.stage(), Stage::Stopped);
}

#[test]
fn clean_up_that_fails_still_ends_teardown() {
    let mut pipeline = serving();
    assert_eq!(pipeline.advance(Event::Teardown), Some(Stage::OnShutdown));
    assert_eq!(pipeline.advance(Event::Failed), Some(Stage::Stopped));
    assert_eq!(pipeline.stage(), Stage::Stopped);
}
