use rust_simple_raytracer::integrator::{Event, PathState};

fn run(depth: usize, events: &[Event]) -> (PathState, usize) {
    let mut state = PathState::start(depth);
    let mut queries = 0;
    for e in events {
        if !state.is_tracing() {
            break;
        }
        queries += 1;
        state = state.step(*e);
    }
    (state, queries)
}

#[test]
fn zero_depth_is_black_without_query() {
    let s = PathState::start(0);
    assert_eq!(s, PathState::Black);
    assert!(!s.is_tracing());
    assert_eq!(run(0, &[Event::Missed]), (PathState::Black, 0));
}

#[test]
fn miss_ends_on_background() {
    assert_eq!(run(5, &[Event::Missed]), (PathState::Background, 1));
    assert_eq!(run(5, &[Event::Scattered, Event::Scattered, Event::Missed]), (PathState::Background, 3));
}

#[test]
fn absorption_ends_black() {
    assert_eq!(run(5, &[Event::Scattered, Event::Absorbed, Event::Missed]), (PathState::Black, 2));
}

#[test]
fn budget_bounds_the_queries() {
    let always = vec![Event::Scattered; 100];
    for depth in 0..20usize {
        let (state, queries) = run(depth, &always);
        assert_eq!(state, PathState::Black);
        assert_eq!(queries, depth);
    }
    assert_eq!(PathState::start(3).step(Event::Scattered), PathState::Tracing { depth_left: 2 });
    assert_eq!(PathState::start(1).step(Event::Scattered), PathState::Black);
    assert_eq!(PathState::Background.step(Event::Scattered), PathState::Background);
}
