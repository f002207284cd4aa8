use raytrace::path::{first_step, next_step, sample_count, Segment, Step};

#[test]
fn no_budget_is_black_without_tracing() {
    assert_eq!(first_step(0), Step::Black);
}

#[test]
fn budget_opens_a_trace() {
    assert_eq!(first_step(5), Step::Trace(5));
}

#[test]
fn miss_shows_background() {
    assert_eq!(next_step(3, Segment::Miss), Step::Background);
    assert_eq!(next_step(1, Segment::Miss), Step::Background);
}

#[test]
fn absorption_is_black() {
    assert_eq!(next_step(3, Segment::Absorbed), Step::Black);
}

#[test]
fn scatter_spends_one_bounce() {
    assert_eq!(next_step(3, Segment::Scattered), Step::Trace(2));
    assert_eq!(next_step(2, Segment::Scattered), Step::Trace(1));
}

#[test]
fn scatter_on_last_bounce_is_black_not_background() {
    assert_eq!(next_step(1, Segment::Scattered), Step::Black);
    assert_eq!(next_step(0, Segment::Scattered), Step::Black);
    assert_eq!(next_step(0, Segment::Miss), Step::Black);
}

#[test]
fn scattering_path_ends_after_budget() {
    let budget: usize = 4;
    let mut step = first_step(budget);
    let mut traced: usize = 0;
    while let Step::Trace(n) = step {
        traced += 1;
        step = next_step(n, Segment::Scattered);
    }
    assert_eq!(traced, budget);
    assert_eq!(step, Step::Black);
}

#[test]
fn sample_count_is_at_least_one() {
    assert_eq!(sample_count(0), 1);
    assert_eq!(sample_count(1), 1);
    assert_eq!(sample_count(50), 50);
}
