use learned_index::stream::{closing, step, Closing, PointAction, StreamState};

#[test]
fn stream_needs_two_points_before_it_is_ready() {
    assert_eq!(
        step(StreamState::Need2, false),
        (StreamState::Need1, PointAction::Start)
    );
    assert_eq!(
        step(StreamState::Need2, true),
        (StreamState::Need1, PointAction::Start)
    );
    assert_eq!(
        step(StreamState::Need1, false),
        (StreamState::Ready, PointAction::SetUp)
    );
    assert_eq!(
        step(StreamState::Need1, true),
        (StreamState::Ready, PointAction::SetUp)
    );
}

#[test]
fn ready_stream_stays_or_emits() {
    assert_eq!(
        step(StreamState::Ready, true),
        (StreamState::Ready, PointAction::Tighten)
    );
    assert_eq!(
        step(StreamState::Ready, false),
        (StreamState::Need1, PointAction::Emit)
    );
}

#[test]
fn end_of_stream_follows_the_state() {
    assert_eq!(closing(StreamState::Need2), Closing::Nothing);
    assert_eq!(closing(StreamState::Need1), Closing::Constant);
    assert_eq!(closing(StreamState::Ready), Closing::Current);
}

#[test]
fn segments_are_at_most_half_the_points() {
    // every point of a ready stream fails to fit: the most segments there can be
    for n in 0..40usize {
        let mut state = StreamState::Need2;
        let mut segments = 0;
        for _ in 0..n {
            let (next, action) = step(state, false);
            if action == PointAction::Emit {
                segments += 1;
            }
            state = next;
        }
        if closing(state) != Closing::Nothing {
            segments += 1;
        }
        assert_eq!(closing(state) == Closing::Nothing, n == 0);
        assert!(2 * segments <= n + 1);
        assert_eq!(segments, (n + 1) / 2);
    }
}

#[test]
fn fitting_points_give_one_segment() {
    let mut state = StreamState::Need2;
    let mut emitted = 0;
    for _ in 0..10 {
        let (next, action) = step(state, true);
        if action == PointAction::Emit {
            emitted += 1;
        }
        state = next;
    }
    assert_eq!(emitted, 0);
    assert_eq!(closing(state), Closing::Current);
}
