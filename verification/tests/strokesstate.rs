use rnote::strokes::strokestyle::StrokeKind;
use rnote::strokesstate::StrokesState;

type State = StrokesState<u32, u64>;

#[test]
fn new_state_has_no_strokes() {
    let state = State::new();
    assert!(state.keys_sorted_chrono().is_empty());
    assert_eq!(state.last_stroke_key(), None);
    assert_eq!(state.last_selection_key(), None);
    assert!(state.selection_keys().is_empty());
}

#[test]
fn insert_stroke_hands_out_increasing_keys() {
    let mut state = State::new();
    let a = state.insert_stroke(StrokeKind::MarkerStroke, 100);
    let b = state.insert_stroke(StrokeKind::ShapeStroke, 101);
    let c = state.insert_stroke(StrokeKind::BitmapImage, 102);
    assert_eq!((a, b, c), (0, 1, 2));
    assert_eq!(state.keys_sorted_chrono(), vec![0, 1, 2]);
    assert_eq!(state.last_stroke_key(), Some(2));
}

#[test]
fn inserted_stroke_has_all_components() {
    let mut state = State::new();
    let key = state.insert_stroke(StrokeKind::BrushStroke, 7);
    assert_eq!(state.trashed(key), Some(false));
    assert_eq!(state.selected(key), Some(false));
    assert!(state.can_render(key));
    assert_eq!(state.does_render(key), Some(true));
    assert_eq!(state.regenerate_flag(key), Some(true));
    let comp = state.render_component(key).unwrap();
    assert!(comp.images.is_empty());
    assert_eq!(comp.rendernode, 7);
}

#[test]
fn unknown_key_has_no_components() {
    let mut state = State::new();
    state.insert_stroke(StrokeKind::MarkerStroke, 0);
    assert_eq!(state.trashed(42), None);
    assert_eq!(state.selected(42), None);
    assert!(!state.can_render(42));
    assert_eq!(state.does_render(42), None);
    assert_eq!(state.regenerate_flag(42), None);
    assert!(state.render_component(42).is_none());
}

#[test]
fn set_trashed_and_selected_read_back() {
    let mut state = State::new();
    let key = state.insert_stroke(StrokeKind::MarkerStroke, 0);
    state.set_trashed(key, true);
    state.set_selected(key, true);
    assert_eq!(state.trashed(key), Some(true));
    assert_eq!(state.selected(key), Some(true));
    state.set_selected(key, false);
    assert_eq!(state.selected(key), Some(false));
    // nothing happens for an unknown key
    state.set_trashed(9, true);
    state.set_selected(9, true);
    assert_eq!(state.trashed(9), None);
    assert_eq!(state.selected(9), None);
}

#[test]
fn selection_keys_are_selected_strokes_oldest_first() {
    let mut state = State::new();
    let a = state.insert_stroke(StrokeKind::MarkerStroke, 0);
    let b = state.insert_stroke(StrokeKind::BrushStroke, 0);
    let c = state.insert_stroke(StrokeKind::ShapeStroke, 0);
    state.set_selected(c, true);
    state.set_selected(a, true);
    assert_eq!(state.selection_keys(), vec![a, c]);
    assert_eq!(state.last_selection_key(), Some(c));
    state.set_selected(c, false);
    assert_eq!(state.last_selection_key(), Some(a));
    assert_eq!(state.last_stroke_key(), Some(c));
    let _ = b;
}
