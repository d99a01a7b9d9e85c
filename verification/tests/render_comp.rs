use rnote::strokes::strokestyle::StrokeKind;
use rnote::strokesstate::render_comp::{DebugDrawInfo, NewElemRendering, RenderComponent};
use rnote::strokesstate::StrokesState;

type State = StrokesState<u32, u64>;

fn state_with(kinds: &[StrokeKind]) -> State {
    let mut state = State::new();
    for (i, kind) in kinds.iter().enumerate() {
        state.insert_stroke(*kind, 1000 + i as u64);
    }
    state
}

fn images(state: &State, key: u64) -> Vec<u32> {
    state.render_component(key).unwrap().images.clone()
}

fn node(state: &State, key: u64) -> u64 {
    state.render_component(key).unwrap().rendernode
}

#[test]
fn render_component_new_is_shown_and_pending() {
    let comp: RenderComponent<u32, u64> = RenderComponent::new(5);
    assert!(comp.render);
    assert!(comp.regenerate_flag);
    assert!(comp.images.is_empty());
    assert_eq!(comp.rendernode, 5);
}

#[test]
fn can_render_matches_does_render() {
    let state = state_with(&[StrokeKind::MarkerStroke]);
    for key in [0u64, 1, 2] {
        assert_eq!(state.can_render(key), state.does_render(key).is_some());
        assert_eq!(state.can_render(key), state.regenerate_flag(key).is_some());
    }
}

#[test]
fn set_render_reads_back_and_keeps_regenerate_flag() {
    let mut state = state_with(&[StrokeKind::MarkerStroke, StrokeKind::BrushStroke]);
    state.set_render(0, false);
    assert_eq!(state.does_render(0), Some(false));
    assert_eq!(state.does_render(1), Some(true));
    assert_eq!(state.regenerate_flag(0), Some(true));
    state.set_render(0, false);
    assert_eq!(state.does_render(0), Some(false));
    state.set_render(7, false);
    assert_eq!(state.does_render(7), None);
}

#[test]
fn set_regenerate_flag_reads_back_and_keeps_render() {
    let mut state = state_with(&[StrokeKind::MarkerStroke, StrokeKind::BrushStroke]);
    state.set_regenerate_flag(1, false);
    assert_eq!(state.regenerate_flag(1), Some(false));
    assert_eq!(state.regenerate_flag(0), Some(true));
    assert_eq!(state.does_render(1), Some(true));
    state.set_regenerate_flag(9, false);
    assert_eq!(state.regenerate_flag(9), None);
}

#[test]
fn reset_regenerate_flag_all_strokes_sets_every_flag() {
    let mut state = state_with(&[StrokeKind::MarkerStroke, StrokeKind::BrushStroke, StrokeKind::VectorImage]);
    state.set_regenerate_flag(0, false);
    state.set_regenerate_flag(2, false);
    state.set_render(2, false);
    state.reset_regenerate_flag_all_strokes();
    assert_eq!(state.regenerate_flag(0), Some(true));
    assert_eq!(state.regenerate_flag(1), Some(true));
    assert_eq!(state.regenerate_flag(2), Some(true));
    assert_eq!(state.does_render(2), Some(false));
    state.reset_regenerate_flag_all_strokes();
    assert_eq!(state.regenerate_flag(2), Some(true));
}

#[test]
fn update_rendernode_keeps_images_and_flags() {
    let mut state = state_with(&[StrokeKind::ShapeStroke]);
    state.regenerate_rendering_with_images(0, vec![1, 2], Some(50));
    state.update_rendernode(0, 77);
    assert_eq!(node(&state, 0), 77);
    assert_eq!(images(&state, 0), vec![1, 2]);
    assert_eq!(state.regenerate_flag(0), Some(false));
    state.update_rendernode(5, 1);
    assert!(state.render_component(5).is_none());
}

#[test]
fn regenerate_rendering_for_stroke_installs_one_image() {
    let mut state = state_with(&[StrokeKind::MarkerStroke]);
    state.append_images_to_rendering(0, vec![1, 2, 3], Some(10));
    state.set_regenerate_flag(0, true);
    state.regenerate_rendering_for_stroke(0, Some((9, 99)));
    assert_eq!(images(&state, 0), vec![9]);
    assert_eq!(node(&state, 0), 99);
    assert_eq!(state.regenerate_flag(0), Some(false));
    assert_eq!(state.does_render(0), Some(true));
}

#[test]
fn failed_rendering_changes_nothing() {
    let mut state = state_with(&[StrokeKind::MarkerStroke]);
    state.regenerate_rendering_for_stroke(0, None);
    assert_eq!(state.regenerate_flag(0), Some(true));
    assert!(images(&state, 0).is_empty());
    assert_eq!(node(&state, 0), 1000);
    state.regenerate_rendering_with_images(0, vec![4], None);
    state.append_images_to_rendering(0, vec![4], None);
    assert_eq!(state.regenerate_flag(0), Some(true));
    assert!(images(&state, 0).is_empty());
    // an unknown stroke is ignored
    state.regenerate_rendering_for_stroke(3, Some((1, 1)));
    assert!(state.render_component(3).is_none());
}

#[test]
fn regenerate_rendering_for_stroke_threaded_dispatches_when_ready() {
    let mut state = state_with(&[StrokeKind::BrushStroke]);
    assert!(!state.regenerate_rendering_for_stroke_threaded(0, false));
    assert_eq!(state.regenerate_flag(0), Some(true));
    assert!(state.regenerate_rendering_for_stroke_threaded(0, true));
    assert_eq!(state.regenerate_flag(0), Some(false));
    assert!(!state.regenerate_rendering_for_stroke_threaded(4, true));
}

#[test]
fn threaded_rendering_ends_like_direct_rendering() {
    let mut direct = state_with(&[StrokeKind::VectorImage]);
    let mut threaded = state_with(&[StrokeKind::VectorImage]);
    direct.regenerate_rendering_for_stroke(0, Some((3, 30)));
    assert!(threaded.regenerate_rendering_for_stroke_threaded(0, true));
    threaded.regenerate_rendering_with_images(0, vec![3], Some(30));
    assert_eq!(images(&direct, 0), images(&threaded, 0));
    assert_eq!(node(&direct, 0), node(&threaded, 0));
    assert_eq!(direct.regenerate_flag(0), threaded.regenerate_flag(0));
}

#[test]
fn regenerate_rendering_for_selection_touches_only_selected() {
    let mut state = state_with(&[StrokeKind::MarkerStroke, StrokeKind::BrushStroke, StrokeKind::ShapeStroke]);
    state.set_selected(0, true);
    state.set_selected(2, true);
    state.regenerate_rendering_for_selection(vec![Some((10, 100)), Some((20, 200))]);
    assert_eq!(images(&state, 0), vec![10]);
    assert_eq!(node(&state, 0), 100);
    assert_eq!(images(&state, 2), vec![20]);
    assert_eq!(node(&state, 2), 200);
    assert!(images(&state, 1).is_empty());
    assert_eq!(state.regenerate_flag(1), Some(true));
    assert_eq!(state.regenerate_flag(0), Some(false));
}

#[test]
fn regenerate_rendering_for_selection_with_missing_outcomes() {
    let mut state = state_with(&[StrokeKind::MarkerStroke, StrokeKind::BrushStroke]);
    state.set_selected(0, true);
    state.set_selected(1, true);
    state.regenerate_rendering_for_selection(vec![None]);
    assert_eq!(state.regenerate_flag(0), Some(true));
    assert_eq!(state.regenerate_flag(1), Some(true));
    state.regenerate_rendering_for_selection(vec![Some((1, 1))]);
    assert_eq!(state.regenerate_flag(0), Some(false));
    assert_eq!(state.regenerate_flag(1), Some(true));
}

#[test]
fn regenerate_rendering_for_selection_threaded_returns_dispatched() {
    let mut state = state_with(&[StrokeKind::MarkerStroke, StrokeKind::BrushStroke, StrokeKind::ShapeStroke]);
    state.set_selected(1, true);
    state.set_selected(2, true);
    assert_eq!(state.regenerate_rendering_for_selection_threaded(false), Vec::<u64>::new());
    assert_eq!(state.regenerate_flag(1), Some(true));
    assert_eq!(state.regenerate_rendering_for_selection_threaded(true), vec![1, 2]);
    assert_eq!(state.regenerate_flag(0), Some(true));
    assert_eq!(state.regenerate_flag(1), Some(false));
    assert_eq!(state.regenerate_flag(2), Some(false));
}

#[test]
fn regenerate_rendering_newest_stroke_renders_last_inserted() {
    let mut state = state_with(&[StrokeKind::MarkerStroke, StrokeKind::BrushStroke]);
    state.regenerate_rendering_newest_stroke(Some((5, 55)));
    assert_eq!(images(&state, 1), vec![5]);
    assert!(images(&state, 0).is_empty());
    let mut empty = State::new();
    empty.regenerate_rendering_newest_stroke(Some((5, 55)));
    assert_eq!(empty.last_stroke_key(), None);
}

#[test]
fn regenerate_rendering_newest_stroke_threaded_returns_key() {
    let mut state = state_with(&[StrokeKind::MarkerStroke, StrokeKind::BrushStroke]);
    assert_eq!(state.regenerate_rendering_newest_stroke_threaded(false), None);
    assert_eq!(state.regenerate_rendering_newest_stroke_threaded(true), Some(1));
    assert_eq!(state.regenerate_flag(1), Some(false));
    assert_eq!(state.regenerate_flag(0), Some(true));
    let mut empty = State::new();
    assert_eq!(empty.regenerate_rendering_newest_stroke_threaded(true), None);
}

#[test]
fn regenerate_rendering_newest_selected_renders_newest_selection() {
    let mut state = state_with(&[StrokeKind::MarkerStroke, StrokeKind::BrushStroke, StrokeKind::ShapeStroke]);
    state.regenerate_rendering_newest_selected(Some((8, 88)));
    assert!(images(&state, 0).is_empty() && images(&state, 1).is_empty() && images(&state, 2).is_empty());
    state.set_selected(0, true);
    state.set_selected(1, true);
    state.regenerate_rendering_newest_selected(Some((8, 88)));
    assert_eq!(images(&state, 1), vec![8]);
    assert!(images(&state, 0).is_empty());
}

#[test]
fn regenerate_rendering_newest_selected_threaded_returns_key() {
    let mut state = state_with(&[StrokeKind::MarkerStroke, StrokeKind::BrushStroke]);
    assert_eq!(state.regenerate_rendering_newest_selected_threaded(true), None);
    state.set_selected(0, true);
    assert_eq!(state.regenerate_rendering_newest_selected_threaded(true), Some(0));
    assert_eq!(state.regenerate_flag(0), Some(false));
    assert_eq!(state.regenerate_flag(1), Some(true));
}

#[test]
fn regenerate_rendering_with_images_replaces_images() {
    let mut state = state_with(&[StrokeKind::BitmapImage]);
    state.append_images_to_rendering(0, vec![1], Some(11));
    state.set_regenerate_flag(0, true);
    state.regenerate_rendering_with_images(0, vec![7, 8], Some(78));
    assert_eq!(images(&state, 0), vec![7, 8]);
    assert_eq!(node(&state, 0), 78);
    assert_eq!(state.regenerate_flag(0), Some(false));
}

#[test]
fn append_images_to_rendering_appends() {
    let mut state = state_with(&[StrokeKind::MarkerStroke]);
    state.append_images_to_rendering(0, vec![1, 2], Some(12));
    state.append_images_to_rendering(0, vec![3], Some(123));
    assert_eq!(images(&state, 0), vec![1, 2, 3]);
    assert_eq!(node(&state, 0), 123);
    assert_eq!(state.regenerate_flag(0), Some(false));
    state.append_images_to_rendering(4, vec![3], Some(1));
    assert!(state.render_component(4).is_none());
}

#[test]
fn new_elem_plan_for_each_kind() {
    assert_eq!(NewElemRendering::for_stroke(StrokeKind::MarkerStroke, 5), NewElemRendering::LastElements(1, 2, 3, 4));
    assert_eq!(NewElemRendering::for_stroke(StrokeKind::BrushStroke, 4), NewElemRendering::LastElements(0, 1, 2, 3));
    assert_eq!(NewElemRendering::for_stroke(StrokeKind::BrushStroke, 3), NewElemRendering::TooFewElements);
    assert_eq!(NewElemRendering::for_stroke(StrokeKind::MarkerStroke, 0), NewElemRendering::TooFewElements);
    assert_eq!(NewElemRendering::for_stroke(StrokeKind::ShapeStroke, 10), NewElemRendering::Full);
    assert_eq!(NewElemRendering::for_stroke(StrokeKind::VectorImage, 0), NewElemRendering::Full);
    assert_eq!(NewElemRendering::for_stroke(StrokeKind::BitmapImage, 4), NewElemRendering::Full);
}

#[test]
fn renders_new_elems_only_marker_and_brush() {
    assert!(StrokeKind::MarkerStroke.renders_new_elems());
    assert!(StrokeKind::BrushStroke.renders_new_elems());
    assert!(!StrokeKind::ShapeStroke.renders_new_elems());
    assert!(!StrokeKind::VectorImage.renders_new_elems());
    assert!(!StrokeKind::BitmapImage.renders_new_elems());
}

#[test]
fn new_elem_rendering_needs_stroke_and_render_component() {
    let state = state_with(&[StrokeKind::MarkerStroke, StrokeKind::ShapeStroke]);
    assert_eq!(state.new_elem_rendering(0, 6), Some(NewElemRendering::LastElements(2, 3, 4, 5)));
    assert_eq!(state.new_elem_rendering(1, 6), Some(NewElemRendering::Full));
    assert_eq!(state.new_elem_rendering(2, 6), None);
}

#[test]
fn append_rendering_new_elem_threaded_fifo_sets_flag() {
    let mut state = state_with(&[StrokeKind::BrushStroke]);
    state.set_regenerate_flag(0, false);
    assert_eq!(state.append_rendering_new_elem_threaded_fifo(0, 8, false), None);
    assert_eq!(state.regenerate_flag(0), Some(false));
    assert_eq!(state.append_rendering_new_elem_threaded_fifo(0, 8, true), Some(NewElemRendering::LastElements(4, 5, 6, 7)));
    assert_eq!(state.regenerate_flag(0), Some(true));
    assert_eq!(state.append_rendering_new_elem_threaded_fifo(3, 8, true), None);
}

#[test]
fn threaded_append_ends_like_direct_append() {
    let mut direct = state_with(&[StrokeKind::MarkerStroke]);
    let mut threaded = state_with(&[StrokeKind::MarkerStroke]);
    direct.append_images_to_rendering(0, vec![1], Some(1));
    threaded.append_images_to_rendering(0, vec![1], Some(1));
    direct.append_images_to_rendering(0, vec![2], Some(2));
    assert!(threaded.append_rendering_new_elem_threaded_fifo(0, 4, true).is_some());
    threaded.append_images_to_rendering(0, vec![2], Some(2));
    assert_eq!(images(&direct, 0), images(&threaded, 0));
    assert_eq!(direct.regenerate_flag(0), threaded.regenerate_flag(0));
}

#[test]
fn draw_passes_split_selected_and_unselected() {
    let mut state = state_with(&[
        StrokeKind::MarkerStroke,
        StrokeKind::BrushStroke,
        StrokeKind::ShapeStroke,
        StrokeKind::VectorImage,
        StrokeKind::BitmapImage,
    ]);
    state.set_selected(1, true);
    state.set_selected(3, true);
    state.set_trashed(3, true);
    state.set_render(4, false);
    assert_eq!(state.strokes_to_draw(), vec![0, 2]);
    assert_eq!(state.selection_to_draw(), vec![1]);
}

#[test]
fn debug_draw_infos_mark_hidden_and_regenerating() {
    let mut state = state_with(&[StrokeKind::MarkerStroke, StrokeKind::BrushStroke, StrokeKind::ShapeStroke]);
    state.set_trashed(0, true);
    state.set_regenerate_flag(1, false);
    state.set_trashed(2, true);
    state.set_render(2, false);
    assert_eq!(
        state.debug_draw_infos(),
        vec![
            DebugDrawInfo { key: 0, hidden: true, regenerating: true },
            DebugDrawInfo { key: 1, hidden: false, regenerating: false },
            DebugDrawInfo { key: 2, hidden: false, regenerating: true },
        ]
    );
}
