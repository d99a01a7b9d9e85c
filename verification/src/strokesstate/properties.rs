use vstd::prelude::*;

use super::render_comp::{
    after_appended_images, after_dispatch, after_dispatches, after_full_rendering,
    after_full_renderings, after_images_rendering, dispatch_ready, new_elem_plan, regenerate_flag_of,
    render_of, reset_regenerate_flags, set_regenerate_flag_in, set_render_in, set_rendernode_in,
    NewElemRendering,
    RenderComponentView,
};
use super::{ChronoComponent, StrokeKey, StrokesState};
use crate::strokes::strokestyle::StrokeKind;

verus! {

broadcast use vstd::seq_lib::group_filter_ensures;

/// A stroke supports rendering exactly when `does_render` and `regenerate_flag` answer
/// `Some`: `can_render` is `does_render(..).is_some()`.
pub proof fn lemma_render_support<I, N>(
    renders: Map<StrokeKey, RenderComponentView<I, N>>,
    key: StrokeKey,
)
    ensures
        render_of(renders, key) is Some <==> renders.contains_key(key),
        regenerate_flag_of(renders, key) is Some <==> renders.contains_key(key),
{
}

/// Reading the render flag back gives what was set; no other stroke and no regenerate flag
/// changes, and the strokes that support rendering stay the same.
pub proof fn lemma_set_render_then_read<I, N>(
    renders: Map<StrokeKey, RenderComponentView<I, N>>,
    key: StrokeKey,
    render: bool,
    other: StrokeKey,
)
    ensures
        render_of(set_render_in(renders, key, render), key) == (if renders.contains_key(key) {
            Some(render)
        } else {
            None
        }),
        other != key ==> render_of(set_render_in(renders, key, render), other) == render_of(
            renders,
            other,
        ),
        regenerate_flag_of(set_render_in(renders, key, render), other) == regenerate_flag_of(
            renders,
            other,
        ),
        set_render_in(renders, key, render).dom() == renders.dom(),
        set_render_in(set_render_in(renders, key, render), key, render) == set_render_in(
            renders,
            key,
            render,
        ),
{
    assert(set_render_in(renders, key, render).dom() =~= renders.dom());
    assert(set_render_in(set_render_in(renders, key, render), key, render) =~= set_render_in(
        renders,
        key,
        render,
    ));
}

/// Reading the regenerate flag back gives what was set; no other stroke and no render flag
/// changes, and the strokes that support rendering stay the same.
pub proof fn lemma_set_regenerate_flag_then_read<I, N>(
    renders: Map<StrokeKey, RenderComponentView<I, N>>,
    key: StrokeKey,
    flag: bool,
    other: StrokeKey,
)
    ensures
        regenerate_flag_of(set_regenerate_flag_in(renders, key, flag), key) == (
        if renders.contains_key(key) {
            Some(flag)
        } else {
            None
        }),
        other != key ==> regenerate_flag_of(set_regenerate_flag_in(renders, key, flag), other)
            == regenerate_flag_of(renders, other),
        render_of(set_regenerate_flag_in(renders, key, flag), other) == render_of(renders, other),
        set_regenerate_flag_in(renders, key, flag).dom() == renders.dom(),
{
    assert(set_regenerate_flag_in(renders, key, flag).dom() =~= renders.dom());
}

/// After resetting, every stroke that supports rendering waits for a regeneration; the render
/// flags stay, and resetting twice is resetting once.
pub proof fn lemma_reset_regenerate_flags<I, N>(
    renders: Map<StrokeKey, RenderComponentView<I, N>>,
    key: StrokeKey,
)
    ensures
        regenerate_flag_of(reset_regenerate_flags(renders), key) == (if renders.contains_key(key) {
            Some(true)
        } else {
            None
        }),
        render_of(reset_regenerate_flags(renders), key) == render_of(renders, key),
        reset_regenerate_flags(renders).dom() == renders.dom(),
        reset_regenerate_flags(reset_regenerate_flags(renders)) == reset_regenerate_flags(renders),
{
    assert(reset_regenerate_flags(renders).dom() =~= renders.dom());
    assert(reset_regenerate_flags(reset_regenerate_flags(renders)) =~= reset_regenerate_flags(
        renders,
    ));
}

/// A rendering that failed changes nothing.
pub proof fn lemma_failed_rendering_changes_nothing<I, N>(
    renders: Map<StrokeKey, RenderComponentView<I, N>>,
    strokes: Map<StrokeKey, StrokeKind>,
    key: StrokeKey,
    images: Seq<I>,
)
    ensures
        after_full_rendering(renders, strokes, key, None) == renders,
        after_images_rendering(renders, key, images, None) == renders,
        after_appended_images(renders, key, images, None) == renders,
{
}

/// A successful rendering of a stroke that supports rendering replaces its images and render
/// node, clears its regenerate flag and keeps its render flag.
pub proof fn lemma_successful_rendering<I, N>(
    renders: Map<StrokeKey, RenderComponentView<I, N>>,
    strokes: Map<StrokeKey, StrokeKind>,
    key: StrokeKey,
    image: I,
    rendernode: N,
)
    requires
        strokes.contains_key(key),
        renders.contains_key(key),
    ensures
        ({
            let after = after_full_rendering(renders, strokes, key, Some((image, rendernode)));
            &&& regenerate_flag_of(after, key) == Some(false)
            &&& render_of(after, key) == render_of(renders, key)
            &&& after[key].images == seq![image]
            &&& after[key].rendernode == rendernode
        }),
{
}

/// Appending images keeps the earlier ones in front of them.
pub proof fn lemma_appended_images<I, N>(
    renders: Map<StrokeKey, RenderComponentView<I, N>>,
    key: StrokeKey,
    images: Seq<I>,
    rendernode: N,
)
    requires
        renders.contains_key(key),
    ensures
        ({
            let after = after_appended_images(renders, key, images, Some(rendernode));
            &&& after[key].images == renders[key].images + images
            &&& after[key].images.len() == renders[key].images.len() + images.len()
            &&& regenerate_flag_of(after, key) == Some(false)
            &&& render_of(after, key) == render_of(renders, key)
        }),
{
}

/// No rendering step changes which strokes support rendering, nor any render flag.
pub proof fn lemma_rendering_keeps_render_flags<I, N>(
    renders: Map<StrokeKey, RenderComponentView<I, N>>,
    strokes: Map<StrokeKey, StrokeKind>,
    key: StrokeKey,
    rendering: Option<(I, N)>,
    images: Seq<I>,
    rendernode: Option<N>,
    has_tasks_tx: bool,
    other: StrokeKey,
)
    ensures
        after_full_rendering(renders, strokes, key, rendering).dom() == renders.dom(),
        render_of(after_full_rendering(renders, strokes, key, rendering), other) == render_of(
            renders,
            other,
        ),
        after_images_rendering(renders, key, images, rendernode).dom() == renders.dom(),
        render_of(after_images_rendering(renders, key, images, rendernode), other) == render_of(
            renders,
            other,
        ),
        after_appended_images(renders, key, images, rendernode).dom() == renders.dom(),
        render_of(after_appended_images(renders, key, images, rendernode), other) == render_of(
            renders,
            other,
        ),
        after_dispatch(renders, strokes, key, has_tasks_tx).dom() == renders.dom(),
        render_of(after_dispatch(renders, strokes, key, has_tasks_tx), other) == render_of(
            renders,
            other,
        ),
{
    assert(after_full_rendering(renders, strokes, key, rendering).dom() =~= renders.dom());
    assert(after_images_rendering(renders, key, images, rendernode).dom() =~= renders.dom());
    assert(after_appended_images(renders, key, images, rendernode).dom() =~= renders.dom());
    assert(after_dispatch(renders, strokes, key, has_tasks_tx).dom() =~= renders.dom());
}

/// Rendering on a worker and taking its images afterwards ends where rendering at once ends.
pub proof fn lemma_threaded_rendering_matches_direct<I, N>(
    renders: Map<StrokeKey, RenderComponentView<I, N>>,
    strokes: Map<StrokeKey, StrokeKind>,
    key: StrokeKey,
    image: I,
    rendernode: Option<N>,
)
    requires
        dispatch_ready(renders, strokes, key, true),
    ensures
        after_images_rendering(after_dispatch(renders, strokes, key, true), key, seq![image], rendernode)
            == (match rendernode {
            Some(node) => after_full_rendering(renders, strokes, key, Some((image, node))),
            None => set_regenerate_flag_in(renders, key, false),
        }),
{
    let dispatched = after_dispatch(renders, strokes, key, true);
    match rendernode {
        Some(node) => {
            assert(after_images_rendering(dispatched, key, seq![image], rendernode) =~= after_full_rendering(
                renders,
                strokes,
                key,
                Some((image, node)),
            ));
        },
        None => {},
    }
}

/// Appending the newest elements on a worker (the flag is set while it runs) and taking its
/// images afterwards ends where appending at once ends.
pub proof fn lemma_threaded_append_matches_direct<I, N>(
    renders: Map<StrokeKey, RenderComponentView<I, N>>,
    key: StrokeKey,
    images: Seq<I>,
    rendernode: N,
)
    ensures
        after_appended_images(
            set_regenerate_flag_in(renders, key, true),
            key,
            images,
            Some(rendernode),
        ) == after_appended_images(renders, key, images, Some(rendernode)),
{
    assert(after_appended_images(
        set_regenerate_flag_in(renders, key, true),
        key,
        images,
        Some(rendernode),
    ) =~= after_appended_images(renders, key, images, Some(rendernode)));
}

/// Taking the outcomes for a list of strokes touches only those strokes and keeps every render
/// flag and which strokes support rendering.
pub proof fn lemma_renderings_touch_only_their_strokes<I, N>(
    renders: Map<StrokeKey, RenderComponentView<I, N>>,
    strokes: Map<StrokeKey, StrokeKind>,
    keys: Seq<StrokeKey>,
    renderings: Seq<Option<(I, N)>>,
    other: StrokeKey,
)
    ensures
        after_full_renderings(renders, strokes, keys, renderings).dom() == renders.dom(),
        render_of(after_full_renderings(renders, strokes, keys, renderings), other) == render_of(
            renders,
            other,
        ),
        !keys.contains(other) && renders.contains_key(other) ==> after_full_renderings(
            renders,
            strokes,
            keys,
            renderings,
        )[other] == renders[other],
    decreases keys.len(),
{
    if keys.len() > 0 && renderings.len() > 0 {
        let next = after_full_rendering(renders, strokes, keys[0], renderings[0]);
        lemma_renderings_touch_only_their_strokes(
            next,
            strokes,
            keys.drop_first(),
            renderings.drop_first(),
            other,
        );
        assert(next.dom() =~= renders.dom());
        if !keys.contains(other) {
            assert(keys[0] != other) by {
                assert(keys.contains(keys[0]));
            }
            assert(!keys.drop_first().contains(other)) by {
                if keys.drop_first().contains(other) {
                    let j = choose|j: int|
                        0 <= j < keys.drop_first().len() && keys.drop_first()[j] == other;
                    assert(keys[j + 1] == other);
                }
            }
        }
    }
}

/// Handing a list of strokes to workers clears the regenerate flag of every one of them that
/// was ready, and changes nothing else.
pub proof fn lemma_dispatches<I, N>(
    renders: Map<StrokeKey, RenderComponentView<I, N>>,
    strokes: Map<StrokeKey, StrokeKind>,
    keys: Seq<StrokeKey>,
    has_tasks_tx: bool,
    other: StrokeKey,
)
    ensures
        after_dispatches(renders, strokes, keys, has_tasks_tx).dom() == renders.dom(),
        renders.contains_key(other) ==> after_dispatches(renders, strokes, keys, has_tasks_tx)[other]
            == (RenderComponentView {
            regenerate_flag: if keys.contains(other) && dispatch_ready(
                renders,
                strokes,
                other,
                has_tasks_tx,
            ) {
                false
            } else {
                renders[other].regenerate_flag
            },
            ..renders[other]
        }),
    decreases keys.len(),
{
    if keys.len() > 0 {
        let next = after_dispatch(renders, strokes, keys[0], has_tasks_tx);
        lemma_dispatches(next, strokes, keys.drop_first(), has_tasks_tx, other);
        assert(next.dom() =~= renders.dom());
        assert(keys.contains(other) <==> (keys[0] == other || keys.drop_first().contains(other))) by {
            if keys.contains(other) && keys[0] != other {
                let j = choose|j: int| 0 <= j < keys.len() && keys[j] == other;
                assert(keys.drop_first()[j - 1] == other);
            }
            if keys.drop_first().contains(other) {
                let j = choose|j: int|
                    0 <= j < keys.drop_first().len() && keys.drop_first()[j] == other;
                assert(keys[j + 1] == other);
            }
            if keys[0] == other {
                assert(keys.contains(keys[0]));
            }
        }
    }
}

/// The plan for new elements names the last four elements, in order, and only for marker and
/// brush strokes; the other kinds are rendered whole.
pub proof fn lemma_new_elem_plan(kind: StrokeKind, elements_len: usize)
    ensures
        match new_elem_plan(kind, elements_len) {
            NewElemRendering::LastElements(a, b, c, d) => {
                &&& kind.spec_renders_new_elems()
                &&& a + 1 == b && b + 1 == c && c + 1 == d
                &&& d + 1 == elements_len
            },
            NewElemRendering::TooFewElements => kind.spec_renders_new_elems() && elements_len < 4,
            NewElemRendering::Full => !kind.spec_renders_new_elems(),
        },
{
}

/// The newest stroke has the largest chrono timestamp, and there is none only without chrono
/// components.
pub proof fn lemma_last_stroke_key_is_newest<I, N>(state: &StrokesState<I, N>)
    requires
        state.wf(),
    ensures
        match state.spec_last_stroke_key() {
            Some(key) => {
                &&& state.chrono_map().contains_key(key)
                &&& forall|k: StrokeKey| #[trigger]
                    state.chrono_map().contains_key(k) ==> state.chrono_map()[k].t
                        <= state.chrono_map()[key].t
            },
            None => state.chrono_map().dom() == Set::<StrokeKey>::empty(),
        },
{
    state.lemma_keys_chrono_order();
    let order = state.keys_chrono();
    let chrono = state.chrono_map();
    if order.len() == 0 {
        assert(chrono.dom() =~= Set::<StrokeKey>::empty()) by {
            assert forall|k: StrokeKey| !chrono.contains_key(k) by {
                if chrono.contains_key(k) {
                    assert(order.contains(k));
                }
            }
        }
    } else {
        let key = order.last();
        assert(order.contains(key)) by {
            assert(order[order.len() - 1] == key);
        }
        assert forall|k: StrokeKey| #[trigger] chrono.contains_key(k) implies chrono[k].t
            <= chrono[key].t by {
            assert(order.contains(k));
            let j = choose|j: int| 0 <= j < order.len() && order[j] == k;
            if j < order.len() - 1 {
                assert(chrono[order[j]].t < chrono[order[order.len() - 1]].t);
            }
        }
    }
}

/// The selection keys are exactly the selected strokes with a chrono component.
pub proof fn lemma_selection_keys_are_selected<I, N>(state: &StrokesState<I, N>, key: StrokeKey)
    requires
        state.wf(),
    ensures
        state.spec_selection_keys().contains(key) <==> (state.chrono_map().contains_key(key)
            && state.spec_selected(key) == Some(true)),
        state.spec_selection_keys().no_duplicates(),
{
    state.lemma_keys_chrono_order();
    let order = state.keys_chrono();
    let pred = |k: StrokeKey| state.spec_selected(k) == Some(true);
    if state.spec_selection_keys().contains(key) {
        let j = choose|j: int|
            0 <= j < state.spec_selection_keys().len() && state.spec_selection_keys()[j] == key;
        assert(pred(state.spec_selection_keys()[j]));
        order.lemma_filter_contains_rev(pred, key);
    }
    if state.chrono_map().contains_key(key) && state.spec_selected(key) == Some(true) {
        assert(order.contains(key));
        let j = choose|j: int| 0 <= j < order.len() && order[j] == key;
        assert(order.filter(pred).contains(order[j]));
    }
    lemma_filter_no_duplicates(order, pred);
}

/// Filtering keeps a sequence free of duplicates.
pub proof fn lemma_filter_no_duplicates<A>(s: Seq<A>, pred: spec_fn(A) -> bool)
    requires
        s.no_duplicates(),
    ensures
        s.filter(pred).no_duplicates(),
    decreases s.len(),
{
    reveal(Seq::filter);
    if s.len() > 0 {
        let rest = s.drop_last();
        assert(rest.no_duplicates()) by {
            assert forall|i: int, j: int|
                0 <= i < rest.len() && 0 <= j < rest.len() && i != j implies rest[i] != rest[j] by {
                assert(s[i] != s[j]);
            }
        }
        lemma_filter_no_duplicates(rest, pred);
        if pred(s.last()) {
            let f = rest.filter(pred);
            assert(!f.contains(s.last())) by {
                if f.contains(s.last()) {
                    rest.lemma_filter_contains_rev(pred, s.last());
                    let j = choose|j: int| 0 <= j < rest.len() && rest[j] == s.last();
                    assert(s[j] == s[s.len() - 1]);
                }
            }
            assert forall|i: int, j: int|
                0 <= i < f.push(s.last()).len() && 0 <= j < f.push(s.last()).len() && i != j implies f.push(
                s.last(),
            )[i] != f.push(s.last())[j] by {
                if i < f.len() && j < f.len() {
                } else if i < f.len() {
                    assert(f.contains(f[i]));
                } else if j < f.len() {
                    assert(f.contains(f[j]));
                }
            }
        }
    }
}

/// The ordinary drawing pass and the selection pass never draw the same stroke, and neither
/// draws a trashed stroke or one whose rendering is disabled.
pub proof fn lemma_draw_passes_disjoint<I, N>(state: &StrokesState<I, N>)
    requires
        state.wf(),
    ensures
        ({
            let unselected = state.keys_chrono().filter(|k: StrokeKey| state.drawn_unselected(k));
            let selected = state.keys_chrono().filter(|k: StrokeKey| state.drawn_selected(k));
            &&& forall|i: int, j: int|
                0 <= i < unselected.len() && 0 <= j < selected.len() ==> unselected[i]
                    != selected[j]
            &&& forall|i: int|
                0 <= i < unselected.len() ==> state.spec_trashed(#[trigger] unselected[i]) != Some(
                    true,
                )
            &&& forall|i: int|
                0 <= i < selected.len() ==> state.spec_trashed(#[trigger] selected[i]) != Some(true)
            &&& forall|i: int|
                0 <= i < unselected.len() ==> render_of(state.render_map(), #[trigger] unselected[i])
                    == Some(true)
            &&& forall|i: int|
                0 <= i < selected.len() ==> render_of(state.render_map(), #[trigger] selected[i])
                    == Some(true)
        }),
{
    let p1 = |k: StrokeKey| state.drawn_unselected(k);
    let p2 = |k: StrokeKey| state.drawn_selected(k);
    let unselected = state.keys_chrono().filter(p1);
    let selected = state.keys_chrono().filter(p2);
    assert forall|i: int, j: int|
        0 <= i < unselected.len() && 0 <= j < selected.len() implies unselected[i] != selected[j] by {
        assert(p1(unselected[i]));
        assert(p2(selected[j]));
    }
    assert forall|i: int| 0 <= i < unselected.len() implies state.spec_trashed(
        #[trigger] unselected[i],
    ) != Some(true) by {
        assert(p1(unselected[i]));
    }
    assert forall|i: int| 0 <= i < selected.len() implies state.spec_trashed(#[trigger] selected[i])
        != Some(true) by {
        assert(p2(selected[i]));
    }
    assert forall|i: int| 0 <= i < unselected.len() implies render_of(
        state.render_map(),
        #[trigger] unselected[i],
    ) == Some(true) by {
        assert(p1(unselected[i]));
    }
    assert forall|i: int| 0 <= i < selected.len() implies render_of(
        state.render_map(),
        #[trigger] selected[i],
    ) == Some(true) by {
        assert(p2(selected[i]));
    }
}

/// Replacing the render node keeps the images and both flags of every stroke.
pub proof fn lemma_update_rendernode_keeps_rendering<I, N>(
    renders: Map<StrokeKey, RenderComponentView<I, N>>,
    key: StrokeKey,
    rendernode: N,
    other: StrokeKey,
)
    ensures
        set_rendernode_in(renders, key, rendernode).dom() == renders.dom(),
        render_of(set_rendernode_in(renders, key, rendernode), other) == render_of(renders, other),
        regenerate_flag_of(set_rendernode_in(renders, key, rendernode), other) == regenerate_flag_of(
            renders,
            other,
        ),
        renders.contains_key(other) ==> set_rendernode_in(renders, key, rendernode)[other].images
            == renders[other].images,
        renders.contains_key(key) ==> set_rendernode_in(renders, key, rendernode)[key].rendernode
            == rendernode,
{
    assert(set_rendernode_in(renders, key, rendernode).dom() =~= renders.dom());
}

/// Filtering a sequence of strokes that is ordered by chrono timestamps keeps it ordered.
pub proof fn lemma_filter_keeps_chrono_order(
    s: Seq<StrokeKey>,
    chrono: Map<StrokeKey, ChronoComponent>,
    pred: spec_fn(StrokeKey) -> bool,
)
    requires
        forall|i: int| 0 <= i < s.len() ==> chrono.contains_key(#[trigger] s[i]),
        forall|i: int, j: int|
            0 <= i < j < s.len() ==> chrono[#[trigger] s[i]].t < chrono[#[trigger] s[j]].t,
    ensures
        forall|i: int|
            0 <= i < s.filter(pred).len() ==> chrono.contains_key(#[trigger] s.filter(pred)[i]),
        forall|i: int, j: int|
            0 <= i < j < s.filter(pred).len() ==> chrono[#[trigger] s.filter(pred)[i]].t
                < chrono[#[trigger] s.filter(pred)[j]].t,
    decreases s.len(),
{
    reveal(Seq::filter);
    if s.len() > 0 {
        let rest = s.drop_last();
        lemma_filter_keeps_chrono_order(rest, chrono, pred);
        let f = rest.filter(pred);
        if pred(s.last()) {
            assert forall|i: int| 0 <= i < f.len() implies chrono[f[i]].t < chrono[s.last()].t by {
                assert(rest.filter(pred).contains(f[i]));
                rest.lemma_filter_contains_rev(pred, f[i]);
                let j = choose|j: int| 0 <= j < rest.len() && rest[j] == f[i];
                assert(chrono[s[j]].t < chrono[s[s.len() - 1]].t);
            }
            assert(s.filter(pred) == f.push(s.last()));
            assert forall|i: int, j: int| 0 <= i < j < f.push(s.last()).len() implies chrono[
                #[trigger] f.push(s.last())[i]].t < chrono[#[trigger] f.push(s.last())[j]].t by {
                if j < f.len() {
                    assert(chrono[f[i]].t < chrono[f[j]].t);
                }
            }
        }
    }
}

/// The newest selected stroke is selected and newer than every other selected stroke, and
/// there is none only when no stroke with a chrono component is selected.
pub proof fn lemma_last_selection_key_is_newest_selected<I, N>(state: &StrokesState<I, N>)
    requires
        state.wf(),
    ensures
        match state.spec_last_selection_key() {
            Some(key) => {
                &&& state.chrono_map().contains_key(key)
                &&& state.spec_selected(key) == Some(true)
                &&& forall|k: StrokeKey|
                    #![trigger state.chrono_map()[k]]
                    state.chrono_map().contains_key(k) && state.spec_selected(k) == Some(true)
                        ==> state.chrono_map()[k].t <= state.chrono_map()[key].t
            },
            None => forall|k: StrokeKey|
                #![trigger state.chrono_map()[k]]
                state.chrono_map().contains_key(k) ==> state.spec_selected(k) != Some(true),
        },
{
    state.lemma_keys_chrono_order();
    let order = state.keys_chrono();
    let chrono = state.chrono_map();
    let pred = |k: StrokeKey| state.spec_selected(k) == Some(true);
    let sel = state.spec_selection_keys();
    assert forall|i: int| 0 <= i < order.len() implies chrono.contains_key(#[trigger] order[i]) by {
        assert(order.contains(order[i]));
    }
    lemma_filter_keeps_chrono_order(order, chrono, pred);
    assert forall|k: StrokeKey|
        chrono.contains_key(k) && state.spec_selected(k) == Some(true) implies sel.contains(k) by {
        lemma_selection_keys_are_selected(state, k);
    }
    if sel.len() > 0 {
        let key = sel.last();
        lemma_selection_keys_are_selected(state, key);
        assert(sel.contains(key)) by {
            assert(sel[sel.len() - 1] == key);
        }
        assert forall|k: StrokeKey|
            #![trigger chrono[k]]
            chrono.contains_key(k) && state.spec_selected(k) == Some(true) implies chrono[k].t
            <= chrono[key].t by {
            assert(sel.contains(k));
            let j = choose|j: int| 0 <= j < sel.len() && sel[j] == k;
            if j < sel.len() - 1 {
                assert(chrono[sel[j]].t < chrono[sel[sel.len() - 1]].t);
            }
        }
    } else {
        assert forall|k: StrokeKey|
            #![trigger chrono[k]]
            chrono.contains_key(k) implies state.spec_selected(k) != Some(true) by {
            if state.spec_selected(k) == Some(true) {
                assert(sel.contains(k));
            }
        }
    }
}

/// With a channel for the results, a rendering is handed to a worker for every stroke that
/// exists and has a render component, whether its rendering is enabled or not; the worker
/// takes over the pending regeneration (the flag is cleared) and nothing else changes. Without
/// a channel nothing is handed out.
pub proof fn lemma_dispatch_every_renderable_stroke<I, N>(
    renders: Map<StrokeKey, RenderComponentView<I, N>>,
    strokes: Map<StrokeKey, StrokeKind>,
    key: StrokeKey,
)
    ensures
        dispatch_ready(renders, strokes, key, true) <==> (strokes.contains_key(key)
            && renders.contains_key(key)),
        !dispatch_ready(renders, strokes, key, false),
        after_dispatch(renders, strokes, key, false) == renders,
        strokes.contains_key(key) && renders.contains_key(key) ==> after_dispatch(
            renders,
            strokes,
            key,
            true,
        ) == renders.insert(
            key,
            RenderComponentView {
                render: renders[key].render,
                regenerate_flag: false,
                images: renders[key].images,
                rendernode: renders[key].rendernode,
            },
        ),
        !(strokes.contains_key(key) && renders.contains_key(key)) ==> after_dispatch(
            renders,
            strokes,
            key,
            true,
        ) == renders,
{
    if strokes.contains_key(key) && renders.contains_key(key) {
        assert(after_dispatch(renders, strokes, key, true) =~= renders.insert(
            key,
            RenderComponentView {
                render: renders[key].render,
                regenerate_flag: false,
                images: renders[key].images,
                rendernode: renders[key].rendernode,
            },
        ));
    }
}

/// Handing a list of strokes to workers with a channel clears the regenerate flag of exactly
/// those listed strokes that exist and have a render component, whatever their render flag;
/// everything else of every component stays.
pub proof fn lemma_dispatches_every_listed_stroke<I, N>(
    renders: Map<StrokeKey, RenderComponentView<I, N>>,
    strokes: Map<StrokeKey, StrokeKind>,
    keys: Seq<StrokeKey>,
    other: StrokeKey,
)
    ensures
        after_dispatches(renders, strokes, keys, true).dom() == renders.dom(),
        renders.contains_key(other) ==> after_dispatches(renders, strokes, keys, true)[other]
            == (RenderComponentView {
            render: renders[other].render,
            regenerate_flag: if keys.contains(other) && strokes.contains_key(other) {
                false
            } else {
                renders[other].regenerate_flag
            },
            images: renders[other].images,
            rendernode: renders[other].rendernode,
        }),
{
    lemma_dispatches(renders, strokes, keys, true, other);
}

/// Each stroke of a list is handled by its own outcome alone: the component of `keys[i]`
/// afterwards holds the image and render node of `renderings[i]` when that outcome is a
/// success and the stroke exists, and is unchanged otherwise, whatever the other outcomes are
/// (a failed outcome does not stop the strokes after it).
pub proof fn lemma_renderings_each_by_own_outcome<I, N>(
    renders: Map<StrokeKey, RenderComponentView<I, N>>,
    strokes: Map<StrokeKey, StrokeKind>,
    keys: Seq<StrokeKey>,
    renderings: Seq<Option<(I, N)>>,
    i: int,
)
    requires
        keys.no_duplicates(),
        0 <= i < keys.len(),
        i < renderings.len(),
        renders.contains_key(keys[i]),
    ensures
        after_full_renderings(renders, strokes, keys, renderings).contains_key(keys[i]),
        after_full_renderings(renders, strokes, keys, renderings)[keys[i]] == (
        if strokes.contains_key(keys[i]) && renderings[i] is Some {
            RenderComponentView {
                render: renders[keys[i]].render,
                regenerate_flag: false,
                images: seq![renderings[i].unwrap().0],
                rendernode: renderings[i].unwrap().1,
            }
        } else {
            renders[keys[i]]
        }),
    decreases i,
{
    let next = after_full_rendering(renders, strokes, keys[0], renderings[0]);
    assert(next.dom() =~= renders.dom());
    let rest = keys.drop_first();
    assert(rest.no_duplicates()) by {
        assert forall|a: int, b: int|
            0 <= a < rest.len() && 0 <= b < rest.len() && a != b implies rest[a] != rest[b] by {
            assert(keys[a + 1] != keys[b + 1]);
        }
    }
    if i == 0 {
        assert(!rest.contains(keys[0])) by {
            if rest.contains(keys[0]) {
                let j = choose|j: int| 0 <= j < rest.len() && rest[j] == keys[0];
                assert(keys[j + 1] == keys[0]);
            }
        }
        lemma_renderings_touch_only_their_strokes(
            next,
            strokes,
            rest,
            renderings.drop_first(),
            keys[0],
        );
    } else {
        assert(keys[0] != keys[i]);
        assert(rest[i - 1] == keys[i]);
        assert(renderings.drop_first()[i - 1] == renderings[i]);
        lemma_renderings_each_by_own_outcome(next, strokes, rest, renderings.drop_first(), i - 1);
    }
}

/// An element stands in a filtered sequence exactly when it stands in the sequence and passes
/// the filter.
pub proof fn lemma_filter_contains_iff<A>(s: Seq<A>, pred: spec_fn(A) -> bool, x: A)
    ensures
        s.filter(pred).contains(x) <==> (s.contains(x) && pred(x)),
{
    if s.filter(pred).contains(x) {
        s.lemma_filter_contains_rev(pred, x);
        let j = choose|j: int| 0 <= j < s.filter(pred).len() && s.filter(pred)[j] == x;
        assert(pred(s.filter(pred)[j]));
    }
    if s.contains(x) && pred(x) {
        let j = choose|j: int| 0 <= j < s.len() && s[j] == x;
        assert(s.filter(pred).contains(s[j]));
    }
}

/// The ordinary drawing pass draws every stroke with a chrono component that exists, is
/// rendered (render flag set), is not trashed and is not selected, and no other: whether its
/// rendering waits for a regeneration and what kind of stroke it is do not matter. The
/// selection pass likewise draws exactly the rendered, untrashed, selected strokes of every
/// kind.
pub proof fn lemma_draw_passes_complete<I, N>(state: &StrokesState<I, N>, k: StrokeKey)
    requires
        state.wf(),
    ensures
        state.keys_chrono().contains(k) <==> state.chrono_map().contains_key(k),
        state.keys_chrono().filter(|key: StrokeKey| state.drawn_unselected(key)).contains(k) <==> {
            &&& state.chrono_map().contains_key(k)
            &&& state.stroke_map().contains_key(k)
            &&& state.render_map().contains_key(k)
            &&& state.render_map()[k].render
            &&& !(state.trash_map().contains_key(k) && state.trash_map()[k].trashed)
            &&& !(state.selection_map().contains_key(k) && state.selection_map()[k].selected)
        },
        state.keys_chrono().filter(|key: StrokeKey| state.drawn_selected(key)).contains(k) <==> {
            &&& state.chrono_map().contains_key(k)
            &&& state.stroke_map().contains_key(k)
            &&& state.render_map().contains_key(k)
            &&& state.render_map()[k].render
            &&& !(state.trash_map().contains_key(k) && state.trash_map()[k].trashed)
            &&& state.selection_map().contains_key(k)
            &&& state.selection_map()[k].selected
        },
{
    state.lemma_keys_chrono_order();
    lemma_filter_contains_iff(
        state.keys_chrono(),
        |key: StrokeKey| state.drawn_unselected(key),
        k,
    );
    lemma_filter_contains_iff(state.keys_chrono(), |key: StrokeKey| state.drawn_selected(key), k);
}

/// Appending images installs the render node handed in, whatever images the rendering held
/// before, keeps the earlier images in front and the render flag, and clears the regenerate
/// flag.
pub proof fn lemma_append_installs_node<I, N>(
    renders: Map<StrokeKey, RenderComponentView<I, N>>,
    key: StrokeKey,
    images: Seq<I>,
    rendernode: N,
)
    requires
        renders.contains_key(key),
    ensures
        after_appended_images(renders, key, images, Some(rendernode)) == renders.insert(
            key,
            RenderComponentView {
                render: renders[key].render,
                regenerate_flag: false,
                images: renders[key].images + images,
                rendernode,
            },
        ),
{
}

/// What each single rendering step does to the render components, in terms of the
/// components alone: only the component of `key` may change; a whole rendering of an existing
/// stroke installs its one image and node, handed-in images replace the rendering, a new node
/// replaces only the node, and setting a flag changes only that flag.
pub proof fn lemma_render_steps_change_one_component<I, N>(
    renders: Map<StrokeKey, RenderComponentView<I, N>>,
    strokes: Map<StrokeKey, StrokeKind>,
    key: StrokeKey,
    image: I,
    images: Seq<I>,
    rendernode: N,
    flag: bool,
)
    ensures
        renders.contains_key(key) && strokes.contains_key(key) ==> after_full_rendering(
            renders,
            strokes,
            key,
            Some((image, rendernode)),
        ) == renders.insert(
            key,
            RenderComponentView {
                render: renders[key].render,
                regenerate_flag: false,
                images: seq![image],
                rendernode,
            },
        ),
        !(renders.contains_key(key) && strokes.contains_key(key)) ==> after_full_rendering(
            renders,
            strokes,
            key,
            Some((image, rendernode)),
        ) == renders,
        renders.contains_key(key) ==> after_images_rendering(renders, key, images, Some(rendernode))
            == renders.insert(
            key,
            RenderComponentView {
                render: renders[key].render,
                regenerate_flag: false,
                images,
                rendernode,
            },
        ),
        !renders.contains_key(key) ==> after_images_rendering(
            renders,
            key,
            images,
            Some(rendernode),
        ) == renders && after_appended_images(renders, key, images, Some(rendernode)) == renders,
        renders.contains_key(key) ==> set_rendernode_in(renders, key, rendernode) == renders.insert(
            key,
            RenderComponentView {
                render: renders[key].render,
                regenerate_flag: renders[key].regenerate_flag,
                images: renders[key].images,
                rendernode,
            },
        ),
        renders.contains_key(key) ==> set_render_in(renders, key, flag) == renders.insert(
            key,
            RenderComponentView {
                render: flag,
                regenerate_flag: renders[key].regenerate_flag,
                images: renders[key].images,
                rendernode: renders[key].rendernode,
            },
        ),
        renders.contains_key(key) ==> set_regenerate_flag_in(renders, key, flag) == renders.insert(
            key,
            RenderComponentView {
                render: renders[key].render,
                regenerate_flag: flag,
                images: renders[key].images,
                rendernode: renders[key].rendernode,
            },
        ),
        !renders.contains_key(key) ==> set_rendernode_in(renders, key, rendernode) == renders
            && set_render_in(renders, key, flag) == renders && set_regenerate_flag_in(
            renders,
            key,
            flag,
        ) == renders,
        forall|k: StrokeKey| #[trigger]
            renders.contains_key(k) ==> reset_regenerate_flags(renders)[k] == (RenderComponentView {
                render: renders[k].render,
                regenerate_flag: true,
                images: renders[k].images,
                rendernode: renders[k].rendernode,
            }),
{
    assert(reset_regenerate_flags(renders).dom() =~= renders.dom());
}

} // verus!
