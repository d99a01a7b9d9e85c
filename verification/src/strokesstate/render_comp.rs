use vstd::prelude::*;

use super::{StrokeKey, StrokesState};
use super::properties::{
    lemma_append_installs_node, lemma_dispatch_every_renderable_stroke, lemma_dispatches,
    lemma_filter_contains_iff, lemma_renderings_each_by_own_outcome,
    lemma_selection_keys_are_selected,
};
use crate::strokes::strokestyle::StrokeKind;

verus! {

/// How a stroke is rendered: whether it is shown at all, whether its rendering is out of date
/// and waits to be regenerated, the images of its rendering, and the render node that displays
/// them.
pub struct RenderComponent<I, N> {
    pub render: bool,
    pub regenerate_flag: bool,
    pub images: Vec<I>,
    pub rendernode: N,
}

/// A render component seen as values: the images as a sequence.
pub struct RenderComponentView<I, N> {
    pub render: bool,
    pub regenerate_flag: bool,
    pub images: Seq<I>,
    pub rendernode: N,
}

impl<I, N> View for RenderComponent<I, N> {
    type V = RenderComponentView<I, N>;

    open spec fn view(&self) -> RenderComponentView<I, N> {
        RenderComponentView {
            render: self.render,
            regenerate_flag: self.regenerate_flag,
            images: self.images@,
            rendernode: self.rendernode,
        }
    }
}

impl<I, N> RenderComponent<I, N> {
    /// A fresh render component: shown, waiting for its first rendering, without images, and
    /// displaying `rendernode` (the default render node of the drawing layer) until then.
    pub fn new(rendernode: N) -> (comp: Self)
        ensures
            comp@ == (RenderComponentView {
                render: true,
                regenerate_flag: true,
                images: Seq::<I>::empty(),
                rendernode,
            }),
    {
        RenderComponent { render: true, regenerate_flag: true, images: Vec::new(), rendernode }
    }
}

/// `Some(render)` of the render component of `key`, `None` without one.
pub open spec fn render_of<I, N>(
    renders: Map<StrokeKey, RenderComponentView<I, N>>,
    key: StrokeKey,
) -> Option<bool> {
    if renders.contains_key(key) {
        Some(renders[key].render)
    } else {
        None
    }
}

/// `Some(regenerate_flag)` of the render component of `key`, `None` without one.
pub open spec fn regenerate_flag_of<I, N>(
    renders: Map<StrokeKey, RenderComponentView<I, N>>,
    key: StrokeKey,
) -> Option<bool> {
    if renders.contains_key(key) {
        Some(renders[key].regenerate_flag)
    } else {
        None
    }
}

/// The render components after the `render` flag of `key` was set.
pub open spec fn set_render_in<I, N>(
    renders: Map<StrokeKey, RenderComponentView<I, N>>,
    key: StrokeKey,
    render: bool,
) -> Map<StrokeKey, RenderComponentView<I, N>> {
    if renders.contains_key(key) {
        renders.insert(key, RenderComponentView { render, ..renders[key] })
    } else {
        renders
    }
}

/// The render components after the `regenerate_flag` of `key` was set.
pub open spec fn set_regenerate_flag_in<I, N>(
    renders: Map<StrokeKey, RenderComponentView<I, N>>,
    key: StrokeKey,
    regenerate_flag: bool,
) -> Map<StrokeKey, RenderComponentView<I, N>> {
    if renders.contains_key(key) {
        renders.insert(key, RenderComponentView { regenerate_flag, ..renders[key] })
    } else {
        renders
    }
}

/// The render components with every `regenerate_flag` set.
pub open spec fn reset_regenerate_flags<I, N>(
    renders: Map<StrokeKey, RenderComponentView<I, N>>,
) -> Map<StrokeKey, RenderComponentView<I, N>> {
    renders.map_values(
        |c: RenderComponentView<I, N>| RenderComponentView { regenerate_flag: true, ..c },
    )
}

/// The render node of `key` replaced, everything else of the component kept.
pub open spec fn set_rendernode_in<I, N>(
    renders: Map<StrokeKey, RenderComponentView<I, N>>,
    key: StrokeKey,
    rendernode: N,
) -> Map<StrokeKey, RenderComponentView<I, N>> {
    if renders.contains_key(key) {
        renders.insert(key, RenderComponentView { rendernode, ..renders[key] })
    } else {
        renders
    }
}

/// A component whose rendering was regenerated: it now holds `images`, displayed by
/// `rendernode`, and no longer waits for a regeneration.
pub open spec fn installed<I, N>(
    comp: RenderComponentView<I, N>,
    images: Seq<I>,
    rendernode: N,
) -> RenderComponentView<I, N> {
    RenderComponentView { render: comp.render, regenerate_flag: false, images, rendernode }
}

/// The render components after the outcome of rendering stroke `key` whole was handed in:
/// `Some((image, rendernode))` on success, `None` when the rendering failed. The outcome is
/// taken only for a stroke that exists and has a render component.
pub open spec fn after_full_rendering<I, N>(
    renders: Map<StrokeKey, RenderComponentView<I, N>>,
    strokes: Map<StrokeKey, StrokeKind>,
    key: StrokeKey,
    rendering: Option<(I, N)>,
) -> Map<StrokeKey, RenderComponentView<I, N>> {
    if strokes.contains_key(key) && renders.contains_key(key) && rendering is Some {
        renders.insert(
            key,
            installed(renders[key], seq![rendering.unwrap().0], rendering.unwrap().1),
        )
    } else {
        renders
    }
}

/// The render components after the outcomes `renderings[i]` of rendering the strokes
/// `keys[i]` were handed in, one after the other (as far as both sequences reach).
pub open spec fn after_full_renderings<I, N>(
    renders: Map<StrokeKey, RenderComponentView<I, N>>,
    strokes: Map<StrokeKey, StrokeKind>,
    keys: Seq<StrokeKey>,
    renderings: Seq<Option<(I, N)>>,
) -> Map<StrokeKey, RenderComponentView<I, N>>
    decreases keys.len(),
{
    if keys.len() == 0 || renderings.len() == 0 {
        renders
    } else {
        after_full_renderings(
            after_full_rendering(renders, strokes, keys[0], renderings[0]),
            strokes,
            keys.drop_first(),
            renderings.drop_first(),
        )
    }
}

/// A rendering of stroke `key` can be handed to a worker: there is a channel for the results,
/// and the stroke exists and has a render component.
pub open spec fn dispatch_ready<I, N>(
    renders: Map<StrokeKey, RenderComponentView<I, N>>,
    strokes: Map<StrokeKey, StrokeKind>,
    key: StrokeKey,
    has_tasks_tx: bool,
) -> bool {
    has_tasks_tx && strokes.contains_key(key) && renders.contains_key(key)
}

/// The render components after a rendering of `key` was handed to a worker: the pending
/// regeneration is taken over by the worker, so the flag is cleared.
pub open spec fn after_dispatch<I, N>(
    renders: Map<StrokeKey, RenderComponentView<I, N>>,
    strokes: Map<StrokeKey, StrokeKind>,
    key: StrokeKey,
    has_tasks_tx: bool,
) -> Map<StrokeKey, RenderComponentView<I, N>> {
    if dispatch_ready(renders, strokes, key, has_tasks_tx) {
        set_regenerate_flag_in(renders, key, false)
    } else {
        renders
    }
}

/// The render components after the renderings of all `keys` were handed to workers, one
/// after the other.
pub open spec fn after_dispatches<I, N>(
    renders: Map<StrokeKey, RenderComponentView<I, N>>,
    strokes: Map<StrokeKey, StrokeKind>,
    keys: Seq<StrokeKey>,
    has_tasks_tx: bool,
) -> Map<StrokeKey, RenderComponentView<I, N>>
    decreases keys.len(),
{
    if keys.len() == 0 {
        renders
    } else {
        after_dispatches(
            after_dispatch(renders, strokes, keys[0], has_tasks_tx),
            strokes,
            keys.drop_first(),
            has_tasks_tx,
        )
    }
}

/// The render components after `images` and the render node made from them
/// (`None` when that failed) were handed in for `key`: they replace its rendering.
pub open spec fn after_images_rendering<I, N>(
    renders: Map<StrokeKey, RenderComponentView<I, N>>,
    key: StrokeKey,
    images: Seq<I>,
    rendernode: Option<N>,
) -> Map<StrokeKey, RenderComponentView<I, N>> {
    if renders.contains_key(key) && rendernode is Some {
        renders.insert(key, installed(renders[key], images, rendernode.unwrap()))
    } else {
        renders
    }
}

/// The render components after `images` and the render node that shows the old rendering
/// together with them (`None` when making it failed) were handed in for `key`: the images are
/// appended to those of the rendering.
pub open spec fn after_appended_images<I, N>(
    renders: Map<StrokeKey, RenderComponentView<I, N>>,
    key: StrokeKey,
    images: Seq<I>,
    rendernode: Option<N>,
) -> Map<StrokeKey, RenderComponentView<I, N>> {
    if renders.contains_key(key) && rendernode is Some {
        renders.insert(
            key,
            installed(renders[key], renders[key].images + images, rendernode.unwrap()),
        )
    } else {
        renders
    }
}

/// How the rendering of a stroke catches up with the elements appended to it last.
#[derive(Clone, Copy, Debug, PartialEq, Eq, Structural)]
pub enum NewElemRendering {
    /// Render the segment made of the elements at these four indices (the last four of the
    /// stroke) and append its image to the rendering.
    LastElements(usize, usize, usize, usize),
    /// The stroke has fewer than four elements: there is no segment to render yet.
    TooFewElements,
    /// The stroke cannot render its newest elements alone: regenerate its whole rendering.
    Full,
}

/// The new-element rendering of a stroke of kind `kind` with `elements_len` elements.
pub open spec fn new_elem_plan(kind: StrokeKind, elements_len: usize) -> NewElemRendering {
    if kind.spec_renders_new_elems() {
        if elements_len >= 4 {
            NewElemRendering::LastElements(
                (elements_len - 4) as usize,
                (elements_len - 3) as usize,
                (elements_len - 2) as usize,
                (elements_len - 1) as usize,
            )
        } else {
            NewElemRendering::TooFewElements
        }
    } else {
        NewElemRendering::Full
    }
}

impl NewElemRendering {
    /// Marker and brush strokes render the segment of their last four elements (when they have
    /// four); the other kinds are rendered whole.
    pub fn for_stroke(kind: StrokeKind, elements_len: usize) -> (plan: Self)
        ensures
            plan == new_elem_plan(kind, elements_len),
    {
        if kind.renders_new_elems() {
            if elements_len >= 4 {
                NewElemRendering::LastElements(
                    elements_len - 4,
                    elements_len - 3,
                    elements_len - 2,
                    elements_len - 1,
                )
            } else {
                NewElemRendering::TooFewElements
            }
        } else {
            NewElemRendering::Full
        }
    }
}

/// What the debug view draws for a stroke besides its outline.
#[derive(Clone, Copy, Debug, PartialEq, Eq, Structural)]
pub struct DebugDrawInfo {
    pub key: StrokeKey,
    /// The stroke is rendered but trashed: it is drawn blurred and faded.
    pub hidden: bool,
    /// The rendering of the stroke waits to be regenerated: its bounds are filled.
    pub regenerating: bool,
}

impl<I, N> StrokesState<I, N> {
    /// Taking a component out and putting a new one in for the same key changes the render
    /// map at that key only.
    proof fn lemma_render_replaced(&self, before: &Self, key: StrokeKey, comp: RenderComponent<I, N>)
        requires
            before.render_components@.contains_key(key),
            self.render_components@ == before.render_components@.remove(key).insert(key, comp),
        ensures
            self.render_map() == before.render_map().insert(key, comp@),
            self.render_components@.dom() == before.render_components@.dom(),
    {
        assert(self.render_components@ =~= before.render_components@.insert(key, comp));
        assert(self.render_map() =~= before.render_map().insert(key, comp@));
    }

    /// A change of the render components alone that keeps their keys keeps the invariant.
    proof fn lemma_render_update_wf(&self, before: &Self)
        requires
            before.wf(),
            self.same_but_render(before),
            self.render_components@.dom() == before.render_components@.dom(),
        ensures
            self.wf(),
    {
        assert forall|k: StrokeKey| #[trigger]
            self.render_components@.contains_key(k) implies self.strokes@.contains_key(k) by {
            assert(before.render_components@.contains_key(k));
        }
    }

    /// Nothing was taken out: the render components are unchanged.
    proof fn lemma_render_untouched(&self, before: &Self, key: StrokeKey)
        requires
            !before.render_components@.contains_key(key),
            self.render_components@ == before.render_components@.remove(key),
        ensures
            self.render_components@ == before.render_components@,
            self.render_map() == before.render_map(),
    {
        assert(self.render_components@ =~= before.render_components@);
    }

    /// Returns false if rendering is not supported: whether the stroke has a render component.
    pub fn can_render(&self, key: StrokeKey) -> (r: bool)
        ensures
            r == self.render_map().contains_key(key),
    {
        self.render_components.get(&key).is_some()
    }

    /// Whether rendering is enabled. Returns None if rendering is not supported.
    pub fn does_render(&self, key: StrokeKey) -> (r: Option<bool>)
        ensures
            r == render_of(self.render_map(), key),
    {
        match self.render_components.get(&key) {
            Some(comp) => Some(comp.render),
            None => None,
        }
    }

    /// Enables or disables rendering of a stroke; nothing happens if rendering is not supported.
    pub fn set_render(&mut self, key: StrokeKey, render: bool)
        requires
            old(self).wf(),
        ensures
            final(self).wf(),
            final(self).same_but_render(old(self)),
            final(self).render_map() == set_render_in(old(self).render_map(), key, render),
    {
        match self.render_components.remove(&key) {
            Some(mut comp) => {
                comp.render = render;
                let ghost c = comp;
                self.render_components.insert(key, comp);
                proof {
                    self.lemma_render_replaced(old(self), key, c);
                    assert(self.render_map() =~= set_render_in(old(self).render_map(), key, render));
                }
            },
            None => {
                proof {
                    self.lemma_render_untouched(old(self), key);
                }
            },
        }
        proof {
            self.lemma_render_update_wf(old(self));
        }
    }

    /// The render component of a stroke, if it has one.
    pub fn render_component(&self, key: StrokeKey) -> (comp: Option<&RenderComponent<I, N>>)
        ensures
            comp is Some <==> self.render_map().contains_key(key),
            comp is Some ==> comp.unwrap()@ == self.render_map()[key],
    {
        self.render_components.get(&key)
    }

    /// Whether the rendering of a stroke waits to be regenerated. Returns None if rendering is
    /// not supported.
    pub fn regenerate_flag(&self, key: StrokeKey) -> (r: Option<bool>)
        ensures
            r == regenerate_flag_of(self.render_map(), key),
    {
        match self.render_components.get(&key) {
            Some(comp) => Some(comp.regenerate_flag),
            None => None,
        }
    }

    /// Marks the rendering of a stroke as out of date or as up to date; nothing happens if
    /// rendering is not supported.
    pub fn set_regenerate_flag(&mut self, key: StrokeKey, regenerate_flag: bool)
        requires
            old(self).wf(),
        ensures
            final(self).wf(),
            final(self).same_but_render(old(self)),
            final(self).render_map() == set_regenerate_flag_in(
                old(self).render_map(),
                key,
                regenerate_flag,
            ),
    {
        match self.render_components.remove(&key) {
            Some(mut comp) => {
                comp.regenerate_flag = regenerate_flag;
                let ghost c = comp;
                self.render_components.insert(key, comp);
                proof {
                    self.lemma_render_replaced(old(self), key, c);
                    assert(self.render_map() =~= set_regenerate_flag_in(
                        old(self).render_map(),
                        key,
                        regenerate_flag,
                    ));
                }
            },
            None => {
                proof {
                    self.lemma_render_untouched(old(self), key);
                }
            },
        }
        proof {
            self.lemma_render_update_wf(old(self));
        }
    }

    /// Marks the rendering of every stroke as out of date.
    pub fn reset_regenerate_flag_all_strokes(&mut self)
        requires
            old(self).wf(),
        ensures
            final(self).wf(),
            final(self).same_but_render(old(self)),
            final(self).render_map() == reset_regenerate_flags(old(self).render_map()),
    {
        let n = self.keys.len();
        let mut i: usize = 0;
        while i < n
            invariant
                old(self).wf(),
                self.same_but_render(old(self)),
                self.render_components@.dom() == old(self).render_components@.dom(),
                n == self.keys@.len(),
                0 <= i <= n,
                forall|k: StrokeKey| #[trigger]
                    self.render_map().contains_key(k) ==> self.render_map()[k] == (if self.keys@.take(
                        i as int,
                    ).contains(k) {
                        RenderComponentView { regenerate_flag: true, ..old(self).render_map()[k] }
                    } else {
                        old(self).render_map()[k]
                    }),
            decreases n - i,
        {
            let key = self.keys[i];
            let ghost before = *self;
            proof {
                assert(self.keys@.take(i + 1) =~= self.keys@.take(i as int).push(key));
                super::lemma_push_contains(self.keys@.take(i as int), key);
            }
            match self.render_components.remove(&key) {
                Some(mut comp) => {
                    comp.regenerate_flag = true;
                    let ghost c = comp;
                    self.render_components.insert(key, comp);
                    proof {
                        self.lemma_render_replaced(&before, key, c);
                        assert(!self.keys@.take(i as int).contains(key)) by {
                            if self.keys@.take(i as int).contains(key) {
                                let j = choose|j: int|
                                    0 <= j < i && self.keys@.take(i as int)[j] == key;
                                assert(self.keys@[j] == self.keys@[i as int]);
                            }
                        }
                    }
                },
                None => {
                    proof {
                        self.lemma_render_untouched(&before, key);
                    }
                },
            }
            i = i + 1;
        }
        proof {
            assert(self.keys@.take(n as int) =~= self.keys@);
            assert forall|k: StrokeKey| #[trigger] self.render_map().contains_key(k) implies self.keys@.contains(k) by {
                assert(old(self).render_components@.contains_key(k));
            }
            assert(self.render_map() =~= reset_regenerate_flags(old(self).render_map()));
            self.lemma_render_update_wf(old(self));
        }
    }

    /// Replaces the render node of a stroke, keeping its images and flags; nothing happens if
    /// rendering is not supported. Used to show the existing images at a new zoom until they
    /// are regenerated.
    pub fn update_rendernode(&mut self, key: StrokeKey, rendernode: N)
        requires
            old(self).wf(),
        ensures
            final(self).wf(),
            final(self).same_but_render(old(self)),
            final(self).render_map() == set_rendernode_in(old(self).render_map(), key, rendernode),
    {
        match self.render_components.remove(&key) {
            Some(mut comp) => {
                comp.rendernode = rendernode;
                let ghost c = comp;
                self.render_components.insert(key, comp);
                proof {
                    self.lemma_render_replaced(old(self), key, c);
                    assert(self.render_map() =~= set_rendernode_in(
                        old(self).render_map(),
                        key,
                        c.rendernode,
                    ));
                }
            },
            None => {
                proof {
                    self.lemma_render_untouched(old(self), key);
                }
            },
        }
        proof {
            self.lemma_render_update_wf(old(self));
        }
    }

    /// Takes the outcome of rendering stroke `key` whole: `Some((image, rendernode))` replaces
    /// its rendering by that one image and clears its regenerate flag; `None` (the rendering
    /// failed) changes nothing. Nothing happens either for a stroke that does not exist or
    /// does not support rendering.
    pub fn regenerate_rendering_for_stroke(&mut self, key: StrokeKey, rendering: Option<(I, N)>)
        requires
            old(self).wf(),
        ensures
            final(self).wf(),
            final(self).same_but_render(old(self)),
            final(self).render_map() == after_full_rendering(
                old(self).render_map(),
                old(self).stroke_map(),
                key,
                rendering,
            ),
    {
        if self.strokes.contains_key(&key) {
            match rendering {
                Some((image, rendernode)) => {
                    match self.render_components.remove(&key) {
                        Some(mut comp) => {
                            let mut images: Vec<I> = Vec::new();
                            images.push(image);
                            comp.rendernode = rendernode;
                            comp.regenerate_flag = false;
                            comp.images = images;
                            let ghost c = comp;
                            self.render_components.insert(key, comp);
                            proof {
                                self.lemma_render_replaced(old(self), key, c);
                                assert(c.images@ =~= seq![rendering.unwrap().0]);
                                assert(self.render_map() =~= after_full_rendering(
                                    old(self).render_map(),
                                    old(self).stroke_map(),
                                    key,
                                    rendering,
                                ));
                            }
                        },
                        None => {
                            proof {
                                self.lemma_render_untouched(old(self), key);
                            }
                        },
                    }
                },
                None => {},
            }
        }
        proof {
            self.lemma_render_update_wf(old(self));
        }
    }

    /// Hands the rendering of stroke `key` to a worker: when there is a channel for the
    /// results (`has_tasks_tx`) and the stroke exists and supports rendering, its regenerate
    /// flag is cleared and `true` says that the worker is to be started; else nothing happens.
    pub fn regenerate_rendering_for_stroke_threaded(
        &mut self,
        key: StrokeKey,
        has_tasks_tx: bool,
    ) -> (dispatched: bool)
        requires
            old(self).wf(),
        ensures
            final(self).wf(),
            final(self).same_but_render(old(self)),
            dispatched == dispatch_ready(
                old(self).render_map(),
                old(self).stroke_map(),
                key,
                has_tasks_tx,
            ),
            final(self).render_map() == after_dispatch(
                old(self).render_map(),
                old(self).stroke_map(),
                key,
                has_tasks_tx,
            ),
            dispatched <==> (has_tasks_tx && old(self).stroke_map().contains_key(key) && old(self).render_map().contains_key(key)),
            dispatched ==> final(self).render_map() == old(self).render_map().insert(
                key,
                RenderComponentView {
                    render: old(self).render_map()[key].render,
                    regenerate_flag: false,
                    images: old(self).render_map()[key].images,
                    rendernode: old(self).render_map()[key].rendernode,
                },
            ),
            !dispatched ==> final(self).render_map() == old(self).render_map(),
    {
        let mut dispatched = false;
        if has_tasks_tx && self.strokes.contains_key(&key) {
            match self.render_components.remove(&key) {
                Some(mut comp) => {
                    comp.regenerate_flag = false;
                    let ghost c = comp;
                    self.render_components.insert(key, comp);
                    dispatched = true;
                    proof {
                        self.lemma_render_replaced(old(self), key, c);
                        assert(self.render_map() =~= set_regenerate_flag_in(
                            old(self).render_map(),
                            key,
                            false,
                        ));
                    }
                },
                None => {
                    proof {
                        self.lemma_render_untouched(old(self), key);
                    }
                },
            }
        }
        proof {
            self.lemma_render_update_wf(old(self));
            lemma_dispatch_every_renderable_stroke(old(self).render_map(), old(self).stroke_map(), key);
        }
        dispatched
    }

    /// Takes `images` and the render node made from them (`None` when that failed) for stroke
    /// `key`: on success they replace its rendering and its regenerate flag is cleared.
    /// Nothing happens if rendering is not supported.
    pub fn regenerate_rendering_with_images(
        &mut self,
        key: StrokeKey,
        images: Vec<I>,
        rendernode: Option<N>,
    )
        requires
            old(self).wf(),
        ensures
            final(self).wf(),
            final(self).same_but_render(old(self)),
            final(self).render_map() == after_images_rendering(
                old(self).render_map(),
                key,
                images@,
                rendernode,
            ),
    {
        match self.render_components.remove(&key) {
            Some(mut comp) => {
                match rendernode {
                    Some(node) => {
                        comp.rendernode = node;
                        comp.regenerate_flag = false;
                        comp.images = images;
                    },
                    None => {},
                }
                let ghost c = comp;
                self.render_components.insert(key, comp);
                proof {
                    self.lemma_render_replaced(old(self), key, c);
                    assert(self.render_map() =~= after_images_rendering(
                        old(self).render_map(),
                        key,
                        images@,
                        rendernode,
                    ));
                }
            },
            None => {
                proof {
                    self.lemma_render_untouched(old(self), key);
                }
            },
        }
        proof {
            self.lemma_render_update_wf(old(self));
        }
    }

    /// Takes `images` and the render node that shows the existing rendering together with them
    /// (`None` when making it failed) for stroke `key`: on success the images are appended to
    /// those of the rendering, the node replaces the old one and the regenerate flag is
    /// cleared. Nothing happens if rendering is not supported.
    pub fn append_images_to_rendering(
        &mut self,
        key: StrokeKey,
        images: Vec<I>,
        rendernode: Option<N>,
    )
        requires
            old(self).wf(),
        ensures
            final(self).wf(),
            final(self).same_but_render(old(self)),
            final(self).render_map() == after_appended_images(
                old(self).render_map(),
                key,
                images@,
                rendernode,
            ),
            old(self).render_map().contains_key(key) && rendernode is Some ==> final(self).render_map() == old(self).render_map().insert(
                key,
                RenderComponentView {
                    render: old(self).render_map()[key].render,
                    regenerate_flag: false,
                    images: old(self).render_map()[key].images + images@,
                    rendernode: rendernode.unwrap(),
                },
            ),
            !(old(self).render_map().contains_key(key) && rendernode is Some) ==> final(self).render_map() == old(self).render_map(),
    {
        proof {
            if old(self).render_map().contains_key(key) && rendernode is Some {
                lemma_append_installs_node(
                    old(self).render_map(),
                    key,
                    images@,
                    rendernode.unwrap(),
                );
            }
        }
        let ghost appended = images@;
        let mut images = images;
        match self.render_components.remove(&key) {
            Some(mut comp) => {
                match rendernode {
                    Some(node) => {
                        comp.rendernode = node;
                        comp.regenerate_flag = false;
                        comp.images.append(&mut images);
                    },
                    None => {},
                }
                let ghost c = comp;
                self.render_components.insert(key, comp);
                proof {
                    self.lemma_render_replaced(old(self), key, c);
                    assert(self.render_map() =~= after_appended_images(
                        old(self).render_map(),
                        key,
                        appended,
                        rendernode,
                    ));
                }
            },
            None => {
                proof {
                    self.lemma_render_untouched(old(self), key);
                }
            },
        }
        proof {
            self.lemma_render_update_wf(old(self));
        }
    }

    /// Takes the outcomes of rendering the selected strokes whole: `renderings[i]` is the
    /// outcome for the `i`-th key of `selection_keys()`, and is taken as
    /// `regenerate_rendering_for_stroke` takes it. Outcomes beyond the selection are ignored;
    /// selected strokes beyond the outcomes keep their rendering.
    pub fn regenerate_rendering_for_selection(&mut self, renderings: Vec<Option<(I, N)>>)
        requires
            old(self).wf(),
        ensures
            final(self).wf(),
            final(self).same_but_render(old(self)),
            final(self).render_map() == after_full_renderings(
                old(self).render_map(),
                old(self).stroke_map(),
                old(self).spec_selection_keys(),
                renderings@,
            ),
            forall|i: int|
                #![trigger old(self).spec_selection_keys()[i]]
                0 <= i < old(self).spec_selection_keys().len() && i < renderings@.len() && old(self).render_map().contains_key(old(self).spec_selection_keys()[i]) ==> final(self).render_map()[old(self).spec_selection_keys()[i]] == (if old(self).stroke_map().contains_key(old(self).spec_selection_keys()[i])
                    && renderings@[i] is Some {
                    RenderComponentView {
                        render: old(self).render_map()[old(self).spec_selection_keys()[i]].render,
                        regenerate_flag: false,
                        images: seq![renderings@[i].unwrap().0],
                        rendernode: renderings@[i].unwrap().1,
                    }
                } else {
                    old(self).render_map()[old(self).spec_selection_keys()[i]]
                }),
    {
        proof {
            let sel = old(self).spec_selection_keys();
            lemma_selection_keys_are_selected(old(self), 0);
            assert forall|i: int|
                #![trigger sel[i]]
                0 <= i < sel.len() && i < renderings@.len() && old(self).render_map().contains_key(
                    sel[i],
                ) implies after_full_renderings(
                old(self).render_map(),
                old(self).stroke_map(),
                sel,
                renderings@,
            )[sel[i]] == (if old(self).stroke_map().contains_key(sel[i]) && renderings@[i] is Some {
                RenderComponentView {
                    render: old(self).render_map()[sel[i]].render,
                    regenerate_flag: false,
                    images: seq![renderings@[i].unwrap().0],
                    rendernode: renderings@[i].unwrap().1,
                }
            } else {
                old(self).render_map()[sel[i]]
            }) by {
                lemma_renderings_each_by_own_outcome(
                    old(self).render_map(),
                    old(self).stroke_map(),
                    sel,
                    renderings@,
                    i,
                );
            }
        }
        let keys = self.selection_keys();
        let ghost all = renderings@;
        let mut renderings = renderings;
        let mut i: usize = 0;
        proof {
            assert(keys@.skip(0) =~= keys@);
        }
        while i < keys.len() && renderings.len() > 0
            invariant
                self.wf(),
                self.same_but_render(old(self)),
                0 <= i <= keys@.len(),
                keys@ == old(self).spec_selection_keys(),
                after_full_renderings(
                    self.render_map(),
                    old(self).stroke_map(),
                    keys@.skip(i as int),
                    renderings@,
                ) == after_full_renderings(
                    old(self).render_map(),
                    old(self).stroke_map(),
                    keys@,
                    all,
                ),
            decreases keys@.len() - i,
        {
            let ghost rest = renderings@;
            let rendering = renderings.remove(0);
            let ghost before = self.render_map();
            self.regenerate_rendering_for_stroke(keys[i], rendering);
            proof {
                assert(keys@.skip(i as int).drop_first() =~= keys@.skip(i + 1));
                assert(rest.drop_first() =~= renderings@);
                assert(keys@.skip(i as int)[0] == keys@[i as int]);
            }
            i = i + 1;
        }
    }

    /// Hands the renderings of the selected strokes to workers, as
    /// `regenerate_rendering_for_stroke_threaded` does for each, oldest first. Returns the keys
    /// of the strokes whose worker is to be started.
    pub fn regenerate_rendering_for_selection_threaded(&mut self, has_tasks_tx: bool) -> (dispatched:
        Vec<StrokeKey>)
        requires
            old(self).wf(),
        ensures
            final(self).wf(),
            final(self).same_but_render(old(self)),
            final(self).render_map() == after_dispatches(
                old(self).render_map(),
                old(self).stroke_map(),
                old(self).spec_selection_keys(),
                has_tasks_tx,
            ),
            dispatched@ == old(self).spec_selection_keys().filter(
                |k: StrokeKey|
                    dispatch_ready(old(self).render_map(), old(self).stroke_map(), k, has_tasks_tx),
            ),
            final(self).render_map().dom() == old(self).render_map().dom(),
            forall|k: StrokeKey| #[trigger]
                old(self).render_map().contains_key(k) ==> final(self).render_map()[k]
                    == (RenderComponentView {
                    render: old(self).render_map()[k].render,
                    regenerate_flag: if has_tasks_tx && old(self).spec_selection_keys().contains(k)
                        && old(self).stroke_map().contains_key(k) {
                        false
                    } else {
                        old(self).render_map()[k].regenerate_flag
                    },
                    images: old(self).render_map()[k].images,
                    rendernode: old(self).render_map()[k].rendernode,
                }),
            forall|k: StrokeKey|
                #[trigger] dispatched@.contains(k) <==> (has_tasks_tx && old(self).spec_selection_keys().contains(k) && old(self).stroke_map().contains_key(k) && old(self).render_map().contains_key(k)),
    {
        let keys = self.selection_keys();
        let ghost pred = |k: StrokeKey|
            dispatch_ready(old(self).render_map(), old(self).stroke_map(), k, has_tasks_tx);
        let mut dispatched: Vec<StrokeKey> = Vec::new();
        let mut i: usize = 0;
        proof {
            assert(keys@.skip(0) =~= keys@);
        }
        while i < keys.len()
            invariant
                self.wf(),
                self.same_but_render(old(self)),
                self.render_map().dom() == old(self).render_map().dom(),
                0 <= i <= keys@.len(),
                keys@ == old(self).spec_selection_keys(),
                pred == (|k: StrokeKey|
                    dispatch_ready(old(self).render_map(), old(self).stroke_map(), k, has_tasks_tx)),
                dispatched@ == keys@.take(i as int).filter(pred),
                after_dispatches(
                    self.render_map(),
                    old(self).stroke_map(),
                    keys@.skip(i as int),
                    has_tasks_tx,
                ) == after_dispatches(
                    old(self).render_map(),
                    old(self).stroke_map(),
                    keys@,
                    has_tasks_tx,
                ),
            decreases keys@.len() - i,
        {
            let key = keys[i];
            let sent = self.regenerate_rendering_for_stroke_threaded(key, has_tasks_tx);
            if sent {
                dispatched.push(key);
            }
            proof {
                reveal(Seq::filter);
                assert(keys@.take(i + 1).drop_last() =~= keys@.take(i as int));
                assert(keys@.skip(i as int).drop_first() =~= keys@.skip(i + 1));
                assert(keys@.skip(i as int)[0] == key);
            }
            i = i + 1;
        }
        proof {
            assert(keys@.take(keys@.len() as int) =~= keys@);
            assert(keys@.skip(keys@.len() as int) =~= Seq::<StrokeKey>::empty());
            let sel = old(self).spec_selection_keys();
            lemma_dispatches(old(self).render_map(), old(self).stroke_map(), sel, has_tasks_tx, 0);
            assert forall|k: StrokeKey| #[trigger]
                old(self).render_map().contains_key(k) implies self.render_map()[k]
                == (RenderComponentView {
                render: old(self).render_map()[k].render,
                regenerate_flag: if has_tasks_tx && sel.contains(k) && old(self).stroke_map().contains_key(k) {
                    false
                } else {
                    old(self).render_map()[k].regenerate_flag
                },
                images: old(self).render_map()[k].images,
                rendernode: old(self).render_map()[k].rendernode,
            }) by {
                lemma_dispatches(old(self).render_map(), old(self).stroke_map(), sel, has_tasks_tx, k);
            }
            assert forall|k: StrokeKey| #[trigger] dispatched@.contains(k) <==> (has_tasks_tx
                && sel.contains(k) && old(self).stroke_map().contains_key(k) && old(self).render_map().contains_key(k)) by {
                lemma_filter_contains_iff(sel, pred, k);
            }
        }
        dispatched
    }

    /// Takes the outcome of rendering the newest stroke whole, as
    /// `regenerate_rendering_for_stroke` does; nothing happens when there are no strokes.
    pub fn regenerate_rendering_newest_stroke(&mut self, rendering: Option<(I, N)>)
        requires
            old(self).wf(),
        ensures
            final(self).wf(),
            final(self).same_but_render(old(self)),
            final(self).render_map() == (match old(self).spec_last_stroke_key() {
                Some(key) => after_full_rendering(
                    old(self).render_map(),
                    old(self).stroke_map(),
                    key,
                    rendering,
                ),
                None => old(self).render_map(),
            }),
    {
        match self.last_stroke_key() {
            Some(key) => self.regenerate_rendering_for_stroke(key, rendering),
            None => {},
        }
    }

    /// Hands the rendering of the newest stroke to a worker, as
    /// `regenerate_rendering_for_stroke_threaded` does. Returns the key of the stroke whose
    /// worker is to be started, if any.
    pub fn regenerate_rendering_newest_stroke_threaded(&mut self, has_tasks_tx: bool) -> (dispatched:
        Option<StrokeKey>)
        requires
            old(self).wf(),
        ensures
            final(self).wf(),
            final(self).same_but_render(old(self)),
            match old(self).spec_last_stroke_key() {
                Some(key) => {
                    &&& (dispatched is Some <==> (has_tasks_tx && old(self).stroke_map().contains_key(
                        key,
                    ) && old(self).render_map().contains_key(key)))
                    &&& dispatched == (if dispatch_ready(
                        old(self).render_map(),
                        old(self).stroke_map(),
                        key,
                        has_tasks_tx,
                    ) {
                        Some(key)
                    } else {
                        None
                    })
                    &&& final(self).render_map() == after_dispatch(
                        old(self).render_map(),
                        old(self).stroke_map(),
                        key,
                        has_tasks_tx,
                    )
                },
                None => dispatched is None && final(self).render_map() == old(self).render_map(),
            },
    {
        match self.last_stroke_key() {
            Some(key) => {
                if self.regenerate_rendering_for_stroke_threaded(key, has_tasks_tx) {
                    Some(key)
                } else {
                    None
                }
            },
            None => None,
        }
    }

    /// Takes the outcome of rendering the newest selected stroke whole, as
    /// `regenerate_rendering_for_stroke` does; nothing happens when nothing is selected.
    pub fn regenerate_rendering_newest_selected(&mut self, rendering: Option<(I, N)>)
        requires
            old(self).wf(),
        ensures
            final(self).wf(),
            final(self).same_but_render(old(self)),
            final(self).render_map() == (match old(self).spec_last_selection_key() {
                Some(key) => after_full_rendering(
                    old(self).render_map(),
                    old(self).stroke_map(),
                    key,
                    rendering,
                ),
                None => old(self).render_map(),
            }),
    {
        match self.last_selection_key() {
            Some(key) => self.regenerate_rendering_for_stroke(key, rendering),
            None => {},
        }
    }

    /// Hands the rendering of the newest selected stroke to a worker, as
    /// `regenerate_rendering_for_stroke_threaded` does. Returns the key of the stroke whose
    /// worker is to be started, if any.
    pub fn regenerate_rendering_newest_selected_threaded(&mut self, has_tasks_tx: bool) -> (dispatched:
        Option<StrokeKey>)
        requires
            old(self).wf(),
        ensures
            final(self).wf(),
            final(self).same_but_render(old(self)),
            match old(self).spec_last_selection_key() {
                Some(key) => {
                    &&& (dispatched is Some <==> (has_tasks_tx && old(self).stroke_map().contains_key(
                        key,
                    ) && old(self).render_map().contains_key(key)))
                    &&& dispatched == (if dispatch_ready(
                        old(self).render_map(),
                        old(self).stroke_map(),
                        key,
                        has_tasks_tx,
                    ) {
                        Some(key)
                    } else {
                        None
                    })
                    &&& final(self).render_map() == after_dispatch(
                        old(self).render_map(),
                        old(self).stroke_map(),
                        key,
                        has_tasks_tx,
                    )
                },
                None => dispatched is None && final(self).render_map() == old(self).render_map(),
            },
    {
        match self.last_selection_key() {
            Some(key) => {
                if self.regenerate_rendering_for_stroke_threaded(key, has_tasks_tx) {
                    Some(key)
                } else {
                    None
                }
            },
            None => None,
        }
    }

    /// The strokes drawn by the ordinary drawing pass: rendered, not trashed, not selected.
    pub open spec fn drawn_unselected(&self, key: StrokeKey) -> bool {
        &&& render_of(self.render_map(), key) == Some(true)
        &&& self.spec_trashed(key) != Some(true)
        &&& self.spec_selected(key) != Some(true)
        &&& self.stroke_map().contains_key(key)
    }

    /// The strokes drawn by the selection pass: rendered, not trashed, selected.
    pub open spec fn drawn_selected(&self, key: StrokeKey) -> bool {
        &&& render_of(self.render_map(), key) == Some(true)
        &&& self.spec_trashed(key) != Some(true)
        &&& self.spec_selected(key) == Some(true)
        &&& self.stroke_map().contains_key(key)
    }

    /// What the debug view draws for stroke `key`.
    pub open spec fn debug_info(&self, key: StrokeKey) -> DebugDrawInfo {
        DebugDrawInfo {
            key,
            hidden: render_of(self.render_map(), key) == Some(true) && self.spec_trashed(key)
                == Some(true),
            regenerating: regenerate_flag_of(self.render_map(), key) == Some(true),
        }
    }

    /// How the rendering of stroke `key`, which now has `elements_len` elements, catches up
    /// with its newest elements; `None` for a stroke that does not exist or does not support
    /// rendering. A `LastElements` segment is rendered and handed to
    /// `append_images_to_rendering`, a `Full` rendering to `regenerate_rendering_for_stroke`.
    pub fn new_elem_rendering(&self, key: StrokeKey, elements_len: usize) -> (plan: Option<
        NewElemRendering,
    >)
        ensures
            plan == (if self.stroke_map().contains_key(key) && self.render_map().contains_key(
                key,
            ) {
                Some(new_elem_plan(self.stroke_map()[key], elements_len))
            } else {
                None
            }),
    {
        match self.strokes.get(&key) {
            Some(kind) => {
                if self.render_components.contains_key(&key) {
                    Some(NewElemRendering::for_stroke(*kind, elements_len))
                } else {
                    None
                }
            },
            None => None,
        }
    }

    /// Hands the rendering of the newest elements of stroke `key` (which now has
    /// `elements_len` elements) to a worker that runs in order with the others: when there is
    /// a channel for the results and the stroke exists and supports rendering, its regenerate
    /// flag is set until the worker's images arrive, and the plan for the worker is returned;
    /// else nothing happens.
    pub fn append_rendering_new_elem_threaded_fifo(
        &mut self,
        key: StrokeKey,
        elements_len: usize,
        has_tasks_tx: bool,
    ) -> (plan: Option<NewElemRendering>)
        requires
            old(self).wf(),
        ensures
            final(self).wf(),
            final(self).same_but_render(old(self)),
            plan == (if dispatch_ready(
                old(self).render_map(),
                old(self).stroke_map(),
                key,
                has_tasks_tx,
            ) {
                Some(new_elem_plan(old(self).stroke_map()[key], elements_len))
            } else {
                None
            }),
            final(self).render_map() == (if dispatch_ready(
                old(self).render_map(),
                old(self).stroke_map(),
                key,
                has_tasks_tx,
            ) {
                set_regenerate_flag_in(old(self).render_map(), key, true)
            } else {
                old(self).render_map()
            }),
            plan is Some <==> (has_tasks_tx && old(self).stroke_map().contains_key(key) && old(self).render_map().contains_key(key)),
            plan is Some ==> final(self).render_map() == old(self).render_map().insert(
                key,
                RenderComponentView {
                    render: old(self).render_map()[key].render,
                    regenerate_flag: true,
                    images: old(self).render_map()[key].images,
                    rendernode: old(self).render_map()[key].rendernode,
                },
            ),
            plan is None ==> final(self).render_map() == old(self).render_map(),
    {
        if !has_tasks_tx {
            return None;
        }
        let plan = match self.new_elem_rendering(key, elements_len) {
            Some(plan) => {
                self.set_regenerate_flag(key, true);
                Some(plan)
            },
            None => None,
        };
        proof {
            if plan is Some {
                assert(set_regenerate_flag_in(old(self).render_map(), key, true) =~= old(self).render_map().insert(
                    key,
                    RenderComponentView {
                        render: old(self).render_map()[key].render,
                        regenerate_flag: true,
                        images: old(self).render_map()[key].images,
                        rendernode: old(self).render_map()[key].rendernode,
                    },
                ));
            }
        }
        plan
    }

    /// The strokes that the ordinary drawing pass draws, oldest first: rendered, not trashed
    /// and not selected.
    pub fn strokes_to_draw(&self) -> (keys: Vec<StrokeKey>)
        requires
            self.wf(),
        ensures
            keys@ == self.keys_chrono().filter(|k: StrokeKey| self.drawn_unselected(k)),
            forall|k: StrokeKey|
                #[trigger] keys@.contains(k) <==> {
                    &&& self.chrono_map().contains_key(k)
                    &&& self.stroke_map().contains_key(k)
                    &&& self.render_map().contains_key(k)
                    &&& self.render_map()[k].render
                    &&& !(self.trash_map().contains_key(k) && self.trash_map()[k].trashed)
                    &&& !(self.selection_map().contains_key(k) && self.selection_map()[k].selected)
                },
    {
        let sorted = self.keys_sorted_chrono();
        let ghost pred = |k: StrokeKey| self.drawn_unselected(k);
        let mut keys: Vec<StrokeKey> = Vec::new();
        let mut i: usize = 0;
        while i < sorted.len()
            invariant
                0 <= i <= sorted@.len(),
                keys@ == sorted@.take(i as int).filter(pred),
                pred == (|k: StrokeKey| self.drawn_unselected(k)),
            decreases sorted@.len() - i,
        {
            let key = sorted[i];
            proof {
                reveal(Seq::filter);
                assert(sorted@.take(i + 1).drop_last() =~= sorted@.take(i as int));
            }
            let render = match self.does_render(key) {
                Some(r) => r,
                None => false,
            };
            let trashed = match self.trashed(key) {
                Some(t) => t,
                None => false,
            };
            let selected = match self.selected(key) {
                Some(s) => s,
                None => false,
            };
            if render && !trashed && !selected && self.strokes.contains_key(&key) {
                keys.push(key);
            }
            i = i + 1;
        }
        proof {
            assert(sorted@.take(sorted@.len() as int) =~= sorted@);
            self.lemma_keys_chrono_order();
            assert forall|k: StrokeKey| #[trigger] keys@.contains(k) <==> (sorted@.contains(k)
                && pred(k)) by {
                lemma_filter_contains_iff(sorted@, pred, k);
            }
        }
        keys
    }

    /// The strokes that the selection pass draws with their bounds, oldest first: rendered,
    /// not trashed and selected.
    pub fn selection_to_draw(&self) -> (keys: Vec<StrokeKey>)
        requires
            self.wf(),
        ensures
            keys@ == self.keys_chrono().filter(|k: StrokeKey| self.drawn_selected(k)),
            forall|k: StrokeKey|
                #[trigger] keys@.contains(k) <==> {
                    &&& self.chrono_map().contains_key(k)
                    &&& self.stroke_map().contains_key(k)
                    &&& self.render_map().contains_key(k)
                    &&& self.render_map()[k].render
                    &&& !(self.trash_map().contains_key(k) && self.trash_map()[k].trashed)
                    &&& self.selection_map().contains_key(k)
                    &&& self.selection_map()[k].selected
                },
    {
        let sorted = self.keys_sorted_chrono();
        let ghost pred = |k: StrokeKey| self.drawn_selected(k);
        let mut keys: Vec<StrokeKey> = Vec::new();
        let mut i: usize = 0;
        while i < sorted.len()
            invariant
                0 <= i <= sorted@.len(),
                keys@ == sorted@.take(i as int).filter(pred),
                pred == (|k: StrokeKey| self.drawn_selected(k)),
            decreases sorted@.len() - i,
        {
            let key = sorted[i];
            proof {
                reveal(Seq::filter);
                assert(sorted@.take(i + 1).drop_last() =~= sorted@.take(i as int));
            }
            let render = match self.does_render(key) {
                Some(r) => r,
                None => false,
            };
            let trashed = match self.trashed(key) {
                Some(t) => t,
                None => false,
            };
            let selected = match self.selected(key) {
                Some(s) => s,
                None => false,
            };
            if render && !trashed && selected && self.strokes.contains_key(&key) {
                keys.push(key);
            }
            i = i + 1;
        }
        proof {
            assert(sorted@.take(sorted@.len() as int) =~= sorted@);
            self.lemma_keys_chrono_order();
            assert forall|k: StrokeKey| #[trigger] keys@.contains(k) <==> (sorted@.contains(k)
                && pred(k)) by {
                lemma_filter_contains_iff(sorted@, pred, k);
            }
        }
        keys
    }

    /// What the debug view draws for each stroke, oldest first.
    pub fn debug_draw_infos(&self) -> (infos: Vec<DebugDrawInfo>)
        requires
            self.wf(),
        ensures
            infos@ == self.keys_chrono().filter(
                |k: StrokeKey| self.stroke_map().contains_key(k),
            ).map_values(|k: StrokeKey| self.debug_info(k)),
    {
        let sorted = self.keys_sorted_chrono();
        let ghost pred = |k: StrokeKey| self.stroke_map().contains_key(k);
        let ghost info = |k: StrokeKey| self.debug_info(k);
        let mut infos: Vec<DebugDrawInfo> = Vec::new();
        let mut i: usize = 0;
        while i < sorted.len()
            invariant
                0 <= i <= sorted@.len(),
                infos@ == sorted@.take(i as int).filter(pred).map_values(info),
                pred == (|k: StrokeKey| self.stroke_map().contains_key(k)),
                info == (|k: StrokeKey| self.debug_info(k)),
            decreases sorted@.len() - i,
        {
            let key = sorted[i];
            let ghost before = infos@;
            proof {
                reveal(Seq::filter);
                assert(sorted@.take(i + 1).drop_last() =~= sorted@.take(i as int));
            }
            if self.strokes.contains_key(&key) {
                let render = match self.does_render(key) {
                    Some(r) => r,
                    None => false,
                };
                let trashed = match self.trashed(key) {
                    Some(t) => t,
                    None => false,
                };
                let regenerating = match self.regenerate_flag(key) {
                    Some(f) => f,
                    None => false,
                };
                infos.push(DebugDrawInfo { key, hidden: render && trashed, regenerating });
                proof {
                    assert(sorted@.take(i + 1).filter(pred) == sorted@.take(i as int).filter(
                        pred,
                    ).push(key));
                    assert(infos@ =~= sorted@.take(i + 1).filter(pred).map_values(info));
                }
            } else {
                proof {
                    assert(sorted@.take(i + 1).filter(pred) == sorted@.take(i as int).filter(
                        pred,
                    ));
                }
            }
            i = i + 1;
        }
        proof {
            assert(sorted@.take(sorted@.len() as int) =~= sorted@);
        }
        infos
    }
}

} // verus!
