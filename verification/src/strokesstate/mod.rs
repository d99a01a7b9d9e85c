use std::collections::HashMap;
use vstd::prelude::*;

use crate::strokes::strokestyle::StrokeKind;
use self::render_comp::{RenderComponent, RenderComponentView};

pub mod properties;
pub mod render_comp;

verus! {

/// The key of a stroke in the strokes state.
pub type StrokeKey = u64;

/// Whether a stroke was moved to the trash.
#[derive(Clone, Copy, Debug, PartialEq, Eq, Structural)]
pub struct TrashComponent {
    pub trashed: bool,
}

/// Whether a stroke is part of the selection.
#[derive(Clone, Copy, Debug, PartialEq, Eq, Structural)]
pub struct SelectionComponent {
    pub selected: bool,
}

/// When a stroke was added: strokes with a smaller `t` are older.
#[derive(Clone, Copy, Debug, PartialEq, Eq, Structural)]
pub struct ChronoComponent {
    pub t: u64,
}

/// The strokes of a document with their components.
///
/// Every component is kept in a map of its own, keyed by the stroke key; a stroke may lack a
/// component (a stroke without a render component does not support rendering). `I` is the type
/// of the images of a rendering and `N` the type of the render node that displays them.
pub struct StrokesState<I, N> {
    keys: Vec<StrokeKey>,
    strokes: HashMap<StrokeKey, StrokeKind>,
    trash_components: HashMap<StrokeKey, TrashComponent>,
    selection_components: HashMap<StrokeKey, SelectionComponent>,
    chrono_components: HashMap<StrokeKey, ChronoComponent>,
    render_components: HashMap<StrokeKey, RenderComponent<I, N>>,
    counter: u64,
    /// The keys of the chrono components, oldest first.
    chrono_order: Ghost<Seq<StrokeKey>>,
}

/// `keys` holds exactly the keys of `chrono`, once each, oldest first.
pub open spec fn is_chrono_order(keys: Seq<StrokeKey>, chrono: Map<StrokeKey, ChronoComponent>) -> bool {
    &&& keys.no_duplicates()
    &&& forall|k: StrokeKey| chrono.contains_key(k) <==> keys.contains(k)
    &&& forall|i: int, j: int|
        0 <= i < j < keys.len() ==> chrono[#[trigger] keys[i]].t < chrono[#[trigger] keys[j]].t
}

/// No two strokes share a chrono timestamp.
pub open spec fn chrono_distinct(chrono: Map<StrokeKey, ChronoComponent>) -> bool {
    forall|k1: StrokeKey, k2: StrokeKey|
        #![trigger chrono[k1], chrono[k2]]
        chrono.contains_key(k1) && chrono.contains_key(k2) && chrono[k1].t == chrono[k2].t
            ==> k1 == k2
}

/// The elements of `s.push(x)` are those of `s` and `x`.
pub proof fn lemma_push_contains<A>(s: Seq<A>, x: A)
    ensures
        forall|k: A| #[trigger] s.push(x).contains(k) <==> (s.contains(k) || k == x),
{
    assert forall|k: A| #[trigger] s.push(x).contains(k) <==> (s.contains(k) || k == x) by {
        if s.push(x).contains(k) {
            let j = choose|j: int| 0 <= j < s.push(x).len() && s.push(x)[j] == k;
            if j < s.len() {
                assert(s[j] == k);
            }
        }
        if s.contains(k) {
            let j = choose|j: int| 0 <= j < s.len() && s[j] == k;
            assert(s.push(x)[j] == k);
        }
        if k == x {
            assert(s.push(x)[s.len() as int] == x);
        }
    }
}

/// Two chrono orders of the same components agree up to index `n`.
proof fn lemma_chrono_orders_agree_prefix(
    s1: Seq<StrokeKey>,
    s2: Seq<StrokeKey>,
    chrono: Map<StrokeKey, ChronoComponent>,
    n: int,
)
    requires
        is_chrono_order(s1, chrono),
        is_chrono_order(s2, chrono),
        0 <= n <= s1.len(),
        n <= s2.len(),
    ensures
        forall|i: int| 0 <= i < n ==> s1[i] == s2[i],
    decreases n,
{
    if n > 0 {
        lemma_chrono_orders_agree_prefix(s1, s2, chrono, n - 1);
        let i = n - 1;
        if s1[i] != s2[i] {
            // s1[i] stands in s2 at some later index j, and s2[i] in s1 at some later index j2
            assert(s1.contains(s1[i]));
            assert(s2.contains(s2[i]));
            assert(s2.contains(s1[i]));
            let j = choose|j: int| 0 <= j < s2.len() && s2[j] == s1[i];
            assert(s1.contains(s2[i]));
            let j2 = choose|j2: int| 0 <= j2 < s1.len() && s1[j2] == s2[i];
            if j < i {
                assert(s1[j] == s2[j]);
            }
            if j2 < i {
                assert(s1[j2] == s2[j2]);
            }
            assert(j != i);
            assert(j2 != i);
            assert(chrono[s2[i]].t < chrono[s2[j]].t);
            assert(chrono[s1[i]].t < chrono[s1[j2]].t);
        }
    }
}

/// There is only one chrono order of a map of chrono components.
pub proof fn lemma_chrono_order_unique(
    s1: Seq<StrokeKey>,
    s2: Seq<StrokeKey>,
    chrono: Map<StrokeKey, ChronoComponent>,
)
    requires
        is_chrono_order(s1, chrono),
        is_chrono_order(s2, chrono),
    ensures
        s1 == s2,
{
    if s1.len() <= s2.len() {
        lemma_chrono_orders_agree_prefix(s1, s2, chrono, s1.len() as int);
        if s1.len() < s2.len() {
            let k = s2[s1.len() as int];
            assert(s2.contains(k));
            assert(s1.contains(k));
            let j = choose|j: int| 0 <= j < s1.len() && s1[j] == k;
            assert(s2[j] == k);
        }
    } else {
        lemma_chrono_orders_agree_prefix(s1, s2, chrono, s2.len() as int);
        let k = s1[s2.len() as int];
        assert(s1.contains(k));
        assert(s2.contains(k));
        let j = choose|j: int| 0 <= j < s2.len() && s2[j] == k;
        assert(s1[j] == k);
    }
    assert(s1 =~= s2);
}

impl<I, N> StrokesState<I, N> {
    /// The kind of every stroke.
    pub closed spec fn stroke_map(&self) -> Map<StrokeKey, StrokeKind> {
        self.strokes@
    }

    /// The trash components.
    pub closed spec fn trash_map(&self) -> Map<StrokeKey, TrashComponent> {
        self.trash_components@
    }

    /// The selection components.
    pub closed spec fn selection_map(&self) -> Map<StrokeKey, SelectionComponent> {
        self.selection_components@
    }

    /// The chrono components.
    pub closed spec fn chrono_map(&self) -> Map<StrokeKey, ChronoComponent> {
        self.chrono_components@
    }

    /// The render components, each by its view.
    pub closed spec fn render_map(&self) -> Map<StrokeKey, RenderComponentView<I, N>> {
        self.render_components@.map_values(|c: RenderComponent<I, N>| c@)
    }

    /// The key that the next inserted stroke gets.
    pub closed spec fn next_key(&self) -> u64 {
        self.counter
    }

    /// The internal invariant: `keys` lists every stroke once, every component belongs to a
    /// stroke, keys and chrono timestamps were handed out below the counter, and no two strokes
    /// share a timestamp.
    pub closed spec fn wf(&self) -> bool {
        &&& self.keys@.no_duplicates()
        &&& forall|k: StrokeKey| self.strokes@.contains_key(k) <==> self.keys@.contains(k)
        &&& forall|k: StrokeKey| #[trigger]
            self.trash_components@.contains_key(k) ==> self.strokes@.contains_key(k)
        &&& forall|k: StrokeKey| #[trigger]
            self.selection_components@.contains_key(k) ==> self.strokes@.contains_key(k)
        &&& forall|k: StrokeKey| #[trigger]
            self.chrono_components@.contains_key(k) ==> self.strokes@.contains_key(k)
        &&& forall|k: StrokeKey| #[trigger]
            self.render_components@.contains_key(k) ==> self.strokes@.contains_key(k)
        &&& forall|k: StrokeKey| #[trigger] self.strokes@.contains_key(k) ==> k < self.counter
        &&& forall|k: StrokeKey| #[trigger]
            self.chrono_components@.contains_key(k) ==> self.chrono_components@[k].t < self.counter
        &&& chrono_distinct(self.chrono_components@)
        &&& is_chrono_order(self.chrono_order@, self.chrono_components@)
    }

    /// Everything but the render components is the same in `self` and `other`.
    pub closed spec fn same_but_render(&self, other: &Self) -> bool {
        &&& self.keys@ == other.keys@
        &&& self.strokes@ == other.strokes@
        &&& self.trash_components@ == other.trash_components@
        &&& self.selection_components@ == other.selection_components@
        &&& self.chrono_components@ == other.chrono_components@
        &&& self.counter == other.counter
        &&& self.chrono_order@ == other.chrono_order@
    }

    /// Everything but the trash components is the same in `self` and `other`.
    pub closed spec fn same_but_trash(&self, other: &Self) -> bool {
        &&& self.keys@ == other.keys@
        &&& self.strokes@ == other.strokes@
        &&& self.render_components@ == other.render_components@
        &&& self.selection_components@ == other.selection_components@
        &&& self.chrono_components@ == other.chrono_components@
        &&& self.counter == other.counter
        &&& self.chrono_order@ == other.chrono_order@
    }

    /// Everything but the selection components is the same in `self` and `other`.
    pub closed spec fn same_but_selection(&self, other: &Self) -> bool {
        &&& self.keys@ == other.keys@
        &&& self.strokes@ == other.strokes@
        &&& self.render_components@ == other.render_components@
        &&& self.trash_components@ == other.trash_components@
        &&& self.chrono_components@ == other.chrono_components@
        &&& self.counter == other.counter
        &&& self.chrono_order@ == other.chrono_order@
    }

    /// The keys of all strokes with a chrono component, oldest first.
    pub closed spec fn keys_chrono(&self) -> Seq<StrokeKey> {
        self.chrono_order@
    }

    /// `Some(trashed)` from the trash component of the stroke, `None` without one.
    pub open spec fn spec_trashed(&self, key: StrokeKey) -> Option<bool> {
        if self.trash_map().contains_key(key) {
            Some(self.trash_map()[key].trashed)
        } else {
            None
        }
    }

    /// `Some(selected)` from the selection component of the stroke, `None` without one.
    pub open spec fn spec_selected(&self, key: StrokeKey) -> Option<bool> {
        if self.selection_map().contains_key(key) {
            Some(self.selection_map()[key].selected)
        } else {
            None
        }
    }

    /// The selected strokes, oldest first.
    pub open spec fn spec_selection_keys(&self) -> Seq<StrokeKey> {
        self.keys_chrono().filter(|k: StrokeKey| self.spec_selected(k) == Some(true))
    }

    /// The newest stroke, if there is any.
    pub open spec fn spec_last_stroke_key(&self) -> Option<StrokeKey> {
        if self.keys_chrono().len() == 0 {
            None
        } else {
            Some(self.keys_chrono().last())
        }
    }

    /// The newest selected stroke, if any stroke is selected.
    pub open spec fn spec_last_selection_key(&self) -> Option<StrokeKey> {
        if self.spec_selection_keys().len() == 0 {
            None
        } else {
            Some(self.spec_selection_keys().last())
        }
    }

    /// Under the invariant, `keys_chrono` is the chrono order of the chrono components, and
    /// there is no other.
    pub proof fn lemma_keys_chrono(&self, s: Seq<StrokeKey>)
        requires
            self.wf(),
            is_chrono_order(s, self.chrono_map()),
        ensures
            self.keys_chrono() == s,
    {
        lemma_chrono_order_unique(self.keys_chrono(), s, self.chrono_map());
    }

    /// Under the invariant, `keys_chrono` lists the strokes with a chrono component, oldest
    /// first.
    pub proof fn lemma_keys_chrono_order(&self)
        requires
            self.wf(),
        ensures
            is_chrono_order(self.keys_chrono(), self.chrono_map()),
    {
    }

    /// A state without strokes.
    pub fn new() -> (s: Self)
        ensures
            s.wf(),
            s.stroke_map() == Map::<StrokeKey, StrokeKind>::empty(),
            s.trash_map() == Map::<StrokeKey, TrashComponent>::empty(),
            s.selection_map() == Map::<StrokeKey, SelectionComponent>::empty(),
            s.chrono_map() == Map::<StrokeKey, ChronoComponent>::empty(),
            s.render_map() == Map::<StrokeKey, RenderComponentView<I, N>>::empty(),
            s.next_key() == 0,
    {
        let s = StrokesState {
            keys: Vec::new(),
            strokes: HashMap::new(),
            trash_components: HashMap::new(),
            selection_components: HashMap::new(),
            chrono_components: HashMap::new(),
            render_components: HashMap::new(),
            counter: 0,
            chrono_order: Ghost(Seq::empty()),
        };
        assert(s.render_map() =~= Map::<StrokeKey, RenderComponentView<I, N>>::empty());
        s
    }

    /// Adds a stroke of the given kind with all its components: not trashed, not selected,
    /// newer than every other stroke, and a render component that waits for its first
    /// rendering and shows `rendernode` until then. Returns the key of the new stroke.
    pub fn insert_stroke(&mut self, kind: StrokeKind, rendernode: N) -> (key: StrokeKey)
        requires
            old(self).wf(),
            old(self).next_key() < u64::MAX,
        ensures
            final(self).wf(),
            key == old(self).next_key(),
            final(self).next_key() == key + 1,
            !old(self).stroke_map().contains_key(key),
            final(self).stroke_map() == old(self).stroke_map().insert(key, kind),
            final(self).trash_map() == old(self).trash_map().insert(
                key,
                TrashComponent { trashed: false },
            ),
            final(self).selection_map() == old(self).selection_map().insert(
                key,
                SelectionComponent { selected: false },
            ),
            final(self).chrono_map() == old(self).chrono_map().insert(key, ChronoComponent { t: key }),
            final(self).render_map() == old(self).render_map().insert(
                key,
                RenderComponentView {
                    render: true,
                    regenerate_flag: true,
                    images: Seq::empty(),
                    rendernode,
                },
            ),
            final(self).keys_chrono() == old(self).keys_chrono().push(key),
            final(self).spec_last_stroke_key() == Some(key),
    {
        let key = self.counter;
        let comp = RenderComponent::new(rendernode);
        self.keys.push(key);
        self.strokes.insert(key, kind);
        self.trash_components.insert(key, TrashComponent { trashed: false });
        self.selection_components.insert(key, SelectionComponent { selected: false });
        self.chrono_components.insert(key, ChronoComponent { t: key });
        self.render_components.insert(key, comp);
        self.counter = key + 1;
        let ghost before = self.chrono_order@;
        self.chrono_order = Ghost(before.push(key));
        proof {
            assert(!old(self).keys@.contains(key));
            assert forall|i: int, j: int|
                0 <= i < self.keys@.len() && 0 <= j < self.keys@.len() && i != j implies self.keys@[i]
                != self.keys@[j] by {
                if i < old(self).keys@.len() && j < old(self).keys@.len() {
                    assert(old(self).keys@[i] != old(self).keys@[j]);
                } else if i < old(self).keys@.len() {
                    assert(old(self).keys@.contains(self.keys@[i]));
                } else if j < old(self).keys@.len() {
                    assert(old(self).keys@.contains(self.keys@[j]));
                }
            }
            lemma_push_contains(old(self).keys@, key);
            assert(self.keys@ == old(self).keys@.push(key));
            assert(self.render_map() =~= old(self).render_map().insert(key, comp@));
            let after = before.push(key);
            lemma_push_contains(before, key);
            assert(!before.contains(key));
            assert forall|i: int, j: int|
                0 <= i < after.len() && 0 <= j < after.len() && i != j implies after[i]
                != after[j] by {
                if i < before.len() && j < before.len() {
                    assert(before[i] != before[j]);
                } else if i < before.len() {
                    assert(before.contains(after[i]));
                } else if j < before.len() {
                    assert(before.contains(after[j]));
                }
            }
            assert forall|i: int, j: int| 0 <= i < j < after.len() implies self.chrono_map()[
                #[trigger] after[i]].t < self.chrono_map()[#[trigger] after[j]].t by {
                if j < before.len() {
                    assert(old(self).chrono_map()[before[i]].t < old(self).chrono_map()[before[j]].t);
                } else {
                    assert(before.contains(before[i]));
                    assert(old(self).chrono_components@.contains_key(before[i]));
                }
            }
            assert forall|k: StrokeKey| self.chrono_map().contains_key(k) <==> after.contains(k) by {
                if k != key {
                    assert(old(self).chrono_map().contains_key(k) <==> before.contains(k));
                }
            }
        }
        key
    }

    /// `Some(trashed)` for a stroke with a trash component, `None` otherwise.
    pub fn trashed(&self, key: StrokeKey) -> (r: Option<bool>)
        ensures
            r == self.spec_trashed(key),
    {
        match self.trash_components.get(&key) {
            Some(comp) => Some(comp.trashed),
            None => None,
        }
    }

    /// Moves a stroke to the trash or takes it out again; nothing happens to a stroke without a
    /// trash component.
    pub fn set_trashed(&mut self, key: StrokeKey, trashed: bool)
        requires
            old(self).wf(),
        ensures
            final(self).wf(),
            final(self).same_but_trash(old(self)),
            final(self).trash_map() == (if old(self).trash_map().contains_key(key) {
                old(self).trash_map().insert(key, TrashComponent { trashed })
            } else {
                old(self).trash_map()
            }),
    {
        if self.trash_components.contains_key(&key) {
            self.trash_components.insert(key, TrashComponent { trashed });
        }
    }

    /// `Some(selected)` for a stroke with a selection component, `None` otherwise.
    pub fn selected(&self, key: StrokeKey) -> (r: Option<bool>)
        ensures
            r == self.spec_selected(key),
    {
        match self.selection_components.get(&key) {
            Some(comp) => Some(comp.selected),
            None => None,
        }
    }

    /// Selects or deselects a stroke; nothing happens to a stroke without a selection component.
    pub fn set_selected(&mut self, key: StrokeKey, selected: bool)
        requires
            old(self).wf(),
        ensures
            final(self).wf(),
            final(self).same_but_selection(old(self)),
            final(self).selection_map() == (if old(self).selection_map().contains_key(key) {
                old(self).selection_map().insert(key, SelectionComponent { selected })
            } else {
                old(self).selection_map()
            }),
    {
        if self.selection_components.contains_key(&key) {
            self.selection_components.insert(key, SelectionComponent { selected });
        }
    }

    /// The keys of all strokes with a chrono component, oldest first.
    pub fn keys_sorted_chrono(&self) -> (keys: Vec<StrokeKey>)
        requires
            self.wf(),
        ensures
            keys@ == self.keys_chrono(),
            is_chrono_order(keys@, self.chrono_map()),
    {
        let ghost chrono = self.chrono_components@;
        let mut sorted: Vec<StrokeKey> = Vec::new();
        let mut ts: Vec<u64> = Vec::new();
        let n = self.keys.len();
        let mut i: usize = 0;
        while i < n
            invariant
                self.wf(),
                chrono == self.chrono_components@,
                n == self.keys@.len(),
                0 <= i <= n,
                sorted@.len() == ts@.len(),
                sorted@.no_duplicates(),
                forall|j: int| 0 <= j < sorted@.len() ==> chrono.contains_key(#[trigger] sorted@[j]),
                forall|j: int| 0 <= j < ts@.len() ==> #[trigger] ts@[j] == chrono[sorted@[j]].t,
                forall|j: int, l: int| 0 <= j < l < ts@.len() ==> ts@[j] < ts@[l],
                forall|k: StrokeKey|
                    sorted@.contains(k) <==> (chrono.contains_key(k) && self.keys@.take(
                        i as int,
                    ).contains(k)),
            decreases n - i,
        {
            let key = self.keys[i];
            proof {
                assert(self.keys@.take(i + 1) =~= self.keys@.take(i as int).push(key));
                lemma_push_contains(self.keys@.take(i as int), key);
                assert(!self.keys@.take(i as int).contains(key)) by {
                    if self.keys@.take(i as int).contains(key) {
                        let j = choose|j: int| 0 <= j < i && self.keys@.take(i as int)[j] == key;
                        assert(self.keys@[j] == self.keys@[i as int]);
                    }
                }
            }
            match self.chrono_components.get(&key) {
                Some(comp) => {
                    let t = comp.t;
                    let mut pos: usize = 0;
                    while pos < ts.len() && ts[pos] < t
                        invariant
                            0 <= pos <= ts@.len(),
                            forall|j: int| 0 <= j < pos ==> ts@[j] < t,
                        decreases ts@.len() - pos,
                    {
                        pos = pos + 1;
                    }
                    proof {
                        assert(!sorted@.contains(key));
                        assert forall|j: int| pos <= j < ts@.len() implies t < #[trigger] ts@[j] by {
                            assert(ts@[pos as int] >= t);
                            if pos < j {
                                assert(ts@[pos as int] < ts@[j]);
                            }
                            if ts@[j] == t {
                                assert(chrono[sorted@[j]].t == chrono[key].t);
                                assert(sorted@.contains(sorted@[j]));
                            }
                        }
                        sorted@.insert_ensures(pos as int, key);
                        ts@.insert_ensures(pos as int, t);
                    }
                    let ghost old_sorted = sorted@;
                    let ghost old_ts = ts@;
                    sorted.insert(pos, key);
                    ts.insert(pos, t);
                    proof {
                        assert forall|j: int| 0 <= j < ts@.len() implies #[trigger] ts@[j]
                            == chrono[sorted@[j]].t by {
                            if j < pos {
                                assert(ts@[j] == old_ts[j]);
                                assert(sorted@[j] == old_sorted[j]);
                            } else if j > pos {
                                assert(ts@[j] == old_ts[j - 1]);
                                assert(sorted@[j] == old_sorted[j - 1]);
                            }
                        }
                        assert forall|j: int, l: int| 0 <= j < l < ts@.len() implies ts@[j]
                            < ts@[l] by {
                            if l < pos {
                                assert(ts@[j] == old_ts[j] && ts@[l] == old_ts[l]);
                            } else if l == pos {
                                assert(ts@[j] == old_ts[j]);
                            } else if j < pos {
                                assert(ts@[j] == old_ts[j] && ts@[l] == old_ts[l - 1]);
                            } else if j == pos {
                                assert(ts@[l] == old_ts[l - 1]);
                            } else {
                                assert(ts@[j] == old_ts[j - 1] && ts@[l] == old_ts[l - 1]);
                            }
                        }
                        assert forall|j: int| 0 <= j < sorted@.len() implies chrono.contains_key(
                            #[trigger] sorted@[j],
                        ) by {
                            if j < pos {
                                assert(sorted@[j] == old_sorted[j]);
                            } else if j > pos {
                                assert(sorted@[j] == old_sorted[j - 1]);
                            }
                        }
                        assert forall|k: StrokeKey| sorted@.contains(k) <==> (old_sorted.contains(k)
                            || k == key) by {
                            if sorted@.contains(k) {
                                let j = choose|j: int| 0 <= j < sorted@.len() && sorted@[j] == k;
                                if j < pos {
                                    assert(old_sorted[j] == k);
                                } else if j > pos {
                                    assert(old_sorted[j - 1] == k);
                                }
                            }
                            if old_sorted.contains(k) {
                                let j = choose|j: int| 0 <= j < old_sorted.len() && old_sorted[j] == k;
                                if j < pos {
                                    assert(sorted@[j] == k);
                                } else {
                                    assert(sorted@[j + 1] == k);
                                }
                            }
                            if k == key {
                                assert(sorted@[pos as int] == key);
                            }
                        }
                        assert forall|j: int, l: int|
                            0 <= j < sorted@.len() && 0 <= l < sorted@.len() && j != l implies sorted@[j]
                            != sorted@[l] by {
                            if j < l {
                                assert(ts@[j] < ts@[l]);
                            } else {
                                assert(ts@[l] < ts@[j]);
                            }
                        }
                    }
                },
                None => {},
            }
            i = i + 1;
        }
        proof {
            assert(self.keys@.take(n as int) =~= self.keys@);
            assert forall|j: int, l: int| 0 <= j < l < sorted@.len() implies chrono[
                #[trigger] sorted@[j]].t < chrono[#[trigger] sorted@[l]].t by {
                assert(ts@[j] < ts@[l]);
            }
            assert forall|k: StrokeKey| chrono.contains_key(k) <==> sorted@.contains(k) by {
                if chrono.contains_key(k) {
                    assert(self.strokes@.contains_key(k));
                }
            }
            self.lemma_keys_chrono(sorted@);
        }
        sorted
    }

    /// The selected strokes, oldest first.
    pub fn selection_keys(&self) -> (keys: Vec<StrokeKey>)
        requires
            self.wf(),
        ensures
            keys@ == self.spec_selection_keys(),
    {
        let sorted = self.keys_sorted_chrono();
        let ghost pred = |k: StrokeKey| self.spec_selected(k) == Some(true);
        let mut keys: Vec<StrokeKey> = Vec::new();
        let mut i: usize = 0;
        while i < sorted.len()
            invariant
                0 <= i <= sorted@.len(),
                keys@ == sorted@.take(i as int).filter(pred),
                pred == (|k: StrokeKey| self.spec_selected(k) == Some(true)),
            decreases sorted@.len() - i,
        {
            let key = sorted[i];
            proof {
                reveal(Seq::filter);
                assert(sorted@.take(i + 1).drop_last() =~= sorted@.take(i as int));
            }
            match self.selected(key) {
                Some(true) => keys.push(key),
                _ => {},
            }
            i = i + 1;
        }
        proof {
            assert(sorted@.take(sorted@.len() as int) =~= sorted@);
        }
        keys
    }

    /// The newest stroke, if there is any.
    pub fn last_stroke_key(&self) -> (key: Option<StrokeKey>)
        requires
            self.wf(),
        ensures
            key == self.spec_last_stroke_key(),
    {
        let sorted = self.keys_sorted_chrono();
        if sorted.len() == 0 {
            None
        } else {
            Some(sorted[sorted.len() - 1])
        }
    }

    /// The newest selected stroke, if any stroke is selected.
    pub fn last_selection_key(&self) -> (key: Option<StrokeKey>)
        requires
            self.wf(),
        ensures
            key == self.spec_last_selection_key(),
    {
        let selection = self.selection_keys();
        if selection.len() == 0 {
            None
        } else {
            Some(selection[selection.len() - 1])
        }
    }
}

} // verus!
