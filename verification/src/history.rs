//! The undo and redo history of a map: the states that the map went
//! through, and a cursor among them.
use vstd::prelude::*;
use std::collections::VecDeque;
use crate::base::MapBase;
use crate::bundle::{Bundle, brushed, free_color, lemma_brushed_on_raster, mask_includes};
use crate::color::{Color, key_of, same_color};
use crate::extents::{Extents, Pos};
use crate::kinds::{BrushMask, ConnectionKind, ProvinceKind, ViewMode, mask_lets};
use crate::model::{is_remap, MapView, bounds, coastal, connected, flooded, painted, renamed, repainted, settled, toggled, with_coasts};
use crate::province::ProvinceView;
use crate::province_map::ProvinceMap;
use crate::tally::place;
use crate::palette::{picked_from, KindColors};
use crate::text::str_equal;
use crate::uord::UOrd;
use crate::edges::{edges_flagged, edges_placed};

verus! {

/// What kind of edit a state of the history came from. The two freehand
/// kinds carry the number of the stroke.
#[derive(Debug, Clone, Copy, PartialEq, Eq, Structural)]
pub enum StepOrigin {
    LoadMap,
    CalculateCoastalProvinces,
    CalculateRecolorMap,
    PaintProvinceKind,
    PaintProvinceTerrain,
    PaintProvinceContinent,
    PaintEntireProvince,
    PaintPixelLasso,
    PaintPixelBucket,
    PaintPixelArea(u32),
    PaintPixel(u32),
    AddOrRemoveConnection,
}

impl StepOrigin {
    /// Two edits are one step when they belong to one stroke of one
    /// freehand tool.
    pub open spec fn merges(self, other: StepOrigin) -> bool {
        match (self, other) {
            (StepOrigin::PaintPixelArea(a), StepOrigin::PaintPixelArea(b)) => a == b,
            (StepOrigin::PaintPixel(a), StepOrigin::PaintPixel(b)) => a == b,
            _ => false,
        }
    }

    pub fn can_merge_with(self, other: StepOrigin) -> (r: bool)
        ensures
            r == self.merges(other),
    {
        match (self, other) {
            (StepOrigin::PaintPixelArea(a), StepOrigin::PaintPixelArea(b)) => a == b,
            (StepOrigin::PaintPixel(a), StepOrigin::PaintPixel(b)) => a == b,
            _ => false,
        }
    }
}

/// What an undo or a redo did: the view in which the state that the map
/// is now in was made.
#[derive(Debug, Clone, Copy, PartialEq, Eq, Structural)]
pub struct Commit {
    pub view_mode: ViewMode,
}

/// A state of the history: the raster and the tables, complete, with the
/// edit that made them.
pub struct Step {
    base: MapBase,
    origin: StepOrigin,
    view_mode: ViewMode,
    finished: bool,
}

/// A state of the history as a value.
pub struct StepView {
    pub map: MapView,
    pub origin: StepOrigin,
    pub view_mode: ViewMode,
    /// A finished step takes no further edit of its stroke.
    pub finished: bool,
}

impl View for Step {
    type V = StepView;

    closed spec fn view(&self) -> StepView {
        StepView {
            map: self.base@,
            origin: self.origin,
            view_mode: self.view_mode,
            finished: self.finished,
        }
    }
}

impl StepView {
    /// Whether an edit of the given origin belongs to this step.
    pub open spec fn takes(self, origin: StepOrigin) -> bool {
        !self.finished && self.origin.merges(origin)
    }
}

/// The history as a value: the states, the oldest first, the place of the
/// state that the map is in, and the largest number of states kept.
pub struct HistoryView {
    pub states: Seq<StepView>,
    pub position: int,
    pub max_undo_states: int,
}

impl HistoryView {
    /// At least one state is held and at most as many as allowed; the
    /// cursor is at one of them, and every state is a well-formed map.
    pub open spec fn wf(self) -> bool {
        &&& self.max_undo_states >= 2
        &&& 1 <= self.states.len() <= self.max_undo_states
        &&& 0 <= self.position < self.states.len()
        &&& forall|i: int| 0 <= i < self.states.len() ==> (#[trigger] self.states[i]).map.wf()
    }

    /// The state that the map is in.
    pub open spec fn current(self) -> StepView {
        self.states[self.position]
    }

    pub open spec fn can_undo(self) -> bool {
        self.position > 0
    }

    pub open spec fn can_redo(self) -> bool {
        self.position + 1 < self.states.len()
    }

    /// The history one state back, or as it is at the oldest state.
    pub open spec fn undone(self) -> HistoryView {
        if self.can_undo() {
            HistoryView { position: self.position - 1, ..self }
        } else {
            self
        }
    }

    /// The history one state on, or as it is at the newest state.
    pub open spec fn redone(self) -> HistoryView {
        if self.can_redo() {
            HistoryView { position: self.position + 1, ..self }
        } else {
            self
        }
    }

    /// The history `n` undos back.
    pub open spec fn undone_times(self, n: nat) -> HistoryView
        decreases n,
    {
        if n == 0 {
            self
        } else {
            self.undone().undone_times((n - 1) as nat)
        }
    }

    /// The history `n` redos on.
    pub open spec fn redone_times(self, n: nat) -> HistoryView
        decreases n,
    {
        if n == 0 {
            self
        } else {
            self.redone().redone_times((n - 1) as nat)
        }
    }

    /// The history with the newest state finished.
    pub open spec fn finished(self) -> HistoryView {
        HistoryView {
            states: self.states.update(
                self.states.len() - 1,
                (StepView { finished: true, ..self.states.last() }),
            ),
            ..self
        }
    }

    /// The states after an edit, before any is dropped: what came after
    /// the cursor is gone; the new state stands in place of the one at the
    /// cursor where that takes the edit, and behind it where not.
    pub open spec fn grown(self, step: StepView) -> Seq<StepView> {
        let kept = self.states.take(self.position + 1);
        if self.current().takes(step.origin) {
            kept.update(self.position, step)
        } else {
            kept.push(step)
        }
    }

    /// The history after an edit: the new state is the newest and the
    /// cursor is at it; the oldest state is dropped where the states are
    /// more than allowed.
    pub open spec fn pushed(self, step: StepView) -> HistoryView {
        let grown = self.grown(step);
        if grown.len() > self.max_undo_states {
            HistoryView { states: grown.subrange(1, grown.len() as int), position: grown.len() - 2, ..self }
        } else {
            HistoryView { states: grown, position: grown.len() - 1, ..self }
        }
    }
}

/// The states of the history of a map, and the cursor among them.
pub struct History {
    steps: VecDeque<Step>,
    position: usize,
    max_undo_states: usize,
}

impl View for History {
    type V = HistoryView;

    closed spec fn view(&self) -> HistoryView {
        HistoryView {
            states: Seq::new(self.steps@.len(), |i: int| self.steps@[i]@),
            position: self.position as int,
            max_undo_states: self.max_undo_states as int,
        }
    }
}

impl History {
    pub open spec fn wf(&self) -> bool {
        self@.wf()
    }

    /// Whether the map is in the state at the cursor.
    pub open spec fn tracks(&self, map: &ProvinceMap) -> bool {
        self@.current().map == map@
    }

    /// The history of a map that was just loaded: its one state is that of
    /// the map.
    pub fn new(max_undo_states: usize, map: &ProvinceMap) -> (h: History)
        requires
            max_undo_states >= 2,
            map.wf(),
        ensures
            h.wf(),
            h.tracks(map),
            h@.states.len() == 1,
            h@.position == 0,
            h@.max_undo_states == max_undo_states,
            h@.states[0] == (StepView {
                map: map@,
                origin: StepOrigin::LoadMap,
                view_mode: ViewMode::Color,
                finished: false,
            }),
    {
        let mut steps: VecDeque<Step> = VecDeque::new();
        steps.push_back(
            Step {
                base: map.snapshot(),
                origin: StepOrigin::LoadMap,
                view_mode: ViewMode::Color,
                finished: false,
            },
        );
        History { steps, position: 0, max_undo_states }
    }

    /// Brings the map back to the state before the one it is in, if there
    /// is one.
    pub fn undo(&mut self, map: &mut ProvinceMap) -> (r: Option<Commit>)
        requires
            old(self).wf(),
        ensures
            final(self).wf(),
            final(self)@ == old(self)@.undone(),
            r is Some == old(self)@.can_undo(),
            r is Some ==> final(map)@ == final(self)@.current().map && final(map).exact()
                && r.unwrap().view_mode == final(self)@.current().view_mode,
            r is None ==> *final(map) == *old(map),
            final(map).id_count() == old(map).id_count(),
    {
        if self.position != 0 {
            self.position = self.position - 1;
            let step = &self.steps[self.position];
            proof {
                assert(self@.states[self.position as int].map.wf());
                assert(self@.states =~= old(self)@.states);
            }
            map.restore(&step.base);
            Some(Commit { view_mode: step.view_mode })
        } else {
            None
        }
    }

    /// Brings the map on to the state after the one it is in, if there is
    /// one.
    pub fn redo(&mut self, map: &mut ProvinceMap) -> (r: Option<Commit>)
        requires
            old(self).wf(),
        ensures
            final(self).wf(),
            final(self)@ == old(self)@.redone(),
            r is Some == old(self)@.can_redo(),
            r is Some ==> final(map)@ == final(self)@.current().map && final(map).exact()
                && r.unwrap().view_mode == final(self)@.current().view_mode,
            r is None ==> *final(map) == *old(map),
            final(map).id_count() == old(map).id_count(),
    {
        if self.position + 1 < self.steps.len() {
            self.position = self.position + 1;
            let step = &self.steps[self.position];
            proof {
                assert(self@.states[self.position as int].map.wf());
                assert(self@.states =~= old(self)@.states);
            }
            map.restore(&step.base);
            Some(Commit { view_mode: step.view_mode })
        } else {
            None
        }
    }

    /// Lets the newest state take no further edit of its stroke.
    pub fn finish_last_step(&mut self)
        requires
            old(self).wf(),
        ensures
            final(self).wf(),
            final(self)@ == old(self)@.finished(),
    {
        match self.steps.pop_back() {
            Some(mut step) => {
                step.finished = true;
                self.steps.push_back(step);
            },
            None => {},
        }
        proof {
            assert(self@.states =~= old(self)@.finished().states);
        }
    }

    /// Enters the state of the map as the newest state.
    fn push(&mut self, base: MapBase, origin: StepOrigin, view_mode: ViewMode)
        requires
            old(self).wf(),
            base.wf(),
        ensures
            final(self).wf(),
            final(self)@ == old(self)@.pushed(
                (StepView { map: base@, origin, view_mode, finished: false }),
            ),
            final(self)@.current().map == base@,
    {
        let ghost h = self@;
        let ghost sv = StepView { map: base@, origin, view_mode, finished: false };
        let step = Step { base, origin, view_mode, finished: false };
        self.steps.truncate(self.position + 1);
        let at = self.position;
        let merge = !self.steps[at].finished && self.steps[at].origin.can_merge_with(origin);
        if merge {
            self.steps.pop_back();
            self.steps.push_back(step);
        } else {
            self.steps.push_back(step);
            self.position = self.position + 1;
        }
        proof {
            assert(self@.states =~= h.grown(sv));
        }
        if self.steps.len() > self.max_undo_states {
            self.steps.pop_front();
            self.position = self.position - 1;
            proof {
                assert(self@.states =~= h.grown(sv).subrange(1, h.grown(sv).len() as int));
            }
        }
        proof {
            assert forall|i: int| 0 <= i < self@.states.len() implies (
            #[trigger] self@.states[i]).map.wf() by {
                let g = h.grown(sv);
                let kept = h.states.take(h.position + 1);
                assert forall|j: int| 0 <= j < g.len() implies (#[trigger] g[j]).map.wf() by {
                    if j < kept.len() && !(h.current().takes(origin) && j == h.position) {
                        assert(g[j] == h.states[j]);
                    }
                }
            }
        }
    }

    /// Enters the state that the map is in as the newest state.
    pub fn push_map_state(&mut self, map: &ProvinceMap, origin: StepOrigin, view_mode: ViewMode)
        requires
            old(self).wf(),
            map.wf(),
        ensures
            final(self).wf(),
            final(self)@ == old(self)@.pushed(
                (StepView { map: map@, origin, view_mode, finished: false }),
            ),
            final(self).tracks(map),
    {
        self.push(map.snapshot(), origin, view_mode);
    }
}

impl HistoryView {
    /// The history after an edit that left the map in the given state.
    pub open spec fn recorded(self, map: MapView, origin: StepOrigin, view_mode: ViewMode)
        -> HistoryView {
        self.pushed(StepView { map, origin, view_mode, finished: false })
    }
}

/// The map after a province got another kind, with the terrain that goes
/// with the kind, a continent that fits it, and a new colour.
pub open spec fn kind_painted(v: MapView, k: u32, kind: ProvinceKind, fresh: u32) -> MapView {
    renamed(
        v.with_province(
            k,
            ProvinceView {
                kind,
                terrain: kind.terrain_text(),
                continent: kind.fitting_continent(v.provinces[k].continent),
                ..v.provinces[k]
            },
        ),
        k,
        fresh,
    )
}

/// The kind that the settings give a terrain; unknown where they do not
/// know the terrain.
pub open spec fn terrain_kind_of(config: crate::config::Config, terrain: Seq<char>) -> ProvinceKind {
    match config.terrain_of(terrain) {
        Some(t) => t.kind,
        None => ProvinceKind::Unknown,
    }
}

/// The map after a province got another terrain, with the kind that goes
/// with the terrain and a continent that fits it, and a new colour where
/// the kind changed.
pub open spec fn terrain_painted(
    v: MapView,
    k: u32,
    kind: ProvinceKind,
    terrain: Seq<char>,
    fresh: u32,
) -> MapView {
    let n = v.with_province(
        k,
        ProvinceView {
            kind,
            terrain,
            continent: kind.fitting_continent(v.provinces[k].continent),
            ..v.provinces[k]
        },
    );
    if v.provinces[k].kind != kind {
        renamed(n, k, fresh)
    } else {
        n
    }
}

impl History {
    /// Paints one pixel, unless it has the colour already. Edits of one
    /// stroke, which have one number, are one step.
    pub fn paint_pixel(&mut self, bundle: &mut Bundle, pos: Pos, color: Color, id: u32) -> (r:
        Option<Extents>)
        requires
            old(self).wf(),
            old(bundle).map.wf(),
            old(bundle).map@.has(pos[0] as int, pos[1] as int),
        ensures
            final(self).wf(),
            final(bundle).map.wf(),
            final(bundle).config == old(bundle).config,
            final(bundle).preserved_unsupported_adjacencies == old(bundle).preserved_unsupported_adjacencies,
            final(bundle).map.id_count() == old(bundle).map.id_count(),
            old(bundle).map.exact() ==> final(bundle).map.exact(),
            r is Some == (old(bundle).map@.at(pos[0] as int, pos[1] as int) != key_of(color)),
            r is Some ==> r == Some(Extents::spec_point(pos)) && final(bundle).map@ == settled(
                old(bundle).map@,
                old(bundle).map@.pixels.update(
                    place(pos[0] as int, pos[1] as int, old(bundle).map@.width as int),
                    key_of(color),
                ),
            ) && final(self)@ == old(self)@.recorded(
                final(bundle).map@,
                StepOrigin::PaintPixel(id),
                ViewMode::Color,
            ),
            r is None ==> final(self)@ == old(self)@ && final(bundle).map == old(bundle).map,
    {
        if !same_color(bundle.map.get_color_at(pos), color) {
            bundle.map.put_pixel(pos, color);
            self.push_map_state(&bundle.map, StepOrigin::PaintPixel(id), ViewMode::Color);
            Some(Extents::new_point(pos))
        } else {
            None
        }
    }

    /// Paints those of the pixels under a round brush that are of another
    /// colour and that the mask lets through, if there is one. `extents`
    /// is the box of the brush and `candidates` are the positions under
    /// it. Edits of one stroke, which have one number, are one step.
    pub fn paint_pixel_area(
        &mut self,
        bundle: &mut Bundle,
        extents: Extents,
        candidates: &Vec<Pos>,
        color: Color,
        mask: Option<BrushMask>,
        id: u32,
    ) -> (r: Option<Extents>)
        requires
            old(self).wf(),
            old(bundle).map.wf(),
        ensures
            final(self).wf(),
            final(bundle).map.wf(),
            final(bundle).config == old(bundle).config,
            final(bundle).preserved_unsupported_adjacencies == old(bundle).preserved_unsupported_adjacencies,
            final(bundle).map.id_count() == old(bundle).map.id_count(),
            old(bundle).map.exact() ==> final(bundle).map.exact(),
            r is Some == (brushed(old(bundle).map@, candidates@, key_of(color), mask).len() > 0),
            r is Some ==> r == Some(extents) && final(bundle).map@ == settled(
                old(bundle).map@,
                painted(
                    old(bundle).map@.pixels,
                    old(bundle).map@.width as int,
                    brushed(old(bundle).map@, candidates@, key_of(color), mask),
                    key_of(color),
                ),
            ) && final(self)@ == old(self)@.recorded(
                final(bundle).map@,
                StepOrigin::PaintPixelArea(id),
                ViewMode::Color,
            ),
            r is None ==> final(self)@ == old(self)@ && final(bundle).map == old(bundle).map,
    {
        let pixels = bundle.brush_pixels(candidates, color, mask);
        if pixels.len() > 0 {
            proof {
                lemma_brushed_on_raster(bundle.map@, candidates@, key_of(color), mask);
            }
            bundle.map.put_many_pixels(color, &pixels);
            self.push_map_state(&bundle.map, StepOrigin::PaintPixelArea(id), ViewMode::Color);
            Some(extents)
        } else {
            None
        }
    }

    /// Paints those of the pixels inside a lasso that are of another
    /// colour and that the mask lets through, if there is one. `extents`
    /// is the box of the lasso and `candidates` are the positions inside
    /// it.
    pub fn paint_pixel_lasso(
        &mut self,
        bundle: &mut Bundle,
        extents: Extents,
        candidates: &Vec<Pos>,
        color: Color,
        mask: Option<BrushMask>,
    ) -> (r: Option<Extents>)
        requires
            old(self).wf(),
            old(bundle).map.wf(),
        ensures
            final(self).wf(),
            final(bundle).map.wf(),
            final(bundle).config == old(bundle).config,
            final(bundle).preserved_unsupported_adjacencies == old(bundle).preserved_unsupported_adjacencies,
            final(bundle).map.id_count() == old(bundle).map.id_count(),
            old(bundle).map.exact() ==> final(bundle).map.exact(),
            r is Some == (brushed(old(bundle).map@, candidates@, key_of(color), mask).len() > 0),
            r is Some ==> r == Some(extents) && final(bundle).map@ == settled(
                old(bundle).map@,
                painted(
                    old(bundle).map@.pixels,
                    old(bundle).map@.width as int,
                    brushed(old(bundle).map@, candidates@, key_of(color), mask),
                    key_of(color),
                ),
            ) && final(self)@ == old(self)@.recorded(
                final(bundle).map@,
                StepOrigin::PaintPixelLasso,
                ViewMode::Color,
            ),
            r is None ==> final(self)@ == old(self)@ && final(bundle).map == old(bundle).map,
    {
        let pixels = bundle.brush_pixels(candidates, color, mask);
        if pixels.len() > 0 {
            proof {
                lemma_brushed_on_raster(bundle.map@, candidates@, key_of(color), mask);
            }
            bundle.map.put_many_pixels(color, &pixels);
            self.push_map_state(&bundle.map, StepOrigin::PaintPixelLasso, ViewMode::Color);
            Some(extents)
        } else {
            None
        }
    }

    /// Fills the pixels connected to a position with a colour, unless they
    /// have it already or the mask keeps their province out.
    pub fn paint_pixel_bucket(
        &mut self,
        bundle: &mut Bundle,
        pos: Pos,
        color: Color,
        mask: Option<BrushMask>,
    ) -> (r: Option<Extents>)
        requires
            old(self).wf(),
            old(bundle).map.wf(),
            old(bundle).map@.has(pos[0] as int, pos[1] as int),
        ensures
            final(self).wf(),
            final(bundle).map.wf(),
            final(bundle).config == old(bundle).config,
            final(bundle).preserved_unsupported_adjacencies == old(bundle).preserved_unsupported_adjacencies,
            final(bundle).map.id_count() == old(bundle).map.id_count(),
            old(bundle).map.exact() ==> final(bundle).map.exact(),
            r is Some == (old(bundle).map@.at(pos[0] as int, pos[1] as int) != key_of(color)
                && mask_lets(
                mask,
                old(bundle).map@.provinces[old(bundle).map@.at(pos[0] as int, pos[1] as int)].kind,
            )),
            r is Some ==> final(bundle).map@ == settled(
                old(bundle).map@,
                flooded(
                    old(bundle).map@.pixels,
                    old(bundle).map@.width as int,
                    place(pos[0] as int, pos[1] as int, old(bundle).map@.width as int),
                    key_of(color),
                ),
            ) && bounds(
                r.unwrap(),
                old(bundle).map@.width as int,
                Set::new(
                    |i: int|
                        0 <= i < old(bundle).map@.pixels.len() && connected(
                            old(bundle).map@.pixels,
                            old(bundle).map@.width as int,
                            place(pos[0] as int, pos[1] as int, old(bundle).map@.width as int),
                            i,
                        ),
                ),
            ) && final(self)@ == old(self)@.recorded(
                final(bundle).map@,
                StepOrigin::PaintPixelBucket,
                ViewMode::Color,
            ),
            r is None ==> final(self)@ == old(self)@ && final(bundle).map == old(bundle).map,
    {
        let which = bundle.map.get_color_at(pos);
        let previous_kind = bundle.map.get_province(which).kind;
        if mask_includes(mask, previous_kind) && !same_color(which, color) {
            let extents = bundle.map.flood_fill_province(pos, color);
            self.push_map_state(&bundle.map, StepOrigin::PaintPixelBucket, ViewMode::Color);
            Some(extents)
        } else {
            None
        }
    }

    /// Gives the whole province at a position another colour, unless it
    /// has that colour. Where another province has the colour, the pixels
    /// go to that province.
    pub fn paint_entire_province(&mut self, bundle: &mut Bundle, pos: Pos, fill_color: Color) -> (r:
        Option<Extents>)
        requires
            old(self).wf(),
            old(bundle).map.wf(),
            old(bundle).map@.has(pos[0] as int, pos[1] as int),
        ensures
            final(self).wf(),
            final(bundle).map.wf(),
            final(bundle).config == old(bundle).config,
            final(bundle).preserved_unsupported_adjacencies == old(bundle).preserved_unsupported_adjacencies,
            final(bundle).map.id_count() == old(bundle).map.id_count(),
            old(bundle).map.exact() ==> final(bundle).map.exact(),
            r is Some == (old(bundle).map@.at(pos[0] as int, pos[1] as int) != key_of(fill_color)),
            r is Some ==> final(bundle).map@ == repainted(
                old(bundle).map@,
                old(bundle).map@.at(pos[0] as int, pos[1] as int),
                key_of(fill_color),
            ) && bounds(
                r.unwrap(),
                old(bundle).map@.width as int,
                MapBase::places_of(
                    old(bundle).map@.pixels,
                    old(bundle).map@.at(pos[0] as int, pos[1] as int),
                ),
            ) && final(self)@ == old(self)@.recorded(
                final(bundle).map@,
                StepOrigin::PaintEntireProvince,
                ViewMode::Color,
            ),
            r is None ==> final(self)@ == old(self)@ && final(bundle).map == old(bundle).map,
    {
        let which = bundle.map.get_color_at(pos);
        proof {
            crate::color::lemma_key_round_trip(which);
        }
        if !same_color(which, fill_color) {
            let extents = bundle.map.recolor_province(which, fill_color);
            self.push_map_state(&bundle.map, StepOrigin::PaintEntireProvince, ViewMode::Color);
            Some(extents)
        } else {
            None
        }
    }

    /// Gives the province at a position another continent, if that fits
    /// its kind and is not the one it has.
    pub fn paint_province_continent(&mut self, bundle: &mut Bundle, pos: Pos, continent: u16) -> (r:
        Option<Extents>)
        requires
            old(self).wf(),
            old(bundle).map.wf(),
            old(bundle).map@.has(pos[0] as int, pos[1] as int),
        ensures
            final(self).wf(),
            final(bundle).map.wf(),
            final(bundle).config == old(bundle).config,
            final(bundle).preserved_unsupported_adjacencies == old(bundle).preserved_unsupported_adjacencies,
            final(bundle).map.id_count() == old(bundle).map.id_count(),
            old(bundle).map.exact() ==> final(bundle).map.exact(),
            ({
                let v = old(bundle).map@;
                let k = v.at(pos[0] as int, pos[1] as int);
                &&& r is Some == (v.provinces[k].continent != continent
                    && v.provinces[k].kind.continent_fits(continent))
                &&& r is Some ==> final(bundle).map@ == v.with_province(
                    k,
                    ProvinceView { continent, ..v.provinces[k] },
                ) && bounds(r.unwrap(), v.width as int, MapBase::places_of(v.pixels, k))
            }),
            r is Some ==> final(self)@ == old(self)@.recorded(
                final(bundle).map@,
                StepOrigin::PaintProvinceContinent,
                ViewMode::Continent,
            ),
            r is None ==> final(self)@ == old(self)@ && final(bundle).map == old(bundle).map,
    {
        let which = bundle.map.get_color_at(pos);
        let province_data = bundle.map.get_province(which);
        let valid_continent = province_data.kind.valid_continent_id(continent);
        if province_data.continent != continent && valid_continent {
            let extents = bundle.map.get_color_extents(which);
            bundle.map.set_province_continent(which, continent);
            self.push_map_state(
                &bundle.map,
                StepOrigin::PaintProvinceContinent,
                ViewMode::Continent,
            );
            Some(extents)
        } else {
            None
        }
    }

    /// Gives the province at a position another kind, with the terrain
    /// that goes with the kind, a continent that fits it, and the new
    /// colour `repaint`. Nothing is done where the province is of the kind
    /// already, where the kind is unknown, or where the new colour cannot
    /// be given to a province.
    pub fn paint_province_kind(
        &mut self,
        bundle: &mut Bundle,
        pos: Pos,
        kind: ProvinceKind,
        repaint: Color,
    ) -> (r: Option<Extents>)
        requires
            old(self).wf(),
            old(bundle).map.wf(),
            old(bundle).map@.has(pos[0] as int, pos[1] as int),
        ensures
            final(self).wf(),
            final(bundle).map.wf(),
            final(bundle).config == old(bundle).config,
            final(bundle).preserved_unsupported_adjacencies == old(bundle).preserved_unsupported_adjacencies,
            final(bundle).map.id_count() == old(bundle).map.id_count(),
            old(bundle).map.exact() ==> final(bundle).map.exact(),
            ({
                let v = old(bundle).map@;
                let k = v.at(pos[0] as int, pos[1] as int);
                &&& r is Some == (v.provinces[k].kind != kind && kind != ProvinceKind::Unknown
                    && free_color(v, key_of(repaint)))
                &&& r is Some ==> final(bundle).map@ == kind_painted(v, k, kind, key_of(repaint))
                    && bounds(r.unwrap(), v.width as int, MapBase::places_of(v.pixels, k))
            }),
            r is Some ==> final(self)@ == old(self)@.recorded(
                final(bundle).map@,
                StepOrigin::PaintProvinceKind,
                ViewMode::Kind,
            ),
            r is None ==> final(self)@ == old(self)@ && final(bundle).map == old(bundle).map,
    {
        let which = bundle.map.get_color_at(pos);
        let province_data = bundle.map.get_province(which);
        if province_data.kind != kind && kind != ProvinceKind::Unknown && bundle.accepts_color(
            repaint,
        ) {
            let terrain = kind.default_terrain();
            let continent = kind.correct_continent_id(province_data.continent);
            bundle.map.set_province_meta(which, kind, terrain, continent);
            let extents = bundle.map.recolor_province(which, repaint);
            self.push_map_state(&bundle.map, StepOrigin::PaintProvinceKind, ViewMode::Kind);
            Some(extents)
        } else {
            None
        }
    }

    /// Gives the province at a position another terrain, with the kind
    /// that the settings give the terrain and a continent that fits it,
    /// and, where the kind changes, the new colour `repaint`. Nothing is
    /// done where the province has the terrain already, or where it needs
    /// a new colour and `repaint` cannot be given to a province.
    pub fn paint_province_terrain(
        &mut self,
        bundle: &mut Bundle,
        pos: Pos,
        terrain: String,
        repaint: Color,
    ) -> (r: Option<Extents>)
        requires
            old(self).wf(),
            old(bundle).map.wf(),
            old(bundle).map@.has(pos[0] as int, pos[1] as int),
        ensures
            final(self).wf(),
            final(bundle).map.wf(),
            final(bundle).config == old(bundle).config,
            final(bundle).preserved_unsupported_adjacencies == old(bundle).preserved_unsupported_adjacencies,
            final(bundle).map.id_count() == old(bundle).map.id_count(),
            old(bundle).map.exact() ==> final(bundle).map.exact(),
            ({
                let v = old(bundle).map@;
                let k = v.at(pos[0] as int, pos[1] as int);
                let kind = terrain_kind_of(old(bundle).config, terrain@);
                &&& r is Some == (v.provinces[k].terrain != terrain@ && (v.provinces[k].kind
                    != kind ==> free_color(v, key_of(repaint))))
                &&& r is Some ==> final(bundle).map@ == terrain_painted(
                    v,
                    k,
                    kind,
                    terrain@,
                    key_of(repaint),
                ) && bounds(r.unwrap(), v.width as int, MapBase::places_of(v.pixels, k))
            }),
            r is Some ==> final(self)@ == old(self)@.recorded(
                final(bundle).map@,
                StepOrigin::PaintProvinceTerrain,
                ViewMode::Terrain,
            ),
            r is None ==> final(self)@ == old(self)@ && final(bundle).map == old(bundle).map,
    {
        let which = bundle.map.get_color_at(pos);
        let province_data = bundle.map.get_province(which);
        if str_equal(province_data.terrain.as_str(), terrain.as_str()) {
            return None;
        }
        let kind = match bundle.config.terrain_kind(terrain.as_str()) {
            Some(kind) => kind,
            None => ProvinceKind::Unknown,
        };
        let continent = kind.correct_continent_id(province_data.continent);
        let needs_repaint = province_data.kind != kind;
        if needs_repaint && !bundle.accepts_color(repaint) {
            return None;
        }
        bundle.map.set_province_meta(which, kind, terrain, continent);
        let extents = if needs_repaint {
            bundle.map.recolor_province(which, repaint)
        } else {
            bundle.map.get_color_extents(which)
        };
        self.push_map_state(&bundle.map, StepOrigin::PaintProvinceTerrain, ViewMode::Terrain);
        Some(extents)
    }

    /// Enters a connection of a kind between two provinces, changes the
    /// kind of the one that is there, or removes it if it is of this
    /// kind; then brings the flags of the boundary set in line. Nothing is
    /// done for a province and itself, or for a colour that no province
    /// has.
    pub fn add_or_remove_connection(
        &mut self,
        bundle: &mut Bundle,
        rel: UOrd<Color>,
        kind: ConnectionKind,
    ) -> (r: bool)
        requires
            old(self).wf(),
            old(bundle).map.wf(),
        ensures
            final(self).wf(),
            final(bundle).map.wf(),
            final(bundle).config == old(bundle).config,
            final(bundle).preserved_unsupported_adjacencies == old(bundle).preserved_unsupported_adjacencies,
            final(bundle).map.id_count() == old(bundle).map.id_count(),
            old(bundle).map.exact() ==> final(bundle).map.exact(),
            r == (rel.a != rel.b && old(bundle).map@.provinces.contains_key(key_of(rel.a)) && old(bundle).map@.provinces.contains_key(key_of(rel.b))),
            r ==> final(bundle).map@ == old(bundle).map@.with_connections(
                toggled(old(bundle).map@.connections, rel.spec_key(), kind),
            ) && final(self)@ == old(self)@.recorded(
                final(bundle).map@,
                StepOrigin::AddOrRemoveConnection,
                ViewMode::Adjacencies,
            ),
            r ==> final(bundle).map.boundaries().dom() == old(bundle).map.boundaries().dom(),
            r ==> edges_flagged(final(bundle).map@, final(bundle).map.boundaries()),
            r && edges_placed(old(bundle).map@, old(bundle).map.boundaries()) ==> final(bundle).map.exact(),
            !r ==> final(self)@ == old(self)@ && final(bundle).map == old(bundle).map,
    {
        if rel.is_distinct() && bundle.map.has_province(rel.a) && bundle.map.has_province(rel.b) {
            let ghost v = bundle.map@;
            let ghost b = bundle.map.boundaries();
            bundle.map.add_or_remove_connection(rel, kind);
            proof {
                if old(bundle).map.exact() {
                    crate::edges::lemma_exact_placed(v, b);
                }
                if edges_placed(v, b) {
                    crate::edges::lemma_placed_after_toggle(v, bundle.map@, b);
                }
            }
            bundle.map.recalculate_specialness();
            self.push_map_state(
                &bundle.map,
                StepOrigin::AddOrRemoveConnection,
                ViewMode::Adjacencies,
            );
            true
        } else {
            false
        }
    }

    /// Gives every province another colour, as `recolor_everything` of the
    /// map does, if there are enough colours for each kind.
    pub fn calculate_recolor_map(&mut self, bundle: &mut Bundle, colors: &KindColors) -> (r: bool)
        requires
            old(self).wf(),
            old(bundle).map.wf(),
        ensures
            final(self).wf(),
            final(bundle).map.wf(),
            final(bundle).config == old(bundle).config,
            final(bundle).preserved_unsupported_adjacencies == old(bundle).preserved_unsupported_adjacencies,
            final(bundle).map.id_count() == old(bundle).map.id_count(),
            r == colors.enough_for(old(bundle).map@),
            r ==> final(bundle).map.exact() && (exists|f: Map<u32, u32>| #[trigger]
                is_remap(old(bundle).map@, final(bundle).map@, f) && picked_from(
                    old(bundle).map@,
                    f,
                    *colors,
                )) && final(self)@ == old(self)@.recorded(
                final(bundle).map@,
                StepOrigin::CalculateRecolorMap,
                ViewMode::Color,
            ),
            !r ==> final(self)@ == old(self)@ && final(bundle).map == old(bundle).map,
    {
        match bundle.map.recolor_everything(colors) {
            Some(f) => {
                proof {
                    assert(is_remap(old(bundle).map@, bundle.map@, f@) && picked_from(
                        old(bundle).map@,
                        f@,
                        *colors,
                    ));
                }
                self.push_map_state(&bundle.map, StepOrigin::CalculateRecolorMap, ViewMode::Color);
                true
            },
            None => false,
        }
    }

    /// Says of every province whether it is coastal, as the raster shows,
    /// unless that is what the provinces say already.
    pub fn calculate_coastal_provinces(&mut self, bundle: &mut Bundle) -> (r: bool)
        requires
            old(self).wf(),
            old(bundle).map.wf(),
        ensures
            final(self).wf(),
            final(bundle).map.wf(),
            final(bundle).config == old(bundle).config,
            final(bundle).preserved_unsupported_adjacencies == old(bundle).preserved_unsupported_adjacencies,
            final(bundle).map.id_count() == old(bundle).map.id_count(),
            old(bundle).map.exact() ==> final(bundle).map.exact(),
            r == exists|k: u32| #[trigger]
                old(bundle).map@.provinces.contains_key(k) && old(bundle).map@.provinces[k].coastal
                    != Some(coastal(old(bundle).map@, k)),
            r ==> final(bundle).map@ == (MapView {
                provinces: with_coasts(old(bundle).map@),
                ..old(bundle).map@
            }) && final(self)@ == old(self)@.recorded(
                final(bundle).map@,
                StepOrigin::CalculateCoastalProvinces,
                ViewMode::Coastal,
            ),
            !r ==> final(self)@ == old(self)@ && final(bundle).map == old(bundle).map,
    {
        broadcast use vstd::std_specs::hash::group_hash_axioms;

        let ghost v = bundle.map@;
        let table = bundle.map.calculate_coastal_provinces();
        let keys = bundle.map.base().province_keys();
        let mut differs = false;
        let mut n: usize = 0;
        while n < keys.len() && !differs
            invariant
                n <= keys@.len(),
                v == bundle.map@,
                keys@.to_set() == v.provinces.dom(),
                table@.dom() == v.provinces.dom(),
                forall|k: u32| #[trigger]
                    table@.contains_key(k) ==> table@[k] == Some(coastal(v, k)),
                !differs ==> forall|m: int|
                    0 <= m < n ==> v.provinces[#[trigger] keys@[m]].coastal == Some(
                        coastal(v, keys@[m]),
                    ),
                differs ==> exists|k: u32| #[trigger]
                    v.provinces.contains_key(k) && v.provinces[k].coastal != Some(coastal(v, k)),
            decreases keys@.len() - n, if differs { 0int } else { 1int },
        {
            let k = keys[n];
            proof {
                assert(keys@.to_set().contains(keys@[n as int]));
                assert(v.provinces.contains_key(k));
                assert(table@.contains_key(k));
            }
            let want = match table.get(&k) {
                Some(f) => *f,
                None => None,
            };
            let have = bundle.map.base().province(k).coastal;
            let same = match (have, want) {
                (Some(a), Some(b)) => a == b,
                (None, None) => true,
                _ => false,
            };
            if !same {
                differs = true;
            } else {
                n += 1;
            }
        }
        if differs {
            bundle.map.apply_coastal(&table);
            self.push_map_state(
                &bundle.map,
                StepOrigin::CalculateCoastalProvinces,
                ViewMode::Coastal,
            );
            true
        } else {
            proof {
                assert forall|k: u32| #[trigger] v.provinces.contains_key(k) implies v.provinces[k].coastal
                    == Some(coastal(v, k)) by {
                    assert(keys@.to_set().contains(k));
                    let m = choose|m: int| 0 <= m < keys@.len() && keys@[m] == k;
                    assert(keys@[m] == k);
                }
            }
            false
        }
    }
}

/// Undoing a number of times and redoing as many times, where that many
/// states lie before the cursor, brings the history back to where it was,
/// and with it the state that the map is in.
pub proof fn lemma_undo_redo_round_trip(h: HistoryView, n: nat)
    requires
        h.wf(),
        n <= h.position,
    ensures
        h.undone_times(n).redone_times(n) == h,
        h.undone_times(n).redone_times(n).current() == h.current(),
        h.undone_times(n).position == h.position - n,
        h.undone_times(n).wf(),
    decreases n,
{
    if n > 0 {
        let u = h.undone();
        lemma_undo_redo_round_trip(u, (n - 1) as nat);
        let v = u.undone_times((n - 1) as nat);
        lemma_redo_last(v, (n - 1) as nat);
    }
}

/// From the newest state, undoing any number of times and redoing as
/// many times brings the history back to the newest state: after any
/// number of edits, as many undos and then as many redos leave the map as
/// the edits left it.
pub proof fn lemma_undo_redo_from_newest(h: HistoryView, n: nat)
    requires
        h.wf(),
        h.position == h.states.len() - 1,
    ensures
        h.undone_times(n).redone_times(n) == h,
{
    if n <= h.position {
        lemma_undo_redo_round_trip(h, n);
    } else {
        lemma_undo_lands_on_valid(h, n);
        let u = h.undone_times(n);
        assert(u.position == 0 && u.states == h.states && u.max_undo_states == h.max_undo_states) by {
            lemma_undone_keeps(h, n);
        }
        lemma_redo_reaches(u, n);
    }
}

/// Undoing changes the cursor only.
proof fn lemma_undone_keeps(h: HistoryView, n: nat)
    ensures
        h.undone_times(n).states == h.states,
        h.undone_times(n).max_undo_states == h.max_undo_states,
    decreases n,
{
    if n > 0 {
        lemma_undone_keeps(h.undone(), (n - 1) as nat);
    }
}

/// Redoing as many times as states lie behind the cursor, or more, ends
/// at the newest state.
proof fn lemma_redo_reaches(h: HistoryView, n: nat)
    requires
        h.wf(),
        h.position + n >= h.states.len() - 1,
    ensures
        h.redone_times(n) == (HistoryView { position: h.states.len() - 1, ..h }),
    decreases n,
{
    if n > 0 {
        if h.can_redo() {
            lemma_redo_reaches(h.redone(), (n - 1) as nat);
        } else {
            lemma_redo_reaches(h, (n - 1) as nat);
            assert(h.redone() == h);
        }
    }
}

/// Redoing once more after a number of redos is redoing once first.
proof fn lemma_redo_last(h: HistoryView, n: nat)
    ensures
        h.redone_times(n + 1) == h.redone_times(n).redone(),
    decreases n,
{
    if n > 0 {
        lemma_redo_last(h.redone(), (n - 1) as nat);
        assert(h.redone_times(n + 1) == h.redone().redone_times(n));
        assert(h.redone_times(n) == h.redone().redone_times((n - 1) as nat));
    } else {
        assert(h.redone_times(1) == h.redone().redone_times(0));
        assert(h.redone().redone_times(0) == h.redone());
        assert(h.redone_times(0) == h);
    }
}

/// An edit leaves the history with no more states than allowed, the
/// cursor at the newest, and every state a well-formed map.
pub proof fn lemma_pushed_bounded(h: HistoryView, step: StepView)
    requires
        h.wf(),
        step.map.wf(),
    ensures
        h.pushed(step).wf(),
        h.pushed(step).states.len() <= h.max_undo_states,
        h.pushed(step).position == h.pushed(step).states.len() - 1,
        h.pushed(step).current() == step,
        !h.pushed(step).can_redo(),
{
    let g = h.grown(step);
    let kept = h.states.take(h.position + 1);
    assert forall|j: int| 0 <= j < g.len() implies (#[trigger] g[j]).map.wf() by {
        if j < kept.len() && !(h.current().takes(step.origin) && j == h.position) {
            assert(g[j] == h.states[j]);
        }
    }
}

/// However far the history is undone, the state at the cursor is a
/// well-formed map, and at the oldest state no undo is left.
pub proof fn lemma_undo_lands_on_valid(h: HistoryView, n: nat)
    requires
        h.wf(),
    ensures
        h.undone_times(n).wf(),
        h.undone_times(n).current().map.wf(),
        h.undone_times(n).states == h.states,
        n >= h.position ==> h.undone_times(n).position == 0,
    decreases n,
{
    if n > 0 {
        lemma_undo_lands_on_valid(h.undone(), (n - 1) as nat);
    }
}

} // verus!
