//! The brushes that the editing tools paint with: one for each view of
//! the map, chosen by name, picked from the map or gone through in turn.
use vstd::prelude::*;
use vstd::string::StringExecFns;

use crate::color::{color_text, stringify_color, Color};
use crate::command::{Selection, SelectionView};
use crate::kinds::{BrushMask, ConnectionKind, DefinitionKind, ViewMode};
use crate::province::{ProvinceData, ProvinceView};
use crate::text::{decimal, decimal_string, pad_right, padded_right, str_equal, uppercase, uppered};
use crate::uord::UOrd;
use crate::extents::Pos;

verus! {

/// The name of a kind in capitals, as the brush is shown.
pub open spec fn kind_label(kind: DefinitionKind) -> Seq<char> {
    match kind {
        DefinitionKind::Land => "LAND"@,
        DefinitionKind::Sea => "SEA"@,
        DefinitionKind::Lake => "LAKE"@,
    }
}

/// The name of a kind of connection in capitals.
pub open spec fn connection_label(kind: ConnectionKind) -> Seq<char> {
    match kind {
        ConnectionKind::Strait => "STRAIT"@,
        ConnectionKind::Canal => "CANAL"@,
        ConnectionKind::Impassable => "IMPASSABLE"@,
    }
}

/// The name of a mask in capitals.
pub open spec fn mask_label(mask: BrushMask) -> Seq<char> {
    match mask {
        BrushMask::LandLakes => "LAND + LAKES"@,
        BrushMask::Sea => "SEA"@,
    }
}

pub fn kind_name(kind: DefinitionKind) -> (s: &'static str)
    ensures
        s@ == kind_label(kind),
{
    match kind {
        DefinitionKind::Land => "LAND",
        DefinitionKind::Sea => "SEA",
        DefinitionKind::Lake => "LAKE",
    }
}

pub fn connection_name(kind: ConnectionKind) -> (s: &'static str)
    ensures
        s@ == connection_label(kind),
{
    match kind {
        ConnectionKind::Strait => "STRAIT",
        ConnectionKind::Canal => "CANAL",
        ConnectionKind::Impassable => "IMPASSABLE",
    }
}

pub fn mask_name(mask: BrushMask) -> (s: &'static str)
    ensures
        s@ == mask_label(mask),
{
    match mask {
        BrushMask::LandLakes => "LAND + LAKES",
        BrushMask::Sea => "SEA",
    }
}

/// The brushes of the tools, one for each view, with the mask of the
/// colour brush and the province that a connection was begun at.
#[derive(Debug, Clone)]
pub struct ToolSettings {
    pub color_brush: Option<Color>,
    pub kind_brush: Option<DefinitionKind>,
    pub terrain_brush: Option<String>,
    pub continent_brush: Option<u16>,
    pub adjacency_brush: Option<ConnectionKind>,
    pub adjacency_selection: Option<Color>,
    pub brush_mask: Option<BrushMask>,
    pub lasso_snap: bool,
}

/// The brushes as values.
pub struct ToolView {
    pub color_brush: Option<Color>,
    pub kind_brush: Option<DefinitionKind>,
    pub terrain_brush: Option<Seq<char>>,
    pub continent_brush: Option<u16>,
    pub adjacency_brush: Option<ConnectionKind>,
    pub adjacency_selection: Option<Color>,
    pub brush_mask: Option<BrushMask>,
    pub lasso_snap: bool,
}

impl View for ToolSettings {
    type V = ToolView;

    open spec fn view(&self) -> ToolView {
        ToolView {
            color_brush: self.color_brush,
            kind_brush: self.kind_brush,
            terrain_brush: match self.terrain_brush {
                Some(name) => Some(name@),
                None => None,
            },
            continent_brush: self.continent_brush,
            adjacency_brush: self.adjacency_brush,
            adjacency_selection: self.adjacency_selection,
            brush_mask: self.brush_mask,
            lasso_snap: self.lasso_snap,
        }
    }
}

impl ToolView {
    /// No brush, no mask, nothing begun.
    pub open spec fn empty() -> ToolView {
        ToolView {
            color_brush: None,
            kind_brush: None,
            terrain_brush: None,
            continent_brush: None,
            adjacency_brush: None,
            adjacency_selection: None,
            brush_mask: None,
            lasso_snap: false,
        }
    }

    /// The brushes after a brush was chosen by name.
    pub open spec fn chosen(self, selection: SelectionView) -> ToolView {
        match selection {
            SelectionView::Kind(kind) => ToolView { kind_brush: Some(kind), ..self },
            SelectionView::Terrain(name) => ToolView { terrain_brush: Some(name), ..self },
            SelectionView::Continent(n) => ToolView { continent_brush: Some(n), ..self },
        }
    }

    /// The brushes after the brush of a view was picked from a pixel of a
    /// colour that belongs to a province. A province of unknown kind or
    /// terrain gives no brush, and the views of the coasts and of the
    /// connections have none to pick.
    pub open spec fn picked(self, view_mode: ViewMode, color: Color, province: ProvinceView) -> ToolView {
        match view_mode {
            ViewMode::Color => ToolView { color_brush: Some(color), ..self },
            ViewMode::Kind => match province.kind.definition_kind() {
                Some(kind) => ToolView { kind_brush: Some(kind), ..self },
                None => self,
            },
            ViewMode::Terrain => if province.terrain == "unknown"@ {
                self
            } else {
                ToolView { terrain_brush: Some(province.terrain), ..self }
            },
            ViewMode::Continent => ToolView { continent_brush: Some(province.continent), ..self },
            ViewMode::Coastal => self,
            ViewMode::Adjacencies => self,
        }
    }

    /// The brush of a view in words.
    pub open spec fn info(self, view_mode: ViewMode) -> Seq<char> {
        match view_mode {
            ViewMode::Color => match self.color_brush {
                Some(color) => "Color "@ + color_text(color),
                None => "Color (No Brush)"@,
            },
            ViewMode::Kind => match self.kind_brush {
                Some(kind) => "Type "@ + kind_label(kind),
                None => "Type (No Brush)"@,
            },
            ViewMode::Terrain => match self.terrain_brush {
                Some(terrain) => "Terrain "@ + uppered(terrain),
                None => "Terrain (No Brush)"@,
            },
            ViewMode::Continent => match self.continent_brush {
                Some(continent) => "Continent "@ + decimal(continent as nat),
                None => "Continent (No Brush)"@,
            },
            ViewMode::Coastal => "Coastal"@,
            ViewMode::Adjacencies => match self.adjacency_brush {
                Some(kind) => "Adjacencies "@ + connection_label(kind),
                None => "Adjacencies (No Brush)"@,
            },
        }
    }

    /// The mask in words; only the colour brush has one.
    pub open spec fn mask_info(self, view_mode: ViewMode) -> Seq<char> {
        if view_mode == ViewMode::Color {
            match self.brush_mask {
                Some(mask) => "Mask "@ + mask_label(mask),
                None => "No Mask"@,
            }
        } else {
            ""@
        }
    }

    /// The brushes after a click on a province in the view of the
    /// connections: without a brush nothing happens; the first click
    /// marks the province, the second unmarks it.
    pub open spec fn connected(self) -> bool {
        self.adjacency_brush is Some && self.adjacency_selection is Some
    }

    pub open spec fn clicked(self, which: Color) -> ToolView {
        match self.adjacency_brush {
            Some(_) => match self.adjacency_selection {
                Some(_) => ToolView { adjacency_selection: None, ..self },
                None => ToolView { adjacency_selection: Some(which), ..self },
            },
            None => self,
        }
    }
}

/// What is said when a brush was picked, if one was.
pub open spec fn pick_text(view_mode: ViewMode, color: Color, province: ProvinceView) -> Option<
    Seq<char>,
> {
    match view_mode {
        ViewMode::Color => Some("Picked color "@ + color_text(color)),
        ViewMode::Kind => match province.kind.definition_kind() {
            Some(kind) => Some("Picked type "@ + kind_label(kind)),
            None => None,
        },
        ViewMode::Terrain => if province.terrain == "unknown"@ {
            None
        } else {
            Some("Picked terrain "@ + uppered(province.terrain))
        },
        ViewMode::Continent => Some("Picked continent "@ + decimal(province.continent as nat)),
        ViewMode::Coastal => None,
        ViewMode::Adjacencies => None,
    }
}

/// The position of the cursor in words, or nothing where it is off the
/// map.
pub open spec fn cursor_text(cursor: Option<Pos>) -> Seq<char> {
    match cursor {
        Some(pos) => decimal(pos[0] as nat) + ", "@ + decimal(pos[1] as nat) + " px"@,
        None => ""@,
    }
}

impl Default for ToolSettings {
    fn default() -> (r: ToolSettings)
        ensures
            r@ == ToolView::empty(),
    {
        ToolSettings {
            color_brush: None,
            kind_brush: None,
            terrain_brush: None,
            continent_brush: None,
            adjacency_brush: None,
            adjacency_selection: None,
            brush_mask: None,
            lasso_snap: false,
        }
    }
}

impl ToolSettings {
    /// Goes on to the next mask.
    pub fn cycle_brush_mask(&mut self)
        ensures
            final(self)@ == (ToolView {
                brush_mask: match old(self).brush_mask {
                    None => Some(BrushMask::LandLakes),
                    Some(BrushMask::LandLakes) => Some(BrushMask::Sea),
                    Some(BrushMask::Sea) => None,
                },
                ..old(self)@
            }),
    {
        self.brush_mask = BrushMask::cycle(self.brush_mask);
    }

    /// Turns the snapping of lasso points to whole pixels on or off.
    pub fn toggle_lasso_snap(&mut self)
        ensures
            final(self)@ == (ToolView { lasso_snap: !old(self).lasso_snap, ..old(self)@ }),
    {
        self.lasso_snap = !self.lasso_snap;
    }

    /// Takes the brush that was chosen by name.
    pub fn take_selection(&mut self, selection: Selection)
        ensures
            final(self)@ == old(self)@.chosen(selection@),
    {
        match selection {
            Selection::Kind(kind) => {
                self.kind_brush = Some(kind);
            },
            Selection::Terrain(name) => {
                self.terrain_brush = Some(name);
            },
            Selection::Continent(n) => {
                self.continent_brush = Some(n);
            },
        }
    }

    /// Picks the brush of a view from a pixel of the map, given the colour
    /// of the pixel and the province of that colour, and returns what is
    /// to be said of it.
    pub fn pick_tool_brush(&mut self, view_mode: ViewMode, color: Color, province: &ProvinceData) -> (r:
        Option<String>)
        ensures
            final(self)@ == old(self)@.picked(view_mode, color, province@),
            match r {
                Some(text) => pick_text(view_mode, color, province@) == Some(text@),
                None => pick_text(view_mode, color, province@) is None,
            },
    {
        match view_mode {
            ViewMode::Color => {
                self.color_brush = Some(color);
                let mut text = String::from_str("Picked color ");
                let name = stringify_color(color);
                text.append(name.as_str());
                Some(text)
            },
            ViewMode::Kind => match province.kind.to_definition_kind() {
                Some(kind) => {
                    self.kind_brush = Some(kind);
                    let mut text = String::from_str("Picked type ");
                    text.append(kind_name(kind));
                    Some(text)
                },
                None => None,
            },
            ViewMode::Terrain => if str_equal(province.terrain.as_str(), "unknown") {
                None
            } else {
                self.terrain_brush = Some(province.terrain.clone());
                let mut text = String::from_str("Picked terrain ");
                let name = uppercase(province.terrain.as_str());
                text.append(name.as_str());
                Some(text)
            },
            ViewMode::Continent => {
                self.continent_brush = Some(province.continent);
                let mut text = String::from_str("Picked continent ");
                let number = decimal_string(province.continent as u64);
                text.append(number.as_str());
                Some(text)
            },
            ViewMode::Coastal => None,
            ViewMode::Adjacencies => None,
        }
    }

    /// A click on a province of a colour in the view of the connections.
    /// Without a brush nothing happens. The first click marks the
    /// province; the second unmarks it and returns the two provinces with
    /// the kind of the brush, for the connection between them to be made
    /// or taken away.
    pub fn tool_connect_activate(&mut self, which: Color) -> (r: Option<(UOrd<Color>, ConnectionKind)>)
        ensures
            final(self)@ == old(self)@.clicked(which),
            r is Some == old(self)@.connected(),
            r is Some ==> {
                &&& r.unwrap().0.a == which
                &&& r.unwrap().0.b == old(self).adjacency_selection.unwrap()
                &&& r.unwrap().1 == old(self).adjacency_brush.unwrap()
            },
    {
        match self.adjacency_brush {
            Some(kind) => match self.adjacency_selection {
                Some(color) => {
                    self.adjacency_selection = None;
                    Some((UOrd::<Color>::new(which, color), kind))
                },
                None => {
                    self.adjacency_selection = Some(which);
                    None
                },
            },
            None => None,
        }
    }

    /// Gives up a connection that was begun.
    pub fn cancel_tool(&mut self)
        ensures
            final(self)@ == (ToolView { adjacency_selection: None, ..old(self)@ }),
    {
        self.adjacency_selection = None;
    }

    /// The brush of a view in words.
    pub fn brush_info(&self, view_mode: ViewMode) -> (r: String)
        ensures
            r@ == self@.info(view_mode),
    {
        match view_mode {
            ViewMode::Color => match self.color_brush {
                Some(color) => {
                    let mut text = String::from_str("Color ");
                    let name = stringify_color(color);
                    text.append(name.as_str());
                    text
                },
                None => String::from_str("Color (No Brush)"),
            },
            ViewMode::Kind => match self.kind_brush {
                Some(kind) => {
                    let mut text = String::from_str("Type ");
                    text.append(kind_name(kind));
                    text
                },
                None => String::from_str("Type (No Brush)"),
            },
            ViewMode::Terrain => match &self.terrain_brush {
                Some(terrain) => {
                    let mut text = String::from_str("Terrain ");
                    let name = uppercase(terrain.as_str());
                    text.append(name.as_str());
                    text
                },
                None => String::from_str("Terrain (No Brush)"),
            },
            ViewMode::Continent => match self.continent_brush {
                Some(continent) => {
                    let mut text = String::from_str("Continent ");
                    let number = decimal_string(continent as u64);
                    text.append(number.as_str());
                    text
                },
                None => String::from_str("Continent (No Brush)"),
            },
            ViewMode::Coastal => String::from_str("Coastal"),
            ViewMode::Adjacencies => match self.adjacency_brush {
                Some(kind) => {
                    let mut text = String::from_str("Adjacencies ");
                    text.append(connection_name(kind));
                    text
                },
                None => String::from_str("Adjacencies (No Brush)"),
            },
        }
    }

    /// The mask of the colour brush in words; nothing in the other views.
    pub fn brush_mask_info(&self, view_mode: ViewMode) -> (r: String)
        ensures
            r@ == self@.mask_info(view_mode),
    {
        match view_mode {
            ViewMode::Color => match self.brush_mask {
                Some(mask) => {
                    let mut text = String::from_str("Mask ");
                    text.append(mask_name(mask));
                    text
                },
                None => String::from_str("No Mask"),
            },
            _ => String::from_str(""),
        }
    }

    /// The line under the map: where the cursor is, how far the view is
    /// zoomed in, the brush and its mask, the first three in columns of 24
    /// characters.
    pub fn camera_info(&self, cursor: Option<Pos>, zoom_info: &str, view_mode: ViewMode) -> (r: String)
        ensures
            r@ == padded_right(cursor_text(cursor), 24) + padded_right(zoom_info@, 24) + padded_right(
                self@.info(view_mode),
                24,
            ) + self@.mask_info(view_mode),
    {
        let cursor_info = match cursor {
            Some(pos) => {
                let mut text = decimal_string(pos[0] as u64);
                text.append(", ");
                let y = decimal_string(pos[1] as u64);
                text.append(y.as_str());
                text.append(" px");
                text
            },
            None => String::from_str(""),
        };
        let brush = self.brush_info(view_mode);
        let mask = self.brush_mask_info(view_mode);
        let mut text = pad_right(cursor_info.as_str(), 24);
        let zoom = pad_right(zoom_info, 24);
        text.append(zoom.as_str());
        let brush = pad_right(brush.as_str(), 24);
        text.append(brush.as_str());
        text.append(mask.as_str());
        proof {
            assert(cursor_info@ =~= cursor_text(cursor));
            assert(text@ =~= padded_right(cursor_text(cursor), 24) + padded_right(zoom_info@, 24)
                + padded_right(self@.info(view_mode), 24) + self@.mask_info(view_mode));
        }
        text
    }
}

/// What is said in place of the view by terrain while provinces have
/// terrains that the settings do not know: their names in capitals, with
/// commas between them.
pub open spec fn unknown_terrains_text(names: Seq<Seq<char>>) -> Seq<char>
    decreases names.len(),
{
    if names.len() == 0 {
        "Terrain mode unavailable, unknown terrains present: "@
    } else if names.len() == 1 {
        unknown_terrains_text(names.drop_last()) + uppered(names.last())
    } else {
        unknown_terrains_text(names.drop_last()) + ", "@ + uppered(names.last())
    }
}

/// The names of some texts.
pub open spec fn names_of(names: Seq<String>) -> Seq<Seq<char>> {
    names.map_values(|s: String| s@)
}

pub fn unknown_terrains(names: &Vec<String>) -> (r: String)
    ensures
        r@ == unknown_terrains_text(names_of(names@)),
{
    let mut text = String::from_str("Terrain mode unavailable, unknown terrains present: ");
    let mut i: usize = 0;
    while i < names.len()
        invariant
            i <= names.len(),
            text@ == unknown_terrains_text(names_of(names@).take(i as int)),
        decreases names.len() - i,
    {
        proof {
            let all = names_of(names@);
            assert(all.take(i + 1).drop_last() == all.take(i as int));
            assert(all.take(i + 1).last() == names@[i as int]@);
        }
        if i > 0 {
            text.append(", ");
        }
        let name = uppercase(names[i].as_str());
        text.append(name.as_str());
        i = i + 1;
    }
    proof {
        assert(names_of(names@).take(i as int) == names_of(names@));
    }
    text
}

/// What a change of view comes to: whether it is refused, and whether a
/// connection that was begun is given up.
pub enum ViewChange {
    /// The view by terrain cannot be shown.
    Refused,
    /// The view stays as it is.
    Kept,
    /// The view changes.
    Changed,
    /// The view changes, and what the tool had begun is given up.
    ChangedAndCancelled,
}

/// A change of view is refused where the view by terrain is asked for
/// and unknown terrains are present; it does nothing where the view is
/// the same; on leaving the view of the colours or of the connections the
/// tool gives up what it had begun.
pub open spec fn view_changed(current: ViewMode, asked: ViewMode, unknown_present: bool) -> ViewChange {
    if asked == ViewMode::Terrain && unknown_present {
        ViewChange::Refused
    } else if asked == current {
        ViewChange::Kept
    } else if current == ViewMode::Color || current == ViewMode::Adjacencies {
        ViewChange::ChangedAndCancelled
    } else {
        ViewChange::Changed
    }
}

pub fn set_view_mode(current: ViewMode, asked: ViewMode, unknown_present: bool) -> (r: ViewChange)
    ensures
        r == view_changed(current, asked, unknown_present),
{
    if matches!(asked, ViewMode::Terrain) && unknown_present {
        ViewChange::Refused
    } else if asked == current {
        ViewChange::Kept
    } else if matches!(current, ViewMode::Color | ViewMode::Adjacencies) {
        ViewChange::ChangedAndCancelled
    } else {
        ViewChange::Changed
    }
}

} // verus!
