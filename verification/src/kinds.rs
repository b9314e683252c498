//! The kinds of provinces, of connections and of table rows.
use vstd::prelude::*;
use crate::color::Color;
use crate::text::{ascii_lower, ascii_lowercase, str_equal};

verus! {

/// Why a cell of a table row could not be read.
#[derive(Debug, Clone, Copy, PartialEq, Eq, Structural)]
pub enum ParseError {
    InvalidAdjacencyKind,
    InvalidDefinitionKind,
    ParseIntError,
    ParseBoolError,
}

/// The kind of a province in a definition row.
#[derive(Debug, Copy, Clone, PartialEq, Eq, PartialOrd, Ord, Hash, Structural)]
pub enum DefinitionKind {
    Land,
    Sea,
    Lake,
}

impl DefinitionKind {
    pub open spec fn text(self) -> Seq<char> {
        match self {
            DefinitionKind::Land => "land"@,
            DefinitionKind::Sea => "sea"@,
            DefinitionKind::Lake => "lake"@,
        }
    }

    /// What `parse` makes of a text.
    pub open spec fn parsed(s: Seq<char>) -> Result<DefinitionKind, ParseError> {
        let l = ascii_lower(s);
        if l == "land"@ {
            Ok(DefinitionKind::Land)
        } else if l == "sea"@ {
            Ok(DefinitionKind::Sea)
        } else if l == "lake"@ {
            Ok(DefinitionKind::Lake)
        } else {
            Err(ParseError::InvalidDefinitionKind)
        }
    }

    /// The rank by which rows are ordered.
    pub open spec fn rank(self) -> nat {
        match self {
            DefinitionKind::Land => 0,
            DefinitionKind::Sea => 1,
            DefinitionKind::Lake => 2,
        }
    }

    pub fn to_str(self) -> (s: &'static str)
        ensures
            s@ == self.text(),
    {
        match self {
            DefinitionKind::Land => "land",
            DefinitionKind::Sea => "sea",
            DefinitionKind::Lake => "lake",
        }
    }

    /// Reads a kind, whatever the case of its letters.
    pub fn parse(s: &str) -> (r: Result<DefinitionKind, ParseError>)
        ensures
            r == DefinitionKind::parsed(s@),
    {
        let l = ascii_lowercase(s);
        if str_equal(l.as_str(), "land") {
            Ok(DefinitionKind::Land)
        } else if str_equal(l.as_str(), "sea") {
            Ok(DefinitionKind::Sea)
        } else if str_equal(l.as_str(), "lake") {
            Ok(DefinitionKind::Lake)
        } else {
            Err(ParseError::InvalidDefinitionKind)
        }
    }
}

/// The kind of an adjacency row.
#[derive(Debug, Copy, Clone, PartialEq, Eq, PartialOrd, Ord, Hash, Structural)]
pub enum AdjacencyKind {
    /// Between two sea provinces, through land: a canal.
    Land,
    River,
    LargeRiver,
    /// Between two land provinces, through sea: a strait.
    Sea,
    /// No passage.
    Impassable,
}

impl AdjacencyKind {
    pub open spec fn text(self) -> Seq<char> {
        match self {
            AdjacencyKind::Land => ""@,
            AdjacencyKind::River => "river"@,
            AdjacencyKind::LargeRiver => "large_river"@,
            AdjacencyKind::Sea => "sea"@,
            AdjacencyKind::Impassable => "impassable"@,
        }
    }

    /// What `parse` makes of a text.
    pub open spec fn parsed(s: Seq<char>) -> Result<AdjacencyKind, ParseError> {
        let l = ascii_lower(s);
        if l == ""@ {
            Ok(AdjacencyKind::Land)
        } else if l == "river"@ {
            Ok(AdjacencyKind::River)
        } else if l == "large_river"@ {
            Ok(AdjacencyKind::LargeRiver)
        } else if l == "sea"@ {
            Ok(AdjacencyKind::Sea)
        } else if l == "impassable"@ {
            Ok(AdjacencyKind::Impassable)
        } else {
            Err(ParseError::InvalidAdjacencyKind)
        }
    }

    /// The rank by which rows are ordered.
    pub open spec fn rank(self) -> nat {
        match self {
            AdjacencyKind::Land => 0,
            AdjacencyKind::River => 1,
            AdjacencyKind::LargeRiver => 2,
            AdjacencyKind::Sea => 3,
            AdjacencyKind::Impassable => 4,
        }
    }

    pub fn to_str(self) -> (s: &'static str)
        ensures
            s@ == self.text(),
    {
        match self {
            AdjacencyKind::Land => "",
            AdjacencyKind::River => "river",
            AdjacencyKind::LargeRiver => "large_river",
            AdjacencyKind::Sea => "sea",
            AdjacencyKind::Impassable => "impassable",
        }
    }

    /// Reads a kind, whatever the case of its letters.
    pub fn parse(s: &str) -> (r: Result<AdjacencyKind, ParseError>)
        ensures
            r == AdjacencyKind::parsed(s@),
    {
        let l = ascii_lowercase(s);
        if str_equal(l.as_str(), "") {
            Ok(AdjacencyKind::Land)
        } else if str_equal(l.as_str(), "river") {
            Ok(AdjacencyKind::River)
        } else if str_equal(l.as_str(), "large_river") {
            Ok(AdjacencyKind::LargeRiver)
        } else if str_equal(l.as_str(), "sea") {
            Ok(AdjacencyKind::Sea)
        } else if str_equal(l.as_str(), "impassable") {
            Ok(AdjacencyKind::Impassable)
        } else {
            Err(ParseError::InvalidAdjacencyKind)
        }
    }
}

/// The kind of a province on the map.
#[derive(Debug, Copy, Clone, PartialEq, Eq, PartialOrd, Ord, Hash, Structural)]
pub enum ProvinceKind {
    Land,
    Sea,
    Lake,
    Unknown,
}

impl ProvinceKind {
    pub open spec fn text(self) -> Seq<char> {
        match self {
            ProvinceKind::Land => "land"@,
            ProvinceKind::Sea => "sea"@,
            ProvinceKind::Lake => "lake"@,
            ProvinceKind::Unknown => "unknown"@,
        }
    }

    /// What `parse` makes of a text.
    pub open spec fn parsed(s: Seq<char>) -> Result<ProvinceKind, ParseError> {
        if s == "land"@ {
            Ok(ProvinceKind::Land)
        } else if s == "sea"@ {
            Ok(ProvinceKind::Sea)
        } else if s == "lake"@ {
            Ok(ProvinceKind::Lake)
        } else if s == "unknown"@ {
            Ok(ProvinceKind::Unknown)
        } else {
            Err(ParseError::InvalidDefinitionKind)
        }
    }

    pub open spec fn of_definition(kind: DefinitionKind) -> ProvinceKind {
        match kind {
            DefinitionKind::Land => ProvinceKind::Land,
            DefinitionKind::Sea => ProvinceKind::Sea,
            DefinitionKind::Lake => ProvinceKind::Lake,
        }
    }

    pub open spec fn definition_kind(self) -> Option<DefinitionKind> {
        match self {
            ProvinceKind::Land => Some(DefinitionKind::Land),
            ProvinceKind::Sea => Some(DefinitionKind::Sea),
            ProvinceKind::Lake => Some(DefinitionKind::Lake),
            ProvinceKind::Unknown => None,
        }
    }

    /// Land lies on a continent, sea on none; lakes and unknown provinces
    /// may have any.
    pub open spec fn continent_fits(self, continent: u16) -> bool {
        match self {
            ProvinceKind::Land => continent != 0,
            ProvinceKind::Sea => continent == 0,
            _ => true,
        }
    }

    /// The continent that a province of this kind gets in place of one
    /// that does not fit.
    pub open spec fn fitting_continent(self, continent: u16) -> u16 {
        match self {
            ProvinceKind::Land => if continent == 0 {
                1
            } else {
                continent
            },
            ProvinceKind::Sea => 0,
            _ => continent,
        }
    }

    pub open spec fn terrain_text(self) -> Seq<char> {
        match self {
            ProvinceKind::Unknown => "unknown"@,
            ProvinceKind::Land => "plains"@,
            ProvinceKind::Sea => "ocean"@,
            ProvinceKind::Lake => "lakes"@,
        }
    }

    pub open spec fn display_color(self) -> Seq<u8> {
        match self {
            ProvinceKind::Land => seq![0x0au8, 0xaeu8, 0x3du8],
            ProvinceKind::Sea => seq![0x00u8, 0x4cu8, 0x9eu8],
            ProvinceKind::Lake => seq![0x24u8, 0xabu8, 0xffu8],
            ProvinceKind::Unknown => seq![0x22u8, 0x22u8, 0x22u8],
        }
    }

    pub open spec fn export_color(self) -> Option<Seq<u8>> {
        match self {
            ProvinceKind::Land => Some(seq![150u8, 68u8, 192u8]),
            ProvinceKind::Sea => Some(seq![5u8, 20u8, 18u8]),
            ProvinceKind::Lake => Some(seq![80u8, 240u8, 120u8]),
            ProvinceKind::Unknown => None,
        }
    }

    pub open spec fn coastal_color(self, coastal: Option<bool>) -> Seq<u8> {
        match (coastal, self) {
            (Some(false), ProvinceKind::Land) => seq![0x00u8, 0x33u8, 0x11u8],
            (Some(true), ProvinceKind::Land) => seq![0x33u8, 0x99u8, 0x55u8],
            (Some(false), ProvinceKind::Sea) => seq![0x00u8, 0x11u8, 0x33u8],
            (Some(true), ProvinceKind::Sea) => seq![0x33u8, 0x55u8, 0x99u8],
            (Some(false), ProvinceKind::Lake) => seq![0x00u8, 0x33u8, 0x33u8],
            (Some(true), ProvinceKind::Lake) => seq![0x33u8, 0x99u8, 0x99u8],
            _ => seq![0x22u8, 0x22u8, 0x22u8],
        }
    }

    pub fn to_str(self) -> (s: &'static str)
        ensures
            s@ == self.text(),
    {
        match self {
            ProvinceKind::Land => "land",
            ProvinceKind::Sea => "sea",
            ProvinceKind::Lake => "lake",
            ProvinceKind::Unknown => "unknown",
        }
    }

    /// Reads a kind from its lower-case name.
    pub fn parse(s: &str) -> (r: Result<ProvinceKind, ParseError>)
        ensures
            r == ProvinceKind::parsed(s@),
    {
        if str_equal(s, "land") {
            Ok(ProvinceKind::Land)
        } else if str_equal(s, "sea") {
            Ok(ProvinceKind::Sea)
        } else if str_equal(s, "lake") {
            Ok(ProvinceKind::Lake)
        } else if str_equal(s, "unknown") {
            Ok(ProvinceKind::Unknown)
        } else {
            Err(ParseError::InvalidDefinitionKind)
        }
    }

    pub fn from_definition_kind(kind: DefinitionKind) -> (r: ProvinceKind)
        ensures
            r == ProvinceKind::of_definition(kind),
    {
        match kind {
            DefinitionKind::Land => ProvinceKind::Land,
            DefinitionKind::Sea => ProvinceKind::Sea,
            DefinitionKind::Lake => ProvinceKind::Lake,
        }
    }

    pub fn to_definition_kind(self) -> (r: Option<DefinitionKind>)
        ensures
            r == self.definition_kind(),
    {
        match self {
            ProvinceKind::Land => Some(DefinitionKind::Land),
            ProvinceKind::Sea => Some(DefinitionKind::Sea),
            ProvinceKind::Lake => Some(DefinitionKind::Lake),
            ProvinceKind::Unknown => None,
        }
    }

    pub fn valid_continent_id(self, continent: u16) -> (r: bool)
        ensures
            r == self.continent_fits(continent),
    {
        match self {
            ProvinceKind::Land => continent != 0,
            ProvinceKind::Sea => continent == 0,
            _ => true,
        }
    }

    pub fn correct_continent_id(self, continent: u16) -> (r: u16)
        ensures
            r == self.fitting_continent(continent),
            self.continent_fits(r),
    {
        match self {
            ProvinceKind::Land => if continent == 0 {
                1
            } else {
                continent
            },
            ProvinceKind::Sea => 0,
            _ => continent,
        }
    }

    pub fn default_terrain(self) -> (s: String)
        ensures
            s@ == self.terrain_text(),
    {
        match self {
            ProvinceKind::Unknown => "unknown".to_owned(),
            ProvinceKind::Land => "plains".to_owned(),
            ProvinceKind::Sea => "ocean".to_owned(),
            ProvinceKind::Lake => "lakes".to_owned(),
        }
    }

    /// The colour of this kind in the view by kind.
    pub fn color(self) -> (c: Color)
        ensures
            c@ == self.display_color(),
    {
        match self {
            ProvinceKind::Land => [0x0a, 0xae, 0x3d],
            ProvinceKind::Sea => [0x00, 0x4c, 0x9e],
            ProvinceKind::Lake => [0x24, 0xab, 0xff],
            ProvinceKind::Unknown => [0x22, 0x22, 0x22],
        }
    }

    /// The colour of this kind in an exported land map; an unknown kind has none.
    pub fn color_mapgen(self) -> (c: Option<Color>)
        ensures
            c is Some == self.export_color() is Some,
            c is Some ==> c.unwrap()@ == self.export_color().unwrap(),
    {
        match self {
            ProvinceKind::Land => Some([150, 68, 192]),
            ProvinceKind::Sea => Some([5, 20, 18]),
            ProvinceKind::Lake => Some([80, 240, 120]),
            ProvinceKind::Unknown => None,
        }
    }

    /// The colour of this kind in the coastal view.
    pub fn color_coastal(self, coastal: Option<bool>) -> (c: Color)
        ensures
            c@ == self.coastal_color(coastal),
    {
        match (coastal, self) {
            (Some(false), ProvinceKind::Land) => [0x00, 0x33, 0x11],
            (Some(true), ProvinceKind::Land) => [0x33, 0x99, 0x55],
            (Some(false), ProvinceKind::Sea) => [0x00, 0x11, 0x33],
            (Some(true), ProvinceKind::Sea) => [0x33, 0x55, 0x99],
            (Some(false), ProvinceKind::Lake) => [0x00, 0x33, 0x33],
            (Some(true), ProvinceKind::Lake) => [0x33, 0x99, 0x99],
            _ => [0x22, 0x22, 0x22],
        }
    }
}

/// The kind of a connection between two provinces.
#[derive(Debug, Copy, Clone, PartialEq, Eq, PartialOrd, Ord, Hash, Structural)]
pub enum ConnectionKind {
    Strait,
    Canal,
    Impassable,
}

impl ConnectionKind {
    pub open spec fn text(self) -> Seq<char> {
        match self {
            ConnectionKind::Strait => "strait/sea"@,
            ConnectionKind::Canal => "canal/land"@,
            ConnectionKind::Impassable => "impassable"@,
        }
    }

    pub open spec fn of_adjacency(kind: AdjacencyKind) -> Option<ConnectionKind> {
        match kind {
            AdjacencyKind::Land => Some(ConnectionKind::Canal),
            AdjacencyKind::River => None,
            AdjacencyKind::LargeRiver => None,
            AdjacencyKind::Sea => Some(ConnectionKind::Strait),
            AdjacencyKind::Impassable => Some(ConnectionKind::Impassable),
        }
    }

    pub open spec fn adjacency_kind(self) -> AdjacencyKind {
        match self {
            ConnectionKind::Strait => AdjacencyKind::Sea,
            ConnectionKind::Canal => AdjacencyKind::Land,
            ConnectionKind::Impassable => AdjacencyKind::Impassable,
        }
    }

    pub fn to_str(&self) -> (s: &'static str)
        ensures
            s@ == self.text(),
    {
        match self {
            ConnectionKind::Strait => "strait/sea",
            ConnectionKind::Canal => "canal/land",
            ConnectionKind::Impassable => "impassable",
        }
    }

    pub fn from_adjacency_kind(kind: AdjacencyKind) -> (r: Option<ConnectionKind>)
        ensures
            r == ConnectionKind::of_adjacency(kind),
    {
        match kind {
            AdjacencyKind::Land => Some(ConnectionKind::Canal),
            AdjacencyKind::River => None,
            AdjacencyKind::LargeRiver => None,
            AdjacencyKind::Sea => Some(ConnectionKind::Strait),
            AdjacencyKind::Impassable => Some(ConnectionKind::Impassable),
        }
    }

    pub fn into_adjacency_kind(self) -> (r: AdjacencyKind)
        ensures
            r == self.adjacency_kind(),
            ConnectionKind::of_adjacency(r) == Some(self),
    {
        match self {
            ConnectionKind::Strait => AdjacencyKind::Sea,
            ConnectionKind::Canal => AdjacencyKind::Land,
            ConnectionKind::Impassable => AdjacencyKind::Impassable,
        }
    }
}

/// Which provinces a brush may paint over.
#[derive(Debug, Copy, Clone, PartialEq, Eq, PartialOrd, Ord, Hash, Structural)]
pub enum BrushMask {
    LandLakes,
    Sea,
}

impl BrushMask {
    /// A mask lets through the kinds it names, and provinces of unknown kind.
    pub open spec fn lets(self, kind: ProvinceKind) -> bool {
        match (self, kind) {
            (BrushMask::LandLakes, ProvinceKind::Land) => true,
            (BrushMask::LandLakes, ProvinceKind::Lake) => true,
            (BrushMask::Sea, ProvinceKind::Sea) => true,
            (_, ProvinceKind::Unknown) => true,
            _ => false,
        }
    }

    pub open spec fn text(self) -> Seq<char> {
        match self {
            BrushMask::LandLakes => "land + lakes"@,
            BrushMask::Sea => "sea"@,
        }
    }

    pub fn includes(&self, kind: ProvinceKind) -> (r: bool)
        ensures
            r == self.lets(kind),
    {
        match (self, kind) {
            (BrushMask::LandLakes, ProvinceKind::Land) => true,
            (BrushMask::LandLakes, ProvinceKind::Lake) => true,
            (BrushMask::Sea, ProvinceKind::Sea) => true,
            (_, ProvinceKind::Unknown) => true,
            _ => false,
        }
    }

    pub fn to_str(self) -> (s: &'static str)
        ensures
            s@ == self.text(),
    {
        match self {
            BrushMask::LandLakes => "land + lakes",
            BrushMask::Sea => "sea",
        }
    }

    /// The mask that follows a mask when masks are gone through: no mask,
    /// land and lakes, sea, and no mask again.
    pub fn cycle(mask: Option<BrushMask>) -> (r: Option<BrushMask>)
        ensures
            r == match mask {
                None => Some(BrushMask::LandLakes),
                Some(BrushMask::LandLakes) => Some(BrushMask::Sea),
                Some(BrushMask::Sea) => None,
            },
    {
        match mask {
            None => Some(BrushMask::LandLakes),
            Some(BrushMask::LandLakes) => Some(BrushMask::Sea),
            Some(BrushMask::Sea) => None,
        }
    }
}

/// Whether a brush with an optional mask may paint over a province of a kind.
pub open spec fn mask_lets(mask: Option<BrushMask>, kind: ProvinceKind) -> bool {
    match mask {
        Some(m) => m.lets(kind),
        None => true,
    }
}

/// By what the raster is coloured on screen.
#[derive(Debug, Copy, Clone, PartialEq, Eq, PartialOrd, Ord, Hash, Structural)]
pub enum ViewMode {
    Color,
    Kind,
    Terrain,
    Continent,
    Coastal,
    Adjacencies,
}

impl Default for ViewMode {
    fn default() -> (r: ViewMode)
        ensures
            r == ViewMode::Color,
    {
        ViewMode::Color
    }
}

} // verus!
