//! What the map knows of a province and of a connection.
use vstd::prelude::*;
use crate::color::{Color, key_of};
use crate::config::Config;
use crate::extents::Pos;
use crate::kinds::{ConnectionKind, ProvinceKind};
use crate::rows::{Adjacency, Definition, DefinitionView};
use crate::text::str_equal;
use crate::uord::UOrd;

verus! {

/// The attributes of a province, with the number of its pixels and the sum
/// of their positions.
#[derive(Debug, Clone, PartialEq, Eq)]
pub struct ProvinceData {
    pub preserved_id: Option<u32>,
    pub kind: ProvinceKind,
    pub terrain: String,
    pub continent: u16,
    pub coastal: Option<bool>,
    pub pixel_count: u64,
    pub pixel_sum: [u64; 2],
}

/// What a province's entry holds.
pub struct ProvinceView {
    pub preserved_id: Option<u32>,
    pub kind: ProvinceKind,
    pub terrain: Seq<char>,
    pub continent: u16,
    pub coastal: Option<bool>,
    pub pixel_count: nat,
    pub sum_x: nat,
    pub sum_y: nat,
}

impl View for ProvinceData {
    type V = ProvinceView;

    open spec fn view(&self) -> ProvinceView {
        ProvinceView {
            preserved_id: self.preserved_id,
            kind: self.kind,
            terrain: self.terrain@,
            continent: self.continent,
            coastal: self.coastal,
            pixel_count: self.pixel_count as nat,
            sum_x: self.pixel_sum[0] as nat,
            sum_y: self.pixel_sum[1] as nat,
        }
    }
}

impl ProvinceView {
    /// The entry of a province that nothing is known of, without pixels.
    pub open spec fn fresh() -> ProvinceView {
        ProvinceView {
            preserved_id: None,
            kind: ProvinceKind::Unknown,
            terrain: "unknown"@,
            continent: 0,
            coastal: None,
            pixel_count: 0,
            sum_x: 0,
            sum_y: 0,
        }
    }

    /// This entry with other pixels.
    pub open spec fn with_pixels(self, count: nat, sum_x: nat, sum_y: nat) -> ProvinceView {
        ProvinceView { pixel_count: count, sum_x, sum_y, ..self }
    }

    /// The entry made of a definition row.
    pub open spec fn of_definition(d: DefinitionView, preserve_ids: bool) -> ProvinceView {
        ProvinceView {
            preserved_id: if preserve_ids {
                Some(d.id)
            } else {
                None
            },
            kind: ProvinceKind::of_definition(d.kind),
            terrain: d.terrain,
            continent: d.continent,
            coastal: Some(d.coastal),
            pixel_count: 0,
            sum_x: 0,
            sum_y: 0,
        }
    }

    /// Why no definition row can be made of this entry under its kept
    /// id, if it cannot.
    pub open spec fn kept_row_fault(self) -> Option<Seq<char>> {
        if self.kind == ProvinceKind::Unknown {
            Some("province data exists with 'unknown' type"@)
        } else if self.coastal is None {
            Some("province data exists with unknown coastal status"@)
        } else if self.terrain == "unknown"@ {
            Some("province data exists with unknown terrain"@)
        } else {
            None
        }
    }

    /// Why no definition row can be made of this entry, if it cannot.
    pub open spec fn row_fault(self) -> Option<Seq<char>> {
        if self.kind == ProvinceKind::Unknown {
            Some("Province exists with unknown type"@)
        } else if self.coastal is None {
            Some("Province exists with unknown coastal status"@)
        } else if self.terrain == "unknown"@ {
            Some("Province exists with unknown terrain"@)
        } else {
            None
        }
    }

    /// The definition row of this entry under a colour and an id.
    pub open spec fn row(self, color: Color, id: u32) -> DefinitionView {
        DefinitionView {
            id,
            rgb: color,
            kind: self.kind.definition_kind().unwrap(),
            coastal: self.coastal.unwrap(),
            terrain: self.terrain,
            continent: self.continent,
        }
    }
}

impl ProvinceData {
    /// The entry of a definition row, still without pixels. The id is kept
    /// only where the settings ask for it.
    pub fn from_definition_config(definition: Definition, config: &Config) -> (r: ProvinceData)
        ensures
            r@ == ProvinceView::of_definition(definition@, config.preserve_ids),
    {
        ProvinceData {
            preserved_id: if config.preserve_ids {
                Some(definition.id)
            } else {
                None
            },
            kind: ProvinceKind::from_definition_kind(definition.kind),
            terrain: definition.terrain,
            continent: definition.continent,
            coastal: Some(definition.coastal),
            pixel_count: 0,
            pixel_sum: [0, 0],
        }
    }

    /// The definition row of this province under its kept id.
    pub fn to_definition(&self, color: Color) -> (r: Result<Definition, &'static str>)
        requires
            self.preserved_id is Some,
        ensures
            match r {
                Ok(d) => self@.row_fault() is None && d@ == self@.row(
                    color,
                    self.preserved_id.unwrap(),
                ),
                Err(e) => self@.kept_row_fault() == Some(e@),
            },
            r is Err == self@.row_fault() is Some,
    {
        let id = match self.preserved_id {
            Some(id) => id,
            None => 0,
        };
        let kind = match self.kind.to_definition_kind() {
            Some(kind) => kind,
            None => { return Err("province data exists with 'unknown' type"); },
        };
        let coastal = match self.coastal {
            Some(coastal) => coastal,
            None => { return Err("province data exists with unknown coastal status"); },
        };
        if str_equal(self.terrain.as_str(), "unknown") {
            return Err("province data exists with unknown terrain");
        }
        Ok(
            Definition {
                id,
                rgb: color,
                kind,
                coastal,
                terrain: self.terrain.clone(),
                continent: self.continent,
            },
        )
    }

    /// The definition row of this province under the given id.
    pub fn to_definition_with_id(&self, color: Color, id: u32) -> (r: Result<
        Definition,
        &'static str,
    >)
        ensures
            match r {
                Ok(d) => self@.row_fault() is None && d@ == self@.row(color, id),
                Err(e) => self@.row_fault() == Some(e@),
            },
    {
        let kind = match self.kind.to_definition_kind() {
            Some(kind) => kind,
            None => { return Err("Province exists with unknown type"); },
        };
        let coastal = match self.coastal {
            Some(coastal) => coastal,
            None => { return Err("Province exists with unknown coastal status"); },
        };
        if str_equal(self.terrain.as_str(), "unknown") {
            return Err("Province exists with unknown terrain");
        }
        Ok(
            Definition {
                id,
                rgb: color,
                kind,
                coastal,
                terrain: self.terrain.clone(),
                continent: self.continent,
            },
        )
    }

    /// Sets kind, terrain and continent.
    pub fn set_meta(&mut self, kind: ProvinceKind, terrain: String, continent: u16)
        ensures
            final(self)@ == (ProvinceView { kind, terrain: terrain@, continent, ..old(self)@ }),
    {
        self.kind = kind;
        self.terrain = terrain;
        self.continent = continent;
    }
}

impl Default for ProvinceData {
    fn default() -> (r: ProvinceData)
        ensures
            r@ == ProvinceView::fresh(),
    {
        ProvinceData {
            preserved_id: None,
            kind: ProvinceKind::Unknown,
            terrain: "unknown".to_owned(),
            continent: 0,
            coastal: None,
            pixel_count: 0,
            pixel_sum: [0, 0],
        }
    }
}

/// What the map knows of a connection between two provinces.
#[derive(Debug, Clone, PartialEq, Eq)]
pub struct ConnectionData {
    pub kind: ConnectionKind,
    /// The colour of a province that can block the passage.
    pub through: Option<Color>,
    pub start: Option<Pos>,
    pub stop: Option<Pos>,
    pub rule_name: String,
    pub comment: String,
}

/// What a connection's entry holds; the province in between by its key.
pub struct ConnectionView {
    pub kind: ConnectionKind,
    pub through: Option<u32>,
    pub start: Option<Pos>,
    pub stop: Option<Pos>,
    pub rule_name: Seq<char>,
    pub comment: Seq<char>,
}

impl View for ConnectionData {
    type V = ConnectionView;

    open spec fn view(&self) -> ConnectionView {
        ConnectionView {
            kind: self.kind,
            through: match self.through {
                Some(c) => Some(key_of(c)),
                None => None,
            },
            start: self.start,
            stop: self.stop,
            rule_name: self.rule_name@,
            comment: self.comment@,
        }
    }
}

impl ConnectionView {
    /// The entry of a connection of which only the kind is known.
    pub open spec fn bare(kind: ConnectionKind) -> ConnectionView {
        ConnectionView {
            kind,
            through: None,
            start: None,
            stop: None,
            rule_name: Seq::empty(),
            comment: Seq::empty(),
        }
    }
}

impl ConnectionData {
    /// A connection of which only the kind is known.
    pub fn new(kind: ConnectionKind) -> (r: ConnectionData)
        ensures
            r@ == ConnectionView::bare(kind),
    {
        ConnectionData {
            kind,
            through: None,
            start: None,
            stop: None,
            rule_name: String::new(),
            comment: String::new(),
        }
    }

    /// The connection of an adjacency row, where its kind is one that the
    /// map holds; `through` gives the colour of the province in between.
    pub fn from_adjacency<F: Fn(u32) -> Color>(adjacency: Adjacency, through: F) -> (r: Option<
        ConnectionData,
    >)
        requires
            adjacency.through is Some ==> call_requires(through, (adjacency.through.unwrap(),)),
        ensures
            r is Some == ConnectionKind::of_adjacency(adjacency.kind) is Some,
            r is Some ==> {
                let c = r.unwrap();
                &&& Some(c.kind) == ConnectionKind::of_adjacency(adjacency.kind)
                &&& c.through is Some == adjacency.through is Some
                &&& c.through is Some ==> call_ensures(
                    through,
                    (adjacency.through.unwrap(),),
                    c.through.unwrap(),
                )
                &&& c.start == adjacency.start
                &&& c.stop == adjacency.stop
                &&& c.rule_name@ == adjacency.rule_name@
                &&& c.comment@ == adjacency.comment@
            },
    {
        let kind = match ConnectionKind::from_adjacency_kind(adjacency.kind) {
            Some(kind) => kind,
            None => { return None; },
        };
        let through_color = match adjacency.through {
            Some(id) => Some(through(id)),
            None => None,
        };
        Some(
            ConnectionData {
                kind,
                through: through_color,
                start: adjacency.start,
                stop: adjacency.stop,
                rule_name: adjacency.rule_name,
                comment: adjacency.comment,
            },
        )
    }

    /// The adjacency row of this connection between two ids; `through`
    /// gives the id of the province in between.
    pub fn to_adjacency<F: Fn(Color) -> u32>(&self, rel: UOrd<u32>, through: F) -> (r: Adjacency)
        requires
            self.through is Some ==> call_requires(through, (self.through.unwrap(),)),
        ensures
            r.from_id <= r.to_id,
            crate::uord::pair_of(r.from_id, r.to_id).same(rel),
            r.kind == self.kind.adjacency_kind(),
            r.through is Some == self.through is Some,
            r.through is Some ==> call_ensures(
                through,
                (self.through.unwrap(),),
                r.through.unwrap(),
            ),
            r.start == self.start,
            r.stop == self.stop,
            r.rule_name@ == self.rule_name@,
            r.comment@ == self.comment@,
    {
        let (from_id, to_id) = rel.into_tuple();
        let through_id = match self.through {
            Some(c) => Some(through(c)),
            None => None,
        };
        Adjacency {
            from_id,
            to_id,
            kind: self.kind.into_adjacency_kind(),
            through: through_id,
            start: self.start,
            stop: self.stop,
            rule_name: self.rule_name.clone(),
            comment: self.comment.clone(),
        }
    }
}

} // verus!
