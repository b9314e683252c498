//! Between the rows of the two tables and the map: making a map of a
//! raster and its rows, and the rows of a map.
use vstd::prelude::*;
use vstd::string::StringExecFns;
use std::collections::HashMap;
use crate::base::{bare_view, keys_of};
use crate::bundle::Bundle;
use crate::palette::{picked_from, KindColors};
use crate::color::{Color, color_key, key_color, key_of, same_color};
use crate::config::Config;
use crate::kinds::ConnectionKind;
use crate::model::{MapView, is_remap, settled, size_fits};
use crate::province::{ConnectionData, ConnectionView, ProvinceData, ProvinceView};
use crate::province_map::ProvinceMap;
use crate::rows::{Adjacency, AdjacencyView, Definition, DefinitionView, adjacencies_sorted, definition_views, definitions_sorted, insert_adjacency, insert_definition, lemma_sorted_pairs};
use crate::color::color_of;
use crate::uord::{pair_high, pair_key_halves, pair_low};
use crate::text::{decimal, decimal_string};

use crate::uord::{UOrd, pair_key};

verus! {

/// The adjacencies of a sequence, as values.
pub open spec fn adjacency_views(v: Seq<Adjacency>) -> Seq<AdjacencyView> {
    Seq::new(v.len(), |i: int| v[i]@)
}

/// The largest id of a sequence of definitions.
pub open spec fn max_id(defs: Seq<DefinitionView>) -> nat
    decreases defs.len(),
{
    if defs.len() == 0 {
        0
    } else if defs.last().id >= max_id(defs.drop_last()) {
        defs.last().id as nat
    } else {
        max_id(defs.drop_last())
    }
}

/// Whether the definitions are numbered as a table numbers them: there
/// is one, and the largest id is their number.
pub open spec fn numbered(defs: Seq<DefinitionView>) -> bool {
    defs.len() > 0 && max_id(defs) == defs.len() && defs.len() < u32::MAX
}

/// No id of a definition is above the largest.
pub proof fn lemma_max_id(defs: Seq<DefinitionView>, i: int)
    requires
        0 <= i < defs.len(),
    ensures
        defs[i].id <= max_id(defs),
    decreases defs.len(),
{
    if i < defs.len() - 1 {
        lemma_max_id(defs.drop_last(), i);
    }
}

/// Whether the definitions are numbered as a table numbers them.
pub fn definitions_numbered(definition_table: &Vec<Definition>) -> (r: bool)
    ensures
        r == numbered(definition_views(definition_table@)),
{
    let ghost defs = definition_views(definition_table@);
    let mut max: u32 = 0;
    let mut i: usize = 0;
    proof {
        assert(defs.take(0) =~= Seq::empty());
    }
    while i < definition_table.len()
        invariant
            i <= definition_table@.len(),
            defs == definition_views(definition_table@),
            max == max_id(defs.take(i as int)),
        decreases definition_table@.len() - i,
    {
        proof {
            assert(defs.take(i as int + 1).drop_last() =~= defs.take(i as int));
            assert(defs.take(i as int + 1).last() == definition_table@[i as int]@);
        }
        if definition_table[i].id >= max {
            max = definition_table[i].id;
        }
        i += 1;
    }
    proof {
        assert(defs.take(defs.len() as int) =~= defs);
    }
    definition_table.len() > 0 && definition_table.len() < 0xffff_ffff && max as usize
        == definition_table.len()
}

/// The last definition of a colour key, if there is one.
pub open spec fn last_definition(defs: Seq<DefinitionView>, k: u32) -> Option<DefinitionView>
    decreases defs.len(),
{
    if defs.len() == 0 {
        None
    } else if key_of(defs.last().rgb) == k {
        Some(defs.last())
    } else {
        last_definition(defs.drop_last(), k)
    }
}

/// The entry of a province after the definitions were read: the
/// attributes of the last definition of its colour, if there is one, and
/// the pixels that it had.
pub open spec fn defined_entry(
    defs: Seq<DefinitionView>,
    preserve_ids: bool,
    entry: ProvinceView,
    k: u32,
) -> ProvinceView {
    match last_definition(defs, k) {
        Some(d) => ProvinceView::of_definition(d, preserve_ids).with_pixels(
            entry.pixel_count,
            entry.sum_x,
            entry.sum_y,
        ),
        None => entry,
    }
}

/// The province table after the definitions were read.
pub open spec fn defined_provinces(
    defs: Seq<DefinitionView>,
    preserve_ids: bool,
    provinces: Map<u32, ProvinceView>,
) -> Map<u32, ProvinceView> {
    Map::new(
        |k: u32| provinces.contains_key(k),
        |k: u32| defined_entry(defs, preserve_ids, provinces[k], k),
    )
}

/// The colour key of the last definition of an id, if there is one.
pub open spec fn index_of(defs: Seq<DefinitionView>, id: u32) -> Option<u32>
    decreases defs.len(),
{
    if defs.len() == 0 {
        None
    } else if defs.last().id == id {
        Some(key_of(defs.last().rgb))
    } else {
        index_of(defs.drop_last(), id)
    }
}

/// The colour key of an id: that of its last definition, if a province of
/// the raster has it.
pub open spec fn key_of_id(defs: Seq<DefinitionView>, provinces: Map<u32, ProvinceView>, id: u32)
    -> Option<u32> {
    match index_of(defs, id) {
        Some(k) => if provinces.contains_key(k) {
            Some(k)
        } else {
            None
        },
        None => None,
    }
}

/// An id that is defined is not above the largest.
pub proof fn lemma_index_bound(defs: Seq<DefinitionView>, id: u32)
    requires
        index_of(defs, id) is Some,
    ensures
        id <= max_id(defs),
    decreases defs.len(),
{
    if defs.len() > 0 && defs.last().id != id {
        lemma_index_bound(defs.drop_last(), id);
    }
}

/// The connection of an adjacency row, under its pair key, where both
/// ids have a colour on the raster and the kind is one that the map
/// holds.
pub open spec fn link_of(
    a: AdjacencyView,
    defs: Seq<DefinitionView>,
    provinces: Map<u32, ProvinceView>,
) -> Option<(u64, ConnectionView)> {
    match (
        key_of_id(defs, provinces, a.from_id),
        key_of_id(defs, provinces, a.to_id),
        ConnectionKind::of_adjacency(a.kind),
    ) {
        (Some(x), Some(y), Some(kind)) => Some(
            (
                pair_key(x, y),
                ConnectionView {
                    kind,
                    through: match a.through {
                        Some(t) => key_of_id(defs, provinces, t),
                        None => None,
                    },
                    start: a.start,
                    stop: a.stop,
                    rule_name: a.rule_name,
                    comment: a.comment,
                },
            ),
        ),
        _ => None,
    }
}

/// The connection table of the adjacency rows: a later row stands in
/// place of an earlier one of the same pair.
pub open spec fn linked(
    adjs: Seq<AdjacencyView>,
    defs: Seq<DefinitionView>,
    provinces: Map<u32, ProvinceView>,
) -> Map<u64, ConnectionView>
    decreases adjs.len(),
{
    if adjs.len() == 0 {
        Map::empty()
    } else {
        match link_of(adjs.last(), defs, provinces) {
            Some((key, c)) => linked(adjs.drop_last(), defs, provinces).insert(key, c),
            None => linked(adjs.drop_last(), defs, provinces),
        }
    }
}

/// Whether an adjacency row is between two colours of the raster and of a
/// kind that the map does not hold.
pub open spec fn is_unsupported(
    a: AdjacencyView,
    defs: Seq<DefinitionView>,
    provinces: Map<u32, ProvinceView>,
) -> bool {
    key_of_id(defs, provinces, a.from_id) is Some && key_of_id(defs, provinces, a.to_id) is Some
        && ConnectionKind::of_adjacency(a.kind) is None
}

/// The adjacency rows that the map keeps as they are, in their order.
pub open spec fn unsupported(
    adjs: Seq<AdjacencyView>,
    defs: Seq<DefinitionView>,
    provinces: Map<u32, ProvinceView>,
) -> Seq<AdjacencyView>
    decreases adjs.len(),
{
    if adjs.len() == 0 {
        Seq::empty()
    } else if is_unsupported(adjs.last(), defs, provinces) {
        unsupported(adjs.drop_last(), defs, provinces).push(adjs.last())
    } else {
        unsupported(adjs.drop_last(), defs, provinces)
    }
}

/// The map of a raster and the rows of the two tables, under the colours
/// of the raster: a province for each colour, with the attributes of its
/// definition or, without one, with nothing known of it; and the
/// connections of the adjacency rows.
pub open spec fn constructed(
    width: u32,
    height: u32,
    colors: Seq<Color>,
    defs: Seq<DefinitionView>,
    adjs: Seq<AdjacencyView>,
    preserve_ids: bool,
) -> MapView {
    let b = settled(bare_view(width, height, keys_of(colors)), keys_of(colors));
    let p = defined_provinces(defs, preserve_ids, b.provinces);
    MapView { provinces: p, connections: linked(adjs, defs, p), ..b }
}

/// The colour of an id in the index, if it has one.
pub fn get_color_index(color_index: &Vec<Option<Color>>, id: u32) -> (r: Option<Color>)
    ensures
        r == if id < color_index@.len() {
            color_index@[id as int]
        } else {
            None
        },
{
    if (id as usize) < color_index.len() {
        color_index[id as usize]
    } else {
        None
    }
}

/// The key of an optional colour.
pub open spec fn opt_key(c: Option<Color>) -> Option<u32> {
    match c {
        Some(c) => Some(key_of(c)),
        None => None,
    }
}

/// Makes the map of a raster and the rows of its two tables. Where the
/// settings do not keep ids, every province then gets another colour from
/// the candidates, as by `recolor_everything`. There is no map where the
/// definitions are not numbered as a table numbers them, where the raster
/// is empty, too large or not of the size given, or where the candidates
/// do not hold the colours needed.
pub fn construct_map_data(
    width: u32,
    height: u32,
    colors: &Vec<Color>,
    definition_table: Vec<Definition>,
    adjacencies_table: Vec<Adjacency>,
    config: Config,
    candidates: &KindColors,
) -> (r: Option<Bundle>)
    ensures
        ({
            let defs = definition_views(definition_table@);
            let adjs = adjacency_views(adjacencies_table@);
            let c = constructed(width, height, colors@, defs, adjs, config.preserve_ids);
            &&& r is Some <==> numbered(defs) && size_fits(width, height) && colors@.len() == width
                * height && (config.preserve_ids || candidates.enough_for(c))
            &&& r is Some ==> {
                let b = r.unwrap();
                &&& b.map.exact()
                &&& b.config == config
                &&& adjacency_views(b.preserved_unsupported_adjacencies@) == unsupported(
                    adjs,
                    defs,
                    c.provinces,
                )
                &&& config.preserve_ids ==> b.map@ == c && b.map.id_count() == Some(
                    max_id(defs) as u32,
                )
                &&& !config.preserve_ids ==> b.map.id_count() is None && exists|f: Map<u32, u32>| #[trigger]
                    is_remap(c, b.map@, f) && picked_from(c, f, *candidates)
            }
        }),
{
    if !definitions_numbered(&definition_table) {
        return None;
    }
    let ghost defs = definition_views(definition_table@);
    let ghost adjs = adjacency_views(adjacencies_table@);
    let ghost preserve = config.preserve_ids;
    let mut map = match ProvinceMap::new(width, height, colors) {
        Some(map) => map,
        None => { return None; },
    };
    let ghost b0 = map@;
    let mut i: usize = 0;
    proof {
        assert(defs.take(0) =~= Seq::empty());
        assert(b0.provinces =~= defined_provinces(defs.take(0), preserve, b0.provinces));
    }
    while i < definition_table.len()
        invariant
            i <= definition_table@.len(),
            defs == definition_views(definition_table@),
            preserve == config.preserve_ids,
            map.exact(),
            map.id_count() is None,
            b0.wf(),
            map@ == (MapView {
                provinces: defined_provinces(defs.take(i as int), preserve, b0.provinces),
                ..b0
            }),
        decreases definition_table@.len() - i,
    {
        let d = &definition_table[i];
        proof {
            assert(defs.take(i as int + 1).drop_last() =~= defs.take(i as int));
            assert(defs.take(i as int + 1).last() == d@);
        }
        if map.has_province(d.rgb) {
            map.set_province_attributes(
                d.rgb,
                ProvinceData::from_definition_config(d.duplicate(), &config),
            );
        }
        proof {
            assert(map@.provinces =~= defined_provinces(
                defs.take(i as int + 1),
                preserve,
                b0.provinces,
            ));
        }
        i += 1;
    }
    proof {
        assert(defs.take(defs.len() as int) =~= defs);
    }
    let ghost p = map@.provinces;
    let limit = definition_table.len() + 1;
    let mut color_index: Vec<Option<Color>> = Vec::new();
    let mut n: usize = 0;
    while n < limit
        invariant
            n <= limit,
            color_index@.len() == n,
            forall|id: int| 0 <= id < n ==> (#[trigger] color_index@[id]) is None,
        decreases limit - n,
    {
        color_index.push(None);
        n += 1;
    }
    let mut j: usize = 0;
    while j < definition_table.len()
        invariant
            j <= definition_table@.len(),
            defs == definition_views(definition_table@),
            numbered(defs),
            limit == defs.len() + 1,
            color_index@.len() == limit,
            map.exact(),
            map@.provinces == p,
            forall|id: u32|
                id < limit ==> opt_key(#[trigger] color_index@[id as int]) == key_of_id(
                    defs.take(j as int),
                    p,
                    id,
                ),
        decreases definition_table@.len() - j,
    {
        let d = &definition_table[j];
        proof {
            assert(defs.take(j as int + 1).drop_last() =~= defs.take(j as int));
            assert(defs.take(j as int + 1).last() == d@);
            lemma_max_id(defs, j as int);
        }
        let entry = if map.has_province(d.rgb) { Some(d.rgb) } else { None };
        color_index[d.id as usize] = entry;
        j += 1;
    }
    proof {
        assert(defs.take(defs.len() as int) =~= defs);
        assert forall|id: u32| opt_key(
            if id < color_index@.len() {
                color_index@[id as int]
            } else {
                None
            },
        ) == #[trigger] key_of_id(defs, p, id) by {
            if id >= limit {
                if index_of(defs, id) is Some {
                    lemma_index_bound(defs, id);
                }
            }
        }
    }
    let ghost m0 = map@;
    let mut rest: Vec<Adjacency> = Vec::new();
    let mut a: usize = 0;
    proof {
        assert(adjs.take(0) =~= Seq::empty());
        assert(m0.connections =~= linked(adjs.take(0), defs, p));
        assert(adjacency_views(rest@) =~= unsupported(adjs.take(0), defs, p));
    }
    while a < adjacencies_table.len()
        invariant
            a <= adjacencies_table@.len(),
            adjs == adjacency_views(adjacencies_table@),
            map.wf(),
            map.id_count() is None,
            map@ == (MapView { connections: linked(adjs.take(a as int), defs, p), ..m0 }),
            m0.provinces == p,
            adjacency_views(rest@) == unsupported(adjs.take(a as int), defs, p),
            forall|id: u32|
                opt_key(
                    if id < color_index@.len() {
                        color_index@[id as int]
                    } else {
                        None
                    },
                ) == #[trigger] key_of_id(defs, p, id),
        decreases adjacencies_table@.len() - a,
    {
        let row = &adjacencies_table[a];
        proof {
            assert(adjs.take(a as int + 1).drop_last() =~= adjs.take(a as int));
            assert(adjs.take(a as int + 1).last() == row@);
            assert(opt_key(
                if row.from_id < color_index@.len() {
                    color_index@[row.from_id as int]
                } else {
                    None
                },
            ) == key_of_id(defs, p, row.from_id));
            assert(opt_key(
                if row.to_id < color_index@.len() {
                    color_index@[row.to_id as int]
                } else {
                    None
                },
            ) == key_of_id(defs, p, row.to_id));
        }
        let from = get_color_index(&color_index, row.from_id);
        let to = get_color_index(&color_index, row.to_id);
        match (from, to) {
            (Some(from), Some(to)) => {
                match ConnectionKind::from_adjacency_kind(row.kind) {
                    Some(kind) => {
                        let through = match row.through {
                            Some(t) => {
                                proof {
                                    assert(opt_key(
                                        if t < color_index@.len() {
                                            color_index@[t as int]
                                        } else {
                                            None
                                        },
                                    ) == key_of_id(defs, p, t));
                                }
                                get_color_index(&color_index, t)
                            },
                            None => None,
                        };
                        let c = ConnectionData {
                            kind,
                            through,
                            start: row.start,
                            stop: row.stop,
                            rule_name: row.rule_name.clone(),
                            comment: row.comment.clone(),
                        };
                        map.put_connection(UOrd::new(from, to), c);
                        proof {
                            assert(map@.connections =~= linked(adjs.take(a as int + 1), defs, p));
                        }
                    },
                    None => {
                        let ghost before = adjacency_views(rest@);
                        rest.push(row.duplicate());
                        proof {
                            assert(adjacency_views(rest@) =~= before.push(row@));
                        }
                    },
                }
            },
            _ => {},
        }
        a += 1;
    }
    proof {
        assert(adjs.take(adjs.len() as int) =~= adjs);
    }
    let ghost c = map@;
    proof {
        assert(b0 == settled(bare_view(width, height, keys_of(colors@)), keys_of(colors@)));
        assert(p == defined_provinces(defs, preserve, b0.provinces));
        assert(c == constructed(width, height, colors@, defs, adjs, config.preserve_ids));
    }
    if !config.preserve_ids {
        match map.recolor_everything(candidates) {
            Some(f) => {
                proof {
                    assert(is_remap(c, map@, f@));
                }
            },
            None => { return None; },
        }
    } else {
        map.recalculate_all_boundaries();
        map.set_preserved_id_count(Some((definition_table.len()) as u32));
    }
    Some(Bundle { map, config, preserved_unsupported_adjacencies: rest })
}

/// What is saved of a map: the rows of the two tables, and what became of
/// the ids, where ids are kept and any changed.
pub struct MapData {
    pub definitions: Vec<Definition>,
    pub adjacencies: Vec<Adjacency>,
    pub id_changes: Option<Vec<IdChange>>,
}

/// What became of ids when a map was saved.
#[derive(Debug, Clone, Copy, PartialEq, Eq, Structural)]
pub enum IdChange {
    DeletedRange(u32, u32),
    CreatedRange(u32, u32),
    Reassigned(u32, u32),
    AssignedNew(u32),
}

impl IdChange {
    /// The line that tells of this change.
    pub open spec fn text(self) -> Seq<char> {
        match self {
            IdChange::DeletedRange(a, b) => "Deleted IDs "@ + decimal(a as nat) + " through "@
                + decimal(b as nat),
            IdChange::CreatedRange(a, b) => "Created IDs "@ + decimal(a as nat) + " through "@
                + decimal(b as nat),
            IdChange::Reassigned(a, b) => "Reassigned ID "@ + decimal(a as nat) + " to "@ + decimal(
                b as nat,
            ),
            IdChange::AssignedNew(a) => "Assigned ID "@ + decimal(a as nat) + " to new province"@,
        }
    }

    /// The line that tells of this change.
    pub fn to_string(&self) -> (s: String)
        ensures
            s@ == self.text(),
    {
        match *self {
            IdChange::DeletedRange(a, b) => {
                let mut s = String::from_str("Deleted IDs ");
                s.append(decimal_string(a as u64).as_str());
                s.append(" through ");
                s.append(decimal_string(b as u64).as_str());
                s
            },
            IdChange::CreatedRange(a, b) => {
                let mut s = String::from_str("Created IDs ");
                s.append(decimal_string(a as u64).as_str());
                s.append(" through ");
                s.append(decimal_string(b as u64).as_str());
                s
            },
            IdChange::Reassigned(a, b) => {
                let mut s = String::from_str("Reassigned ID ");
                s.append(decimal_string(a as u64).as_str());
                s.append(" to ");
                s.append(decimal_string(b as u64).as_str());
                s
            },
            IdChange::AssignedNew(a) => {
                let mut s = String::from_str("Assigned ID ");
                s.append(decimal_string(a as u64).as_str());
                s.append(" to new province");
                s
            },
        }
    }
}

/// The lines of the record of id changes, under a heading with the time
/// given.
pub fn write_id_changes(now: &str, id_changes: &Vec<IdChange>) -> (lines: Vec<String>)
    ensures
        lines@.len() == id_changes@.len() + 1,
        lines@[0]@ == "ID Changes "@ + now@,
        forall|i: int|
            0 <= i < id_changes@.len() ==> (#[trigger] lines@[i + 1])@ == "- "@ + id_changes@[i].text(),
{
    let mut lines: Vec<String> = Vec::new();
    let mut head = String::from_str("ID Changes ");
    head.append(now);
    lines.push(head);
    let mut i: usize = 0;
    while i < id_changes.len()
        invariant
            i <= id_changes@.len(),
            lines@.len() == i + 1,
            lines@[0]@ == "ID Changes "@ + now@,
            forall|j: int|
                0 <= j < i ==> (#[trigger] lines@[j + 1])@ == "- "@ + id_changes@[j].text(),
        decreases id_changes@.len() - i,
    {
        let mut line = String::from_str("- ");
        line.append(id_changes[i].to_string().as_str());
        lines.push(line);
        i += 1;
    }
    lines
}

/// Whether some province cannot be written as a definition row.
pub open spec fn some_fault(v: MapView) -> bool {
    exists|k: u32| #[trigger] v.provinces.contains_key(k) && v.provinces[k].row_fault() is Some
}

/// Whether the definitions are the rows of the provinces of a map, one
/// each, numbered from one in their order.
pub open spec fn rows_of_provinces(v: MapView, defs: Seq<DefinitionView>) -> bool {
    &&& defs.len() == v.provinces.len()
    &&& forall|i: int|
        0 <= i < defs.len() ==> v.provinces.contains_key(key_of((#[trigger] defs[i]).rgb))
            && defs[i] == v.provinces[key_of(defs[i].rgb)].row(defs[i].rgb, (i + 1) as u32)
    &&& def_keys(defs).no_duplicates()
    &&& forall|k: u32| #[trigger] v.provinces.contains_key(k) ==> has_color(defs, k)
}

/// The colour keys of a sequence of definitions.
pub open spec fn def_keys(defs: Seq<DefinitionView>) -> Seq<u32> {
    Seq::new(defs.len(), |i: int| key_of(defs[i].rgb))
}

/// Whether one of the definitions is of the colour key.
pub open spec fn has_color(defs: Seq<DefinitionView>, k: u32) -> bool {
    def_keys(defs).contains(k)
}

/// The id of the row of a colour key.
pub open spec fn row_id(defs: Seq<DefinitionView>, k: u32) -> u32 {
    (def_keys(defs).index_of(k) + 1) as u32
}

/// The adjacency row of a connection between the rows of its provinces.
pub open spec fn link_row(c: ConnectionView, key: u64, defs: Seq<DefinitionView>) -> AdjacencyView {
    let a = row_id(defs, pair_low(key));
    let b = row_id(defs, pair_high(key));
    AdjacencyView {
        from_id: if a <= b {
            a
        } else {
            b
        },
        to_id: if a <= b {
            b
        } else {
            a
        },
        kind: c.kind.adjacency_kind(),
        through: match c.through {
            Some(t) => Some(row_id(defs, t)),
            None => None,
        },
        start: c.start,
        stop: c.stop,
        rule_name: c.rule_name,
        comment: c.comment,
    }
}

/// Whether an adjacency is the row of a connection of the map, or one of
/// the rows kept as they were.
pub open spec fn is_link_row(
    v: MapView,
    a: AdjacencyView,
    defs: Seq<DefinitionView>,
    extra: Seq<AdjacencyView>,
) -> bool {
    (exists|key: u64| #[trigger]
        v.connections.contains_key(key) && a == link_row(v.connections[key], key, defs)) || (
    exists|m: int| 0 <= m < extra.len() && a == #[trigger] extra[m])
}

/// Whether a sequence of adjacencies holds an adjacency.
pub open spec fn has_row(adjs: Seq<AdjacencyView>, a: AdjacencyView) -> bool {
    exists|n: int| 0 <= n < adjs.len() && #[trigger] adjs[n] == a
}

/// Whether the adjacencies are, in their order, the rows of the
/// connections of a map and the rows kept as they were.
pub open spec fn rows_of_links(
    v: MapView,
    adjs: Seq<AdjacencyView>,
    defs: Seq<DefinitionView>,
    extra: Seq<AdjacencyView>,
) -> bool {
    &&& adjs.len() == v.connections.len() + extra.len()
    &&& adjacencies_sorted(adjs)
    &&& forall|n: int| 0 <= n < adjs.len() ==> is_link_row(v, #[trigger] adjs[n], defs, extra)
    &&& forall|key: u64| #[trigger]
        v.connections.contains_key(key) ==> has_row(
            adjs,
            link_row(v.connections[key], key, defs),
        )
    &&& forall|m: int| 0 <= m < extra.len() ==> has_row(adjs, #[trigger] extra[m])
}

/// The id of each colour key of the rows.
fn index_rows(defs: &Vec<Definition>) -> (index: HashMap<u32, u32>)
    requires
        defs@.len() < u32::MAX,
        forall|i: int| 0 <= i < defs@.len() ==> (#[trigger] defs@[i]).id == i + 1,
        def_keys(definition_views(defs@)).no_duplicates(),
    ensures
        forall|k: u32| #[trigger]
            has_color(definition_views(defs@), k) ==> index@.contains_key(k) && index@[k]
                == row_id(definition_views(defs@), k),
{
    broadcast use vstd::std_specs::hash::group_hash_axioms;

    let ghost keys = def_keys(definition_views(defs@));
    let mut index: HashMap<u32, u32> = HashMap::new();
    let mut i: usize = 0;
    while i < defs.len()
        invariant
            i <= defs@.len(),
            keys == def_keys(definition_views(defs@)),
            keys.no_duplicates(),
            forall|j: int|
                0 <= j < i ==> index@.contains_key(#[trigger] keys[j]) && index@[keys[j]] == j + 1,
            forall|j: int| 0 <= j < defs@.len() ==> (#[trigger] defs@[j]).id == j + 1,
        decreases defs@.len() - i,
    {
        proof {
            assert(keys[i as int] == key_of(defs@[i as int].rgb));
            assert forall|j: int| 0 <= j < i implies keys[j] != keys[i as int] by {}
        }
        index.insert(color_key(defs[i].rgb), defs[i].id);
        i += 1;
    }
    proof {
        assert forall|k: u32| #[trigger]
            has_color(definition_views(defs@), k) implies index@.contains_key(k) && index@[k]
            == row_id(definition_views(defs@), k) by {
            let j = keys.index_of(k);
            assert(keys[j] == k);
        }
    }
    index
}

/// Puts an adjacency among the rows, in order.
fn place_row(rows: &mut Vec<Adjacency>, row: Adjacency)
    requires
        adjacencies_sorted(adjacency_views(old(rows)@)),
    ensures
        final(rows)@.len() == old(rows)@.len() + 1,
        adjacencies_sorted(adjacency_views(final(rows)@)),
        forall|x: AdjacencyView|
            #![trigger has_row(adjacency_views(final(rows)@), x)]
            has_row(adjacency_views(final(rows)@), x) <==> has_row(adjacency_views(old(rows)@), x)
                || x == row@,
{
    let ghost before = adjacency_views(rows@);
    let ghost want = row@;
    let at = insert_adjacency(rows, row);
    proof {
        let after = adjacency_views(rows@);
        assert(after =~= before.insert(at as int, want));
        assert forall|x: AdjacencyView|
            #![trigger has_row(after, x)]
            has_row(after, x) <==> has_row(before, x) || x == want by {
            if has_row(before, x) {
                let q = choose|q: int| 0 <= q < before.len() && #[trigger] before[q] == x;
                let p = if q < at { q } else { q + 1 };
                assert(after[p] == x);
            }
            if x == want {
                assert(after[at as int] == x);
            }
            if has_row(after, x) {
                let q = choose|q: int| 0 <= q < after.len() && #[trigger] after[q] == x;
                if q != at {
                    let p = if q < at { q } else { q - 1 };
                    assert(before[p] == x);
                }
            }
        }
    }
}

/// Whether an adjacency is the row of one of the first `n` connections
/// of a list.
pub open spec fn from_links(
    v: MapView,
    a: AdjacencyView,
    defs: Seq<DefinitionView>,
    keys: Seq<u64>,
    n: int,
) -> bool {
    exists|m: int| 0 <= m < n && a == link_row(v.connections[#[trigger] keys[m]], keys[m], defs)
}

/// Whether an adjacency is one of the first `n` of a list.
pub open spec fn from_extra(a: AdjacencyView, extra: Seq<AdjacencyView>, n: int) -> bool {
    exists|m: int| 0 <= m < n && a == #[trigger] extra[m]
}

/// The adjacency rows of the connections of a map between the rows of
/// its provinces, with the rows kept as they were, in order.
fn adjacency_rows(
    map: &ProvinceMap,
    index: &HashMap<u32, u32>,
    extra: &Vec<Adjacency>,
    Ghost(defs): Ghost<Seq<DefinitionView>>,
) -> (rows: Vec<Adjacency>)
    requires
        map.wf(),
        forall|k: u32| #[trigger]
            map@.provinces.contains_key(k) ==> index@.contains_key(k) && index@[k] == row_id(
                defs,
                k,
            ),
    ensures
        rows_of_links(map@, adjacency_views(rows@), defs, adjacency_views(extra@)),
{
    broadcast use vstd::std_specs::hash::group_hash_axioms;

    let ghost v = map@;
    let ghost ex = adjacency_views(extra@);
    let keys = map.base().connection_keys();
    let mut rows: Vec<Adjacency> = Vec::new();
    let mut n: usize = 0;
    while n < keys.len()
        invariant
            n <= keys@.len(),
            v == map@,
            map.wf(),
            keys@.to_set() == v.connections.dom(),
            forall|k: u32| #[trigger]
                v.provinces.contains_key(k) ==> index@.contains_key(k) && index@[k] == row_id(
                    defs,
                    k,
                ),
            rows@.len() == n,
            adjacencies_sorted(adjacency_views(rows@)),
            forall|x: AdjacencyView| #[trigger]
                has_row(adjacency_views(rows@), x) ==> from_links(v, x, defs, keys@, n as int),
            forall|m: int|
                0 <= m < n ==> has_row(
                    adjacency_views(rows@),
                    link_row(v.connections[#[trigger] keys@[m]], keys@[m], defs),
                ),
        decreases keys@.len() - n,
    {
        let key = keys[n];
        proof {
            assert(keys@.to_set().contains(keys@[n as int]));
            assert(v.connections.contains_key(key));
            assert(v.provinces.contains_key(pair_low(key)));
            assert(v.provinces.contains_key(pair_high(key)));
        }
        let c = map.base().connection(key);
        let (low, high) = pair_key_halves(key);
        let a = match index.get(&low) {
            Some(id) => *id,
            None => 0,
        };
        let b = match index.get(&high) {
            Some(id) => *id,
            None => 0,
        };
        let through = match c.through {
            Some(t) => {
                proof {
                    assert(v.provinces.contains_key(key_of(t)));
                }
                match index.get(&color_key(t)) {
                    Some(id) => Some(*id),
                    None => None,
                }
            },
            None => None,
        };
        let row = Adjacency {
            from_id: if a <= b { a } else { b },
            to_id: if a <= b { b } else { a },
            kind: c.kind.into_adjacency_kind(),
            through,
            start: c.start,
            stop: c.stop,
            rule_name: c.rule_name.clone(),
            comment: c.comment.clone(),
        };
        let ghost want = link_row(v.connections[key], key, defs);
        assert(row@ == want);
        let ghost before = adjacency_views(rows@);
        place_row(&mut rows, row);
        proof {
            let after = adjacency_views(rows@);
            assert forall|x: AdjacencyView| #[trigger] has_row(after, x) implies from_links(
                v,
                x,
                defs,
                keys@,
                n as int + 1,
            ) by {
                if x == want {
                    assert(x == link_row(v.connections[keys@[n as int]], keys@[n as int], defs));
                } else {
                    assert(has_row(before, x));
                    let m = choose|m: int|
                        0 <= m < n && x == link_row(
                            v.connections[#[trigger] keys@[m]],
                            keys@[m],
                            defs,
                        );
                    assert(x == link_row(v.connections[keys@[m]], keys@[m], defs));
                }
            }
            assert forall|m: int| 0 <= m < n + 1 implies has_row(
                after,
                link_row(v.connections[#[trigger] keys@[m]], keys@[m], defs),
            ) by {
                if m < n {
                    assert(has_row(
                        before,
                        link_row(v.connections[keys@[m]], keys@[m], defs),
                    ));
                }
            }
        }
        n += 1;
    }
    let mut e: usize = 0;
    while e < extra.len()
        invariant
            e <= extra@.len(),
            ex == adjacency_views(extra@),
            rows@.len() == keys@.len() + e,
            adjacencies_sorted(adjacency_views(rows@)),
            forall|x: AdjacencyView| #[trigger]
                has_row(adjacency_views(rows@), x) ==> from_links(
                    v,
                    x,
                    defs,
                    keys@,
                    keys@.len() as int,
                ) || from_extra(x, ex, e as int),
            forall|m: int|
                0 <= m < keys@.len() ==> has_row(
                    adjacency_views(rows@),
                    link_row(v.connections[#[trigger] keys@[m]], keys@[m], defs),
                ),
            forall|m: int| 0 <= m < e ==> has_row(adjacency_views(rows@), #[trigger] ex[m]),
        decreases extra@.len() - e,
    {
        let row = extra[e].duplicate();
        let ghost want = ex[e as int];
        let ghost before = adjacency_views(rows@);
        place_row(&mut rows, row);
        proof {
            let after = adjacency_views(rows@);
            assert forall|x: AdjacencyView| #[trigger] has_row(after, x) implies from_links(
                v,
                x,
                defs,
                keys@,
                keys@.len() as int,
            ) || from_extra(x, ex, e as int + 1) by {
                if x == want {
                    assert(x == ex[e as int]);
                } else {
                    assert(has_row(before, x));
                    if from_extra(x, ex, e as int) {
                        let m = choose|m: int| 0 <= m < e && x == #[trigger] ex[m];
                        assert(x == ex[m]);
                    }
                }
            }
            assert forall|m: int| 0 <= m < keys@.len() implies has_row(
                after,
                link_row(v.connections[#[trigger] keys@[m]], keys@[m], defs),
            ) by {
                assert(has_row(before, link_row(v.connections[keys@[m]], keys@[m], defs)));
            }
            assert forall|m: int| 0 <= m < e + 1 implies has_row(after, #[trigger] ex[m]) by {
                if m < e {
                    assert(has_row(before, ex[m]));
                }
            }
        }
        e += 1;
    }
    proof {
        let all = adjacency_views(rows@);
        keys@.unique_seq_to_set();
        assert forall|q: int| 0 <= q < all.len() implies is_link_row(
            v,
            #[trigger] all[q],
            defs,
            ex,
        ) by {
            assert(has_row(all, all[q]));
            if from_links(v, all[q], defs, keys@, keys@.len() as int) {
                let m = choose|m: int|
                    0 <= m < keys@.len() && all[q] == link_row(
                        v.connections[#[trigger] keys@[m]],
                        keys@[m],
                        defs,
                    );
                assert(keys@.to_set().contains(keys@[m]));
                assert(v.connections.contains_key(keys@[m]));
            } else {
                let m = choose|m: int| 0 <= m < ex.len() && all[q] == #[trigger] ex[m];
                assert(all[q] == ex[m]);
            }
        }
        assert forall|key: u64| #[trigger] v.connections.contains_key(key) implies has_row(
            all,
            link_row(v.connections[key], key, defs),
        ) by {
            assert(keys@.to_set().contains(key));
            let m = choose|m: int| 0 <= m < keys@.len() && keys@[m] == key;
            assert(keys@[m] == key);
        }
    }
    rows
}

/// Whether a definition is the row of its colour's province, under the
/// id that it has.
pub open spec fn is_row(v: MapView, d: DefinitionView) -> bool {
    &&& v.provinces.contains_key(key_of(d.rgb))
    &&& v.provinces[key_of(d.rgb)].row_fault() is None
    &&& d == v.provinces[key_of(d.rgb)].row(d.rgb, d.id)
}

/// The colour keys of a sequence of rows.
pub open spec fn row_keys(rows: Seq<Definition>) -> Seq<u32> {
    Seq::new(rows.len(), |i: int| key_of(rows[i].rgb))
}

/// Putting a value that a sequence does not hold into it leaves it
/// without duplicates, and adds the value to what it holds.
pub proof fn lemma_insert_fresh(s: Seq<u32>, at: int, k: u32)
    requires
        s.no_duplicates(),
        !s.contains(k),
        0 <= at <= s.len(),
    ensures
        s.insert(at, k).no_duplicates(),
        forall|x: u32| s.insert(at, k).contains(x) <==> s.contains(x) || x == k,
{
    let t = s.insert(at, k);
    assert forall|i: int, j: int| 0 <= i < t.len() && 0 <= j < t.len() && i != j implies t[i]
        != t[j] by {
        let ii = if i < at { i } else { i - 1 };
        let jj = if j < at { j } else { j - 1 };
        if i != at && j != at {
            assert(t[i] == s[ii] && t[j] == s[jj]);
        } else if i == at {
            assert(t[j] == s[jj]);
        } else {
            assert(t[i] == s[ii]);
        }
    }
    assert forall|x: u32| t.contains(x) <==> s.contains(x) || x == k by {
        if s.contains(x) {
            let i = choose|i: int| 0 <= i < s.len() && s[i] == x;
            let p = if i < at { i } else { i + 1 };
            assert(t[p] == x);
        }
        if x == k {
            assert(t[at] == k);
        }
        if t.contains(x) {
            let i = choose|i: int| 0 <= i < t.len() && t[i] == x;
            let p = if i < at { i } else { i - 1 };
            if i != at {
                assert(s[p] == x);
            }
        }
    }
}

/// Whether the rows are those of the provinces of the keys given, one
/// each, in order.
#[verifier::opaque]
pub open spec fn collected(v: MapView, rows: Seq<Definition>, done: Seq<u32>) -> bool {
    &&& rows.len() == done.len()
    &&& definitions_sorted(definition_views(rows))
    &&& forall|q: int| 0 <= q < rows.len() ==> is_row(v, (#[trigger] rows[q])@)
    &&& row_keys(rows).no_duplicates()
    &&& forall|x: u32| row_keys(rows).contains(x) <==> done.contains(x)
}

/// Gives the rows the ids from one on, in their order.
fn number_rows(rows: &Vec<Definition>, Ghost(v): Ghost<MapView>) -> (out: Vec<Definition>)
    requires
        rows@.len() < u32::MAX,
        definitions_sorted(definition_views(rows@)),
        forall|i: int| 0 <= i < rows@.len() ==> is_row(v, (#[trigger] rows@[i])@),
    ensures
        out@.len() == rows@.len(),
        definitions_sorted(definition_views(out@)),
        forall|i: int|
            0 <= i < out@.len() ==> (#[trigger] out@[i]).id == i + 1 && out@[i].rgb == rows@[i].rgb
                && is_row(v, out@[i]@),
{
    let mut out: Vec<Definition> = Vec::new();
    let mut i: usize = 0;
    while i < rows.len()
        invariant
            i <= rows@.len(),
            rows@.len() < u32::MAX,
            out@.len() == i,
            forall|j: int| 0 <= j < rows@.len() ==> is_row(v, (#[trigger] rows@[j])@),
            forall|j: int|
                0 <= j < i ==> (#[trigger] out@[j]).id == j + 1 && out@[j].rgb == rows@[j].rgb
                    && is_row(v, out@[j]@) && out@[j]@.kind == rows@[j]@.kind
                    && out@[j]@.continent == rows@[j]@.continent && out@[j]@.terrain
                    == rows@[j]@.terrain,
        decreases rows@.len() - i,
    {
        let d = &rows[i];
        proof {
            assert(is_row(v, rows@[i as int]@));
        }
        out.push(
            Definition {
                id: (i + 1) as u32,
                rgb: d.rgb,
                kind: d.kind,
                coastal: d.coastal,
                terrain: d.terrain.clone(),
                continent: d.continent,
            },
        );
        i += 1;
    }
    proof {
        let a = definition_views(rows@);
        let b = definition_views(out@);
        assert forall|j: int| 0 <= j < b.len() - 1 implies (#[trigger] b[j]).le(b[j + 1]) by {
            assert(a[j].le(a[j + 1]));
            assert(out@[j]@.kind == rows@[j]@.kind);
            assert(out@[j + 1]@.kind == rows@[j + 1]@.kind);
        }
    }
    out
}

/// Whether rows are those of a map whose ids are not kept: the provinces
/// in their order, numbered from one, and the connections between them,
/// with nothing told of ids; or, where a province cannot be written as a
/// row, the reason of one that cannot.
pub open spec fn numbered_anew(v: MapView, r: Result<MapData, &'static str>) -> bool {
    match r {
        Ok(data) => {
            &&& !some_fault(v)
            &&& rows_of_provinces(v, definition_views(data.definitions@))
            &&& definitions_sorted(definition_views(data.definitions@))
            &&& rows_of_links(
                v,
                adjacency_views(data.adjacencies@),
                definition_views(data.definitions@),
                Seq::empty(),
            )
            &&& data.id_changes is None
        },
        Err(e) => exists|k: u32| #[trigger]
            v.provinces.contains_key(k) && v.provinces[k].row_fault() == Some(e@),
    }
}

/// The rows of a map whose ids are not kept: the provinces in their
/// order, by kind, continent and terrain, numbered from one; and the
/// connections between them, in their order. There are none where a
/// province cannot be written as a row; the error says why one cannot.
pub fn deconstruct_map_data_no_preserve_ids(bundle: &Bundle) -> (r: Result<MapData, &'static str>)
    requires
        bundle.map.wf(),
        bundle.map@.provinces.len() < u32::MAX,
    ensures
        numbered_anew(bundle.map@, r),
{
    let ghost v = bundle.map@;
    let keys = bundle.map.base().province_keys();
    proof {
        keys@.unique_seq_to_set();
    }
    let mut rows: Vec<Definition> = Vec::new();
    let mut n: usize = 0;
    proof {
        reveal(collected);
        assert(keys@.take(0) =~= Seq::empty());
        assert(row_keys(rows@) =~= Seq::empty());
    }
    while n < keys.len()
        invariant
            n <= keys@.len(),
            v == bundle.map@,
            bundle.map.wf(),
            keys@.no_duplicates(),
            keys@.to_set() == v.provinces.dom(),
            collected(v, rows@, keys@.take(n as int)),
            forall|m: int| 0 <= m < n ==> v.provinces[#[trigger] keys@[m]].row_fault() is None,
        decreases keys@.len() - n,
    {
        let k = keys[n];
        proof {
            assert(keys@.to_set().contains(keys@[n as int]));
            assert(v.provinces.contains_key(k));
            crate::model::lemma_province_key(v, k);
            let done = keys@.take(n as int);
            assert(keys@.take(n as int + 1) =~= done.push(k));
            assert(!done.contains(k)) by {
                if done.contains(k) {
                    let j = choose|j: int| 0 <= j < done.len() && done[j] == k;
                    assert(keys@[j] == keys@[n as int]);
                }
            }
        }
        let province = bundle.map.base().province(k);
        let row = match province.to_definition_with_id(key_color(k), 0) {
            Ok(row) => row,
            Err(e) => { return Err(e); },
        };
        place_definition(&mut rows, row, Ghost(v), Ghost(keys@.take(n as int)));
        n += 1;
    }
    proof {
        reveal(collected);
    }
    let definitions = number_rows(&rows, Ghost(v));
    let ghost defs = definition_views(definitions@);
    proof {
        assert(keys@.take(keys@.len() as int) =~= keys@);
        assert(def_keys(defs) =~= row_keys(rows@)) by {
            assert forall|i: int| 0 <= i < defs.len() implies def_keys(defs)[i] == row_keys(
                rows@,
            )[i] by {
                assert(definitions@[i].rgb == rows@[i].rgb);
            }
        }
        assert forall|i: int| 0 <= i < defs.len() implies v.provinces.contains_key(
            key_of((#[trigger] defs[i]).rgb),
        ) && defs[i] == v.provinces[key_of(defs[i].rgb)].row(defs[i].rgb, (i + 1) as u32) by {
            assert(is_row(v, definitions@[i]@));
        }
        assert forall|k: u32| #[trigger] v.provinces.contains_key(k) implies has_color(
            defs,
            k,
        ) by {
            assert(keys@.to_set().contains(k));
            assert(keys@.contains(k));
            assert(row_keys(rows@).contains(k));
        }
        assert(!some_fault(v)) by {
            if some_fault(v) {
                let k = choose|k: u32| #[trigger]
                    v.provinces.contains_key(k) && v.provinces[k].row_fault() is Some;
                assert(keys@.to_set().contains(k));
                let m = choose|m: int| 0 <= m < keys@.len() && keys@[m] == k;
                assert(v.provinces[keys@[m]].row_fault() is None);
            }
        }
    }
    let index = index_rows(&definitions);
    proof {
        assert forall|k: u32| #[trigger] v.provinces.contains_key(k) implies index@.contains_key(
            k,
        ) && index@[k] == row_id(defs, k) by {
            assert(has_color(defs, k));
        }
    }
    let none: Vec<Adjacency> = Vec::new();
    let adjacencies = adjacency_rows(&bundle.map, &index, &none, Ghost(defs));
    proof {
        assert(adjacency_views(none@) =~= Seq::empty());
    }
    Ok(MapData { definitions, adjacencies, id_changes: None })
}

/// How many slots of a table of rows are free.
pub open spec fn free_slots(s: Seq<Option<u32>>) -> nat
    decreases s.len(),
{
    if s.len() == 0 {
        0
    } else {
        free_slots(s.drop_last()) + if s.last() is None {
            1nat
        } else {
            0
        }
    }
}

/// Whether a slot holds the colour key.
pub open spec fn in_slots(s: Seq<Option<u32>>, k: u32) -> bool {
    exists|i: int| 0 <= i < s.len() && #[trigger] s[i] == Some(k)
}

/// Whether the province of a colour key has the id of a slot.
pub open spec fn claims(v: MapView, k: u32, i: int) -> bool {
    v.provinces[k].preserved_id == Some((i + 1) as u32)
}

/// Filling a free slot leaves one fewer free.
proof fn lemma_free_filled(s: Seq<Option<u32>>, i: int, k: u32)
    requires
        0 <= i < s.len(),
        s[i] is None,
    ensures
        free_slots(s.update(i, Some(k))) + 1 == free_slots(s),
    decreases s.len(),
{
    let t = s.update(i, Some(k));
    if i == s.len() - 1 {
        assert(t.drop_last() =~= s.drop_last());
    } else {
        assert(t.drop_last() =~= s.drop_last().update(i, Some(k)));
        lemma_free_filled(s.drop_last(), i, k);
    }
}

/// Where a slot is free, one at or behind the place `from` is, if all
/// before it are taken.
proof fn lemma_free_exists(s: Seq<Option<u32>>, from: int) -> (i: int)
    requires
        free_slots(s) > 0,
        0 <= from <= s.len(),
        forall|j: int| 0 <= j < from ==> (#[trigger] s[j]) is Some,
    ensures
        from <= i < s.len(),
        s[i] is None,
    decreases s.len(),
{
    if s.last() is None {
        s.len() - 1
    } else {
        let t = s.drop_last();
        if from == s.len() {
            assert(s[s.len() - 1] is Some);
            lemma_free_none(t);
            0
        } else {
            lemma_free_exists(t, from)
        }
    }
}

/// Where every slot is taken, none is free.
proof fn lemma_free_none(s: Seq<Option<u32>>)
    requires
        forall|j: int| 0 <= j < s.len() ==> (#[trigger] s[j]) is Some,
    ensures
        free_slots(s) == 0,
    decreases s.len(),
{
    if s.len() > 0 {
        lemma_free_none(s.drop_last());
    }
}

/// Where no slot is free, every slot is taken.
proof fn lemma_all_taken(s: Seq<Option<u32>>, i: int)
    requires
        free_slots(s) == 0,
        0 <= i < s.len(),
    ensures
        s[i] is Some,
    decreases s.len(),
{
    if i < s.len() - 1 {
        lemma_all_taken(s.drop_last(), i);
    }
}

/// Why no row can be made of a province, if none can: under its kept id
/// where it has one, under a new id where not.
pub open spec fn saving_fault(p: ProvinceView) -> Option<Seq<char>> {
    if p.preserved_id is Some {
        p.kept_row_fault()
    } else {
        p.row_fault()
    }
}

/// What came of giving each province the slot of its kept id: the slots,
/// each free or with the key of a province that has its id; and the keys
/// of the provinces that got none.
pub struct Claims {
    pub slots: Vec<Option<u32>>,
    pub outliers: Vec<u32>,
}

/// Whether the claims are those of the provinces of a map.
pub open spec fn claimed(v: MapView, c: Claims) -> bool {
    &&& c.slots@.len() == v.provinces.len()
    &&& c.outliers@.no_duplicates()
    &&& free_slots(c.slots@) == c.outliers@.len()
    &&& forall|i: int|
        0 <= i < c.slots@.len() && (#[trigger] c.slots@[i]) is Some ==> v.provinces.contains_key(
            c.slots@[i].unwrap(),
        ) && claims(v, c.slots@[i].unwrap(), i)
    &&& forall|q: int|
        0 <= q < c.outliers@.len() ==> v.provinces.contains_key(#[trigger] c.outliers@[q])
    &&& forall|k: u32| #[trigger]
        v.provinces.contains_key(k) ==> in_slots(c.slots@, k) || c.outliers@.contains(k)
    &&& forall|k: u32, i: int|
        v.provinces.contains_key(k) && 0 <= i < c.slots@.len() && #[trigger] claims(v, k, i)
            ==> c.slots@[i] is Some
    &&& forall|k: u32| #[trigger] v.provinces.contains_key(k) ==> v.provinces[k].row_fault() is None
}

/// Gives each province the slot of its kept id, where that is one of the
/// slots and no province before it took it. Fails where a province
/// cannot be written as a row.
fn claim_slots(map: &ProvinceMap) -> (r: Result<Claims, &'static str>)
    requires
        map.wf(),
        map@.provinces.len() < u32::MAX,
    ensures
        match r {
            Ok(c) => claimed(map@, c),
            Err(e) => exists|k: u32| #[trigger]
                map@.provinces.contains_key(k) && saving_fault(map@.provinces[k]) == Some(e@),
        },
{
    let ghost v = map@;
    let keys = map.base().province_keys();
    let count = keys.len();
    proof {
        keys@.unique_seq_to_set();
    }
    let mut slots: Vec<Option<u32>> = Vec::new();
    let mut i: usize = 0;
    while i < count
        invariant
            i <= count,
            slots@.len() == i,
            forall|j: int| 0 <= j < i ==> (#[trigger] slots@[j]) is None,
            free_slots(slots@) == i,
        decreases count - i,
    {
        let ghost before = slots@;
        slots.push(None);
        proof {
            assert(slots@.drop_last() =~= before);
        }
        i += 1;
    }
    let mut outliers: Vec<u32> = Vec::new();
    let mut n: usize = 0;
    while n < count
        invariant
            n <= count,
            count == keys@.len(),
            count == v.provinces.len(),
            count < u32::MAX,
            v == map@,
            map.wf(),
            keys@.no_duplicates(),
            keys@.to_set() == v.provinces.dom(),
            slots@.len() == count,
            outliers@.no_duplicates(),
            free_slots(slots@) + n == count + outliers@.len(),
            forall|i: int|
                0 <= i < slots@.len() && (#[trigger] slots@[i]) is Some
                    ==> v.provinces.contains_key(slots@[i].unwrap()) && claims(
                    v,
                    slots@[i].unwrap(),
                    i,
                ),
            forall|q: int|
                0 <= q < outliers@.len() ==> keys@.take(n as int).contains(
                    #[trigger] outliers@[q],
                ),
            forall|m: int|
                0 <= m < n ==> in_slots(slots@, #[trigger] keys@[m]) || outliers@.contains(keys@[m]),
            forall|m: int, i: int|
                0 <= m < n && 0 <= i < slots@.len() && #[trigger] claims(v, keys@[m], i)
                    ==> slots@[i] is Some,
            forall|m: int| 0 <= m < n ==> v.provinces[#[trigger] keys@[m]].row_fault() is None,
        decreases count - n,
    {
        let k = keys[n];
        proof {
            assert(keys@.to_set().contains(keys@[n as int]));
            assert(v.provinces.contains_key(k));
            crate::model::lemma_province_key(v, k);
            let done = keys@.take(n as int);
            let more = keys@.take(n as int + 1);
            assert(more =~= done.push(k));
            assert(!done.contains(k)) by {
                if done.contains(k) {
                    let j = choose|j: int| 0 <= j < done.len() && done[j] == k;
                    assert(keys@[j] == keys@[n as int]);
                }
            }
            assert forall|x: u32| done.contains(x) implies more.contains(x) by {
                let j = choose|j: int| 0 <= j < done.len() && done[j] == x;
                assert(more[j] == x);
            }
            assert(more[n as int] == k);
        }
        let province = map.base().province(k);
        let slot: Option<usize> = match province.preserved_id {
            Some(id) => {
                match province.to_definition(key_color(k)) {
                    Ok(_) => {},
                    Err(e) => { return Err(e); },
                }
                if id >= 1 && ((id - 1) as usize) < count {
                    Some((id - 1) as usize)
                } else {
                    None
                }
            },
            None => {
                match province.to_definition_with_id(key_color(k), 0) {
                    Ok(_) => {},
                    Err(e) => { return Err(e); },
                }
                None
            },
        };
        let ghost s0 = slots@;
        let ghost o0 = outliers@;
        let mut placed = false;
        if let Some(at) = slot {
            if slots[at].is_none() {
                slots[at] = Some(k);
                placed = true;
                proof {
                    lemma_free_filled(s0, at as int, k);
                }
            }
        }
        if !placed {
            outliers.push(k);
            proof {
                assert(outliers@ =~= o0.push(k));
                assert forall|a: int, b: int|
                    0 <= a < outliers@.len() && 0 <= b < outliers@.len() && a != b implies outliers@[a]
                    != outliers@[b] by {
                    if a == o0.len() {
                        assert(keys@.take(n as int).contains(o0[b]));
                    }
                    if b == o0.len() {
                        assert(keys@.take(n as int).contains(o0[a]));
                    }
                }
            }
        }
        proof {
            assert forall|m: int| 0 <= m < n + 1 implies in_slots(slots@, #[trigger] keys@[m])
                || outliers@.contains(keys@[m]) by {
                if m == n {
                    if placed {
                        assert(slots@[slot.unwrap() as int] == Some(k));
                    } else {
                        assert(outliers@[o0.len() as int] == k);
                    }
                } else {
                    if in_slots(s0, keys@[m]) {
                        let j = choose|j: int| 0 <= j < s0.len() && #[trigger] s0[j] == Some(
                            keys@[m],
                        );
                        assert(slots@[j] == Some(keys@[m]));
                    } else {
                        let j = choose|j: int| 0 <= j < o0.len() && o0[j] == keys@[m];
                        assert(outliers@[j] == keys@[m]);
                    }
                }
            }
            assert forall|q: int| 0 <= q < outliers@.len() implies keys@.take(
                n as int + 1,
            ).contains(#[trigger] outliers@[q]) by {
                if q < o0.len() {
                    assert(keys@.take(n as int).contains(o0[q]));
                }
            }
        }
        n += 1;
    }
    let c = Claims { slots, outliers };
    proof {
        assert(keys@.take(count as int) =~= keys@);
        assert forall|k: u32| #[trigger] v.provinces.contains_key(k) implies (in_slots(c.slots@, k)
            || c.outliers@.contains(k)) && v.provinces[k].row_fault() is None by {
            assert(keys@.to_set().contains(k));
            let m = choose|m: int| 0 <= m < keys@.len() && keys@[m] == k;
            assert(keys@[m] == k);
        }
        assert forall|k: u32, i: int|
            v.provinces.contains_key(k) && 0 <= i < c.slots@.len() && #[trigger] claims(
                v,
                k,
                i,
            ) implies c.slots@[i] is Some by {
            assert(keys@.to_set().contains(k));
            let m = choose|m: int| 0 <= m < keys@.len() && keys@[m] == k;
            assert(claims(v, keys@[m], i));
        }
        assert forall|q: int| 0 <= q < c.outliers@.len() implies v.provinces.contains_key(
            #[trigger] c.outliers@[q],
        ) by {
            assert(keys@.contains(c.outliers@[q]));
            assert(keys@.to_set().contains(c.outliers@[q]));
        }
    }
    Ok(c)
}

/// The id that a province was loaded with; zero where it has none.
pub open spec fn old_id(v: MapView, k: u32) -> u32 {
    match v.provinces[k].preserved_id {
        Some(id) => id,
        None => 0,
    }
}

/// The rows of the provinces that got no slot, under the ids that they
/// had, in order.
fn outlier_rows(map: &ProvinceMap, outliers: &Vec<u32>) -> (rows: Vec<Definition>)
    requires
        map.wf(),
        outliers@.no_duplicates(),
        forall|q: int| 0 <= q < outliers@.len() ==> map@.provinces.contains_key(#[trigger] outliers@[q]),
        forall|k: u32| #[trigger]
            map@.provinces.contains_key(k) ==> map@.provinces[k].row_fault() is None,
    ensures
        collected(map@, rows@, outliers@),
        forall|q: int|
            0 <= q < rows@.len() ==> (#[trigger] rows@[q]).id == old_id(map@, key_of(rows@[q].rgb)),
{
    let ghost v = map@;
    let mut rows: Vec<Definition> = Vec::new();
    let mut n: usize = 0;
    proof {
        reveal(collected);
        assert(outliers@.take(0) =~= Seq::empty());
        assert(row_keys(rows@) =~= Seq::empty());
    }
    while n < outliers.len()
        invariant
            n <= outliers@.len(),
            v == map@,
            map.wf(),
            outliers@.no_duplicates(),
            forall|q: int| 0 <= q < outliers@.len() ==> v.provinces.contains_key(#[trigger] outliers@[q]),
            forall|k: u32| #[trigger] v.provinces.contains_key(k) ==> v.provinces[k].row_fault() is None,
            collected(v, rows@, outliers@.take(n as int)),
            forall|q: int|
                0 <= q < rows@.len() ==> (#[trigger] rows@[q]).id == old_id(v, key_of(rows@[q].rgb)),
        decreases outliers@.len() - n,
    {
        let k = outliers[n];
        proof {
            assert(v.provinces.contains_key(outliers@[n as int]));
            crate::model::lemma_province_key(v, k);
            let done = outliers@.take(n as int);
            assert(outliers@.take(n as int + 1) =~= done.push(k));
            assert(!done.contains(k)) by {
                if done.contains(k) {
                    let j = choose|j: int| 0 <= j < done.len() && done[j] == k;
                    assert(outliers@[j] == outliers@[n as int]);
                }
            }
        }
        let province = map.base().province(k);
        let id = match province.preserved_id {
            Some(id) => id,
            None => 0,
        };
        let row = match province.to_definition_with_id(key_color(k), id) {
            Ok(row) => row,
            Err(_) => vstd::pervasive::unreached(),
        };
        let ghost before = rows@;
        let at = place_definition(&mut rows, row, Ghost(v), Ghost(outliers@.take(n as int)));
        proof {
            assert forall|q: int| 0 <= q < rows@.len() implies (#[trigger] rows@[q]).id == old_id(
                v,
                key_of(rows@[q].rgb),
            ) by {
                if q != at {
                    let p = if q < at { q } else { q - 1 };
                    assert(rows@[q] == before[p]);
                }
            }
        }
        n += 1;
    }
    proof {
        assert(outliers@.take(outliers@.len() as int) =~= outliers@);
    }
    rows
}

/// Puts the row of one more province among the rows, in order, and says
/// where.
fn place_definition(
    rows: &mut Vec<Definition>,
    row: Definition,
    Ghost(v): Ghost<MapView>,
    Ghost(done): Ghost<Seq<u32>>,
) -> (at: usize)
    requires
        collected(v, old(rows)@, done),
        is_row(v, row@),
        !done.contains(key_of(row.rgb)),
    ensures
        collected(v, final(rows)@, done.push(key_of(row.rgb))),
        at <= old(rows)@.len(),
        final(rows)@ == old(rows)@.insert(at as int, row),
{
    reveal(collected);
    let ghost k = key_of(row.rgb);
    let ghost before = rows@;
    let ghost more = done.push(k);
    let at = insert_definition(rows, row);
    proof {
        assert(row_keys(rows@) =~= row_keys(before).insert(at as int, k));
        lemma_insert_fresh(row_keys(before), at as int, k);
        assert forall|q: int| 0 <= q < rows@.len() implies is_row(v, (#[trigger] rows@[q])@) by {
            if q != at {
                let p = if q < at { q } else { q - 1 };
                assert(rows@[q] == before[p]);
            }
        }
        assert forall|x: u32| more.contains(x) <==> done.contains(x) || x == k by {
            if done.contains(x) {
                let j = choose|j: int| 0 <= j < done.len() && done[j] == x;
                assert(more[j] == x);
            }
            if x == k {
                assert(more[done.len() as int] == k);
            }
        }
    }
    at
}

/// What is to be told of the ids of the first `n` slots: of each slot
/// whose province did not have its id, that the id was given anew to a
/// province without one, or in place of the one that it had.
pub open spec fn slot_changes(v: MapView, order: Seq<u32>, n: int) -> Seq<IdChange>
    decreases n,
{
    if n <= 0 {
        Seq::empty()
    } else {
        let before = slot_changes(v, order, n - 1);
        let old = old_id(v, order[n - 1]);
        if old == n {
            before
        } else if old == 0 {
            before.push(IdChange::AssignedNew(n as u32))
        } else {
            before.push(IdChange::Reassigned(old, n as u32))
        }
    }
}

/// What is to be told of the first slots depends on those slots alone.
proof fn lemma_slot_changes_prefix(v: MapView, a: Seq<u32>, b: Seq<u32>, n: int)
    requires
        forall|i: int| 0 <= i < n ==> a[i] == b[i],
    ensures
        slot_changes(v, a, n) == slot_changes(v, b, n),
    decreases n,
{
    if n > 0 {
        lemma_slot_changes_prefix(v, a, b, n - 1);
    }
}

/// Nothing is to be told of slots whose provinces had their ids.
proof fn lemma_slot_changes_kept(v: MapView, order: Seq<u32>, from: int, to: int)
    requires
        0 <= from <= to,
        forall|i: int| from <= i < to ==> old_id(v, #[trigger] order[i]) == i + 1,
    ensures
        slot_changes(v, order, to) == slot_changes(v, order, from),
    decreases to - from,
{
    if from < to {
        lemma_slot_changes_kept(v, order, from, to - 1);
        assert(old_id(v, order[to - 1]) == to);
    }
}

/// The colour keys in the slots; zero for a free slot.
pub open spec fn taken(s: Seq<Option<u32>>) -> Seq<u32> {
    Seq::new(
        s.len(),
        |i: int|
            match s[i] {
                Some(k) => k,
                None => 0u32,
            },
    )
}

/// Whether the province of one colour key comes before that of another,
/// or with it, in the order of rows: by kind, continent and terrain.
pub open spec fn comes_before(v: MapView, a: u32, b: u32) -> bool {
    v.provinces[a].row(color_of(a), 0).le(v.provinces[b].row(color_of(b), 0))
}

/// Gives each province that got no slot the lowest slot that is free, in
/// the order of the rows. Returns the colour key of each slot, and what
/// is to be told of the ids.
fn fill_slots(held: Claims, rows: &Vec<Definition>, Ghost(v): Ghost<MapView>) -> (r: (
    Vec<u32>,
    Vec<IdChange>,
))
    requires
        claimed(v, held),
        collected(v, rows@, held.outliers@),
        forall|q: int|
            0 <= q < rows@.len() ==> (#[trigger] rows@[q]).id == old_id(v, key_of(rows@[q].rgb)),
        v.provinces.len() < u32::MAX,
    ensures
        r.0@.len() == v.provinces.len(),
        forall|i: int| 0 <= i < r.0@.len() ==> v.provinces.contains_key(#[trigger] r.0@[i]),
        forall|k: u32| #[trigger] v.provinces.contains_key(k) ==> r.0@.contains(k),
        forall|i: int|
            0 <= i < r.0@.len() && (#[trigger] held.slots@[i]) is Some ==> r.0@[i]
                == held.slots@[i].unwrap(),
        r.1@ == slot_changes(v, r.0@, r.0@.len() as int),
        forall|i: int, j: int|
            0 <= i < j < r.0@.len() && (#[trigger] held.slots@[i]) is None && (
            #[trigger] held.slots@[j]) is None ==> comes_before(v, r.0@[i], r.0@[j]),
{
    reveal(collected);
    let ghost mut placed: Seq<int> = Seq::empty();
    let ghost first = held.slots@;
    let ghost keys = row_keys(rows@);
    let mut slots = held.slots;
    let count = slots.len();
    let mut changes: Vec<IdChange> = Vec::new();
    let mut at: usize = 0;
    let mut j: usize = 0;
    proof {
        assert forall|k: u32| #[trigger] v.provinces.contains_key(k) implies in_slots(slots@, k) || (
        exists|q: int| 0 <= q < keys.len() && #[trigger] keys[q] == k) by {
            if !in_slots(slots@, k) {
                assert(held.outliers@.contains(k));
                assert(keys.contains(k));
            }
        }
    }
    while j < rows.len()
        invariant
            j <= rows@.len(),
            at <= count,
            count == first.len(),
            count == v.provinces.len(),
            count < u32::MAX,
            slots@.len() == count,
            keys == row_keys(rows@),
            free_slots(slots@) + j == rows@.len(),
            forall|i: int| 0 <= i < at ==> (#[trigger] slots@[i]) is Some,
            forall|i: int| at <= i < count ==> #[trigger] slots@[i] == first[i],
            forall|i: int| 0 <= i < count && (#[trigger] first[i]) is Some ==> slots@[i] == first[i],
            forall|i: int|
                0 <= i < count && (#[trigger] first[i]) is Some ==> claims(v, first[i].unwrap(), i),
            forall|i: int|
                0 <= i < count && (#[trigger] slots@[i]) is Some ==> v.provinces.contains_key(
                    slots@[i].unwrap(),
                ),
            forall|q: int| 0 <= q < rows@.len() ==> is_row(v, (#[trigger] rows@[q])@),
            forall|q: int|
                0 <= q < rows@.len() ==> (#[trigger] rows@[q]).id == old_id(
                    v,
                    key_of(rows@[q].rgb),
                ),
            forall|k: u32| #[trigger]
                v.provinces.contains_key(k) ==> in_slots(slots@, k) || (exists|q: int|
                    j <= q < keys.len() && #[trigger] keys[q] == k),
            changes@ == slot_changes(v, taken(slots@), at as int),
            definitions_sorted(definition_views(rows@)),
            placed.len() == j,
            forall|q: int|
                0 <= q < j ==> 0 <= #[trigger] placed[q] < at && first[placed[q]] is None
                    && slots@[placed[q]] == Some(keys[q]),
            forall|q: int, r: int| 0 <= q < r < j ==> #[trigger] placed[q] < #[trigger] placed[r],
            forall|i: int|
                0 <= i < count && first[i] is None && (#[trigger] slots@[i]) is Some
                    ==> exists|q: int| 0 <= q < j && #[trigger] placed[q] == i,
        decreases rows@.len() - j,
    {
        let ghost free = lemma_free_exists(slots@, at as int);
        while slots[at].is_some()
            invariant
                at <= free < count,
                count < u32::MAX,
                slots@.len() == count,
                slots@[free] is None,
                forall|i: int| 0 <= i < at ==> (#[trigger] slots@[i]) is Some,
                forall|i: int| at <= i < count ==> #[trigger] slots@[i] == first[i],
                forall|i: int|
                    0 <= i < count && (#[trigger] first[i]) is Some ==> claims(
                        v,
                        first[i].unwrap(),
                        i,
                    ),
                changes@ == slot_changes(v, taken(slots@), at as int),
                forall|q: int| 0 <= q < placed.len() ==> #[trigger] placed[q] < at,
            decreases free - at,
        {
            proof {
                assert(slots@[at as int] == first[at as int]);
                assert(claims(v, first[at as int].unwrap(), at as int));
                assert(taken(slots@)[at as int] == first[at as int].unwrap());
            }
            at += 1;
        }
        let row = &rows[j];
        let k = color_key(row.rgb);
        let new_id = (at + 1) as u32;
        let ghost s0 = slots@;
        proof {
            assert(is_row(v, rows@[j as int]@));
            lemma_free_filled(s0, at as int, k);
        }
        slots[at] = Some(k);
        if row.id != new_id {
            if row.id == 0 {
                changes.push(IdChange::AssignedNew(new_id));
            } else {
                changes.push(IdChange::Reassigned(row.id, new_id));
            }
        }
        proof {
            lemma_slot_changes_prefix(v, taken(s0), taken(slots@), at as int);
            assert(taken(slots@)[at as int] == k);
            assert(first[at as int] is None);
            let before = placed;
            placed = placed.push(at as int);
            assert(keys[j as int] == k);
            assert forall|q: int| 0 <= q < j + 1 implies 0 <= #[trigger] placed[q] < at + 1
                && first[placed[q]] is None && slots@[placed[q]] == Some(keys[q]) by {
                if q < j {
                    assert(placed[q] == before[q]);
                    assert(before[q] < at);
                }
            }
            assert forall|q: int, r: int| 0 <= q < r < j + 1 implies #[trigger] placed[q]
                < #[trigger] placed[r] by {
                assert(placed[q] == before[q]);
                if r < j {
                    assert(placed[r] == before[r]);
                }
            }
            assert forall|i: int|
                0 <= i < count && first[i] is None && (#[trigger] slots@[i]) is Some implies exists|
                q: int,
            | 0 <= q < j + 1 && #[trigger] placed[q] == i by {
                if i == at {
                    assert(placed[j as int] == i);
                } else {
                    assert(s0[i] is Some);
                    let q = choose|q: int| 0 <= q < j && #[trigger] before[q] == i;
                    assert(placed[q] == i);
                }
            }
            assert forall|x: u32| #[trigger] v.provinces.contains_key(x) implies in_slots(
                slots@,
                x,
            ) || (exists|q: int| j + 1 <= q < keys.len() && #[trigger] keys[q] == x) by {
                if in_slots(s0, x) {
                    let i = choose|i: int| 0 <= i < s0.len() && #[trigger] s0[i] == Some(x);
                    assert(slots@[i] == Some(x));
                } else {
                    let q = choose|q: int| j <= q < keys.len() && #[trigger] keys[q] == x;
                    if q == j {
                        assert(slots@[at as int] == Some(x));
                    } else {
                        assert(keys[q] == x);
                    }
                }
            }
        }
        at += 1;
        j += 1;
    }
    let mut order: Vec<u32> = Vec::new();
    let mut i: usize = 0;
    proof {
        assert forall|n: int| 0 <= n < count implies (#[trigger] slots@[n]) is Some by {
            lemma_all_taken(slots@, n);
        }
    }
    while i < count
        invariant
            i <= count,
            slots@.len() == count,
            order@.len() == i,
            forall|n: int| 0 <= n < count ==> (#[trigger] slots@[n]) is Some,
            forall|n: int| 0 <= n < i ==> #[trigger] order@[n] == slots@[n].unwrap(),
        decreases count - i,
    {
        let k = match slots[i] {
            Some(k) => k,
            None => 0,
        };
        order.push(k);
        i += 1;
    }
    proof {
        assert(order@ =~= taken(slots@));
        assert forall|a: int, b: int|
            0 <= a < b < count && (#[trigger] first[a]) is None && (
            #[trigger] first[b]) is None implies comes_before(v, order@[a], order@[b]) by {
            assert(slots@[a] is Some && slots@[b] is Some);
            let q = choose|q: int| 0 <= q < placed.len() && #[trigger] placed[q] == a;
            let r = choose|r: int| 0 <= r < placed.len() && #[trigger] placed[r] == b;
            if q >= r {
                if q > r {
                    assert(placed[r] < placed[q]);
                }
            }
            lemma_sorted_pairs(definition_views(rows@), q, r);
            assert(is_row(v, rows@[q]@));
            assert(is_row(v, rows@[r]@));
            assert(keys[q] == key_of(rows@[q].rgb));
            assert(keys[r] == key_of(rows@[r].rgb));
        }
        assert forall|n: int| at <= n < count implies old_id(v, #[trigger] order@[n]) == n + 1 by {
            assert(slots@[n] == first[n]);
            assert(claims(v, first[n].unwrap(), n));
        }
        lemma_slot_changes_kept(v, order@, at as int, count as int);
        assert forall|k: u32| #[trigger] v.provinces.contains_key(k) implies order@.contains(k) by {
            assert(in_slots(slots@, k));
            let n = choose|n: int| 0 <= n < slots@.len() && #[trigger] slots@[n] == Some(k);
            assert(order@[n] == k);
        }
    }
    (order, changes)
}

/// The rows of the provinces of the slots, each under the id of its slot.
fn definition_rows(map: &ProvinceMap, order: &Vec<u32>) -> (defs: Vec<Definition>)
    requires
        map.wf(),
        order@.len() < u32::MAX,
        forall|i: int| 0 <= i < order@.len() ==> map@.provinces.contains_key(#[trigger] order@[i]),
        forall|k: u32| #[trigger]
            map@.provinces.contains_key(k) ==> map@.provinces[k].row_fault() is None,
    ensures
        defs@.len() == order@.len(),
        def_keys(definition_views(defs@)) == order@,
        forall|i: int|
            0 <= i < defs@.len() ==> (#[trigger] defs@[i]).id == i + 1 && is_row(map@, defs@[i]@),
{
    let ghost v = map@;
    let mut defs: Vec<Definition> = Vec::new();
    let mut i: usize = 0;
    while i < order.len()
        invariant
            i <= order@.len(),
            order@.len() < u32::MAX,
            v == map@,
            map.wf(),
            defs@.len() == i,
            forall|n: int| 0 <= n < order@.len() ==> v.provinces.contains_key(#[trigger] order@[n]),
            forall|k: u32| #[trigger] v.provinces.contains_key(k) ==> v.provinces[k].row_fault() is None,
            forall|n: int|
                0 <= n < i ==> (#[trigger] defs@[n]).id == n + 1 && is_row(v, defs@[n]@) && key_of(
                    defs@[n].rgb,
                ) == order@[n],
        decreases order@.len() - i,
    {
        let k = order[i];
        proof {
            assert(v.provinces.contains_key(order@[i as int]));
            crate::model::lemma_province_key(v, k);
        }
        let row = match map.base().province(k).to_definition_with_id(key_color(k), (i + 1) as u32) {
            Ok(row) => row,
            Err(_) => vstd::pervasive::unreached(),
        };
        defs.push(row);
        i += 1;
    }
    proof {
        assert(def_keys(definition_views(defs@)) =~= order@);
    }
    defs
}

/// What is to be told of the number of ids: that ids were made, where
/// there are more provinces than the map was loaded with, or that ids
/// were dropped, where there are fewer.
pub open spec fn range_change(loaded: u32, count: u32) -> Option<IdChange> {
    if loaded < count {
        Some(IdChange::CreatedRange((loaded + 1) as u32, count))
    } else if loaded > count {
        Some(IdChange::DeletedRange((count + 1) as u32, loaded))
    } else {
        None
    }
}

/// What is to be told of the ids when a map is saved.
pub open spec fn all_changes(v: MapView, order: Seq<u32>, loaded: u32) -> Seq<IdChange> {
    match range_change(loaded, order.len() as u32) {
        Some(c) => slot_changes(v, order, order.len() as int).push(c),
        None => slot_changes(v, order, order.len() as int),
    }
}

/// Whether rows are those of a map whose ids are kept, which was loaded
/// with `count` ids: a province has the id that it was loaded with where
/// that is the number of a row and no other province took it; the others
/// have the numbers that are left, in their order; the adjacency rows are
/// those of the connections and those kept as they were; and what became
/// of the ids is told, if anything did. Or, where a province cannot be
/// written as a row, the reason of one that cannot.
pub open spec fn numbered_as_kept(
    v: MapView,
    count: u32,
    kept: Seq<AdjacencyView>,
    r: Result<MapData, &'static str>,
) -> bool {
    match r {
        Ok(data) => {
            let defs = definition_views(data.definitions@);
            &&& !some_fault(v)
            &&& rows_of_provinces(v, defs)
            &&& forall|i: int, k: u32|
                0 <= i < defs.len() && v.provinces.contains_key(k) && #[trigger] claims(v, k, i)
                    ==> claims(v, key_of(defs[i].rgb), i)
            &&& forall|i: int, j: int|
                0 <= i < j < defs.len() && !claims(v, key_of((#[trigger] defs[i]).rgb), i)
                    && !claims(v, key_of((#[trigger] defs[j]).rgb), j) ==> defs[i].le(defs[j])
            &&& rows_of_links(v, adjacency_views(data.adjacencies@), defs, kept)
            &&& match data.id_changes {
                Some(changes) => changes@.len() > 0 && changes@ == all_changes(v, def_keys(defs), count),
                None => all_changes(v, def_keys(defs), count).len() == 0,
            }
        },
        Err(e) => exists|k: u32| #[trigger]
            v.provinces.contains_key(k) && saving_fault(v.provinces[k]) == Some(e@),
    }
}

/// The rows of a map whose ids are kept. A province keeps the id that it
/// was loaded with where that is the number of a row and no other
/// province took it; the other provinces take the numbers that are left,
/// the lowest first, in their order by kind, continent and terrain. The
/// adjacency rows are those of the connections and those kept as they
/// were, in their order. What became of the ids is told, if anything did.
/// There are no rows where a province cannot be written as one; the
/// error says why one cannot.
pub fn deconstruct_map_data_preserve_ids(bundle: &Bundle) -> (r: Result<MapData, &'static str>)
    requires
        bundle.map.wf(),
        bundle.map.id_count() is Some,
        bundle.map@.provinces.len() < u32::MAX,
    ensures
        numbered_as_kept(
            bundle.map@,
            bundle.map.id_count().unwrap(),
            adjacency_views(bundle.preserved_unsupported_adjacencies@),
            r,
        ),
{
    let ghost v = bundle.map@;
    let loaded = match bundle.map.preserved_id_count() {
        Some(n) => n,
        None => 0,
    };
    let held = match claim_slots(&bundle.map) {
        Ok(held) => held,
        Err(e) => { return Err(e); },
    };
    let ghost first = held.slots@;
    let rows = outlier_rows(&bundle.map, &held.outliers);
    let (order, mut changes) = fill_slots(held, &rows, Ghost(v));
    let definitions = definition_rows(&bundle.map, &order);
    let ghost defs = definition_views(definitions@);
    let count = order.len() as u32;
    if loaded < count {
        changes.push(IdChange::CreatedRange(loaded + 1, count));
    } else if loaded > count {
        changes.push(IdChange::DeletedRange(count + 1, loaded));
    }
    proof {
        order@.lemma_cardinality_of_set();
        assert(order@.to_set() =~= v.provinces.dom()) by {
            assert forall|k: u32| order@.to_set().contains(k) == v.provinces.dom().contains(k) by {
                if order@.contains(k) {
                    let i = choose|i: int| 0 <= i < order@.len() && order@[i] == k;
                    assert(v.provinces.contains_key(order@[i]));
                }
            }
        }
        order@.lemma_no_dup_set_cardinality();
        assert forall|i: int| 0 <= i < defs.len() implies v.provinces.contains_key(
            key_of((#[trigger] defs[i]).rgb),
        ) && defs[i] == v.provinces[key_of(defs[i].rgb)].row(defs[i].rgb, (i + 1) as u32) by {
            assert(is_row(v, definitions@[i]@));
        }
        assert(!some_fault(v));
        assert forall|i: int, k: u32|
            0 <= i < defs.len() && v.provinces.contains_key(k) && #[trigger] claims(
                v,
                k,
                i,
            ) implies claims(v, key_of(defs[i].rgb), i) by {
            assert(first[i] is Some);
            assert(def_keys(defs)[i] == order@[i]);
        }
        assert forall|i: int, j: int|
            0 <= i < j < defs.len() && !claims(v, key_of((#[trigger] defs[i]).rgb), i) && !claims(
                v,
                key_of((#[trigger] defs[j]).rgb),
                j,
            ) implies defs[i].le(defs[j]) by {
            assert(def_keys(defs)[i] == order@[i]);
            assert(def_keys(defs)[j] == order@[j]);
            assert(is_row(v, definitions@[i]@));
            assert(is_row(v, definitions@[j]@));
            if first[i] is Some {
                assert(claims(v, first[i].unwrap(), i));
            }
            if first[j] is Some {
                assert(claims(v, first[j].unwrap(), j));
            }
            assert(comes_before(v, order@[i], order@[j]));
        }
    }
    let index = index_rows(&definitions);
    proof {
        assert forall|k: u32| #[trigger] v.provinces.contains_key(k) implies has_color(
            defs,
            k,
        ) by {
            assert(order@.contains(k));
        }
    }
    let adjacencies = adjacency_rows(
        &bundle.map,
        &index,
        &bundle.preserved_unsupported_adjacencies,
        Ghost(defs),
    );
    let id_changes = if changes.len() == 0 { None } else { Some(changes) };
    Ok(MapData { definitions, adjacencies, id_changes })
}

/// The rows of a map: those of `deconstruct_map_data_preserve_ids` where
/// the settings keep ids, those of `deconstruct_map_data_no_preserve_ids`
/// where not.
pub fn deconstruct_map_data(bundle: &Bundle) -> (r: Result<MapData, &'static str>)
    requires
        bundle.map.wf(),
        bundle.config.preserve_ids ==> bundle.map.id_count() is Some,
        bundle.map@.provinces.len() < u32::MAX,
    ensures
        r is Err <==> some_fault(bundle.map@),
        if bundle.config.preserve_ids {
            numbered_as_kept(
                bundle.map@,
                bundle.map.id_count().unwrap(),
                adjacency_views(bundle.preserved_unsupported_adjacencies@),
                r,
            )
        } else {
            numbered_anew(bundle.map@, r)
        },
{
    if bundle.config.preserve_ids {
        let r = deconstruct_map_data_preserve_ids(bundle);
        proof {
            if r is Err {
                let k = choose|k: u32| #[trigger]
                    bundle.map@.provinces.contains_key(k) && saving_fault(bundle.map@.provinces[k])
                        == Some(r->Err_0@);
                assert(bundle.map@.provinces[k].row_fault() is Some);
            }
        }
        r
    } else {
        deconstruct_map_data_no_preserve_ids(bundle)
    }
}

/// Whether a colour of a river map marks a source, a place where rivers
/// flow together or apart, or a river of some width.
pub open spec fn river_mark(c: Color) -> bool {
    ||| c == [0u8, 255u8, 0u8]
    ||| c == [255u8, 0u8, 0u8]
    ||| c == [255u8, 252u8, 0u8]
    ||| c == [0u8, 225u8, 255u8]
    ||| c == [0u8, 200u8, 255u8]
    ||| c == [0u8, 150u8, 255u8]
    ||| c == [0u8, 100u8, 255u8]
    ||| c == [0u8, 0u8, 255u8]
    ||| c == [0u8, 0u8, 225u8]
    ||| c == [0u8, 0u8, 200u8]
    ||| c == [0u8, 0u8, 150u8]
    ||| c == [0u8, 0u8, 100u8]
}

/// A pixel of the river overlay: the colour of the river map where it
/// marks a river, opaque; elsewhere nothing, transparent.
pub open spec fn river_shade(c: Color) -> [u8; 4] {
    if river_mark(c) {
        [c[0], c[1], c[2], 255u8]
    } else {
        [0u8, 0u8, 0u8, 0u8]
    }
}

pub fn is_river_mark(c: Color) -> (r: bool)
    ensures
        r == river_mark(c),
{
    same_color(c, [0, 255, 0]) || same_color(c, [255, 0, 0]) || same_color(c, [255, 252, 0])
        || same_color(c, [0, 225, 255]) || same_color(c, [0, 200, 255]) || same_color(
        c,
        [0, 150, 255],
    ) || same_color(c, [0, 100, 255]) || same_color(c, [0, 0, 255]) || same_color(c, [0, 0, 225])
        || same_color(c, [0, 0, 200]) || same_color(c, [0, 0, 150]) || same_color(c, [0, 0, 100])
}

/// The overlay of a river map: land and water are cleared away, and only
/// the rivers and their marks stay.
pub fn process_and_clear_rivers_image(pixels: &Vec<Color>) -> (r: Vec<[u8; 4]>)
    ensures
        r@.len() == pixels@.len(),
        forall|i: int| 0 <= i < pixels@.len() ==> #[trigger] r@[i] == river_shade(pixels@[i]),
{
    let mut overlay: Vec<[u8; 4]> = Vec::with_capacity(pixels.len());
    let mut i: usize = 0;
    while i < pixels.len()
        invariant
            i <= pixels@.len(),
            overlay@.len() == i,
            forall|j: int| 0 <= j < i ==> #[trigger] overlay@[j] == river_shade(pixels@[j]),
        decreases pixels@.len() - i,
    {
        let c = pixels[i];
        let shade: [u8; 4] = if is_river_mark(c) {
            [c[0], c[1], c[2], 255]
        } else {
            [0, 0, 0, 0]
        };
        assert(shade =~= river_shade(c));
        overlay.push(shade);
        i = i + 1;
    }
    overlay
}

} // verus!
