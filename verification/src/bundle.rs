//! A map with the settings that it is edited under.
use vstd::prelude::*;
use crate::color::{BLACK_KEY, Color, color_key, color_of, key_of};
use crate::extents::Extents;
use crate::province_map::{opaque_at, rgb3_at, rgb_at};
use crate::text::str_equal;
use crate::problems::{Problem, analyse_map, analysed, findings};
use crate::config::Config;
use crate::extents::Pos;
use crate::kinds::{BrushMask, ProvinceKind, mask_lets};
use crate::model::MapView;
use crate::province_map::ProvinceMap;
use crate::tally::place;

verus! {

/// A map and the settings.
pub struct Bundle {
    pub map: ProvinceMap,
    pub config: Config,
    /// The adjacency rows of kinds that the map does not hold, kept to be
    /// saved as they were loaded.
    pub preserved_unsupported_adjacencies: Vec<crate::rows::Adjacency>,
}

/// What can say whether it holds a colour.
pub trait ColorKeyable {
    /// Whether the colour of a key is held.
    spec fn holds(&self, key: u32) -> bool;

    fn contains_color(&self, color: Color) -> (r: bool)
        ensures
            r == self.holds(key_of(color)),
    ;
}

impl ColorKeyable for ProvinceMap {
    open spec fn holds(&self, key: u32) -> bool {
        self@.provinces.contains_key(key)
    }

    fn contains_color(&self, color: Color) -> (r: bool) {
        self.has_province(color)
    }
}

impl ColorKeyable for std::collections::HashSet<u32> {
    open spec fn holds(&self, key: u32) -> bool {
        self@.contains(key)
    }

    fn contains_color(&self, color: Color) -> (r: bool) {
        broadcast use vstd::std_specs::hash::group_hash_axioms;

        self.contains(&color_key(color))
    }
}

/// Whether a list of names holds a text.
pub open spec fn named(list: Seq<String>, t: Seq<char>) -> bool {
    exists|i: int| 0 <= i < list.len() && (#[trigger] list[i])@ == t
}

/// Whether a colour can be given to a new province: no province has it,
/// and it is not black.
pub open spec fn free_color(v: MapView, key: u32) -> bool {
    !v.provinces.contains_key(key) && key != BLACK_KEY
}

/// The place of the first colour of a list that can be given to a new
/// province, or the length of the list.
pub open spec fn first_free(v: MapView, candidates: Seq<Color>, from: int) -> int
    decreases candidates.len() - from,
{
    if from < 0 || from >= candidates.len() {
        candidates.len() as int
    } else if free_color(v, key_of(candidates[from])) {
        from
    } else {
        first_free(v, candidates, from + 1)
    }
}

/// Whether a brush of a colour with a mask paints the pixel at a
/// position: the pixel is on the raster, of another colour, and the mask
/// lets the kind of its province through.
pub open spec fn brushable(v: MapView, p: Pos, key: u32, mask: Option<BrushMask>) -> bool {
    &&& v.has(p[0] as int, p[1] as int)
    &&& v.at(p[0] as int, p[1] as int) != key
    &&& mask_lets(mask, v.provinces[v.at(p[0] as int, p[1] as int)].kind)
}

/// Those of the positions that a brush paints, in their order.
pub open spec fn brushed(v: MapView, ps: Seq<Pos>, key: u32, mask: Option<BrushMask>) -> Seq<Pos>
    decreases ps.len(),
{
    if ps.len() == 0 {
        Seq::empty()
    } else if brushable(v, ps.last(), key, mask) {
        brushed(v, ps.drop_last(), key, mask).push(ps.last())
    } else {
        brushed(v, ps.drop_last(), key, mask)
    }
}

/// The positions that a brush paints lie on the raster.
pub proof fn lemma_brushed_on_raster(v: MapView, ps: Seq<Pos>, key: u32, mask: Option<BrushMask>)
    ensures
        forall|n: int|
            0 <= n < brushed(v, ps, key, mask).len() ==> v.has(
                (#[trigger] brushed(v, ps, key, mask)[n])[0] as int,
                brushed(v, ps, key, mask)[n][1] as int,
            ),
    decreases ps.len(),
{
    if ps.len() > 0 {
        lemma_brushed_on_raster(v, ps.drop_last(), key, mask);
        let rest = brushed(v, ps.drop_last(), key, mask);
        let all = brushed(v, ps, key, mask);
        assert forall|n: int| 0 <= n < all.len() implies v.has(
            (#[trigger] all[n])[0] as int,
            all[n][1] as int,
        ) by {
            if n < rest.len() {
                assert(all[n] == rest[n]);
            }
        }
    }
}

/// Whether a mask, or none, lets a kind through.
pub fn mask_includes(mask: Option<BrushMask>, kind: ProvinceKind) -> (r: bool)
    ensures
        r == mask_lets(mask, kind),
{
    match mask {
        Some(m) => m.includes(kind),
        None => true,
    }
}

/// By what a buffer is coloured: as a view mode says, the view by
/// continent with the colours of the continents by their number.
#[derive(Clone, Copy)]
pub enum Shade<'a> {
    Color,
    Kind,
    Terrain,
    Continent(&'a Vec<Color>),
    Coastal,
}

impl Bundle {
    /// Whether every province can be shown: in the view by terrain, the
    /// settings know its terrain; in the view by continent, its continent
    /// has a colour.
    pub open spec fn can_shade(&self, shade: Shade) -> bool {
        forall|k: u32| #[trigger]
            self.map@.provinces.contains_key(k) ==> match shade {
                Shade::Terrain => self.config.terrain_of(self.map@.provinces[k].terrain) is Some,
                Shade::Continent(colors) => self.map@.provinces[k].continent < colors@.len(),
                _ => true,
            }
    }

    /// The colour in which a province is shown.
    pub open spec fn shade_of(&self, shade: Shade, k: u32) -> Seq<u8> {
        let p = self.map@.provinces[k];
        match shade {
            Shade::Color => color_of(k)@,
            Shade::Kind => p.kind.display_color(),
            Shade::Terrain => self.config.terrain_of(p.terrain).unwrap().color@,
            Shade::Continent(colors) => colors@[p.continent as int]@,
            Shade::Coastal => p.kind.coastal_color(p.coastal),
        }
    }

    /// The colour in which the province of a colour is shown.
    pub fn shade_color(&self, shade: &Shade, which: Color) -> (c: Color)
        requires
            self.map@.provinces.contains_key(key_of(which)),
            self.can_shade(*shade),
        ensures
            c@ == self.shade_of(*shade, key_of(which)),
    {
        let province = self.map.get_province(which);
        match shade {
            Shade::Color => {
                proof {
                    crate::color::lemma_key_round_trip(which);
                }
                which
            },
            Shade::Kind => province.kind.color(),
            Shade::Terrain => match self.config.terrain_color(province.terrain.as_str()) {
                Some(c) => c,
                None => vstd::pervasive::unreached(),
            },
            Shade::Continent(colors) => colors[province.continent as usize],
            Shade::Coastal => province.kind.color_coastal(province.coastal),
        }
    }

    /// Whether a buffer shows the map: each pixel, row by row, in the
    /// colour in which its province is shown, with a byte 255 behind it.
    pub open spec fn shows(&self, shade: Shade, buffer: Seq<u8>) -> bool {
        &&& buffer.len() == self.map@.pixels.len() * 4
        &&& forall|i: int|
            0 <= i < self.map@.pixels.len() ==> (#[trigger] rgb_at(buffer, i))@ == self.shade_of(
                shade,
                self.map@.pixels[i],
            ) && opaque_at(buffer, i)
    }

    /// Whether a buffer shows the part of the map in a box.
    pub open spec fn shows_part(&self, shade: Shade, extents: Extents, buffer: Seq<u8>) -> bool {
        let bw = extents.upper[0] - extents.lower[0] + 1;
        &&& buffer.len() == bw * (extents.upper[1] - extents.lower[1] + 1) * 4
        &&& forall|x: int, y: int|
            extents.lower[0] <= x <= extents.upper[0] && extents.lower[1] <= y <= extents.upper[1]
                ==> (#[trigger] rgb_at(
                buffer,
                place(x - extents.lower[0], y - extents.lower[1], bw),
            ))@ == self.shade_of(shade, self.map@.at(x, y)) && opaque_at(
                buffer,
                place(x - extents.lower[0], y - extents.lower[1], bw),
            )
    }

    /// The buffer from which the map is drawn.
    pub fn texture_buffer(&self, shade: Shade) -> (buffer: Vec<u8>)
        requires
            self.map.wf(),
            self.can_shade(shade),
            self.map@.pixels.len() * 4 <= usize::MAX,
        ensures
            self.shows(shade, buffer@),
    {
        let f = |which: Color| -> (c: Color)
            requires
                self.map@.provinces.contains_key(key_of(which)),
                self.can_shade(shade),
            ensures
                c@ == self.shade_of(shade, key_of(which)),
            { self.shade_color(&shade, which) };
        proof {
            assert forall|k: u32| #[trigger] self.map@.provinces.contains_key(k) implies call_requires(
                f,
                (color_of(k),),
            ) by {
                crate::model::lemma_province_key(self.map@, k);
                crate::color::lemma_color_round_trip(k);
            }
        }
        let buffer = self.map.gen_texture_buffer(f);
        proof {
            assert forall|i: int| 0 <= i < self.map@.pixels.len() implies (#[trigger] rgb_at(
                buffer@,
                i,
            ))@ == self.shade_of(shade, self.map@.pixels[i]) && opaque_at(buffer@, i) by {
                let k = self.map@.pixels[i];
                crate::color::lemma_color_round_trip(k);
                assert(call_ensures(f, (color_of(self.map@.pixels[i]),), rgb_at(buffer@, i)));
            }
        }
        buffer
    }

    /// The buffer from which the part of the map in a box is drawn.
    pub fn texture_buffer_selective(&self, shade: Shade, extents: Extents) -> (buffer: Vec<u8>)
        requires
            self.map.wf(),
            self.can_shade(shade),
            extents.wf(),
            self.map@.has(extents.upper[0] as int, extents.upper[1] as int),
            self.map@.pixels.len() * 4 <= usize::MAX,
        ensures
            self.shows_part(shade, extents, buffer@),
    {
        let f = |which: Color| -> (c: Color)
            requires
                self.map@.provinces.contains_key(key_of(which)),
                self.can_shade(shade),
            ensures
                c@ == self.shade_of(shade, key_of(which)),
            { self.shade_color(&shade, which) };
        proof {
            assert forall|k: u32| #[trigger] self.map@.provinces.contains_key(k) implies call_requires(
                f,
                (color_of(k),),
            ) by {
                crate::model::lemma_province_key(self.map@, k);
                crate::color::lemma_color_round_trip(k);
            }
        }
        let buffer = self.map.gen_texture_buffer_selective(extents, f);
        proof {
            let bw = extents.upper[0] - extents.lower[0] + 1;
            assert forall|x: int, y: int|
                extents.lower[0] <= x <= extents.upper[0] && extents.lower[1] <= y
                    <= extents.upper[1] implies (#[trigger] rgb_at(
                buffer@,
                place(x - extents.lower[0], y - extents.lower[1], bw),
            ))@ == self.shade_of(shade, self.map@.at(x, y)) && opaque_at(
                buffer@,
                place(x - extents.lower[0], y - extents.lower[1], bw),
            ) by {
                let k = self.map@.at(x, y);
                crate::tally::lemma_place(
                    x,
                    y,
                    self.map@.width as int,
                    self.map@.height as int,
                );
                crate::tally::lemma_count_positive(
                    self.map@.pixels,
                    k,
                    place(x, y, self.map@.width as int),
                );
                crate::model::lemma_province_key(self.map@, k);
                crate::color::lemma_color_round_trip(k);
            }
        }
        buffer
    }

    pub fn texture_buffer_color(&self) -> (buffer: Vec<u8>)
        requires
            self.map.wf(),
            self.map@.pixels.len() * 4 <= usize::MAX,
        ensures
            self.shows(Shade::Color, buffer@),
    {
        self.texture_buffer(Shade::Color)
    }

    pub fn texture_buffer_selective_color(&self, extents: Extents) -> (buffer: Vec<u8>)
        requires
            self.map.wf(),
            extents.wf(),
            self.map@.has(extents.upper[0] as int, extents.upper[1] as int),
            self.map@.pixels.len() * 4 <= usize::MAX,
        ensures
            self.shows_part(Shade::Color, extents, buffer@),
    {
        self.texture_buffer_selective(Shade::Color, extents)
    }

    pub fn texture_buffer_kind(&self) -> (buffer: Vec<u8>)
        requires
            self.map.wf(),
            self.map@.pixels.len() * 4 <= usize::MAX,
        ensures
            self.shows(Shade::Kind, buffer@),
    {
        self.texture_buffer(Shade::Kind)
    }

    pub fn texture_buffer_selective_kind(&self, extents: Extents) -> (buffer: Vec<u8>)
        requires
            self.map.wf(),
            extents.wf(),
            self.map@.has(extents.upper[0] as int, extents.upper[1] as int),
            self.map@.pixels.len() * 4 <= usize::MAX,
        ensures
            self.shows_part(Shade::Kind, extents, buffer@),
    {
        self.texture_buffer_selective(Shade::Kind, extents)
    }

    pub fn texture_buffer_terrain(&self) -> (buffer: Vec<u8>)
        requires
            self.map.wf(),
            self.can_shade(Shade::Terrain),
            self.map@.pixels.len() * 4 <= usize::MAX,
        ensures
            self.shows(Shade::Terrain, buffer@),
    {
        self.texture_buffer(Shade::Terrain)
    }

    pub fn texture_buffer_selective_terrain(&self, extents: Extents) -> (buffer: Vec<u8>)
        requires
            self.map.wf(),
            self.can_shade(Shade::Terrain),
            extents.wf(),
            self.map@.has(extents.upper[0] as int, extents.upper[1] as int),
            self.map@.pixels.len() * 4 <= usize::MAX,
        ensures
            self.shows_part(Shade::Terrain, extents, buffer@),
    {
        self.texture_buffer_selective(Shade::Terrain, extents)
    }

    /// The buffer of the view by continent; `colors` holds the colour of
    /// each continent, by its number.
    pub fn texture_buffer_continent(&self, colors: &Vec<Color>) -> (buffer: Vec<u8>)
        requires
            self.map.wf(),
            self.can_shade(Shade::Continent(colors)),
            self.map@.pixels.len() * 4 <= usize::MAX,
        ensures
            self.shows(Shade::Continent(colors), buffer@),
    {
        self.texture_buffer(Shade::Continent(colors))
    }

    pub fn texture_buffer_selective_continent(&self, extents: Extents, colors: &Vec<Color>) -> (buffer:
        Vec<u8>)
        requires
            self.map.wf(),
            self.can_shade(Shade::Continent(colors)),
            extents.wf(),
            self.map@.has(extents.upper[0] as int, extents.upper[1] as int),
            self.map@.pixels.len() * 4 <= usize::MAX,
        ensures
            self.shows_part(Shade::Continent(colors), extents, buffer@),
    {
        self.texture_buffer_selective(Shade::Continent(colors), extents)
    }

    pub fn texture_buffer_coastal(&self) -> (buffer: Vec<u8>)
        requires
            self.map.wf(),
            self.map@.pixels.len() * 4 <= usize::MAX,
        ensures
            self.shows(Shade::Coastal, buffer@),
    {
        self.texture_buffer(Shade::Coastal)
    }

    pub fn texture_buffer_selective_coastal(&self, extents: Extents) -> (buffer: Vec<u8>)
        requires
            self.map.wf(),
            extents.wf(),
            self.map@.has(extents.upper[0] as int, extents.upper[1] as int),
            self.map@.pixels.len() * 4 <= usize::MAX,
        ensures
            self.shows_part(Shade::Coastal, extents, buffer@),
    {
        self.texture_buffer_selective(Shade::Coastal, extents)
    }

    /// The picture of the map by kind that is exported: each pixel in the
    /// colour of the kind of its province, three bytes a pixel. There is
    /// none where a province is of unknown kind.
    pub fn image_buffer_mapgen_land(&self) -> (r: Option<Vec<u8>>)
        requires
            self.map.wf(),
            self.map@.pixels.len() * 3 <= usize::MAX,
        ensures
            match r {
                Some(buffer) => buffer@.len() == self.map@.pixels.len() * 3 && forall|i: int|
                    0 <= i < self.map@.pixels.len() ==> Some(
                        (#[trigger] rgb3_at(buffer@, i))@,
                    ) == self.map@.provinces[self.map@.pixels[i]].kind.export_color(),
                None => exists|k: u32| #[trigger]
                    self.map@.provinces.contains_key(k) && self.map@.provinces[k].kind
                        == ProvinceKind::Unknown,
            },
    {
        let f = |which: Color| -> (c: Option<Color>)
            requires
                self.map@.provinces.contains_key(key_of(which)),
            ensures
                c is Some == self.map@.provinces[key_of(which)].kind.export_color() is Some,
                c is Some ==> c.unwrap()@ == self.map@.provinces[key_of(
                    which,
                )].kind.export_color().unwrap(),
            { self.map.get_province(which).kind.color_mapgen() };
        proof {
            assert forall|k: u32| #[trigger] self.map@.provinces.contains_key(k) implies call_requires(
                f,
                (color_of(k),),
            ) by {
                crate::model::lemma_province_key(self.map@, k);
                crate::color::lemma_color_round_trip(k);
            }
        }
        let r = self.map.gen_image_buffer(f);
        proof {
            match &r {
                Some(buffer) => {
                    assert forall|i: int| 0 <= i < self.map@.pixels.len() implies Some(
                        (#[trigger] rgb3_at(buffer@, i))@,
                    ) == self.map@.provinces[self.map@.pixels[i]].kind.export_color() by {
                        let k = self.map@.pixels[i];
                        crate::tally::lemma_count_positive(self.map@.pixels, k, i);
                        crate::color::lemma_color_round_trip(k);
                    }
                },
                None => {
                    let i = choose|i: int|
                        0 <= i < self.map@.pixels.len() && call_ensures(
                            f,
                            (color_of(#[trigger] self.map@.pixels[i]),),
                            None,
                        );
                    let k = self.map@.pixels[i];
                    crate::tally::lemma_count_positive(self.map@.pixels, k, i);
                    crate::color::lemma_color_round_trip(k);
                    assert(self.map@.provinces.contains_key(k));
                },
            }
        }
        r
    }

    /// The picture of the map by terrain that is exported: each pixel in
    /// the colour that the settings give the terrain of its province,
    /// three bytes a pixel. There is none where the settings do not know
    /// the terrain of a province.
    pub fn image_buffer_mapgen_terrain(&self) -> (r: Option<Vec<u8>>)
        requires
            self.map.wf(),
            self.map@.pixels.len() * 3 <= usize::MAX,
        ensures
            match r {
                Some(buffer) => buffer@.len() == self.map@.pixels.len() * 3 && forall|i: int|
                    0 <= i < self.map@.pixels.len() ==> Some(#[trigger] rgb3_at(buffer@, i))
                        == self.terrain_shade(self.map@.pixels[i]),
                None => exists|k: u32| #[trigger]
                    self.map@.provinces.contains_key(k) && self.terrain_shade(k) is None,
            },
    {
        let f = |which: Color| -> (c: Option<Color>)
            requires
                self.map@.provinces.contains_key(key_of(which)),
            ensures
                c == self.terrain_shade(key_of(which)),
            { self.config.terrain_color(self.map.get_province(which).terrain.as_str()) };
        proof {
            assert forall|k: u32| #[trigger] self.map@.provinces.contains_key(k) implies call_requires(
                f,
                (color_of(k),),
            ) by {
                crate::model::lemma_province_key(self.map@, k);
                crate::color::lemma_color_round_trip(k);
            }
        }
        let r = self.map.gen_image_buffer(f);
        proof {
            match &r {
                Some(buffer) => {
                    assert forall|i: int| 0 <= i < self.map@.pixels.len() implies Some(
                        #[trigger] rgb3_at(buffer@, i),
                    ) == self.terrain_shade(self.map@.pixels[i]) by {
                        let k = self.map@.pixels[i];
                        crate::tally::lemma_count_positive(self.map@.pixels, k, i);
                        crate::color::lemma_color_round_trip(k);
                    }
                },
                None => {
                    let i = choose|i: int|
                        0 <= i < self.map@.pixels.len() && call_ensures(
                            f,
                            (color_of(#[trigger] self.map@.pixels[i]),),
                            None,
                        );
                    let k = self.map@.pixels[i];
                    crate::tally::lemma_count_positive(self.map@.pixels, k, i);
                    crate::color::lemma_color_round_trip(k);
                    assert(self.map@.provinces.contains_key(k));
                },
            }
        }
        r
    }

    /// The colour that the settings give the terrain of a province, if
    /// they know it.
    pub open spec fn terrain_shade(&self, k: u32) -> Option<Color> {
        match self.config.terrain_of(self.map@.provinces[k].terrain) {
            Some(t) => Some(t.color),
            None => None,
        }
    }

    /// The terrains of provinces that the settings do not know, each
    /// once, if there are any.
    pub fn search_unknown_terrains(&self) -> (r: Option<Vec<String>>)
        requires
            self.map.wf(),
        ensures
            match r {
                Some(list) => {
                    &&& list@.len() > 0
                    &&& forall|i: int|
                        0 <= i < list@.len() ==> self.config.terrain_of((#[trigger] list@[i])@)
                            is None && self.is_terrain(list@[i]@)
                    &&& forall|i: int, j: int|
                        0 <= i < j < list@.len() ==> (#[trigger] list@[i])@ != (
                        #[trigger] list@[j])@
                    &&& forall|k: u32| #[trigger]
                        self.map@.provinces.contains_key(k) && self.terrain_shade(k) is None
                            ==> named(list@, self.map@.provinces[k].terrain)
                },
                None => forall|k: u32| #[trigger]
                    self.map@.provinces.contains_key(k) ==> self.terrain_shade(k) is Some,
            },
    {
        let keys = self.map.base().province_keys();
        let mut list: Vec<String> = Vec::new();
        let mut n: usize = 0;
        while n < keys.len()
            invariant
                n <= keys@.len(),
                self.map.wf(),
                keys@.to_set() == self.map@.provinces.dom(),
                forall|i: int|
                    0 <= i < list@.len() ==> self.config.terrain_of((#[trigger] list@[i])@)
                        is None && self.is_terrain(list@[i]@),
                forall|i: int, j: int|
                    0 <= i < j < list@.len() ==> (#[trigger] list@[i])@ != (#[trigger] list@[j])@,
                forall|m: int|
                    0 <= m < n && self.terrain_shade(#[trigger] keys@[m]) is None ==> named(
                        list@,
                        self.map@.provinces[keys@[m]].terrain,
                    ),
            decreases keys@.len() - n,
        {
            let k = keys[n];
            proof {
                assert(keys@.to_set().contains(keys@[n as int]));
            }
            let terrain = &self.map.base().province(k).terrain;
            let ghost before = list@;
            if !self.config.has_terrain(terrain.as_str()) {
                let mut seen = false;
                let mut i: usize = 0;
                while i < list.len() && !seen
                    invariant
                        i <= list@.len(),
                        !seen ==> forall|j: int| 0 <= j < i ==> (#[trigger] list@[j])@ != terrain@,
                        seen ==> named(list@, terrain@),
                    decreases list@.len() - i, if seen { 0int } else { 1int },
                {
                    if str_equal(list[i].as_str(), terrain.as_str()) {
                        seen = true;
                    } else {
                        i += 1;
                    }
                }
                if !seen {
                    list.push(terrain.clone());
                    proof {
                        assert(list@[before.len() as int]@ == terrain@);
                        assert(self.is_terrain(terrain@));
                    }
                }
            }
            proof {
                assert forall|m: int|
                    0 <= m < n + 1 && self.terrain_shade(#[trigger] keys@[m]) is None implies named(
                    list@,
                    self.map@.provinces[keys@[m]].terrain,
                ) by {
                    let t = self.map@.provinces[keys@[m]].terrain;
                    if m < n {
                        assert(named(before, t));
                        let i = choose|i: int| 0 <= i < before.len() && (#[trigger] before[i])@ == t;
                        assert(list@[i] == before[i]);
                    }
                }
            }
            n += 1;
        }
        if list.len() > 0 {
            proof {
                assert forall|k: u32| #[trigger]
                    self.map@.provinces.contains_key(k) && self.terrain_shade(k) is None implies named(
                    list@,
                    self.map@.provinces[k].terrain,
                ) by {
                    assert(keys@.to_set().contains(k));
                    let m = choose|m: int| 0 <= m < keys@.len() && keys@[m] == k;
                    assert(self.terrain_shade(keys@[m]) is None);
                }
            }
            Some(list)
        } else {
            proof {
                assert forall|k: u32| #[trigger] self.map@.provinces.contains_key(k) implies self.terrain_shade(
                    k,
                ) is Some by {
                    assert(keys@.to_set().contains(k));
                    let m = choose|m: int| 0 <= m < keys@.len() && keys@[m] == k;
                    if self.terrain_shade(keys@[m]) is None {
                        assert(named(list@, self.map@.provinces[keys@[m]].terrain));
                    }
                }
            }
            None
        }
    }

    /// Whether a text is the terrain of some province.
    pub open spec fn is_terrain(&self, t: Seq<char>) -> bool {
        exists|k: u32| #[trigger]
            self.map@.provinces.contains_key(k) && self.map@.provinces[k].terrain == t
    }

    /// Looks over the whole map and lists what a user should look at.
    pub fn generate_problems(&self) -> (out: Vec<Problem>)
        requires
            self.map.wf(),
        ensures
            analysed(self.map@, self.config.extra_warnings, findings(out@, self.map@.width as int)),
    {
        analyse_map(&self.map, &self.config)
    }

    pub open spec fn wf(&self) -> bool {
        self.map.wf() && self.config.wf()
    }

    /// Whether a colour can be given to a new province: no province has
    /// it, and it is not black.
    pub fn accepts_color(&self, color: Color) -> (r: bool)
        ensures
            r == free_color(self.map@, key_of(color)),
    {
        !self.map.has_province(color) && color_key(color) != BLACK_KEY
    }

    /// The first of the colours drawn for a province that can be given to
    /// it, if there is one.
    pub fn random_color_pure(&self, candidates: &Vec<Color>) -> (r: Option<Color>)
        ensures
            match r {
                Some(c) => first_free(self.map@, candidates@, 0) < candidates@.len() && c
                    == candidates@[first_free(self.map@, candidates@, 0)],
                None => first_free(self.map@, candidates@, 0) == candidates@.len(),
            },
    {
        let mut i: usize = 0;
        while i < candidates.len()
            invariant
                i <= candidates@.len(),
                first_free(self.map@, candidates@, 0) == first_free(
                    self.map@,
                    candidates@,
                    i as int,
                ),
            decreases candidates@.len() - i,
        {
            if self.accepts_color(candidates[i]) {
                return Some(candidates[i]);
            }
            i += 1;
        }
        None
    }

    /// Those of the positions that a brush of a colour with a mask
    /// paints: the pixels on the raster of another colour whose province
    /// the mask lets through.
    pub fn brush_pixels(&self, candidates: &Vec<Pos>, color: Color, mask: Option<BrushMask>) -> (r:
        Vec<Pos>)
        requires
            self.map.wf(),
        ensures
            r@ == brushed(self.map@, candidates@, key_of(color), mask),
    {
        let ghost v = self.map@;
        let key = color_key(color);
        let width = self.map.width();
        let height = self.map.height();
        let mut out: Vec<Pos> = Vec::new();
        let mut i: usize = 0;
        while i < candidates.len()
            invariant
                i <= candidates@.len(),
                v == self.map@,
                self.map.wf(),
                key == key_of(color),
                width == v.width,
                height == v.height,
                out@ == brushed(v, candidates@.take(i as int), key, mask),
            decreases candidates@.len() - i,
        {
            let p = candidates[i];
            proof {
                assert(candidates@.take(i as int + 1).drop_last() =~= candidates@.take(i as int));
                assert(candidates@.take(i as int + 1).last() == p);
            }
            if p[0] < width && p[1] < height {
                let previous = self.map.get_color_at(p);
                let kind = self.map.get_province(previous).kind;
                if mask_includes(mask, kind) && color_key(previous) != key {
                    out.push(p);
                }
            }
            i += 1;
        }
        proof {
            assert(candidates@.take(candidates@.len() as int) =~= candidates@);
        }
        out
    }
}

} // verus!
