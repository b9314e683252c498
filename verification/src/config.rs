//! The settings that the map is edited under.
use vstd::prelude::*;
use crate::color::Color;
use crate::kinds::ProvinceKind;
use crate::text::str_equal;

verus! {

/// How a terrain is shown, and of what kind its provinces are.
#[derive(Debug, Copy, Clone)]
pub struct Terrain {
    pub color: Color,
    pub kind: ProvinceKind,
}

/// A terrain under its name.
#[derive(Debug, Clone)]
pub struct TerrainEntry {
    pub name: String,
    pub terrain: Terrain,
}

/// Which advisory findings the analysis reports.
#[derive(Debug, Copy, Clone)]
pub struct ExtraWarnings {
    pub enabled: bool,
    pub lone_pixels: bool,
    pub few_shared_borders: bool,
    pub few_shared_borders_threshold: usize,
}

impl Default for ExtraWarnings {
    fn default() -> (r: ExtraWarnings)
        ensures
            r.enabled,
            r.lone_pixels,
            r.few_shared_borders,
            r.few_shared_borders_threshold == 3,
    {
        ExtraWarnings {
            enabled: true,
            lone_pixels: true,
            few_shared_borders: true,
            few_shared_borders_threshold: 3,
        }
    }
}

/// The settings. The terrains are held in the order in which they were
/// named, each name once.
#[derive(Debug, Clone)]
pub struct Config {
    pub max_undo_states: usize,
    pub preserve_ids: bool,
    pub change_view_mode_on_undo: bool,
    pub generate_coastal_on_save: bool,
    pub terrains: Vec<TerrainEntry>,
    pub extra_warnings: ExtraWarnings,
}

/// The place of the first terrain of the given name at or after `from`,
/// or the length of the table.
pub open spec fn terrain_index(terrains: Seq<TerrainEntry>, name: Seq<char>, from: int) -> int
    decreases terrains.len() - from,
{
    if from < 0 || from >= terrains.len() {
        terrains.len() as int
    } else if terrains[from].name@ == name {
        from
    } else {
        terrain_index(terrains, name, from + 1)
    }
}

/// `terrain_index` finds the first entry of the name, or none.
pub proof fn lemma_terrain_index(terrains: Seq<TerrainEntry>, name: Seq<char>, from: int)
    requires
        0 <= from <= terrains.len(),
    ensures
        from <= terrain_index(terrains, name, from) <= terrains.len(),
        terrain_index(terrains, name, from) < terrains.len() ==> terrains[terrain_index(
            terrains,
            name,
            from,
        )].name@ == name,
        forall|i: int|
            from <= i < terrain_index(terrains, name, from) ==> (#[trigger] terrains[i]).name@
                != name,
    decreases terrains.len() - from,
{
    if from < terrains.len() && terrains[from].name@ != name {
        lemma_terrain_index(terrains, name, from + 1);
    }
}

/// The terrain of a name in a table, if the table holds the name.
pub open spec fn lookup(terrains: Seq<TerrainEntry>, name: Seq<char>) -> Option<Terrain> {
    let i = terrain_index(terrains, name, 0);
    if i < terrains.len() {
        Some(terrains[i].terrain)
    } else {
        None
    }
}

/// Whether no name occurs twice in a table of terrains.
pub open spec fn unique_names(terrains: Seq<TerrainEntry>) -> bool {
    forall|i: int, j: int|
        0 <= i < j < terrains.len() ==> (#[trigger] terrains[i]).name@ != (
        #[trigger] terrains[j]).name@
}

/// The place of a name in a table, or the length of the table.
pub fn find_terrain(terrains: &Vec<TerrainEntry>, name: &str) -> (i: usize)
    ensures
        i == terrain_index(terrains@, name@, 0),
        i <= terrains@.len(),
{
    let mut i: usize = 0;
    while i < terrains.len()
        invariant
            i <= terrains@.len(),
            terrain_index(terrains@, name@, 0) == terrain_index(terrains@, name@, i as int),
        decreases terrains@.len() - i,
    {
        if str_equal(terrains[i].name.as_str(), name) {
            return i;
        }
        i += 1;
    }
    i
}

/// A name that is held at a place of a table without double names is
/// found there.
pub proof fn lemma_lookup_at(terrains: Seq<TerrainEntry>, i: int)
    requires
        unique_names(terrains),
        0 <= i < terrains.len(),
    ensures
        terrain_index(terrains, terrains[i].name@, 0) == i,
        lookup(terrains, terrains[i].name@) == Some(terrains[i].terrain),
{
    lemma_terrain_index(terrains, terrains[i].name@, 0);
    let j = terrain_index(terrains, terrains[i].name@, 0);
    if j < i {
        assert(terrains[j].name@ != terrains[i].name@);
    }
}

/// A name that no place of a table holds is not found.
pub proof fn lemma_lookup_none(terrains: Seq<TerrainEntry>, name: Seq<char>)
    requires
        forall|i: int| 0 <= i < terrains.len() ==> (#[trigger] terrains[i]).name@ != name,
    ensures
        lookup(terrains, name) is None,
{
    lemma_terrain_index(terrains, name, 0);
}

/// The terrains that every table of terrains has: the colour and the
/// kind of each, under its name.
pub fn default_terrains() -> (terrains: Vec<TerrainEntry>)
    ensures
        unique_names(terrains@),
        terrains@.len() == 11,
        forall|name: Seq<char>| #[trigger] lookup(terrains@, name) == default_of(name),
{
    let terrains = vec![
        named([0x00, 0x00, 0x00], "unknown", ProvinceKind::Unknown),
        named([0xff, 0x81, 0x42], "plains", ProvinceKind::Land),
        named([0xff, 0x3f, 0x00], "desert", ProvinceKind::Land),
        named([0x59, 0xc7, 0x55], "forest", ProvinceKind::Land),
        named([0xf8, 0xff, 0x99], "hills", ProvinceKind::Land),
        named([0x7f, 0xbf, 0x00], "jungle", ProvinceKind::Land),
        named([0x4c, 0x60, 0x23], "marsh", ProvinceKind::Land),
        named([0x7c, 0x87, 0x7d], "mountain", ProvinceKind::Land),
        named([0x00, 0xff, 0xff], "lakes", ProvinceKind::Lake),
        named([0x00, 0x00, 0xff], "ocean", ProvinceKind::Sea),
        named([0x9b, 0x00, 0xff], "urban", ProvinceKind::Land),
    ];
    proof {
        reveal_strlit("unknown");
        reveal_strlit("plains");
        reveal_strlit("desert");
        reveal_strlit("forest");
        reveal_strlit("hills");
        reveal_strlit("jungle");
        reveal_strlit("marsh");
        reveal_strlit("mountain");
        reveal_strlit("lakes");
        reveal_strlit("ocean");
        reveal_strlit("urban");
        assert forall|i: int, j: int| 0 <= i < j < terrains@.len() implies (
        #[trigger] terrains@[i]).name@ != (#[trigger] terrains@[j]).name@ by {
            let a = terrains@[i].name@;
            let b = terrains@[j].name@;
            if a.len() == b.len() {
                assert(a[0] != b[0] || a[1] != b[1] || a[2] != b[2]);
            }
        }
        assert forall|name: Seq<char>| #[trigger] lookup(terrains@, name) == default_of(name) by {
            if default_of(name) is Some {
                let i = choose|i: int| 0 <= i < terrains@.len() && terrains@[i].name@ == name;
                lemma_lookup_at(terrains@, i);
                assert(terrains@[i].terrain.color =~= default_of(name).unwrap().color);
            } else {
                lemma_lookup_none(terrains@, name);
            }
        }
    }
    terrains
}

/// The terrain that every table of terrains has under a name, if it has
/// one under it.
pub open spec fn default_of(name: Seq<char>) -> Option<Terrain> {
    if name == "unknown"@ {
        Some(Terrain { color: [0x00, 0x00, 0x00], kind: ProvinceKind::Unknown })
    } else if name == "plains"@ {
        Some(Terrain { color: [0xff, 0x81, 0x42], kind: ProvinceKind::Land })
    } else if name == "desert"@ {
        Some(Terrain { color: [0xff, 0x3f, 0x00], kind: ProvinceKind::Land })
    } else if name == "forest"@ {
        Some(Terrain { color: [0x59, 0xc7, 0x55], kind: ProvinceKind::Land })
    } else if name == "hills"@ {
        Some(Terrain { color: [0xf8, 0xff, 0x99], kind: ProvinceKind::Land })
    } else if name == "jungle"@ {
        Some(Terrain { color: [0x7f, 0xbf, 0x00], kind: ProvinceKind::Land })
    } else if name == "marsh"@ {
        Some(Terrain { color: [0x4c, 0x60, 0x23], kind: ProvinceKind::Land })
    } else if name == "mountain"@ {
        Some(Terrain { color: [0x7c, 0x87, 0x7d], kind: ProvinceKind::Land })
    } else if name == "lakes"@ {
        Some(Terrain { color: [0x00, 0xff, 0xff], kind: ProvinceKind::Lake })
    } else if name == "ocean"@ {
        Some(Terrain { color: [0x00, 0x00, 0xff], kind: ProvinceKind::Sea })
    } else if name == "urban"@ {
        Some(Terrain { color: [0x9b, 0x00, 0xff], kind: ProvinceKind::Land })
    } else {
        None
    }
}

/// A terrain under its name.
pub fn named(color: Color, name: &str, kind: ProvinceKind) -> (e: TerrainEntry)
    ensures
        e.name@ == name@,
        e.terrain == (Terrain { color, kind }),
{
    TerrainEntry { name: name.to_owned(), terrain: Terrain { color, kind } }
}

/// Takes the terrain `unknown` out of a table, which the user cannot set,
/// and puts in each terrain that every table has and that the table does
/// not hold. What the user has set of the other terrains stays.
pub fn add_default_terrains(terrains: &mut Vec<TerrainEntry>)
    requires
        unique_names(old(terrains)@),
    ensures
        unique_names(final(terrains)@),
        forall|name: Seq<char>|
            #![trigger lookup(final(terrains)@, name)]
            lookup(final(terrains)@, name) == if name != "unknown"@ && lookup(
                old(terrains)@,
                name,
            ) is Some {
                lookup(old(terrains)@, name)
            } else {
                default_of(name)
            },
{
    let defaults = default_terrains();
    let ghost before = terrains@;
    let at = find_terrain(terrains, "unknown");
    proof {
        lemma_terrain_index(before, "unknown"@, 0);
    }
    if at < terrains.len() {
        terrains.remove(at);
    }
    let ghost cleared = terrains@;
    proof {
        assert forall|i: int| 0 <= i < cleared.len() implies (#[trigger] cleared[i]).name@
            != "unknown"@ && exists|j: int|
            0 <= j < before.len() && before[j] == cleared[i] by {
            if at < before.len() {
                let j = if i < at { i } else { i + 1 };
                assert(cleared[i] == before[j]);
                if j > at {
                    assert(before[at as int].name@ != before[j].name@);
                }
            } else {
                assert(cleared[i] == before[i]);
            }
        }
        assert(unique_names(cleared)) by {
            assert forall|i: int, j: int| 0 <= i < j < cleared.len() implies (
            #[trigger] cleared[i]).name@ != (#[trigger] cleared[j]).name@ by {
                if at < before.len() {
                    let a = if i < at { i } else { i + 1 };
                    let b = if j < at { j } else { j + 1 };
                    assert(cleared[i] == before[a] && cleared[j] == before[b]);
                }
            }
        }
        assert forall|name: Seq<char>| name != "unknown"@ implies lookup(cleared, name)
            == lookup(before, name) by {
            lemma_terrain_index(before, name, 0);
            lemma_terrain_index(cleared, name, 0);
            let a = terrain_index(before, name, 0);
            let c = terrain_index(cleared, name, 0);
            if a < before.len() {
                let i = if at < before.len() && a > at { a - 1 } else { a };
                assert(cleared[i] == before[a]);
                lemma_lookup_at(cleared, i);
            } else {
                if c < cleared.len() {
                    let j = choose|j: int| 0 <= j < before.len() && before[j] == cleared[c];
                    assert(before[j].name@ == name);
                }
            }
        }
        lemma_lookup_none(cleared, "unknown"@);
    }
    let mut n: usize = 0;
    while n < defaults.len()
        invariant
            n <= defaults@.len(),
            unique_names(defaults@),
            unique_names(terrains@),
            forall|name: Seq<char>| #[trigger] lookup(defaults@, name) == default_of(name),
            forall|name: Seq<char>|
                #![trigger lookup(terrains@, name)]
                lookup(terrains@, name) == if lookup(cleared, name) is Some {
                    lookup(cleared, name)
                } else {
                    lookup(defaults@.take(n as int), name)
                },
        decreases defaults@.len() - n,
    {
        let entry = &defaults[n];
        let ghost t0 = terrains@;
        let found = find_terrain(terrains, entry.name.as_str());
        proof {
            lemma_terrain_index(t0, entry.name@, 0);
            lemma_lookup_at(defaults@, n as int);
        }
        if found == terrains.len() {
            terrains.push(TerrainEntry { name: entry.name.clone(), terrain: entry.terrain });
        }
        proof {
            let t1 = terrains@;
            let d0 = defaults@.take(n as int);
            let d1 = defaults@.take(n as int + 1);
            assert(unique_names(t1)) by {
                assert forall|i: int, j: int| 0 <= i < j < t1.len() implies (
                #[trigger] t1[i]).name@ != (#[trigger] t1[j]).name@ by {
                    if j < t0.len() {
                        assert(t1[i] == t0[i] && t1[j] == t0[j]);
                    } else {
                        assert(t1[i] == t0[i]);
                    }
                }
            }
            assert(unique_names(d1)) by {
                assert forall|i: int, j: int| 0 <= i < j < d1.len() implies (
                #[trigger] d1[i]).name@ != (#[trigger] d1[j]).name@ by {
                    assert(d1[i] == defaults@[i] && d1[j] == defaults@[j]);
                }
            }
            assert forall|name: Seq<char>|
                #![trigger lookup(t1, name)]
                lookup(t1, name) == if lookup(cleared, name) is Some {
                    lookup(cleared, name)
                } else {
                    lookup(d1, name)
                } by {
                lemma_terrain_index(t0, name, 0);
                lemma_terrain_index(t1, name, 0);
                lemma_terrain_index(d0, name, 0);
                lemma_terrain_index(d1, name, 0);
                assert(lookup(t0, name) == if lookup(cleared, name) is Some {
                    lookup(cleared, name)
                } else {
                    lookup(d0, name)
                });
                let a = terrain_index(t0, name, 0);
                let b = terrain_index(d0, name, 0);
                if a < t0.len() {
                    assert(t1[a] == t0[a]);
                    lemma_lookup_at(t1, a);
                }
                if b < d0.len() {
                    assert(d1[b] == d0[b]);
                    lemma_lookup_at(d1, b);
                }
                if name == entry.name@ {
                    lemma_lookup_at(d1, n as int);
                    if found == t0.len() {
                        lemma_lookup_at(t1, t0.len() as int);
                    }
                } else {
                    if a == t0.len() {
                        assert forall|i: int| 0 <= i < t1.len() implies (#[trigger] t1[i]).name@
                            != name by {
                            if i < t0.len() {
                                assert(t1[i] == t0[i]);
                            }
                        }
                        lemma_lookup_none(t1, name);
                    }
                    if b == d0.len() {
                        assert forall|i: int| 0 <= i < d1.len() implies (#[trigger] d1[i]).name@
                            != name by {
                            if i < d0.len() {
                                assert(d1[i] == d0[i]);
                            }
                        }
                        lemma_lookup_none(d1, name);
                    }
                }
            }
        }
        n += 1;
    }
    proof {
        assert(defaults@.take(defaults@.len() as int) =~= defaults@);
        assert forall|name: Seq<char>|
            #![trigger lookup(terrains@, name)]
            lookup(terrains@, name) == if name != "unknown"@ && lookup(before, name) is Some {
                lookup(before, name)
            } else {
                default_of(name)
            } by {
            assert(lookup(defaults@, name) == default_of(name));
            if name != "unknown"@ {
                assert(lookup(cleared, name) == lookup(before, name));
            }
        }
    }
}

impl Default for Config {
    fn default() -> (c: Config)
        ensures
            c.wf(),
            c.max_undo_states == 24,
            !c.preserve_ids,
            c.change_view_mode_on_undo,
            !c.generate_coastal_on_save,
            forall|name: Seq<char>| #[trigger] c.terrain_of(name) == default_of(name),
            !c.extra_warnings.enabled,
            !c.extra_warnings.lone_pixels,
            !c.extra_warnings.few_shared_borders,
            c.extra_warnings.few_shared_borders_threshold == 4,
    {
        let terrains = default_terrains();
        proof {
            assert forall|name: Seq<char>| lookup(terrains@, name) == default_of(name) by {}
        }
        Config {
            max_undo_states: 24,
            preserve_ids: false,
            change_view_mode_on_undo: true,
            generate_coastal_on_save: false,
            terrains,
            extra_warnings: ExtraWarnings {
                enabled: false,
                lone_pixels: false,
                few_shared_borders: false,
                few_shared_borders_threshold: 4,
            },
        }
    }
}

impl Config {
    /// No name occurs twice among the terrains.
    pub open spec fn wf(&self) -> bool {
        unique_names(self.terrains@)
    }

    /// The terrain of a name, if the settings know it.
    pub open spec fn terrain_of(&self, name: Seq<char>) -> Option<Terrain> {
        lookup(self.terrains@, name)
    }

    /// The name after the given one, or the first name where there is none.
    pub open spec fn next_terrain(&self, name: Option<Seq<char>>) -> Seq<char> {
        match name {
            Some(n) => {
                let i = terrain_index(self.terrains@, n, 0);
                if i + 1 < self.terrains@.len() {
                    self.terrains@[i + 1].name@
                } else {
                    self.terrains@[0].name@
                }
            },
            None => self.terrains@[0].name@,
        }
    }

    fn find(&self, name: &str) -> (i: usize)
        ensures
            i == terrain_index(self.terrains@, name@, 0),
            i <= self.terrains@.len(),
    {
        let mut i: usize = 0;
        while i < self.terrains.len()
            invariant
                i <= self.terrains@.len(),
                terrain_index(self.terrains@, name@, 0) == terrain_index(
                    self.terrains@,
                    name@,
                    i as int,
                ),
            decreases self.terrains@.len() - i,
        {
            if str_equal(self.terrains[i].name.as_str(), name) {
                return i;
            }
            i += 1;
        }
        i
    }

    pub fn terrain_color(&self, terrain: &str) -> (r: Option<Color>)
        ensures
            r == match self.terrain_of(terrain@) {
                Some(t) => Some(t.color),
                None => None,
            },
    {
        let i = self.find(terrain);
        if i < self.terrains.len() {
            Some(self.terrains[i].terrain.color)
        } else {
            None
        }
    }

    pub fn terrain_kind(&self, terrain: &str) -> (r: Option<ProvinceKind>)
        ensures
            r == match self.terrain_of(terrain@) {
                Some(t) => Some(t.kind),
                None => None,
            },
    {
        let i = self.find(terrain);
        if i < self.terrains.len() {
            Some(self.terrains[i].terrain.kind)
        } else {
            None
        }
    }

    /// Whether the settings know a terrain of this name.
    pub fn has_terrain(&self, terrain: &str) -> (r: bool)
        ensures
            r == self.terrain_of(terrain@) is Some,
    {
        let i = self.find(terrain);
        i < self.terrains.len()
    }

    /// The terrain to take after the given one: the next in the table, and
    /// the first after the last, after an unknown one or after none.
    pub fn cycle_terrains(&self, terrain: Option<&str>) -> (r: String)
        requires
            self.terrains@.len() > 0,
        ensures
            r@ == self.next_terrain(
                match terrain {
                    Some(t) => Some(t@),
                    None => None,
                },
            ),
    {
        if let Some(target) = terrain {
            let i = self.find(target);
            if i < self.terrains.len() && i + 1 < self.terrains.len() {
                return self.terrains[i + 1].name.clone();
            }
        }
        self.terrains[0].name.clone()
    }
}

} // verus!
