//! Map data read from a Tiled (TMX, JSON export) map: the terrain tiles as
//! positions on the tile sheet, the collision kind of each tile, the start
//! locations and the prime nodes; and the bytes that describe the map to a
//! client.
use crate::data::aliases::{is_tile_code, move_type_tile, MoveType};
use crate::libs::big_endian::{be16_bytes, be32_bytes, push_u16_be, push_u32_be};
use vstd::prelude::*;

verus! {

/// A position: on the tile sheet, on the map, or in pixels.
#[derive(Clone, Copy, Debug, PartialEq, Eq)]
pub struct Location {
    pub x: usize,
    pub y: usize,
}

impl Location {
    /// The position as a pair.
    pub fn xy(self) -> (r: (usize, usize))
        ensures
            r == (self.x, self.y),
    {
        (self.x, self.y)
    }
}

/// One layer of a map file.
pub struct Layer {
    pub name: String,
    pub data: Option<Vec<usize>>,
    pub collision: Option<Vec<usize>>,
    pub objects: Option<Vec<Location>>,
}

/// A map file as parsed: its size in tiles, the size of a tile in pixels,
/// and its layers.
pub struct TempMapData {
    pub width: usize,
    pub height: usize,
    pub tileheight: usize,
    pub tilewidth: usize,
    pub layers: Vec<Layer>,
}

/// The width of the tile sheet, in pixels.
pub const TILESHEET_W: usize = 2048;

/// All of `f` applied to each element of `s`, in order, joined.
pub open spec fn flat_map<A, B>(s: Seq<A>, f: spec_fn(A) -> Seq<B>) -> Seq<B>
    decreases s.len(),
{
    if s.len() == 0 {
        seq![]
    } else {
        flat_map(s.drop_last(), f) + f(s.last())
    }
}

/// Taking one more element adds its image at the end.
proof fn lemma_flat_map_take<A, B>(s: Seq<A>, f: spec_fn(A) -> Seq<B>, i: int)
    requires
        0 <= i < s.len(),
    ensures
        flat_map(s.take(i + 1), f) == flat_map(s.take(i), f) + f(s[i]),
{
    assert(s.take(i + 1).drop_last() == s.take(i));
}

/// The collision code of a tile: its kind's place among `NoMove`, `Ground`,
/// `Air`, `Water` and `Hover`.
pub open spec fn collision_code(tile: usize) -> int {
    if tile == move_type_tile(MoveType::NoMove) {
        0
    } else if tile == move_type_tile(MoveType::Ground) {
        1
    } else if tile == move_type_tile(MoveType::Air) {
        2
    } else if tile == move_type_tile(MoveType::Water) {
        3
    } else {
        4
    }
}

/// The collision codes of the tile numbers a map file writes: 143 (no
/// movement) is 0, 134 (ground) is 1, 99999 (air) is 2, 140 (water) is 3,
/// 137 (hover) is 4, and no other number is a collision tile; so different
/// kinds of tile get different codes.
pub proof fn lemma_collision_codes()
    ensures
        collision_code(143) == 0,
        collision_code(134) == 1,
        collision_code(99999) == 2,
        collision_code(140) == 3,
        collision_code(137) == 4,
        forall|n: int|
            #[trigger] is_tile_code(n) <==> (n == 143 || n == 134 || n == 99999 || n == 140 || n == 137),
        forall|a: usize, b: usize|
            is_tile_code(a as int) && is_tile_code(b as int) && a != b ==> #[trigger] collision_code(a)
                != #[trigger] collision_code(b),
{
}

/// Whether the layer is the one called `name`, with data.
pub open spec fn has_data(l: Layer, name: Seq<char>) -> bool {
    l.name@ == name && l.data is Some
}

/// Whether the layer is the one called `name`, with objects.
pub open spec fn has_objects(l: Layer, name: Seq<char>) -> bool {
    l.name@ == name && l.objects is Some
}

/// The tile-sheet positions of a terrain layer's tiles; tile `t` is the
/// `t - 1`th tile of a sheet `modi` tiles wide.
pub open spec fn layer_tiles(l: Layer, modi: int) -> Seq<Location> {
    if has_data(l, "terrain"@) {
        l.data.unwrap()@.map_values(
            |t: usize| Location { x: ((t - 1) % modi) as usize, y: ((t - 1) / modi) as usize },
        )
    } else {
        seq![]
    }
}

/// The collision codes of a collision layer's tiles.
pub open spec fn layer_collisions(l: Layer) -> Seq<usize> {
    if has_data(l, "collision"@) {
        l.data.unwrap()@.map_values(|c: usize| collision_code(c) as usize)
    } else {
        seq![]
    }
}

/// The objects of the layer called `name`, from pixels to tiles.
pub open spec fn layer_points(l: Layer, name: Seq<char>, tw: int) -> Seq<Location> {
    if has_objects(l, name) {
        l.objects.unwrap()@.map_values(
            |o: Location| Location { x: (o.x as int / tw) as usize, y: (o.y as int / tw) as usize },
        )
    } else {
        seq![]
    }
}

/// How a map's layers are read: a terrain tile numbered `t` (from 1) sits
/// at the place on a sheet `modi` tiles wide from which `t` is counted
/// back, row by row (`y * modi + x + 1 == t`, `x < modi`); an object of a
/// layer of points lies, in pixels, inside the tile whose position it is
/// given, tiles being `tw` pixels wide on both axes; other layers give no
/// terrain tiles or points.
pub proof fn lemma_layer_reading(l: Layer, modi: int, tw: int, name: Seq<char>)
    requires
        0 < modi <= 2048,
        tw > 0,
    ensures
        has_data(l, "terrain"@) ==> layer_tiles(l, modi).len() == l.data.unwrap()@.len() && forall|i: int|
            0 <= i < l.data.unwrap()@.len() && l.data.unwrap()@[i] >= 1 ==> (#[trigger] layer_tiles(l, modi)[i]).x
                < modi && layer_tiles(l, modi)[i].y * modi + layer_tiles(l, modi)[i].x + 1 == l.data.unwrap()@[i],
        !has_data(l, "terrain"@) ==> layer_tiles(l, modi).len() == 0,
        has_objects(l, name) ==> layer_points(l, name, tw).len() == l.objects.unwrap()@.len() && forall|i: int|
            0 <= i < l.objects.unwrap()@.len() ==> {
                let o = l.objects.unwrap()@[i];
                let p = #[trigger] layer_points(l, name, tw)[i];
                &&& p.x * tw <= o.x < p.x * tw + tw
                &&& p.y * tw <= o.y < p.y * tw + tw
            },
        !has_objects(l, name) ==> layer_points(l, name, tw).len() == 0,
        has_data(l, "collision"@) ==> layer_collisions(l).len() == l.data.unwrap()@.len() && forall|i: int|
            0 <= i < l.data.unwrap()@.len() ==> #[trigger] layer_collisions(l)[i] == collision_code(
                l.data.unwrap()@[i],
            ),
        !has_data(l, "collision"@) ==> layer_collisions(l).len() == 0,
{
    if has_data(l, "terrain"@) {
        let d = l.data.unwrap()@;
        assert forall|i: int|
            0 <= i < d.len() && d[i] >= 1 implies (#[trigger] layer_tiles(l, modi)[i]).x < modi && layer_tiles(
                l,
                modi,
            )[i].y * modi + layer_tiles(l, modi)[i].x + 1 == d[i] by {
            let t = d[i] as int;
            let x = (t - 1) % modi;
            let y = (t - 1) / modi;
            assert(0 <= x < modi && y * modi + x == t - 1 && 0 <= y <= t) by (nonlinear_arith)
                requires
                    modi > 0,
                    t >= 1,
                    x == (t - 1) % modi,
                    y == (t - 1) / modi,
            ;
            assert(layer_tiles(l, modi)[i].x == x);
            assert(layer_tiles(l, modi)[i].y == y);
        }
    }
    if has_objects(l, name) {
        let os = l.objects.unwrap()@;
        assert forall|i: int| 0 <= i < os.len() implies {
            let o = os[i];
            let p = #[trigger] layer_points(l, name, tw)[i];
            &&& p.x * tw <= o.x < p.x * tw + tw
            &&& p.y * tw <= o.y < p.y * tw + tw
        } by {
            let o = os[i];
            let a = o.x as int;
            let b = o.y as int;
            assert(0 <= a / tw && (a / tw) * tw <= a < (a / tw) * tw + tw) by (nonlinear_arith)
                requires
                    tw > 0,
                    a >= 0,
            ;
            assert(0 <= b / tw && (b / tw) * tw <= b < (b / tw) * tw + tw) by (nonlinear_arith)
                requires
                    tw > 0,
                    b >= 0,
            ;
            assert(a / tw <= a) by (nonlinear_arith)
                requires
                    tw > 0,
                    a >= 0,
            ;
            assert(b / tw <= b) by (nonlinear_arith)
                requires
                    tw > 0,
                    b >= 0,
            ;
        }
    }
}

/// Whether every tile of a terrain layer can be placed on the sheet and
/// every tile of a collision layer has a known kind.
pub open spec fn layers_readable(layers: Seq<Layer>, tw: int) -> bool {
    forall|i: int|
        #![trigger layers[i]]
        0 <= i < layers.len() ==> {
            &&& has_data(layers[i], "terrain"@) ==> forall|k: int|
                0 <= k < layers[i].data.unwrap()@.len() ==> #[trigger] layers[i].data.unwrap()@[k] >= 1
            &&& has_data(layers[i], "terrain"@) && layers[i].data.unwrap()@.len() > 0
                ==> TILESHEET_W as int / tw > 0
            &&& has_data(layers[i], "collision"@) ==> forall|k: int|
                0 <= k < layers[i].data.unwrap()@.len() ==> is_tile_code(
                    #[trigger] layers[i].data.unwrap()@[k] as int,
                )
        }
}

/// Whether the one layer `l` can be read, as `layers_readable` asks of each.
pub open spec fn layer_readable(l: Layer, tw: int) -> bool {
    &&& has_data(l, "terrain"@) ==> forall|k: int|
        0 <= k < l.data.unwrap()@.len() ==> #[trigger] l.data.unwrap()@[k] >= 1
    &&& has_data(l, "terrain"@) && l.data.unwrap()@.len() > 0 ==> TILESHEET_W as int / tw > 0
    &&& has_data(l, "collision"@) ==> forall|k: int|
        0 <= k < l.data.unwrap()@.len() ==> is_tile_code(#[trigger] l.data.unwrap()@[k] as int)
}

/// Whether one layer can be read.
fn layer_is_readable(layer: &Layer, tw: usize, terrain: &String, collision: &String) -> (r: bool)
    requires
        tw > 0,
        terrain@ == "terrain"@,
        collision@ == "collision"@,
    ensures
        r == layer_readable(*layer, tw as int),
{
    proof {
        reveal_strlit("terrain");
        reveal_strlit("collision");
    }
    assert("terrain"@ != "collision"@) by {
        assert("terrain"@[0] != "collision"@[0]);
    }
    if layer.name == *terrain {
        if let Some(data) = &layer.data {
            if data.len() > 0 && TILESHEET_W / tw == 0 {
                return false;
            }
            let mut k: usize = 0;
            while k < data.len()
                invariant
                    k <= data@.len(),
                    layer.data == Some(*data),
                    layer.name@ == "terrain"@,
                    forall|j: int| 0 <= j < k ==> #[trigger] data@[j] >= 1,
                decreases data@.len() - k,
            {
                if data[k] < 1 {
                    assert(layer.data.unwrap()@[k as int] < 1);
                    return false;
                }
                k = k + 1;
            }
        }
        true
    } else if layer.name == *collision {
        if let Some(data) = &layer.data {
            let mut k: usize = 0;
            while k < data.len()
                invariant
                    k <= data@.len(),
                    layer.data == Some(*data),
                    layer.name@ == "collision"@,
                    forall|j: int| 0 <= j < k ==> is_tile_code(#[trigger] data@[j] as int),
                decreases data@.len() - k,
            {
                if MoveType::from_usize(data[k]).is_none() {
                    assert(!is_tile_code(layer.data.unwrap()@[k as int] as int));
                    return false;
                }
                k = k + 1;
            }
        }
        true
    } else {
        true
    }
}

/// Whether `MapData::new` can read the parsed map file `temp`: its tiles
/// have a width, and its layers can be read (see `layers_readable`).
pub fn map_readable(temp: &TempMapData) -> (r: bool)
    ensures
        r == (temp.tilewidth > 0 && layers_readable(temp.layers@, temp.tilewidth as int)),
{
    if temp.tilewidth == 0 {
        return false;
    }
    let tw = temp.tilewidth;
    let terrain = "terrain".to_owned();
    let collision = "collision".to_owned();
    let layers = &temp.layers;
    let mut i: usize = 0;
    while i < layers.len()
        invariant
            i <= layers@.len(),
            tw == temp.tilewidth,
            tw > 0,
            layers@ == temp.layers@,
            terrain@ == "terrain"@,
            collision@ == "collision"@,
            forall|j: int| 0 <= j < i ==> layer_readable(#[trigger] layers@[j], tw as int),
        decreases layers@.len() - i,
    {
        if !layer_is_readable(&layers[i], tw, &terrain, &collision) {
            assert(!layer_readable(layers@[i as int], tw as int));
            return false;
        }
        i = i + 1;
    }
    assert forall|j: int| 0 <= j < layers@.len() implies {
        &&& has_data(layers@[j], "terrain"@) ==> forall|k: int|
            0 <= k < layers@[j].data.unwrap()@.len() ==> #[trigger] layers@[j].data.unwrap()@[k] >= 1
        &&& has_data(layers@[j], "terrain"@) && layers@[j].data.unwrap()@.len() > 0
            ==> TILESHEET_W as int / (tw as int) > 0
        &&& has_data(layers@[j], "collision"@) ==> forall|k: int|
            0 <= k < layers@[j].data.unwrap()@.len() ==> is_tile_code(
                #[trigger] layers@[j].data.unwrap()@[k] as int,
            )
    } by {
        assert(layer_readable(layers@[j], tw as int));
    }
    true
}

/// A position as two bytes, each cut to its low 8 bits.
pub open spec fn loc_bytes8(l: Location) -> Seq<u8> {
    seq![l.x as u8, l.y as u8]
}

/// A position as two big-endian 16-bit numbers, each cut to 16 bits.
pub open spec fn loc_bytes16(l: Location) -> Seq<u8> {
    be16_bytes((l.x as u16) as int) + be16_bytes((l.y as u16) as int)
}

/// Joining pieces of two bytes each puts piece `i` at bytes `2 * i` and
/// `2 * i + 1`.
proof fn lemma_flat_map_pairs(s: Seq<Location>)
    ensures
        flat_map(s, |l: Location| loc_bytes8(l)).len() == 2 * s.len(),
        forall|i: int|
            0 <= i < s.len() ==> flat_map(s, |l: Location| loc_bytes8(l))[2 * i] == (#[trigger] s[i]).x as u8
                && flat_map(s, |l: Location| loc_bytes8(l))[2 * i + 1] == s[i].y as u8,
    decreases s.len(),
{
    if s.len() > 0 {
        lemma_flat_map_pairs(s.drop_last());
        let f = |l: Location| loc_bytes8(l);
        let a = flat_map(s.drop_last(), f);
        assert(flat_map(s, f) == a + loc_bytes8(s.last()));
        assert forall|i: int| 0 <= i < s.len() implies flat_map(s, f)[2 * i] == (#[trigger] s[i]).x as u8
            && flat_map(s, f)[2 * i + 1] == s[i].y as u8 by {
            if i < s.len() - 1 {
                assert(s.drop_last()[i] == s[i]);
                assert(a[2 * i] == s[i].x as u8);
            }
        }
    }
}

/// How a map reads to a client: its width and then its height as two
/// bytes each, most significant first (cut to 16 bits); then two bytes for
/// each terrain tile, the column and the row of its place on the sheet; then
/// a byte for each collision code; then the number of start locations.
pub proof fn lemma_encode_layout(m: MapData)
    ensures
        ({
            let b = encode_spec(m);
            let w = m.width_spec() as int % 65536;
            let h = m.height_spec() as int % 65536;
            let t = m.tiles_spec();
            let c = m.collisions_spec();
            &&& b.len() > 4 + 2 * t.len() + c.len()
            &&& b[0] == w / 256 && b[1] == w % 256
            &&& b[2] == h / 256 && b[3] == h % 256
            &&& forall|i: int| 0 <= i < t.len() ==> #[trigger] b[4 + 2 * i] == t[i].x as u8 && b[5 + 2 * i] == t[i].y as u8
            &&& forall|i: int| 0 <= i < c.len() ==> #[trigger] b[4 + 2 * t.len() + i] == c[i] as u8
            &&& b[4 + 2 * t.len() + c.len() as int] == m.start_locations_spec().len() as u8
        }),
{
    let t = m.tiles_spec();
    let c = m.collisions_spec();
    lemma_flat_map_pairs(t);
    let head = be16_bytes((m.width_spec() as u16) as int) + be16_bytes((m.height_spec() as u16) as int);
    let tb = flat_map(t, |l: Location| loc_bytes8(l));
    let cb = c.map_values(|x: usize| x as u8);
    let rest = seq![(m.start_locations_spec().len() as u8)] + flat_map(
        m.start_locations_spec(),
        |l: Location| loc_bytes16(l),
    ) + be32_bytes((m.prime_nodes_spec().len() as u32) as int) + flat_map(
        m.prime_nodes_spec(),
        |l: Location| loc_bytes16(l),
    );
    let b = encode_spec(m);
    assert(b == head + tb + cb + rest);
    let wv = m.width_spec();
    let hv = m.height_spec();
    assert((wv as u16) as int == wv as int % 65536) by (bit_vector);
    assert((hv as u16) as int == hv as int % 65536) by (bit_vector);
    assert forall|i: int| 0 <= i < t.len() implies #[trigger] b[4 + 2 * i] == t[i].x as u8 && b[5 + 2 * i] == t[i].y as u8 by {
        assert(b[4 + 2 * i] == tb[2 * i]);
        assert(b[5 + 2 * i] == tb[2 * i + 1]);
    }
    assert forall|i: int| 0 <= i < c.len() implies #[trigger] b[4 + 2 * t.len() + i] == c[i] as u8 by {
        assert(b[4 + 2 * t.len() + i] == cb[i]);
    }
    assert(b[4 + 2 * t.len() + c.len() as int] == rest[0]);
}

/// The bytes that describe map `m` to a client.
pub open spec fn encode_spec(m: MapData) -> Seq<u8> {
    be16_bytes((m.width_spec() as u16) as int) + be16_bytes((m.height_spec() as u16) as int)
        + flat_map(m.tiles_spec(), |l: Location| loc_bytes8(l))
        + m.collisions_spec().map_values(|c: usize| c as u8)
        + seq![(m.start_locations_spec().len() as u8)]
        + flat_map(m.start_locations_spec(), |l: Location| loc_bytes16(l))
        + be32_bytes((m.prime_nodes_spec().len() as u32) as int)
        + flat_map(m.prime_nodes_spec(), |l: Location| loc_bytes16(l))
}

/// A map: its size in tiles, the sheet position of each terrain tile, the
/// collision code of each tile, the start locations and the prime nodes.
pub struct MapData {
    width: usize,
    height: usize,
    collisions: Vec<usize>,
    tiles: Vec<Location>,
    start_locations: Vec<Location>,
    prime_nodes: Vec<Location>,
}

impl MapData {
    /// The width in tiles.
    pub closed spec fn width_spec(&self) -> usize {
        self.width
    }

    /// The height in tiles.
    pub closed spec fn height_spec(&self) -> usize {
        self.height
    }

    /// The collision code of each tile.
    pub closed spec fn collisions_spec(&self) -> Seq<usize> {
        self.collisions@
    }

    /// The sheet position of each terrain tile.
    pub closed spec fn tiles_spec(&self) -> Seq<Location> {
        self.tiles@
    }

    /// The start locations, in tiles.
    pub closed spec fn start_locations_spec(&self) -> Seq<Location> {
        self.start_locations@
    }

    /// The prime nodes, in tiles.
    pub closed spec fn prime_nodes_spec(&self) -> Seq<Location> {
        self.prime_nodes@
    }

    /// The collision code of each tile.
    pub fn collisions(&self) -> (r: &Vec<usize>)
        ensures
            r@ == self.collisions_spec(),
    {
        &self.collisions
    }

    /// The map of a parsed map file. Positions of objects are divided by
    /// the tile width, on both axes.
    pub fn new(temp: TempMapData) -> (r: MapData)
        requires
            temp.tilewidth > 0,
            layers_readable(temp.layers@, temp.tilewidth as int),
        ensures
            r.width_spec() == temp.width,
            r.height_spec() == temp.height,
            r.tiles_spec() == flat_map(
                temp.layers@,
                |l: Layer| layer_tiles(l, (TILESHEET_W / temp.tilewidth) as int),
            ),
            r.collisions_spec() == flat_map(temp.layers@, |l: Layer| layer_collisions(l)),
            r.start_locations_spec() == flat_map(
                temp.layers@,
                |l: Layer| layer_points(l, "start_locations"@, temp.tilewidth as int),
            ),
            r.prime_nodes_spec() == flat_map(
                temp.layers@,
                |l: Layer| layer_points(l, "prime_nodes"@, temp.tilewidth as int),
            ),
    {
        let tw = temp.tilewidth;
        let th = temp.tilewidth;
        let modi = TILESHEET_W / tw;
        let ghost ft = |l: Layer| layer_tiles(l, modi as int);
        let ghost fc = |l: Layer| layer_collisions(l);
        let ghost fs = |l: Layer| layer_points(l, "start_locations"@, tw as int);
        let ghost fp = |l: Layer| layer_points(l, "prime_nodes"@, tw as int);
        let terrain = "terrain".to_owned();
        let collision = "collision".to_owned();
        let start_name = "start_locations".to_owned();
        let prime_name = "prime_nodes".to_owned();

        let mut tiles: Vec<Location> = Vec::new();
        let mut collisions: Vec<usize> = Vec::new();
        let mut start_locations: Vec<Location> = Vec::new();
        let mut prime_nodes: Vec<Location> = Vec::new();
        let layers = &temp.layers;
        let mut i: usize = 0;
        while i < layers.len()
            invariant
                i <= layers@.len(),
                tw == temp.tilewidth,
                th == tw,
                tw > 0,
                modi == TILESHEET_W / tw,
                layers@ == temp.layers@,
                terrain@ == "terrain"@,
                collision@ == "collision"@,
                start_name@ == "start_locations"@,
                prime_name@ == "prime_nodes"@,
                layers_readable(layers@, tw as int),
                ft == (|l: Layer| layer_tiles(l, modi as int)),
                fc == (|l: Layer| layer_collisions(l)),
                fs == (|l: Layer| layer_points(l, "start_locations"@, tw as int)),
                fp == (|l: Layer| layer_points(l, "prime_nodes"@, tw as int)),
                tiles@ == flat_map(layers@.take(i as int), ft),
                collisions@ == flat_map(layers@.take(i as int), fc),
                start_locations@ == flat_map(layers@.take(i as int), fs),
                prime_nodes@ == flat_map(layers@.take(i as int), fp),
            decreases layers@.len() - i,
        {
            let layer = &layers[i];
            proof {
                lemma_flat_map_take(layers@, ft, i as int);
                lemma_flat_map_take(layers@, fc, i as int);
                lemma_flat_map_take(layers@, fs, i as int);
                lemma_flat_map_take(layers@, fp, i as int);
            }
            let ghost tiles0 = tiles@;
            let ghost collisions0 = collisions@;
            let ghost starts0 = start_locations@;
            let ghost primes0 = prime_nodes@;

            if layer.name == terrain {
                if let Some(data) = &layer.data {
                    let mut k: usize = 0;
                    while k < data.len()
                        invariant
                            k <= data@.len(),
                            layer.data == Some(*data),
                            has_data(*layer, "terrain"@),
                            forall|j: int| 0 <= j < data@.len() ==> #[trigger] data@[j] >= 1,
                            modi == TILESHEET_W / tw,
                            modi > 0 || data@.len() == 0,
                            tiles@ == tiles0 + layer_tiles(*layer, modi as int).take(k as int),
                        decreases data@.len() - k,
                    {
                        let tile = data[k];
                        let x = (tile - 1) % modi;
                        let y = (tile - 1) / modi;
                        tiles.push(Location { x, y });
                        proof {
                            assert(layer_tiles(*layer, modi as int).take(k + 1) == layer_tiles(
                                *layer,
                                modi as int,
                            ).take(k as int).push(Location { x, y }));
                        }
                        k = k + 1;
                    }
                    assert(layer_tiles(*layer, modi as int).take(data@.len() as int) == layer_tiles(
                        *layer,
                        modi as int,
                    ));
                }
            }
            assert(tiles@ == tiles0 + ft(layers@[i as int]));

            if layer.name == collision {
                if let Some(data) = &layer.data {
                    let mut k: usize = 0;
                    while k < data.len()
                        invariant
                            k <= data@.len(),
                            layer.data == Some(*data),
                            has_data(*layer, "collision"@),
                            forall|j: int|
                                0 <= j < data@.len() ==> is_tile_code(#[trigger] data@[j] as int),
                            collisions@ == collisions0 + layer_collisions(*layer).take(k as int),
                        decreases data@.len() - k,
                    {
                        let code: usize = match MoveType::from_usize(data[k]) {
                            Some(MoveType::NoMove) => 0,
                            Some(MoveType::Ground) => 1,
                            Some(MoveType::Air) => 2,
                            Some(MoveType::Water) => 3,
                            Some(MoveType::Hover) => 4,
                            None => 0,
                        };
                        collisions.push(code);
                        proof {
                            assert(layer_collisions(*layer).take(k + 1) == layer_collisions(*layer).take(
                                k as int,
                            ).push(code));
                        }
                        k = k + 1;
                    }
                    assert(layer_collisions(*layer).take(data@.len() as int) == layer_collisions(
                        *layer,
                    ));
                }
            }
            assert(collisions@ == collisions0 + fc(layers@[i as int]));

            if layer.name == start_name {
                if let Some(objects) = &layer.objects {
                    let mut k: usize = 0;
                    while k < objects.len()
                        invariant
                            k <= objects@.len(),
                            layer.objects == Some(*objects),
                            has_objects(*layer, "start_locations"@),
                            tw > 0,
                            th == tw,
                            start_locations@ == starts0 + layer_points(
                                *layer,
                                "start_locations"@,
                                tw as int,
                            ).take(k as int),
                        decreases objects@.len() - k,
                    {
                        let start_loc = objects[k];
                        let loc = Location { x: start_loc.x / tw, y: start_loc.y / th };
                        start_locations.push(loc);
                        proof {
                            assert(layer_points(*layer, "start_locations"@, tw as int).take(k + 1)
                                == layer_points(*layer, "start_locations"@, tw as int).take(
                                k as int,
                            ).push(loc));
                        }
                        k = k + 1;
                    }
                    assert(layer_points(*layer, "start_locations"@, tw as int).take(
                        objects@.len() as int,
                    ) == layer_points(*layer, "start_locations"@, tw as int));
                }
            }
            assert(start_locations@ == starts0 + fs(layers@[i as int]));

            if layer.name == prime_name {
                if let Some(objects) = &layer.objects {
                    let mut k: usize = 0;
                    while k < objects.len()
                        invariant
                            k <= objects@.len(),
                            layer.objects == Some(*objects),
                            has_objects(*layer, "prime_nodes"@),
                            tw > 0,
                            th == tw,
                            prime_nodes@ == primes0 + layer_points(
                                *layer,
                                "prime_nodes"@,
                                tw as int,
                            ).take(k as int),
                        decreases objects@.len() - k,
                    {
                        let node = objects[k];
                        let loc = Location { x: node.x / tw, y: node.y / th };
                        prime_nodes.push(loc);
                        proof {
                            assert(layer_points(*layer, "prime_nodes"@, tw as int).take(k + 1)
                                == layer_points(*layer, "prime_nodes"@, tw as int).take(
                                k as int,
                            ).push(loc));
                        }
                        k = k + 1;
                    }
                    assert(layer_points(*layer, "prime_nodes"@, tw as int).take(
                        objects@.len() as int,
                    ) == layer_points(*layer, "prime_nodes"@, tw as int));
                }
            }
            assert(prime_nodes@ == primes0 + fp(layers@[i as int]));
            i = i + 1;
        }
        assert(layers@.take(layers@.len() as int) == layers@);
        MapData {
            width: temp.width,
            height: temp.height,
            collisions,
            tiles,
            start_locations,
            prime_nodes,
        }
    }

    /// The width and the height, in tiles.
    pub fn width_and_height(&self) -> (r: (usize, usize))
        ensures
            r == (self.width_spec(), self.height_spec()),
    {
        (self.width, self.height)
    }
    /// The bytes that describe the map to a client: width and height as
    /// big-endian 16-bit numbers, a byte each for the sheet position of
    /// every terrain tile, a byte for every collision code, the number of
    /// start locations in a byte and each of them as two 16-bit numbers, then
    /// the number of prime nodes in 32 bits and each of them likewise.
    /// Numbers too wide for their field are cut to its low bytes.
    pub fn encode(&self) -> (r: Vec<u8>)
        ensures
            r@ == encode_spec(*self),
    {
        let mut vec: Vec<u8> = Vec::new();
        push_u16_be(&mut vec, self.width as u16);
        push_u16_be(&mut vec, self.height as u16);
        let ghost head = vec@;
        let ghost narrow = |l: Location| loc_bytes8(l);
        let ghost wide = |l: Location| loc_bytes16(l);

        let mut k: usize = 0;
        while k < self.tiles.len()
            invariant
                k <= self.tiles@.len(),
                narrow == (|l: Location| loc_bytes8(l)),
                vec@ == head + flat_map(self.tiles@.take(k as int), narrow),
            decreases self.tiles@.len() - k,
        {
            proof {
                lemma_flat_map_take(self.tiles@, narrow, k as int);
            }
            let tile = self.tiles[k];
            vec.push(tile.x as u8);
            vec.push(tile.y as u8);
            k = k + 1;
        }
        assert(self.tiles@.take(self.tiles@.len() as int) == self.tiles@);
        let ghost head = vec@;

        let mut k: usize = 0;
        while k < self.collisions.len()
            invariant
                k <= self.collisions@.len(),
                vec@ == head + self.collisions@.take(k as int).map_values(|c: usize| c as u8),
            decreases self.collisions@.len() - k,
        {
            vec.push(self.collisions[k] as u8);
            proof {
                assert(self.collisions@.take(k + 1).map_values(|c: usize| c as u8)
                    == self.collisions@.take(k as int).map_values(|c: usize| c as u8).push(
                    self.collisions@[k as int] as u8,
                ));
            }
            k = k + 1;
        }
        assert(self.collisions@.take(self.collisions@.len() as int) == self.collisions@);

        vec.push(self.start_locations.len() as u8);
        let ghost head = vec@;
        let mut k: usize = 0;
        while k < self.start_locations.len()
            invariant
                k <= self.start_locations@.len(),
                wide == (|l: Location| loc_bytes16(l)),
                vec@ == head + flat_map(self.start_locations@.take(k as int), wide),
            decreases self.start_locations@.len() - k,
        {
            proof {
                lemma_flat_map_take(self.start_locations@, wide, k as int);
            }
            let loc = self.start_locations[k];
            push_u16_be(&mut vec, loc.x as u16);
            push_u16_be(&mut vec, loc.y as u16);
            k = k + 1;
        }
        assert(self.start_locations@.take(self.start_locations@.len() as int)
            == self.start_locations@);

        push_u32_be(&mut vec, self.prime_nodes.len() as u32);
        let ghost head = vec@;
        let mut k: usize = 0;
        while k < self.prime_nodes.len()
            invariant
                k <= self.prime_nodes@.len(),
                wide == (|l: Location| loc_bytes16(l)),
                vec@ == head + flat_map(self.prime_nodes@.take(k as int), wide),
            decreases self.prime_nodes@.len() - k,
        {
            proof {
                lemma_flat_map_take(self.prime_nodes@, wide, k as int);
            }
            let loc = self.prime_nodes[k];
            push_u16_be(&mut vec, loc.x as u16);
            push_u16_be(&mut vec, loc.y as u16);
            k = k + 1;
        }
        assert(self.prime_nodes@.take(self.prime_nodes@.len() as int) == self.prime_nodes@);
        vec
    }
}

} // verus!
