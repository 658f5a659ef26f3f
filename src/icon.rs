use vstd::prelude::*;
use vstd::utf8::{encode_utf8, valid_utf8};

use crate::bytes::{copy_range, read_be_u32};
use crate::dirs::{is_cardinal, Dirs};
use crate::emit::{emit_manifest, manifest_text, state_writable};
use crate::error::DmiError;
use crate::manifest::{
    pairs_view, parse_manifest, parse_manifest_spec, seqs_view, ManifestMeta, ManifestModel, StateMeta, StateModel,
};
use crate::raster::{
    atlas, atlas_columns, crop_tile, decode_rgba, encode_rgba, lemma_atlas_len, pack_atlas, png_decoded, png_encoded,
    rgba_of, tile_at,
};
use crate::ztxt::{create_ztxt_chunk, description_keyword, zlib_compressed, zlib_decompressed};
use crate::chunk::chunk_decodes;
use crate::{
    idat_type, ihdr_header, ihdr_type, load_outcome, meta_outcome, meta_walk, of_type, png_signature, walk, MetaFault,
    RawDmi, RawDmiMetadata,
};

verus! {

/// Relies on `String::from_utf8`: the bytes become a `String` holding exactly
/// them where they are valid UTF-8, and fail otherwise.
#[verifier::external_body]
fn string_from_utf8(b: Vec<u8>) -> (r: Result<String, DmiError>)
    ensures
        r is Ok <==> valid_utf8(b@),
        r is Ok ==> encode_utf8(r->Ok_0@) == b@,
        r is Err ==> (r matches Err(DmiError::Utf8)),
{
    match String::from_utf8(b) {
        Ok(s) => Ok(s),
        Err(_) => Err(DmiError::Utf8),
    }
}

/// The UTF-8 bytes of a string.
pub fn string_bytes(s: &String) -> (r: Vec<u8>)
    ensures
        r@ == encode_utf8(s@),
{
    let b = s.as_str().as_bytes();
    copy_range(b, 0, b.len())
}

/// The UTF-8 bytes of each string.
pub open spec fn strings_view(v: Seq<String>) -> Seq<Seq<u8>> {
    v.map_values(|s: String| encode_utf8(s@))
}

/// The UTF-8 bytes of each pair of strings.
pub open spec fn string_pairs_view(v: Seq<(String, String)>) -> Seq<(Seq<u8>, Seq<u8>)> {
    v.map_values(|p: (String, String)| (encode_utf8(p.0@), encode_utf8(p.1@)))
}

fn strings_from(v: Vec<Vec<u8>>) -> (r: Result<Vec<String>, DmiError>)
    ensures
        r is Ok <==> (forall|i: int| 0 <= i < v@.len() ==> valid_utf8(#[trigger] v@[i]@)),
        r is Ok ==> strings_view(r->Ok_0@) == seqs_view(v@),
        r is Err ==> r == Err::<Vec<String>, DmiError>(DmiError::Utf8),
{
    let mut out: Vec<String> = Vec::new();
    let mut i: usize = 0;
    while i < v.len()
        invariant
            i <= v@.len(),
            forall|j: int| 0 <= j < i ==> valid_utf8(#[trigger] v@[j]@),
            strings_view(out@) == seqs_view(v@.subrange(0, i as int)),
        decreases v@.len() - i,
    {
        let b = copy_range(v[i].as_slice(), 0, v[i].len());
        assert(b@ =~= v@[i as int]@);
        let s = match string_from_utf8(b) {
            Ok(s) => s,
            Err(e) => return Err(e),
        };
        let ghost before = strings_view(out@);
        out.push(s);
        assert(strings_view(out@) =~= before.push(encode_utf8(s@)));
        assert(seqs_view(v@.subrange(0, i + 1)) =~= seqs_view(v@.subrange(0, i as int)).push(v@[i as int]@));
        i = i + 1;
    }
    assert(v@.subrange(0, i as int) =~= v@);
    Ok(out)
}

fn string_pairs_from(v: Vec<(Vec<u8>, Vec<u8>)>) -> (r: Result<Vec<(String, String)>, DmiError>)
    ensures
        r is Ok <==> (forall|i: int| 0 <= i < v@.len() ==> valid_utf8((#[trigger] v@[i]).0@) && valid_utf8(v@[i].1@)),
        r is Ok ==> string_pairs_view(r->Ok_0@) == pairs_view(v@),
        r is Err ==> r == Err::<Vec<(String, String)>, DmiError>(DmiError::Utf8),
{
    let mut out: Vec<(String, String)> = Vec::new();
    let mut i: usize = 0;
    while i < v.len()
        invariant
            i <= v@.len(),
            forall|j: int| 0 <= j < i ==> valid_utf8((#[trigger] v@[j]).0@) && valid_utf8(v@[j].1@),
            string_pairs_view(out@) == pairs_view(v@.subrange(0, i as int)),
        decreases v@.len() - i,
    {
        let k = copy_range(v[i].0.as_slice(), 0, v[i].0.len());
        let x = copy_range(v[i].1.as_slice(), 0, v[i].1.len());
        assert(k@ =~= v@[i as int].0@);
        assert(x@ =~= v@[i as int].1@);
        let ks = match string_from_utf8(k) {
            Ok(s) => s,
            Err(e) => return Err(e),
        };
        let xs = match string_from_utf8(x) {
            Ok(s) => s,
            Err(e) => return Err(e),
        };
        let ghost before = string_pairs_view(out@);
        let ghost pair = (encode_utf8(ks@), encode_utf8(xs@));
        out.push((ks, xs));
        assert(string_pairs_view(out@) =~= before.push(pair));
        assert(pairs_view(v@.subrange(0, i + 1)) =~= pairs_view(v@.subrange(0, i as int)).push(
            (v@[i as int].0@, v@[i as int].1@),
        ));
        i = i + 1;
    }
    assert(v@.subrange(0, i as int) =~= v@);
    Ok(out)
}

fn strings_to(v: &Vec<String>) -> (r: Vec<Vec<u8>>)
    ensures
        seqs_view(r@) == strings_view(v@),
{
    let mut out: Vec<Vec<u8>> = Vec::new();
    let mut i: usize = 0;
    while i < v.len()
        invariant
            i <= v@.len(),
            seqs_view(out@) == strings_view(v@.subrange(0, i as int)),
        decreases v@.len() - i,
    {
        let b = string_bytes(&v[i]);
        let ghost before = seqs_view(out@);
        out.push(b);
        assert(seqs_view(out@) =~= before.push(b@));
        assert(strings_view(v@.subrange(0, i + 1)) =~= strings_view(v@.subrange(0, i as int)).push(
            encode_utf8(v@[i as int]@),
        ));
        i = i + 1;
    }
    assert(v@.subrange(0, i as int) =~= v@);
    out
}

fn string_pairs_to(v: &Vec<(String, String)>) -> (r: Vec<(Vec<u8>, Vec<u8>)>)
    ensures
        pairs_view(r@) == string_pairs_view(v@),
{
    let mut out: Vec<(Vec<u8>, Vec<u8>)> = Vec::new();
    let mut i: usize = 0;
    while i < v.len()
        invariant
            i <= v@.len(),
            pairs_view(out@) == string_pairs_view(v@.subrange(0, i as int)),
        decreases v@.len() - i,
    {
        let k = string_bytes(&v[i].0);
        let x = string_bytes(&v[i].1);
        let ghost before = pairs_view(out@);
        let ghost pair = (k@, x@);
        out.push((k, x));
        assert(pairs_view(out@) =~= before.push(pair));
        assert(string_pairs_view(v@.subrange(0, i + 1)) =~= string_pairs_view(v@.subrange(0, i as int)).push(
            (encode_utf8(v@[i as int].0@), encode_utf8(v@[i as int].1@)),
        ));
        i = i + 1;
    }
    assert(v@.subrange(0, i as int) =~= v@);
    out
}

/// The order of directions within the tiles of one frame.
pub fn dir_to_dmi_index(dir: &Dirs) -> (r: Option<usize>)
    ensures
        r == Some(dmi_index(*dir)),
{
    match dir {
        Dirs::SOUTH => Some(0),
        Dirs::NORTH => Some(1),
        Dirs::EAST => Some(2),
        Dirs::WEST => Some(3),
        Dirs::SOUTHEAST => Some(4),
        Dirs::SOUTHWEST => Some(5),
        Dirs::NORTHEAST => Some(6),
        Dirs::NORTHWEST => Some(7),
    }
}

/// Where a direction stands among the tiles of one frame: south, north, east,
/// west, then south-east, south-west, north-east, north-west.
pub open spec fn dmi_index(d: Dirs) -> usize {
    match d {
        Dirs::SOUTH => 0,
        Dirs::NORTH => 1,
        Dirs::EAST => 2,
        Dirs::WEST => 3,
        Dirs::SOUTHEAST => 4,
        Dirs::SOUTHWEST => 5,
        Dirs::NORTHEAST => 6,
        Dirs::NORTHWEST => 7,
    }
}

/// One RGBA image of `width` by `height` pixels, four bytes a pixel, row by row.
#[derive(Clone, PartialEq, Eq, Debug)]
pub struct Tile {
    pub width: u32,
    pub height: u32,
    pub pixels: Vec<u8>,
}

/// How an animated state loops: without end, or a number of times (never zero)
/// before it stays on its last frame.
#[derive(Copy, Clone, Eq, PartialEq, Debug)]
pub enum Looping {
    Indefinitely,
    NTimes(u32),
}

/// The loop count the manifest writes: zero for without end.
pub open spec fn loop_times(l: Looping) -> u32 {
    match l {
        Looping::Indefinitely => 0,
        Looping::NTimes(n) => n,
    }
}

impl Looping {
    /// `NTimes(x)`, or `Indefinitely` for zero.
    pub fn new(x: u32) -> (r: Looping)
        ensures
            x == 0 ==> r == Looping::Indefinitely,
            x != 0 ==> r == Looping::NTimes(x),
    {
        if x == 0 {
            Looping::Indefinitely
        } else {
            Looping::NTimes(x)
        }
    }

    /// The number of times to loop; a looping without end has none.
    pub fn unwrap(self) -> (r: u32)
        requires
            self is NTimes,
        ensures
            r == self->NTimes_0,
    {
        match self {
            Looping::NTimes(n) => n,
            Looping::Indefinitely => 0,
        }
    }

    /// The number of times to loop, or zero for without end.
    pub fn unwrap_or_default(self) -> (r: u32)
        ensures
            r == loop_times(self),
    {
        match self {
            Looping::NTimes(n) => n,
            Looping::Indefinitely => 0,
        }
    }

    /// The number of times to loop, or none for without end.
    pub fn as_option(self) -> (r: Option<u32>)
        ensures
            self is NTimes ==> r == Some(self->NTimes_0),
            self is Indefinitely ==> r is None,
    {
        match self {
            Looping::NTimes(n) => Some(n),
            Looping::Indefinitely => None,
        }
    }

    /// The number of times to loop, or `default` for without end.
    pub fn unwrap_or(self, default: u32) -> (r: u32)
        ensures
            self is NTimes ==> r == self->NTimes_0,
            self is Indefinitely ==> r == default,
    {
        match self {
            Looping::NTimes(n) => n,
            Looping::Indefinitely => default,
        }
    }
}

impl Default for Looping {
    fn default() -> (r: Looping)
        ensures
            r == Looping::Indefinitely,
    {
        Looping::Indefinitely
    }
}

/// The pixel that acts as the click point of a state used as a cursor.
#[derive(Copy, Clone, Eq, PartialEq, Debug, Default)]
pub struct Hotspot {
    pub x: u32,
    pub y: u32,
}

/// The version a manifest declares, kept as text.
#[derive(Clone, Eq, PartialEq, Hash, Debug)]
pub struct DmiVersion(pub String);

impl Default for DmiVersion {
    /// Version "4.0".
    fn default() -> (r: DmiVersion)
        ensures
            r.0@ == seq!['4', '.', '0'],
    {
        let s = String::from_str("4.0");
        proof {
            reveal_strlit("4.0");
        }
        DmiVersion(s)
    }
}

/// One named state of an icon: its directions, frames and tiles, and how it animates.
#[derive(Clone, PartialEq, Debug)]
pub struct IconState {
    pub name: String,
    pub dirs: u8,
    pub frames: u32,
    /// The tiles frame by frame, each frame direction by direction.
    pub images: Vec<Tile>,
    /// The delay of each frame, as the manifest writes it.
    pub delay: Option<Vec<String>>,
    pub loop_flag: Looping,
    pub rewind: bool,
    pub movement: bool,
    pub hotspot: Option<Hotspot>,
    /// Settings of the manifest without a meaning here, kept in order.
    pub unknown_settings: Option<Vec<(String, String)>>,
}

impl IconState {
    /// The metadata of the state, with its text as UTF-8 bytes.
    pub open spec fn model(&self) -> StateModel {
        StateModel {
            name: encode_utf8(self.name@),
            dirs: self.dirs,
            frames: self.frames,
            delay: match self.delay {
                Some(v) => Some(strings_view(v@)),
                None => None,
            },
            loop_times: loop_times(self.loop_flag),
            rewind: self.rewind,
            movement: self.movement,
            hotspot: match self.hotspot {
                Some(h) => Some((h.x, h.y)),
                None => None,
            },
            unknown: match self.unknown_settings {
                Some(v) => Some(string_pairs_view(v@)),
                None => None,
            },
        }
    }

    /// The metadata of the state as bytes.
    fn to_meta(&self) -> (r: StateMeta)
        ensures
            r.model() == self.model(),
    {
        let delay = match &self.delay {
            Some(v) => Some(strings_to(v)),
            None => None,
        };
        let unknown = match &self.unknown_settings {
            Some(v) => Some(string_pairs_to(v)),
            None => None,
        };
        let hotspot = match self.hotspot {
            Some(h) => Some((h.x, h.y)),
            None => None,
        };
        StateMeta {
            name: string_bytes(&self.name),
            dirs: self.dirs,
            frames: self.frames,
            delay,
            loop_times: self.loop_flag.unwrap_or_default(),
            rewind: self.rewind,
            movement: self.movement,
            hotspot,
            unknown,
        }
    }

    /// The tile of direction `dir` at frame `frame`, counted from one: the tile at
    /// index `(d + 1) * frame - 1`, with `d` where `dir` stands in the order of
    /// `dir_to_dmi_index`.
    ///
    /// Fails with `IconState` where the frame is zero or past the last, where the
    /// state does not face `dir` (one direction: south only; four: the cardinal
    /// ones), or where no tile stands at that index.
    pub fn get_image(&self, dir: &Dirs, frame: u32) -> (r: Result<&Tile, DmiError>)
        ensures
            (frame == 0 || frame > self.frames || (self.dirs == 1 && *dir != Dirs::SOUTH) || (self.dirs == 4
                && !is_cardinal(*dir)) || (dmi_index(*dir) + 1) * frame - 1 >= self.images@.len()) ==> r
                == Err::<&Tile, DmiError>(DmiError::IconState),
            r is Ok ==> *r->Ok_0 == self.images@[(dmi_index(*dir) + 1) * frame - 1],
            !(frame == 0 || frame > self.frames || (self.dirs == 1 && *dir != Dirs::SOUTH) || (self.dirs == 4
                && !is_cardinal(*dir)) || (dmi_index(*dir) + 1) * frame - 1 >= self.images@.len()) ==> r is Ok,
    {
        if frame == 0 || self.frames < frame {
            return Err(DmiError::IconState);
        }
        let south = match dir {
            Dirs::SOUTH => true,
            _ => false,
        };
        if (self.dirs == 1 && !south) || (self.dirs == 4 && !dir.is_cardinal()) {
            return Err(DmiError::IconState);
        }
        let d = match dir_to_dmi_index(dir) {
            Some(d) => d,
            None => return Err(DmiError::IconState),
        };
        assert(d <= 7);
        assert((d as int + 1) * frame as int <= 8 * u32::MAX as int) by (nonlinear_arith)
            requires d <= 7, frame <= u32::MAX;
        assert((d as int + 1) * frame as int >= 1) by (nonlinear_arith)
            requires d >= 0, frame >= 1;
        let idx = (d as u64 + 1) * frame as u64 - 1;
        if idx >= self.images.len() as u64 {
            return Err(DmiError::IconState);
        }
        Ok(&self.images[idx as usize])
    }
}

impl Default for IconState {
    /// An unnamed state of one direction and one frame, without tiles.
    fn default() -> (r: IconState)
        ensures
            r.name@.len() == 0,
            r.dirs == 1,
            r.frames == 1,
            r.images@.len() == 0,
            r.delay is None,
            r.loop_flag == Looping::Indefinitely,
            !r.rewind,
            !r.movement,
            r.hotspot is None,
            r.unknown_settings is None,
    {
        IconState {
            name: String::new(),
            dirs: 1,
            frames: 1,
            images: Vec::new(),
            delay: None,
            loop_flag: Looping::Indefinitely,
            rewind: false,
            movement: false,
            hotspot: None,
            unknown_settings: None,
        }
    }
}

/// The number of tiles that the states before state `k` take.
pub open spec fn tiles_before(sts: Seq<StateModel>, k: int) -> int
    decreases k,
{
    if k <= 0 {
        0
    } else {
        tiles_before(sts, k - 1) + sts[k - 1].dirs as int * sts[k - 1].frames as int
    }
}

/// Every piece of text of a state is valid UTF-8.
pub open spec fn state_texts_valid(st: StateModel) -> bool {
    &&& valid_utf8(st.name)
    &&& (st.delay is Some ==> forall|i: int| 0 <= i < st.delay->Some_0.len() ==> valid_utf8(#[trigger] st.delay->Some_0[i]))
    &&& (st.unknown is Some ==> forall|i: int| 0 <= i < st.unknown->Some_0.len() ==> valid_utf8((#[trigger] st.unknown->Some_0[i]).0)
        && valid_utf8(st.unknown->Some_0[i].1))
}

/// Every piece of text of a manifest is valid UTF-8.
pub open spec fn texts_valid(m: ManifestModel) -> bool {
    &&& valid_utf8(m.version)
    &&& forall|k: int| 0 <= k < m.states.len() ==> state_texts_valid(#[trigger] m.states[k])
}

/// The tiles of the manifest fit an image of `img_width` by `img_height` pixels.
pub open spec fn geometry_ok(m: ManifestModel, img_width: int, img_height: int) -> bool {
    &&& m.width > 0
    &&& m.height > 0
    &&& img_width > 0
    &&& img_height > 0
    &&& img_width % m.width as int == 0
    &&& img_height % m.height as int == 0
    &&& tiles_before(m.states, m.states.len() as int) <= (img_width / m.width as int) * (img_height / m.height as int)
}

/// The metadata of an icon read from manifest text, for an image of the given size.
pub open spec fn icon_outcome(text: Seq<u8>, img_width: int, img_height: int) -> Result<ManifestModel, DmiError> {
    match parse_manifest_spec(text) {
        Err(e) => Err(e),
        Ok(m) => if !texts_valid(m) {
            Err(DmiError::Utf8)
        } else if !geometry_ok(m, img_width, img_height) {
            Err(DmiError::GeometryMismatch)
        } else {
            Ok(m)
        },
    }
}

/// A DMI icon: a version, the size of its tiles, and its states.
#[derive(Clone, PartialEq, Debug)]
pub struct Icon {
    pub version: DmiVersion,
    pub width: u32,
    pub height: u32,
    pub states: Vec<IconState>,
}

impl Icon {
    /// The metadata of the icon, with its text as UTF-8 bytes.
    pub open spec fn model(&self) -> ManifestModel {
        ManifestModel {
            version: encode_utf8(self.version.0@),
            width: self.width,
            height: self.height,
            states: self.states@.map_values(|st: IconState| st.model()),
        }
    }

    /// No state loops zero times: a state that loops without end says `Indefinitely`,
    /// so the loop count of the metadata fixes the looping.
    pub open spec fn loops_canonical(&self) -> bool {
        forall|k: int| 0 <= k < self.states@.len() ==> (#[trigger] self.states@[k]).loop_flag != Looping::NTimes(0)
    }

    /// Every state holds no tiles.
    pub open spec fn without_tiles(&self) -> bool {
        forall|k: int| 0 <= k < self.states@.len() ==> (#[trigger] self.states@[k]).images@.len() == 0
    }

    /// The tiles of every state are those cut, in order, from the RGBA image `rgba`
    /// of `img_width` pixels a row: state after state, one tile for each direction
    /// of each frame.
    pub open spec fn tiles_from(&self, rgba: Seq<u8>, img_width: int) -> bool {
        forall|k: int| 0 <= k < self.states@.len() ==> {
            let st = #[trigger] self.states@[k];
            &&& st.images@.len() == st.dirs as int * st.frames as int
            &&& forall|j: int| 0 <= j < st.images@.len() ==> {
                let t = #[trigger] st.images@[j];
                &&& t.width == self.width
                &&& t.height == self.height
                &&& t.pixels@ == tile_at(rgba, img_width, self.width as int, self.height as int,
                    tiles_before(self.model().states, k) + j)
            }
        }
    }

    /// The metadata of the icon as bytes.
    pub fn to_meta(&self) -> (r: ManifestMeta)
        ensures
            r.model() == self.model(),
    {
        let mut states: Vec<StateMeta> = Vec::new();
        let mut i: usize = 0;
        while i < self.states.len()
            invariant
                i <= self.states@.len(),
                states@.map_values(|st: StateMeta| st.model()) == self.states@.subrange(0, i as int).map_values(
                    |st: IconState| st.model(),
                ),
            decreases self.states@.len() - i,
        {
            let m = self.states[i].to_meta();
            let ghost before = states@.map_values(|st: StateMeta| st.model());
            states.push(m);
            assert(states@.map_values(|st: StateMeta| st.model()) =~= before.push(m.model()));
            assert(self.states@.subrange(0, i + 1).map_values(|st: IconState| st.model()) =~= self.states@.subrange(
                0,
                i as int,
            ).map_values(|st: IconState| st.model()).push(self.states@[i as int].model()));
            i = i + 1;
        }
        assert(self.states@.subrange(0, i as int) =~= self.states@);
        ManifestMeta { version: string_bytes(&self.version.0), width: self.width, height: self.height, states }
    }

    /// An icon without tiles from manifest metadata, its text made into strings.
    fn from_meta(m: ManifestMeta) -> (r: Result<Icon, DmiError>)
        ensures
            r is Ok <==> texts_valid(m.model()),
            r is Ok ==> r->Ok_0.model() == m.model() && r->Ok_0.without_tiles() && r->Ok_0.loops_canonical(),
            r is Err ==> r == Err::<Icon, DmiError>(DmiError::Utf8),
    {
        let ghost mm = m.model();
        let ManifestMeta { version, width, height, states: metas } = m;
        let version = string_from_utf8(version)?;
        let mut states: Vec<IconState> = Vec::new();
        let mut metas = metas;
        let ghost all = metas@;
        let mut i: usize = 0;
        while i < metas.len()
            invariant
                i <= metas@.len(),
                metas@ == all,
                mm == m.model(),
                valid_utf8(mm.version),
                mm.states == all.map_values(|st: StateMeta| st.model()),
                forall|k: int| 0 <= k < i ==> state_texts_valid(#[trigger] mm.states[k]),
                states@.len() == i,
                forall|q: int| 0 <= q < i ==> (#[trigger] states@[q]).loop_flag != Looping::NTimes(0),
                states@.map_values(|st: IconState| st.model()) == mm.states.subrange(0, i as int),
                forall|k: int| 0 <= k < i ==> (#[trigger] states@[k]).images@.len() == 0,
            decreases metas@.len() - i,
        {
            let st = metas[i].clone_meta();
            let ghost sm = all[i as int].model();
            assert(mm.states[i as int] == sm);
            assert(st.model() == sm);
            let name = match string_from_utf8(st.name) {
                Ok(x) => x,
                Err(e) => {
                    assert(!state_texts_valid(mm.states[i as int]));
                    assert(!texts_valid(mm));
                    return Err(e);
                },
            };
            let delay = match st.delay {
                Some(d) => {
                    let ghost dv = d@;
                    match strings_from(d) {
                        Ok(x) => Some(x),
                        Err(e) => {
                            proof {
                                let q = choose|q: int| 0 <= q < dv.len() && !valid_utf8(#[trigger] dv[q]@);
                                assert(sm.delay == Some(seqs_view(dv)));
                                assert(sm.delay->Some_0[q] == dv[q]@);
                                assert(!valid_utf8(sm.delay->Some_0[q]));
                                assert(!state_texts_valid(mm.states[i as int]));
                                assert(!texts_valid(mm));
                            }
                            return Err(e);
                        },
                    }
                },
                None => None,
            };
            let unknown_settings = match st.unknown {
                Some(u) => {
                    let ghost uv = u@;
                    match string_pairs_from(u) {
                        Ok(x) => Some(x),
                        Err(e) => {
                            proof {
                                let q = choose|q: int| 0 <= q < uv.len() && !(valid_utf8((#[trigger] uv[q]).0@) && valid_utf8(uv[q].1@));
                                assert(sm.unknown == Some(pairs_view(uv)));
                                assert(sm.unknown->Some_0[q] == (uv[q].0@, uv[q].1@));
                                assert(!state_texts_valid(mm.states[i as int]));
                                assert(!texts_valid(mm));
                            }
                            return Err(e);
                        },
                    }
                },
                None => None,
            };
            let hotspot = match st.hotspot {
                Some((x, y)) => Some(Hotspot { x, y }),
                None => None,
            };
            let state = IconState {
                name,
                dirs: st.dirs,
                frames: st.frames,
                images: Vec::new(),
                delay,
                loop_flag: Looping::new(st.loop_times),
                rewind: st.rewind,
                movement: st.movement,
                hotspot,
                unknown_settings,
            };
            assert(state.model() == sm);
            let ghost before = states@.map_values(|st: IconState| st.model());
            states.push(state);
            assert(states@.map_values(|st: IconState| st.model()) =~= before.push(sm));
            assert(mm.states.subrange(0, i + 1) =~= mm.states.subrange(0, i as int).push(sm));
            i = i + 1;
        }
        assert(mm.states.subrange(0, i as int) =~= mm.states);
        let icon = Icon { version: DmiVersion(version), width, height, states };
        assert(icon.model().states =~= mm.states);
        Ok(icon)
    }

    /// The number of tiles the states take, checked against the cells of an image of
    /// `img_width` by `img_height` pixels.
    fn check_geometry(&self, img_width: u32, img_height: u32) -> (r: Result<(), DmiError>)
        ensures
            r is Ok <==> geometry_ok(self.model(), img_width as int, img_height as int),
            r is Err ==> r == Err::<(), DmiError>(DmiError::GeometryMismatch),
    {
        let ghost m = self.model();
        if self.width == 0 || self.height == 0 || img_width == 0 || img_height == 0 || img_width % self.width != 0
            || img_height % self.height != 0
        {
            return Err(DmiError::GeometryMismatch);
        }
        let cols = (img_width / self.width) as u64;
        let rows = (img_height / self.height) as u64;
        assert(cols * rows <= u32::MAX as int * u32::MAX as int) by (nonlinear_arith)
            requires cols <= u32::MAX, rows <= u32::MAX, cols >= 0, rows >= 0;
        let max = cols * rows;
        let mut index: u64 = 0;
        let mut k: usize = 0;
        while k < self.states.len()
            invariant
                k <= self.states@.len(),
                m == self.model(),
                max == (img_width / self.width) as int * (img_height / self.height) as int,
                index == tiles_before(m.states, k as int),
                index <= max,
            decreases self.states@.len() - k,
        {
            let st = &self.states[k];
            assert(m.states[k as int] == st.model());
            assert(st.dirs as int * st.frames as int <= 255 * u32::MAX as int) by (nonlinear_arith)
                requires st.dirs <= 255, st.frames <= u32::MAX;
            let count = st.dirs as u64 * st.frames as u64;
            if count > max - index {
                proof {
                    lemma_tiles_before_grows(m.states, k as int + 1, m.states.len() as int);
                }
                return Err(DmiError::GeometryMismatch);
            }
            index = index + count;
            k = k + 1;
        }
        Ok(())
    }

    /// Reads the icon from manifest text for an image of `img_width` by `img_height`
    /// pixels, without its tiles: see `icon_outcome`.
    pub fn from_manifest(text: &[u8], img_width: u32, img_height: u32) -> (r: Result<Icon, DmiError>)
        ensures
            match icon_outcome(text@, img_width as int, img_height as int) {
                Ok(m) => r is Ok && r->Ok_0.model() == m && r->Ok_0.without_tiles() && r->Ok_0.loops_canonical(),
                Err(e) => r matches Err(e2) && e2 == e,
            },
    {
        let meta = parse_manifest(text)?;
        let icon = Icon::from_meta(meta)?;
        icon.check_geometry(img_width, img_height)?;
        Ok(icon)
    }

    /// Reads the icon from manifest text and cuts its tiles from the RGBA image `rgba`
    /// of `img_width` by `img_height` pixels, in order.
    ///
    /// Fails as `icon_outcome` says, then with `Encoding` where `rgba` does not hold
    /// four bytes for each pixel.
    pub fn from_manifest_and_pixels(text: &[u8], img_width: u32, img_height: u32, rgba: &[u8]) -> (r: Result<
        Icon,
        DmiError,
    >)
        ensures
            match icon_outcome(text@, img_width as int, img_height as int) {
                Ok(m) => if rgba@.len() != img_width as int * img_height as int * 4 {
                    r == Err::<Icon, DmiError>(DmiError::Encoding)
                } else {
                    r is Ok && r->Ok_0.model() == m && r->Ok_0.tiles_from(rgba@, img_width as int)
                        && r->Ok_0.loops_canonical()
                },
                Err(e) => r matches Err(e2) && e2 == e,
            },
    {
        let icon = Icon::from_manifest(text, img_width, img_height)?;
        assert(img_width as int * img_height as int <= u32::MAX as int * u32::MAX as int) by (nonlinear_arith)
            requires img_width <= u32::MAX, img_height <= u32::MAX;
        if rgba.len() as u64 / 4 != img_width as u64 * img_height as u64 || rgba.len() % 4 != 0 {
            return Err(DmiError::Encoding);
        }
        Ok(icon.cut_tiles(rgba, img_width, img_height))
    }

    /// The icon with the states filled with tiles cut in order from `rgba`.
    fn cut_tiles(self, rgba: &[u8], img_width: u32, img_height: u32) -> (r: Icon)
        requires
            geometry_ok(self.model(), img_width as int, img_height as int),
            self.without_tiles(),
            self.loops_canonical(),
            rgba@.len() == img_width as int * img_height as int * 4,
        ensures
            r.loops_canonical(),
            r.model() == self.model(),
            r.tiles_from(rgba@, img_width as int),
    {
        let ghost m = self.model();
        let ghost old_states = self.states@;
        let Icon { version, width, height, states } = self;
        let ghost max = (img_width / width) as int * (img_height / height) as int;
        assert(max <= u32::MAX as int * u32::MAX as int) by (nonlinear_arith)
            requires max == (img_width / width) as int * (img_height / height) as int, width > 0, height > 0,
                img_width <= u32::MAX, img_height <= u32::MAX;
        let mut rest = states;
        let mut out: Vec<IconState> = Vec::new();
        let mut index: u64 = 0;
        let mut k: usize = 0;
        let n = rest.len();
        proof {
            lemma_tiles_before_grows(m.states, 0, m.states.len() as int);
        }
        while k < n
            invariant
                k <= n,
                n == old_states.len(),
                m.states == old_states.map_values(|st: IconState| st.model()),
                m.width == width,
                m.height == height,
                rest@ == old_states.subrange(k as int, n as int),
                out@.len() == k,
                forall|q: int| 0 <= q < k ==> (#[trigger] out@[q]).model() == old_states[q].model(),
                forall|q: int| 0 <= q < k ==> (#[trigger] out@[q]).loop_flag == old_states[q].loop_flag,
                forall|q: int| 0 <= q < n ==> (#[trigger] old_states[q]).loop_flag != Looping::NTimes(0),
                geometry_ok(m, img_width as int, img_height as int),
                max == (img_width / width) as int * (img_height / height) as int,
                max <= u32::MAX as int * u32::MAX as int,
                rgba@.len() == img_width as int * img_height as int * 4,
                index == tiles_before(m.states, k as int),
                forall|q: int| 0 <= q < k ==> {
                    let st = #[trigger] out@[q];
                    &&& st.images@.len() == st.dirs as int * st.frames as int
                    &&& forall|j: int| 0 <= j < st.images@.len() ==> {
                        let t = #[trigger] st.images@[j];
                        &&& t.width == width
                        &&& t.height == height
                        &&& t.pixels@ == tile_at(rgba@, img_width as int, width as int, height as int,
                            tiles_before(m.states, q) + j)
                    }
                },
            decreases n - k,
        {
            let mut st = rest.remove(0);
            assert(st == old_states[k as int]);
            assert(m.states[k as int] == st.model());
            proof {
                lemma_tiles_before_grows(m.states, k as int + 1, m.states.len() as int);
            }
            assert(st.dirs as int * st.frames as int <= 255 * u32::MAX as int) by (nonlinear_arith)
                requires st.dirs <= 255, st.frames <= u32::MAX;
            let count = st.dirs as u64 * st.frames as u64;
            let mut images: Vec<Tile> = Vec::new();
            let mut j: u64 = 0;
            while j < count
                invariant
                    j <= count,
                    count == st.dirs as int * st.frames as int,
                    index + count <= max,
                    max <= u32::MAX as int * u32::MAX as int,
                    geometry_ok(m, img_width as int, img_height as int),
                    width == m.width,
                    height == m.height,
                    max == (img_width / width) as int * (img_height / height) as int,
                    rgba@.len() == img_width as int * img_height as int * 4,
                    images@.len() == j,
                    forall|q: int| 0 <= q < j ==> {
                        let t = #[trigger] images@[q];
                        &&& t.width == width
                        &&& t.height == height
                        &&& t.pixels@ == tile_at(rgba@, img_width as int, width as int, height as int, index + q)
                    },
                decreases count - j,
            {
                let pixels = crop_tile(rgba, img_width, img_height, width, height, index + j);
                images.push(Tile { width, height, pixels });
                j = j + 1;
            }
            st.images = images;
            out.push(st);
            index = index + count;
            k = k + 1;
        }
        let r = Icon { version, width, height, states: out };
        assert(r.model().states =~= m.states);
        r
    }
}

/// The tiles before a state are no more than those before a later one.
proof fn lemma_tiles_before_grows(sts: Seq<StateModel>, a: int, b: int)
    requires
        0 <= a <= b,
    ensures
        tiles_before(sts, a) <= tiles_before(sts, b),
        tiles_before(sts, a) >= 0,
    decreases b,
{
    if b > a {
        lemma_tiles_before_grows(sts, a, b - 1);
        assert(sts[b - 1].dirs as int * sts[b - 1].frames as int >= 0) by (nonlinear_arith);
    } else if a > 0 {
        lemma_tiles_before_grows(sts, a - 1, a - 1);
        assert(sts[a - 1].dirs as int * sts[a - 1].frames as int >= 0) by (nonlinear_arith);
    }
}

/// `meta` is what `RawDmi::load_meta` reads from `b`.
pub open spec fn meta_loads(b: Seq<u8>, meta: RawDmiMetadata) -> bool {
    &&& b.len() >= 33
    &&& b.subrange(0, 8) == png_signature()
    &&& b.subrange(8, 16) == ihdr_header()
    &&& meta_outcome(b, Ok(meta))
}

/// `raw` is what `RawDmi::load` reads from `b`.
pub open spec fn raw_loads(b: Seq<u8>, raw: RawDmi) -> bool {
    &&& b.len() >= 8
    &&& b.subrange(0, 8) == png_signature()
    &&& load_outcome(b, Ok(raw))
}

/// The width and height an IHDR chunk's data states.
pub open spec fn ihdr_width(d: Seq<u8>) -> int {
    crate::bytes::be_value(d.subrange(0, 4))
}

pub open spec fn ihdr_height(d: Seq<u8>) -> int {
    crate::bytes::be_value(d.subrange(4, 8))
}

/// The icon metadata that the `zTXt` chunk of `meta` carries, for the image its IHDR
/// chunk describes.
pub open spec fn icon_of_meta(meta: RawDmiMetadata) -> Result<ManifestModel, DmiError> {
    match zlib_decompressed(meta.chunk_ztxt.data.compressed_text@) {
        None => Err(DmiError::Inflate),
        Some(t) => icon_outcome(t, ihdr_width(meta.chunk_ihdr.data@), ihdr_height(meta.chunk_ihdr.data@)),
    }
}

/// The chunks of a stream can be taken apart: the walk reaches IEND, with an IHDR
/// and an IDAT chunk among the chunks before it.
pub open spec fn chunks_complete(b: Seq<u8>) -> bool {
    &&& walk(b, 8) is Ok
    &&& of_type(walk(b, 8)->Ok_0, ihdr_type()).len() > 0
    &&& of_type(walk(b, 8)->Ok_0, idat_type()).len() > 0
}

/// `icon` is what a stream holds whose chunks are `raw` and whose metadata is `meta`:
/// the metadata `load_meta` reads, and the tiles cut from the image that the chunks
/// other than `zTXt` encode, at the size IHDR states.
pub open spec fn icon_of_full(raw: RawDmi, meta: RawDmiMetadata, icon: Icon) -> bool {
    exists|w: u32, h: u32, kind: u8, px: Seq<u8>, rgba: Seq<u8>| {
        &&& png_decoded(raw.encoded(false)) == Some((w, h, kind, px))
        &&& rgba_of(w, h, kind, px) == Ok::<Seq<u8>, DmiError>(rgba)
        &&& icon_of_meta(meta) == Ok::<ManifestModel, DmiError>(icon.model())
        &&& icon.tiles_from(rgba, ihdr_width(meta.chunk_ihdr.data@))
    }
}

/// The stream whose chunks are `raw` and whose metadata is `meta` makes an icon: the
/// image decodes to RGBA pixels of the size IHDR states, and the metadata reads.
pub open spec fn full_ok(raw: RawDmi, meta: RawDmiMetadata) -> bool {
    match png_decoded(raw.encoded(false)) {
        None => false,
        Some((w, h, kind, px)) => match rgba_of(w, h, kind, px) {
            Err(_) => false,
            Ok(rgba) => {
                &&& icon_of_meta(meta) is Ok
                &&& rgba.len() == ihdr_width(meta.chunk_ihdr.data@) * ihdr_height(meta.chunk_ihdr.data@) * 4
            },
        },
    }
}

/// A tile of the icon's size, four bytes a pixel.
pub open spec fn tile_sized(icon: Icon, t: Tile) -> bool {
    &&& t.width == icon.width
    &&& t.height == icon.height
    &&& t.pixels@.len() == icon.width as int * icon.height as int * 4
}

/// Every tile of the icon is of the icon's size.
pub open spec fn tiles_sized(icon: Icon) -> bool {
    forall|q: int, j: int| 0 <= q < icon.states@.len() && 0 <= j < icon.states@[q].images@.len() ==> tile_sized(
        icon,
        #[trigger] icon.states@[q].images@[j],
    )
}

/// The number of cell columns of the atlas for `n` tiles.
pub open spec fn atlas_cols_of(n: int) -> int {
    choose|c: int| is_atlas_cols(n, c)
}

/// `c` is the least number of at least one whose square is at least `n`.
pub open spec fn is_atlas_cols(n: int, c: int) -> bool {
    c >= 1 && c * c >= n && (c == 1 || (c - 1) * (c - 1) < n)
}

/// The atlas of the icon's tiles fits the sizes a PNG and this machine allow.
pub open spec fn atlas_fits(icon: Icon) -> bool {
    let n = all_tiles(icon.states@).len() as int;
    let cols = atlas_cols_of(n);
    let rows = atlas_rows(n, cols);
    &&& n <= u32::MAX
    &&& icon.width > 0
    &&& icon.height > 0
    &&& cols * icon.width <= u32::MAX
    &&& rows * icon.height <= u32::MAX
    &&& cols * icon.width * (rows * icon.height) * 4 <= usize::MAX
    &&& icon.width * 4 <= usize::MAX
}

proof fn lemma_cols_unique(n: int, c1: int, c2: int)
    requires
        c1 >= 1 && c1 * c1 >= n && (c1 == 1 || (c1 - 1) * (c1 - 1) < n),
        c2 >= 1 && c2 * c2 >= n && (c2 == 1 || (c2 - 1) * (c2 - 1) < n),
    ensures
        c1 == c2,
{
    if c1 < c2 {
        assert(c1 * c1 <= (c2 - 1) * (c2 - 1)) by (nonlinear_arith)
            requires 1 <= c1 <= c2 - 1;
    } else if c2 < c1 {
        assert(c2 * c2 <= (c1 - 1) * (c1 - 1)) by (nonlinear_arith)
            requires 1 <= c2 <= c1 - 1;
    }
}


proof fn lemma_concat_framings(s1: Seq<crate::chunk::RawGenericChunk>, s2: Seq<crate::chunk::RawGenericChunk>)
    requires
        crate::framings(s1) == crate::framings(s2),
    ensures
        crate::concat_chunks(s1) == crate::concat_chunks(s2),
    decreases s1.len(),
{
    assert(crate::framings(s1).len() == s1.len());
    assert(crate::framings(s2).len() == s2.len());
    if s1.len() > 0 {
        assert(crate::framings(s1.drop_last()) =~= crate::framings(s1).drop_last());
        assert(crate::framings(s2.drop_last()) =~= crate::framings(s2).drop_last());
        lemma_concat_framings(s1.drop_last(), s2.drop_last());
        assert(crate::framings(s1)[s1.len() - 1] == s1.last().encoded());
        assert(crate::framings(s2)[s2.len() - 1] == s2.last().encoded());
    }
}

/// Two readings of the same file's chunks agree on the image bytes, IHDR and `zTXt`.
proof fn lemma_raw_unique(b: Seq<u8>, r1: RawDmi, r2: RawDmi)
    requires
        raw_loads(b, r1),
        raw_loads(b, r2),
    ensures
        r1.encoded(false) == r2.encoded(false),
        r1.chunk_ihdr.data@ == r2.chunk_ihdr.data@,
        r1.chunk_ztxt is Some <==> r2.chunk_ztxt is Some,
        r1.chunk_ztxt is Some ==> r1.chunk_ztxt->Some_0.data.compressed_text@
            == r2.chunk_ztxt->Some_0.data.compressed_text@,
{
    let c = r1.chunk_ihdr.encoded();
    assert(r1.chunk_ihdr.data@ =~= c.subrange(8, c.len() - 4));
    assert(r2.chunk_ihdr.data@ =~= c.subrange(8, c.len() - 4));
    lemma_concat_framings(r1.others(), r2.others());
    lemma_concat_framings(r1.chunks_idat@, r2.chunks_idat@);
    if r1.chunk_ztxt is Some {
        let z = r1.chunk_ztxt->Some_0.encoded();
        assert(r1.chunk_ztxt->Some_0.data.encoded() =~= z.subrange(8, z.len() - 4));
        assert(r2.chunk_ztxt->Some_0.data.encoded() =~= z.subrange(8, z.len() - 4));
        lemma_ztxt_data_unique(r1.chunk_ztxt->Some_0.data, r2.chunk_ztxt->Some_0.data);
    }
    assert(r1.encoded(false) =~= r2.encoded(false));
}

/// The tiles of the states, state after state.
pub open spec fn all_tiles(sts: Seq<IconState>) -> Seq<Seq<u8>>
    decreases sts.len(),
{
    if sts.len() == 0 {
        Seq::empty()
    } else {
        all_tiles(sts.drop_last()) + sts.last().images@.map_values(|t: Tile| t.pixels@)
    }
}

/// Every state has one tile for each direction of each frame.
pub open spec fn image_counts_ok(sts: Seq<IconState>) -> bool {
    forall|k: int| 0 <= k < sts.len() ==> (#[trigger] sts[k]).images@.len() == sts[k].dirs as int * sts[k].frames as int
}

/// The number of cell rows of an atlas of `cols` columns for `n` tiles, at least one.
pub open spec fn atlas_rows(n: int, cols: int) -> int {
    if n == 0 {
        1
    } else {
        (n + cols - 1) / cols
    }
}

/// `png` is the image `save` writes for `icon`: its tiles laid out on an atlas of
/// `cols` columns, the least square that holds them without empty rows.
pub open spec fn atlas_png_of(icon: Icon, cols: int, png: Seq<u8>) -> bool {
    let tiles = all_tiles(icon.states@);
    let rows = atlas_rows(tiles.len() as int, cols);
    &&& cols >= 1
    &&& cols * cols >= tiles.len()
    &&& (cols == 1 || (cols - 1) * (cols - 1) < tiles.len())
    &&& png_encoded((cols * icon.width) as u32, (rows * icon.height) as u32, atlas(tiles, cols, icon.width as int,
        icon.height as int, rows * icon.height)) == Some(png)
}

/// `bytes` is the DMI file `save` writes for `icon`: the PNG of its atlas, taken
/// apart, with a `zTXt` chunk carrying its compressed manifest put in.
pub open spec fn saved_as(icon: Icon, bytes: Seq<u8>) -> bool {
    exists|cols: int, png: Seq<u8>, raw: RawDmi, z: crate::ztxt::RawZtxtChunk| {
        &&& atlas_png_of(icon, cols, png)
        &&& raw_loads(png, raw)
        &&& z.wf()
        &&& z.data.keyword@ == description_keyword()
        &&& z.data.compressed_text@ == zlib_compressed(manifest_text(icon.model()))
        &&& bytes == RawDmi { chunk_ztxt: Some(z), ..raw }.encoded(true)
    }
}

/// Zlib data split at its first NUL splits one way only.
pub proof fn lemma_ztxt_data_unique(a: crate::ztxt::RawZtxtData, b: crate::ztxt::RawZtxtData)
    requires
        a.wf(),
        b.wf(),
        a.encoded() == b.encoded(),
    ensures
        a.compressed_text@ == b.compressed_text@,
{
    let e = a.encoded();
    let ka = a.keyword@.len() as int;
    let kb = b.keyword@.len() as int;
    if ka < kb {
        assert(e[ka] == 0);
        assert(e[ka] == b.keyword@[ka]);
    } else if kb < ka {
        assert(e[kb] == 0);
        assert(e[kb] == a.keyword@[kb]);
    }
    assert(a.compressed_text@ =~= e.subrange(ka + 2, e.len() as int));
    assert(b.compressed_text@ =~= e.subrange(kb + 2, e.len() as int));
}

/// Two readings of the same file's metadata agree on what `icon_of_meta` reads.
pub proof fn lemma_meta_unique(bytes: Seq<u8>, m1: RawDmiMetadata, m2: RawDmiMetadata)
    requires
        meta_loads(bytes, m1),
        meta_loads(bytes, m2),
    ensures
        icon_of_meta(m1) == icon_of_meta(m2),
        m1.chunk_ihdr.data@ == m2.chunk_ihdr.data@,
{
    let c1 = m1.chunk_ihdr.encoded();
    assert(m1.chunk_ihdr.data@ =~= c1.subrange(8, c1.len() - 4));
    assert(m2.chunk_ihdr.data@ =~= c1.subrange(8, c1.len() - 4));
    let z = m1.chunk_ztxt.encoded();
    assert(m1.chunk_ztxt.data.encoded() =~= z.subrange(8, z.len() - 4));
    assert(m2.chunk_ztxt.data.encoded() =~= z.subrange(8, z.len() - 4));
    lemma_ztxt_data_unique(m1.chunk_ztxt.data, m2.chunk_ztxt.data);
}

impl Icon {
    /// Reads the metadata of a DMI file without decoding its image: the states come
    /// without tiles.
    ///
    /// Succeeds exactly where `RawDmi::load_meta` does and the manifest of the `zTXt`
    /// chunk it finds decompresses and reads as `icon_outcome` says, for the size the
    /// IHDR chunk states.
    pub fn load_meta(bytes: &[u8]) -> (r: Result<Icon, DmiError>)
        ensures
            r is Ok ==> r->Ok_0.without_tiles() && r->Ok_0.loops_canonical(),
            bytes@.len() < 8 ==> r == Err::<Icon, DmiError>(DmiError::Truncated),
            bytes@.len() >= 8 && bytes@.subrange(0, 8) != png_signature() ==> r == Err::<Icon, DmiError>(
                DmiError::InvalidSignature,
            ),
            8 <= bytes@.len() < 33 && bytes@.subrange(0, 8) == png_signature() ==> r == Err::<Icon, DmiError>(
                DmiError::Truncated,
            ),
            bytes@.len() >= 33 && bytes@.subrange(0, 8) == png_signature() && bytes@.subrange(8, 16) != ihdr_header()
                ==> r == Err::<Icon, DmiError>(DmiError::MissingIhdr),
            bytes@.len() >= 33 && bytes@.subrange(0, 8) == png_signature() && bytes@.subrange(8, 16) == ihdr_header()
                && chunk_decodes(bytes@.subrange(8, 33)) && meta_walk(bytes@, 33) == Err::<Seq<u8>, MetaFault>(
                MetaFault::NoZtxt,
            ) ==> r == Err::<Icon, DmiError>(DmiError::MissingZtxt),
            r is Ok ==> exists|meta: RawDmiMetadata| meta_loads(bytes@, meta) && icon_of_meta(meta) == Ok::<
                ManifestModel,
                DmiError,
            >(r->Ok_0.model()),
            (exists|meta: RawDmiMetadata| meta_loads(bytes@, meta) && icon_of_meta(meta) is Ok) ==> r is Ok,
    {
        let meta = RawDmi::load_meta(bytes)?;
        assert(meta_loads(bytes@, meta));
        proof {
            assert forall|m2: RawDmiMetadata| meta_loads(bytes@, m2) implies icon_of_meta(m2) == icon_of_meta(meta) by {
                lemma_meta_unique(bytes@, meta, m2);
            }
        }
        let text = meta.chunk_ztxt.data.decode()?;
        assert(meta.chunk_ihdr.data@.len() == 13) by {
            assert(meta.chunk_ihdr.encoded() == bytes@.subrange(8, 33));
        }
        let w = read_be_u32(meta.chunk_ihdr.data.as_slice(), 0);
        let h = read_be_u32(meta.chunk_ihdr.data.as_slice(), 4);
        let icon = Icon::from_manifest(text.as_slice(), w, h)?;
        Ok(icon)
    }

    /// Reads a DMI file whole: every chunk is checked as `RawDmi::load` checks it,
    /// the metadata is read as `load_meta` reads it (so the `zTXt` chunk must come
    /// before the first IDAT), and the image is decoded to RGBA with each state's
    /// tiles cut from it.
    ///
    /// Fails as `RawDmi::load` does, then as `RawDmi::load_meta` does (with
    /// `MissingZtxt` where no `zTXt` chunk comes before IDAT), then as `decode_rgba`
    /// does, then as the manifest reads (`icon_outcome`), and with `Encoding` where
    /// the pixels do not fill the size IHDR states.
    pub fn load(bytes: &[u8]) -> (r: Result<Icon, DmiError>)
        ensures
            bytes@.len() < 8 ==> r == Err::<Icon, DmiError>(DmiError::Truncated),
            bytes@.len() >= 8 && bytes@.subrange(0, 8) != png_signature() ==> r == Err::<Icon, DmiError>(
                DmiError::InvalidSignature,
            ),
            bytes@.len() >= 8 && bytes@.subrange(0, 8) == png_signature() && !chunks_complete(bytes@) ==> r is Err
                && load_outcome(bytes@, Err::<RawDmi, DmiError>(r->Err_0)),
            bytes@.len() >= 33 && bytes@.subrange(0, 8) == png_signature() && chunks_complete(bytes@)
                && bytes@.subrange(8, 16) != ihdr_header() ==> r == Err::<Icon, DmiError>(DmiError::MissingIhdr),
            bytes@.len() >= 33 && bytes@.subrange(0, 8) == png_signature() && chunks_complete(bytes@)
                && bytes@.subrange(8, 16) == ihdr_header() && chunk_decodes(bytes@.subrange(8, 33)) && meta_walk(
                bytes@,
                33,
            ) == Err::<Seq<u8>, MetaFault>(MetaFault::NoZtxt) ==> r == Err::<Icon, DmiError>(DmiError::MissingZtxt),
            r is Ok ==> r->Ok_0.loops_canonical(),
            r is Ok ==> exists|raw: RawDmi, meta: RawDmiMetadata| raw_loads(bytes@, raw) && meta_loads(bytes@, meta)
                && icon_of_full(raw, meta, r->Ok_0),
            (exists|raw: RawDmi, meta: RawDmiMetadata| raw_loads(bytes@, raw) && meta_loads(bytes@, meta) && full_ok(
                raw,
                meta,
            )) ==> r is Ok,
    {
        let raw = RawDmi::load(bytes)?;
        assert(raw_loads(bytes@, raw));
        let meta = RawDmi::load_meta(bytes)?;
        assert(meta_loads(bytes@, meta));
        proof {
            assert forall|r2: RawDmi, m2: RawDmiMetadata| raw_loads(bytes@, r2) && meta_loads(bytes@, m2) && full_ok(
                r2,
                m2,
            ) implies full_ok(raw, meta) by {
                lemma_raw_unique(bytes@, raw, r2);
                lemma_meta_unique(bytes@, meta, m2);
            }
        }
        assert(meta.chunk_ihdr.data@.len() == 13) by {
            assert(meta.chunk_ihdr.encoded() == bytes@.subrange(8, 33));
        }
        let img_width = read_be_u32(meta.chunk_ihdr.data.as_slice(), 0);
        let img_height = read_be_u32(meta.chunk_ihdr.data.as_slice(), 4);
        let mut png: Vec<u8> = Vec::new();
        raw.save(&mut png, false);
        assert(png@ =~= raw.encoded(false));
        let (w, h, rgba) = decode_rgba(png.as_slice())?;
        let text = meta.chunk_ztxt.data.decode()?;
        let icon = Icon::from_manifest_and_pixels(text.as_slice(), img_width, img_height, rgba.as_slice())?;
        proof {
            let d = png_decoded(raw.encoded(false))->Some_0;
            assert(icon_of_full(raw, meta, icon)) by {
                assert(png_decoded(raw.encoded(false)) == Some((d.0, d.1, d.2, d.3)));
            }
        }
        Ok(icon)
    }
}

impl Icon {
    /// The pixels of every tile, state after state; fails with `Generic` where a tile
    /// is not of the icon's size.
    fn collect_tiles(&self) -> (r: Result<Vec<Vec<u8>>, DmiError>)
        ensures
            r is Ok <==> tiles_sized(*self),
            r is Ok ==> seqs_view(r->Ok_0@) == all_tiles(self.states@),
            r is Ok ==> forall|i: int| 0 <= i < r->Ok_0@.len() ==> (#[trigger] r->Ok_0@[i])@.len() == self.width
                * self.height * 4,
            r is Err ==> r == Err::<Vec<Vec<u8>>, DmiError>(DmiError::Generic),
    {
        let mut out: Vec<Vec<u8>> = Vec::new();
        let mut k: usize = 0;
        assert(all_tiles(self.states@.subrange(0, 0)) =~= Seq::<Seq<u8>>::empty());
        while k < self.states.len()
            invariant
                k <= self.states@.len(),
                seqs_view(out@) == all_tiles(self.states@.subrange(0, k as int)),
                forall|i: int| 0 <= i < out@.len() ==> (#[trigger] out@[i])@.len() == self.width * self.height * 4,
                forall|q: int, j: int| 0 <= q < k && 0 <= j < self.states@[q].images@.len() ==> tile_sized(
                    *self,
                    #[trigger] self.states@[q].images@[j],
                ),
            decreases self.states@.len() - k,
        {
            let st = &self.states[k];
            let ghost base = seqs_view(out@);
            let mut j: usize = 0;
            while j < st.images.len()
                invariant
                    j <= st.images@.len(),
                    k < self.states@.len(),
                    st == self.states@[k as int],
                    seqs_view(out@) == base + st.images@.subrange(0, j as int).map_values(|t: Tile| t.pixels@),
                    forall|i: int| 0 <= i < out@.len() ==> (#[trigger] out@[i])@.len() == self.width * self.height * 4,
                    forall|q: int, jj: int| 0 <= q < k && 0 <= jj < self.states@[q].images@.len() ==> tile_sized(
                        *self,
                        #[trigger] self.states@[q].images@[jj],
                    ),
                    forall|jj: int| 0 <= jj < j ==> tile_sized(*self, #[trigger] st.images@[jj]),
                decreases st.images@.len() - j,
            {
                let t = &st.images[j];
                assert(self.width as int * self.height as int * 4 <= u32::MAX as int * u32::MAX as int * 4)
                    by (nonlinear_arith)
                    requires self.width <= u32::MAX, self.height <= u32::MAX;
                if t.width != self.width || t.height != self.height || t.pixels.len() as u128 != self.width as u128
                    * self.height as u128 * 4
                {
                    assert(!tile_sized(*self, self.states@[k as int].images@[j as int]));
                    assert(!tiles_sized(*self));
                    return Err(DmiError::Generic);
                }
                let p = copy_range(t.pixels.as_slice(), 0, t.pixels.len());
                assert(p@ =~= t.pixels@);
                let ghost before = seqs_view(out@);
                out.push(p);
                assert(seqs_view(out@) =~= before.push(t.pixels@));
                assert(st.images@.subrange(0, j + 1).map_values(|t: Tile| t.pixels@) =~= st.images@.subrange(
                    0,
                    j as int,
                ).map_values(|t: Tile| t.pixels@).push(t.pixels@));
                j = j + 1;
            }
            proof {
                let s2 = self.states@.subrange(0, k + 1);
                assert(s2.drop_last() =~= self.states@.subrange(0, k as int));
                assert(st.images@.subrange(0, j as int) =~= st.images@);
                assert forall|q: int, jj: int| 0 <= q < k + 1 && 0 <= jj < self.states@[q].images@.len() implies tile_sized(
                    *self,
                    #[trigger] self.states@[q].images@[jj],
                ) by {
                    if q == k {
                        assert(tile_sized(*self, st.images@[jj]));
                    }
                }
            }
            k = k + 1;
        }
        assert(self.states@.subrange(0, k as int) =~= self.states@);
        Ok(out)
    }

    /// Writes the icon as a DMI file to `out` and returns the number of bytes
    /// written: its tiles laid out on an atlas of about square shape and encoded as
    /// PNG, with a `zTXt` chunk carrying the manifest after IHDR.
    ///
    /// Fails with `Generic` where a state has not one tile for each direction of each
    /// frame, has more than one frame and not one delay per frame, or has a tile not
    /// of the icon's size; with `Conversion` where the atlas does not fit a PNG; and
    /// as the codec, `RawDmi::load` and `create_ztxt_chunk` do. On failure `out` is
    /// left as it was.
    pub fn save(&self, out: &mut Vec<u8>) -> (r: Result<usize, DmiError>)
        ensures
            r is Err ==> final(out)@ == old(out)@,
            !image_counts_ok(self.states@) ==> r == Err::<usize, DmiError>(DmiError::Generic),
            image_counts_ok(self.states@) && !(forall|i: int| 0 <= i < self.states@.len() ==> state_writable(
                #[trigger] self.model().states[i],
            )) ==> r == Err::<usize, DmiError>(DmiError::Generic),
            r is Ok ==> exists|b: Seq<u8>| saved_as(*self, b) && final(out)@ == old(out)@ + b && r->Ok_0 == b.len(),
            image_counts_ok(self.states@) && (forall|i: int| 0 <= i < self.states@.len() ==> state_writable(
                #[trigger] self.model().states[i],
            )) && tiles_sized(*self) && atlas_fits(*self) && (exists|png: Seq<u8>, raw: RawDmi| atlas_png_of(
                *self,
                atlas_cols_of(all_tiles(self.states@).len() as int),
                png,
            ) && raw_loads(png, raw)) && zlib_compressed(manifest_text(self.model())).len() + 13 <= u32::MAX ==> r is Ok,
    {
        let mut k: usize = 0;
        while k < self.states.len()
            invariant
                k <= self.states@.len(),
                forall|q: int| 0 <= q < k ==> (#[trigger] self.states@[q]).images@.len() == self.states@[q].dirs as int
                    * self.states@[q].frames as int,
            decreases self.states@.len() - k,
        {
            let st = &self.states[k];
            assert(st.dirs as int * st.frames as int <= 255 * u32::MAX as int) by (nonlinear_arith)
                requires st.dirs <= 255, st.frames <= u32::MAX;
            if st.images.len() as u64 != st.dirs as u64 * st.frames as u64 {
                return Err(DmiError::Generic);
            }
            k = k + 1;
        }
        let meta = self.to_meta();
        proof {
            assert forall|i: int| 0 <= i < meta.states@.len() implies #[trigger] meta.states@[i].model()
                == self.model().states[i] by {
                assert(meta.model().states[i] == meta.states@[i].model());
            }
        }
        let manifest = emit_manifest(&meta)?;
        let tiles = self.collect_tiles()?;
        let width = self.width;
        let height = self.height;
        if tiles.len() > 4294967295 || width == 0 || height == 0 {
            return Err(DmiError::Conversion);
        }
        let n = tiles.len() as u32;
        let cols = atlas_columns(n);
        proof {
            let nn = all_tiles(self.states@).len() as int;
            assert(seqs_view(tiles@).len() == tiles@.len());
            assert(nn == n);
            let c = atlas_cols_of(nn);
            assert(is_atlas_cols(nn, cols as int));
            lemma_cols_unique(nn, c, cols as int);
        }
        let rows: u64 = if n == 0 {
            1
        } else {
            (n as u64 + cols as u64 - 1) / cols as u64
        };
        assert(cols as int * width as int <= 65536 * u32::MAX as int) by (nonlinear_arith)
            requires cols <= 65536, width <= u32::MAX, cols >= 0;
        let atlas_width = cols as u64 * width as u64;
        assert(rows <= u32::MAX) by (nonlinear_arith)
            requires rows == 1 || rows == (n as int + cols as int - 1) / cols as int, cols >= 1, n <= u32::MAX;
        assert(rows as int * height as int <= u32::MAX as int * u32::MAX as int) by (nonlinear_arith)
            requires rows <= u32::MAX, height <= u32::MAX, rows >= 0;
        let atlas_height = rows * height as u64;
        if atlas_width > 4294967295 || atlas_height > 4294967295 {
            return Err(DmiError::Conversion);
        }
        assert(atlas_width as int * atlas_height as int * 4 <= u32::MAX as int * u32::MAX as int * 4)
            by (nonlinear_arith)
            requires atlas_width <= u32::MAX, atlas_height <= u32::MAX, atlas_width >= 0, atlas_height >= 0;
        let total: u128 = atlas_width as u128 * atlas_height as u128 * 4;
        if total > usize::MAX as u128 || width as u128 * 4 > usize::MAX as u128 {
            return Err(DmiError::Conversion);
        }
        assert(rows as int * height as int * cols as int * width as int * 4 == atlas_width as int * atlas_height
            as int * 4) by (nonlinear_arith)
            requires atlas_width == cols * width, atlas_height == rows * height;
        let atlas_bytes = pack_atlas(&tiles, cols, rows as u32, width, height);
        proof {
            let ts = tiles@.map_values(|t: Vec<u8>| t@);
            assert(ts == seqs_view(tiles@));
            lemma_atlas_len(ts, cols as int, width as int, height as int, rows * height);
            assert((rows * height) as int * (cols as int * width as int * 4) == atlas_width as int * atlas_height as int
                * 4) by (nonlinear_arith)
                requires atlas_width == cols * width, atlas_height == rows * height;
        }
        let png = encode_rgba(atlas_width as u32, atlas_height as u32, atlas_bytes.as_slice())?;
        let raw = RawDmi::load(png.as_slice())?;
        let ghost raw0 = raw;
        let z = create_ztxt_chunk(manifest.as_slice())?;
        let ghost zz = z;
        let mut raw = raw;
        raw.chunk_ztxt = Some(z);
        let mut written: Vec<u8> = Vec::new();
        raw.save(&mut written, true);
        proof {
            let ts = all_tiles(self.states@);
            assert(seqs_view(tiles@) == ts);
            assert(tiles@.map_values(|t: Vec<u8>| t@) == ts);
            assert(atlas_rows(ts.len() as int, cols as int) == rows);
            assert(atlas_png_of(*self, cols as int, png@));
            assert(raw_loads(png@, raw0));
            assert(raw == RawDmi { chunk_ztxt: Some(zz), ..raw0 });
            assert(meta.model() == self.model());
            assert(saved_as(*self, written@));
        }
        let count = written.len();
        crate::bytes::push_all(out, written.as_slice());
        Ok(count)
    }
}

} // verus!
