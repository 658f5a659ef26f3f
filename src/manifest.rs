use vstd::prelude::*;

use crate::bytes::copy_range;
use crate::error::DmiError;
use crate::line::{parse_dmi_line, split_bytes, split_line, split_lines, split_pieces, text_lines};
use crate::text::{parse_uint, parse_uint_exec};

verus! {

pub open spec fn key_dirs() -> Seq<u8> {
    seq![9u8, 100, 105, 114, 115]
}

pub open spec fn key_frames() -> Seq<u8> {
    seq![9u8, 102, 114, 97, 109, 101, 115]
}

pub open spec fn key_delay() -> Seq<u8> {
    seq![9u8, 100, 101, 108, 97, 121]
}

pub open spec fn key_loop() -> Seq<u8> {
    seq![9u8, 108, 111, 111, 112]
}

pub open spec fn key_rewind() -> Seq<u8> {
    seq![9u8, 114, 101, 119, 105, 110, 100]
}

pub open spec fn key_movement() -> Seq<u8> {
    seq![9u8, 109, 111, 118, 101, 109, 101, 110, 116]
}

pub open spec fn key_hotspot() -> Seq<u8> {
    seq![9u8, 104, 111, 116, 115, 112, 111, 116]
}

pub open spec fn key_width() -> Seq<u8> {
    seq![9u8, 119, 105, 100, 116, 104]
}

pub open spec fn key_height() -> Seq<u8> {
    seq![9u8, 104, 101, 105, 103, 104, 116]
}

pub open spec fn key_version() -> Seq<u8> {
    seq![118u8, 101, 114, 115, 105, 111, 110]
}

pub open spec fn key_state() -> Seq<u8> {
    seq![115u8, 116, 97, 116, 101]
}

/// The line that opens a manifest.
pub open spec fn begin_line() -> Seq<u8> {
    seq![35u8, 32, 66, 69, 71, 73, 78, 32, 68, 77, 73]
}

/// The line that closes a manifest.
pub open spec fn end_line() -> Seq<u8> {
    seq![35u8, 32, 69, 78, 68, 32, 68, 77, 73]
}

/// The keys of state attributes that have a meaning of their own.
pub open spec fn is_known_key(k: Seq<u8>) -> bool {
    k == key_dirs() || k == key_frames() || k == key_delay() || k == key_loop() || k == key_rewind()
        || k == key_movement() || k == key_hotspot()
}

/// Decimal digits with at most one point, and at least one digit.
pub open spec fn is_decimal(t: Seq<u8>) -> bool {
    &&& t.len() > 0
    &&& forall|i: int| 0 <= i < t.len() ==> (48 <= #[trigger] t[i] <= 57 || t[i] == 46)
    &&& exists|i: int| 0 <= i < t.len() && 48 <= #[trigger] t[i] <= 57
    &&& forall|i: int, j: int| 0 <= i < j < t.len() && #[trigger] t[i] == 46 ==> #[trigger] t[j] != 46
}

/// A byte that may stand in a delay: a digit, a point, a sign or an exponent mark.
pub open spec fn delay_byte(c: u8) -> bool {
    (48 <= c <= 57) || c == 46 || c == 43 || c == 45 || c == 101 || c == 69
}

/// One where a sign stands at `i`, else zero.
pub open spec fn sign_len(t: Seq<u8>, i: int) -> int {
    if 0 <= i < t.len() && (t[i] == 43 || t[i] == 45) {
        1
    } else {
        0
    }
}

/// The position of the first exponent mark at or after `i`, or the length.
pub open spec fn exp_at(t: Seq<u8>, i: int) -> int
    decreases t.len() - i,
{
    if i < 0 || i >= t.len() {
        t.len() as int
    } else if t[i] == 101 || t[i] == 69 {
        i
    } else {
        exp_at(t, i + 1)
    }
}

/// A delay as the manifest writes it, a decimal number as a float reader takes it:
/// an optional sign, decimal digits with at most one point, and an optional
/// exponent of `e` or `E`, an optional sign and one or more digits.
/// Infinities and not-a-number (`inf`, `infinity`, `nan`), which a float reader also
/// takes, are no delays here: a manifest that holds one fails with `ParseFloat`.
pub open spec fn is_delay_token(t: Seq<u8>) -> bool {
    let s = sign_len(t, 0);
    let e = exp_at(t, s);
    &&& t.len() > 0
    &&& forall|i: int| 0 <= i < t.len() ==> delay_byte(#[trigger] t[i])
    &&& is_decimal(t.subrange(s, e))
    &&& e < t.len() ==> e + 1 + sign_len(t, e + 1) < t.len() && forall|i: int|
        e + 1 + sign_len(t, e + 1) <= i < t.len() ==> 48 <= #[trigger] t[i] <= 57
}

/// The metadata of one icon state, as the manifest gives it.
pub struct StateModel {
    pub name: Seq<u8>,
    pub dirs: u8,
    pub frames: u32,
    pub delay: Option<Seq<Seq<u8>>>,
    /// How often the animation plays; zero for without end.
    pub loop_times: u32,
    pub rewind: bool,
    pub movement: bool,
    pub hotspot: Option<(u32, u32)>,
    pub unknown: Option<Seq<(Seq<u8>, Seq<u8>)>>,
}

/// The attributes read so far for a state.
pub struct AttrModel {
    pub dirs: Option<u8>,
    pub frames: Option<u32>,
    pub delay: Option<Seq<Seq<u8>>>,
    pub loop_times: u32,
    pub rewind: bool,
    pub movement: bool,
    pub hotspot: Option<(u32, u32)>,
    pub unknown: Option<Seq<(Seq<u8>, Seq<u8>)>>,
}

/// A whole manifest.
pub struct ManifestModel {
    pub version: Seq<u8>,
    pub width: u32,
    pub height: u32,
    pub states: Seq<StateModel>,
}

pub open spec fn attr_init() -> AttrModel {
    AttrModel {
        dirs: None,
        frames: None,
        delay: None,
        loop_times: 0,
        rewind: false,
        movement: false,
        hotspot: None,
        unknown: None,
    }
}

pub open spec fn has_key(s: Seq<(Seq<u8>, Seq<u8>)>, k: Seq<u8>) -> bool {
    exists|i: int| 0 <= i < s.len() && (#[trigger] s[i]).0 == k
}

/// Records an unknown setting: a key already there gets the new value.
pub open spec fn insert_setting(u: Option<Seq<(Seq<u8>, Seq<u8>)>>, k: Seq<u8>, v: Seq<u8>) -> Option<
    Seq<(Seq<u8>, Seq<u8>)>,
> {
    match u {
        None => Some(seq![(k, v)]),
        Some(s) => if has_key(s, k) {
            Some(s.map_values(|p: (Seq<u8>, Seq<u8>)| if p.0 == k { (k, v) } else { p }))
        } else {
            Some(s.push((k, v)))
        },
    }
}

/// What one attribute line `k = v` does to the attributes of a state.
pub open spec fn apply_attr(a: AttrModel, k: Seq<u8>, v: Seq<u8>) -> Result<AttrModel, DmiError> {
    if k == key_dirs() {
        match parse_uint(v, 255) {
            None => Err(DmiError::ParseInt),
            Some(x) => if x == 1 || x == 4 || x == 8 {
                Ok(AttrModel { dirs: Some(x as u8), ..a })
            } else {
                Err(DmiError::ManifestSyntax)
            },
        }
    } else if k == key_frames() {
        match parse_uint(v, u32::MAX as int) {
            None => Err(DmiError::ParseInt),
            Some(x) => if x == 0 {
                Err(DmiError::ManifestSyntax)
            } else {
                Ok(AttrModel { frames: Some(x as u32), ..a })
            },
        }
    } else if k == key_delay() {
        let ps = split_pieces(v, 44);
        if forall|i: int| 0 <= i < ps.len() ==> is_delay_token(#[trigger] ps[i]) {
            Ok(AttrModel { delay: Some(ps), ..a })
        } else {
            Err(DmiError::ParseFloat)
        }
    } else if k == key_loop() {
        match parse_uint(v, u32::MAX as int) {
            None => Err(DmiError::ParseInt),
            Some(x) => Ok(AttrModel { loop_times: x as u32, ..a }),
        }
    } else if k == key_rewind() {
        match parse_uint(v, 255) {
            None => Err(DmiError::ParseInt),
            Some(x) => Ok(AttrModel { rewind: x != 0, ..a }),
        }
    } else if k == key_movement() {
        match parse_uint(v, 255) {
            None => Err(DmiError::ParseInt),
            Some(x) => Ok(AttrModel { movement: x != 0, ..a }),
        }
    } else if k == key_hotspot() {
        let ps = split_pieces(v, 44);
        if ps.len() != 3 {
            Err(DmiError::ManifestSyntax)
        } else {
            match (parse_uint(ps[0], u32::MAX as int), parse_uint(ps[1], u32::MAX as int)) {
                (Some(x), Some(y)) => Ok(AttrModel { hotspot: Some((x as u32, y as u32)), ..a }),
                _ => Err(DmiError::ParseInt),
            }
        }
    } else {
        Ok(AttrModel { unknown: insert_setting(a.unknown, k, v), ..a })
    }
}

/// The state named `name` with the attributes `a`, which hold both dirs and frames.
pub open spec fn finish_state(name: Seq<u8>, a: AttrModel) -> StateModel {
    StateModel {
        name,
        dirs: a.dirs->Some_0,
        frames: a.frames->Some_0,
        delay: a.delay,
        loop_times: a.loop_times,
        rewind: a.rewind,
        movement: a.movement,
        hotspot: a.hotspot,
        unknown: a.unknown,
    }
}

/// The key of a line: what precedes its first `" = "`, or the whole line.
pub open spec fn key_of(l: Seq<u8>) -> Seq<u8> {
    match crate::line::find_sep_from(l, 0) {
        Some(k) => l.subrange(0, k),
        None => l,
    }
}

/// The width and height lines after the version, at most two of them, in either
/// order, from line `i` on; gives them with the line that follows.
pub open spec fn parse_dims(ls: Seq<Seq<u8>>, i: int, count: int, w: Option<u32>, h: Option<u32>) -> Result<
    (Option<u32>, Option<u32>, int),
    DmiError,
>
    decreases 2 - count,
{
    if count >= 2 {
        Ok((w, h, i))
    } else if i < 0 || i >= ls.len() {
        Err(DmiError::ManifestSyntax)
    } else if key_of(ls[i]) == key_width() || key_of(ls[i]) == key_height() {
        match split_line(ls[i], false, false) {
            Err(e) => Err(e),
            Ok((k, v)) => match parse_uint(v, u32::MAX as int) {
                None => Err(DmiError::ParseInt),
                Some(x) => if key_of(ls[i]) == key_width() {
                    parse_dims(ls, i + 1, count + 1, Some(x as u32), h)
                } else {
                    parse_dims(ls, i + 1, count + 1, w, Some(x as u32))
                },
            },
        }
    } else {
        Ok((w, h, i))
    }
}

/// A line that continues the attributes of a state: it starts with a tab.
pub open spec fn is_attr_line(l: Seq<u8>) -> bool {
    l != end_line() && l.len() > 0 && l[0] == 9
}

/// The states from line `i` on, with `cur` the state being read and `done` those
/// read before it, up to the end line.
pub open spec fn parse_body(
    ls: Seq<Seq<u8>>,
    i: int,
    cur: Option<(Seq<u8>, AttrModel)>,
    done: Seq<StateModel>,
) -> Result<Seq<StateModel>, DmiError>
    decreases ls.len() - i, (if cur is Some { 1int } else { 0int }),
{
    if i < 0 || i >= ls.len() {
        Err(DmiError::ManifestSyntax)
    } else {
        match cur {
            None => if ls[i] == end_line() {
                Ok(done)
            } else {
                match split_line(ls[i], true, true) {
                    Err(e) => Err(e),
                    Ok((k, name)) => if k != key_state() {
                        Err(DmiError::ManifestSyntax)
                    } else {
                        parse_body(ls, i + 1, Some((name, attr_init())), done)
                    },
                }
            },
            Some((name, a)) => if !is_attr_line(ls[i]) {
                if a.dirs is None || a.frames is None {
                    Err(DmiError::ManifestSyntax)
                } else {
                    parse_body(ls, i, None, done.push(finish_state(name, a)))
                }
            } else {
                match split_line(ls[i], false, false) {
                    Err(e) => Err(e),
                    Ok((k, v)) => match apply_attr(a, k, v) {
                        Err(e) => Err(e),
                        Ok(a2) => parse_body(ls, i + 1, Some((name, a2)), done),
                    },
                }
            },
        }
    }
}

/// The header of a manifest: its version, width and height, and the line where its
/// states begin.
///
/// The first line opens the manifest; the second gives the version; width and
/// height lines may follow, each defaulting to 32 and neither zero.
pub open spec fn parse_header(ls: Seq<Seq<u8>>) -> Result<(Seq<u8>, u32, u32, int), DmiError> {
    if ls.len() < 2 || ls[0] != begin_line() {
        Err(DmiError::ManifestSyntax)
    } else {
        match split_line(ls[1], false, false) {
            Err(e) => Err(e),
            Ok((k, version)) => if k != key_version() {
                Err(DmiError::ManifestSyntax)
            } else {
                match parse_dims(ls, 2, 0, None, None) {
                    Err(e) => Err(e),
                    Ok((w, h, i)) => if w == Some(0u32) || h == Some(0u32) {
                        Err(DmiError::Generic)
                    } else {
                        Ok(
                            (
                                version,
                                match w {
                                    Some(x) => x,
                                    None => 32,
                                },
                                match h {
                                    Some(x) => x,
                                    None => 32,
                                },
                                i,
                            ),
                        )
                    },
                }
            },
        }
    }
}

/// The manifest that the lines `ls` spell: its header, then the states, each a
/// `state = "name"` line with attribute lines after it, up to the end line.
pub open spec fn parse_lines(ls: Seq<Seq<u8>>) -> Result<ManifestModel, DmiError> {
    match parse_header(ls) {
        Err(e) => Err(e),
        Ok((version, width, height, i)) => match parse_body(ls, i, None, Seq::empty()) {
            Err(e) => Err(e),
            Ok(states) => Ok(ManifestModel { version, width, height, states }),
        },
    }
}

/// The manifest that the text `t` spells.
pub open spec fn parse_manifest_spec(t: Seq<u8>) -> Result<ManifestModel, DmiError> {
    parse_lines(text_lines(t))
}

pub open spec fn seqs_view(v: Seq<Vec<u8>>) -> Seq<Seq<u8>> {
    v.map_values(|x: Vec<u8>| x@)
}

pub open spec fn pairs_view(v: Seq<(Vec<u8>, Vec<u8>)>) -> Seq<(Seq<u8>, Seq<u8>)> {
    v.map_values(|p: (Vec<u8>, Vec<u8>)| (p.0@, p.1@))
}

pub open spec fn delay_view(o: Option<Vec<Vec<u8>>>) -> Option<Seq<Seq<u8>>> {
    match o {
        Some(v) => Some(seqs_view(v@)),
        None => None,
    }
}

pub open spec fn unknown_view(o: Option<Vec<(Vec<u8>, Vec<u8>)>>) -> Option<Seq<(Seq<u8>, Seq<u8>)>> {
    match o {
        Some(v) => Some(pairs_view(v@)),
        None => None,
    }
}

/// The metadata of one icon state, with its text as bytes.
#[derive(Clone, Debug)]
pub struct StateMeta {
    pub name: Vec<u8>,
    pub dirs: u8,
    pub frames: u32,
    pub delay: Option<Vec<Vec<u8>>>,
    pub loop_times: u32,
    pub rewind: bool,
    pub movement: bool,
    pub hotspot: Option<(u32, u32)>,
    pub unknown: Option<Vec<(Vec<u8>, Vec<u8>)>>,
}

impl StateMeta {
    /// A copy of the metadata.
    pub fn clone_meta(&self) -> (r: StateMeta)
        ensures
            r.model() == self.model(),
    {
        let delay = match &self.delay {
            Some(d) => {
                let mut v: Vec<Vec<u8>> = Vec::new();
                let mut i: usize = 0;
                while i < d.len()
                    invariant
                        i <= d@.len(),
                        seqs_view(v@) == seqs_view(d@.subrange(0, i as int)),
                    decreases d@.len() - i,
                {
                    let c = copy_range(d[i].as_slice(), 0, d[i].len());
                    assert(c@ =~= d@[i as int]@);
                    let ghost before = seqs_view(v@);
                    v.push(c);
                    assert(seqs_view(v@) =~= before.push(d@[i as int]@));
                    assert(seqs_view(d@.subrange(0, i + 1)) =~= seqs_view(d@.subrange(0, i as int)).push(d@[i as int]@));
                    i = i + 1;
                }
                assert(d@.subrange(0, i as int) =~= d@);
                Some(v)
            },
            None => None,
        };
        let unknown = match &self.unknown {
            Some(u) => {
                let mut v: Vec<(Vec<u8>, Vec<u8>)> = Vec::new();
                let mut i: usize = 0;
                while i < u.len()
                    invariant
                        i <= u@.len(),
                        pairs_view(v@) == pairs_view(u@.subrange(0, i as int)),
                    decreases u@.len() - i,
                {
                    let a = copy_range(u[i].0.as_slice(), 0, u[i].0.len());
                    let b = copy_range(u[i].1.as_slice(), 0, u[i].1.len());
                    assert(a@ =~= u@[i as int].0@);
                    assert(b@ =~= u@[i as int].1@);
                    let ghost before = pairs_view(v@);
                    let ghost pair = (a@, b@);
                    v.push((a, b));
                    assert(pairs_view(v@) =~= before.push(pair));
                    assert(pairs_view(u@.subrange(0, i + 1)) =~= pairs_view(u@.subrange(0, i as int)).push(
                        (u@[i as int].0@, u@[i as int].1@),
                    ));
                    i = i + 1;
                }
                assert(u@.subrange(0, i as int) =~= u@);
                Some(v)
            },
            None => None,
        };
        let name = copy_range(self.name.as_slice(), 0, self.name.len());
        assert(name@ =~= self.name@);
        StateMeta {
            name,
            dirs: self.dirs,
            frames: self.frames,
            delay,
            loop_times: self.loop_times,
            rewind: self.rewind,
            movement: self.movement,
            hotspot: self.hotspot,
            unknown,
        }
    }

    pub open spec fn model(&self) -> StateModel {
        StateModel {
            name: self.name@,
            dirs: self.dirs,
            frames: self.frames,
            delay: delay_view(self.delay),
            loop_times: self.loop_times,
            rewind: self.rewind,
            movement: self.movement,
            hotspot: self.hotspot,
            unknown: unknown_view(self.unknown),
        }
    }
}

/// The attributes read so far for a state.
struct AttrMeta {
    dirs: Option<u8>,
    frames: Option<u32>,
    delay: Option<Vec<Vec<u8>>>,
    loop_times: u32,
    rewind: bool,
    movement: bool,
    hotspot: Option<(u32, u32)>,
    unknown: Option<Vec<(Vec<u8>, Vec<u8>)>>,
}

impl AttrMeta {
    spec fn model(&self) -> AttrModel {
        AttrModel {
            dirs: self.dirs,
            frames: self.frames,
            delay: delay_view(self.delay),
            loop_times: self.loop_times,
            rewind: self.rewind,
            movement: self.movement,
            hotspot: self.hotspot,
            unknown: unknown_view(self.unknown),
        }
    }
}

/// A whole manifest, with its text as bytes.
#[derive(Clone, Debug)]
pub struct ManifestMeta {
    pub version: Vec<u8>,
    pub width: u32,
    pub height: u32,
    pub states: Vec<StateMeta>,
}

impl ManifestMeta {
    pub open spec fn model(&self) -> ManifestModel {
        ManifestModel {
            version: self.version@,
            width: self.width,
            height: self.height,
            states: self.states@.map_values(|st: StateMeta| st.model()),
        }
    }
}

/// Whether two byte sequences are equal.
pub fn bytes_eq(a: &[u8], b: &[u8]) -> (r: bool)
    ensures
        r == (a@ == b@),
{
    if a.len() != b.len() {
        return false;
    }
    let mut i: usize = 0;
    while i < a.len()
        invariant
            i <= a@.len(),
            a@.len() == b@.len(),
            forall|j: int| 0 <= j < i ==> a@[j] == b@[j],
        decreases a@.len() - i,
    {
        if a[i] != b[i] {
            return false;
        }
        i = i + 1;
    }
    assert(a@ =~= b@);
    true
}

fn is_delay_token_exec(t: &[u8]) -> (r: bool)
    ensures
        r == is_delay_token(t@),
{
    let n = t.len();
    if n == 0 {
        return false;
    }
    let mut i: usize = 0;
    while i < n
        invariant
            i <= n,
            n == t@.len(),
            forall|j: int| 0 <= j < i ==> delay_byte(#[trigger] t@[j]),
        decreases n - i,
    {
        let c = t[i];
        if !((48 <= c && c <= 57) || c == 46 || c == 43 || c == 45 || c == 101 || c == 69) {
            assert(!delay_byte(t@[i as int]));
            return false;
        }
        i = i + 1;
    }
    let s: usize = if t[0] == 43 || t[0] == 45 { 1 } else { 0 };
    assert(s as int == sign_len(t@, 0));
    let mut e: usize = s;
    while e < n && t[e] != 101 && t[e] != 69
        invariant
            s <= e <= n,
            n == t@.len(),
            exp_at(t@, s as int) == exp_at(t@, e as int),
        decreases n - e,
    {
        e = e + 1;
    }
    assert(exp_at(t@, s as int) == e as int);
    if e < s || !is_decimal_exec(&t[s..e]) {
        return false;
    }
    if e < n {
        let s2: usize = if e + 1 < n && (t[e + 1] == 43 || t[e + 1] == 45) { 1 } else { 0 };
        assert(s2 as int == sign_len(t@, e + 1));
        let first = e + 1 + s2;
        if first >= n {
            return false;
        }
        let mut j: usize = first;
        while j < n
            invariant
                first <= j <= n,
                n == t@.len(),
                e < n,
                s as int == sign_len(t@, 0),
                exp_at(t@, s as int) == e as int,
                first as int == e + 1 + sign_len(t@, e + 1),
                forall|q: int| first <= q < j ==> 48 <= #[trigger] t@[q] <= 57,
            decreases n - j,
        {
            if t[j] < 48 || t[j] > 57 {
                assert(!(48 <= t@[j as int] <= 57));
                return false;
            }
            j = j + 1;
        }
    }
    true
}

fn is_decimal_exec(t: &[u8]) -> (r: bool)
    ensures
        r == is_decimal(t@),
{
    if t.len() == 0 {
        return false;
    }
    let mut seen_point = false;
    let mut seen_digit = false;
    let mut i: usize = 0;
    while i < t.len()
        invariant
            i <= t@.len(),
            t@.len() > 0,
            forall|j: int| 0 <= j < i ==> (48 <= #[trigger] t@[j] <= 57 || t@[j] == 46),
            seen_digit == (exists|j: int| 0 <= j < i && 48 <= #[trigger] t@[j] <= 57),
            seen_point == (exists|j: int| 0 <= j < i && #[trigger] t@[j] == 46),
            forall|a: int, b: int| 0 <= a < b < i && #[trigger] t@[a] == 46 ==> #[trigger] t@[b] != 46,
        decreases t@.len() - i,
    {
        let c = t[i];
        if c == 46 {
            if seen_point {
                let ghost a = choose|j: int| 0 <= j < i && #[trigger] t@[j] == 46;
                assert(t@[a] == 46 && t@[i as int] == 46);
                return false;
            }
            seen_point = true;
        } else if 48 <= c && c <= 57 {
            seen_digit = true;
        } else {
            assert(!(48 <= t@[i as int] <= 57 || t@[i as int] == 46));
            return false;
        }
        i = i + 1;
    }
    seen_digit
}

/// Records an unknown setting: see `insert_setting`.
fn insert_setting_exec(u: Option<Vec<(Vec<u8>, Vec<u8>)>>, k: &[u8], v: &[u8]) -> (r: Option<
    Vec<(Vec<u8>, Vec<u8>)>,
>)
    ensures
        unknown_view(r) == insert_setting(unknown_view(u), k@, v@),
{
    match u {
        None => {
            let mut s: Vec<(Vec<u8>, Vec<u8>)> = Vec::new();
            let kk = copy_range(k, 0, k.len());
            let vv = copy_range(v, 0, v.len());
            assert(kk@ =~= k@ && vv@ =~= v@);
            s.push((kk, vv));
            assert(s@[0].0@ == k@ && s@[0].1@ == v@);
            assert(pairs_view(s@) =~= seq![(k@, v@)]);
            Some(s)
        },
        Some(s) => {
            let ghost sv = pairs_view(s@);
            let mut out: Vec<(Vec<u8>, Vec<u8>)> = Vec::new();
            let mut found = false;
            let mut i: usize = 0;
            while i < s.len()
                invariant
                    i <= s@.len(),
                    sv == pairs_view(s@),
                    pairs_view(out@) == sv.subrange(0, i as int).map_values(
                        |p: (Seq<u8>, Seq<u8>)| if p.0 == k@ { (k@, v@) } else { p },
                    ),
                    found == has_key(sv.subrange(0, i as int), k@),
                decreases s@.len() - i,
            {
                let ghost before = pairs_view(out@);
                let same = bytes_eq(s[i].0.as_slice(), k);
                if same {
                    let kk = copy_range(k, 0, k.len());
                    let vv = copy_range(v, 0, v.len());
                    assert(kk@ =~= k@ && vv@ =~= v@);
                    out.push((kk, vv));
                    found = true;
                } else {
                    let kk = copy_range(s[i].0.as_slice(), 0, s[i].0.len());
                    let vv = copy_range(s[i].1.as_slice(), 0, s[i].1.len());
                    assert(kk@ =~= s@[i as int].0@ && vv@ =~= s@[i as int].1@);
                    out.push((kk, vv));
                }
                proof {
                    let f = |p: (Seq<u8>, Seq<u8>)| if p.0 == k@ { (k@, v@) } else { p };
                    assert(sv[i as int] == (s@[i as int].0@, s@[i as int].1@));
                    assert(pairs_view(out@) =~= before.push(f(sv[i as int])));
                    assert(sv.subrange(0, i + 1).map_values(f) =~= sv.subrange(0, i as int).map_values(f).push(f(sv[i as int])));
                    if same {
                        assert(sv.subrange(0, i + 1)[i as int].0 == k@);
                    } else if has_key(sv.subrange(0, i + 1), k@) {
                        let j = choose|j: int| 0 <= j < i + 1 && (#[trigger] sv.subrange(0, i + 1)[j]).0 == k@;
                        assert(sv.subrange(0, i as int)[j].0 == k@);
                    }
                    if has_key(sv.subrange(0, i as int), k@) {
                        let j = choose|j: int| 0 <= j < i && (#[trigger] sv.subrange(0, i as int)[j]).0 == k@;
                        assert(sv.subrange(0, i + 1)[j].0 == k@);
                    }
                }
                i = i + 1;
            }
            assert(sv.subrange(0, i as int) =~= sv);
            if found {
                Some(out)
            } else {
                let ghost before = pairs_view(out@);
                assert(before =~= sv) by {
                    assert forall|j: int| 0 <= j < sv.len() implies before[j] == sv[j] by {
                        if sv[j].0 == k@ {
                            assert(has_key(sv, k@));
                        }
                    }
                }
                let kk = copy_range(k, 0, k.len());
                let vv = copy_range(v, 0, v.len());
                assert(kk@ =~= k@ && vv@ =~= v@);
                out.push((kk, vv));
                assert(pairs_view(out@) =~= sv.push((k@, v@)));
                Some(out)
            }
        },
    }
}

fn all_delay_tokens(ps: &Vec<Vec<u8>>) -> (r: bool)
    ensures
        r == (forall|j: int| 0 <= j < ps@.len() ==> is_delay_token(#[trigger] seqs_view(ps@)[j])),
{
    let mut i: usize = 0;
    while i < ps.len()
        invariant
            i <= ps@.len(),
            forall|j: int| 0 <= j < i ==> is_delay_token(#[trigger] seqs_view(ps@)[j]),
        decreases ps@.len() - i,
    {
        if !is_delay_token_exec(ps[i].as_slice()) {
            assert(!is_delay_token(seqs_view(ps@)[i as int]));
            return false;
        }
        i = i + 1;
    }
    true
}

/// Applies one attribute line `k = v` to the attributes of a state: see `apply_attr`.
fn apply_attr_exec(a: AttrMeta, k: &[u8], v: &[u8]) -> (r: Result<AttrMeta, DmiError>)
    ensures
        match apply_attr(a.model(), k@, v@) {
            Ok(m) => r is Ok && r->Ok_0.model() == m,
            Err(e) => r matches Err(e2) && e2 == e,
        },
{
    let k_dirs: [u8; 5] = [9, 100, 105, 114, 115];
    let k_frames: [u8; 7] = [9, 102, 114, 97, 109, 101, 115];
    let k_delay: [u8; 6] = [9, 100, 101, 108, 97, 121];
    let k_loop: [u8; 5] = [9, 108, 111, 111, 112];
    let k_rewind: [u8; 7] = [9, 114, 101, 119, 105, 110, 100];
    let k_movement: [u8; 9] = [9, 109, 111, 118, 101, 109, 101, 110, 116];
    let k_hotspot: [u8; 8] = [9, 104, 111, 116, 115, 112, 111, 116];
    assert(k_dirs@ =~= key_dirs());
    assert(k_frames@ =~= key_frames());
    assert(k_delay@ =~= key_delay());
    assert(k_loop@ =~= key_loop());
    assert(k_rewind@ =~= key_rewind());
    assert(k_movement@ =~= key_movement());
    assert(k_hotspot@ =~= key_hotspot());
    let mut a = a;
    if bytes_eq(k, &k_dirs) {
        match parse_uint_exec(v, 255) {
            None => Err(DmiError::ParseInt),
            Some(x) => if x == 1 || x == 4 || x == 8 {
                a.dirs = Some(x as u8);
                Ok(a)
            } else {
                Err(DmiError::ManifestSyntax)
            },
        }
    } else if bytes_eq(k, &k_frames) {
        match parse_uint_exec(v, 4294967295) {
            None => Err(DmiError::ParseInt),
            Some(x) => if x == 0 {
                Err(DmiError::ManifestSyntax)
            } else {
                a.frames = Some(x);
                Ok(a)
            },
        }
    } else if bytes_eq(k, &k_delay) {
        let ps = split_bytes(v, 44);
        if !all_delay_tokens(&ps) {
            return Err(DmiError::ParseFloat);
        }
        a.delay = Some(ps);
        Ok(a)
    } else if bytes_eq(k, &k_loop) {
        match parse_uint_exec(v, 4294967295) {
            None => Err(DmiError::ParseInt),
            Some(x) => {
                a.loop_times = x;
                Ok(a)
            },
        }
    } else if bytes_eq(k, &k_rewind) {
        match parse_uint_exec(v, 255) {
            None => Err(DmiError::ParseInt),
            Some(x) => {
                a.rewind = x != 0;
                Ok(a)
            },
        }
    } else if bytes_eq(k, &k_movement) {
        match parse_uint_exec(v, 255) {
            None => Err(DmiError::ParseInt),
            Some(x) => {
                a.movement = x != 0;
                Ok(a)
            },
        }
    } else if bytes_eq(k, &k_hotspot) {
        let ps = split_bytes(v, 44);
        if ps.len() != 3 {
            return Err(DmiError::ManifestSyntax);
        }
        assert(ps@[0]@ == split_pieces(v@, 44)[0]);
        assert(ps@[1]@ == split_pieces(v@, 44)[1]);
        let x = parse_uint_exec(ps[0].as_slice(), 4294967295);
        let y = parse_uint_exec(ps[1].as_slice(), 4294967295);
        match (x, y) {
            (Some(x), Some(y)) => {
                a.hotspot = Some((x, y));
                Ok(a)
            },
            _ => Err(DmiError::ParseInt),
        }
    } else {
        let unknown = insert_setting_exec(a.unknown, k, v);
        a.unknown = unknown;
        Ok(a)
    }
}

/// Reads the header of a manifest's lines: see `parse_header`.
fn read_dmi_headers(lines: &Vec<Vec<u8>>) -> (r: Result<(Vec<u8>, u32, u32, usize), DmiError>)
    ensures
        match parse_header(seqs_view(lines@)) {
            Ok((v, w, h, i)) => r is Ok && r->Ok_0.0@ == v && r->Ok_0.1 == w && r->Ok_0.2 == h && r->Ok_0.3 == i,
            Err(e) => r matches Err(e2) && e2 == e,
        },
{
    let ghost ls = seqs_view(lines@);
    let begin: [u8; 11] = [35, 32, 66, 69, 71, 73, 78, 32, 68, 77, 73];
    let k_version: [u8; 7] = [118, 101, 114, 115, 105, 111, 110];
    let k_width: [u8; 6] = [9, 119, 105, 100, 116, 104];
    let k_height: [u8; 7] = [9, 104, 101, 105, 103, 104, 116];
    assert(begin@ =~= begin_line());
    assert(k_version@ =~= key_version());
    assert(k_width@ =~= key_width());
    assert(k_height@ =~= key_height());
    if lines.len() < 2 {
        return Err(DmiError::ManifestSyntax);
    }
    assert(lines@[0]@ == ls[0] && lines@[1]@ == ls[1]);
    if !bytes_eq(lines[0].as_slice(), &begin) {
        return Err(DmiError::ManifestSyntax);
    }
    let (key, version) = parse_dmi_line(lines[1].as_slice(), false, false)?;
    if !bytes_eq(key.as_slice(), &k_version) {
        return Err(DmiError::ManifestSyntax);
    }
    let mut width: Option<u32> = None;
    let mut height: Option<u32> = None;
    let mut i: usize = 2;
    let mut count: usize = 0;
    while count < 2
        invariant
            count <= 2,
            i == 2 + count,
            ls == seqs_view(lines@),
            ls.len() >= 2,
            ls[0] == begin_line(),
            split_line(ls[1], false, false) == Ok::<(Seq<u8>, Seq<u8>), DmiError>((key@, version@)),
            key@ == key_version(),
            k_width@ == key_width(),
            k_height@ == key_height(),
            parse_dims(ls, 2, 0, None, None) == parse_dims(ls, i as int, count as int, width, height),
        ensures
            ls == seqs_view(lines@),
            parse_dims(ls, 2, 0, None, None) == Ok::<(Option<u32>, Option<u32>, int), DmiError>(
                (width, height, i as int),
            ),
        decreases 2 - count,
    {
        if i >= lines.len() {
            return Err(DmiError::ManifestSyntax);
        }
        assert(lines@[i as int]@ == ls[i as int]);
        let line = lines[i].as_slice();
        let head = key_prefix(line);
        let is_width = bytes_eq(head.as_slice(), &k_width);
        let is_height = bytes_eq(head.as_slice(), &k_height);
        if !is_width && !is_height {
            break;
        }
        let (_k, value) = parse_dmi_line(line, false, false)?;
        let x = match parse_uint_exec(value.as_slice(), 4294967295) {
            Some(x) => x,
            None => return Err(DmiError::ParseInt),
        };
        if is_width {
            width = Some(x);
        } else {
            height = Some(x);
        }
        i = i + 1;
        count = count + 1;
    }
    if width == Some(0u32) || height == Some(0u32) {
        return Err(DmiError::Generic);
    }
    let width = match width {
        Some(x) => x,
        None => 32,
    };
    let height = match height {
        Some(x) => x,
        None => 32,
    };
    Ok((version, width, height, i))
}

/// Parses a manifest from its text: see `parse_lines` for what it holds.
pub fn parse_manifest(text: &[u8]) -> (r: Result<ManifestMeta, DmiError>)
    ensures
        match parse_manifest_spec(text@) {
            Ok(m) => r is Ok && r->Ok_0.model() == m,
            Err(e) => r matches Err(e2) && e2 == e,
        },
{
    let lines = split_lines(text);
    let ghost ls = seqs_view(lines@);
    assert(ls == text_lines(text@));
    let end: [u8; 9] = [35, 32, 69, 78, 68, 32, 68, 77, 73];
    let k_state: [u8; 5] = [115, 116, 97, 116, 101];
    assert(end@ =~= end_line());
    assert(k_state@ =~= key_state());
    let (version, width, height, start) = read_dmi_headers(&lines)?;
    let ghost hd = parse_header(ls);
    let mut i = start;
    let mut states: Vec<StateMeta> = Vec::new();
    let mut cur: Option<(Vec<u8>, AttrMeta)> = None;
    assert(states@.map_values(|st: StateMeta| st.model()) =~= Seq::<StateModel>::empty());
    loop
        invariant
            ls == seqs_view(lines@),
            ls == text_lines(text@),
            hd == parse_header(ls),
            hd == Ok::<(Seq<u8>, u32, u32, int), DmiError>((version@, width, height, start as int)),
            end@ == end_line(),
            k_state@ == key_state(),
            parse_body(ls, start as int, None, Seq::empty()) == parse_body(
                ls,
                i as int,
                match cur {
                    Some(c) => Some((c.0@, c.1.model())),
                    None => None,
                },
                states@.map_values(|st: StateMeta| st.model()),
            ),
        decreases ls.len() - i, (if cur is Some { 1int } else { 0int }),
    {
        if i >= lines.len() {
            return Err(DmiError::ManifestSyntax);
        }
        assert(lines@[i as int]@ == ls[i as int]);
        let line = lines[i].as_slice();
        match cur {
            None => {
                if bytes_eq(line, &end) {
                    return Ok(ManifestMeta { version, width, height, states });
                }
                let (k, name) = parse_dmi_line(line, true, true)?;
                if !bytes_eq(k.as_slice(), &k_state) {
                    return Err(DmiError::ManifestSyntax);
                }
                cur = Some((name, AttrMeta {
                    dirs: None,
                    frames: None,
                    delay: None,
                    loop_times: 0,
                    rewind: false,
                    movement: false,
                    hotspot: None,
                    unknown: None,
                }));
                i = i + 1;
            },
            Some(c) => {
                let (name, a) = c;
                let attr = !bytes_eq(line, &end) && line.len() > 0 && line[0] == 9;
                if !attr {
                    let (dirs, frames) = match (a.dirs, a.frames) {
                        (Some(d), Some(f)) => (d, f),
                        _ => return Err(DmiError::ManifestSyntax),
                    };
                    let ghost before = states@.map_values(|st: StateMeta| st.model());
                    let st = StateMeta {
                        name,
                        dirs,
                        frames,
                        delay: a.delay,
                        loop_times: a.loop_times,
                        rewind: a.rewind,
                        movement: a.movement,
                        hotspot: a.hotspot,
                        unknown: a.unknown,
                    };
                    let ghost fin = st.model();
                    states.push(st);
                    assert(states@.map_values(|st: StateMeta| st.model()) =~= before.push(fin));
                    cur = None;
                } else {
                    let (k, v) = parse_dmi_line(line, false, false)?;
                    let a2 = apply_attr_exec(a, k.as_slice(), v.as_slice())?;
                    cur = Some((name, a2));
                    i = i + 1;
                }
            },
        }
    }
}

/// The key of a line: what precedes its first `" = "`, or the whole line.
fn key_prefix(line: &[u8]) -> (r: Vec<u8>)
    ensures
        r@ == key_of(line@),
{
    let n = line.len();
    let mut k: usize = 0;
    while n - k >= 3 && !(line[k] == 32 && line[k + 1] == 61 && line[k + 2] == 32)
        invariant
            k <= n,
            n == line@.len(),
            crate::line::find_sep_from(line@, 0) == crate::line::find_sep_from(line@, k as int),
        decreases n - k,
    {
        k = k + 1;
    }
    if n - k < 3 {
        copy_range(line, 0, n)
    } else {
        copy_range(line, 0, k)
    }
}

} // verus!
