use vstd::prelude::*;

use crate::line::{
    escape, escape_byte, find_sep_from, free_of, is_sep_at, join_separated, join_terminated, split_line,
    split_pieces, strip_cr, text_lines, unquoted_fault,
};
use crate::emit::{
    animation_lines, entry, header_lines, hotspot_lines, manifest_lines, manifest_text, state_lines, states_lines,
    unknown_lines,
};
use crate::error::DmiError;
use crate::manifest::{
    apply_attr, attr_init, finish_state, has_key, is_attr_line, parse_body, AttrModel, StateModel,
    ManifestModel, end_line, begin_line, parse_dims, parse_manifest_spec,
    is_delay_token, is_known_key, key_delay, key_dirs, key_frames, key_height, key_hotspot, key_loop, key_movement,
    key_of, key_rewind, key_state, key_version, key_width,
};

verus! {

/// A byte that may stand in a value without quotes.
pub open spec fn plain_byte(c: u8) -> bool {
    c != 92 && c != 34 && c != 9 && c != 61 && c != 32
}

/// Every byte from `i` on may stand in a value without quotes.
pub open spec fn plain_from(v: Seq<u8>, i: int) -> bool {
    forall|j: int| i <= j < v.len() ==> plain_byte(#[trigger] v[j])
}

proof fn lemma_unquoted_ok(v: Seq<u8>, i: int, allow: bool)
    requires
        0 <= i,
        plain_from(v, i),
    ensures
        unquoted_fault(v, i, allow) is None,
    decreases v.len() - i,
{
    if i < v.len() {
        assert(plain_byte(v[i]));
        lemma_unquoted_ok(v, i + 1, allow);
    }
}

proof fn lemma_find_sep_entry(k: Seq<u8>, v: Seq<u8>, i: int)
    requires
        free_of(k, 32),
        0 <= i <= k.len(),
    ensures
        find_sep_from(entry(k, v), i) == Some(k.len() as int),
    decreases k.len() - i,
{
    let l = entry(k, v);
    assert(l[k.len() as int] == 32 && l[k.len() as int + 1] == 61 && l[k.len() as int + 2] == 32);
    if i < k.len() {
        assert(l[i] == k[i]);
        assert(!is_sep_at(l, i));
        lemma_find_sep_entry(k, v, i + 1);
    } else {
        assert(is_sep_at(l, i));
    }
}

/// A line `key = value` with a plain key and a plain, non-empty value splits back
/// into key and value.
pub proof fn lemma_split_plain_entry(k: Seq<u8>, v: Seq<u8>)
    requires
        free_of(k, 32),
        v.len() > 0,
        plain_from(v, 0),
    ensures
        split_line(entry(k, v), false, false) == Ok::<(Seq<u8>, Seq<u8>), crate::error::DmiError>((k, v)),
        key_of(entry(k, v)) == k,
{
    let l = entry(k, v);
    lemma_find_sep_entry(k, v, 0);
    assert(l.subrange(0, k.len() as int) =~= k);
    assert(l.subrange(k.len() as int + 3, l.len() as int) =~= v);
    lemma_unquoted_ok(v, 0, false);
}

/// The state line of a name splits back into the key `state` and the name.
pub proof fn lemma_split_state_entry(k: Seq<u8>, name: Seq<u8>)
    requires
        free_of(k, 32),
    ensures
        split_line(entry(k, seq![34u8] + escape(name) + seq![34u8]), true, true) == Ok::<
            (Seq<u8>, Seq<u8>),
            crate::error::DmiError,
        >((k, name)),
{
    let v = seq![34u8] + escape(name) + seq![34u8];
    let l = entry(k, v);
    lemma_find_sep_entry(k, v, 0);
    assert(l.subrange(0, k.len() as int) =~= k);
    assert(l.subrange(k.len() as int + 3, l.len() as int) =~= v);
    assert(v.subrange(1, v.len() - 1) =~= escape(name));
    crate::line::lemma_unescape_escape(name);
}

/// A line that survives splitting text into lines: no line feed, and no carriage
/// return at its end.
pub open spec fn line_ok(l: Seq<u8>) -> bool {
    free_of(l, 10) && (l.len() == 0 || l.last() != 13)
}

/// Lines joined with line feeds split back into the same lines.
pub proof fn lemma_lines_of_join(ls: Seq<Seq<u8>>)
    requires
        forall|j: int| 0 <= j < ls.len() ==> line_ok(#[trigger] ls[j]),
    ensures
        text_lines(join_terminated(ls, 10)) == ls,
{
    assert forall|k: int| 0 <= k < ls.len() implies free_of(#[trigger] ls[k], 10) by {
        assert(line_ok(ls[k]));
    }
    crate::line::lemma_split_join_terminated(Seq::empty(), ls, 10);
    assert(Seq::<u8>::empty() + join_terminated(ls, 10) =~= join_terminated(ls, 10));
    let pieces = split_pieces(join_terminated(ls, 10), 10);
    assert(pieces == ls);
    assert(pieces.map_values(|l: Seq<u8>| strip_cr(l)) =~= ls) by {
        assert forall|j: int| 0 <= j < ls.len() implies #[trigger] strip_cr(ls[j]) == ls[j] by {
            assert(line_ok(ls[j]));
        }
    }
}

/// A value that a manifest line holds without quotes and that survives splitting
/// into lines.
pub open spec fn value_ok(v: Seq<u8>) -> bool {
    &&& v.len() > 0
    &&& plain_from(v, 0)
    &&& free_of(v, 10)
    &&& v.last() != 13
}

pub proof fn lemma_entry_line_ok(k: Seq<u8>, v: Seq<u8>)
    requires
        free_of(k, 10),
        free_of(v, 10),
        v.len() > 0,
        v.last() != 13,
    ensures
        line_ok(entry(k, v)),
{
    let l = entry(k, v);
    assert forall|i: int| 0 <= i < l.len() implies #[trigger] l[i] != 10 by {
        if i < k.len() {
            assert(l[i] == k[i]);
        } else if i >= k.len() + 3 {
            assert(l[i] == v[i - k.len() - 3]);
        }
    }
    assert(l.last() == v.last());
}

pub proof fn lemma_digits_value_ok(d: Seq<u8>)
    requires
        d.len() > 0,
        forall|j: int| 0 <= j < d.len() ==> crate::text::is_digit(#[trigger] d[j]),
    ensures
        value_ok(d),
{
    assert(crate::text::is_digit(d[d.len() - 1]));
}

pub proof fn lemma_decimal_value_ok(x: nat)
    ensures
        value_ok(crate::text::decimal(x)),
        crate::text::parse_uint(crate::text::decimal(x), x as int) == Some(x as int),
        free_of(crate::text::decimal(x), 44),
{
    crate::text::lemma_decimal_round_trip(x);
    let d = crate::text::decimal(x);
    lemma_digits_value_ok(d);
    assert(crate::text::unsigned_part(d) == d);
    assert forall|j: int| 0 <= j < d.len() implies #[trigger] d[j] != 44 by {
        assert(crate::text::is_digit(d[j]));
    }
}

/// The keys of the manifest hold no space, no line feed, and start as written.
pub proof fn lemma_key_facts()
    ensures
        free_of(key_dirs(), 32) && free_of(key_dirs(), 10) && key_dirs()[0] == 9,
        free_of(key_frames(), 32) && free_of(key_frames(), 10) && key_frames()[0] == 9,
        free_of(key_delay(), 32) && free_of(key_delay(), 10) && key_delay()[0] == 9,
        free_of(key_loop(), 32) && free_of(key_loop(), 10) && key_loop()[0] == 9,
        free_of(key_rewind(), 32) && free_of(key_rewind(), 10) && key_rewind()[0] == 9,
        free_of(key_movement(), 32) && free_of(key_movement(), 10) && key_movement()[0] == 9,
        free_of(key_hotspot(), 32) && free_of(key_hotspot(), 10) && key_hotspot()[0] == 9,
        free_of(key_width(), 32) && free_of(key_width(), 10),
        free_of(key_height(), 32) && free_of(key_height(), 10),
        free_of(key_version(), 32) && free_of(key_version(), 10),
        free_of(key_state(), 32) && free_of(key_state(), 10) && key_state()[0] == 115,
        key_width() != key_height(),
        key_dirs() != key_frames() && key_dirs() != key_delay() && key_dirs() != key_loop() && key_dirs() != key_rewind()
            && key_dirs() != key_movement() && key_dirs() != key_hotspot(),
        key_frames() != key_delay() && key_frames() != key_loop() && key_frames() != key_rewind() && key_frames()
            != key_movement() && key_frames() != key_hotspot(),
        key_delay() != key_loop() && key_delay() != key_rewind() && key_delay() != key_movement() && key_delay()
            != key_hotspot(),
        key_loop() != key_rewind() && key_loop() != key_movement() && key_loop() != key_hotspot(),
        key_rewind() != key_movement() && key_rewind() != key_hotspot(),
        key_movement() != key_hotspot(),
{
    assert(key_dirs()[1] != key_loop()[1]);
    assert(key_frames()[1] != key_rewind()[1]);
    assert(key_delay()[1] != key_height()[1] || key_delay().len() != key_height().len());
    assert(key_width()[1] != key_height()[1]);
}

/// The attributes of a state applied one line after the other.
pub open spec fn fold_attrs(a: AttrModel, ps: Seq<(Seq<u8>, Seq<u8>)>) -> Result<AttrModel, DmiError>
    decreases ps.len(),
{
    if ps.len() == 0 {
        Ok(a)
    } else {
        match apply_attr(a, ps[0].0, ps[0].1) {
            Ok(a2) => fold_attrs(a2, ps.drop_first()),
            Err(e) => Err(e),
        }
    }
}

proof fn lemma_fold_append(a: AttrModel, p1: Seq<(Seq<u8>, Seq<u8>)>, p2: Seq<(Seq<u8>, Seq<u8>)>)
    ensures
        fold_attrs(a, p1 + p2) == (match fold_attrs(a, p1) {
            Ok(a1) => fold_attrs(a1, p2),
            Err(e) => Err(e),
        }),
    decreases p1.len(),
{
    if p1.len() == 0 {
        assert(p1 + p2 =~= p2);
    } else {
        assert((p1 + p2)[0] == p1[0]);
        assert((p1 + p2).drop_first() =~= p1.drop_first() + p2);
        match apply_attr(a, p1[0].0, p1[0].1) {
            Ok(a2) => lemma_fold_append(a2, p1.drop_first(), p2),
            Err(e) => {},
        }
    }
}

/// Lines that each hold one attribute are read one after the other.
proof fn lemma_attr_run(
    ls: Seq<Seq<u8>>,
    p: int,
    name: Seq<u8>,
    a: AttrModel,
    done: Seq<StateModel>,
    ps: Seq<(Seq<u8>, Seq<u8>)>,
)
    requires
        0 <= p,
        p + ps.len() <= ls.len(),
        fold_attrs(a, ps) is Ok,
        forall|j: int| 0 <= j < ps.len() ==> is_attr_line(#[trigger] ls[p + j]) && split_line(ls[p + j], false, false)
            == Ok::<(Seq<u8>, Seq<u8>), DmiError>(ps[j]),
    ensures
        parse_body(ls, p, Some((name, a)), done) == parse_body(ls, p + ps.len(), Some((name, fold_attrs(a, ps)->Ok_0)), done),
    decreases ps.len(),
{
    if ps.len() > 0 {
        assert(is_attr_line(ls[p + 0]));
        let a2 = apply_attr(a, ps[0].0, ps[0].1)->Ok_0;
        assert forall|j: int| 0 <= j < ps.drop_first().len() implies is_attr_line(#[trigger] ls[(p + 1) + j])
            && split_line(ls[(p + 1) + j], false, false) == Ok::<(Seq<u8>, Seq<u8>), DmiError>(ps.drop_first()[j]) by {
            assert(ls[(p + 1) + j] == ls[p + (j + 1)]);
            assert(is_attr_line(ls[p + (j + 1)]));
        }
        lemma_attr_run(ls, p + 1, name, a2, done, ps.drop_first());
    } else {
        assert(p + ps.len() == p);
    }
}

/// The attribute lines of a state, as key and value.
pub open spec fn attr_pairs(st: StateModel) -> Seq<(Seq<u8>, Seq<u8>)> {
    seq![(key_dirs(), crate::text::decimal(st.dirs as nat)), (key_frames(), crate::text::decimal(st.frames as nat))]
        + anim_pairs(st) + hot_pairs(st) + unknown_pairs(st.unknown)
}

pub open spec fn anim_pairs(st: StateModel) -> Seq<(Seq<u8>, Seq<u8>)> {
    if st.frames > 1 {
        seq![(key_delay(), join_separated(st.delay->Some_0, 44))] + (if st.loop_times > 0 {
            seq![(key_loop(), crate::text::decimal(st.loop_times as nat))]
        } else {
            Seq::empty()
        }) + (if st.rewind {
            seq![(key_rewind(), seq![49u8])]
        } else {
            Seq::empty()
        }) + (if st.movement {
            seq![(key_movement(), seq![49u8])]
        } else {
            Seq::empty()
        })
    } else {
        Seq::empty()
    }
}

pub open spec fn hot_pairs(st: StateModel) -> Seq<(Seq<u8>, Seq<u8>)> {
    match st.hotspot {
        Some((x, y)) => seq![
            (key_hotspot(), crate::text::decimal(x as nat) + seq![44u8] + crate::text::decimal(y as nat) + seq![44u8, 49]),
        ],
        None => Seq::empty(),
    }
}

pub open spec fn unknown_pairs(u: Option<Seq<(Seq<u8>, Seq<u8>)>>) -> Seq<(Seq<u8>, Seq<u8>)> {
    match u {
        Some(s) => s,
        None => Seq::empty(),
    }
}

pub open spec fn entries(ps: Seq<(Seq<u8>, Seq<u8>)>) -> Seq<Seq<u8>> {
    ps.map_values(|p: (Seq<u8>, Seq<u8>)| entry(p.0, p.1))
}

proof fn lemma_entries_append(a: Seq<(Seq<u8>, Seq<u8>)>, b: Seq<(Seq<u8>, Seq<u8>)>)
    ensures
        entries(a + b) == entries(a) + entries(b),
{
    assert(entries(a + b) =~= entries(a) + entries(b));
}

/// The lines of a state are its state line followed by its attribute lines.
proof fn lemma_state_lines_split(st: StateModel)
    ensures
        state_lines(st) == seq![entry(key_state(), seq![34u8] + escape(st.name) + seq![34u8])] + entries(attr_pairs(st)),
{
    let head = seq![(key_dirs(), crate::text::decimal(st.dirs as nat)), (key_frames(), crate::text::decimal(st.frames as nat))];
    lemma_entries_append(head, anim_pairs(st));
    lemma_entries_append(head + anim_pairs(st), hot_pairs(st));
    lemma_entries_append(head + anim_pairs(st) + hot_pairs(st), unknown_pairs(st.unknown));
    assert(entries(head) =~= seq![entry(key_dirs(), crate::text::decimal(st.dirs as nat)), entry(key_frames(), crate::text::decimal(st.frames as nat))]);
    if st.frames > 1 {
        let d = seq![(key_delay(), join_separated(st.delay->Some_0, 44))];
        let l = if st.loop_times > 0 { seq![(key_loop(), crate::text::decimal(st.loop_times as nat))] } else { Seq::empty() };
        let r = if st.rewind { seq![(key_rewind(), seq![49u8])] } else { Seq::empty() };
        let m = if st.movement { seq![(key_movement(), seq![49u8])] } else { Seq::empty() };
        lemma_entries_append(d, l);
        lemma_entries_append(d + l, r);
        lemma_entries_append(d + l + r, m);
        assert(entries(d + l + r + m) =~= animation_lines(st));
    } else {
        assert(entries(anim_pairs(st)) =~= animation_lines(st));
    }
    assert(entries(hot_pairs(st)) =~= hotspot_lines(st));
    assert(entries(unknown_pairs(st.unknown)) =~= unknown_lines(st.unknown));
    assert(state_lines(st) =~= seq![entry(key_state(), seq![34u8] + escape(st.name) + seq![34u8])] + entries(attr_pairs(st)));
}

/// A key of a setting without a meaning here that a manifest keeps as it is.
pub open spec fn unknown_key_ok(k: Seq<u8>) -> bool {
    &&& k.len() > 0
    &&& k[0] == 9
    &&& free_of(k, 32)
    &&& free_of(k, 10)
    &&& !is_known_key(k)
}

/// The unknown settings of a state, where present, are some, with keys of their own
/// that are all different and plain values.
pub open spec fn unknown_ok(u: Option<Seq<(Seq<u8>, Seq<u8>)>>) -> bool {
    match u {
        None => true,
        Some(s) => {
            &&& s.len() > 0
            &&& forall|i: int| 0 <= i < s.len() ==> unknown_key_ok((#[trigger] s[i]).0) && value_ok(s[i].1)
            &&& forall|i: int, j: int| 0 <= i < j < s.len() ==> (#[trigger] s[i]).0 != (#[trigger] s[j]).0
        },
    }
}

/// A state that the manifest writes so that it reads back the same.
///
/// The name holds no line feed; there are one, four or eight directions and at
/// least one frame; an animated state has one delay per frame, each a decimal; a
/// state of one frame carries none of the animation settings, which are written
/// only for more frames.
pub open spec fn state_ok(st: StateModel) -> bool {
    &&& free_of(st.name, 10)
    &&& (st.dirs == 1 || st.dirs == 4 || st.dirs == 8)
    &&& st.frames >= 1
    &&& (st.frames > 1 ==> st.delay is Some && st.delay->Some_0.len() == st.frames && forall|i: int|
        0 <= i < st.delay->Some_0.len() ==> is_delay_token(#[trigger] st.delay->Some_0[i]))
    &&& (st.frames == 1 ==> st.delay is None && st.loop_times == 0 && !st.rewind && !st.movement)
    &&& unknown_ok(st.unknown)
}

/// A manifest that reads back as it was written: a plain version, a width and
/// height other than zero, and states that `state_ok` accepts.
pub open spec fn manifest_ok(m: ManifestModel) -> bool {
    &&& value_ok(m.version)
    &&& m.width > 0
    &&& m.height > 0
    &&& forall|k: int| 0 <= k < m.states.len() ==> state_ok(#[trigger] m.states[k])
}

/// The attributes that reading a state's lines ends with.
pub open spec fn attr_final(st: StateModel) -> AttrModel {
    AttrModel {
        dirs: Some(st.dirs),
        frames: Some(st.frames),
        delay: st.delay,
        loop_times: st.loop_times,
        rewind: st.rewind,
        movement: st.movement,
        hotspot: st.hotspot,
        unknown: st.unknown,
    }
}

proof fn lemma_parse_decimal(x: nat, max: int)
    requires
        x <= max,
    ensures
        crate::text::parse_uint(crate::text::decimal(x), max) == Some(x as int),
{
    lemma_decimal_value_ok(x);
}

proof fn lemma_delay_token_ok(t: Seq<u8>)
    requires
        is_delay_token(t),
    ensures
        value_ok(t),
        free_of(t, 44),
{
    assert forall|j: int| 0 <= j < t.len() implies plain_byte(#[trigger] t[j]) && t[j] != 10 && t[j] != 44 by {
        assert(crate::manifest::delay_byte(t[j]));
    }
    assert(crate::manifest::delay_byte(t[t.len() - 1]));
}

proof fn lemma_join_plain(ts: Seq<Seq<u8>>)
    requires
        ts.len() > 0,
        forall|i: int| 0 <= i < ts.len() ==> value_ok(#[trigger] ts[i]),
    ensures
        value_ok(join_separated(ts, 44)),
    decreases ts.len(),
{
    let j = join_separated(ts, 44);
    assert(value_ok(ts[0]));
    if ts.len() > 1 {
        assert forall|i: int| 0 <= i < ts.drop_first().len() implies value_ok(#[trigger] ts.drop_first()[i]) by {
            assert(ts.drop_first()[i] == ts[i + 1]);
        }
        lemma_join_plain(ts.drop_first());
        let rest = join_separated(ts.drop_first(), 44);
        assert(j == ts[0] + seq![44u8] + rest);
        assert forall|i: int| 0 <= i < j.len() implies plain_byte(#[trigger] j[i]) && j[i] != 10 by {
            if i < ts[0].len() {
                assert(j[i] == ts[0][i]);
            } else if i > ts[0].len() {
                assert(j[i] == rest[i - ts[0].len() - 1]);
            }
        }
        assert(j.last() == rest.last());
    } else {
        assert(j == ts[0]);
    }
}

/// Reading back the delay line of a state gives its delays.
proof fn lemma_delay_back(ts: Seq<Seq<u8>>)
    requires
        ts.len() > 0,
        forall|i: int| 0 <= i < ts.len() ==> is_delay_token(#[trigger] ts[i]),
    ensures
        split_pieces(join_separated(ts, 44), 44) == ts,
        value_ok(join_separated(ts, 44)),
{
    assert forall|i: int| 0 <= i < ts.len() implies value_ok(#[trigger] ts[i]) && free_of(ts[i], 44) by {
        lemma_delay_token_ok(ts[i]);
    }
    assert(ts.last() == ts[ts.len() - 1]);
    crate::line::lemma_split_join_separated(ts, 44);
    lemma_join_plain(ts);
}

/// Reading back the hotspot line gives the hotspot.
proof fn lemma_hotspot_back(x: u32, y: u32)
    ensures
        split_pieces(crate::text::decimal(x as nat) + seq![44u8] + crate::text::decimal(y as nat) + seq![44u8, 49], 44)
            == seq![crate::text::decimal(x as nat), crate::text::decimal(y as nat), seq![49u8]],
        value_ok(crate::text::decimal(x as nat) + seq![44u8] + crate::text::decimal(y as nat) + seq![44u8, 49]),
{
    let dx = crate::text::decimal(x as nat);
    let dy = crate::text::decimal(y as nat);
    let ts = seq![dx, dy, seq![49u8]];
    lemma_decimal_value_ok(x as nat);
    lemma_decimal_value_ok(y as nat);
    let one = seq![49u8];
    assert(value_ok(one) && free_of(one, 44));
    assert(ts.drop_first().drop_first() =~= seq![one]);
    assert(join_separated(seq![one], 44) == one);
    assert(ts.drop_first() =~= seq![dy, one]);
    assert(join_separated(ts.drop_first(), 44) == dy + seq![44u8] + join_separated(ts.drop_first().drop_first(), 44));
    assert(join_separated(ts, 44) =~= dx + seq![44u8] + dy + seq![44u8, 49]);
    assert forall|i: int| 0 <= i < ts.len() implies value_ok(#[trigger] ts[i]) && free_of(ts[i], 44) by {}
    crate::line::lemma_split_join_separated(ts, 44);
    lemma_join_plain(ts);
}

proof fn lemma_fold_one(a: AttrModel, k: Seq<u8>, v: Seq<u8>)
    ensures
        fold_attrs(a, seq![(k, v)]) == apply_attr(a, k, v),
{
    assert(seq![(k, v)].drop_first() =~= Seq::<(Seq<u8>, Seq<u8>)>::empty());
    match apply_attr(a, k, v) {
        Ok(a2) => assert(fold_attrs(a2, Seq::<(Seq<u8>, Seq<u8>)>::empty()) == Ok::<AttrModel, DmiError>(a2)),
        Err(e) => {},
    }
}

proof fn lemma_fold_anim(a: AttrModel, st: StateModel)
    requires
        state_ok(st),
        a.delay is None,
        a.loop_times == 0,
        !a.rewind,
        !a.movement,
    ensures
        fold_attrs(a, anim_pairs(st)) == Ok::<AttrModel, DmiError>(
            AttrModel { delay: st.delay, loop_times: st.loop_times, rewind: st.rewind, movement: st.movement, ..a },
        ),
{
    lemma_key_facts();
    if st.frames > 1 {
        let ts = st.delay->Some_0;
        lemma_delay_back(ts);
        let d = seq![(key_delay(), join_separated(ts, 44))];
        let l = if st.loop_times > 0 { seq![(key_loop(), crate::text::decimal(st.loop_times as nat))] } else { Seq::empty() };
        let r = if st.rewind { seq![(key_rewind(), seq![49u8])] } else { Seq::empty() };
        let m = if st.movement { seq![(key_movement(), seq![49u8])] } else { Seq::empty() };
        lemma_fold_one(a, key_delay(), join_separated(ts, 44));
        let a1 = AttrModel { delay: st.delay, ..a };
        assert(fold_attrs(a, d) == Ok::<AttrModel, DmiError>(a1));
        lemma_fold_append(a, d, l);
        let a2 = AttrModel { loop_times: st.loop_times, ..a1 };
        if st.loop_times > 0 {
            lemma_parse_decimal(st.loop_times as nat, u32::MAX as int);
            lemma_fold_one(a1, key_loop(), crate::text::decimal(st.loop_times as nat));
        } else {
            assert(fold_attrs(a1, l) == Ok::<AttrModel, DmiError>(a1));
        }
        assert(fold_attrs(a, d + l) == Ok::<AttrModel, DmiError>(a2));
        lemma_fold_append(a, d + l, r);
        let a3 = AttrModel { rewind: st.rewind, ..a2 };
        assert(crate::text::decimal(1) =~= seq![49u8]);
        lemma_parse_decimal(1, 255);
        if st.rewind {
            lemma_fold_one(a2, key_rewind(), seq![49u8]);
        } else {
            assert(fold_attrs(a2, r) == Ok::<AttrModel, DmiError>(a2));
        }
        assert(fold_attrs(a, d + l + r) == Ok::<AttrModel, DmiError>(a3));
        lemma_fold_append(a, d + l + r, m);
        if st.movement {
            lemma_fold_one(a3, key_movement(), seq![49u8]);
        } else {
            assert(fold_attrs(a3, m) == Ok::<AttrModel, DmiError>(a3));
        }
    } else {
        assert(anim_pairs(st) =~= Seq::<(Seq<u8>, Seq<u8>)>::empty());
        assert(AttrModel { delay: st.delay, loop_times: st.loop_times, rewind: st.rewind, movement: st.movement, ..a } == a);
    }
}

proof fn lemma_fold_hot(a: AttrModel, st: StateModel)
    requires
        a.hotspot is None,
    ensures
        fold_attrs(a, hot_pairs(st)) == Ok::<AttrModel, DmiError>(AttrModel { hotspot: st.hotspot, ..a }),
{
    lemma_key_facts();
    match st.hotspot {
        Some((x, y)) => {
            lemma_hotspot_back(x, y);
            lemma_parse_decimal(x as nat, u32::MAX as int);
            lemma_parse_decimal(y as nat, u32::MAX as int);
            lemma_fold_one(
                a,
                key_hotspot(),
                crate::text::decimal(x as nat) + seq![44u8] + crate::text::decimal(y as nat) + seq![44u8, 49],
            );
        },
        None => {
            assert(hot_pairs(st) =~= Seq::<(Seq<u8>, Seq<u8>)>::empty());
        },
    }
}

proof fn lemma_fold_unknown(a: AttrModel, s: Seq<(Seq<u8>, Seq<u8>)>, j: int)
    requires
        a.unknown is None,
        0 <= j <= s.len(),
        forall|i: int| 0 <= i < s.len() ==> unknown_key_ok((#[trigger] s[i]).0),
        forall|i: int, k: int| 0 <= i < k < s.len() ==> (#[trigger] s[i]).0 != (#[trigger] s[k]).0,
    ensures
        fold_attrs(a, s.subrange(0, j)) == Ok::<AttrModel, DmiError>(
            AttrModel { unknown: if j == 0 { None } else { Some(s.subrange(0, j)) }, ..a },
        ),
    decreases j,
{
    lemma_key_facts();
    if j == 0 {
        assert(s.subrange(0, 0) =~= Seq::<(Seq<u8>, Seq<u8>)>::empty());
        assert(AttrModel { unknown: None, ..a } == a);
    } else {
        lemma_fold_unknown(a, s, j - 1);
        let prev = s.subrange(0, j - 1);
        let p = s[j - 1];
        assert(s.subrange(0, j) =~= prev + seq![p]);
        lemma_fold_append(a, prev, seq![p]);
        let a1 = AttrModel { unknown: if j - 1 == 0 { None } else { Some(prev) }, ..a };
        lemma_fold_one(a1, p.0, p.1);
        assert(unknown_key_ok(p.0));
        assert(!is_known_key(p.0));
        if j - 1 == 0 {
            assert(seq![p] =~= s.subrange(0, j));
        } else {
            assert(!has_key(prev, p.0)) by {
                if has_key(prev, p.0) {
                    let i = choose|i: int| 0 <= i < prev.len() && (#[trigger] prev[i]).0 == p.0;
                    assert(s[i].0 != s[j - 1].0);
                }
            }
            assert(prev.push(p) =~= s.subrange(0, j));
        }
    }
}

/// Reading the attribute lines of a state gives back its attributes.
proof fn lemma_fold_state(st: StateModel)
    requires
        state_ok(st),
    ensures
        fold_attrs(attr_init(), attr_pairs(st)) == Ok::<AttrModel, DmiError>(attr_final(st)),
{
    lemma_key_facts();
    let head = seq![(key_dirs(), crate::text::decimal(st.dirs as nat)), (key_frames(), crate::text::decimal(st.frames as nat))];
    lemma_parse_decimal(st.dirs as nat, 255);
    lemma_parse_decimal(st.frames as nat, u32::MAX as int);
    let a0 = attr_init();
    let a1 = AttrModel { dirs: Some(st.dirs), ..a0 };
    let a2 = AttrModel { frames: Some(st.frames), ..a1 };
    assert(head.drop_first() =~= seq![(key_frames(), crate::text::decimal(st.frames as nat))]);
    lemma_fold_one(a1, key_frames(), crate::text::decimal(st.frames as nat));
    assert(apply_attr(a0, key_dirs(), crate::text::decimal(st.dirs as nat)) == Ok::<AttrModel, DmiError>(a1));
    assert(fold_attrs(a0, head) == Ok::<AttrModel, DmiError>(a2));
    lemma_fold_append(a0, head, anim_pairs(st));
    lemma_fold_anim(a2, st);
    let a3 = AttrModel { delay: st.delay, loop_times: st.loop_times, rewind: st.rewind, movement: st.movement, ..a2 };
    lemma_fold_append(a0, head + anim_pairs(st), hot_pairs(st));
    lemma_fold_hot(a3, st);
    let a4 = AttrModel { hotspot: st.hotspot, ..a3 };
    lemma_fold_append(a0, head + anim_pairs(st) + hot_pairs(st), unknown_pairs(st.unknown));
    match st.unknown {
        Some(s) => {
            lemma_fold_unknown(a4, s, s.len() as int);
            assert(s.subrange(0, s.len() as int) =~= s);
        },
        None => {
            assert(unknown_pairs(st.unknown) =~= Seq::<(Seq<u8>, Seq<u8>)>::empty());
        },
    }
    assert(attr_pairs(st) == head + anim_pairs(st) + hot_pairs(st) + unknown_pairs(st.unknown));
}

/// An attribute that the manifest writes as a line of its own and reads back.
pub open spec fn pair_ok(p: (Seq<u8>, Seq<u8>)) -> bool {
    &&& free_of(p.0, 32)
    &&& free_of(p.0, 10)
    &&& p.0.len() > 0
    &&& p.0[0] == 9
    &&& value_ok(p.1)
}

proof fn lemma_pairs_append(a: Seq<(Seq<u8>, Seq<u8>)>, b: Seq<(Seq<u8>, Seq<u8>)>)
    requires
        forall|j: int| 0 <= j < a.len() ==> pair_ok(#[trigger] a[j]),
        forall|j: int| 0 <= j < b.len() ==> pair_ok(#[trigger] b[j]),
    ensures
        forall|j: int| 0 <= j < (a + b).len() ==> pair_ok(#[trigger] (a + b)[j]),
{
    assert forall|j: int| 0 <= j < (a + b).len() implies pair_ok(#[trigger] (a + b)[j]) by {
        if j < a.len() {
            assert((a + b)[j] == a[j]);
        } else {
            assert((a + b)[j] == b[j - a.len()]);
        }
    }
}

proof fn lemma_attr_pairs_ok(st: StateModel)
    requires
        state_ok(st),
    ensures
        forall|j: int| 0 <= j < attr_pairs(st).len() ==> pair_ok(#[trigger] attr_pairs(st)[j]),
{
    lemma_key_facts();
    lemma_decimal_value_ok(st.dirs as nat);
    lemma_decimal_value_ok(st.frames as nat);
    let head = seq![(key_dirs(), crate::text::decimal(st.dirs as nat)), (key_frames(), crate::text::decimal(st.frames as nat))];
    assert(forall|j: int| 0 <= j < head.len() ==> pair_ok(#[trigger] head[j]));
    let one = seq![49u8];
    assert(value_ok(one));
    if st.frames > 1 {
        lemma_delay_back(st.delay->Some_0);
        lemma_decimal_value_ok(st.loop_times as nat);
    }
    let an = anim_pairs(st);
    assert(forall|j: int| 0 <= j < an.len() ==> pair_ok(#[trigger] an[j]));
    match st.hotspot {
        Some((x, y)) => lemma_hotspot_back(x, y),
        None => {},
    }
    let hp = hot_pairs(st);
    assert(forall|j: int| 0 <= j < hp.len() ==> pair_ok(#[trigger] hp[j]));
    let up = unknown_pairs(st.unknown);
    assert forall|j: int| 0 <= j < up.len() implies pair_ok(#[trigger] up[j]) by {
        assert(unknown_key_ok(up[j].0));
    }
    lemma_pairs_append(head, an);
    lemma_pairs_append(head + an, hp);
    lemma_pairs_append(head + an + hp, up);
}

proof fn lemma_escape_free(name: Seq<u8>)
    requires
        free_of(name, 10),
    ensures
        free_of(escape(name), 10),
    decreases name.len(),
{
    if name.len() > 0 {
        assert forall|i: int| 0 <= i < name.drop_first().len() implies #[trigger] name.drop_first()[i] != 10 by {
            assert(name.drop_first()[i] == name[i + 1]);
        }
        lemma_escape_free(name.drop_first());
        let e = escape(name);
        let h = escape_byte(name[0]);
        assert(e == h + escape(name.drop_first()));
        assert forall|i: int| 0 <= i < e.len() implies #[trigger] e[i] != 10 by {
            if i >= h.len() {
                assert(e[i] == escape(name.drop_first())[i - h.len()]);
            }
        }
    }
}

/// The state line of a state.
pub open spec fn state_line(st: StateModel) -> Seq<u8> {
    entry(key_state(), seq![34u8] + escape(st.name) + seq![34u8])
}

proof fn lemma_state_lines_ok(st: StateModel)
    requires
        state_ok(st),
    ensures
        forall|j: int| 0 <= j < state_lines(st).len() ==> line_ok(#[trigger] state_lines(st)[j]),
        state_lines(st)[0] == state_line(st),
        state_line(st)[0] == 115,
{
    lemma_key_facts();
    lemma_state_lines_split(st);
    lemma_attr_pairs_ok(st);
    lemma_escape_free(st.name);
    let v = seq![34u8] + escape(st.name) + seq![34u8];
    assert forall|i: int| 0 <= i < v.len() implies #[trigger] v[i] != 10 by {
        if 0 < i < v.len() - 1 {
            assert(v[i] == escape(st.name)[i - 1]);
        }
    }
    lemma_entry_line_ok(key_state(), v);
    let ps = attr_pairs(st);
    assert forall|j: int| 0 <= j < state_lines(st).len() implies line_ok(#[trigger] state_lines(st)[j]) by {
        if j > 0 {
            assert(state_lines(st)[j] == entries(ps)[j - 1]);
            assert(pair_ok(ps[j - 1]));
            lemma_entry_line_ok(ps[j - 1].0, ps[j - 1].1);
        }
    }
    assert(state_line(st)[0] == key_state()[0]);
}

proof fn lemma_states_lines_ok(sts: Seq<StateModel>)
    requires
        forall|k: int| 0 <= k < sts.len() ==> state_ok(#[trigger] sts[k]),
    ensures
        forall|j: int| 0 <= j < states_lines(sts).len() ==> line_ok(#[trigger] states_lines(sts)[j]),
    decreases sts.len(),
{
    if sts.len() > 0 {
        assert(state_ok(sts[0]));
        lemma_state_lines_ok(sts[0]);
        assert forall|k: int| 0 <= k < sts.drop_first().len() implies state_ok(#[trigger] sts.drop_first()[k]) by {
            assert(sts.drop_first()[k] == sts[k + 1]);
        }
        lemma_states_lines_ok(sts.drop_first());
        let a = state_lines(sts[0]);
        let b = states_lines(sts.drop_first());
        assert(states_lines(sts) == a + b);
        assert forall|j: int| 0 <= j < (a + b).len() implies line_ok(#[trigger] (a + b)[j]) by {
            if j < a.len() {
                assert((a + b)[j] == a[j]);
            } else {
                assert((a + b)[j] == b[j - a.len()]);
            }
        }
    }
}

/// Reading the lines of some states, up to the end line, gives back those states.
#[verifier::rlimit(50)]
proof fn lemma_body(ls: Seq<Seq<u8>>, i: int, done: Seq<StateModel>, sts: Seq<StateModel>)
    requires
        0 <= i,
        i + states_lines(sts).len() < ls.len(),
        ls.subrange(i, i + states_lines(sts).len()) == states_lines(sts),
        ls[i + states_lines(sts).len()] == end_line(),
        forall|k: int| 0 <= k < sts.len() ==> state_ok(#[trigger] sts[k]),
    ensures
        parse_body(ls, i, None, done) == Ok::<Seq<StateModel>, DmiError>(done + sts),
    decreases sts.len(),
{
    lemma_key_facts();
    if sts.len() == 0 {
        assert(states_lines(sts).len() == 0);
        assert(done + sts =~= done);
    } else {
        let st = sts[0];
        assert(state_ok(st));
        let rest = sts.drop_first();
        let sl = state_lines(st);
        let all = states_lines(sts);
        assert(all == sl + states_lines(rest));
        lemma_state_lines_ok(st);
        lemma_state_lines_split(st);
        let ps = attr_pairs(st);
        lemma_attr_pairs_ok(st);
        assert(ls[i] == all[0]);
        assert(ls[i] == state_line(st));
        assert(ls[i] != end_line()) by {
            assert(end_line()[0] == 35);
        }
        lemma_split_state_entry(key_state(), st.name);
        assert(parse_body(ls, i, None, done) == parse_body(ls, i + 1, Some((st.name, attr_init())), done));
        assert forall|j: int| 0 <= j < ps.len() implies is_attr_line(#[trigger] ls[(i + 1) + j]) && split_line(
            ls[(i + 1) + j],
            false,
            false,
        ) == Ok::<(Seq<u8>, Seq<u8>), DmiError>(ps[j]) by {
            assert(ls[(i + 1) + j] == all[1 + j]);
            assert(all[1 + j] == sl[1 + j]);
            assert(sl[1 + j] == entries(ps)[j]);
            let p = ps[j];
            assert(pair_ok(p));
            lemma_split_plain_entry(p.0, p.1);
            let l = entry(p.0, p.1);
            assert(l[0] == p.0[0]);
            assert(l != end_line()) by {
                assert(end_line()[0] == 35);
            }
        }
        lemma_fold_state(st);
        lemma_attr_run(ls, i + 1, st.name, attr_init(), done, ps);
        let q = i + sl.len();
        assert(q == i + 1 + ps.len());
        assert(!is_attr_line(ls[q])) by {
            if rest.len() > 0 {
                lemma_state_lines_ok(rest[0]);
                assert(states_lines(rest) == state_lines(rest[0]) + states_lines(rest.drop_first()));
                assert(ls[q] == all[sl.len() as int]);
                assert(all[sl.len() as int] == states_lines(rest)[0]);
                assert(ls[q][0] == 115);
            } else {
                assert(states_lines(rest).len() == 0);
                assert(q == i + all.len());
            }
        }
        assert(finish_state(st.name, attr_final(st)) == st);
        assert(parse_body(ls, q, Some((st.name, attr_final(st))), done) == parse_body(ls, q, None, done.push(st)));
        assert forall|k: int| 0 <= k < rest.len() implies state_ok(#[trigger] rest[k]) by {
            assert(rest[k] == sts[k + 1]);
        }
        assert(ls.subrange(q, q + states_lines(rest).len()) =~= states_lines(rest)) by {
            assert forall|t: int| 0 <= t < states_lines(rest).len() implies ls.subrange(q, q + states_lines(rest).len())[t]
                == states_lines(rest)[t] by {
                assert(ls[q + t] == all[sl.len() + t]);
            }
        }
        lemma_body(ls, q, done.push(st), rest);
        assert(done.push(st) + rest =~= done + sts);
    }
}

/// Writing a manifest and reading the text back gives the same manifest: the
/// version, width and height, and for each state in order its name, directions,
/// frames, delays, looping, rewind, movement, hotspot and unknown settings. State
/// names come back as they were whatever backslashes and quotes they hold.
pub proof fn lemma_manifest_round_trip(m: ManifestModel)
    requires
        manifest_ok(m),
    ensures
        parse_manifest_spec(manifest_text(m)) == Ok::<ManifestModel, DmiError>(m),
{
    lemma_key_facts();
    let ls = manifest_lines(m);
    let hs = header_lines(m);
    let body = states_lines(m.states);
    assert(ls == hs + body + seq![end_line()]);
    lemma_decimal_value_ok(m.width as nat);
    lemma_decimal_value_ok(m.height as nat);
    lemma_entry_line_ok(key_version(), m.version);
    lemma_entry_line_ok(key_width(), crate::text::decimal(m.width as nat));
    lemma_entry_line_ok(key_height(), crate::text::decimal(m.height as nat));
    lemma_states_lines_ok(m.states);
    assert(line_ok(begin_line())) by {
        assert(begin_line().last() == 73);
    }
    assert(line_ok(end_line())) by {
        assert(end_line().last() == 73);
    }
    assert forall|j: int| 0 <= j < ls.len() implies line_ok(#[trigger] ls[j]) by {
        if j < 4 {
            assert(ls[j] == hs[j]);
        } else if j < 4 + body.len() {
            assert(ls[j] == body[j - 4]);
        } else {
            assert(ls[j] == end_line());
        }
    }
    lemma_lines_of_join(ls);
    assert(text_lines(manifest_text(m)) == ls);
    // the header
    assert(ls[0] == begin_line());
    assert(ls[1] == entry(key_version(), m.version));
    lemma_split_plain_entry(key_version(), m.version);
    let dw = crate::text::decimal(m.width as nat);
    let dh = crate::text::decimal(m.height as nat);
    assert(ls[2] == entry(key_width(), dw));
    assert(ls[3] == entry(key_height(), dh));
    lemma_split_plain_entry(key_width(), dw);
    lemma_split_plain_entry(key_height(), dh);
    lemma_parse_decimal(m.width as nat, u32::MAX as int);
    lemma_parse_decimal(m.height as nat, u32::MAX as int);
    assert(parse_dims(ls, 4, 2, Some(m.width), Some(m.height)) == Ok::<(Option<u32>, Option<u32>, int), DmiError>(
        (Some(m.width), Some(m.height), 4),
    ));
    assert(parse_dims(ls, 3, 1, Some(m.width), None) == parse_dims(ls, 4, 2, Some(m.width), Some(m.height)));
    assert(parse_dims(ls, 2, 0, None, None) == parse_dims(ls, 3, 1, Some(m.width), None));
    // the states
    assert(ls.subrange(4, 4 + body.len() as int) =~= body);
    assert(ls[4 + body.len() as int] == end_line());
    lemma_body(ls, 4, Seq::empty(), m.states);
    assert(Seq::<StateModel>::empty() + m.states =~= m.states);
}

/// The metadata an icon saves reads back as the same metadata, where it is one that
/// `manifest_ok` accepts and its tiles fit the image: the manifest text that `save`
/// compresses into the `zTXt` chunk gives back, through the same reading that `load`
/// and `load_meta` make of a decompressed manifest, the icon's version, width,
/// height and states.
pub proof fn lemma_icon_metadata_round_trip(icon: crate::icon::Icon, img_width: int, img_height: int)
    requires
        manifest_ok(icon.model()),
        crate::icon::geometry_ok(icon.model(), img_width, img_height),
    ensures
        crate::icon::icon_outcome(manifest_text(icon.model()), img_width, img_height) == Ok::<ManifestModel, DmiError>(
            icon.model(),
        ),
{
    broadcast use vstd::utf8::encode_utf8_valid_utf8;

    let m = icon.model();
    lemma_manifest_round_trip(m);
    assert forall|k: int| 0 <= k < m.states.len() implies crate::icon::state_texts_valid(#[trigger] m.states[k]) by {
        let st = icon.states@[k];
        assert(m.states[k] == st.model());
        match st.delay {
            Some(v) => {
                assert forall|i: int| 0 <= i < v@.len() implies vstd::utf8::valid_utf8(
                    #[trigger] crate::icon::strings_view(v@)[i],
                ) by {
                    assert(crate::icon::strings_view(v@)[i] == vstd::utf8::encode_utf8(v@[i]@));
                }
            },
            None => {},
        }
        match st.unknown_settings {
            Some(v) => {
                assert forall|i: int| 0 <= i < v@.len() implies vstd::utf8::valid_utf8(
                    (#[trigger] crate::icon::string_pairs_view(v@)[i]).0,
                ) && vstd::utf8::valid_utf8(crate::icon::string_pairs_view(v@)[i].1) by {
                    assert(crate::icon::string_pairs_view(v@)[i] == (
                        vstd::utf8::encode_utf8(v@[i].0@),
                        vstd::utf8::encode_utf8(v@[i].1@),
                    ));
                }
            },
            None => {},
        }
    }
}

/// An icon without states saves as an atlas of one cell and no tiles: one column,
/// one row, every pixel transparent black.
pub proof fn lemma_empty_icon_atlas(icon: crate::icon::Icon, cols: int, png: Seq<u8>)
    requires
        icon.states@.len() == 0,
        crate::icon::atlas_png_of(icon, cols, png),
    ensures
        cols == 1,
        crate::icon::atlas_rows(0, cols) == 1,
        crate::raster::png_encoded(
            icon.width,
            icon.height,
            crate::raster::atlas(Seq::empty(), 1, icon.width as int, icon.height as int, icon.height as int),
        ) == Some(png),
{
    assert(crate::icon::all_tiles(icon.states@) == Seq::<Seq<u8>>::empty());
    assert(cols * icon.width == icon.width as int);
    assert(1 * icon.height == icon.height as int);
}

/// Where `load` reads an icon from `b`, `load_meta` reads `b` too: the metadata
/// chunks it finds decompress and read.
pub proof fn lemma_load_implies_load_meta(b: Seq<u8>, full: crate::icon::Icon)
    requires
        exists|raw: crate::RawDmi, meta: crate::RawDmiMetadata| crate::icon::raw_loads(b, raw)
            && crate::icon::meta_loads(b, meta) && crate::icon::icon_of_full(raw, meta, full),
    ensures
        exists|meta: crate::RawDmiMetadata| crate::icon::meta_loads(b, meta) && crate::icon::icon_of_meta(meta)
            == Ok::<ManifestModel, DmiError>(full.model()),
{
}

/// `load_meta` gives the metadata that `load` gives for the same bytes, its states
/// without tiles: the same version, width, height, and for each state in order the
/// same name, directions, frames, delays, looping, rewind, movement, hotspot and
/// unknown settings.
pub proof fn lemma_load_meta_agrees(b: Seq<u8>, full: crate::icon::Icon, light: crate::icon::Icon)
    requires
        exists|raw: crate::RawDmi, meta: crate::RawDmiMetadata| crate::icon::raw_loads(b, raw)
            && crate::icon::meta_loads(b, meta) && crate::icon::icon_of_full(raw, meta, full),
        full.loops_canonical(),
        exists|meta: crate::RawDmiMetadata| crate::icon::meta_loads(b, meta) && crate::icon::icon_of_meta(meta)
            == Ok::<ManifestModel, DmiError>(light.model()),
        light.loops_canonical(),
    ensures
        full.model() == light.model(),
        full.states@.len() == light.states@.len(),
        forall|k: int| 0 <= k < full.states@.len() ==> (#[trigger] full.states@[k]).loop_flag == light.states@[k].loop_flag,
{
    let (r1, m1) = choose|raw: crate::RawDmi, meta: crate::RawDmiMetadata| crate::icon::raw_loads(b, raw)
        && crate::icon::meta_loads(b, meta) && #[trigger] crate::icon::icon_of_full(raw, meta, full);
    let m2 = choose|meta: crate::RawDmiMetadata| crate::icon::meta_loads(b, meta) && crate::icon::icon_of_meta(meta)
        == Ok::<ManifestModel, DmiError>(light.model());
    crate::icon::lemma_meta_unique(b, m1, m2);
    assert(full.model() == light.model());
    assert(full.model().states.len() == full.states@.len());
    assert(light.model().states.len() == light.states@.len());
    assert forall|k: int| 0 <= k < full.states@.len() implies (#[trigger] full.states@[k]).loop_flag
        == light.states@[k].loop_flag by {
        assert(full.model().states[k] == full.states@[k].model());
        assert(light.model().states[k] == light.states@[k].model());
        assert(full.states@[k].loop_flag != crate::icon::Looping::NTimes(0));
        assert(light.states@[k].loop_flag != crate::icon::Looping::NTimes(0));
    }
}

proof fn lemma_need_ge(b: Seq<u8>, at: int)
    requires
        0 <= at,
    ensures
        crate::meta_need_from(b, at) >= at + 8,
    decreases b.len() - at,
{
    if at + 8 <= b.len() {
        let len = crate::length_at(b, at);
        assert(len >= 0) by {
            assert(crate::bytes::be_value(b.subrange(at, at + 4)) >= 0);
        }
        if at + 20 + len <= b.len() {
            lemma_need_ge(b, at + 12 + len);
        }
    }
}

/// The search for the `zTXt` chunk reads no byte past what `meta_need_from` counts:
/// two streams that agree that far find the same chunk, or fail alike.
proof fn lemma_meta_walk_prefix(b1: Seq<u8>, b2: Seq<u8>, p: int, at: int)
    requires
        0 <= at,
        0 <= p <= b1.len(),
        p <= b2.len(),
        b1.subrange(0, p) == b2.subrange(0, p),
        crate::meta_need_from(b1, at) <= p,
    ensures
        crate::meta_walk(b1, at) == crate::meta_walk(b2, at),
        crate::meta_need_from(b2, at) == crate::meta_need_from(b1, at),
    decreases b1.len() - at,
{
    assert forall|i: int| 0 <= i < p implies b1[i] == b2[i] by {
        assert(b1.subrange(0, p)[i] == b1[i]);
        assert(b2.subrange(0, p)[i] == b2[i]);
        assert(b1.subrange(0, p)[i] == b2.subrange(0, p)[i]);
    }
    lemma_need_ge(b1, at);
    if at + 8 <= p {
        assert(b1.subrange(at + 4, at + 8) =~= b2.subrange(at + 4, at + 8));
        assert(b1.subrange(at, at + 4) =~= b2.subrange(at, at + 4));
        let t = b1.subrange(at + 4, at + 8);
        let len = crate::length_at(b1, at);
        if t == crate::idat_type() || t == crate::iend_type() {
        } else if t != crate::ztxt::ztxt_type() {
            if at + 20 + len <= b1.len() {
                lemma_meta_walk_prefix(b1, b2, p, at + 12 + len);
            }
        } else {
            assert(b1.subrange(at, at + 12 + len) =~= b2.subrange(at, at + 12 + len));
        }
    }
}

/// `load_meta` reads no raster data: two streams that agree from the start through
/// the end of the first `zTXt` chunk (as far as `meta_need` counts, and at least
/// through IHDR) are read as the same metadata by `load_meta`, whatever follows.
pub proof fn lemma_load_meta_reads_prefix(b1: Seq<u8>, b2: Seq<u8>, meta: crate::RawDmiMetadata)
    requires
        33 <= crate::meta_need(b1) <= b1.len(),
        crate::meta_need(b1) <= b2.len(),
        b1.subrange(0, crate::meta_need(b1)) == b2.subrange(0, crate::meta_need(b1)),
    ensures
        crate::icon::meta_loads(b1, meta) <==> crate::icon::meta_loads(b2, meta),
{
    let p = crate::meta_need(b1);
    lemma_meta_walk_prefix(b1, b2, p, 33);
    assert forall|i: int| 0 <= i < p implies b1[i] == b2[i] by {
        assert(b1.subrange(0, p)[i] == b2.subrange(0, p)[i]);
    }
    assert(b1.subrange(0, 8) =~= b2.subrange(0, 8));
    assert(b1.subrange(8, 16) =~= b2.subrange(8, 16));
    assert(b1.subrange(8, 33) =~= b2.subrange(8, 33));
}

} // verus!
