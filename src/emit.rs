use vstd::prelude::*;

use crate::bytes::push_all;
use crate::error::DmiError;
use crate::line::{escape, join_separated, join_terminated, push_escaped};
use crate::manifest::{
    begin_line, end_line, key_delay, key_dirs, key_frames, key_height, key_hotspot, key_loop, key_movement,
    key_rewind, key_version, key_width, key_state, seqs_view, pairs_view, ManifestMeta, ManifestModel, StateMeta,
    StateModel,
};
use crate::text::decimal;

verus! {

/// `" = "`
pub open spec fn sep() -> Seq<u8> {
    seq![32u8, 61, 32]
}

/// The line `key = value`.
pub open spec fn entry(key: Seq<u8>, value: Seq<u8>) -> Seq<u8> {
    key + sep() + value
}

/// The unknown settings as lines, in order.
pub open spec fn unknown_lines(u: Option<Seq<(Seq<u8>, Seq<u8>)>>) -> Seq<Seq<u8>> {
    match u {
        Some(s) => s.map_values(|p: (Seq<u8>, Seq<u8>)| entry(p.0, p.1)),
        None => Seq::empty(),
    }
}

/// The lines of the animation attributes, written only for more than one frame.
pub open spec fn animation_lines(st: StateModel) -> Seq<Seq<u8>> {
    if st.frames > 1 {
        seq![entry(key_delay(), join_separated(st.delay->Some_0, 44))] + (if st.loop_times > 0 {
            seq![entry(key_loop(), decimal(st.loop_times as nat))]
        } else {
            Seq::empty()
        }) + (if st.rewind {
            seq![entry(key_rewind(), seq![49u8])]
        } else {
            Seq::empty()
        }) + (if st.movement {
            seq![entry(key_movement(), seq![49u8])]
        } else {
            Seq::empty()
        })
    } else {
        Seq::empty()
    }
}

/// The hotspot line `x,y,1`, where there is a hotspot.
pub open spec fn hotspot_lines(st: StateModel) -> Seq<Seq<u8>> {
    match st.hotspot {
        Some((x, y)) => seq![
            entry(key_hotspot(), decimal(x as nat) + seq![44u8] + decimal(y as nat) + seq![44u8, 49]),
        ],
        None => Seq::empty(),
    }
}

/// The lines that describe one state.
pub open spec fn state_lines(st: StateModel) -> Seq<Seq<u8>> {
    seq![
        entry(key_state(), seq![34u8] + escape(st.name) + seq![34u8]),
        entry(key_dirs(), decimal(st.dirs as nat)),
        entry(key_frames(), decimal(st.frames as nat)),
    ] + animation_lines(st) + hotspot_lines(st) + unknown_lines(st.unknown)
}

/// The lines of all states, one state after the other.
pub open spec fn states_lines(sts: Seq<StateModel>) -> Seq<Seq<u8>>
    decreases sts.len(),
{
    if sts.len() == 0 {
        Seq::empty()
    } else {
        state_lines(sts[0]) + states_lines(sts.drop_first())
    }
}

/// The header lines: the opening line, version, width and height.
pub open spec fn header_lines(m: ManifestModel) -> Seq<Seq<u8>> {
    seq![
        begin_line(),
        entry(key_version(), m.version),
        entry(key_width(), decimal(m.width as nat)),
        entry(key_height(), decimal(m.height as nat)),
    ]
}

/// Every line of the manifest, up to and including the end line.
pub open spec fn manifest_lines(m: ManifestModel) -> Seq<Seq<u8>> {
    header_lines(m) + states_lines(m.states) + seq![end_line()]
}

/// The manifest text: each line followed by a line feed.
pub open spec fn manifest_text(m: ManifestModel) -> Seq<u8> {
    join_terminated(manifest_lines(m), 10)
}

/// A state can be written: with more than one frame it has one delay per frame.
pub open spec fn state_writable(st: StateModel) -> bool {
    &&& st.frames > 1 ==> (st.delay is Some && st.delay->Some_0.len() == st.frames)
    &&& keys_distinct(st.unknown)
}

/// No two unknown settings share a key.
pub open spec fn keys_distinct(u: Option<Seq<(Seq<u8>, Seq<u8>)>>) -> bool {
    match u {
        None => true,
        Some(s) => distinct_keys(s),
    }
}

/// No two pairs of `s` share their first part.
pub open spec fn distinct_keys(s: Seq<(Seq<u8>, Seq<u8>)>) -> bool {
    forall|i: int, j: int| 0 <= i < j < s.len() ==> (#[trigger] s[i]).0 != (#[trigger] s[j]).0
}

/// Whether no two settings share a key.
fn keys_distinct_exec(u: &Vec<(Vec<u8>, Vec<u8>)>) -> (r: bool)
    ensures
        r == distinct_keys(pairs_view(u@)),
{
    let ghost s = pairs_view(u@);
    let mut i: usize = 0;
    while i < u.len()
        invariant
            i <= u@.len(),
            s == pairs_view(u@),
            forall|a: int, b: int| 0 <= a < b < s.len() && a < i ==> (#[trigger] s[a]).0 != (#[trigger] s[b]).0,
        decreases u@.len() - i,
    {
        let mut j: usize = i + 1;
        while j < u.len()
            invariant
                i < j <= u@.len(),
                i < u@.len(),
                s == pairs_view(u@),
                forall|a: int, b: int| 0 <= a < b < s.len() && a < i ==> (#[trigger] s[a]).0 != (#[trigger] s[b]).0,
                forall|b: int| i < b < j ==> s[i as int].0 != (#[trigger] s[b]).0,
            decreases u@.len() - j,
        {
            assert(s[i as int].0 == u@[i as int].0@ && s[j as int].0 == u@[j as int].0@);
            if crate::manifest::bytes_eq(u[i].0.as_slice(), u[j].0.as_slice()) {
                assert(s.len() == u@.len());
                assert(s[i as int].0 == s[j as int].0);
                assert(!distinct_keys(s)) by {
                    let ii = i as int;
                    let jj = j as int;
                    assert(0 <= ii < jj < s.len() && s[ii].0 == s[jj].0);
                    assert(!(forall|a: int, b: int| 0 <= a < b < s.len() ==> (#[trigger] s[a]).0 != (#[trigger] s[b]).0));
                }
                return false;
            }
            j = j + 1;
        }
        i = i + 1;
    }
    assert(s.len() == u@.len());
    true
}

pub proof fn lemma_join_single(l: Seq<u8>, sep: u8)
    ensures
        join_terminated(seq![l], sep) == l + seq![sep],
{
    let e = Seq::<Seq<u8>>::empty();
    assert(join_terminated(e, sep) == Seq::<u8>::empty());
    assert(seq![l].drop_first() =~= e);
    assert(join_terminated(seq![l], sep) == l + seq![sep] + join_terminated(e, sep));
    assert(l + seq![sep] + Seq::<u8>::empty() =~= l + seq![sep]);
}

pub proof fn lemma_join_push(ls: Seq<Seq<u8>>, l: Seq<u8>, sep: u8)
    ensures
        join_terminated(ls.push(l), sep) == join_terminated(ls, sep) + l + seq![sep],
    decreases ls.len(),
{
    if ls.len() == 0 {
        lemma_join_single(l, sep);
        assert(ls.push(l) =~= seq![l]);
        assert(join_terminated(ls, sep) == Seq::<u8>::empty());
        assert(join_terminated(ls.push(l), sep) =~= join_terminated(ls, sep) + l + seq![sep]);
    } else {
        lemma_join_push(ls.drop_first(), l, sep);
        assert(ls.push(l).drop_first() =~= ls.drop_first().push(l));
        assert(ls.push(l)[0] == ls[0]);
        assert(join_terminated(ls.push(l), sep) == ls[0] + seq![sep] + join_terminated(ls.drop_first().push(l), sep));
        assert(join_terminated(ls, sep) == ls[0] + seq![sep] + join_terminated(ls.drop_first(), sep));
        assert(join_terminated(ls.push(l), sep) =~= join_terminated(ls, sep) + l + seq![sep]);
    }
}

pub proof fn lemma_join_append(a: Seq<Seq<u8>>, b: Seq<Seq<u8>>, sep: u8)
    ensures
        join_terminated(a + b, sep) == join_terminated(a, sep) + join_terminated(b, sep),
    decreases a.len(),
{
    if a.len() == 0 {
        assert(a + b =~= b);
        assert(join_terminated(a, sep) + join_terminated(b, sep) =~= join_terminated(b, sep));
    } else {
        lemma_join_append(a.drop_first(), b, sep);
        assert((a + b).drop_first() =~= a.drop_first() + b);
        assert(join_terminated(a + b, sep) =~= join_terminated(a, sep) + join_terminated(b, sep));
    }
}

proof fn lemma_states_lines_push(sts: Seq<StateModel>, st: StateModel)
    ensures
        states_lines(sts.push(st)) == states_lines(sts) + state_lines(st),
    decreases sts.len(),
{
    if sts.len() == 0 {
        assert(sts.push(st).drop_first() =~= Seq::<StateModel>::empty());
        assert(states_lines(Seq::<StateModel>::empty()) == Seq::<Seq<u8>>::empty());
        assert(states_lines(sts.push(st)) == state_lines(st) + states_lines(sts.push(st).drop_first()));
        assert(states_lines(sts.push(st)) =~= states_lines(sts) + state_lines(st));
    } else {
        lemma_states_lines_push(sts.drop_first(), st);
        assert(sts.push(st).drop_first() =~= sts.drop_first().push(st));
        assert(sts.push(st)[0] == sts[0]);
        assert(states_lines(sts.push(st)) == state_lines(sts[0]) + states_lines(sts.drop_first().push(st)));
        assert(states_lines(sts.push(st)) =~= states_lines(sts) + state_lines(st));
    }
}

/// Appends the decimal digits of `x`.
pub fn push_decimal(out: &mut Vec<u8>, x: u32)
    ensures
        final(out)@ == old(out)@ + decimal(x as nat),
    decreases x,
{
    if x >= 10 {
        push_decimal(out, x / 10);
    }
    out.push((x % 10 + 48) as u8);
    proof {
        if x >= 10 {
            assert(final(out)@ =~= old(out)@ + decimal(x as nat));
        } else {
            assert(final(out)@ =~= old(out)@ + decimal(x as nat));
        }
    }
}

/// Appends the line `key = ` followed by whatever the caller adds.
fn push_key(out: &mut Vec<u8>, key: &[u8])
    ensures
        final(out)@ == old(out)@ + key@ + sep(),
{
    push_all(out, key);
    let s: [u8; 3] = [32, 61, 32];
    assert(s@ =~= sep());
    push_all(out, &s);
}

/// Appends the line `key = value` and a line feed.
fn push_entry(out: &mut Vec<u8>, key: &[u8], value: &[u8])
    ensures
        final(out)@ == old(out)@ + join_terminated(seq![entry(key@, value@)], 10),
{
    push_key(out, key);
    push_all(out, value);
    out.push(10);
    proof {
        lemma_join_single(entry(key@, value@), 10);
        assert(final(out)@ =~= old(out)@ + join_terminated(seq![entry(key@, value@)], 10));
    }
}

/// Appends the line `key = x` in decimal and a line feed.
fn push_entry_decimal(out: &mut Vec<u8>, key: &[u8], x: u32)
    ensures
        final(out)@ == old(out)@ + join_terminated(seq![entry(key@, decimal(x as nat))], 10),
{
    let mut v: Vec<u8> = Vec::new();
    push_decimal(&mut v, x);
    assert(v@ =~= decimal(x as nat));
    push_entry(out, key, v.as_slice());
}

/// Appends the three lines that open a state.
fn push_state_head(out: &mut Vec<u8>, st: &StateMeta)
    ensures
        final(out)@ == old(out)@ + join_terminated(state_lines(st.model()).subrange(0, 3), 10),
{
    let ghost m = st.model();
    let k_state: [u8; 5] = [115, 116, 97, 116, 101];
    let k_dirs: [u8; 5] = [9, 100, 105, 114, 115];
    let k_frames: [u8; 7] = [9, 102, 114, 97, 109, 101, 115];
    assert(k_state@ =~= key_state());
    assert(k_dirs@ =~= key_dirs());
    assert(k_frames@ =~= key_frames());
    let mut quoted: Vec<u8> = Vec::new();
    quoted.push(34);
    push_escaped(&mut quoted, st.name.as_slice());
    quoted.push(34);
    assert(quoted@ =~= seq![34u8] + escape(m.name) + seq![34u8]);
    let ghost o0 = out@;
    push_entry(out, &k_state, quoted.as_slice());
    let ghost o1 = out@;
    push_entry_decimal(out, &k_dirs, st.dirs as u32);
    let ghost o2 = out@;
    push_entry_decimal(out, &k_frames, st.frames);
    proof {
        let l0 = entry(key_state(), seq![34u8] + escape(m.name) + seq![34u8]);
        let l1 = entry(key_dirs(), decimal(m.dirs as nat));
        let l2 = entry(key_frames(), decimal(m.frames as nat));
        lemma_join_append(seq![l0], seq![l1], 10);
        lemma_join_append(seq![l0] + seq![l1], seq![l2], 10);
        assert(state_lines(m).subrange(0, 3) =~= seq![l0] + seq![l1] + seq![l2]);
        assert(final(out)@ =~= old(out)@ + join_terminated(state_lines(m).subrange(0, 3), 10));
    }
}

/// Appends the animation lines of a state.
fn push_animation(out: &mut Vec<u8>, st: &StateMeta)
    requires
        state_writable(st.model()),
    ensures
        final(out)@ == old(out)@ + join_terminated(animation_lines(st.model()), 10),
{
    let ghost m = st.model();
    if st.frames <= 1 {
        assert(animation_lines(m) =~= Seq::<Seq<u8>>::empty());
        assert(old(out)@ + join_terminated(animation_lines(m), 10) =~= old(out)@);
        return;
    }
    let k_delay: [u8; 6] = [9, 100, 101, 108, 97, 121];
    let k_loop: [u8; 5] = [9, 108, 111, 111, 112];
    let k_rewind: [u8; 7] = [9, 114, 101, 119, 105, 110, 100];
    let k_movement: [u8; 9] = [9, 109, 111, 118, 101, 109, 101, 110, 116];
    assert(k_delay@ =~= key_delay());
    assert(k_loop@ =~= key_loop());
    assert(k_rewind@ =~= key_rewind());
    assert(k_movement@ =~= key_movement());
    let mut joined: Vec<u8> = Vec::new();
    match &st.delay {
        Some(d) => push_joined(&mut joined, d),
        None => {},
    }
    push_entry(out, &k_delay, joined.as_slice());
    let ghost mut done: Seq<Seq<u8>> = seq![entry(key_delay(), join_separated(m.delay->Some_0, 44))];
    let one: [u8; 1] = [49];
    assert(one@ =~= seq![49u8]);
    if st.loop_times > 0 {
        let ghost before = out@;
        push_entry_decimal(out, &k_loop, st.loop_times);
        proof {
            let l = seq![entry(key_loop(), decimal(m.loop_times as nat))];
            lemma_join_append(done, l, 10);
            done = done + l;
        }
    }
    if st.rewind {
        push_entry(out, &k_rewind, &one);
        proof {
            let l = seq![entry(key_rewind(), seq![49u8])];
            lemma_join_append(done, l, 10);
            done = done + l;
        }
    }
    if st.movement {
        push_entry(out, &k_movement, &one);
        proof {
            let l = seq![entry(key_movement(), seq![49u8])];
            lemma_join_append(done, l, 10);
            done = done + l;
        }
    }
    assert(done =~= animation_lines(m));
}

/// Appends the hotspot line of a state, where it has one.
fn push_hotspot(out: &mut Vec<u8>, st: &StateMeta)
    ensures
        final(out)@ == old(out)@ + join_terminated(hotspot_lines(st.model()), 10),
{
    let ghost m = st.model();
    match st.hotspot {
        Some((x, y)) => {
            let k_hotspot: [u8; 8] = [9, 104, 111, 116, 115, 112, 111, 116];
            assert(k_hotspot@ =~= key_hotspot());
            let mut v: Vec<u8> = Vec::new();
            push_decimal(&mut v, x);
            v.push(44);
            push_decimal(&mut v, y);
            v.push(44);
            v.push(49);
            assert(v@ =~= decimal(x as nat) + seq![44u8] + decimal(y as nat) + seq![44u8, 49]);
            push_entry(out, &k_hotspot, v.as_slice());
        },
        None => {
            assert(old(out)@ + join_terminated(hotspot_lines(m), 10) =~= old(out)@);
        },
    }
}

/// Appends the unknown settings of a state, in order.
fn push_unknown(out: &mut Vec<u8>, st: &StateMeta)
    ensures
        final(out)@ == old(out)@ + join_terminated(unknown_lines(st.model().unknown), 10),
{
    let ghost m = st.model();
    match &st.unknown {
        Some(u) => {
            let ghost ul = unknown_lines(m.unknown);
            let mut i: usize = 0;
            assert(old(out)@ + join_terminated(ul.subrange(0, 0), 10) =~= old(out)@);
            while i < u.len()
                invariant
                    i <= u@.len(),
                    st.unknown == Some(*u),
                    m == st.model(),
                    ul == unknown_lines(m.unknown),
                    out@ == old(out)@ + join_terminated(ul.subrange(0, i as int), 10),
                decreases u@.len() - i,
            {
                push_entry(out, u[i].0.as_slice(), u[i].1.as_slice());
                proof {
                    let l = entry(u@[i as int].0@, u@[i as int].1@);
                    assert(pairs_view(u@)[i as int] == (u@[i as int].0@, u@[i as int].1@));
                    assert(ul[i as int] == l);
                    lemma_join_append(ul.subrange(0, i as int), seq![l], 10);
                    assert(ul.subrange(0, i + 1) =~= ul.subrange(0, i as int) + seq![l]);
                }
                i = i + 1;
            }
            assert(ul.subrange(0, i as int) =~= ul);
        },
        None => {
            assert(old(out)@ + join_terminated(unknown_lines(m.unknown), 10) =~= old(out)@);
        },
    }
}

/// Appends the text of one state's lines, each followed by a line feed.
///
/// Fails with `Generic` where the state has more than one frame and not one delay
/// per frame.
fn push_state(out: &mut Vec<u8>, st: &StateMeta) -> (r: Result<(), DmiError>)
    ensures
        r is Ok <==> state_writable(st.model()),
        r is Ok ==> final(out)@ == old(out)@ + join_terminated(state_lines(st.model()), 10),
        r is Err ==> r == Err::<(), DmiError>(DmiError::Generic),
{
    let ghost m = st.model();
    if st.frames > 1 {
        match &st.delay {
            None => return Err(DmiError::Generic),
            Some(d) => if d.len() as u64 != st.frames as u64 {
                return Err(DmiError::Generic);
            },
        }
    }
    if let Some(u) = &st.unknown {
        assert(m.unknown == Some(pairs_view(u@)));
        if !keys_distinct_exec(u) {
            return Err(DmiError::Generic);
        }
    }
    push_state_head(out, st);
    push_animation(out, st);
    push_hotspot(out, st);
    push_unknown(out, st);
    proof {
        let a = state_lines(m).subrange(0, 3);
        lemma_join_append(a, animation_lines(m), 10);
        lemma_join_append(a + animation_lines(m), hotspot_lines(m), 10);
        lemma_join_append(a + animation_lines(m) + hotspot_lines(m), unknown_lines(m.unknown), 10);
        assert(state_lines(m) =~= a + animation_lines(m) + hotspot_lines(m) + unknown_lines(m.unknown));
    }
    Ok(())
}

/// Appends the pieces with a comma between each two.
fn push_joined(out: &mut Vec<u8>, d: &Vec<Vec<u8>>)
    ensures
        final(out)@ == old(out)@ + join_separated(seqs_view(d@), 44),
{
    let n = d.len();
    let mut i: usize = n;
    // Build from the back: the text of pieces i.. is join_separated of that suffix.
    let ghost ds = seqs_view(d@);
    let mut tail: Vec<u8> = Vec::new();
    assert(ds.subrange(n as int, n as int) =~= Seq::<Seq<u8>>::empty());
    while i > 0
        invariant
            i <= n,
            n == d@.len(),
            ds == seqs_view(d@),
            tail@ == join_separated(ds.subrange(i as int, n as int), 44),
        decreases i,
    {
        i = i - 1;
        let mut piece: Vec<u8> = Vec::new();
        push_all(&mut piece, d[i].as_slice());
        let ghost suffix = ds.subrange(i + 1, n as int);
        let ghost whole = ds.subrange(i as int, n as int);
        assert(whole.drop_first() =~= suffix);
        assert(whole[0] == d@[i as int]@);
        if i + 1 < n {
            piece.push(44);
        }
        push_all(&mut piece, tail.as_slice());
        proof {
            if i + 1 < n {
                assert(piece@ =~= join_separated(whole, 44));
            } else {
                assert(suffix.len() == 0);
                assert(piece@ =~= join_separated(whole, 44));
            }
        }
        tail = piece;
    }
    assert(ds.subrange(0, n as int) =~= ds);
    push_all(out, tail.as_slice());
}

/// Writes the manifest text of `m`: see `manifest_text`.
///
/// Fails with `Generic` where a state of more than one frame lacks one delay per frame.
pub fn emit_manifest(m: &ManifestMeta) -> (r: Result<Vec<u8>, DmiError>)
    ensures
        r is Ok <==> (forall|i: int| 0 <= i < m.states@.len() ==> state_writable(#[trigger] m.states@[i].model())),
        r is Ok ==> r->Ok_0@ == manifest_text(m.model()),
        r is Err ==> r == Err::<Vec<u8>, DmiError>(DmiError::Generic),
{
    let ghost mm = m.model();
    let mut out: Vec<u8> = Vec::new();
    let begin: [u8; 11] = [35, 32, 66, 69, 71, 73, 78, 32, 68, 77, 73];
    let end: [u8; 9] = [35, 32, 69, 78, 68, 32, 68, 77, 73];
    let k_version: [u8; 7] = [118, 101, 114, 115, 105, 111, 110];
    let k_width: [u8; 6] = [9, 119, 105, 100, 116, 104];
    let k_height: [u8; 7] = [9, 104, 101, 105, 103, 104, 116];
    assert(begin@ =~= begin_line());
    assert(end@ =~= end_line());
    assert(k_version@ =~= key_version());
    assert(k_width@ =~= key_width());
    assert(k_height@ =~= key_height());
    push_all(&mut out, &begin);
    out.push(10);
    proof {
        lemma_join_single(begin_line(), 10);
        assert(out@ =~= join_terminated(seq![begin_line()], 10));
    }
    push_entry(&mut out, &k_version, m.version.as_slice());
    push_entry_decimal(&mut out, &k_width, m.width);
    push_entry_decimal(&mut out, &k_height, m.height);
    proof {
        let l0 = seq![begin_line()];
        let l1 = seq![entry(key_version(), mm.version)];
        let l2 = seq![entry(key_width(), decimal(mm.width as nat))];
        let l3 = seq![entry(key_height(), decimal(mm.height as nat))];
        lemma_join_append(l0, l1, 10);
        lemma_join_append(l0 + l1, l2, 10);
        lemma_join_append(l0 + l1 + l2, l3, 10);
        assert(header_lines(mm) =~= l0 + l1 + l2 + l3);
        assert(header_lines(mm) + states_lines(mm.states.subrange(0, 0)) =~= header_lines(mm));
    }
    let mut i: usize = 0;
    while i < m.states.len()
        invariant
            i <= m.states@.len(),
            mm == m.model(),
            forall|j: int| 0 <= j < i ==> state_writable(#[trigger] m.states@[j].model()),
            out@ == join_terminated(header_lines(mm) + states_lines(mm.states.subrange(0, i as int)), 10),
        decreases m.states@.len() - i,
    {
        let ghost before = out@;
        match push_state(&mut out, &m.states[i]) {
            Ok(()) => {},
            Err(e) => return Err(e),
        }
        proof {
            let st = m.states@[i as int].model();
            assert(mm.states[i as int] == st);
            assert(mm.states.subrange(0, i + 1) =~= mm.states.subrange(0, i as int).push(st));
            lemma_states_lines_push(mm.states.subrange(0, i as int), st);
            lemma_join_append(header_lines(mm) + states_lines(mm.states.subrange(0, i as int)), state_lines(st), 10);
            assert(header_lines(mm) + states_lines(mm.states.subrange(0, i + 1)) =~= (header_lines(mm) + states_lines(
                mm.states.subrange(0, i as int),
            )) + state_lines(st));
        }
        i = i + 1;
    }
    assert(mm.states.subrange(0, i as int) =~= mm.states);
    push_all(&mut out, &end);
    out.push(10);
    proof {
        lemma_join_push(header_lines(mm) + states_lines(mm.states), end_line(), 10);
        assert((header_lines(mm) + states_lines(mm.states)).push(end_line()) =~= manifest_lines(mm));
        assert(out@ =~= manifest_text(mm));
    }
    Ok(out)
}

} // verus!
