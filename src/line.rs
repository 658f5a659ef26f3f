use vstd::prelude::*;

use crate::bytes::copy_range;
use crate::error::DmiError;

verus! {

/// The pieces of `t` between separators `sep`, from a piece that starts at `start`
/// with `pos` the next byte to look at. A separator at the very end closes the
/// last piece and opens no new one.
pub open spec fn split_acc(t: Seq<u8>, sep: u8, start: int, pos: int) -> Seq<Seq<u8>>
    decreases t.len() - pos,
{
    if pos >= t.len() {
        if 0 <= start < t.len() {
            seq![t.subrange(start, t.len() as int)]
        } else {
            Seq::empty()
        }
    } else if t[pos] == sep {
        seq![t.subrange(start, pos)] + split_acc(t, sep, pos + 1, pos + 1)
    } else {
        split_acc(t, sep, start, pos + 1)
    }
}

/// The pieces of `t` between separators, as Rust's `split_terminator` gives them.
pub open spec fn split_pieces(t: Seq<u8>, sep: u8) -> Seq<Seq<u8>> {
    split_acc(t, sep, 0, 0)
}

/// A line without one trailing carriage return.
pub open spec fn strip_cr(l: Seq<u8>) -> Seq<u8> {
    if l.len() > 0 && l.last() == 13 {
        l.drop_last()
    } else {
        l
    }
}

/// The lines of `t` as Rust's `str::lines` gives them: split at line feeds, each
/// without a trailing carriage return, and no empty line after a final line feed.
pub open spec fn text_lines(t: Seq<u8>) -> Seq<Seq<u8>> {
    split_pieces(t, 10).map_values(|l: Seq<u8>| strip_cr(l))
}

/// Each piece followed by `sep`.
pub open spec fn join_terminated(ls: Seq<Seq<u8>>, sep: u8) -> Seq<u8>
    decreases ls.len(),
{
    if ls.len() == 0 {
        Seq::empty()
    } else {
        ls[0] + seq![sep] + join_terminated(ls.drop_first(), sep)
    }
}

/// The pieces with `sep` between each two of them.
pub open spec fn join_separated(ls: Seq<Seq<u8>>, sep: u8) -> Seq<u8>
    decreases ls.len(),
{
    if ls.len() == 0 {
        Seq::empty()
    } else if ls.len() == 1 {
        ls[0]
    } else {
        ls[0] + seq![sep] + join_separated(ls.drop_first(), sep)
    }
}

pub open spec fn free_of(l: Seq<u8>, c: u8) -> bool {
    forall|i: int| 0 <= i < l.len() ==> #[trigger] l[i] != c
}

proof fn lemma_split_skip(t: Seq<u8>, sep: u8, start: int, pos: int, e: int)
    requires
        0 <= start <= pos <= e < t.len(),
        t[e] == sep,
        forall|i: int| pos <= i < e ==> #[trigger] t[i] != sep,
    ensures
        split_acc(t, sep, start, pos) == seq![t.subrange(start, e)] + split_acc(t, sep, e + 1, e + 1),
    decreases e - pos,
{
    if pos < e {
        lemma_split_skip(t, sep, start, pos + 1, e);
    }
}

proof fn lemma_split_tail(t: Seq<u8>, sep: u8, start: int, pos: int)
    requires
        0 <= start <= pos <= t.len(),
        start < t.len(),
        forall|i: int| pos <= i < t.len() ==> #[trigger] t[i] != sep,
    ensures
        split_acc(t, sep, start, pos) == seq![t.subrange(start, t.len() as int)],
    decreases t.len() - pos,
{
    if pos < t.len() {
        lemma_split_tail(t, sep, start, pos + 1);
    }
}

/// Splitting pieces joined with a terminator gives back the pieces.
pub proof fn lemma_split_join_terminated(pre: Seq<u8>, ls: Seq<Seq<u8>>, sep: u8)
    requires
        forall|k: int| 0 <= k < ls.len() ==> free_of(#[trigger] ls[k], sep),
    ensures
        split_acc(pre + join_terminated(ls, sep), sep, pre.len() as int, pre.len() as int) == ls,
    decreases ls.len(),
{
    let t = pre + join_terminated(ls, sep);
    let p = pre.len() as int;
    if ls.len() == 0 {
        assert(t.len() == p);
        assert(split_acc(t, sep, p, p) =~= Seq::<Seq<u8>>::empty());
    } else {
        let l = ls[0];
        let pre2 = pre + l + seq![sep];
        assert(t =~= pre2 + join_terminated(ls.drop_first(), sep));
        assert forall|k: int| 0 <= k < ls.drop_first().len() implies free_of(#[trigger] ls.drop_first()[k], sep) by {
            assert(ls.drop_first()[k] == ls[k + 1]);
        }
        lemma_split_join_terminated(pre2, ls.drop_first(), sep);
        let e = p + l.len();
        assert(t[e] == sep);
        assert forall|i: int| p <= i < e implies #[trigger] t[i] != sep by {
            assert(t[i] == l[i - p]);
        }
        lemma_split_skip(t, sep, p, p, e);
        assert(t.subrange(p, e) =~= l);
        assert(pre2.len() == e + 1);
        assert(seq![l] + ls.drop_first() =~= ls);
    }
}

/// Splitting pieces joined with a separator gives back the pieces, where the last is
/// not empty.
pub proof fn lemma_split_join_separated(ls: Seq<Seq<u8>>, sep: u8)
    requires
        ls.len() > 0,
        ls.last().len() > 0,
        forall|k: int| 0 <= k < ls.len() ==> free_of(#[trigger] ls[k], sep),
    ensures
        split_pieces(join_separated(ls, sep), sep) == ls,
{
    lemma_separated_terminated(ls, sep);
    let body = join_terminated(ls.drop_last(), sep);
    let t = body + ls.last();
    assert forall|k: int| 0 <= k < ls.drop_last().len() implies free_of(#[trigger] ls.drop_last()[k], sep) by {
        assert(ls.drop_last()[k] == ls[k]);
    }
    lemma_split_prefix(body, ls.last(), ls.drop_last(), sep);
    assert(ls.drop_last() + seq![ls.last()] =~= ls);
}

proof fn lemma_separated_terminated(ls: Seq<Seq<u8>>, sep: u8)
    requires
        ls.len() > 0,
    ensures
        join_separated(ls, sep) == join_terminated(ls.drop_last(), sep) + ls.last(),
    decreases ls.len(),
{
    if ls.len() == 1 {
        assert(join_terminated(ls.drop_last(), sep) =~= Seq::<u8>::empty());
        assert(join_separated(ls, sep) =~= ls.last());
    } else {
        lemma_separated_terminated(ls.drop_first(), sep);
        assert(ls.drop_first().drop_last() =~= ls.drop_last().drop_first());
        assert(ls.drop_last()[0] == ls[0]);
        assert(join_separated(ls, sep) =~= join_terminated(ls.drop_last(), sep) + ls.last());
    }
}

proof fn lemma_split_prefix(body: Seq<u8>, last: Seq<u8>, ls: Seq<Seq<u8>>, sep: u8)
    requires
        body == join_terminated(ls, sep),
        last.len() > 0,
        free_of(last, sep),
        forall|k: int| 0 <= k < ls.len() ==> free_of(#[trigger] ls[k], sep),
    ensures
        split_pieces(body + last, sep) == ls + seq![last],
    decreases ls.len(),
{
    lemma_split_general(Seq::empty(), ls, last, sep);
    assert(Seq::<u8>::empty() + join_terminated(ls, sep) + last =~= body + last);
}

proof fn lemma_split_general(pre: Seq<u8>, ls: Seq<Seq<u8>>, last: Seq<u8>, sep: u8)
    requires
        last.len() > 0,
        free_of(last, sep),
        forall|k: int| 0 <= k < ls.len() ==> free_of(#[trigger] ls[k], sep),
    ensures
        split_acc(pre + join_terminated(ls, sep) + last, sep, pre.len() as int, pre.len() as int) == ls
            + seq![last],
    decreases ls.len(),
{
    let t = pre + join_terminated(ls, sep) + last;
    let p = pre.len() as int;
    if ls.len() == 0 {
        assert(t =~= pre + last);
        assert forall|i: int| p <= i < t.len() implies #[trigger] t[i] != sep by {
            assert(t[i] == last[i - p]);
        }
        lemma_split_tail(t, sep, p, p);
        assert(t.subrange(p, t.len() as int) =~= last);
        assert(ls + seq![last] =~= seq![last]);
    } else {
        let l = ls[0];
        let pre2 = pre + l + seq![sep];
        assert(t =~= pre2 + join_terminated(ls.drop_first(), sep) + last);
        assert forall|k: int| 0 <= k < ls.drop_first().len() implies free_of(#[trigger] ls.drop_first()[k], sep) by {
            assert(ls.drop_first()[k] == ls[k + 1]);
        }
        lemma_split_general(pre2, ls.drop_first(), last, sep);
        let e = p + l.len();
        assert(t[e] == sep);
        assert forall|i: int| p <= i < e implies #[trigger] t[i] != sep by {
            assert(t[i] == l[i - p]);
        }
        lemma_split_skip(t, sep, p, p, e);
        assert(t.subrange(p, e) =~= l);
        assert(seq![l] + (ls.drop_first() + seq![last]) =~= ls + seq![last]);
    }
}

/// Splits `t` into the pieces between separators `sep`.
pub fn split_bytes(t: &[u8], sep: u8) -> (r: Vec<Vec<u8>>)
    ensures
        r@.map_values(|p: Vec<u8>| p@) == split_pieces(t@, sep),
{
    let mut r: Vec<Vec<u8>> = Vec::new();
    let mut start: usize = 0;
    let mut pos: usize = 0;
    while pos < t.len()
        invariant
            start <= pos <= t@.len(),
            split_pieces(t@, sep) == r@.map_values(|p: Vec<u8>| p@) + split_acc(t@, sep, start as int, pos as int),
        decreases t@.len() - pos,
    {
        if t[pos] == sep {
            let piece = copy_range(t, start, pos);
            let ghost before = r@.map_values(|p: Vec<u8>| p@);
            r.push(piece);
            assert(r@.map_values(|p: Vec<u8>| p@) =~= before.push(t@.subrange(start as int, pos as int)));
            assert(before + (seq![t@.subrange(start as int, pos as int)] + split_acc(t@, sep, pos + 1, pos + 1))
                =~= r@.map_values(|p: Vec<u8>| p@) + split_acc(t@, sep, pos + 1, pos + 1));
            start = pos + 1;
        }
        pos = pos + 1;
    }
    if start < t.len() {
        let piece = copy_range(t, start, t.len());
        let ghost before = r@.map_values(|p: Vec<u8>| p@);
        r.push(piece);
        assert(r@.map_values(|p: Vec<u8>| p@) =~= before + split_acc(t@, sep, start as int, pos as int));
    } else {
        assert(r@.map_values(|p: Vec<u8>| p@) =~= r@.map_values(|p: Vec<u8>| p@) + split_acc(t@, sep, start as int, pos as int));
    }
    r
}

/// Splits text into lines as `str::lines` does.
pub fn split_lines(t: &[u8]) -> (r: Vec<Vec<u8>>)
    ensures
        r@.map_values(|p: Vec<u8>| p@) == text_lines(t@),
{
    let pieces = split_bytes(t, 10);
    let mut r: Vec<Vec<u8>> = Vec::new();
    let mut i: usize = 0;
    while i < pieces.len()
        invariant
            i <= pieces@.len(),
            pieces@.map_values(|p: Vec<u8>| p@) == split_pieces(t@, 10),
            r@.map_values(|p: Vec<u8>| p@) == split_pieces(t@, 10).subrange(0, i as int).map_values(
                |l: Seq<u8>| strip_cr(l),
            ),
        decreases pieces@.len() - i,
    {
        let p = &pieces[i];
        let n = p.len();
        let line = if n > 0 && p[n - 1] == 13 {
            copy_range(p.as_slice(), 0, n - 1)
        } else {
            copy_range(p.as_slice(), 0, n)
        };
        proof {
            assert(pieces@[i as int]@ == split_pieces(t@, 10)[i as int]);
            if n > 0 && p@[n - 1] == 13 {
                assert(line@ =~= strip_cr(p@));
            } else {
                assert(line@ =~= strip_cr(p@));
            }
        }
        let ghost before = r@.map_values(|p: Vec<u8>| p@);
        r.push(line);
        assert(r@.map_values(|p: Vec<u8>| p@) =~= before.push(line@));
        assert(split_pieces(t@, 10).subrange(0, i + 1).map_values(|l: Seq<u8>| strip_cr(l)) =~= split_pieces(
            t@,
            10,
        ).subrange(0, i as int).map_values(|l: Seq<u8>| strip_cr(l)).push(strip_cr(split_pieces(t@, 10)[i as int])));
        i = i + 1;
        assert(r@.map_values(|p: Vec<u8>| p@) =~= split_pieces(t@, 10).subrange(0, i as int).map_values(
            |l: Seq<u8>| strip_cr(l),
        ));
    }
    assert(split_pieces(t@, 10).subrange(0, i as int) =~= split_pieces(t@, 10));
    r
}

/// `" = "` stands at position `k` of `l`.
pub open spec fn is_sep_at(l: Seq<u8>, k: int) -> bool {
    0 <= k && k + 3 <= l.len() && l[k] == 32 && l[k + 1] == 61 && l[k + 2] == 32
}

/// The first position at or after `k` where `" = "` stands.
pub open spec fn find_sep_from(l: Seq<u8>, k: int) -> Option<int>
    decreases l.len() - k,
{
    if k < 0 || k + 3 > l.len() {
        None
    } else if is_sep_at(l, k) {
        Some(k)
    } else {
        find_sep_from(l, k + 1)
    }
}

/// The first fault of an unquoted value from position `i` on: a backslash (or a
/// quote where quotes are not allowed) is `Generic`; a quote where they are, a tab,
/// an equals sign or a space is `BlockEntry`.
pub open spec fn unquoted_fault(v: Seq<u8>, i: int, allow_quotes: bool) -> Option<DmiError>
    decreases v.len() - i,
{
    if i < 0 || i >= v.len() {
        None
    } else if v[i] == 92 || (v[i] == 34 && !allow_quotes) {
        Some(DmiError::Generic)
    } else if v[i] == 34 || v[i] == 9 || v[i] == 61 || v[i] == 32 {
        Some(DmiError::BlockEntry)
    } else {
        unquoted_fault(v, i + 1, allow_quotes)
    }
}

/// The text inside quotes with escapes undone: a backslash takes the next byte as
/// it is; a bare quote or a backslash at the end makes it invalid.
pub open spec fn unescape(b: Seq<u8>) -> Option<Seq<u8>>
    decreases b.len(),
{
    if b.len() == 0 {
        Some(Seq::empty())
    } else if b[0] == 92 {
        if b.len() < 2 {
            None
        } else {
            match unescape(b.subrange(2, b.len() as int)) {
                Some(r) => Some(seq![b[1]] + r),
                None => None,
            }
        }
    } else if b[0] == 34 {
        None
    } else {
        match unescape(b.subrange(1, b.len() as int)) {
            Some(r) => Some(seq![b[0]] + r),
            None => None,
        }
    }
}

/// One byte as it stands inside quotes: a backslash or a quote gets a backslash before it.
pub open spec fn escape_byte(c: u8) -> Seq<u8> {
    if c == 92 || c == 34 {
        seq![92u8, c]
    } else {
        seq![c]
    }
}

/// `s` with every backslash and quote escaped.
pub open spec fn escape(s: Seq<u8>) -> Seq<u8>
    decreases s.len(),
{
    if s.len() == 0 {
        Seq::empty()
    } else {
        escape_byte(s[0]) + escape(s.drop_first())
    }
}

/// Escaped text unescapes to what it was.
pub proof fn lemma_unescape_escape(s: Seq<u8>)
    ensures
        unescape(escape(s)) == Some(s),
    decreases s.len(),
{
    if s.len() > 0 {
        lemma_unescape_escape(s.drop_first());
        let e = escape(s);
        let c = s[0];
        if c == 92 || c == 34 {
            assert(e.subrange(2, e.len() as int) =~= escape(s.drop_first()));
        } else {
            assert(e.subrange(1, e.len() as int) =~= escape(s.drop_first()));
        }
        assert(seq![c] + s.drop_first() =~= s);
    } else {
        assert(escape(s) =~= Seq::<u8>::empty());
    }
}

/// How a manifest line splits into key and value.
///
/// The key is what precedes the first `" = "` and may hold no space; the value is
/// what follows and may not be empty. A value that starts with a quote, where quotes
/// are allowed, must end with one, and what lies between is unescaped. A value
/// without quotes is taken as it stands, and must be free of the bytes
/// `unquoted_fault` names. Where quotes are required and absent, the line fails
/// with `Generic`.
pub open spec fn split_line(l: Seq<u8>, allow_quotes: bool, require_quotes: bool) -> Result<
    (Seq<u8>, Seq<u8>),
    DmiError,
> {
    match find_sep_from(l, 0) {
        None => Err(DmiError::BlockEntry),
        Some(k) => {
            let key = l.subrange(0, k);
            let v = l.subrange(k + 3, l.len() as int);
            if !free_of(key, 32) || v.len() == 0 {
                Err(DmiError::BlockEntry)
            } else if allow_quotes && v[0] == 34 {
                if v.len() < 2 || v.last() != 34 {
                    Err(DmiError::BlockEntry)
                } else {
                    match unescape(v.subrange(1, v.len() - 1)) {
                        Some(x) => Ok((key, x)),
                        None => Err(DmiError::BlockEntry),
                    }
                }
            } else if allow_quotes && require_quotes {
                Err(DmiError::Generic)
            } else {
                match unquoted_fault(v, 0, allow_quotes) {
                    Some(e) => Err(e),
                    None => Ok((key, v)),
                }
            }
        },
    }
}

/// Splits a manifest line into key and value: see `split_line`.
pub fn parse_dmi_line(line: &[u8], allow_quotes: bool, require_quotes: bool) -> (r: Result<
    (Vec<u8>, Vec<u8>),
    DmiError,
>)
    ensures
        match split_line(line@, allow_quotes, require_quotes) {
            Ok((k, v)) => r is Ok && r->Ok_0.0@ == k && r->Ok_0.1@ == v,
            Err(e) => r == Err::<(Vec<u8>, Vec<u8>), DmiError>(e),
        },
{
    let n = line.len();
    let mut k: usize = 0;
    while n - k >= 3 && !(line[k] == 32 && line[k + 1] == 61 && line[k + 2] == 32)
        invariant
            k <= n,
            n == line@.len(),
            find_sep_from(line@, 0) == find_sep_from(line@, k as int),
        decreases n - k,
    {
        k = k + 1;
    }
    if n - k < 3 {
        return Err(DmiError::BlockEntry);
    }
    assert(find_sep_from(line@, 0) == Some(k as int));
    let mut i: usize = 0;
    while i < k
        invariant
            i <= k,
            k + 3 <= n,
            n == line@.len(),
            forall|j: int| 0 <= j < i ==> line@[j] != 32,
            find_sep_from(line@, 0) == Some(k as int),
        decreases k - i,
    {
        if line[i] == 32 {
            assert(line@.subrange(0, k as int)[i as int] == 32);
            assert(!free_of(line@.subrange(0, k as int), 32));
            return Err(DmiError::BlockEntry);
        }
        i = i + 1;
    }
    let key = copy_range(line, 0, k);
    assert(free_of(key@, 32));
    let v = &line[k + 3..n];
    assert(v@ =~= line@.subrange(k + 3, n as int));
    let m = v.len();
    if m == 0 {
        return Err(DmiError::BlockEntry);
    }
    if allow_quotes && v[0] == 34 {
        if m < 2 || v[m - 1] != 34 {
            return Err(DmiError::BlockEntry);
        }
        let body = &v[1..m - 1];
        match unescape_exec(body) {
            Some(x) => Ok((key, x)),
            None => Err(DmiError::BlockEntry),
        }
    } else if allow_quotes && require_quotes {
        Err(DmiError::Generic)
    } else {
        let mut j: usize = 0;
        while j < m
            invariant
                j <= m,
                m == v@.len(),
                unquoted_fault(v@, 0, allow_quotes) == unquoted_fault(v@, j as int, allow_quotes),
                v@ == line@.subrange(k + 3, n as int),
                n == line@.len(),
                find_sep_from(line@, 0) == Some(k as int),
                free_of(line@.subrange(0, k as int), 32),
                m > 0,
                !(allow_quotes && v@[0] == 34),
                !(allow_quotes && require_quotes),
            decreases m - j,
        {
            let c = v[j];
            if c == 92 || (c == 34 && !allow_quotes) {
                return Err(DmiError::Generic);
            }
            if c == 34 || c == 9 || c == 61 || c == 32 {
                return Err(DmiError::BlockEntry);
            }
            j = j + 1;
        }
        let value = copy_range(v, 0, m);
        assert(value@ =~= v@);
        Ok((key, value))
    }
}

/// Undoes the escapes of quoted text: see `unescape`.
pub fn unescape_exec(b: &[u8]) -> (r: Option<Vec<u8>>)
    ensures
        r is Some <==> unescape(b@) is Some,
        r is Some ==> r->Some_0@ == unescape(b@)->Some_0,
{
    let n = b.len();
    let mut out: Vec<u8> = Vec::new();
    let mut i: usize = 0;
    assert(b@.subrange(0, n as int) =~= b@);
    while i < n
        invariant
            i <= n,
            n == b@.len(),
            unescape(b@) == (match unescape(b@.subrange(i as int, n as int)) {
                Some(rest) => Some(out@ + rest),
                None => None,
            }),
        decreases n - i,
    {
        let ghost tail = b@.subrange(i as int, n as int);
        let ghost prev = out@;
        let c = b[i];
        if c == 92 {
            if i + 1 >= n {
                return None;
            }
            let ghost rest_tail = b@.subrange(i + 2, n as int);
            assert(tail.subrange(2, tail.len() as int) =~= rest_tail);
            out.push(b[i + 1]);
            proof {
                match unescape(rest_tail) {
                    Some(rest) => assert(prev + (seq![b@[i + 1]] + rest) =~= out@ + rest),
                    None => {},
                }
            }
            i = i + 2;
        } else if c == 34 {
            return None;
        } else {
            let ghost rest_tail = b@.subrange(i + 1, n as int);
            assert(tail.subrange(1, tail.len() as int) =~= rest_tail);
            out.push(c);
            proof {
                match unescape(rest_tail) {
                    Some(rest) => assert(prev + (seq![c] + rest) =~= out@ + rest),
                    None => {},
                }
            }
            i = i + 1;
        }
    }
    assert(b@.subrange(i as int, n as int) =~= Seq::<u8>::empty());
    assert(out@ + Seq::<u8>::empty() =~= out@);
    Some(out)
}

/// Appends `s` to `out` with every backslash and quote escaped.
pub fn push_escaped(out: &mut Vec<u8>, s: &[u8])
    ensures
        final(out)@ == old(out)@ + escape(s@),
{
    let n = s.len();
    let mut i: usize = 0;
    assert(s@.subrange(0, n as int) =~= s@);
    assert(old(out)@ + Seq::<u8>::empty() =~= old(out)@);
    while i < n
        invariant
            i <= n,
            n == s@.len(),
            old(out)@ + escape(s@) == out@ + escape(s@.subrange(i as int, n as int)),
        decreases n - i,
    {
        let ghost tail = s@.subrange(i as int, n as int);
        let ghost prev = out@;
        let c = s[i];
        if c == 92 || c == 34 {
            out.push(92);
        }
        out.push(c);
        assert(tail.drop_first() =~= s@.subrange(i + 1, n as int));
        assert(out@ =~= prev + escape_byte(c));
        assert(prev + escape(tail) =~= out@ + escape(tail.drop_first()));
        i = i + 1;
    }
    assert(escape(s@.subrange(i as int, n as int)) =~= Seq::<u8>::empty());
    assert(out@ + Seq::<u8>::empty() =~= out@);
}

} // verus!
