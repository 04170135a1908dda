use vstd::prelude::*;
use crate::text::{push_str_chars, string_from_chars};

verus! {

/// The state of a left-to-right scan for the separator `::`: the pieces
/// closed so far, the piece being read, and whether a single `:` is pending.
pub open spec fn split_step(
    st: (Seq<Seq<char>>, Seq<char>, bool),
    c: char,
) -> (Seq<Seq<char>>, Seq<char>, bool) {
    if c == ':' {
        if st.2 {
            (st.0.push(st.1), Seq::empty(), false)
        } else {
            (st.0, st.1, true)
        }
    } else if st.2 {
        (st.0, st.1.push(':').push(c), false)
    } else {
        (st.0, st.1.push(c), false)
    }
}

/// The scan state after reading all of `s`.
pub open spec fn split_state(s: Seq<char>) -> (Seq<Seq<char>>, Seq<char>, bool)
    decreases s.len(),
{
    if s.len() == 0 {
        (Seq::empty(), Seq::empty(), false)
    } else {
        split_step(split_state(s.drop_last()), s.last())
    }
}

/// The pieces of `s` between the occurrences of `::`, the occurrences being
/// taken from the left without overlap (as `str::split("::")` finds them).
pub open spec fn split_segments(s: Seq<char>) -> Seq<Seq<char>> {
    let st = split_state(s);
    st.0.push(if st.2 { st.1.push(':') } else { st.1 })
}

/// `parts` joined with `sep` between neighbours.
pub open spec fn join_with(parts: Seq<Seq<char>>, sep: Seq<char>) -> Seq<char>
    decreases parts.len(),
{
    if parts.len() == 0 {
        Seq::empty()
    } else if parts.len() == 1 {
        parts[0]
    } else {
        join_with(parts.drop_last(), sep) + sep + parts.last()
    }
}

/// The separator between the segments of a benchmark path.
pub open spec fn path_sep() -> Seq<char> {
    seq![':', ':']
}

/// The characters of each string of `v`.
pub open spec fn strings_view(v: Seq<String>) -> Seq<Seq<char>> {
    v.map_values(|s: String| s@)
}

proof fn lemma_join_extend_last(parts: Seq<Seq<char>>, x: Seq<char>, y: Seq<char>, sep: Seq<char>)
    ensures
        join_with(parts.push(x + y), sep) == join_with(parts.push(x), sep) + y,
{
    assert(parts.push(x + y).drop_last() =~= parts);
    assert(parts.push(x).drop_last() =~= parts);
    if parts.len() == 0 {
        assert(join_with(parts.push(x + y), sep) == x + y);
        assert(join_with(parts.push(x), sep) == x);
    } else {
        assert(join_with(parts.push(x + y), sep) == join_with(parts, sep) + sep + (x + y));
        assert(join_with(parts.push(x), sep) == join_with(parts, sep) + sep + x);
        assert(join_with(parts, sep) + sep + (x + y) =~= join_with(parts, sep) + sep + x + y);
    }
}

proof fn lemma_split_state_rebuilds(s: Seq<char>)
    ensures
        ({
            let st = split_state(s);
            s == join_with(st.0.push(st.1), path_sep()) + (if st.2 {
                seq![':']
            } else {
                Seq::empty()
            })
        }),
    decreases s.len(),
{
    let sep = path_sep();
    if s.len() == 0 {
        assert(join_with(Seq::<Seq<char>>::empty().push(Seq::empty()), sep) =~= Seq::<char>::empty());
        assert(s =~= Seq::<char>::empty() + Seq::<char>::empty());
    } else {
        let prev = s.drop_last();
        let c = s.last();
        lemma_split_state_rebuilds(prev);
        let st = split_state(prev);
        assert(s =~= prev.push(c));
        let base = join_with(st.0.push(st.1), sep);
        if c == ':' {
            if st.2 {
                let parts = st.0.push(st.1);
                assert(parts.push(Seq::<char>::empty()).drop_last() =~= parts);
                assert(join_with(parts.push(Seq::empty()), sep) == base + sep + Seq::<char>::empty());
                assert(s =~= base + sep + Seq::<char>::empty());
            } else {
                assert(s =~= base + seq![':']);
            }
        } else {
            if st.2 {
                lemma_join_extend_last(st.0, st.1, seq![':', c], sep);
                assert(st.1.push(':').push(c) =~= st.1 + seq![':', c]);
                assert(s =~= base + seq![':', c]);
                assert(s =~= base + seq![':', c] + Seq::<char>::empty());
            } else {
                lemma_join_extend_last(st.0, st.1, seq![c], sep);
                assert(st.1.push(c) =~= st.1 + seq![c]);
                assert(s =~= base + seq![c] + Seq::<char>::empty());
            }
        }
    }
}

/// Splitting a path at `::` and joining the segments with `::` gives the
/// path back.
pub proof fn lemma_join_split_roundtrip(s: Seq<char>)
    ensures
        join_with(split_segments(s), path_sep()) == s,
{
    let st = split_state(s);
    lemma_split_state_rebuilds(s);
    if st.2 {
        lemma_join_extend_last(st.0, st.1, seq![':'], path_sep());
        assert(st.1.push(':') =~= st.1 + seq![':']);
    } else {
        assert(s =~= join_with(st.0.push(st.1), path_sep()));
    }
}

/// `s` holds the separator `::` starting at position `k`.
pub open spec fn sep_at(s: Seq<char>, k: int) -> bool {
    0 <= k && k + 1 < s.len() && s[k] == ':' && s[k + 1] == ':'
}

/// No piece closed so far, and not the piece being read, holds `::`, and
/// none of them ends in `:` (a pending `:` is kept apart).
proof fn lemma_split_state_clean(s: Seq<char>)
    ensures
        ({
            let st = split_state(s);
            &&& forall|i: int, k: int| 0 <= i < st.0.len() ==> !#[trigger] sep_at(st.0[i], k)
            &&& forall|i: int| 0 <= i < st.0.len() ==> #[trigger] st.0[i].len() == 0 || st.0[i].last() != ':'
            &&& forall|k: int| !#[trigger] sep_at(st.1, k)
            &&& st.1.len() == 0 || st.1.last() != ':'
        }),
    decreases s.len(),
{
    if s.len() > 0 {
        lemma_split_state_clean(s.drop_last());
        let st = split_state(s.drop_last());
        let c = s.last();
        let nx = split_step(st, c);
        if c == ':' {
            if st.2 {
                assert forall|i: int, k: int| 0 <= i < nx.0.len() implies !#[trigger] sep_at(nx.0[i], k) by {
                    if i < st.0.len() {
                        assert(nx.0[i] == st.0[i]);
                    } else {
                        assert(nx.0[i] == st.1);
                    }
                }
                assert forall|i: int| 0 <= i < nx.0.len() implies #[trigger] nx.0[i].len() == 0
                    || nx.0[i].last() != ':' by {
                    if i < st.0.len() {
                        assert(nx.0[i] == st.0[i]);
                    } else {
                        assert(nx.0[i] == st.1);
                    }
                }
            }
        } else {
            let cur = st.1;
            let n = if st.2 { cur.push(':').push(c) } else { cur.push(c) };
            assert(nx.1 == n);
            assert forall|k: int| !#[trigger] sep_at(n, k) by {
                if sep_at(n, k) {
                    if k + 1 < cur.len() {
                        assert(n[k] == cur[k] && n[k + 1] == cur[k + 1]);
                        assert(sep_at(cur, k));
                    } else if k + 1 == cur.len() {
                        assert(n[k] == cur.last());
                    } else if st.2 {
                        assert(k == cur.len());
                        assert(n[k + 1] == c);
                    } else {
                        assert(n[k + 1] == c);
                    }
                }
            }
            assert(n.last() == c);
        }
    }
}

/// The segments that a path is split into never hold the separator `::`,
/// and every segment but the last does not end in `:`: each separator is
/// the leftmost `::` that is left, as `str::split("::")` takes them.
/// Together with [`lemma_join_split_roundtrip`] this fixes the segments.
pub proof fn lemma_segments_hold_no_separator(s: Seq<char>)
    ensures
        forall|i: int, k: int|
            0 <= i < split_segments(s).len() ==> !#[trigger] sep_at(split_segments(s)[i], k),
        forall|i: int|
            0 <= i < split_segments(s).len() - 1 ==> #[trigger] split_segments(s)[i].len() == 0
                || split_segments(s)[i].last() != ':',
{
    lemma_split_state_clean(s);
    let st = split_state(s);
    let segs = split_segments(s);
    let last = if st.2 { st.1.push(':') } else { st.1 };
    assert(segs == st.0.push(last));
    assert forall|k: int| !#[trigger] sep_at(last, k) by {
        if st.2 && sep_at(last, k) {
            if k + 1 < st.1.len() {
                assert(sep_at(st.1, k));
            } else {
                assert(last[k] == st.1.last());
            }
        }
    }
    assert forall|i: int, k: int| 0 <= i < segs.len() implies !#[trigger] sep_at(segs[i], k) by {
        if i < st.0.len() {
            assert(segs[i] == st.0[i]);
        }
    }
    assert forall|i: int| 0 <= i < segs.len() - 1 implies #[trigger] segs[i].len() == 0
        || segs[i].last() != ':' by {
        assert(segs[i] == st.0[i]);
    }
}

/// Splits a benchmark path such as `a::b::c` into its segments.
pub fn split_path(name: &str) -> (parts: Vec<String>)
    ensures
        strings_view(parts@) == split_segments(name@),
{
    let n = name.unicode_len();
    let mut parts: Vec<String> = Vec::new();
    let mut cur: Vec<char> = Vec::new();
    let mut pending = false;
    let mut i: usize = 0;
    while i < n
        invariant
            i <= n,
            n == name@.len(),
            (strings_view(parts@), cur@, pending) == split_state(name@.subrange(0, i as int)),
        decreases n - i,
    {
        let c = name.get_char(i);
        let ghost before = name@.subrange(0, i as int);
        proof {
            assert(name@.subrange(0, i + 1).drop_last() =~= before);
        }
        if c == ':' {
            if pending {
                let piece = string_from_chars(&cur);
                parts.push(piece);
                cur = Vec::new();
                pending = false;
                assert(strings_view(parts@) =~= split_state(before).0.push(piece@));
            } else {
                pending = true;
            }
        } else {
            if pending {
                cur.push(':');
            }
            cur.push(c);
            pending = false;
        }
        i = i + 1;
    }
    proof {
        assert(name@.subrange(0, n as int) =~= name@);
    }
    if pending {
        cur.push(':');
    }
    let last = string_from_chars(&cur);
    parts.push(last);
    assert(strings_view(parts@) =~= split_segments(name@));
    parts
}

/// Joins `parts` with `sep` between neighbours.
pub fn join_path(parts: &Vec<String>, sep: &str) -> (joined: String)
    ensures
        joined@ == join_with(strings_view(parts@), sep@),
{
    let mut out: Vec<char> = Vec::new();
    let mut i: usize = 0;
    while i < parts.len()
        invariant
            i <= parts.len(),
            out@ == join_with(strings_view(parts@.subrange(0, i as int)), sep@),
        decreases parts.len() - i,
    {
        let ghost prev = strings_view(parts@.subrange(0, i as int));
        if i > 0 {
            push_str_chars(&mut out, sep);
        }
        push_str_chars(&mut out, parts[i].as_str());
        proof {
            let next = strings_view(parts@.subrange(0, i + 1));
            assert(next.drop_last() =~= prev);
            assert(next.last() == parts@[i as int]@);
            if i == 0 {
                assert(next.len() == 1);
            }
        }
        i = i + 1;
    }
    assert(parts@.subrange(0, parts.len() as int) =~= parts@);
    string_from_chars(&out)
}

/// The name of the file that holds the samples of the benchmark `name`:
/// every `::` of the name becomes a `/`, and `.txt` is appended.
pub fn result_file_name(name: &str) -> (file: String)
    ensures
        file@ == join_with(split_segments(name@), seq!['/']) + seq!['.', 't', 'x', 't'],
{
    let parts = split_path(name);
    let joined = join_path(&parts, "/");
    let mut out: Vec<char> = Vec::new();
    push_str_chars(&mut out, joined.as_str());
    out.push('.');
    out.push('t');
    out.push('x');
    out.push('t');
    proof {
        reveal_strlit("/");
        assert("/"@ =~= seq!['/']);
    }
    string_from_chars(&out)
}

} // verus!
