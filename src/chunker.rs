use vstd::prelude::*;

use crate::job::TtsError;

verus! {

/// A segment as produced by the scanner: its terminating punctuation (if any)
/// and the text before it.
pub type SegmentView = (Option<char>, Seq<char>);

/// Characters that end a segment.
pub open spec fn is_separator(c: char) -> bool {
    c == '.' || c == ','
}

/// Scans `s` left to right and returns the segments closed so far together
/// with the text of the segment still open.
pub open spec fn scan(s: Seq<char>) -> (Seq<SegmentView>, Seq<char>)
    decreases s.len(),
{
    if s.len() == 0 {
        (Seq::empty(), Seq::empty())
    } else {
        let prev = scan(s.drop_last());
        let c = s.last();
        if is_separator(c) {
            (prev.0.push((Some(c), prev.1)), Seq::empty())
        } else {
            (prev.0, prev.1.push(c))
        }
    }
}

/// The segments of `s`: every `.` or `,` closes one, and a non-empty tail
/// without punctuation forms the last one.
pub open spec fn segments(s: Seq<char>) -> Seq<SegmentView> {
    let (closed, open) = scan(s);
    if open.len() == 0 {
        closed
    } else {
        closed.push((None, open))
    }
}

/// The text a segment stands for, punctuation included.
pub open spec fn segment_text(p: SegmentView) -> Seq<char> {
    match p.0 {
        Some(c) => p.1.push(c),
        None => p.1,
    }
}

/// The texts of the segments of `s`, in order.
pub open spec fn segment_texts(s: Seq<char>) -> Seq<Seq<char>> {
    segments(s).map_values(|p: SegmentView| segment_text(p))
}

/// Relies on `String::push`: appends one character at the end.
#[verifier::external_body]
fn push_char(s: &mut String, c: char)
    ensures
        final(s)@ == old(s)@.push(c),
{
    s.push(c)
}

/// Splits `text` into its segments, keeping each terminating `.` or `,` beside
/// the text it closes.
pub fn split_str_and_include_separator(text: &str) -> (r: Vec<(Option<char>, String)>)
    ensures
        r.deep_view() == segments(text@),
{
    let mut pieces: Vec<(Option<char>, String)> = Vec::new();
    let mut buffer = String::new();
    let ghost mut seen: Seq<char> = Seq::empty();
    for c in it: text.chars()
        invariant
            it.seq() == text@,
            seen == text@.take(it.index() as int),
            pieces.deep_view() == scan(seen).0,
            buffer@ == scan(seen).1,
    {
        proof {
            seen = seen.push(c);
            assert(seen.drop_last() == text@.take(it.index() as int));
        }
        if c == '.' || c == ',' {
            let piece = buffer;
            buffer = String::new();
            pieces.push((Some(c), piece));
        } else {
            push_char(&mut buffer, c);
        }
        proof {
            assert(seen == text@.take(it.index() + 1));
        }
    }
    proof {
        assert(seen == text@);
    }
    if buffer.as_str().unicode_len() > 0 {
        pieces.push((None, buffer));
    }
    pieces
}

/// Packs segment texts left to right: the chunks completed so far and the
/// chunk still open. A segment joins the open chunk unless that chunk is
/// non-empty and would then grow past `max`; in that case the open chunk is
/// completed and the segment starts the next one. A segment is never cut.
pub open spec fn pack(ts: Seq<Seq<char>>, max: nat) -> (Seq<Seq<char>>, Seq<char>)
    decreases ts.len(),
{
    if ts.len() == 0 {
        (Seq::empty(), Seq::empty())
    } else {
        let prev = pack(ts.drop_last(), max);
        let t = ts.last();
        if prev.1.len() > 0 && prev.1.len() + t.len() > max {
            (prev.0.push(prev.1), t)
        } else {
            (prev.0, prev.1 + t)
        }
    }
}

/// All chunks of the packed segment texts, the last open chunk included when
/// it is non-empty.
pub open spec fn chunks_of(ts: Seq<Seq<char>>, max: nat) -> Seq<Seq<char>> {
    let (done, open) = pack(ts, max);
    if open.len() == 0 {
        done
    } else {
        done.push(open)
    }
}

/// The chunks that `text` is divided into under the limit `max`.
pub open spec fn chunks(text: Seq<char>, max: nat) -> Seq<Seq<char>> {
    chunks_of(segment_texts(text), max)
}

/// Divides `text` into chunks of at most `max_len` characters, splitting only
/// after a `.` or `,`. A single segment longer than `max_len` forms a chunk of
/// its own.
pub fn chunk_text(text: &str, max_len: usize) -> (r: Vec<String>)
    ensures
        r.deep_view() == chunks(text@, max_len as nat),
{
    let pieces = split_str_and_include_separator(text);
    let ghost ts = segment_texts(text@);
    let mut chunks: Vec<String> = Vec::new();
    let mut buffer = String::new();
    let mut buffer_len: usize = 0;
    for i in 0..pieces.len()
        invariant
            pieces.deep_view() == segments(text@),
            ts == segment_texts(text@),
            ts.len() == pieces.len(),
            chunks.deep_view() == pack(ts.take(i as int), max_len as nat).0,
            buffer@ == pack(ts.take(i as int), max_len as nat).1,
            buffer_len == buffer@.len(),
    {
        let mut segment = pieces[i].1.clone();
        match pieces[i].0 {
            Some(c) => push_char(&mut segment, c),
            None => {},
        }
        let segment_len = segment.as_str().unicode_len();
        proof {
            assert(pieces.deep_view()[i as int] == (pieces[i as int].0, pieces[i as int].1@));
            assert(segment@ == ts[i as int]);
            assert(ts.take(i + 1).drop_last() == ts.take(i as int));
        }
        if buffer_len > 0 && (segment_len > max_len || buffer_len > max_len - segment_len) {
            let done = buffer;
            buffer = String::new();
            chunks.push(done);
            buffer_len = 0;
        }
        buffer.append(segment.as_str());
        buffer_len = buffer_len + segment_len;
    }
    proof {
        assert(ts.take(pieces.len() as int) == ts);
    }
    if buffer_len > 0 {
        chunks.push(buffer);
    }
    chunks
}

proof fn lemma_scan_flatten(s: Seq<char>)
    ensures
        scan(s).0.map_values(|p: SegmentView| segment_text(p)).flatten() + scan(s).1 == s,
        forall|j: int|
            0 <= j < scan(s).0.len() ==> #[trigger] segment_text(scan(s).0[j]).len() > 0,
    decreases s.len(),
{
    broadcast use Seq::lemma_flatten_push;

    if s.len() > 0 {
        let prev = scan(s.drop_last());
        lemma_scan_flatten(s.drop_last());
        let f = |p: SegmentView| segment_text(p);
        let c = s.last();
        assert(s.drop_last().push(c) == s);
        if is_separator(c) {
            let p = (Some(c), prev.1);
            assert(prev.0.push(p).map_values(f) == prev.0.map_values(f).push(segment_text(p)));
            assert(prev.0.map_values(f).flatten() + prev.1.push(c) == s);
        } else {
            assert(prev.0.map_values(f).flatten() + prev.1.push(c) == s);
        }
    }
}

/// The segment texts of `text`, read in order, are `text` again; none of
/// them is empty.
pub proof fn lemma_segments_round_trip(text: Seq<char>)
    ensures
        segment_texts(text).flatten() == text,
        forall|j: int|
            0 <= j < segment_texts(text).len() ==> #[trigger] segment_texts(text)[j].len() > 0,
{
    broadcast use Seq::lemma_flatten_push;

    lemma_scan_flatten(text);
    let (closed, open) = scan(text);
    let f = |p: SegmentView| segment_text(p);
    if open.len() > 0 {
        let p = (None, open);
        assert(closed.push(p).map_values(f) == closed.map_values(f).push(segment_text(p)));
        assert(closed.push(p)[closed.len() as int] == p);
    }
}

proof fn lemma_pack_flatten(ts: Seq<Seq<char>>, max: nat)
    ensures
        pack(ts, max).0.flatten() + pack(ts, max).1 == ts.flatten(),
    decreases ts.len(),
{
    broadcast use Seq::lemma_flatten_push;

    if ts.len() > 0 {
        lemma_pack_flatten(ts.drop_last(), max);
        assert(ts.drop_last().push(ts.last()) == ts);
        let prev = pack(ts.drop_last(), max);
        assert(prev.0.flatten() + prev.1 + ts.last() == ts.flatten());
    }
}

proof fn lemma_scan_shape(s: Seq<char>)
    ensures
        forall|i: int| 0 <= i < scan(s).1.len() ==> !is_separator(#[trigger] scan(s).1[i]),
        forall|j: int|
            0 <= j < scan(s).0.len() ==> ((#[trigger] scan(s).0[j]).0 matches Some(c) && is_separator(c)),
        forall|j: int, i: int|
            0 <= j < scan(s).0.len() && 0 <= i < scan(s).0[j].1.len() ==> !is_separator(
                #[trigger] scan(s).0[j].1[i],
            ),
    decreases s.len(),
{
    if s.len() > 0 {
        lemma_scan_shape(s.drop_last());
        let prev = scan(s.drop_last());
        let c = s.last();
        if is_separator(c) {
            let closed = prev.0.push((Some(c), prev.1));
            assert forall|j: int, i: int| 0 <= j < closed.len() && 0 <= i < closed[j].1.len() implies !is_separator(
                #[trigger] closed[j].1[i],
            ) by {
                if j < prev.0.len() {
                    assert(closed[j] == prev.0[j]);
                }
            }
        } else {
            assert forall|i: int| 0 <= i < prev.1.push(c).len() implies !is_separator(#[trigger] prev.1.push(c)[i]) by {
                if i < prev.1.len() {
                    assert(prev.1.push(c)[i] == prev.1[i]);
                }
            }
        }
    }
}

/// Each segment of `text` holds a `.` or `,` only as its last character,
/// and every segment but the last ends with one.
pub proof fn lemma_segments_end_at_punctuation(text: Seq<char>)
    ensures
        forall|j: int, i: int|
            0 <= j < segment_texts(text).len() && 0 <= i < segment_texts(text)[j].len() - 1
                ==> !is_separator(#[trigger] segment_texts(text)[j][i]),
        forall|j: int|
            0 <= j < segment_texts(text).len() - 1 ==> is_separator(
                (#[trigger] segment_texts(text)[j]).last(),
            ),
{
    lemma_scan_shape(text);
    lemma_segments_round_trip(text);
    let (closed, open) = scan(text);
    let ts = segment_texts(text);
    let segs = segments(text);
    assert forall|j: int| 0 <= j < closed.len() implies #[trigger] segs[j] == closed[j] by {
        if open.len() > 0 {
            assert(closed.push((None, open))[j] == closed[j]);
        }
    }
    assert forall|j: int, i: int| 0 <= j < ts.len() && 0 <= i < ts[j].len() - 1 implies !is_separator(
        #[trigger] ts[j][i],
    ) by {
        assert(ts[j] == segment_text(segs[j]));
        if j < closed.len() {
            assert(segs[j] == closed[j]);
            assert(ts[j][i] == closed[j].1[i]);
        } else {
            assert(segs[j] == (None::<char>, open));
            assert(ts[j][i] == open[i]);
        }
    }
    assert forall|j: int| 0 <= j < ts.len() - 1 implies is_separator((#[trigger] ts[j]).last()) by {
        assert(ts[j] == segment_text(segs[j]));
        assert(segs[j] == closed[j]);
    }
}

/// Reading the chunks of `text` in order gives back `text` exactly: no
/// character is dropped, repeated or moved.
pub proof fn lemma_chunks_round_trip(text: Seq<char>, max: nat)
    ensures
        chunks(text, max).flatten() == text,
{
    broadcast use Seq::lemma_flatten_push;

    let ts = segment_texts(text);
    lemma_segments_round_trip(text);
    lemma_pack_flatten(ts, max);
}

/// Index of the first segment of each completed chunk, followed by the index
/// of the first segment of the open chunk.
spec fn pack_starts(ts: Seq<Seq<char>>, max: nat) -> Seq<int>
    decreases ts.len(),
{
    if ts.len() == 0 {
        seq![0]
    } else {
        let prev = pack(ts.drop_last(), max);
        let starts = pack_starts(ts.drop_last(), max);
        if prev.1.len() > 0 && prev.1.len() + ts.last().len() > max {
            starts.push(ts.len() - 1)
        } else {
            starts
        }
    }
}

spec fn packed_from_runs(ts: Seq<Seq<char>>, max: nat, done: Seq<Seq<char>>, open: Seq<char>, st: Seq<int>) -> bool {
    &&& st.len() == done.len() + 1
    &&& st[0] == 0
    &&& st.last() <= ts.len()
    &&& forall|k: int| 0 <= k < st.len() ==> 0 <= #[trigger] st[k] <= st.last()
    &&& forall|k: int| 0 <= k < done.len() ==> #[trigger] st[k] < st[k + 1]
    &&& forall|k: int| 0 <= k < done.len() ==> #[trigger] done[k] == ts.subrange(st[k], st[k + 1]).flatten()
    &&& forall|k: int| 0 <= k < done.len() ==> #[trigger] done[k].len() > max ==> st[k + 1] == st[k] + 1
    &&& open == ts.subrange(st.last(), ts.len() as int).flatten()
    &&& (open.len() == 0 <==> st.last() == ts.len())
    &&& open.len() > max ==> ts.len() == st.last() + 1
}

proof fn lemma_pack_runs(ts: Seq<Seq<char>>, max: nat)
    requires
        forall|j: int| 0 <= j < ts.len() ==> #[trigger] ts[j].len() > 0,
    ensures
        packed_from_runs(ts, max, pack(ts, max).0, pack(ts, max).1, pack_starts(ts, max)),
    decreases ts.len(),
{
    broadcast use Seq::lemma_flatten_push;

    if ts.len() == 0 {
        assert(ts.subrange(0, 0) == Seq::<Seq<char>>::empty());
    } else {
        let pre = ts.drop_last();
        let n = pre.len() as int;
        let t = ts.last();
        assert(forall|j: int| 0 <= j < pre.len() ==> #[trigger] pre[j] == ts[j]);
        lemma_pack_runs(pre, max);
        let (done0, open0) = pack(pre, max);
        let st0 = pack_starts(pre, max);
        assert forall|a: int, b: int| 0 <= a <= b <= n implies #[trigger] ts.subrange(a, b) == pre.subrange(a, b) by {
            assert(ts.subrange(a, b) =~= pre.subrange(a, b));
        }
        assert(t.len() > 0);
        if open0.len() > 0 && open0.len() + t.len() > max {
            let done = done0.push(open0);
            let st = st0.push(n);
            assert(ts.subrange(st0.last(), n) == pre.subrange(st0.last(), n));
            assert(ts.subrange(n, n + 1) == seq![t]);
            assert(seq![t] == Seq::<Seq<char>>::empty().push(t));
            assert(seq![t].flatten() == t);
            assert forall|k: int| 0 <= k < done.len() implies #[trigger] done[k] == ts.subrange(st[k], st[k + 1]).flatten() by {
                if k < done0.len() {
                    assert(done[k] == done0[k]);
                    assert(ts.subrange(st0[k], st0[k + 1]) == pre.subrange(st0[k], st0[k + 1]));
                }
            }
            assert forall|k: int| 0 <= k < done.len() && #[trigger] done[k].len() > max implies st[k + 1] == st[k] + 1 by {
                if k < done0.len() {
                    assert(done[k] == done0[k]);
                }
            }
            assert(packed_from_runs(ts, max, done, t, st));
        } else {
            let open = open0 + t;
            assert(ts.subrange(st0.last(), n + 1) == pre.subrange(st0.last(), n).push(t));
            assert forall|k: int| 0 <= k < done0.len() implies #[trigger] done0[k] == ts.subrange(st0[k], st0[k + 1]).flatten() by {
                assert(ts.subrange(st0[k], st0[k + 1]) == pre.subrange(st0[k], st0[k + 1]));
            }
            assert(packed_from_runs(ts, max, done0, open, st0));
        }
    }
}

/// `b` marks where each of the chunks `cs` begins and ends among the segment
/// texts `ts`: chunk `k` is exactly the segments from `b[k]` up to `b[k + 1]`,
/// the first chunk begins at the first segment and the last ends with the
/// last segment.
pub open spec fn chunk_bounds(cs: Seq<Seq<char>>, ts: Seq<Seq<char>>, b: Seq<int>) -> bool {
    &&& b.len() == cs.len() + 1
    &&& b[0] == 0
    &&& b.last() == ts.len()
    &&& forall|k: int|
        0 <= k < cs.len() ==> b[k] < b[k + 1] && #[trigger] cs[k] == ts.subrange(b[k], b[k + 1]).flatten()
}

proof fn lemma_chunk_runs(text: Seq<char>, max: nat) -> (b: Seq<int>)
    ensures
        chunk_bounds(chunks(text, max), segment_texts(text), b),
        forall|k: int| 0 <= k < b.len() ==> 0 <= #[trigger] b[k] <= segment_texts(text).len(),
        forall|k: int|
            0 <= k < chunks(text, max).len() ==> #[trigger] chunks(text, max)[k].len() > max ==> b[k + 1] == b[k] + 1,
{
    let ts = segment_texts(text);
    lemma_segments_round_trip(text);
    lemma_pack_runs(ts, max);
    let (done, open) = pack(ts, max);
    let st = pack_starts(ts, max);
    if open.len() == 0 {
        assert(chunks(text, max) == done);
        st
    } else {
        let b = st.push(ts.len() as int);
        let cs = done.push(open);
        assert(chunks(text, max) == cs);
        assert forall|k: int| 0 <= k < cs.len() implies b[k] < b[k + 1] && #[trigger] cs[k] == ts.subrange(b[k], b[k + 1]).flatten() by {
            if k < done.len() {
                assert(cs[k] == done[k]);
            }
        }
        assert forall|k: int| 0 <= k < cs.len() && #[trigger] cs[k].len() > max implies b[k + 1] == b[k] + 1 by {
            if k < done.len() {
                assert(cs[k] == done[k]);
            }
        }
        b
    }
}

/// Every chunk of `text` is a run of whole consecutive segments, so each
/// chunk ends where a segment ends: after a `.` or `,`, or at the end of the
/// text.
pub proof fn lemma_chunks_end_at_segment_ends(text: Seq<char>, max: nat)
    ensures
        exists|b: Seq<int>| chunk_bounds(chunks(text, max), segment_texts(text), b),
{
    let b = lemma_chunk_runs(text, max);
    assert(chunk_bounds(chunks(text, max), segment_texts(text), b));
}

/// A chunk of `text` is longer than `max` only when it is a single segment
/// that is itself longer than `max`.
pub proof fn lemma_chunks_within_limit(text: Seq<char>, max: nat)
    ensures
        forall|k: int|
            0 <= k < chunks(text, max).len() ==> #[trigger] chunks(text, max)[k].len() <= max || exists|j: int|
                0 <= j < segment_texts(text).len() && chunks(text, max)[k] == segment_texts(text)[j],
{
    let ts = segment_texts(text);
    let cs = chunks(text, max);
    let b = lemma_chunk_runs(text, max);
    assert forall|k: int| 0 <= k < cs.len() implies #[trigger] cs[k].len() <= max || exists|j: int|
        0 <= j < ts.len() && cs[k] == ts[j] by {
        if cs[k].len() > max {
            let j = b[k];
            assert(0 <= b[k] && b[k + 1] <= ts.len());
            assert(ts.subrange(j, j + 1) == seq![ts[j]]);
            assert(seq![ts[j]] == Seq::<Seq<char>>::empty().push(ts[j]));
            assert(seq![ts[j]].flatten() == ts[j]) by {
                broadcast use Seq::lemma_flatten_push;
            }
            assert(cs[k] == ts[j]);
        }
    }
}

/// The most characters the service takes in one request.
pub const MAX_CHUNK_LEN: usize = 200;

/// Divides `text` into chunks the service accepts, of at most
/// `MAX_CHUNK_LEN` characters unless a single segment is longer. Always
/// succeeds; the empty text gives no chunk.
pub fn divide_text_into_chunks(text: &str) -> (r: Result<Vec<String>, TtsError>)
    ensures
        r matches Ok(cs) && cs.deep_view() == chunks(text@, MAX_CHUNK_LEN as nat),
{
    Ok(chunk_text(text, MAX_CHUNK_LEN))
}

} // verus!
