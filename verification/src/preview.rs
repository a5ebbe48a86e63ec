//! The history preview: a block diff of two versions merged into one text,
//! with the inserted and deleted runs marked and each version's formatting
//! projected onto the part of the merged text it owns (deleted runs carry
//! the older version's spans, kept and inserted runs the newer one's), so
//! history reads as the document rather than as plain text.

use vstd::prelude::*;
use vstd::string::StringSliceAdditionalSpecFns;
use vstd::utf8::encode_utf8;
use crate::chars::{chars_of, string_from_chars};
use crate::find::{char_offset, char_offsets};

verus! {

/// What a diff segment does.
#[derive(Clone, Copy, Debug, PartialEq, Eq, Structural)]
pub enum DiffOp {
    /// In both versions.
    Same,
    /// Only in the newer version.
    Insert,
    /// Only in the older version.
    Delete,
}

/// A run of text and what the diff did with it.
#[derive(Debug)]
pub struct DiffSeg {
    pub op: DiffOp,
    pub text: String,
}

/// One merged block: the paragraphs it stands for in each version, if any,
/// and its segments. The `Delete` segments concatenate to the older
/// paragraph, the `Same` and `Insert` ones to the newer.
#[derive(Debug)]
pub struct DiffBlock {
    pub old_par: Option<usize>,
    pub new_par: Option<usize>,
    pub segs: Vec<DiffSeg>,
}

/// The byte offset at which each `\n`-separated paragraph of `s` starts.
pub open spec fn par_offsets(s: Seq<char>) -> Seq<int>
    decreases s.len(),
{
    if s.len() == 0 {
        seq![0]
    } else {
        let p = par_offsets(s.drop_last());
        if s.last() == '\n' {
            p.push(char_offset(s, s.len() as int))
        } else {
            p
        }
    }
}

/// The byte offset of character `ci` of `s`, or the end for one past it.
pub open spec fn char_to_byte(s: Seq<char>, ci: int) -> int {
    if ci <= s.len() {
        char_offset(s, ci)
    } else {
        char_offset(s, s.len() as int)
    }
}

/// Character-indexed spans as byte ranges of `s`.
pub open spec fn spans_in_bytes<A>(s: Seq<char>, spans: Seq<(usize, usize, A)>) -> Seq<(int, int, A)> {
    spans.map_values(|x: (usize, usize, A)| (char_to_byte(s, x.0 as int), char_to_byte(s, x.1 as int), x.2))
}

/// The part of each span inside the source run `[src, src + len)`, moved
/// to start at `start` in the merged text.
pub open spec fn project<A>(spans: Seq<(int, int, A)>, src: int, len: int, start: int) -> Seq<(int, int, A)>
    decreases spans.len(),
{
    if spans.len() == 0 {
        Seq::empty()
    } else {
        let rest = project(spans.drop_last(), src, len, start);
        let (a, b, attr) = spans.last();
        let s = if a > src { a } else { src };
        let e = if b < src + len { b } else { src + len };
        if s < e {
            rest.push((start + (s - src), start + (e - src), attr))
        } else {
            rest
        }
    }
}

/// Where a merged block's kind comes from: the newer version's paragraph,
/// the older one's, or neither (a plain paragraph).
#[derive(Clone, Copy, Debug, PartialEq, Eq, Structural)]
pub enum KindSource {
    New(usize),
    Old(usize),
    Plain,
}

/// The merged preview as it is built: its text, its byte length, the
/// inserted and deleted runs, the projected spans, and each block's kind.
pub struct PreviewState<A> {
    pub text: Seq<char>,
    pub len: int,
    pub inserts: Seq<(int, int)>,
    pub deletes: Seq<(int, int)>,
    pub spans: Seq<(int, int, A)>,
    pub kinds: Seq<KindSource>,
}

/// Byte length of a segment's text.
pub open spec fn seg_len(seg: DiffSeg) -> int {
    encode_utf8(seg.text@).len() as int
}

/// The state after the first `j` segments of a block whose runs start at
/// `old_b` and `new_b` in the two versions.
pub open spec fn segs_state<A>(
    st: PreviewState<A>,
    segs: Seq<DiffSeg>,
    j: int,
    old_b: int,
    new_b: int,
    old_spans: Seq<(int, int, A)>,
    new_spans: Seq<(int, int, A)>,
) -> (PreviewState<A>, int, int)
    decreases j,
{
    if j <= 0 {
        (st, old_b, new_b)
    } else {
        let (s, ob, nb) = segs_state(st, segs, j - 1, old_b, new_b, old_spans, new_spans);
        let seg = segs[j - 1];
        let len = seg_len(seg);
        let start = s.len;
        let projected = if seg.op == DiffOp::Delete {
            project(old_spans, ob, len, start)
        } else {
            project(new_spans, nb, len, start)
        };
        let s2 = PreviewState {
            text: s.text + seg.text@,
            len: start + len,
            inserts: if seg.op == DiffOp::Insert {
                s.inserts.push((start, start + len))
            } else {
                s.inserts
            },
            deletes: if seg.op == DiffOp::Delete {
                s.deletes.push((start, start + len))
            } else {
                s.deletes
            },
            spans: s.spans + projected,
            kinds: s.kinds,
        };
        let ob2 = if seg.op == DiffOp::Insert { ob } else { ob + len };
        let nb2 = if seg.op == DiffOp::Delete { nb } else { nb + len };
        (s2, ob2, nb2)
    }
}

/// The block kind a merged block shows: the newer version's when the block
/// exists there, else the older one's, else a plain paragraph.
pub open spec fn block_kind(b: DiffBlock, n_old: int, n_new: int) -> KindSource {
    match b.new_par {
        Some(p) if p < n_new => KindSource::New(p),
        _ => match b.old_par {
            Some(q) if q < n_old => KindSource::Old(q),
            _ => KindSource::Plain,
        },
    }
}

/// The state after the first `i` blocks.
pub open spec fn blocks_state<A>(
    blocks: Seq<DiffBlock>,
    i: int,
    old_offs: Seq<int>,
    new_offs: Seq<int>,
    old_spans: Seq<(int, int, A)>,
    new_spans: Seq<(int, int, A)>,
    n_old: int,
    n_new: int,
) -> PreviewState<A>
    decreases i,
{
    if i <= 0 {
        PreviewState {
            text: Seq::empty(),
            len: 0,
            inserts: Seq::empty(),
            deletes: Seq::empty(),
            spans: Seq::empty(),
            kinds: Seq::empty(),
        }
    } else {
        let s = blocks_state(blocks, i - 1, old_offs, new_offs, old_spans, new_spans, n_old, n_new);
        let b = blocks[i - 1];
        let sep = if i - 1 > 0 {
            PreviewState { text: s.text.push('\n'), len: s.len + 1, ..s }
        } else {
            s
        };
        let with_kind = PreviewState { kinds: sep.kinds.push(block_kind(b, n_old, n_new)), ..sep };
        let old_b = match b.old_par {
            Some(p) => old_offs[p as int],
            None => 0,
        };
        let new_b = match b.new_par {
            Some(p) => new_offs[p as int],
            None => 0,
        };
        segs_state(with_kind, b.segs@, b.segs@.len() as int, old_b, new_b, old_spans, new_spans).0
    }
}

/// Integers of a vector of offsets.
pub open spec fn ints(v: Seq<usize>) -> Seq<int> {
    v.map_values(|x: usize| x as int)
}

/// Byte offsets at which the paragraphs of `text` start.
fn paragraph_offsets(text: &str) -> (r: Vec<usize>)
    ensures
        ints(r@) == par_offsets(text@),
        forall|k: int| 0 <= k < r@.len() ==> #[trigger] r@[k] <= char_offset(text@, text@.len() as int),
{
    let cs = chars_of(text);
    let offs = char_offsets(text);
    let mut r: Vec<usize> = Vec::new();
    r.push(0);
    let mut i: usize = 0;
    proof {
        assert(text@.take(0) =~= Seq::<char>::empty());
        assert(ints(r@) =~= seq![0int]);
        crate::find::lemma_char_offset_mono(text@, 0, text@.len() as int);
    }
    while i < cs.len()
        invariant
            cs@ == text@,
            offs@.len() == text@.len() + 1,
            forall|k: int| 0 <= k <= text@.len() ==> #[trigger] offs@[k] == char_offset(text@, k),
            0 <= i <= cs@.len(),
            ints(r@) == par_offsets(text@.take(i as int)),
            forall|k: int| 0 <= k < r@.len() ==> #[trigger] r@[k] <= char_offset(text@, text@.len() as int),
        decreases cs@.len() - i,
    {
        proof {
            assert(text@.take(i + 1).drop_last() =~= text@.take(i as int));
            lemma_char_offset_prefix(text@, i + 1);
            crate::find::lemma_char_offset_mono(text@, i + 1, text@.len() as int);
        }
        if cs[i] == '\n' {
            let ghost before = r@;
            r.push(offs[i + 1]);
            proof {
                assert(ints(r@) =~= ints(before).push(offs@[i + 1] as int));
            }
        }
        i += 1;
    }
    proof {
        assert(text@.take(text@.len() as int) =~= text@);
    }
    r
}

/// The offset of a prefix's end is the same in the prefix and the text.
proof fn lemma_char_offset_prefix(s: Seq<char>, i: int)
    requires
        0 <= i <= s.len(),
    ensures
        char_offset(s.take(i), i) == char_offset(s, i),
    decreases i,
{
    if i > 0 {
        lemma_char_offset_prefix(s.drop_first(), i - 1);
        assert(s.take(i).drop_first() =~= s.drop_first().take(i - 1));
    }
}

/// Character-indexed spans as byte ranges of `text`.
fn spans_to_bytes<A: Copy>(text: &str, spans: &[(usize, usize, A)]) -> (r: Vec<(usize, usize, A)>)
    ensures
        r@.map_values(|x: (usize, usize, A)| (x.0 as int, x.1 as int, x.2)) == spans_in_bytes(text@, spans@),
        forall|k: int| 0 <= k < r@.len() ==> (#[trigger] r@[k]).0 <= char_offset(text@, text@.len() as int)
            && r@[k].1 <= char_offset(text@, text@.len() as int),
{
    let offs = char_offsets(text);
    let n = offs.len() - 1;
    let mut r: Vec<(usize, usize, A)> = Vec::new();
    let mut i: usize = 0;
    while i < spans.len()
        invariant
            offs@.len() == text@.len() + 1,
            n == text@.len(),
            forall|k: int| 0 <= k <= text@.len() ==> #[trigger] offs@[k] == char_offset(text@, k),
            0 <= i <= spans@.len(),
            r@.map_values(|x: (usize, usize, A)| (x.0 as int, x.1 as int, x.2)) == spans_in_bytes(text@, spans@.take(i as int)),
            forall|k: int| 0 <= k < r@.len() ==> (#[trigger] r@[k]).0 <= char_offset(text@, text@.len() as int)
                && r@[k].1 <= char_offset(text@, text@.len() as int),
        decreases spans@.len() - i,
    {
        let (a, b, attr) = spans[i];
        let ba = if a <= n { offs[a] } else { offs[n] };
        let bb = if b <= n { offs[b] } else { offs[n] };
        proof {
            crate::find::lemma_char_offset_mono(text@, if a <= n { a as int } else { n as int }, n as int);
            crate::find::lemma_char_offset_mono(text@, if b <= n { b as int } else { n as int }, n as int);
        }
        let ghost before = r@;
        r.push((ba, bb, attr));
        proof {
            assert(spans@.take(i + 1) =~= spans@.take(i as int).push(spans@[i as int]));
            assert(r@.map_values(|x: (usize, usize, A)| (x.0 as int, x.1 as int, x.2)) =~= before.map_values(
                |x: (usize, usize, A)| (x.0 as int, x.1 as int, x.2),
            ).push((ba as int, bb as int, attr)));
        }
        i += 1;
        proof {
            assert(r@.map_values(|x: (usize, usize, A)| (x.0 as int, x.1 as int, x.2)) =~= spans_in_bytes(text@, spans@.take(i as int)));
        }
    }
    proof {
        assert(spans@.take(spans@.len() as int) =~= spans@);
    }
    r
}

/// Appends the part of each span inside `[src, src + len)`, moved to start
/// at `start`.
fn project_into<A: Copy>(
    out: &mut Vec<(usize, usize, A)>,
    spans: &Vec<(usize, usize, A)>,
    src: usize,
    len: usize,
    start: usize,
)
    requires
        src + len <= usize::MAX,
        start + len <= usize::MAX,
    ensures
        final(out)@.map_values(|x: (usize, usize, A)| (x.0 as int, x.1 as int, x.2)) == old(out)@.map_values(
            |x: (usize, usize, A)| (x.0 as int, x.1 as int, x.2),
        ) + project(
            spans@.map_values(|x: (usize, usize, A)| (x.0 as int, x.1 as int, x.2)),
            src as int,
            len as int,
            start as int,
        ),
        forall|k: int| old(out)@.len() <= k < final(out)@.len() ==> (#[trigger] final(out)@[k]).1 <= start + len,
        forall|k: int| 0 <= k < old(out)@.len() ==> #[trigger] final(out)@[k] == old(out)@[k],
{
    let ghost sv = spans@.map_values(|x: (usize, usize, A)| (x.0 as int, x.1 as int, x.2));
    let ghost base = out@.map_values(|x: (usize, usize, A)| (x.0 as int, x.1 as int, x.2));
    let ghost n0 = out@.len();
    let mut i: usize = 0;
    let end = src + len;
    proof {
        assert(sv.take(0) =~= Seq::<(int, int, A)>::empty());
        assert(out@.map_values(|x: (usize, usize, A)| (x.0 as int, x.1 as int, x.2)) =~= base + project(sv.take(0), src as int, len as int, start as int));
    }
    while i < spans.len()
        invariant
            sv == spans@.map_values(|x: (usize, usize, A)| (x.0 as int, x.1 as int, x.2)),
            end == src + len,
            start + len <= usize::MAX,
            0 <= i <= spans@.len(),
            n0 <= out@.len(),
            out@.map_values(|x: (usize, usize, A)| (x.0 as int, x.1 as int, x.2)) == base + project(sv.take(i as int), src as int, len as int, start as int),
            forall|k: int| n0 <= k < out@.len() ==> (#[trigger] out@[k]).1 <= start + len,
            forall|k: int| 0 <= k < n0 ==> #[trigger] out@[k] == old(out)@[k],
        decreases spans@.len() - i,
    {
        let (a, b, attr) = spans[i];
        let s = if a > src { a } else { src };
        let e = if b < end { b } else { end };
        proof {
            assert(sv.take(i + 1).drop_last() =~= sv.take(i as int));
            assert(sv.take(i + 1).last() == (a as int, b as int, attr));
        }
        let ghost before = out@;
        if s < e {
            out.push((start + (s - src), start + (e - src), attr));
            proof {
                assert(out@.map_values(|x: (usize, usize, A)| (x.0 as int, x.1 as int, x.2)) =~= before.map_values(
                    |x: (usize, usize, A)| (x.0 as int, x.1 as int, x.2),
                ).push((start + (s - src), start + (e - src), attr)));
            }
        }
        i += 1;
    }
    proof {
        assert(sv.take(spans@.len() as int) =~= sv);
    }
}

/// Byte length of the first `j` segments.
pub open spec fn segs_total(segs: Seq<DiffSeg>, j: int) -> int
    decreases j,
{
    if j <= 0 {
        0
    } else {
        segs_total(segs, j - 1) + seg_len(segs[j - 1])
    }
}

/// Bytes the first `i` blocks add to the merged text, a separator each
/// counted.
pub open spec fn blocks_total(blocks: Seq<DiffBlock>, i: int) -> int
    decreases i,
{
    if i <= 0 {
        0
    } else {
        blocks_total(blocks, i - 1) + 1 + segs_total(blocks[i - 1].segs@, blocks[i - 1].segs@.len() as int)
    }
}

/// Bytes of the older version that the first `j` segments of a block stand
/// for: its kept and deleted runs. An inserted run is not in the older
/// version.
pub open spec fn old_bytes_before(segs: Seq<DiffSeg>, j: int) -> int
    decreases j,
{
    if j <= 0 {
        0
    } else {
        old_bytes_before(segs, j - 1) + if segs[j - 1].op == DiffOp::Insert {
            0
        } else {
            seg_len(segs[j - 1])
        }
    }
}

/// Bytes of the newer version that the first `j` segments of a block stand
/// for: its kept and inserted runs. A deleted run is not in the newer
/// version.
pub open spec fn new_bytes_before(segs: Seq<DiffSeg>, j: int) -> int
    decreases j,
{
    if j <= 0 {
        0
    } else {
        new_bytes_before(segs, j - 1) + if segs[j - 1].op == DiffOp::Delete {
            0
        } else {
            seg_len(segs[j - 1])
        }
    }
}

/// Each version is read where its own text is. Within a block, the older
/// version is read at the block's older paragraph offset plus the kept and
/// deleted bytes before the segment (insertions do not move it), and the
/// newer one at its paragraph offset plus the kept and inserted bytes
/// before it (deletions do not move it). So the spans a deleted run
/// carries are the older version's spans over exactly the text it deleted,
/// and those a kept or inserted run carries are the newer version's over
/// its text, moved to where the run stands in the merged text. The run's
/// text follows the merged text so far, and is marked inserted or deleted
/// as its segment says.
pub proof fn law_preview_reads_each_version_in_place<A>(
    st: PreviewState<A>,
    segs: Seq<DiffSeg>,
    j: int,
    old_b: int,
    new_b: int,
    old_spans: Seq<(int, int, A)>,
    new_spans: Seq<(int, int, A)>,
)
    requires
        0 <= j < segs.len(),
    ensures
        segs_state(st, segs, j, old_b, new_b, old_spans, new_spans).1 == old_b + old_bytes_before(segs, j),
        segs_state(st, segs, j, old_b, new_b, old_spans, new_spans).2 == new_b + new_bytes_before(segs, j),
        ({
            let before = segs_state(st, segs, j, old_b, new_b, old_spans, new_spans).0;
            let after = segs_state(st, segs, j + 1, old_b, new_b, old_spans, new_spans).0;
            let len = seg_len(segs[j]);
            &&& after.text == before.text + segs[j].text@
            &&& after.len == before.len + len
            &&& after.inserts == if segs[j].op == DiffOp::Insert {
                before.inserts.push((before.len, before.len + len))
            } else {
                before.inserts
            }
            &&& after.deletes == if segs[j].op == DiffOp::Delete {
                before.deletes.push((before.len, before.len + len))
            } else {
                before.deletes
            }
            &&& after.kinds == before.kinds
            &&& after.spans == before.spans + if segs[j].op == DiffOp::Delete {
                project(old_spans, old_b + old_bytes_before(segs, j), len, before.len)
            } else {
                project(new_spans, new_b + new_bytes_before(segs, j), len, before.len)
            }
        }),
    decreases j,
{
    if j > 0 {
        law_preview_reads_each_version_in_place(st, segs, j - 1, old_b, new_b, old_spans, new_spans);
    }
}

/// The preview's blocks keep their kinds: after `i` blocks there is one
/// kind per block, in order, each the newer version's when the block is
/// there, else the older one's, else a plain paragraph; and the merged text
/// is the blocks' texts, each after a `\n` but the first.
pub proof fn law_preview_blocks<A>(
    blocks: Seq<DiffBlock>,
    i: int,
    old_offs: Seq<int>,
    new_offs: Seq<int>,
    old_spans: Seq<(int, int, A)>,
    new_spans: Seq<(int, int, A)>,
    n_old: int,
    n_new: int,
)
    requires
        0 <= i <= blocks.len(),
    ensures
        blocks_state(blocks, i, old_offs, new_offs, old_spans, new_spans, n_old, n_new).kinds.len() == i,
        forall|k: int|
            0 <= k < i ==> #[trigger] blocks_state(blocks, i, old_offs, new_offs, old_spans, new_spans, n_old, n_new).kinds[k]
                == block_kind(blocks[k], n_old, n_new),
        i > 0 ==> blocks_state(blocks, i, old_offs, new_offs, old_spans, new_spans, n_old, n_new).text == blocks_state(
            blocks,
            i - 1,
            old_offs,
            new_offs,
            old_spans,
            new_spans,
            n_old,
            n_new,
        ).text + (if i > 1 {
            seq!['\n']
        } else {
            Seq::<char>::empty()
        }) + segs_text(blocks[i - 1].segs@, blocks[i - 1].segs@.len() as int),
    decreases i,
{
    if i > 0 {
        law_preview_blocks(blocks, i - 1, old_offs, new_offs, old_spans, new_spans, n_old, n_new);
        let b = blocks[i - 1];
        let s = blocks_state(blocks, i - 1, old_offs, new_offs, old_spans, new_spans, n_old, n_new);
        let sep = if i - 1 > 0 {
            PreviewState { text: s.text.push('\n'), len: s.len + 1, ..s }
        } else {
            s
        };
        let with_kind = PreviewState { kinds: sep.kinds.push(block_kind(b, n_old, n_new)), ..sep };
        let old_b = match b.old_par {
            Some(p) => old_offs[p as int],
            None => 0,
        };
        let new_b = match b.new_par {
            Some(p) => new_offs[p as int],
            None => 0,
        };
        lemma_segs_state(with_kind, b.segs@, b.segs@.len() as int, old_b, new_b, old_spans, new_spans);
        lemma_segs_text(with_kind, b.segs@, b.segs@.len() as int, old_b, new_b, old_spans, new_spans);
        let full = blocks_state(blocks, i, old_offs, new_offs, old_spans, new_spans, n_old, n_new);
        assert forall|k: int| 0 <= k < i implies #[trigger] full.kinds[k] == block_kind(blocks[k], n_old, n_new) by {
            if k < i - 1 {
                assert(full.kinds[k] == s.kinds[k]);
            }
        }
        if i > 1 {
            assert(s.text.push('\n') =~= s.text + seq!['\n']);
        } else {
            assert(s.text + Seq::<char>::empty() =~= s.text);
        }
    }
}

/// The texts of the first `j` segments, one after the other.
pub open spec fn segs_text(segs: Seq<DiffSeg>, j: int) -> Seq<char>
    decreases j,
{
    if j <= 0 {
        Seq::empty()
    } else {
        segs_text(segs, j - 1) + segs[j - 1].text@
    }
}

proof fn lemma_segs_text<A>(
    st: PreviewState<A>,
    segs: Seq<DiffSeg>,
    j: int,
    old_b: int,
    new_b: int,
    old_spans: Seq<(int, int, A)>,
    new_spans: Seq<(int, int, A)>,
)
    requires
        0 <= j <= segs.len(),
    ensures
        segs_state(st, segs, j, old_b, new_b, old_spans, new_spans).0.text == st.text + segs_text(segs, j),
    decreases j,
{
    if j > 0 {
        lemma_segs_text(st, segs, j - 1, old_b, new_b, old_spans, new_spans);
        assert(st.text + segs_text(segs, j - 1) + segs[j - 1].text@ =~= st.text + segs_text(segs, j));
    } else {
        assert(st.text + Seq::<char>::empty() =~= st.text);
    }
}

/// Pairs of offsets as integers.
pub open spec fn pairs(v: Seq<(usize, usize)>) -> Seq<(int, int)> {
    v.map_values(|x: (usize, usize)| (x.0 as int, x.1 as int))
}

/// Spans with offsets as integers.
pub open spec fn span_ints<A>(v: Seq<(usize, usize, A)>) -> Seq<(int, int, A)> {
    v.map_values(|x: (usize, usize, A)| (x.0 as int, x.1 as int, x.2))
}

proof fn lemma_segs_state<A>(
    st: PreviewState<A>,
    segs: Seq<DiffSeg>,
    j: int,
    old_b: int,
    new_b: int,
    old_spans: Seq<(int, int, A)>,
    new_spans: Seq<(int, int, A)>,
)
    requires
        0 <= j <= segs.len(),
    ensures
        ({
            let (s, ob, nb) = segs_state(st, segs, j, old_b, new_b, old_spans, new_spans);
            &&& s.len == st.len + segs_total(segs, j)
            &&& old_b <= ob <= old_b + segs_total(segs, j)
            &&& new_b <= nb <= new_b + segs_total(segs, j)
            &&& s.kinds == st.kinds
        }),
        segs_total(segs, j) >= 0,
    decreases j,
{
    if j > 0 {
        lemma_segs_state(st, segs, j - 1, old_b, new_b, old_spans, new_spans);
    }
}

proof fn lemma_segs_total_mono(segs: Seq<DiffSeg>, j: int, k: int)
    requires
        0 <= j <= k,
    ensures
        0 <= segs_total(segs, j) <= segs_total(segs, k),
    decreases k,
{
    if k > j {
        lemma_segs_total_mono(segs, j, k - 1);
    } else if j > 0 {
        lemma_segs_total_mono(segs, 0, j - 1);
        lemma_segs_total_mono(segs, j - 1, j - 1);
    }
}

proof fn lemma_blocks_total_mono(blocks: Seq<DiffBlock>, i: int, k: int)
    requires
        0 <= i <= k <= blocks.len(),
    ensures
        0 <= blocks_total(blocks, i) <= blocks_total(blocks, k),
    decreases k,
{
    if k > i {
        lemma_blocks_total_mono(blocks, i, k - 1);
        lemma_segs_total_mono(blocks[k - 1].segs@, 0, blocks[k - 1].segs@.len() as int);
    } else if i > 0 {
        lemma_blocks_total_mono(blocks, i - 1, i - 1);
        lemma_segs_total_mono(blocks[i - 1].segs@, 0, blocks[i - 1].segs@.len() as int);
    }
}

proof fn lemma_blocks_state_len<A>(
    blocks: Seq<DiffBlock>,
    i: int,
    old_offs: Seq<int>,
    new_offs: Seq<int>,
    old_spans: Seq<(int, int, A)>,
    new_spans: Seq<(int, int, A)>,
    n_old: int,
    n_new: int,
)
    requires
        0 <= i <= blocks.len(),
    ensures
        0 <= blocks_state(blocks, i, old_offs, new_offs, old_spans, new_spans, n_old, n_new).len <= blocks_total(blocks, i),
        blocks_state(blocks, i, old_offs, new_offs, old_spans, new_spans, n_old, n_new).kinds.len() == i,
    decreases i,
{
    if i > 0 {
        lemma_blocks_state_len(blocks, i - 1, old_offs, new_offs, old_spans, new_spans, n_old, n_new);
        let b = blocks[i - 1];
        let s = blocks_state(blocks, i - 1, old_offs, new_offs, old_spans, new_spans, n_old, n_new);
        let sep = if i - 1 > 0 {
            PreviewState { text: s.text.push('\n'), len: s.len + 1, ..s }
        } else {
            s
        };
        let with_kind = PreviewState { kinds: sep.kinds.push(block_kind(b, n_old, n_new)), ..sep };
        let old_b = match b.old_par {
            Some(p) => old_offs[p as int],
            None => 0,
        };
        let new_b = match b.new_par {
            Some(p) => new_offs[p as int],
            None => 0,
        };
        lemma_segs_state(with_kind, b.segs@, b.segs@.len() as int, old_b, new_b, old_spans, new_spans);
    }
}

/// The merged preview of a block diff.
pub struct PreviewDoc<A> {
    /// The merged text: the blocks joined by `\n`.
    pub text: String,
    /// Byte ranges of the inserted runs.
    pub inserts: Vec<(usize, usize)>,
    /// Byte ranges of the deleted runs.
    pub deletes: Vec<(usize, usize)>,
    /// The projected formatting, as byte ranges and attributes.
    pub spans: Vec<(usize, usize, A)>,
    /// Where each block's kind comes from.
    pub kinds: Vec<KindSource>,
}

/// The paragraphs named by the blocks exist in their versions.
pub open spec fn pars_in_range(blocks: Seq<DiffBlock>, old: Seq<char>, new: Seq<char>) -> bool {
    forall|i: int|
        0 <= i < blocks.len() ==> ((#[trigger] blocks[i]).old_par matches Some(p) ==> p < par_offsets(old).len())
            && (blocks[i].new_par matches Some(q) ==> q < par_offsets(new).len())
}

/// The preview of history: the block diff of `old` and `new` merged into
/// one text, its inserted and deleted runs, each version's spans (given by
/// character) projected onto the runs it owns, and each block's kind.
pub fn merge_preview<A: Copy>(
    blocks: &[DiffBlock],
    old: &str,
    new: &str,
    old_spans: &[(usize, usize, A)],
    new_spans: &[(usize, usize, A)],
    n_old_kinds: usize,
    n_new_kinds: usize,
) -> (r: PreviewDoc<A>)
    requires
        pars_in_range(blocks@, old@, new@),
        char_offset(old@, old@.len() as int) + blocks_total(blocks@, blocks@.len() as int) <= usize::MAX,
        char_offset(new@, new@.len() as int) + blocks_total(blocks@, blocks@.len() as int) <= usize::MAX,
    ensures
        ({
            let st = blocks_state(
                blocks@,
                blocks@.len() as int,
                par_offsets(old@),
                par_offsets(new@),
                spans_in_bytes(old@, old_spans@),
                spans_in_bytes(new@, new_spans@),
                n_old_kinds as int,
                n_new_kinds as int,
            );
            &&& r.text@ == st.text
            &&& pairs(r.inserts@) == st.inserts
            &&& pairs(r.deletes@) == st.deletes
            &&& span_ints(r.spans@) == st.spans
            &&& r.kinds@ == st.kinds
        }),
{
    let old_offs = paragraph_offsets(old);
    let new_offs = paragraph_offsets(new);
    let old_b_spans = spans_to_bytes(old, old_spans);
    let new_b_spans = spans_to_bytes(new, new_spans);
    let ghost oo = par_offsets(old@);
    let ghost no = par_offsets(new@);
    let ghost os = spans_in_bytes(old@, old_spans@);
    let ghost ns = spans_in_bytes(new@, new_spans@);
    let ghost total = blocks_total(blocks@, blocks@.len() as int);
    let ghost old_bytes = char_offset(old@, old@.len() as int);
    let ghost new_bytes = char_offset(new@, new@.len() as int);
    let mut text: Vec<char> = Vec::new();
    let mut tlen: usize = 0;
    let mut inserts: Vec<(usize, usize)> = Vec::new();
    let mut deletes: Vec<(usize, usize)> = Vec::new();
    let mut spans: Vec<(usize, usize, A)> = Vec::new();
    let mut kinds: Vec<KindSource> = Vec::new();
    let mut i: usize = 0;
    proof {
        assert(pairs(inserts@) =~= Seq::<(int, int)>::empty());
        assert(pairs(deletes@) =~= Seq::<(int, int)>::empty());
        assert(span_ints(spans@) =~= Seq::<(int, int, A)>::empty());
        crate::find::lemma_char_offset_mono(old@, 0, old@.len() as int);
        crate::find::lemma_char_offset_mono(new@, 0, new@.len() as int);
    }
    while i < blocks.len()
        invariant
            pars_in_range(blocks@, old@, new@),
            ints(old_offs@) == oo,
            ints(new_offs@) == no,
            oo == par_offsets(old@),
            no == par_offsets(new@),
            forall|k: int| 0 <= k < old_offs@.len() ==> #[trigger] old_offs@[k] <= old_bytes,
            forall|k: int| 0 <= k < new_offs@.len() ==> #[trigger] new_offs@[k] <= new_bytes,
            span_ints(old_b_spans@) == os,
            span_ints(new_b_spans@) == ns,
            os == spans_in_bytes(old@, old_spans@),
            ns == spans_in_bytes(new@, new_spans@),
            total == blocks_total(blocks@, blocks@.len() as int),
            old_bytes == char_offset(old@, old@.len() as int),
            new_bytes == char_offset(new@, new@.len() as int),
            0 <= old_bytes,
            0 <= new_bytes,
            old_bytes + total <= usize::MAX,
            new_bytes + total <= usize::MAX,
            0 <= i <= blocks@.len(),
            ({
                let st = blocks_state(blocks@, i as int, oo, no, os, ns, n_old_kinds as int, n_new_kinds as int);
                &&& text@ == st.text
                &&& tlen == st.len
                &&& pairs(inserts@) == st.inserts
                &&& pairs(deletes@) == st.deletes
                &&& span_ints(spans@) == st.spans
                &&& kinds@ == st.kinds
            }),
        decreases blocks@.len() - i,
    {
        let b = &blocks[i];
        proof {
            lemma_blocks_state_len(blocks@, i as int, oo, no, os, ns, n_old_kinds as int, n_new_kinds as int);
            lemma_blocks_total_mono(blocks@, i + 1, blocks@.len() as int);
            lemma_blocks_total_mono(blocks@, i as int, i + 1);
            lemma_segs_total_mono(b.segs@, 0, b.segs@.len() as int);
        }
        let ghost s0 = blocks_state(blocks@, i as int, oo, no, os, ns, n_old_kinds as int, n_new_kinds as int);
        if i > 0 {
            text.push('\n');
            tlen = tlen + 1;
        }
        let kind = match b.new_par {
            Some(p) if p < n_new_kinds => KindSource::New(p),
            _ => match b.old_par {
                Some(q) if q < n_old_kinds => KindSource::Old(q),
                _ => KindSource::Plain,
            },
        };
        kinds.push(kind);
        let ghost sep = if i > 0 {
            PreviewState { text: s0.text.push('\n'), len: s0.len + 1, ..s0 }
        } else {
            s0
        };
        let ghost with_kind = PreviewState { kinds: sep.kinds.push(block_kind(*b, n_old_kinds as int, n_new_kinds as int)), ..sep };
        let mut ob: usize = match b.old_par {
            Some(p) => old_offs[p],
            None => 0,
        };
        let mut nb: usize = match b.new_par {
            Some(p) => new_offs[p],
            None => 0,
        };
        let ghost ob0 = ob as int;
        let ghost nb0 = nb as int;
        proof {
            assert(ob0 == (match b.old_par { Some(p) => oo[p as int], None => 0int }));
            assert(nb0 == (match b.new_par { Some(p) => no[p as int], None => 0int }));
        }
        let mut j: usize = 0;
        while j < b.segs.len()
            invariant
                ints(old_offs@) == oo,
                span_ints(old_b_spans@) == os,
                span_ints(new_b_spans@) == ns,
                0 <= j <= b.segs@.len(),
                ob0 <= old_bytes,
                nb0 <= new_bytes,
                0 <= old_bytes,
                0 <= new_bytes,
                0 <= ob0,
                0 <= nb0,
                old_bytes + total <= usize::MAX,
                new_bytes + total <= usize::MAX,
                with_kind.len + segs_total(b.segs@, b.segs@.len() as int) <= total,
                0 <= with_kind.len,
                ({
                    let (st, o, n) = segs_state(with_kind, b.segs@, j as int, ob0, nb0, os, ns);
                    &&& text@ == st.text
                    &&& tlen == st.len
                    &&& ob == o
                    &&& nb == n
                    &&& pairs(inserts@) == st.inserts
                    &&& pairs(deletes@) == st.deletes
                    &&& span_ints(spans@) == st.spans
                    &&& kinds@ == st.kinds
                }),
            decreases b.segs@.len() - j,
        {
            let seg = &b.segs[j];
            let ghost prev = segs_state(with_kind, b.segs@, j as int, ob0, nb0, os, ns);
            proof {
                lemma_segs_state(with_kind, b.segs@, j as int, ob0, nb0, os, ns);
                lemma_segs_total_mono(b.segs@, j + 1, b.segs@.len() as int);
            }
            let st = seg.text.as_str();
            let len = st.as_bytes().len();
            let start = tlen;
            proof {
                assert(len == seg_len(*seg));
                assert(segs_total(b.segs@, j + 1) == segs_total(b.segs@, j as int) + len);
            }
            let ghost spans_before = spans@;
            if seg.op == DiffOp::Delete {
                project_into(&mut spans, &old_b_spans, ob, len, start);
            } else {
                project_into(&mut spans, &new_b_spans, nb, len, start);
            }
            let cs = chars_of(st);
            let mut k: usize = 0;
            let ghost text_before = text@;
            while k < cs.len()
                invariant
                    0 <= k <= cs@.len(),
                    text@ == text_before + cs@.take(k as int),
                decreases cs@.len() - k,
            {
                text.push(cs[k]);
                k += 1;
                assert(text@ =~= text_before + cs@.take(k as int));
            }
            proof {
                assert(cs@.take(cs@.len() as int) =~= cs@);
            }
            tlen = tlen + len;
            let ghost ins_before = inserts@;
            let ghost del_before = deletes@;
            match seg.op {
                DiffOp::Insert => {
                    inserts.push((start, tlen));
                    nb = nb + len;
                },
                DiffOp::Delete => {
                    deletes.push((start, tlen));
                    ob = ob + len;
                },
                DiffOp::Same => {
                    ob = ob + len;
                    nb = nb + len;
                },
            }
            proof {
                assert(pairs(inserts@) =~= (if seg.op == DiffOp::Insert {
                    pairs(ins_before).push((start as int, start + len))
                } else {
                    pairs(ins_before)
                }));
                assert(pairs(deletes@) =~= (if seg.op == DiffOp::Delete {
                    pairs(del_before).push((start as int, start + len))
                } else {
                    pairs(del_before)
                }));
                assert(span_ints(spans@) =~= span_ints(spans_before) + (if seg.op == DiffOp::Delete {
                    project(os, prev.1, len as int, start as int)
                } else {
                    project(ns, prev.2, len as int, start as int)
                }));
            }
            j += 1;
        }
        proof {
            assert(blocks_state(blocks@, i + 1, oo, no, os, ns, n_old_kinds as int, n_new_kinds as int)
                == segs_state(with_kind, b.segs@, b.segs@.len() as int, ob0, nb0, os, ns).0);
        }
        i += 1;
    }
    PreviewDoc { text: string_from_chars(&text), inserts, deletes, spans, kinds }
}

} // verus!
