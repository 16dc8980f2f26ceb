use vstd::prelude::*;

verus! {

/// One audio sample, held as the bit pattern of a 32-bit float.
pub type Sample = u32;

/// A contiguous run of stored samples, the first of which sits at `start`.
pub struct SampleRange {
    pub start: usize,
    pub samples: Vec<Sample>,
}

impl SampleRange {
    pub open spec fn end(&self) -> int {
        self.start + self.samples@.len()
    }

    pub open spec fn contains(&self, i: int) -> bool {
        self.start <= i < self.end()
    }
}

/// Ranges are non-empty, end at or before `cap`, are sorted by start, and
/// neither overlap nor touch one another.
pub open spec fn ranges_wf(rs: Seq<SampleRange>, cap: int) -> bool {
    &&& forall|k: int| 0 <= k < rs.len() ==> #[trigger] rs[k].samples@.len() > 0
    &&& forall|k: int| 0 <= k < rs.len() ==> #[trigger] rs[k].end() <= cap
    &&& forall|k: int, l: int| 0 <= k < l < rs.len() ==> #[trigger] rs[k].end() < #[trigger] rs[l].start
}

/// The `[start, end)` bounds of ranges `rs`, in order.
pub open spec fn bounds_of(rs: Seq<SampleRange>) -> Seq<(int, int)> {
    Seq::new(rs.len(), |k: int| (rs[k].start as int, rs[k].end()))
}

/// Bounds that are non-empty, end at or before `cap`, are sorted, and
/// neither overlap nor touch.
pub open spec fn bounds_sorted_apart(b: Seq<(int, int)>, cap: int) -> bool {
    &&& forall|k: int| 0 <= k < b.len() ==> (#[trigger] b[k]).0 < b[k].1 <= cap
    &&& forall|k: int, l: int| 0 <= k < l < b.len() ==> (#[trigger] b[k]).1 < (#[trigger] b[l]).0
}

/// The sample stored at position `i`, looked up from the last range backwards.
pub open spec fn lookup(rs: Seq<SampleRange>, i: int) -> Option<Sample>
    decreases rs.len(),
{
    if rs.len() == 0 {
        None
    } else {
        let r = rs.last();
        if r.contains(i) {
            Some(r.samples@[i - r.start])
        } else {
            lookup(rs.drop_last(), i)
        }
    }
}

/// The samples stored by ranges `rs`, by position.
pub open spec fn ranges_content(rs: Seq<SampleRange>) -> Map<int, Sample> {
    Map::new(|i: int| lookup(rs, i).is_some(), |i: int| lookup(rs, i).unwrap())
}

/// What a write of `samples` at `offset` stores when the buffer ends at `cap`.
pub open spec fn written(offset: int, samples: Seq<Sample>, cap: int) -> Map<int, Sample> {
    Map::new(
        |i: int| offset <= i < offset + samples.len() && i < cap,
        |i: int| samples[i - offset],
    )
}

/// `d` is the length of the stored run that begins at `offset` in `m`.
pub open spec fn is_run(m: Map<int, Sample>, offset: int, d: int) -> bool {
    &&& d >= 0
    &&& forall|j: int| offset <= j < offset + d ==> #[trigger] m.contains_key(j)
    &&& !m.contains_key(offset + d)
}

/// `x` rounded down to a multiple of `chunk` (a chunk of 0 counts as 1).
pub open spec fn align_down(x: int, chunk: int) -> int {
    if chunk <= 1 {
        x
    } else {
        x - x % chunk
    }
}

/// `x` rounded up to a multiple of `chunk`, capped at `usize::MAX`.
pub open spec fn align_up(x: int, chunk: int) -> int {
    if chunk <= 1 || x % chunk == 0 {
        x
    } else if x - x % chunk + chunk > usize::MAX {
        usize::MAX as int
    } else {
        x - x % chunk + chunk
    }
}

/// What is left of `m` when only positions in `[lo, hi)` are kept.
pub open spec fn restrict_window(m: Map<int, Sample>, lo: int, hi: int) -> Map<int, Sample> {
    Map::new(|i: int| m.contains_key(i) && lo <= i < hi, |i: int| m[i])
}

/// The positions covered by a sequence of writes `(offset, samples)`, cut at `cap`.
pub open spec fn written_positions(ws: Seq<(int, Seq<Sample>)>, cap: int) -> Set<int> {
    Set::new(
        |i: int|
            exists|k: int|
                0 <= k < ws.len() && #[trigger] ws[k].0 <= i < ws[k].0 + ws[k].1.len() && i < cap,
    )
}

/// The content that a sequence of writes leaves in a buffer that held `m`.
pub open spec fn apply_writes(m: Map<int, Sample>, ws: Seq<(int, Seq<Sample>)>, cap: int) -> Map<
    int,
    Sample,
>
    decreases ws.len(),
{
    if ws.len() == 0 {
        m
    } else {
        let last = ws.last();
        apply_writes(m, ws.drop_last(), cap).union_prefer_right(written(last.0, last.1, cap))
    }
}

/// After any sequence of writes to an empty buffer, exactly the positions
/// written below the cap are stored, and each holds the last value written there.
pub proof fn lemma_writes_cover(ws: Seq<(int, Seq<Sample>)>, cap: int)
    requires
        forall|k: int| 0 <= k < ws.len() ==> (#[trigger] ws[k]).0 >= 0,
    ensures
        apply_writes(Map::empty(), ws, cap).dom() == written_positions(ws, cap),
    decreases ws.len(),
{
    if ws.len() > 0 {
        let p = ws.drop_last();
        assert forall|k: int| 0 <= k < p.len() implies (#[trigger] p[k]).0 >= 0 by {
            assert(p[k] == ws[k]);
        }
        lemma_writes_cover(p, cap);
        let last = ws.last();
        assert forall|i: int| apply_writes(Map::empty(), ws, cap).dom().contains(i) <==> #[trigger] written_positions(ws, cap).contains(i) by {
            if written_positions(ws, cap).contains(i) {
                let k = choose|k: int| 0 <= k < ws.len() && #[trigger] ws[k].0 <= i < ws[k].0 + ws[k].1.len() && i < cap;
                if k < ws.len() - 1 {
                    assert(p[k] == ws[k]);
                    assert(written_positions(p, cap).contains(i));
                }
            }
            if written_positions(p, cap).contains(i) {
                let k = choose|k: int| 0 <= k < p.len() && #[trigger] p[k].0 <= i < p[k].0 + p[k].1.len() && i < cap;
                assert(ws[k] == p[k]);
            }
            if written(last.0, last.1, cap).contains_key(i) {
                assert(ws[ws.len() - 1] == last);
            }
        }
        assert(apply_writes(Map::empty(), ws, cap).dom() =~= written_positions(ws, cap));
    }
}

/// Reading back at the offset of a write gives the samples written, as far as
/// the cap lets them stand: the stored run there reaches at least that far.
pub proof fn lemma_write_read_back(before: Map<int, Sample>, cap: int, offset: int, samples: Seq<Sample>, d: int)
    requires
        forall|i: int| #[trigger] before.contains_key(i) ==> i < cap,
        is_run(before.union_prefer_right(written(offset, samples, cap)), offset, d),
    ensures
        d >= samples.len() || offset + d >= cap,
        forall|j: int|
            0 <= j < d && j < samples.len() ==> #[trigger] before.union_prefer_right(
                written(offset, samples, cap),
            )[offset + j] == samples[j],
{
    let after = before.union_prefer_right(written(offset, samples, cap));
    if d < samples.len() && offset + d < cap {
        assert(written(offset, samples, cap).contains_key(offset + d));
    }
    assert forall|j: int| 0 <= j < d && j < samples.len() implies #[trigger] after[offset + j] == samples[j] by {
        assert(after.contains_key(offset + j));
        assert(written(offset, samples, cap).contains_key(offset + j));
    }
}

/// The positions that `retain_window` keeps: `[lo, hi)`.
pub open spec fn window_bounds(offset: int, window: int, chunk: int) -> (int, int) {
    let lo = if offset >= window { offset - window } else { 0 };
    let hi = if offset + window > usize::MAX { usize::MAX as int } else { offset + window };
    (align_down(lo, chunk), align_up(hi, chunk))
}

/// The outcome of reading from a buffer.
#[derive(PartialEq, Eq, Structural, Clone, Copy, Debug)]
pub enum BufferRead {
    /// Nothing is stored at the offset.
    Empty,
    /// Fewer samples than requested were read; more may arrive.
    Partial(usize),
    /// As many samples as requested were read.
    Full(usize),
    /// Fewer samples than requested were read, and the source ends there.
    End(usize),
}

/// How many samples are stored contiguously from an offset, and whether that
/// run ends where the source ends.
#[derive(PartialEq, Eq, Structural, Clone, Copy, Debug)]
pub struct BufferVoidDistance {
    pub distance: usize,
    pub is_end: bool,
}

/// Sparse sample storage: a sorted list of disjoint ranges, capped by an
/// expected length.
pub struct MultiRangeBuffer {
    expected_length: usize,
    ranges: Vec<SampleRange>,
}

pub proof fn lemma_wf_subrange(rs: Seq<SampleRange>, cap: int, from: int, to: int)
    requires
        ranges_wf(rs, cap),
        0 <= from <= to <= rs.len(),
    ensures
        ranges_wf(rs.subrange(from, to), cap),
{
    let p = rs.subrange(from, to);
    assert forall|k: int| 0 <= k < p.len() implies #[trigger] p[k].samples@.len() > 0 && p[k].end() <= cap by {
        assert(p[k] == rs[k + from]);
    }
    assert forall|x: int, y: int| 0 <= x < y < p.len() implies #[trigger] p[x].end()
        < #[trigger] p[y].start by {
        assert(p[x] == rs[x + from] && p[y] == rs[y + from]);
    }
}

pub proof fn lemma_lookup_in(rs: Seq<SampleRange>, cap: int, k: int, i: int)
    requires
        ranges_wf(rs, cap),
        0 <= k < rs.len(),
        rs[k].contains(i),
    ensures
        lookup(rs, i) == Some(rs[k].samples@[i - rs[k].start]),
    decreases rs.len(),
{
    let p = rs.drop_last();
    if k < rs.len() - 1 {
        assert(rs[k].end() < rs[rs.len() - 1].start);
        lemma_wf_subrange(rs, cap, 0, rs.len() - 1);
        assert(p == rs.subrange(0, rs.len() - 1));
        lemma_lookup_in(p, cap, k, i);
        assert(p[k] == rs[k]);
    }
}

pub proof fn lemma_lookup_none(rs: Seq<SampleRange>, i: int)
    requires
        forall|k: int| 0 <= k < rs.len() ==> !(#[trigger] rs[k]).contains(i),
    ensures
        lookup(rs, i).is_none(),
    decreases rs.len(),
{
    if rs.len() > 0 {
        let p = rs.drop_last();
        assert(!rs[rs.len() - 1].contains(i));
        assert forall|k: int| 0 <= k < p.len() implies !(#[trigger] p[k]).contains(i) by {
            assert(p[k] == rs[k]);
        }
        lemma_lookup_none(p, i);
    }
}

/// Every stored position is below `cap`.
pub proof fn lemma_content_below_cap(rs: Seq<SampleRange>, cap: int, i: int)
    requires
        ranges_wf(rs, cap),
        lookup(rs, i).is_some(),
    ensures
        0 <= i < cap,
{
    if forall|k: int| 0 <= k < rs.len() ==> !(#[trigger] rs[k]).contains(i) {
        lemma_lookup_none(rs, i);
    } else {
        let k = choose|k: int| 0 <= k < rs.len() && (#[trigger] rs[k]).contains(i);
        assert(rs[k].end() <= cap);
    }
}

/// Whether range `r` ends at or after `lo`.
fn reaches(r: &SampleRange, lo: usize) -> (b: bool)
    ensures
        b == (r.end() >= lo),
{
    r.samples.len() >= lo || r.start >= lo - r.samples.len()
}

/// Pops from the end of `v` every range that starts after `hi`; they come
/// back last first.
fn pop_after(v: &mut Vec<SampleRange>, hi: usize) -> (tail: Vec<SampleRange>)
    ensures
        final(v)@ == old(v)@.subrange(0, final(v)@.len() as int),
        final(v)@.len() + tail@.len() == old(v)@.len(),
        forall|t: int| 0 <= t < tail@.len() ==> #[trigger] tail@[t] == old(v)@[old(v)@.len() - 1 - t],
        forall|x: int| final(v)@.len() <= x < old(v)@.len() ==> #[trigger] old(v)@[x].start > hi,
        final(v)@.len() > 0 ==> final(v)@[final(v)@.len() - 1].start <= hi,
{
    let ghost orig = v@;
    let mut tail: Vec<SampleRange> = Vec::new();
    while v.len() > 0 && v[v.len() - 1].start > hi
        invariant
            v@.len() <= orig.len(),
            v@ == orig.subrange(0, v@.len() as int),
            v@.len() + tail@.len() == orig.len(),
            forall|t: int| 0 <= t < tail@.len() ==> #[trigger] tail@[t] == orig[orig.len() - 1 - t],
            forall|x: int| v@.len() <= x < orig.len() ==> #[trigger] orig[x].start > hi,
        decreases v@.len(),
    {
        let r = v.pop().unwrap();
        proof {
            assert(v@ =~= orig.subrange(0, v@.len() as int));
        }
        tail.push(r);
    }
    tail
}

/// Pops from the end of `v` every range that ends at or after `lo`; they come
/// back last first.
fn pop_reaching(v: &mut Vec<SampleRange>, lo: usize, cap: Ghost<int>) -> (mid: Vec<SampleRange>)
    requires
        ranges_wf(old(v)@, cap@),
    ensures
        final(v)@ == old(v)@.subrange(0, final(v)@.len() as int),
        final(v)@.len() + mid@.len() == old(v)@.len(),
        forall|t: int| 0 <= t < mid@.len() ==> #[trigger] mid@[t] == old(v)@[old(v)@.len() - 1 - t],
        forall|x: int| final(v)@.len() <= x < old(v)@.len() ==> #[trigger] old(v)@[x].end() >= lo,
        final(v)@.len() > 0 ==> final(v)@[final(v)@.len() - 1].end() < lo,
{
    let ghost orig = v@;
    let mut mid: Vec<SampleRange> = Vec::new();
    while v.len() > 0 && reaches(&v[v.len() - 1], lo)
        invariant
            v@.len() <= orig.len(),
            v@ == orig.subrange(0, v@.len() as int),
            v@.len() + mid@.len() == orig.len(),
            forall|t: int| 0 <= t < mid@.len() ==> #[trigger] mid@[t] == orig[orig.len() - 1 - t],
            forall|x: int| v@.len() <= x < orig.len() ==> #[trigger] orig[x].end() >= lo,
        decreases v@.len(),
    {
        let r = v.pop().unwrap();
        proof {
            assert(v@ =~= orig.subrange(0, v@.len() as int));
        }
        mid.push(r);
    }
    mid
}

/// Pushes the ranges of `rev` onto `v`, last first.
fn push_reversed(v: &mut Vec<SampleRange>, rev: Vec<SampleRange>)
    ensures
        final(v)@.len() == old(v)@.len() + rev@.len(),
        forall|k: int| 0 <= k < final(v)@.len() ==> #[trigger] final(v)@[k] == (if k < old(v)@.len() {
            old(v)@[k]
        } else {
            rev@[rev@.len() - 1 - (k - old(v)@.len())]
        }),
{
    let ghost base = v@;
    let ghost all = rev@;
    let mut rev = rev;
    while rev.len() > 0
        invariant
            rev@.len() <= all.len(),
            rev@ == all.subrange(0, rev@.len() as int),
            v@.len() == base.len() + (all.len() - rev@.len()),
            forall|k: int| 0 <= k < v@.len() ==> #[trigger] v@[k] == (if k < base.len() {
                base[k]
            } else {
                all[all.len() - 1 - (k - base.len())]
            }),
        decreases rev@.len(),
    {
        let r = rev.pop().unwrap();
        proof {
            assert(rev@ =~= all.subrange(0, rev@.len() as int));
            assert(r == all[rev@.len() as int]);
        }
        v.push(r);
    }
}

fn copy_samples(src: &[Sample], from: usize, to: usize, dst: &mut Vec<Sample>)
    requires
        from <= to <= src@.len(),
    ensures
        final(dst)@ == old(dst)@ + src@.subrange(from as int, to as int),
{
    let mut j = from;
    while j < to
        invariant
            from <= j <= to <= src@.len(),
            dst@ == old(dst)@ + src@.subrange(from as int, j as int),
        decreases to - j,
    {
        dst.push(src[j]);
        assert(src@.subrange(from as int, j + 1) == src@.subrange(from as int, j as int).push(
            src@[j as int],
        ));
        j = j + 1;
    }
}

proof fn lemma_subrange_push(s: Seq<SampleRange>, b: int, e: int)
    requires
        0 <= b <= e < s.len(),
    ensures
        s.subrange(b, e + 1) == s.subrange(b, e).push(s[e]),
{
    assert(s.subrange(b, e + 1) =~= s.subrange(b, e).push(s[e]));
}

/// Replacing ranges `a..b` of `orig` by `m` keeps them well formed, where `m`
/// covers `[lo, hi)` and the ranges replaced, and no range kept touches it.
proof fn lemma_merged_wf(orig: Seq<SampleRange>, cap: int, a: int, b: int, m: SampleRange, lo: int, hi: int)
    requires
        ranges_wf(orig, cap),
        0 <= a <= b <= orig.len(),
        lo < hi,
        m.start <= lo,
        hi <= m.end() <= cap,
        a > 0 ==> orig[a - 1].end() < lo,
        b < orig.len() ==> orig[b].start > hi,
        a < b ==> orig[a].end() >= lo && orig[b - 1].start <= hi,
        a < b && orig[a].start < lo ==> m.start == orig[a].start,
        !(a < b && orig[a].start < lo) ==> m.start == lo,
        a < b && orig[b - 1].end() > hi ==> m.end() == orig[b - 1].end(),
        !(a < b && orig[b - 1].end() > hi) ==> m.end() == hi,
    ensures
        ({
            let fin = orig.subrange(0, a).push(m) + orig.subrange(b, orig.len() as int);
            &&& fin.len() == a + 1 + orig.len() - b
            &&& forall|k: int| 0 <= k < fin.len() ==> #[trigger] fin[k] == (if k < a {
                orig[k]
            } else if k == a {
                m
            } else {
                orig[k - a - 1 + b]
            })
            &&& ranges_wf(fin, cap)
        }),
{
    let fin = orig.subrange(0, a).push(m) + orig.subrange(b, orig.len() as int);
    let len = orig.len() as int;
    assert forall|k: int| 0 <= k < fin.len() implies #[trigger] fin[k] == (if k < a {
        orig[k]
    } else if k == a {
        m
    } else {
        orig[k - a - 1 + b]
    }) by {}
    assert forall|k: int| 0 <= k < fin.len() implies #[trigger] fin[k].samples@.len() > 0 && fin[k].end() <= cap by {
        if k < a {
            assert(fin[k] == orig[k]);
        } else if k == a {
        } else {
            assert(fin[k] == orig[k - a - 1 + b]);
        }
    }
    assert forall|x: int, y: int| 0 <= x < y < fin.len() implies #[trigger] fin[x].end() < #[trigger] fin[y].start by {
        assert(fin[x] == (if x < a { orig[x] } else if x == a { m } else { orig[x - a - 1 + b] }));
        assert(fin[y] == (if y < a { orig[y] } else if y == a { m } else { orig[y - a - 1 + b] }));
        if y < a {
        } else if y == a {
            if x < a - 1 {
                assert(orig[x].end() < orig[a - 1].start);
            }
            if a < b {
                assert(orig[a - 1].end() < orig[a].start);
            }
        } else if x > a {
        } else if x == a {
            if y - a - 1 + b > b {
                assert(orig[b].end() < orig[y - a - 1 + b].start);
            }
            if a < b {
                assert(orig[b - 1].end() < orig[b].start);
            }
        } else {
            if x < a - 1 {
                assert(orig[x].end() < orig[a - 1].start);
            }
            if y - a - 1 + b > b {
                assert(orig[b].end() < orig[y - a - 1 + b].start);
            }
        }
    }
}

/// Outside `[lo, hi)`, the ranges `fin` (the ranges of `orig` with those at
/// `a..b` replaced by `m`) store what `orig` stores, where `m` agrees with
/// `orig` on its positions outside `[lo, hi)`.
proof fn lemma_write_point(
    orig: Seq<SampleRange>,
    fin: Seq<SampleRange>,
    cap: int,
    a: int,
    b: int,
    m: SampleRange,
    lo: int,
    hi: int,
    i: int,
)
    requires
        ranges_wf(orig, cap),
        ranges_wf(fin, cap),
        0 <= a <= b <= orig.len(),
        fin.len() == a + 1 + orig.len() - b,
        forall|k: int| 0 <= k < fin.len() ==> #[trigger] fin[k] == (if k < a {
            orig[k]
        } else if k == a {
            m
        } else {
            orig[k - a - 1 + b]
        }),
        lo < hi,
        m.start <= lo,
        hi <= m.end(),
        a > 0 ==> orig[a - 1].end() < lo,
        b < orig.len() ==> orig[b].start > hi,
        a < b ==> orig[a].end() >= lo && orig[b - 1].start <= hi,
        a < b && orig[a].start < lo ==> m.start == orig[a].start,
        !(a < b && orig[a].start < lo) ==> m.start == lo,
        a < b && orig[b - 1].end() > hi ==> m.end() == orig[b - 1].end(),
        !(a < b && orig[b - 1].end() > hi) ==> m.end() == hi,
        forall|j: int| m.contains(j) && !(lo <= j < hi) ==> lookup(orig, j) == Some(
            #[trigger] m.samples@[j - m.start],
        ),
        !(lo <= i < hi),
    ensures
        lookup(fin, i) == lookup(orig, i),
{
    if exists|k: int| 0 <= k < orig.len() && (#[trigger] orig[k]).contains(i) {
        let k = choose|k: int| 0 <= k < orig.len() && (#[trigger] orig[k]).contains(i);
        lemma_lookup_in(orig, cap, k, i);
        if k < a {
            lemma_lookup_in(fin, cap, k, i);
        } else if k >= b {
            assert(fin[k - b + a + 1] == orig[k]);
            lemma_lookup_in(fin, cap, k - b + a + 1, i);
        } else if i < lo {
            if k > a {
                assert(orig[a].end() < orig[k].start);
            }
            assert(m.contains(i));
            lemma_lookup_in(fin, cap, a, i);
        } else {
            if k < b - 1 {
                assert(orig[k].end() < orig[b - 1].start);
            }
            assert(m.contains(i));
            lemma_lookup_in(fin, cap, a, i);
        }
    } else {
        lemma_lookup_none(orig, i);
        assert forall|k: int| 0 <= k < fin.len() implies !(#[trigger] fin[k]).contains(i) by {
            if k < a {
            } else if k == a {
                if m.contains(i) {
                    if i < lo {
                        assert(orig[a].contains(i));
                    } else {
                        assert(orig[b - 1].contains(i));
                    }
                }
            } else {
                assert(!orig[k - a - 1 + b].contains(i));
            }
        }
        lemma_lookup_none(fin, i);
    }
}

impl MultiRangeBuffer {
    pub closed spec fn wf(&self) -> bool {
        ranges_wf(self.ranges@, self.expected_length as int)
    }

    /// The stored samples, by position.
    pub closed spec fn view(&self) -> Map<int, Sample> {
        ranges_content(self.ranges@)
    }

    /// The hard cap on stored positions.
    pub closed spec fn cap(&self) -> usize {
        self.expected_length
    }

    /// The length of the stored run at `offset`, and whether it ends at the cap.
    pub open spec fn void_distance(&self, offset: int) -> BufferVoidDistance {
        let d = choose|d: int| is_run(self@, offset, d);
        BufferVoidDistance { distance: d as usize, is_end: offset + d == self.cap() }
    }

    /// The `[start, end)` bounds of the stored ranges, in order.
    pub closed spec fn range_bounds(&self) -> Seq<(int, int)> {
        bounds_of(self.ranges@)
    }

    /// The stored ranges are sorted, apart and below the cap, and together
    /// hold exactly the stored positions.
    pub proof fn lemma_ranges(&self)
        requires
            self.wf(),
        ensures
            bounds_sorted_apart(self.range_bounds(), self.cap() as int),
            forall|i: int| #[trigger] self@.contains_key(i) <==> exists|k: int|
                0 <= k < self.range_bounds().len() && (#[trigger] self.range_bounds()[k]).0 <= i < self.range_bounds()[k].1,
    {
        let rs = self.ranges@;
        let b = self.range_bounds();
        let cap = self.expected_length as int;
        assert forall|k: int| 0 <= k < b.len() implies (#[trigger] b[k]).0 < b[k].1 <= cap by {
            assert(rs[k].samples@.len() > 0 && rs[k].end() <= cap);
        }
        assert forall|k: int, l: int| 0 <= k < l < b.len() implies (#[trigger] b[k]).1 < (#[trigger] b[l]).0 by {
            assert(rs[k].end() < rs[l].start);
        }
        assert forall|i: int| #[trigger] self@.contains_key(i) <==> exists|k: int|
            0 <= k < b.len() && (#[trigger] b[k]).0 <= i < b[k].1 by {
            if exists|k: int| 0 <= k < b.len() && (#[trigger] b[k]).0 <= i < b[k].1 {
                let k = choose|k: int| 0 <= k < b.len() && (#[trigger] b[k]).0 <= i < b[k].1;
                assert(rs[k].contains(i));
                lemma_lookup_in(rs, cap, k, i);
            } else {
                assert forall|k: int| 0 <= k < rs.len() implies !(#[trigger] rs[k]).contains(i) by {
                    assert(b[k].0 == rs[k].start && b[k].1 == rs[k].end());
                }
                lemma_lookup_none(rs, i);
            }
        }
    }

    pub proof fn lemma_bounded(&self)
        requires
            self.wf(),
        ensures
            forall|i: int| #[trigger] self@.contains_key(i) ==> 0 <= i < self.cap(),
    {
        assert forall|i: int| #[trigger] self@.contains_key(i) implies 0 <= i < self.cap() by {
            lemma_content_below_cap(self.ranges@, self.expected_length as int, i);
        }
    }

    pub fn new(expected_length: usize) -> (r: Self)
        ensures
            r.wf(),
            r.cap() == expected_length,
            r@ == Map::<int, Sample>::empty(),
    {
        let r = MultiRangeBuffer { expected_length, ranges: Vec::new() };
        assert(r@ =~= Map::<int, Sample>::empty());
        r
    }

    pub fn expected_length(&self) -> (r: usize)
        ensures
            r == self.cap(),
    {
        self.expected_length
    }

    /// The index of the range that holds `offset`, if any.
    fn find_range(&self, offset: usize) -> (r: Option<usize>)
        requires
            self.wf(),
        ensures
            match r {
                Some(k) => k < self.ranges@.len() && self.ranges@[k as int].contains(offset as int),
                None => forall|k: int|
                    0 <= k < self.ranges@.len() ==> !(#[trigger] self.ranges@[k]).contains(
                        offset as int,
                    ),
            },
    {
        let mut k: usize = 0;
        while k < self.ranges.len()
            invariant
                self.wf(),
                k <= self.ranges@.len(),
                forall|x: int| 0 <= x < k ==> !(#[trigger] self.ranges@[x]).contains(offset as int),
            decreases self.ranges@.len() - k,
        {
            let r = &self.ranges[k];
            assert(r.end() <= self.expected_length);
            if r.start <= offset && offset < r.start + r.samples.len() {
                return Some(k);
            }
            k = k + 1;
        }
        None
    }

    /// The stored run at `offset`: its length and whether it ends at the cap.
    pub fn distance_from_void(&self, offset: usize) -> (r: BufferVoidDistance)
        requires
            self.wf(),
        ensures
            is_run(self@, offset as int, r.distance as int),
            r.is_end == (offset + r.distance == self.cap()),
            r == self.void_distance(offset as int),
    {
        let found = self.find_range(offset);
        let ghost rs = self.ranges@;
        let ghost cap = self.expected_length as int;
        let d: usize = match found {
            Some(k) => {
                let r = &self.ranges[k];
                let end = r.start + r.samples.len();
                proof {
                    assert(r.end() <= cap);
                    assert forall|j: int| offset <= j < end implies #[trigger] self@.contains_key(j) by {
                        assert(rs[k as int].contains(j));
                        lemma_lookup_in(rs, cap, k as int, j);
                    }
                    assert forall|x: int| 0 <= x < rs.len() implies !(#[trigger] rs[x]).contains(
                        end as int,
                    ) by {
                        if x < k {
                            assert(rs[x].end() < rs[k as int].start);
                        } else if x > k {
                            assert(rs[k as int].end() < rs[x].start);
                        }
                    }
                    lemma_lookup_none(rs, end as int);
                }
                end - offset
            },
            None => {
                proof {
                    lemma_lookup_none(rs, offset as int);
                }
                0
            },
        };
        let r = BufferVoidDistance { distance: d, is_end: offset + d == self.expected_length };
        proof {
            assert(is_run(self@, offset as int, d as int));
            let c = choose|c: int| is_run(self@, offset as int, c);
            if c < d {
                assert(self@.contains_key(offset + c));
            } else if c > d {
                assert(self@.contains_key(offset + d));
            }
        }
        r
    }

    /// Copies the run stored at `offset` into the front of `dst`, as much as fits.
    pub fn read(&self, offset: usize, dst: &mut Vec<Sample>) -> (r: BufferRead)
        requires
            self.wf(),
        ensures
            ({
                let v = self.void_distance(offset as int);
                let n = if v.distance < old(dst)@.len() { v.distance as int } else { old(dst)@.len() as int };
                &&& final(dst)@.len() == old(dst)@.len()
                &&& forall|j: int| 0 <= j < n ==> #[trigger] final(dst)@[j] == self@[offset + j]
                &&& forall|j: int| n <= j < old(dst)@.len() ==> #[trigger] final(dst)@[j] == old(dst)@[j]
                &&& r == (if v.distance == 0 {
                    BufferRead::Empty
                } else if n == old(dst)@.len() {
                    BufferRead::Full(n as usize)
                } else if v.is_end {
                    BufferRead::End(n as usize)
                } else {
                    BufferRead::Partial(n as usize)
                })
            }),
    {
        let v = self.distance_from_void(offset);
        let n = if v.distance < dst.len() { v.distance } else { dst.len() };
        if v.distance == 0 {
            return BufferRead::Empty;
        }
        let found = self.find_range(offset);
        let ghost rs = self.ranges@;
        let ghost cap = self.expected_length as int;
        let k = match found {
            Some(k) => k,
            None => {
                proof {
                    lemma_lookup_none(rs, offset as int);
                    assert(self@.contains_key(offset as int));
                }
                return BufferRead::Empty;
            },
        };
        let range = &self.ranges[k];
        proof {
            assert(range.end() <= cap);
            if range.end() < offset + n {
                // the run would have to step past the end of this range
                assert(self@.contains_key(range.end()));
                assert forall|x: int| 0 <= x < rs.len() implies !(#[trigger] rs[x]).contains(
                    range.end(),
                ) by {
                    if x < k {
                        assert(rs[x].end() < rs[k as int].start);
                    } else if x > k {
                        assert(rs[k as int].end() < rs[x].start);
                    }
                }
                lemma_lookup_none(rs, range.end());
            }
        }
        let base = offset - range.start;
        let mut j: usize = 0;
        while j < n
            invariant
                self.wf(),
                rs == self.ranges@,
                cap == self.expected_length,
                k < rs.len(),
                *range == rs[k as int],
                range.contains(offset as int),
                offset + n <= range.end(),
                base == offset - range.start,
                n <= old(dst)@.len(),
                j <= n,
                dst@.len() == old(dst)@.len(),
                forall|x: int| 0 <= x < j ==> #[trigger] dst@[x] == self@[offset + x],
                forall|x: int| j <= x < old(dst)@.len() ==> #[trigger] dst@[x] == old(dst)@[x],
            decreases n - j,
        {
            dst.set(j, range.samples[base + j]);
            proof {
                lemma_lookup_in(rs, cap, k as int, offset + j);
            }
            j = j + 1;
        }
        if n == dst.len() {
            BufferRead::Full(n)
        } else if v.is_end {
            BufferRead::End(n)
        } else {
            BufferRead::Partial(n)
        }
    }


    /// Stores `samples` at `[offset, offset + samples.len())`, cut at the cap,
    /// merging every range that the write overlaps or touches into one.
    #[verifier::rlimit(100)]
    pub fn write(&mut self, offset: usize, samples: &[Sample])
        requires
            old(self).wf(),
        ensures
            final(self).wf(),
            final(self).cap() == old(self).cap(),
            final(self)@ == old(self)@.union_prefer_right(
                written(offset as int, samples@, old(self).cap() as int),
            ),
            bounds_sorted_apart(final(self).range_bounds(), final(self).cap() as int),
    {
        let ghost orig = self.ranges@;
        let ghost cap = self.expected_length as int;
        let ghost target = old(self)@.union_prefer_right(written(offset as int, samples@, cap));
        if offset >= self.expected_length || samples.len() == 0 {
            assert(self@ =~= target);
            proof {
                self.lemma_ranges();
            }
            return;
        }
        let room = self.expected_length - offset;
        let n = if samples.len() < room { samples.len() } else { room };
        let lo = offset;
        let hi = offset + n;
        let ghost len = orig.len() as int;

        // Ranges wholly after the write, then those that it overlaps or touches.
        let tail = pop_after(&mut self.ranges, hi);
        let ghost b = self.ranges@.len() as int;
        proof {
            lemma_wf_subrange(orig, cap, 0, b);
        }
        let mut mid = pop_reaching(&mut self.ranges, lo, Ghost(cap));
        let ghost a = self.ranges@.len() as int;
        proof {
            assert(self.ranges@ == orig.subrange(0, a));
            if a > 0 {
                assert(orig[a - 1] == self.ranges@[a - 1]);
            }
            if b > a {
                assert(orig[b - 1] == mid@[0]);
                assert(orig[a] == mid@[mid@.len() - 1]);
                assert(orig[a].end() >= lo);
                assert(orig[b - 1].end() >= lo);
                assert(orig[b - 1].end() <= cap);
                assert(orig[a].start <= orig[b - 1].start);
            }
        }

        // The samples that a touched range holds past the end of the write.
        let mut suffix: Vec<Sample> = Vec::new();
        if mid.len() > 0 {
            let last = &mid[0];
            let last_end = last.start + last.samples.len();
            if last_end > hi {
                copy_samples(last.samples.as_slice(), hi - last.start, last.samples.len(), &mut suffix);
            }
        }
        // The merged range starts with what a touched range holds before the write.
        let mut start = lo;
        let mut data: Vec<Sample> = Vec::new();
        if mid.len() > 0 {
            let first = mid.pop().unwrap();
            if first.start < lo {
                start = first.start;
                data = first.samples;
                data.truncate(lo - start);
            }
        }
        let ghost prefix = data@;
        copy_samples(samples, 0, n, &mut data);
        let mut suffix_copy = suffix;
        data.append(&mut suffix_copy);
        proof {
            assert(data@ == prefix + samples@.subrange(0, n as int) + suffix@);
            if b > a && orig[a].start < lo {
                assert(prefix == orig[a].samples@.subrange(0, lo - start));
            } else {
                assert(prefix.len() == 0 && start == lo);
            }
            if b > a && orig[b - 1].end() > hi {
                assert(suffix@ == orig[b - 1].samples@.subrange(hi - orig[b - 1].start, orig[b - 1].samples@.len() as int));
            } else {
                assert(suffix@.len() == 0);
            }
        }
        let merged = SampleRange { start, samples: data };
        let ghost m = merged;
        proof {
            // What the merged range holds, position by position.
            assert forall|i: int| m.contains(i) implies (if lo <= i < hi {
                #[trigger] m.samples@[i - m.start] == samples@[i - lo]
            } else {
                lookup(orig, i) == Some(m.samples@[i - m.start])
            }) by {
                if lo <= i < hi {
                } else if i < lo {
                    assert(orig[a].contains(i));
                    lemma_lookup_in(orig, cap, a, i);
                } else {
                    assert(orig[b - 1].contains(i));
                    lemma_lookup_in(orig, cap, b - 1, i);
                }
            }
        }
        self.ranges.push(merged);
        push_reversed(&mut self.ranges, tail);
        let ghost fin = self.ranges@;
        proof {
            lemma_merged_wf(orig, cap, a, b, m, lo as int, hi as int);
            assert(fin =~= orig.subrange(0, a).push(m) + orig.subrange(b, len));
            assert forall|i: int| #[trigger] self@.contains_key(i) == target.contains_key(i) && (
            self@.contains_key(i) ==> self@[i] == target[i]) by {
                if lo <= i < hi {
                    lemma_lookup_in(fin, cap, a, i);
                    assert(written(offset as int, samples@, cap).contains_key(i));
                } else {
                    lemma_write_point(orig, fin, cap, a, b, m, lo as int, hi as int, i);
                    assert(!written(offset as int, samples@, cap).contains_key(i));
                }
            }
            assert(self@ =~= target);
            self.lemma_ranges();
        }
    }

    /// Drops every sample outside the window around `offset`, widened outwards
    /// to multiples of `chunk_alignment`.
    #[verifier::rlimit(60)]
    pub fn retain_window(&mut self, offset: usize, window: usize, chunk_alignment: usize)
        requires
            old(self).wf(),
        ensures
            final(self).wf(),
            final(self).cap() == old(self).cap(),
            ({
                let (lo, hi) = window_bounds(offset as int, window as int, chunk_alignment as int);
                final(self)@ == restrict_window(old(self)@, lo, hi)
            }),
    {
        let lo0 = if offset >= window { offset - window } else { 0 };
        let hi0 = if offset > usize::MAX - window { usize::MAX } else { offset + window };
        let c = chunk_alignment;
        proof {
            if c > 1 {
                assert(lo0 % c <= lo0) by (nonlinear_arith)
                    requires
                        c > 1,
                ;
                assert(hi0 % c <= hi0) by (nonlinear_arith)
                    requires
                        c > 1,
                ;
            }
        }
        let lo = if c <= 1 { lo0 } else { lo0 - lo0 % c };
        let hi = if c <= 1 || hi0 % c == 0 {
            hi0
        } else if hi0 - hi0 % c > usize::MAX - c {
            usize::MAX
        } else {
            hi0 - hi0 % c + c
        };
        proof {
            assert((lo as int, hi as int) == window_bounds(offset as int, window as int, c as int));
        }
        let ghost orig = self.ranges@;
        let ghost cap = self.expected_length as int;
        let ghost target = restrict_window(old(self)@, lo as int, hi as int);
        let mut out: Vec<SampleRange> = Vec::new();
        let mut k: usize = 0;
        while k < self.ranges.len()
            invariant
                self.ranges@ == orig,
                self.expected_length == cap,
                ranges_wf(orig, cap),
                ranges_wf(out@, cap),
                k <= orig.len(),
                out@.len() > 0 ==> out@[out@.len() - 1].end() <= (if k > 0 { orig[k - 1].end() } else { 0 }),
                forall|i: int| (#[trigger] lookup(out@, i)) == (if lo <= i < hi && (
                exists|x: int| 0 <= x < k && (#[trigger] orig[x]).contains(i)) {
                    lookup(orig, i)
                } else {
                    None
                }),
            decreases orig.len() - k,
        {
            let r = &self.ranges[k];
            proof {
                assert(r.end() <= cap);
                if k > 0 {
                    assert(orig[k as int - 1].end() < orig[k as int].start);
                }
            }
            let end = r.start + r.samples.len();
            let s = if r.start > lo { r.start } else { lo };
            let e = if end < hi { end } else { hi };
            let ghost prev = out@;
            let ghost mut gnr: SampleRange = arbitrary();
            let ghost mut added = false;
            if s < e {
                let mut piece: Vec<Sample> = Vec::new();
                copy_samples(r.samples.as_slice(), s - r.start, e - r.start, &mut piece);
                let nr = SampleRange { start: s, samples: piece };
                proof {
                    gnr = nr;
                    added = true;
                }
                out.push(nr);
                proof {
                    assert(out@.drop_last() == prev);
                    assert forall|x: int, y: int| 0 <= x < y < out@.len() implies #[trigger] out@[x].end() < #[trigger] out@[y].start by {
                        if y == out@.len() - 1 {
                            assert(out@[x] == prev[x]);
                            if x < prev.len() - 1 {
                                assert(prev[x].end() < prev[prev.len() - 1].start);
                            }
                            assert(out@[x].end() <= prev[prev.len() - 1].end());
                        } else {
                            assert(out@[x] == prev[x] && out@[y] == prev[y]);
                        }
                    }
                    assert forall|x: int| 0 <= x < out@.len() implies #[trigger] out@[x].samples@.len() > 0 by {
                        if x < prev.len() { assert(out@[x] == prev[x]); }
                    }
                    assert forall|x: int| 0 <= x < out@.len() implies #[trigger] out@[x].end() <= cap by {
                        if x < prev.len() { assert(out@[x] == prev[x]); }
                    }
                }
            }
            proof {
                assert forall|i: int| (#[trigger] lookup(out@, i)) == (if lo <= i < hi && (
                exists|x: int| 0 <= x < k + 1 && (#[trigger] orig[x]).contains(i)) {
                    lookup(orig, i)
                } else {
                    None
                }) by {
                    let before = exists|x: int| 0 <= x < k && (#[trigger] orig[x]).contains(i);
                    assert(lookup(prev, i) == (if lo <= i < hi && before {
                        lookup(orig, i)
                    } else {
                        None
                    }));
                    if added {
                        assert(out@.drop_last() == prev);
                        assert(out@.last() == gnr);
                        assert(gnr.start == s && gnr.end() == e);
                        if gnr.contains(i) {
                            assert(gnr.samples@[i - s] == r.samples@[i - r.start]);
                            assert(lookup(out@, i) == Some(gnr.samples@[i - gnr.start]));
                        } else {
                            assert(lookup(out@, i) == lookup(prev, i));
                        }
                    } else {
                        assert(out@ == prev);
                    }
                    if orig[k as int].contains(i) {
                        lemma_lookup_in(orig, cap, k as int, i);
                        assert forall|x: int| 0 <= x < k implies !(#[trigger] orig[x]).contains(i) by {
                            assert(orig[x].end() < orig[k as int].start);
                        }
                        assert(!before);
                        assert(exists|x: int| 0 <= x < k + 1 && (#[trigger] orig[x]).contains(i));
                    } else {
                        if exists|x: int| 0 <= x < k + 1 && (#[trigger] orig[x]).contains(i) {
                            let x = choose|x: int| 0 <= x < k + 1 && (#[trigger] orig[x]).contains(i);
                            assert(x < k);
                            assert(before);
                        }
                        if before {
                            let x = choose|x: int| 0 <= x < k && (#[trigger] orig[x]).contains(i);
                            assert(0 <= x < k + 1 && orig[x].contains(i));
                        }
                    }
                }
            }
            k = k + 1;
        }
        self.ranges = out;
        proof {
            assert forall|i: int| #[trigger] self@.contains_key(i) == target.contains_key(i) && (
            self@.contains_key(i) ==> self@[i] == target[i]) by {
                if !exists|x: int| 0 <= x < orig.len() && (#[trigger] orig[x]).contains(i) {
                    lemma_lookup_none(orig, i);
                }
            }
            assert(self@ =~= target);
            self.lemma_ranges();
        }
    }
}

} // verus!

