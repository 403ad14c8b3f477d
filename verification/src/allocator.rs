//! Sub-allocation of large GPU buffers into aligned, labelled ranges.
use std::ops::Range;
use std::sync::Arc;
use vstd::prelude::*;
use crate::arith::{div_ceil_spec, min_spec, div_ceil_u64, lemma_div_ceil_bounds, next_multiple_spec, next_multiple_of_u64, lemma_next_multiple, lemma_next_multiple_monotone, lcm_spec, lemma_lcm_common_multiple};

verus! {

/// What a partition is, without the token that tracks its holders.
pub ghost struct Span {
    pub label: Option<&'static str>,
    pub start: int,
    pub end: int,
}

impl Span {
    /// A span that covers no byte.
    pub open spec fn is_empty(self) -> bool {
        self.start >= self.end
    }

    /// Number of bytes the span covers.
    pub open spec fn size(self) -> int {
        if self.is_empty() { 0 } else { self.end - self.start }
    }

    /// Two spans share a byte (the rule `Partition::overlap` implements).
    pub open spec fn overlaps(self, other: Span) -> bool {
        &&& !self.is_empty()
        &&& !other.is_empty()
        &&& ((self.start <= other.start && other.start < self.end) || (other.start <= self.start
            && self.start < other.end))
    }
}

/// The spans lie side by side, without gap, from offset 0 up to `size`.
pub open spec fn tiles(spans: Seq<Span>, size: int) -> bool {
    &&& spans.len() == 0 ==> size == 0
    &&& spans.len() > 0 ==> spans[0].start == 0 && spans.last().end == size
    &&& forall|i: int| 0 <= i < spans.len() ==> #[trigger] spans[i].start <= spans[i].end
    &&& forall|i: int| 0 <= i < spans.len() - 1 ==> #[trigger] spans[i].end == spans[i + 1].start
}

/// The spans, with the spans that were free (`used` false) and adjacent
/// merged into one, and empty spans left out. Each result span carries whether
/// it is in use. A merged span keeps the label of its first piece.
pub open spec fn coalesce(spans: Seq<Span>, used: Seq<bool>) -> Seq<(Span, bool)>
    decreases spans.len(),
{
    if spans.len() == 0 || used.len() != spans.len() {
        seq![]
    } else {
        let rest = coalesce(spans.drop_last(), used.drop_last());
        let p = spans.last();
        let in_use = used.last();
        if p.is_empty() {
            rest
        } else if in_use {
            rest.push((p, true))
        } else if rest.len() > 0 && !rest.last().1 {
            rest.update(rest.len() - 1, (Span { end: p.end, ..rest.last().0 }, false))
        } else {
            rest.push((p, false))
        }
    }
}

/// The spans of a coalescing result.
pub open spec fn spans_of(c: Seq<(Span, bool)>) -> Seq<Span> {
    c.map_values(|e: (Span, bool)| e.0)
}

/// The usage flags of a coalescing result.
pub open spec fn flags_of(c: Seq<(Span, bool)>) -> Seq<bool> {
    c.map_values(|e: (Span, bool)| e.1)
}

/// A contiguous byte range of a buffer, with the label of its last user and a
/// token that every allocation made from it shares.
struct Partition {
    label: Option<&'static str>,
    range: Range<u64>,
    counter: Option<Arc<()>>,
}

/// Whether each partition is in use, from the number of handles to its
/// token: in use when some allocation holds a handle besides the partition.
pub fn flags_from_counts(counts: &Vec<usize>) -> (used: Vec<bool>)
    ensures
        used.len() == counts.len(),
        forall|i: int| 0 <= i < used.len() ==> #[trigger] used[i] == (counts[i] > 1),
{
    let mut used: Vec<bool> = Vec::new();
    for i in 0..counts.len()
        invariant
            used.len() == i,
            forall|j: int| 0 <= j < i ==> #[trigger] used[j] == (counts[j] > 1),
    {
        used.push(counts[i] > 1);
    }
    used
}

/// `used` marks in use only partitions that hold a token (`holders`).
pub open spec fn usage_within(used: Seq<bool>, holders: Seq<bool>) -> bool {
    &&& used.len() == holders.len()
    &&& forall|i: int| 0 <= i < used.len() ==> #[trigger] used[i] ==> holders[i]
}

/// `Arc::strong_count`: the number of `Arc` handles that point to the token.
/// Since the caller holds one, the count is at least one; how many others
/// there are depends on which allocations the rest of the program still keeps,
/// so nothing more is claimed.
#[verifier::external_body]
fn strong_count(counter: &Arc<()>) -> (r: usize)
    ensures
        r >= 1,
{
    Arc::strong_count(counter)
}

/// `Arc::clone`: another handle to the same token.
#[verifier::external_body]
fn share(counter: &Arc<()>) -> Arc<()> {
    Arc::clone(counter)
}

impl View for Partition {
    type V = Span;

    closed spec fn view(&self) -> Span {
        Span { label: self.label, start: self.range.start as int, end: self.range.end as int }
    }
}

impl Partition {
    /// A partition that nothing holds.
    fn unused(range: Range<u64>) -> (r: Self)
        ensures
            r@ == (Span { label: None, start: range.start as int, end: range.end as int }),
            r.counter is None,
    {
        Partition { label: None, range, counter: None }
    }

    /// A partition together with the token that keeps it in use.
    fn new(label: Option<&'static str>, range: Range<u64>) -> (r: (Self, Arc<()>))
        ensures
            r.0@ == (Span { label, start: range.start as int, end: range.end as int }),
    {
        let counter = Arc::new(());
        let keep_alive = share(&counter);
        (Partition { label, range, counter: Some(counter) }, keep_alive)
    }

    /// How many handles hold this partition's token; none for a partition
    /// that was never handed out.
    fn token_count(&self) -> (r: usize)
        ensures
            self.counter is None ==> r == 0,
    {
        match &self.counter {
            Some(counter) => strong_count(counter),
            None => 0,
        }
    }

    /// Number of bytes covered.
    fn size(&self) -> (r: u64)
        requires
            self.range.start <= self.range.end,
        ensures
            r == self@.size(),
    {
        self.range.end - self.range.start
    }

    /// Whether the range covers no byte.
    fn is_empty(&self) -> (r: bool)
        ensures
            r == self@.is_empty(),
    {
        !(self.range.start < self.range.end)
    }

    /// Whether the two partitions share a byte.
    fn overlap(&self, other: &Self) -> (r: bool)
        ensures
            r == self@.overlaps(other@),
    {
        if self.is_empty() || other.is_empty() {
            return false;
        }
        (self.range.start <= other.range.start && other.range.start < self.range.end) || (
        other.range.start <= self.range.start && self.range.start < other.range.end)
    }
}


/// Where the last span ends: the number of bytes the spans account for.
pub open spec fn extent_of(spans: Seq<Span>) -> int {
    if spans.len() == 0 { 0 } else { spans.last().end }
}

/// Without its last span, a tiling still tiles, up to where the last span
/// starts.
pub proof fn lemma_tiles_drop_last(spans: Seq<Span>)
    requires
        tiles(spans, extent_of(spans)),
        spans.len() > 0,
    ensures
        tiles(spans.drop_last(), extent_of(spans.drop_last())),
        extent_of(spans.drop_last()) == spans.last().start,
{
    let front = spans.drop_last();
    let n = spans.len();
    assert forall|i: int| 0 <= i < front.len() implies #[trigger] front[i].start <= front[i].end by {
        assert(front[i] == spans[i]);
    }
    assert forall|i: int| 0 <= i < front.len() - 1 implies #[trigger] front[i].end == front[i + 1].start by {
        assert(front[i] == spans[i]);
        assert(front[i + 1] == spans[i + 1]);
    }
    if n > 1 {
        assert(spans[n - 2].end == spans[n - 1].start);
    }
}

/// The free bytes never exceed the bytes the spans account for, and the
/// largest free span never exceeds the free bytes.
pub proof fn lemma_free_bounds(spans: Seq<Span>, used: Seq<bool>)
    requires
        tiles(spans, extent_of(spans)),
        used.len() == spans.len(),
    ensures
        0 <= free_max(spans, used) <= free_total(spans, used) <= extent_of(spans),
    decreases spans.len(),
{
    if spans.len() > 0 {
        lemma_tiles_drop_last(spans);
        lemma_free_bounds(spans.drop_last(), used.drop_last());
    }
}

/// When nothing is in use, every byte the spans account for is free.
pub proof fn lemma_nothing_used_all_free(spans: Seq<Span>, used: Seq<bool>)
    requires
        tiles(spans, extent_of(spans)),
        used.len() == spans.len(),
        forall|i: int| 0 <= i < used.len() ==> !#[trigger] used[i],
    ensures
        free_total(spans, used) == extent_of(spans),
    decreases spans.len(),
{
    if spans.len() > 0 {
        lemma_tiles_drop_last(spans);
        let u = used.drop_last();
        assert forall|i: int| 0 <= i < u.len() implies !#[trigger] u[i] by {
            assert(u[i] == used[i]);
        }
        lemma_nothing_used_all_free(spans.drop_last(), u);
        assert(!used.last());
        if spans.len() > 1 {
            assert(spans[spans.len() - 2].end == spans.last().start);
        }
    }
}

/// Coalescing keeps the tiling of the same bytes, leaves no empty span and no
/// two adjacent free spans.
pub proof fn lemma_coalesce_tiles(spans: Seq<Span>, used: Seq<bool>)
    requires
        tiles(spans, extent_of(spans)),
        used.len() == spans.len(),
    ensures
        tiles(spans_of(coalesce(spans, used)), extent_of(spans)),
        forall|j: int|
            0 <= j < coalesce(spans, used).len() ==> !(#[trigger] coalesce(spans, used)[j]).0.is_empty(),
        forall|j: int|
            0 <= j < coalesce(spans, used).len() - 1 ==> (#[trigger] coalesce(spans, used)[j]).1
                || coalesce(spans, used)[j + 1].1,
    decreases spans.len(),
{
    let c = coalesce(spans, used);
    if spans.len() == 0 {
    } else {
        let n = spans.len();
        let front = spans.drop_last();
        let ufront = used.drop_last();
        let p = spans.last();
        assert(tiles(front, extent_of(front))) by {
            assert forall|i: int| 0 <= i < front.len() implies #[trigger] front[i].start <= front[i].end by {
                assert(front[i] == spans[i]);
            }
            assert forall|i: int| 0 <= i < front.len() - 1 implies #[trigger] front[i].end == front[i + 1].start by {
                assert(front[i] == spans[i]);
                assert(front[i + 1] == spans[i + 1]);
            }
        }
        assert(extent_of(front) == p.start) by {
            if n > 1 {
                assert(spans[n - 2].end == spans[n - 1].start);
            }
        }
        lemma_coalesce_tiles(front, ufront);
        let rest = coalesce(front, ufront);
        assert(spans_of(rest).len() == rest.len());
        if p.is_empty() {
            assert(p.start == p.end);
        } else if used.last() {
            let r = rest.push((p, true));
            assert(c == r);
            assert(spans_of(r) == spans_of(rest).push(p));
        } else if rest.len() > 0 && !rest.last().1 {
            let q = rest.last().0;
            let r = rest.update(rest.len() - 1, (Span { end: p.end, ..q }, false));
            assert(c == r);
            assert(spans_of(r) == spans_of(rest).update(rest.len() - 1, Span { end: p.end, ..q }));
        } else {
            let r = rest.push((p, false));
            assert(c == r);
            assert(spans_of(r) == spans_of(rest).push(p));
        }
    }
}

/// Why an allocation could not be made.
#[allow(inconsistent_fields)]
#[derive(Debug, Clone, PartialEq, Eq)]
pub enum GpuAllocatorError {
    /// More bytes than a single storage binding may cover.
    ExceedingMaxBufferBindingSize { label: &'static str, requested: u64, max: u64 },
    /// No free partition can hold the aligned request.
    FailedToFindSpace {
        label: &'static str,
        requested: u64,
        continuous_free: u64,
        total_free: u64,
    },
    /// An allocation of zero bytes.
    AllocationEmpty { label: &'static str },
    /// The buffer to be replaced still holds an allocation.
    ResizingWhileInUse { label: Option<&'static str> },
}

/// `num::integer::lcm` on `u64`: the least common multiple, computed as
/// `a * (b / gcd(a, b))`; the caller keeps that product within `u64`.
#[verifier::external_body]
fn lcm_u64(a: u64, b: u64) -> (r: u64)
    requires
        lcm_spec(a as nat, b as nat) <= u64::MAX,
    ensures
        r == lcm_spec(a as nat, b as nat),
{
    num::integer::lcm(a, b)
}

/// `Arc::clone`: another handle to the same buffer.
#[verifier::external_body]
fn share_handle<B>(handle: &Arc<B>) -> (r: Arc<B>)
    ensures
        r == *handle,
{
    Arc::clone(handle)
}

/// A range of a buffer that is reserved as long as this value, or a clone of
/// it, lives.
pub struct Allocation<B> {
    label: &'static str,
    buffer: Arc<B>,
    range: Range<u64>,
    _keep_alive: Arc<()>,
}

impl<B> Allocation<B> {
    #[verifier::type_invariant]
    closed spec fn inv(self) -> bool {
        self.range.start < self.range.end
    }

    /// The label given when allocating.
    pub closed spec fn label_spec(&self) -> &'static str {
        self.label
    }

    /// First byte of the range.
    pub closed spec fn start(&self) -> int {
        self.range.start as int
    }

    /// One past the last byte of the range.
    pub closed spec fn end(&self) -> int {
        self.range.end as int
    }

    /// The buffer the range lies in.
    pub closed spec fn handle(&self) -> Arc<B> {
        self.buffer
    }

    /// A whole buffer of `size` bytes as one allocation; fails for zero bytes.
    pub fn whole(label: &'static str, buffer: B, size: u64) -> (r: Result<Self, GpuAllocatorError>)
        ensures
            size == 0 <==> r is Err,
            size == 0 ==> r == Err::<Self, _>(GpuAllocatorError::AllocationEmpty { label }),
            r matches Ok(a) ==> a.label_spec() == label && a.start() == 0 && a.end() == size && *a.handle() == buffer,
    {
        if size == 0 {
            return Err(GpuAllocatorError::AllocationEmpty { label });
        }
        let (partition, keep_alive) = Partition::new(Some(label), 0..size);
        Ok(Allocation { label, buffer: Arc::new(buffer), range: partition.range, _keep_alive: keep_alive })
    }

    /// The label given when allocating.
    pub fn label(&self) -> (r: &'static str)
        ensures
            r == self.label_spec(),
    {
        self.label
    }

    /// The buffer the range lies in.
    pub fn buffer(&self) -> (r: &B)
        ensures
            *r == *self.handle(),
    {
        &*self.buffer
    }

    /// Byte offset of the range in the buffer.
    pub fn offset(&self) -> (r: u64)
        ensures
            r == self.start(),
    {
        self.range.start
    }

    /// Number of bytes in the range; never zero.
    pub fn size(&self) -> (r: u64)
        ensures
            r == self.end() - self.start(),
            r > 0,
    {
        proof {
            use_type_invariant(self);
        }
        self.range.end - self.range.start
    }
}

impl<B> Clone for Allocation<B> {
    fn clone(&self) -> (r: Self)
        ensures
            r.label_spec() == self.label_spec(),
            r.start() == self.start(),
            r.end() == self.end(),
            r.handle() == self.handle(),
    {
        proof {
            use_type_invariant(self);
        }
        Allocation {
            label: self.label,
            buffer: share_handle(&self.buffer),
            range: self.range.start..self.range.end,
            _keep_alive: share(&self._keep_alive),
        }
    }
}

/// Number of free bytes: the sizes of the spans that `used` marks free.
pub open spec fn free_total(spans: Seq<Span>, used: Seq<bool>) -> int
    decreases spans.len(),
{
    if spans.len() == 0 || used.len() != spans.len() {
        0
    } else {
        free_total(spans.drop_last(), used.drop_last()) + if used.last() {
            0
        } else {
            spans.last().size()
        }
    }
}

/// Size of the largest span that `used` marks free, or 0.
pub open spec fn free_max(spans: Seq<Span>, used: Seq<bool>) -> int
    decreases spans.len(),
{
    if spans.len() == 0 || used.len() != spans.len() {
        0
    } else {
        let rest = free_max(spans.drop_last(), used.drop_last());
        let here = if used.last() { 0 } else { spans.last().size() };
        if here > rest { here } else { rest }
    }
}

/// A request of `size` bytes at a multiple of `align` fits into the span.
pub open spec fn fits(span: Span, in_use: bool, size: int, align: int) -> bool {
    &&& !in_use
    &&& next_multiple_spec(span.start, align) + size <= span.end
}

/// The first span, from index `i` on, that the request fits into.
pub open spec fn first_fit_from(spans: Seq<Span>, used: Seq<bool>, size: int, align: int, i: nat) -> Option<nat>
    decreases spans.len() - i,
{
    if i >= spans.len() {
        None
    } else if fits(spans[i as int], used[i as int], size, align) {
        Some(i)
    } else {
        first_fit_from(spans, used, size, align, i + 1)
    }
}

/// The first span the request fits into.
pub open spec fn first_fit(spans: Seq<Span>, used: Seq<bool>, size: int, align: int) -> Option<nat> {
    first_fit_from(spans, used, size, align, 0)
}

/// The spans after placing a request in span `k`: the alignment padding and
/// the leftover become unlabelled spans around the labelled allocation.
pub open spec fn place(spans: Seq<Span>, k: int, label: &'static str, size: int, align: int) -> Seq<Span> {
    let p = spans[k];
    let a = next_multiple_spec(p.start, align);
    spans.take(k) + seq![
        Span { label: None, start: p.start, end: a },
        Span { label: Some(label), start: a, end: a + size },
        Span { label: None, start: a + size, end: p.end },
    ] + spans.skip(k + 1)
}

/// The first-fit search in plain terms: it finds the first span that is
/// free and ends no earlier than its start rounded up to `align` plus
/// `size`, and finds none exactly when no span is like that.
pub proof fn lemma_first_fit_exact(spans: Seq<Span>, used: Seq<bool>, size: int, align: int)
    requires
        used.len() == spans.len(),
    ensures
        first_fit(spans, used, size, align) matches Some(k) ==> {
            &&& k < spans.len()
            &&& !used[k as int]
            &&& next_multiple_spec(spans[k as int].start, align) + size <= spans[k as int].end
            &&& forall|j: int|
                0 <= j < k ==> used[j] || next_multiple_spec(#[trigger] spans[j].start, align) + size > spans[j].end
        },
        first_fit(spans, used, size, align) is None <==> forall|j: int|
            0 <= j < spans.len() ==> used[j] || next_multiple_spec(#[trigger] spans[j].start, align) + size
                > spans[j].end,
{
    lemma_first_fit_is_first(spans, used, size, align, 0);
    if first_fit(spans, used, size, align) is None {
        assert forall|j: int| 0 <= j < spans.len() implies used[j] || next_multiple_spec(
            #[trigger] spans[j].start,
            align,
        ) + size > spans[j].end by {
            assert(!fits(spans[j], used[j], size, align));
        }
    } else {
        let k = first_fit(spans, used, size, align)->0 as int;
        assert(fits(spans[k], used[k], size, align));
        assert forall|j: int| 0 <= j < k implies used[j] || next_multiple_spec(#[trigger] spans[j].start, align) + size
            > spans[j].end by {
            assert(!fits(spans[j], used[j], size, align));
        }
    }
}

/// The usage after placing in span `k`: the padding and the rest are free,
/// the allocation is in use.
pub open spec fn place_flags(used: Seq<bool>, k: int) -> Seq<bool> {
    used.take(k) + seq![false, true, false] + used.skip(k + 1)
}

proof fn lemma_free_total_append(s1: Seq<Span>, u1: Seq<bool>, s2: Seq<Span>, u2: Seq<bool>)
    requires
        s1.len() == u1.len(),
        s2.len() == u2.len(),
    ensures
        free_total(s1 + s2, u1 + u2) == free_total(s1, u1) + free_total(s2, u2),
    decreases s2.len(),
{
    if s2.len() == 0 {
        assert(s1 + s2 =~= s1);
        assert(u1 + u2 =~= u1);
    } else {
        lemma_free_total_append(s1, u1, s2.drop_last(), u2.drop_last());
        assert((s1 + s2).drop_last() =~= s1 + s2.drop_last());
        assert((u1 + u2).drop_last() =~= u1 + u2.drop_last());
    }
}

proof fn lemma_free_total_single(p: Span, u: bool)
    ensures
        free_total(seq![p], seq![u]) == if u { 0 } else { p.size() },
{
    assert(seq![p].drop_last() =~= Seq::<Span>::empty());
    assert(seq![u].drop_last() =~= Seq::<bool>::empty());
    assert(free_total(Seq::<Span>::empty(), Seq::<bool>::empty()) == 0);
    assert(seq![p].last() == p && seq![u].last() == u);
}

proof fn lemma_free_total_placed(p: Span, a: int, label: &'static str, size: int)
    requires
        p.start <= a,
        a + size <= p.end,
        size > 0,
    ensures
        free_total(
            seq![
                Span { label: None, start: p.start, end: a },
                Span { label: Some(label), start: a, end: a + size },
                Span { label: None, start: a + size, end: p.end },
            ],
            seq![false, true, false],
        ) == p.size() - size,
{
    let s0 = Span { label: None, start: p.start, end: a };
    let s1 = Span { label: Some(label), start: a, end: a + size };
    let s2 = Span { label: None, start: a + size, end: p.end };
    lemma_free_total_single(s0, false);
    lemma_free_total_single(s1, true);
    lemma_free_total_single(s2, false);
    lemma_free_total_append(seq![s0], seq![false], seq![s1], seq![true]);
    assert(seq![s0] + seq![s1] =~= seq![s0, s1]);
    assert(seq![false] + seq![true] =~= seq![false, true]);
    lemma_free_total_append(seq![s0, s1], seq![false, true], seq![s2], seq![false]);
    assert(seq![s0, s1] + seq![s2] =~= seq![s0, s1, s2]);
    assert(seq![false, true] + seq![false] =~= seq![false, true, false]);
}

proof fn lemma_place_free_total_at(
    spans: Seq<Span>,
    used: Seq<bool>,
    k: int,
    label: &'static str,
    size: int,
    align: int,
)
    requires
        used.len() == spans.len(),
        0 <= k < spans.len(),
        0 <= spans[k].start,
        size > 0,
        align > 0,
        fits(spans[k], used[k], size, align),
    ensures
        free_total(place(spans, k, label, size, align), place_flags(used, k)) == free_total(spans, used) - size,
{
    let p = spans[k];
    let a = next_multiple_spec(p.start, align);
    lemma_next_multiple(p.start, align);
    let mid = seq![
        Span { label: None, start: p.start, end: a },
        Span { label: Some(label), start: a, end: a + size },
        Span { label: None, start: a + size, end: p.end },
    ];
    let fl = seq![false, true, false];
    lemma_free_total_placed(p, a, label, size);
    lemma_free_total_single(p, used[k]);
    let s0 = spans.take(k);
    let u0 = used.take(k);
    let s2 = spans.skip(k + 1);
    let u2 = used.skip(k + 1);
    lemma_free_total_append(s0, u0, mid, fl);
    lemma_free_total_append(s0 + mid, u0 + fl, s2, u2);
    lemma_free_total_append(s0, u0, seq![p], seq![used[k]]);
    lemma_free_total_append(s0 + seq![p], u0 + seq![used[k]], s2, u2);
    assert(s0 + seq![p] + s2 =~= spans);
    assert(u0 + seq![used[k]] + u2 =~= used);
}

/// Placing a request takes exactly its size from the free bytes: the
/// padding and the rest of the span it is placed in stay free.
pub proof fn lemma_place_free_total(spans: Seq<Span>, used: Seq<bool>, label: &'static str, size: int, align: int)
    requires
        tiles(spans, extent_of(spans)),
        used.len() == spans.len(),
        size > 0,
        align > 0,
        first_fit(spans, used, size, align) is Some,
    ensures
        ({
            let k = first_fit(spans, used, size, align)->0 as int;
            free_total(place(spans, k, label, size, align), place_flags(used, k)) == free_total(spans, used) - size
        }),
{
    let k = first_fit(spans, used, size, align)->0 as int;
    lemma_first_fit_is_first(spans, used, size, align, 0);
    lemma_tiles_bounds(spans, extent_of(spans), k);
    lemma_place_free_total_at(spans, used, k, label, size, align);
}

proof fn lemma_first_fit_step(spans: Seq<Span>, used: Seq<bool>, size: int, align: int, i: nat)
    requires
        i < spans.len(),
        !fits(spans[i as int], used[i as int], size, align),
    ensures
        first_fit_from(spans, used, size, align, i) == first_fit_from(spans, used, size, align, i + 1),
{
}

/// The found span is the first that fits.
pub proof fn lemma_first_fit_is_first(spans: Seq<Span>, used: Seq<bool>, size: int, align: int, i: nat)
    ensures
        first_fit_from(spans, used, size, align, i) matches Some(k) ==> i <= k < spans.len() && fits(
            spans[k as int],
            used[k as int],
            size,
            align,
        ) && forall|j: int| i <= j < k ==> !fits(#[trigger] spans[j], used[j], size, align),
        first_fit_from(spans, used, size, align, i) is None ==> forall|j: int|
            i <= j < spans.len() ==> !fits(#[trigger] spans[j], used[j], size, align),
    decreases spans.len() - i,
{
    if i < spans.len() {
        lemma_first_fit_is_first(spans, used, size, align, i + 1);
    }
}

/// Coalescing neither gains nor loses free bytes.
pub proof fn lemma_coalesce_free_total(spans: Seq<Span>, used: Seq<bool>)
    requires
        tiles(spans, extent_of(spans)),
        used.len() == spans.len(),
    ensures
        free_total(spans_of(coalesce(spans, used)), flags_of(coalesce(spans, used))) == free_total(spans, used),
    decreases spans.len(),
{
    if spans.len() > 0 {
        let front = spans.drop_last();
        let ufront = used.drop_last();
        let p = spans.last();
        lemma_tiles_drop_last(spans);
        lemma_coalesce_free_total(front, ufront);
        lemma_coalesce_tiles(front, ufront);
        let rest = coalesce(front, ufront);
        let c = coalesce(spans, used);
        let rs = spans_of(rest);
        let rf = flags_of(rest);
        if p.is_empty() {
            assert(p.size() == 0);
        } else if used.last() {
            assert(c == rest.push((p, true)));
            assert(spans_of(c).drop_last() =~= rs);
            assert(flags_of(c).drop_last() =~= rf);
        } else if rest.len() > 0 && !rest.last().1 {
            let q = rest.last().0;
            let m = rest.len() - 1;
            assert(c == rest.update(m, (Span { end: p.end, ..q }, false)));
            assert(spans_of(c).drop_last() =~= rs.drop_last());
            assert(flags_of(c).drop_last() =~= rf.drop_last());
            assert(rs.last() == q);
            assert(q.end == p.start);
            assert(!q.is_empty());
        } else {
            assert(c == rest.push((p, false)));
            assert(spans_of(c).drop_last() =~= rs);
            assert(flags_of(c).drop_last() =~= rf);
        }
    }
}

/// A large GPU buffer, split into partitions that tile it.
pub struct GpuBuffer<B> {
    min_storage_buffer_offset_alignment: u64,
    buffer: Arc<B>,
    partitions: Vec<Partition>,
}

impl<B> GpuBuffer<B> {
    /// The partitions, in buffer order.
    pub closed spec fn spans(&self) -> Seq<Span> {
        self.partitions@.map_values(|p: Partition| p@)
    }

    /// For each partition, whether it holds a token that allocations may
    /// share; partitions never handed out, and free ones after merging, hold
    /// none.
    pub closed spec fn holders(&self) -> Seq<bool> {
        self.partitions@.map_values(|p: Partition| p.counter is Some)
    }

    /// The alignment every allocation's offset must also respect.
    pub closed spec fn min_alignment(&self) -> int {
        self.min_storage_buffer_offset_alignment as int
    }

    /// The buffer handle the allocations share.
    pub closed spec fn handle(&self) -> Arc<B> {
        self.buffer
    }

    /// Number of bytes the partitions account for.
    pub open spec fn extent(&self) -> int {
        extent_of(self.spans())
    }

    /// The partitions tile the buffer and the alignment is positive.
    pub open spec fn wf(&self) -> bool {
        &&& tiles(self.spans(), self.extent())
        &&& self.min_alignment() > 0
    }

    /// A buffer of `size` bytes held as one unused partition.
    pub fn new(buffer: B, size: u64, min_storage_buffer_offset_alignment: u64) -> (r: Self)
        requires
            min_storage_buffer_offset_alignment > 0,
        ensures
            r.wf(),
            r.spans() == seq![Span { label: None, start: 0, end: size as int }],
            r.holders() == seq![false],
            r.extent() == size,
            r.min_alignment() == min_storage_buffer_offset_alignment,
    {
        let mut partitions = Vec::new();
        partitions.push(Partition::unused(0..size));
        let r = GpuBuffer {
            min_storage_buffer_offset_alignment,
            buffer: Arc::new(buffer),
            partitions,
        };
        assert(r.spans() =~= seq![Span { label: None, start: 0, end: size as int }]);
        assert(r.holders() =~= seq![false]);
        r
    }

    /// For each partition, whether some allocation still holds it, as seen now.
    /// Only partitions that hold a token can be in use.
    pub fn usage(&self) -> (used: Vec<bool>)
        ensures
            used.len() == self.spans().len(),
            usage_within(used@, self.holders()),
    {
        let mut counts: Vec<usize> = Vec::new();
        let n = self.partitions.len();
        for i in 0..n
            invariant
                n == self.partitions.len(),
                counts.len() == i,
                forall|j: int| 0 <= j < i ==> !self.holders()[j] ==> #[trigger] counts[j] == 0,
        {
            assert(self.holders()[i as int] == (self.partitions@[i as int].counter is Some));
            counts.push(self.partitions[i].token_count());
        }
        flags_from_counts(&counts)
    }

    /// Merges adjacent partitions that are free under `used` and drops empty
    /// ones.
    pub fn coalesce(&mut self, used: &Vec<bool>)
        requires
            old(self).wf(),
            used.len() == old(self).spans().len(),
        ensures
            final(self).spans() == spans_of(coalesce(old(self).spans(), used@)),
            forall|k: int|
                0 <= k < final(self).holders().len() ==> #[trigger] final(self).holders()[k] ==> flags_of(
                    coalesce(old(self).spans(), used@),
                )[k],
            final(self).wf(),
            final(self).extent() == old(self).extent(),
            final(self).min_alignment() == old(self).min_alignment(),
            final(self).handle() == old(self).handle(),
    {
        let ghost spans = self.spans();
        let ghost old_parts = self.partitions@;
        let mut parts: Vec<Partition> = Vec::new();
        std::mem::swap(&mut parts, &mut self.partitions);
        let mut out: Vec<Partition> = Vec::new();
        let mut free: Option<Partition> = None;
        let ghost mut flags: Seq<bool> = seq![];
        let n = parts.len();
        let mut i: usize = 0;
        proof {
            assert(spans.take(0) =~= seq![]);
            assert(used@.take(0) =~= seq![]);
        }
        for partition in it: parts.into_iter()
            invariant
                i == it.index(),
                it.seq() == old_parts,
                n == old_parts.len(),
                used.len() == n,
                spans == old_parts.map_values(|p: Partition| p@),
                flags.len() == out.len(),
                out.len() > 0 ==> flags.last(),
                forall|k: int| 0 <= k < out.len() ==> (#[trigger] out@[k]).counter is Some ==> flags[k],
                free matches Some(f) ==> f.counter is None,
                ({
                    let c = coalesce(spans.take(i as int), used@.take(i as int));
                    let tail = match free {
                        Some(f) => seq![f@],
                        None => seq![],
                    };
                    let tail_flags = match free {
                        Some(f) => seq![false],
                        None => seq![],
                    };
                    &&& spans_of(c) == out@.map_values(|p: Partition| p@) + tail
                    &&& flags_of(c) == flags + tail_flags
                }),
        {
            proof {
                assert(spans.take(i + 1).drop_last() =~= spans.take(i as int));
                assert(used@.take(i + 1).drop_last() =~= used@.take(i as int));
                assert(spans.take(i + 1).last() == partition@);
                assert(used@.take(i + 1).last() == used@[i as int]);
            }
            let ghost c = coalesce(spans.take(i as int), used@.take(i as int));
            let ghost c2 = coalesce(spans.take(i + 1), used@.take(i + 1));
            if partition.is_empty() {
                assert(c2 == c);
            } else if used[i] {
                assert(c2 == c.push((partition@, true)));
                let ghost pv = partition@;
                if let Some(f) = free.take() {
                    let ghost before = out@.map_values(|p: Partition| p@);
                    let ghost fl = flags;
                    out.push(f);
                    assert(out@.map_values(|p: Partition| p@) =~= before.push(f@));
                    proof { flags = flags.push(false); }
                    assert(forall|k: int| 0 <= k < out.len() - 1 ==> flags[k] == fl[k]);
                }
                let ghost before = out@.map_values(|p: Partition| p@);
                assert(spans_of(c) =~= before);
                let ghost fl = flags;
                out.push(partition);
                assert(out@.map_values(|p: Partition| p@) =~= before.push(pv));
                assert(spans_of(c2) =~= spans_of(c).push(pv));
                assert(flags_of(c2) =~= flags_of(c).push(true));
                proof { flags = flags.push(true); }
                assert(forall|k: int| 0 <= k < out.len() - 1 ==> flags[k] == fl[k]);
                assert(spans_of(c2) =~= out@.map_values(|p: Partition| p@));
                assert(flags_of(c2) =~= flags);
            } else {
                match free {
                    Some(mut f) => {
                        assert(c.len() > 0 && !c.last().1) by {
                            assert(flags_of(c).last() == false);
                        }
                        let ghost fv = f@;
                        assert(c.last().0 == fv) by {
                            assert(spans_of(c).last() == fv);
                        }
                        assert(c2 == c.update(c.len() - 1, (Span { end: partition@.end, ..fv }, false)));
                        f.range.end = partition.range.end;
                        assert(f@ == Span { end: partition@.end, ..fv });
                        assert(spans_of(c2) =~= spans_of(c).update(c.len() - 1, f@));
                        free = Some(f);
                        assert(spans_of(c2) =~= out@.map_values(|p: Partition| p@) + seq![f@]);
                        assert(flags_of(c2) =~= flags + seq![false]);
                    }
                    None => {
                        assert(c.len() == 0 || c.last().1) by {
                            if c.len() > 0 {
                                assert(flags_of(c).last() == flags.last());
                            }
                        }
                        assert(c2 == c.push((partition@, false)));
                        let mut partition = partition;
                        partition.counter = None;
                        free = Some(partition);
                        assert(spans_of(c2) =~= out@.map_values(|p: Partition| p@) + seq![partition@]);
                        assert(flags_of(c2) =~= flags + seq![false]);
                    }
                }
            }
            i = i + 1;
        }
        let ghost fl = flags;
        if let Some(f) = free.take() {
            out.push(f);
            proof { flags = flags.push(false); }
        }
        proof {
            assert(spans.take(n as int) =~= spans);
            assert(used@.take(n as int) =~= used@);
            assert(forall|k: int| 0 <= k < fl.len() ==> flags[k] == fl[k]);
        }
        self.partitions = out;
        assert(self.spans() =~= spans_of(coalesce(spans, used@)));
        assert(flags =~= flags_of(coalesce(spans, used@)));
        assert forall|k: int| 0 <= k < self.holders().len() && #[trigger] self.holders()[k] implies flags_of(
            coalesce(spans, used@),
        )[k] by {
            assert(self.holders()[k] == (self.partitions@[k].counter is Some));
        }
        proof {
            lemma_coalesce_tiles(spans, used@);
        }
    }
}


impl<B> GpuBuffer<B> {
    /// Number of bytes the partitions account for.
    pub fn size(&self) -> (r: u64)
        requires
            self.wf(),
        ensures
            r == self.extent(),
    {
        let n = self.partitions.len();
        if n == 0 {
            0
        } else {
            assert(self.spans().last() == self.partitions@[n - 1]@);
            self.partitions[n - 1].range.end
        }
    }

    /// Free bytes under `used`.
    pub fn total_free_given(&self, used: &Vec<bool>) -> (r: u64)
        requires
            self.wf(),
            used.len() == self.spans().len(),
        ensures
            r == free_total(self.spans(), used@),
    {
        let ghost spans = self.spans();
        let n = self.partitions.len();
        let mut acc: u64 = 0;
        for i in 0..n
            invariant
                n == self.partitions.len(),
                spans == self.spans(),
                self.wf(),
                used.len() == n,
                acc == free_total(spans.take(i as int), used@.take(i as int)),
                acc <= if i == 0 { 0 } else { spans[i - 1].end },
        {
            proof {
                assert(spans.take(i + 1).drop_last() =~= spans.take(i as int));
                assert(used@.take(i + 1).drop_last() =~= used@.take(i as int));
                assert(spans[i as int] == self.partitions@[i as int]@);
                if i > 0 {
                    assert(spans[i - 1].end == spans[i as int].start);
                }
            }
            if !used[i] {
                acc = acc + self.partitions[i].size();
            }
        }
        proof {
            assert(spans.take(n as int) =~= spans);
            assert(used@.take(n as int) =~= used@);
        }
        acc
    }

    /// Size of the largest free partition under `used`.
    pub fn biggest_free_given(&self, used: &Vec<bool>) -> (r: u64)
        requires
            self.wf(),
            used.len() == self.spans().len(),
        ensures
            r == free_max(self.spans(), used@),
    {
        let ghost spans = self.spans();
        let n = self.partitions.len();
        let mut best: u64 = 0;
        for i in 0..n
            invariant
                n == self.partitions.len(),
                spans == self.spans(),
                self.wf(),
                used.len() == n,
                best == free_max(spans.take(i as int), used@.take(i as int)),
        {
            proof {
                assert(spans.take(i + 1).drop_last() =~= spans.take(i as int));
                assert(used@.take(i + 1).drop_last() =~= used@.take(i as int));
                assert(spans[i as int] == self.partitions@[i as int]@);
            }
            let here = if used[i] { 0 } else { self.partitions[i].size() };
            if here > best {
                best = here;
            }
        }
        proof {
            assert(spans.take(n as int) =~= spans);
            assert(used@.take(n as int) =~= used@);
        }
        best
    }

    /// Merges adjacent free partitions and drops empty ones, with the usage
    /// as seen now.
    pub fn fix(&mut self)
        requires
            old(self).wf(),
        ensures
            final(self).wf(),
            final(self).extent() == old(self).extent(),
            final(self).min_alignment() == old(self).min_alignment(),
            final(self).handle() == old(self).handle(),
            exists|used: Seq<bool>|
                used.len() == old(self).spans().len() && usage_within(used, old(self).holders()) && final(self).spans()
                    == spans_of(#[trigger] coalesce(old(self).spans(), used)) && usage_within(
                    final(self).holders(),
                    flags_of(coalesce(old(self).spans(), used)),
                ),
    {
        let used = self.usage();
        self.coalesce(&used);
    }

    /// Free bytes, with the usage as seen now.
    pub fn total_free(&self) -> (r: u64)
        requires
            self.wf(),
        ensures
            exists|used: Seq<bool>|
                used.len() == self.spans().len() && usage_within(used, self.holders()) && r == #[trigger] free_total(
                    self.spans(),
                    used,
                ),
    {
        let used = self.usage();
        self.total_free_given(&used)
    }

    /// Size of the largest free partition, with the usage as seen now.
    pub fn biggest_free(&self) -> (r: u64)
        requires
            self.wf(),
        ensures
            exists|used: Seq<bool>|
                used.len() == self.spans().len() && usage_within(used, self.holders()) && r == #[trigger] free_max(
                    self.spans(),
                    used,
                ),
    {
        let used = self.usage();
        self.biggest_free_given(&used)
    }

    /// Whether no two partitions share a byte; for a well-formed buffer
    /// always so.
    pub fn check_overlap(&self) -> (r: bool)
        requires
            self.wf(),
        ensures
            r == !any_overlap(self.spans()),
            r,
    {
        proof {
            lemma_tiles_disjoint(self.spans(), self.extent());
        }
        let ghost spans = self.spans();
        let n = self.partitions.len();
        for a in 0..n
            invariant
                n == self.partitions.len(),
                spans == self.spans(),
                !any_overlap(spans),
                forall|i: int, j: int| 0 <= i < a && i < j < n ==> !(#[trigger] spans[i]).overlaps(#[trigger] spans[j]),
        {
            for b in a + 1..n
                invariant
                    n == self.partitions.len(),
                    spans == self.spans(),
                    !any_overlap(spans),
                    a < n,
                    forall|i: int, j: int| 0 <= i < a && i < j < n ==> !(#[trigger] spans[i]).overlaps(#[trigger] spans[j]),
                    forall|j: int| a < j < b ==> !spans[a as int].overlaps(#[trigger] spans[j]),
            {
                proof {
                    assert(spans[a as int] == self.partitions@[a as int]@);
                    assert(spans[b as int] == self.partitions@[b as int]@);
                }
                if self.partitions[a].overlap(&self.partitions[b]) {
                    assert(spans[a as int].overlaps(spans[b as int]));
                    return false;
                }
            }
        }
        true
    }

    /// Reserves `size` bytes at an offset that is a multiple of both `align`
    /// and the buffer's minimum alignment, in the first free partition that
    /// can hold them after merging free neighbours.
    pub fn allocate_raw(&mut self, label: &'static str, size: u64, align: u64) -> (r: Option<Allocation<B>>)
        requires
            old(self).wf(),
            size > 0,
            align > 0,
            lcm_spec(align as nat, old(self).min_alignment() as nat) <= u64::MAX,
            next_multiple_spec(old(self).extent(), lcm_spec(align as nat, old(self).min_alignment() as nat) as int) + size
                <= u64::MAX,
        ensures
            final(self).wf(),
            final(self).extent() == old(self).extent(),
            final(self).min_alignment() == old(self).min_alignment(),
            final(self).handle() == old(self).handle(),
            buffer_request(old(self).spans(), old(self).holders(), final(self).spans(), label, size as int, lcm_spec(align as nat, old(self).min_alignment() as nat) as int, allocated_range(r)),
            r matches Some(a) ==> {
                &&& a.label_spec() == label
                &&& a.end() - a.start() == size
                &&& a.start() % (align as int) == 0
                &&& a.start() % old(self).min_alignment() == 0
                &&& a.end() <= old(self).extent()
                &&& a.handle() == old(self).handle()
            },
    {
        let ghost spans0 = self.spans();
        let ghost holders0 = self.holders();
        let used_fix = self.usage();
        self.coalesce(&used_fix);
        let ghost merged = self.spans();
        let eff_align = lcm_u64(align, self.min_storage_buffer_offset_alignment);
        proof {
            lemma_lcm_common_multiple(align as nat, self.min_storage_buffer_offset_alignment as nat);
        }
        let used_place = self.usage();
        let r = self.place(&used_place, label, size, eff_align);
        proof {
            let got = allocated_range(r);
            assert(allocation_outcome(spans0, holders0, used_fix@, used_place@, label, size as int, eff_align as int, self.spans(), got));
            if let Some(k) = first_fit(merged, used_place@, size as int, eff_align as int) {
                lemma_first_fit_is_first(merged, used_place@, size as int, eff_align as int, 0);
                lemma_tiles_bounds(merged, old(self).extent(), k as int);
                let a0 = next_multiple_spec(merged[k as int].start, eff_align as int);
                lemma_next_multiple(merged[k as int].start, eff_align as int);
                lemma_mod_transitive(a0, eff_align as int, old(self).min_alignment());
                lemma_mod_transitive(a0, eff_align as int, align as int);
            }
        }
        r
    }

    /// Places `size` bytes at a multiple of `align` into the first partition
    /// that is free under `used` and large enough; the padding before and the
    /// rest after become free partitions.
    pub fn place(&mut self, used: &Vec<bool>, label: &'static str, size: u64, align: u64) -> (r: Option<Allocation<B>>)
        requires
            old(self).wf(),
            used.len() == old(self).spans().len(),
            size > 0,
            align > 0,
            next_multiple_spec(old(self).extent(), align as int) + size <= u64::MAX,
        ensures
            final(self).min_alignment() == old(self).min_alignment(),
            final(self).handle() == old(self).handle(),
            final(self).extent() == old(self).extent(),
            final(self).wf(),
            match first_fit(old(self).spans(), used@, size as int, align as int) {
                None => r is None && final(self).spans() == old(self).spans(),
                Some(k) => {
                    let a = next_multiple_spec(old(self).spans()[k as int].start, align as int);
                    &&& final(self).spans() == place(old(self).spans(), k as int, label, size as int, align as int)
                    &&& r matches Some(alloc) && alloc.label_spec() == label && alloc.start() == a
                        && alloc.end() == a + size && alloc.handle() == old(self).handle()
                },
            },
    {
        let ghost spans = self.spans();
        let n = self.partitions.len();
        let mut i: usize = 0;
        let mut found = false;
        while i < n
            invariant_except_break
                !found,
            invariant
                n == self.partitions.len(),
                spans == self.spans(),
                self.wf(),
                used.len() == n,
                size > 0,
                align > 0,
                next_multiple_spec(self.extent(), align as int) + size <= u64::MAX,
                i <= n,
                first_fit(spans, used@, size as int, align as int) == first_fit_from(spans, used@, size as int, align as int, i as nat),
            ensures
                found ==> i < n && fits(spans[i as int], used@[i as int], size as int, align as int),
                !found ==> i == n,
            decreases n - i,
        {
            proof {
                assert(spans[i as int] == self.partitions@[i as int]@);
                assert(spans[i as int].end <= self.extent()) by {
                    lemma_tiles_bounds(spans, self.extent(), i as int);
                }
            }
            if !used[i] {
                let start = self.partitions[i].range.start;
                proof {
                    lemma_tiles_bounds(spans, self.extent(), i as int);
                    lemma_next_multiple_monotone(start as int, self.extent(), align as int);
                }
                let aligned_start = next_multiple_of_u64(start, align);
                proof { lemma_next_multiple(start as int, align as int); }
                if !(self.partitions[i].range.end < aligned_start + size) {
                    found = true;
                    break;
                }
            }
            proof { lemma_first_fit_step(spans, used@, size as int, align as int, i as nat); }
            i = i + 1;
        }
        if !found {
            assert(first_fit_from(spans, used@, size as int, align as int, i as nat) is None);
            return None;
        }
        proof {
            lemma_tiles_bounds(spans, self.extent(), i as int);
        }
        let p = self.partitions.remove(i);
        let start = p.range.start;
        let end = p.range.end;
        let aligned_start = next_multiple_of_u64(start, align);
        proof { lemma_next_multiple(start as int, align as int); }
        let (allocated, keep_alive) = Partition::new(Some(label), aligned_start..aligned_start + size);
        let allocation = Allocation {
            label,
            buffer: share_handle(&self.buffer),
            range: aligned_start..aligned_start + size,
            _keep_alive: keep_alive,
        };
        self.partitions.insert(i, Partition::unused(aligned_start + size..end));
        self.partitions.insert(i, allocated);
        self.partitions.insert(i, Partition::unused(start..aligned_start));
        proof {
            let placed = place(spans, i as int, label, size as int, align as int);
            assert(self.spans() =~= placed);
            lemma_place_tiles(spans, i as int, label, size as int, align as int);
        }
        Some(allocation)
    }
}

/// What an allocation request did to the spans, for the usage `used_fix`
/// seen while merging and `used_place` seen while searching: `got` is the
/// allocated range, or `None` when nothing fit. Only partitions holding a
/// token (`holders`) can be in use while merging, and only spans in use
/// then can still be in use while searching.
pub open spec fn allocation_outcome(
    spans: Seq<Span>,
    holders: Seq<bool>,
    used_fix: Seq<bool>,
    used_place: Seq<bool>,
    label: &'static str,
    size: int,
    align: int,
    new_spans: Seq<Span>,
    got: Option<(int, int)>,
) -> bool {
    let merged = spans_of(coalesce(spans, used_fix));
    &&& used_fix.len() == spans.len()
    &&& usage_within(used_fix, holders)
    &&& used_place.len() == merged.len()
    &&& usage_within(used_place, flags_of(coalesce(spans, used_fix)))
    &&& match first_fit(merged, used_place, size, align) {
        None => got is None && new_spans == merged,
        Some(k) => {
            let a = next_multiple_spec(merged[k as int].start, align);
            &&& new_spans == place(merged, k as int, label, size, align)
            &&& got == Some((a, a + size))
        },
    }
}

/// `new_spans` and `got` are what a request does to `spans`, whose token
/// holders are `holders`, for some usage seen while merging and some usage
/// seen while searching.
pub open spec fn buffer_request(
    spans: Seq<Span>,
    holders: Seq<bool>,
    new_spans: Seq<Span>,
    label: &'static str,
    size: int,
    align: int,
    got: Option<(int, int)>,
) -> bool {
    exists|used_fix: Seq<bool>, used_place: Seq<bool>|
        #[trigger] allocation_outcome(spans, holders, used_fix, used_place, label, size, align, new_spans, got)
}

/// A buffer still as it was made, one span of `e` bytes that holds no
/// token, serves every request of at most `e` bytes, at offset 0.
pub proof fn lemma_fresh_buffer_serves(
    e: int,
    new_spans: Seq<Span>,
    label: &'static str,
    size: int,
    align: int,
    got: Option<(int, int)>,
)
    requires
        0 < size <= e,
        align > 0,
        buffer_request(seq![Span { label: None, start: 0, end: e }], seq![false], new_spans, label, size, align, got),
    ensures
        got == Some((0int, size)),
{
    let spans = seq![Span { label: None, start: 0, end: e }];
    let (uf, up) = choose|uf: Seq<bool>, up: Seq<bool>|
        #[trigger] allocation_outcome(spans, seq![false], uf, up, label, size, align, new_spans, got);
    assert(!uf[0]);
    assert(uf =~= seq![false]);
    let c = coalesce(spans, uf);
    assert(spans.drop_last() =~= Seq::<Span>::empty());
    assert(uf.drop_last() =~= Seq::<bool>::empty());
    assert(coalesce(spans.drop_last(), uf.drop_last()) =~= Seq::<(Span, bool)>::empty());
    assert(c =~= seq![(spans[0], false)]);
    assert(flags_of(c) =~= seq![false]);
    assert(spans_of(c) =~= spans);
    assert(!up[0]);
    assert(0int % align == 0);
    assert(next_multiple_spec(0, align) == 0);
    assert(fits(spans_of(c)[0], up[0], size, align));
    assert(first_fit(spans_of(c), up, size, align) == Some(0nat));
}

/// The byte range an allocation result covers, if any.
pub open spec fn allocated_range<B>(r: Option<Allocation<B>>) -> Option<(int, int)> {
    match r {
        Some(a) => Some((a.start(), a.end())),
        None => None,
    }
}

/// Whether two of the spans share a byte.
pub open spec fn any_overlap(spans: Seq<Span>) -> bool {
    exists|i: int, j: int| 0 <= i < j < spans.len() && (#[trigger] spans[i]).overlaps(#[trigger] spans[j])
}

/// Spans that tile a buffer never share a byte.
pub proof fn lemma_tiles_disjoint(spans: Seq<Span>, size: int)
    requires
        tiles(spans, size),
    ensures
        !any_overlap(spans),
{
    assert forall|i: int, j: int| 0 <= i < j < spans.len() implies !(#[trigger] spans[i]).overlaps(
        #[trigger] spans[j],
    ) by {
        lemma_tiles_ordered(spans, size, i, j);
    }
}

proof fn lemma_tiles_ordered(spans: Seq<Span>, size: int, i: int, j: int)
    requires
        tiles(spans, size),
        0 <= i < j < spans.len(),
    ensures
        spans[i].end <= spans[j].start,
    decreases j - i,
{
    if j > i + 1 {
        lemma_tiles_ordered(spans, size, i, j - 1);
    }
}

proof fn lemma_mod_transitive(x: int, m: int, d: int)
    requires
        x >= 0,
        m > 0,
        d > 0,
        x % m == 0,
        m % d == 0,
    ensures
        x % d == 0,
{
    vstd::arithmetic::div_mod::lemma_fundamental_div_mod(x, m);
    vstd::arithmetic::div_mod::lemma_fundamental_div_mod(m, d);
    let q = x / m;
    let r = m / d;
    assert(x == (r * q) * d) by (nonlinear_arith)
        requires x == m * q, m == d * r;
    vstd::arithmetic::div_mod::lemma_mod_multiples_basic(r * q, d);
}

/// An allocation lies, aligned, in a span that was free when it was placed,
/// and afterwards it is a labelled span of a tiling of the same bytes.
pub proof fn lemma_allocation_in_free_span(
    spans: Seq<Span>,
    holders: Seq<bool>,
    used_fix: Seq<bool>,
    used_place: Seq<bool>,
    label: &'static str,
    size: int,
    align: int,
    new_spans: Seq<Span>,
    a: int,
    e: int,
)
    requires
        tiles(spans, extent_of(spans)),
        size > 0,
        align > 0,
        allocation_outcome(spans, holders, used_fix, used_place, label, size, align, new_spans, Some((a, e))),
    ensures
        ({
            let merged = spans_of(coalesce(spans, used_fix));
            exists|k: int|
                0 <= k < merged.len() && !used_place[k] && (#[trigger] merged[k]).start <= a && e <= merged[k].end
        }),
        a % align == 0,
        e - a == size,
        tiles(new_spans, extent_of(spans)),
        exists|j: int|
            0 <= j < new_spans.len() && #[trigger] new_spans[j] == (Span { label: Some(label), start: a, end: e }),
{
    let merged = spans_of(coalesce(spans, used_fix));
    lemma_coalesce_tiles(spans, used_fix);
    assert(extent_of(merged) == extent_of(spans)) by {
        if merged.len() == 0 {
            if spans.len() > 0 {
                assert(tiles(merged, extent_of(spans)));
            }
        }
    }
    lemma_first_fit_is_first(merged, used_place, size, align, 0);
    let k = first_fit(merged, used_place, size, align).unwrap() as int;
    lemma_tiles_bounds(merged, extent_of(merged), k);
    lemma_next_multiple(merged[k].start, align);
    lemma_place_tiles(merged, k, label, size, align);
    lemma_place_index(merged, k, label, size, align);
    assert(merged[k].start <= a && e <= merged[k].end);
    assert(new_spans[k + 1] == (Span { label: Some(label), start: a, end: e }));
}

/// In a tiling every span lies within `[0, size]`.
pub proof fn lemma_tiles_bounds(spans: Seq<Span>, size: int, i: int)
    requires
        tiles(spans, size),
        0 <= i < spans.len(),
    ensures
        0 <= spans[i].start <= spans[i].end <= size,
    decreases spans.len() - i,
{
    if i < spans.len() - 1 {
        lemma_tiles_bounds(spans, size, i + 1);
    }
    lemma_tiles_start(spans, size, i);
}

proof fn lemma_tiles_start(spans: Seq<Span>, size: int, i: int)
    requires
        tiles(spans, size),
        0 <= i < spans.len(),
    ensures
        0 <= spans[i].start,
    decreases i,
{
    if i > 0 {
        lemma_tiles_start(spans, size, i - 1);
    }
}

proof fn lemma_place_index(spans: Seq<Span>, k: int, label: &'static str, size: int, align: int)
    requires
        0 <= k < spans.len(),
    ensures
        place(spans, k, label, size, align).len() == spans.len() + 2,
        forall|i: int| 0 <= i < k ==> #[trigger] place(spans, k, label, size, align)[i] == spans[i],
        forall|i: int|
            k + 3 <= i < spans.len() + 2 ==> #[trigger] place(spans, k, label, size, align)[i] == spans[i - 2],
        place(spans, k, label, size, align)[k] == (Span {
            label: None,
            start: spans[k].start,
            end: next_multiple_spec(spans[k].start, align),
        }),
        place(spans, k, label, size, align)[k + 1] == (Span {
            label: Some(label),
            start: next_multiple_spec(spans[k].start, align),
            end: next_multiple_spec(spans[k].start, align) + size,
        }),
        place(spans, k, label, size, align)[k + 2] == (Span {
            label: None,
            start: next_multiple_spec(spans[k].start, align) + size,
            end: spans[k].end,
        }),
{
}

/// Placing a request that fits keeps the tiling of the same bytes.
pub proof fn lemma_place_tiles(spans: Seq<Span>, k: int, label: &'static str, size: int, align: int)
    requires
        tiles(spans, extent_of(spans)),
        0 <= k < spans.len(),
        size > 0,
        align > 0,
        next_multiple_spec(spans[k].start, align) + size <= spans[k].end,
    ensures
        tiles(place(spans, k, label, size, align), extent_of(spans)),
        extent_of(place(spans, k, label, size, align)) == extent_of(spans),
{
    let placed = place(spans, k, label, size, align);
    let n = spans.len() as int;
    lemma_place_index(spans, k, label, size, align);
    lemma_tiles_bounds(spans, extent_of(spans), k);
    lemma_next_multiple(spans[k].start, align);
    assert forall|i: int| 0 <= i < placed.len() implies #[trigger] placed[i].start <= placed[i].end by {
        if i < k {
            assert(placed[i] == spans[i]);
        } else if i > k + 2 {
            assert(placed[i] == spans[i - 2]);
        }
    }
    assert forall|i: int| 0 <= i < placed.len() - 1 implies #[trigger] placed[i].end == placed[i + 1].start by {
        if i < k - 1 {
            assert(placed[i] == spans[i]);
            assert(placed[i + 1] == spans[i + 1]);
        } else if i == k - 1 {
            assert(placed[i] == spans[k - 1]);
        } else if i == k + 2 {
            assert(placed[i + 1] == spans[k + 1]);
        } else if i > k + 2 {
            assert(placed[i] == spans[i - 2]);
            assert(placed[i + 1] == spans[i - 1]);
        }
    }
    if k == n - 1 {
        assert(placed.last() == placed[k + 2]);
    } else {
        assert(placed.last() == placed[n + 1]);
        assert(placed[n + 1] == spans[n - 1]);
    }
    if k > 0 {
        assert(placed[0] == spans[0]);
    }
}

/// Element types that may be bound as storage: how many bytes one element
/// takes and which offset alignment a binding of them needs.
pub trait AllowedInBinding {
    /// Bytes per element.
    spec fn spec_min_binding_size() -> nat;

    /// Required offset alignment.
    spec fn spec_alignment() -> nat;

    /// Bytes per element; positive.
    fn min_binding_size() -> (r: u64)
        ensures
            r == Self::spec_min_binding_size(),
            r > 0,
    ;

    /// Required offset alignment; positive.
    fn alignment() -> (r: u64)
        ensures
            r == Self::spec_alignment(),
            r > 0,
    ;
}

impl AllowedInBinding for u32 {
    open spec fn spec_min_binding_size() -> nat {
        4
    }

    open spec fn spec_alignment() -> nat {
        4
    }

    fn min_binding_size() -> (r: u64) {
        4
    }

    fn alignment() -> (r: u64) {
        4
    }
}

impl AllowedInBinding for i32 {
    open spec fn spec_min_binding_size() -> nat {
        4
    }

    open spec fn spec_alignment() -> nat {
        4
    }

    fn min_binding_size() -> (r: u64) {
        4
    }

    fn alignment() -> (r: u64) {
        4
    }
}

impl AllowedInBinding for crate::indirect::Indirect {
    open spec fn spec_min_binding_size() -> nat {
        16
    }

    open spec fn spec_alignment() -> nat {
        16
    }

    fn min_binding_size() -> (r: u64) {
        16
    }

    fn alignment() -> (r: u64) {
        16
    }
}

impl<B> Allocation<B> {
    /// Number of `T` elements in the range.
    pub fn len<T: AllowedInBinding>(&self) -> (r: u64)
        requires
            (self.end() - self.start()) % (T::spec_min_binding_size() as int) == 0,
        ensures
            r == (self.end() - self.start()) / (T::spec_min_binding_size() as int),
            r > 0,
    {
        let size = self.size();
        let per = T::min_binding_size();
        assert(size / per > 0) by (nonlinear_arith)
            requires size > 0, per > 0, size % per == 0;
        size / per
    }
}

/// Sum of the extents of the buffers.
pub open spec fn extents_sum<B>(buffers: Seq<GpuBuffer<B>>) -> int
    decreases buffers.len(),
{
    if buffers.len() == 0 {
        0
    } else {
        extents_sum(buffers.drop_last()) + buffers.last().extent()
    }
}

/// Sum of the numbers.
pub open spec fn sum_u64(s: Seq<u64>) -> int
    decreases s.len(),
{
    if s.len() == 0 { 0 } else { sum_u64(s.drop_last()) + s.last() }
}

/// Size of buffer `i` when `size` bytes are split into buffers of at most
/// `max_buffer_size` bytes.
pub open spec fn planned_buffer_size(size: int, max_buffer_size: int, i: int) -> int {
    min_spec(size - i * max_buffer_size, max_buffer_size)
}

/// Hands out aligned ranges of a set of GPU buffers.
pub struct GpuAllocator<B> {
    label: &'static str,
    size: u64,
    max_buffer_size: u64,
    max_storage_buffer_binding_size: u64,
    buffers: Vec<GpuBuffer<B>>,
}

impl<B> GpuAllocator<B> {
    /// The buffers, in the order they are searched.
    pub closed spec fn buffers_spec(&self) -> Seq<GpuBuffer<B>> {
        self.buffers@
    }

    /// Largest number of bytes one allocation may cover.
    pub closed spec fn max_binding(&self) -> int {
        self.max_storage_buffer_binding_size as int
    }

    /// Largest size of one buffer.
    pub closed spec fn max_buffer(&self) -> int {
        self.max_buffer_size as int
    }

    /// The size the allocator was made with.
    pub closed spec fn size_spec(&self) -> int {
        self.size as int
    }

    /// The allocator's label.
    pub closed spec fn label_spec(&self) -> &'static str {
        self.label
    }

    /// Every buffer is well formed, the buffer size limit is positive and
    /// all extents together fit in a `u64`.
    pub open spec fn wf(&self) -> bool {
        &&& forall|i: int| 0 <= i < self.buffers_spec().len() ==> (#[trigger] self.buffers_spec()[i]).wf()
        &&& extents_sum(self.buffers_spec()) <= u64::MAX
        &&& self.max_buffer() > 0
    }

    /// Every buffer can try a request of `size` bytes at alignment `align`
    /// without leaving `u64`: the combined alignment fits, and so does the end
    /// of the request placed at any partition start, which lies within the
    /// buffer, once rounded up to that alignment.
    pub open spec fn request_in_range(&self, size: int, align: int) -> bool {
        forall|i: int|
            0 <= i < self.buffers_spec().len() ==> {
                let m = lcm_spec(align as nat, (#[trigger] self.buffers_spec()[i]).min_alignment() as nat) as int;
                &&& m <= u64::MAX
                &&& next_multiple_spec(self.buffers_spec()[i].extent(), m) + size <= u64::MAX
            }
    }

    /// The sizes of the buffers that hold `size` bytes: as many buffers of
    /// `max_buffer_size` bytes as needed, the last one holding the rest.
    pub fn buffer_sizes(size: u64, max_buffer_size: u64) -> (r: Vec<u64>)
        requires
            max_buffer_size > 0,
        ensures
            r.len() == div_ceil_spec(size as int, max_buffer_size as int),
            forall|i: int| 0 <= i < r.len() ==> #[trigger] r[i] == planned_buffer_size(size as int, max_buffer_size as int, i),
            forall|i: int| 0 <= i < r.len() ==> 0 < #[trigger] r[i] <= max_buffer_size,
            sum_u64(r@) == size,
    {
        let num_buffer = div_ceil_u64(size, max_buffer_size);
        proof {
            lemma_div_ceil_bounds(size as int, max_buffer_size as int);
        }
        let mut sizes: Vec<u64> = Vec::new();
        let mut i: u64 = 0;
        while i < num_buffer
            invariant
                num_buffer == div_ceil_spec(size as int, max_buffer_size as int),
                max_buffer_size * num_buffer < size + max_buffer_size,
                max_buffer_size > 0,
                i <= num_buffer,
                sizes.len() == i,
                forall|j: int| 0 <= j < i ==> #[trigger] sizes[j] == planned_buffer_size(size as int, max_buffer_size as int, j),
                forall|j: int| 0 <= j < i ==> 0 < #[trigger] sizes[j] <= max_buffer_size,
                sum_u64(sizes@) == min_spec(size as int, i * max_buffer_size),
            decreases num_buffer - i,
        {
            assert(i * max_buffer_size < size) by (nonlinear_arith)
                requires i < num_buffer, max_buffer_size * num_buffer < size + max_buffer_size, max_buffer_size > 0;
            let rest = size - i * max_buffer_size;
            let here = if rest < max_buffer_size { rest } else { max_buffer_size };
            let ghost before = sizes@;
            sizes.push(here);
            assert(sizes@.drop_last() =~= before);
            assert((i + 1) * max_buffer_size == i * max_buffer_size + max_buffer_size) by (nonlinear_arith);
            i = i + 1;
        }
        assert(num_buffer * max_buffer_size >= size) by (nonlinear_arith)
            requires num_buffer == div_ceil_spec(size as int, max_buffer_size as int), max_buffer_size > 0,
                max_buffer_size * div_ceil_spec(size as int, max_buffer_size as int) >= size;
        sizes
    }

    /// An allocator over the given buffers.
    pub fn new(
        label: &'static str,
        size: u64,
        max_buffer_size: u64,
        max_storage_buffer_binding_size: u64,
        buffers: Vec<GpuBuffer<B>>,
    ) -> (r: Self)
        requires
            max_buffer_size > 0,
            forall|i: int| 0 <= i < buffers.len() ==> (#[trigger] buffers[i]).wf(),
            extents_sum(buffers@) <= u64::MAX,
        ensures
            r.wf(),
            r.buffers_spec() == buffers@,
            r.label_spec() == label,
            r.size_spec() == size,
            r.max_buffer() == max_buffer_size,
            r.max_binding() == max_storage_buffer_binding_size,
    {
        GpuAllocator { label, size, max_buffer_size, max_storage_buffer_binding_size, buffers }
    }
}

/// Free bytes over all buffers, for the usage `used[i]` of buffer `i`.
pub open spec fn all_free_total<B>(buffers: Seq<GpuBuffer<B>>, used: Seq<Seq<bool>>) -> int
    decreases buffers.len(),
{
    if buffers.len() == 0 || used.len() != buffers.len() {
        0
    } else {
        all_free_total(buffers.drop_last(), used.drop_last()) + free_total(buffers.last().spans(), used.last())
    }
}

/// Largest free partition over all buffers, for the usage `used[i]` of
/// buffer `i`.
pub open spec fn all_free_max<B>(buffers: Seq<GpuBuffer<B>>, used: Seq<Seq<bool>>) -> int
    decreases buffers.len(),
{
    if buffers.len() == 0 || used.len() != buffers.len() {
        0
    } else {
        let rest = all_free_max(buffers.drop_last(), used.drop_last());
        let here = free_max(buffers.last().spans(), used.last());
        if here > rest { here } else { rest }
    }
}

/// `used` has a usage entry for every partition of every buffer, and marks
/// in use only partitions that hold a token.
pub open spec fn usage_shaped<B>(buffers: Seq<GpuBuffer<B>>, used: Seq<Seq<bool>>) -> bool {
    &&& used.len() == buffers.len()
    &&& forall|i: int|
        0 <= i < buffers.len() ==> (#[trigger] used[i]).len() == buffers[i].spans().len() && usage_within(
            used[i],
            buffers[i].holders(),
        )
}

/// Buffer `j` of `new` is buffer `j` of `old` with the same bytes, handle and
/// alignment.
pub open spec fn same_frame<B>(old: GpuBuffer<B>, new: GpuBuffer<B>) -> bool {
    &&& new.wf()
    &&& new.extent() == old.extent()
    &&& new.min_alignment() == old.min_alignment()
    &&& new.handle() == old.handle()
}

/// `new` is `old` with its free neighbours merged and its empty spans
/// dropped, for some usage of `old`'s spans; spans free then hold no token.
pub open spec fn merged_from<B>(old: GpuBuffer<B>, new: GpuBuffer<B>) -> bool {
    &&& same_frame(old, new)
    &&& exists|used: Seq<bool>|
        used.len() == old.spans().len() && usage_within(used, old.holders()) && new.spans() == spans_of(
            #[trigger] coalesce(old.spans(), used),
        ) && usage_within(new.holders(), flags_of(coalesce(old.spans(), used)))
}

/// No partition of `b` holds a token: nothing was ever handed out of it, or
/// all it handed out was merged back as free.
pub open spec fn unheld<B>(b: GpuBuffer<B>) -> bool {
    forall|k: int| 0 <= k < b.holders().len() ==> !#[trigger] b.holders()[k]
}

/// Over buffers that hold no token, every byte is free: the free bytes are
/// the bytes of all buffers.
pub proof fn lemma_unheld_all_free<B>(buffers: Seq<GpuBuffer<B>>, used: Seq<Seq<bool>>)
    requires
        forall|i: int| 0 <= i < buffers.len() ==> (#[trigger] buffers[i]).wf() && unheld(buffers[i]),
        usage_shaped(buffers, used),
    ensures
        all_free_total(buffers, used) == extents_sum(buffers),
    decreases buffers.len(),
{
    if buffers.len() > 0 {
        let n = buffers.len() - 1;
        assert forall|i: int| 0 <= i < n implies (#[trigger] buffers.drop_last()[i]).wf() && unheld(
            buffers.drop_last()[i],
        ) by {
            assert(buffers.drop_last()[i] == buffers[i]);
        }
        assert forall|i: int| 0 <= i < n implies (#[trigger] used.drop_last()[i]).len()
            == buffers.drop_last()[i].spans().len() && usage_within(
            used.drop_last()[i],
            buffers.drop_last()[i].holders(),
        ) by {
            assert(used.drop_last()[i] == used[i]);
            assert(buffers.drop_last()[i] == buffers[i]);
        }
        lemma_unheld_all_free(buffers.drop_last(), used.drop_last());
        let b = buffers.last();
        let u = used.last();
        assert(buffers[n] == b && used[n] == u);
        assert(b.wf() && unheld(b));
        assert forall|k: int| 0 <= k < u.len() implies !#[trigger] u[k] by {
            assert(!b.holders()[k]);
        }
        lemma_nothing_used_all_free(b.spans(), u);
    }
}

impl<B> GpuAllocator<B> {
    /// Free bytes over all buffers, with the usage as seen now.
    pub fn total_free(&self) -> (r: u64)
        requires
            self.wf(),
        ensures
            exists|used: Seq<Seq<bool>>|
                usage_shaped(self.buffers_spec(), used) && r == #[trigger] all_free_total(self.buffers_spec(), used),
    {
        let ghost bufs = self.buffers_spec();
        let ghost mut used: Seq<Seq<bool>> = seq![];
        let n = self.buffers.len();
        let mut acc: u64 = 0;
        for i in 0..n
            invariant
                n == self.buffers.len(),
                bufs == self.buffers_spec(),
                self.wf(),
                usage_shaped(bufs.take(i as int), used),
                acc == all_free_total(bufs.take(i as int), used),
                acc <= extents_sum(bufs.take(i as int)),
        {
            proof {
                assert(bufs.take(i + 1).drop_last() =~= bufs.take(i as int));
                lemma_extents_sum_prefix(bufs, i as int);
            }
            let u = self.buffers[i].usage();
            let here = self.buffers[i].total_free_given(&u);
            proof {
                assert(self.buffers[i as int].wf());
                lemma_free_bounds(bufs[i as int].spans(), u@);
                assert(used.push(u@).drop_last() =~= used);
                used = used.push(u@);
            }
            acc = acc + here;
        }
        proof {
            assert(bufs.take(n as int) =~= bufs);
        }
        acc
    }

    /// Largest free partition over all buffers, with the usage as seen now.
    pub fn biggest_free(&self) -> (r: u64)
        requires
            self.wf(),
        ensures
            exists|used: Seq<Seq<bool>>|
                usage_shaped(self.buffers_spec(), used) && r == #[trigger] all_free_max(self.buffers_spec(), used),
    {
        let ghost bufs = self.buffers_spec();
        let ghost mut used: Seq<Seq<bool>> = seq![];
        let n = self.buffers.len();
        let mut best: u64 = 0;
        for i in 0..n
            invariant
                n == self.buffers.len(),
                bufs == self.buffers_spec(),
                self.wf(),
                usage_shaped(bufs.take(i as int), used),
                best == all_free_max(bufs.take(i as int), used),
        {
            proof {
                assert(bufs.take(i + 1).drop_last() =~= bufs.take(i as int));
            }
            let u = self.buffers[i].usage();
            let here = self.buffers[i].biggest_free_given(&u);
            proof {
                assert(used.push(u@).drop_last() =~= used);
                used = used.push(u@);
            }
            if here > best {
                best = here;
            }
        }
        proof {
            assert(bufs.take(n as int) =~= bufs);
        }
        best
    }

    /// Whether no two partitions of any buffer share a byte; for a
    /// well-formed allocator always so.
    pub fn check_overlap(&self) -> (r: bool)
        requires
            self.wf(),
        ensures
            r == forall|i: int| 0 <= i < self.buffers_spec().len() ==> !any_overlap(#[trigger] self.buffers_spec()[i].spans()),
            r,
    {
        let n = self.buffers.len();
        for i in 0..n
            invariant
                self.wf(),
                n == self.buffers.len(),
                forall|j: int| 0 <= j < i ==> !any_overlap(#[trigger] self.buffers_spec()[j].spans()),
        {
            if !self.buffers[i].check_overlap() {
                assert(any_overlap(self.buffers_spec()[i as int].spans()));
                return false;
            }
        }
        true
    }

    /// Merges free neighbours in every buffer, with the usage as seen now.
    pub fn fix(&mut self)
        requires
            old(self).wf(),
        ensures
            final(self).wf(),
            final(self).buffers_spec().len() == old(self).buffers_spec().len(),
            forall|j: int|
                0 <= j < old(self).buffers_spec().len() ==> merged_from(
                    old(self).buffers_spec()[j],
                    #[trigger] final(self).buffers_spec()[j],
                ),
            final(self).max_binding() == old(self).max_binding(),
            final(self).max_buffer() == old(self).max_buffer(),
            final(self).size_spec() == old(self).size_spec(),
            final(self).label_spec() == old(self).label_spec(),
    {
        let n = self.buffers.len();
        for i in 0..n
            invariant
                n == self.buffers.len(),
                n == old(self).buffers_spec().len(),
                self.wf(),
                forall|j: int| 0 <= j < i ==> merged_from(old(self).buffers_spec()[j], #[trigger] self.buffers_spec()[j]),
                forall|j: int| i <= j < n ==> #[trigger] self.buffers_spec()[j] == old(self).buffers_spec()[j],
                self.max_binding() == old(self).max_binding(),
                self.max_buffer() == old(self).max_buffer(),
                self.size_spec() == old(self).size_spec(),
                self.label_spec() == old(self).label_spec(),
        {
            let ghost before = self.buffers_spec();
            self.buffers[i].fix();
            proof {
                assert forall|j: int| 0 <= j < n && j != i implies self.buffers_spec()[j] == before[j] by {}
                assert(merged_from(before[i as int], self.buffers_spec()[i as int]));
                lemma_extents_sum_same(before, self.buffers_spec());
            }
        }
    }
}

impl<B> GpuAllocator<B> {
    /// Reserves `size` bytes aligned to `align` (and to the buffer's minimum
    /// alignment) in the first buffer that can hold them. Fails when one
    /// binding may not cover that many bytes, or when no buffer has room.
    pub fn allocate_raw(&mut self, label: &'static str, size: u64, align: u64) -> (r: Result<Allocation<B>, GpuAllocatorError>)
        requires
            old(self).wf(),
            size > 0,
            align > 0,
            size <= old(self).max_binding() ==> old(self).request_in_range(size as int, align as int),
        ensures
            final(self).wf(),
            old(self).request_answered(*final(self), label, size as int, align as int, r),
    {
        if self.max_storage_buffer_binding_size < size {
            return Err(
                GpuAllocatorError::ExceedingMaxBufferBindingSize {
                    label,
                    requested: size,
                    max: self.max_storage_buffer_binding_size,
                },
            );
        }
        let n = self.buffers.len();
        for i in 0..n
            invariant
                n == self.buffers.len(),
                n == old(self).buffers_spec().len(),
                self.wf(),
                size > 0,
                align > 0,
                size <= old(self).max_binding(),
                old(self).request_in_range(size as int, align as int),
                forall|j: int| 0 <= j < n ==> same_frame(old(self).buffers_spec()[j], #[trigger] self.buffers_spec()[j]),
                forall|j: int| i <= j < n ==> #[trigger] self.buffers_spec()[j] == old(self).buffers_spec()[j],
                forall|j: int|
                    0 <= j < i ==> buffer_request(
                        (#[trigger] old(self).buffers_spec()[j]).spans(),
                        old(self).buffers_spec()[j].holders(),
                        self.buffers_spec()[j].spans(),
                        label,
                        size as int,
                        lcm_spec(align as nat, old(self).buffers_spec()[j].min_alignment() as nat) as int,
                        None,
                    ),
                self.max_binding() == old(self).max_binding(),
                self.max_buffer() == old(self).max_buffer(),
                self.size_spec() == old(self).size_spec(),
                self.label_spec() == old(self).label_spec(),
        {
            let ghost before = self.buffers_spec();
            assert(before[i as int] == old(self).buffers_spec()[i as int]);
            let found = self.buffers[i].allocate_raw(label, size, align);
            proof {
                assert forall|j: int| 0 <= j < n && j != i implies self.buffers_spec()[j] == before[j] by {}
                lemma_extents_sum_same(before, self.buffers_spec());
            }
            if let Some(a) = found {
                assert(old(self).buffers_spec()[i as int].handle() == a.handle());
                return Ok(a);
            }
        }
        let continuous_free = self.biggest_free();
        let total_free = self.total_free();
        Err(GpuAllocatorError::FailedToFindSpace { label, requested: size, continuous_free, total_free })
    }

    /// `new` and `r` are what a request for `size` bytes aligned to `align`
    /// leaves of `self`: the same buffers in the same frames; refused without
    /// a change when one binding may not cover `size` bytes; otherwise served
    /// by the first buffer that could (`served_by`), or refused for want of
    /// space when none could, reporting the largest and the total free space
    /// left after the search.
    pub open spec fn request_answered(
        self,
        new: Self,
        label: &'static str,
        size: int,
        align: int,
        r: Result<Allocation<B>, GpuAllocatorError>,
    ) -> bool {
        &&& new.buffers_spec().len() == self.buffers_spec().len()
        &&& forall|j: int|
            0 <= j < self.buffers_spec().len() ==> same_frame(self.buffers_spec()[j], #[trigger] new.buffers_spec()[j])
        &&& new.max_binding() == self.max_binding()
        &&& new.max_buffer() == self.max_buffer()
        &&& new.size_spec() == self.size_spec()
        &&& new.label_spec() == self.label_spec()
        &&& size > self.max_binding() ==> new.buffers_spec() == self.buffers_spec() && r == Err::<Allocation<B>, _>(
            GpuAllocatorError::ExceedingMaxBufferBindingSize { label, requested: size as u64, max: self.max_binding() as u64 },
        )
        &&& size <= self.max_binding() ==> match r {
            Ok(a) => exists|k: int|
                0 <= k < self.buffers_spec().len() && #[trigger] self.buffers_spec()[k].handle() == a.handle()
                    && self.served_by(new, label, size, align, k, Some((a.start(), a.end()))),
            Err(e) => self.served_by(new, label, size, align, self.buffers_spec().len() as int, None) && (
            e matches GpuAllocatorError::FailedToFindSpace { label: l, requested: q, continuous_free: cf, total_free: tf }
                && l == label && q == size && (exists|u: Seq<Seq<bool>>|
                usage_shaped(new.buffers_spec(), u) && cf == #[trigger] all_free_max(new.buffers_spec(), u)) && (exists|
                u: Seq<Seq<bool>>,
            | usage_shaped(new.buffers_spec(), u) && tf == #[trigger] all_free_total(new.buffers_spec(), u))),
        }
        &&& r matches Ok(a) ==> {
            &&& a.label_spec() == label
            &&& a.end() - a.start() == size
            &&& a.start() % align == 0
        }
    }

    /// While its first buffer is as it was made (one span that holds no
    /// token), the allocator serves every request that the first buffer and
    /// one binding can hold, at the start of the first buffer.
    pub proof fn lemma_fresh_allocator_serves(
        self,
        new: Self,
        label: &'static str,
        size: int,
        align: int,
        r: Result<Allocation<B>, GpuAllocatorError>,
    )
        requires
            self.buffers_spec().len() > 0,
            self.buffers_spec()[0].spans() == seq![Span { label: None, start: 0, end: self.buffers_spec()[0].extent() }],
            self.buffers_spec()[0].holders() == seq![false],
            0 < size <= self.buffers_spec()[0].extent(),
            size <= self.max_binding(),
            align > 0,
            self.request_answered(new, label, size, align, r),
        ensures
            r matches Ok(a) && a.start() == 0 && a.end() == size && a.handle() == self.buffers_spec()[0].handle(),
    {
        let b0 = self.buffers_spec()[0];
        let m = lcm_spec(align as nat, b0.min_alignment() as nat) as int;
        lemma_lcm_common_multiple(align as nat, b0.min_alignment() as nat);
        match r {
            Ok(a) => {
                let k = choose|k: int|
                    0 <= k < self.buffers_spec().len() && #[trigger] self.buffers_spec()[k].handle() == a.handle()
                        && self.served_by(new, label, size, align, k, Some((a.start(), a.end())));
                if k > 0 {
                    assert(buffer_request(b0.spans(), b0.holders(), new.buffers_spec()[0].spans(), label, size, m, None));
                    lemma_fresh_buffer_serves(b0.extent(), new.buffers_spec()[0].spans(), label, size, m, None);
                }
                assert(buffer_request(b0.spans(), b0.holders(), new.buffers_spec()[0].spans(), label, size, m, Some((a.start(), a.end()))));
                lemma_fresh_buffer_serves(b0.extent(), new.buffers_spec()[0].spans(), label, size, m, Some((a.start(), a.end())));
            },
            Err(e) => {
                assert(buffer_request(b0.spans(), b0.holders(), new.buffers_spec()[0].spans(), label, size, m, None));
                lemma_fresh_buffer_serves(b0.extent(), new.buffers_spec()[0].spans(), label, size, m, None);
            },
        }
    }

    /// `new` is `self` after a request that buffers before `k` could not
    /// serve; buffer `k` (if `k` is a buffer) served it with `got`, and the
    /// buffers after `k` are untouched.
    pub open spec fn served_by(
        self,
        new: Self,
        label: &'static str,
        size: int,
        align: int,
        k: int,
        got: Option<(int, int)>,
    ) -> bool {
        let old_b = self.buffers_spec();
        let new_b = new.buffers_spec();
        &&& old_b.len() == new_b.len()
        &&& forall|j: int|
            0 <= j < k && j < old_b.len() ==> buffer_request(
                (#[trigger] old_b[j]).spans(),
                old_b[j].holders(),
                new_b[j].spans(),
                label,
                size,
                lcm_spec(align as nat, old_b[j].min_alignment() as nat) as int,
                None,
            )
        &&& 0 <= k < old_b.len() ==> buffer_request(
            old_b[k].spans(),
            old_b[k].holders(),
            new_b[k].spans(),
            label,
            size,
            lcm_spec(align as nat, old_b[k].min_alignment() as nat) as int,
            got,
        )
        &&& forall|j: int| k < j < old_b.len() ==> #[trigger] new_b[j] == old_b[j]
    }

    /// A request for `len` elements of `T` that succeeds gives an allocation
    /// whose length in elements of `T` is exactly `len`.
    pub proof fn lemma_allocated_len<T: AllowedInBinding>(
        self,
        new: Self,
        label: &'static str,
        len: int,
        r: Result<Allocation<B>, GpuAllocatorError>,
    )
        requires
            len > 0,
            T::spec_min_binding_size() > 0,
            self.request_answered(new, label, T::spec_min_binding_size() * len, T::spec_alignment() as int, r),
            r is Ok,
        ensures
            (r->Ok_0.end() - r->Ok_0.start()) % (T::spec_min_binding_size() as int) == 0,
            (r->Ok_0.end() - r->Ok_0.start()) / (T::spec_min_binding_size() as int) == len,
    {
        let s = T::spec_min_binding_size() as int;
        assert((s * len) % s == 0 && (s * len) / s == len) by (nonlinear_arith)
            requires s > 0;
    }

    /// Reserves `len` elements of `T`.
    pub fn allocate<T: AllowedInBinding>(&mut self, label: &'static str, len: u64) -> (r: Result<Allocation<B>, GpuAllocatorError>)
        requires
            old(self).wf(),
            len > 0,
            T::spec_min_binding_size() * len <= u64::MAX,
            T::spec_min_binding_size() * len <= old(self).max_binding() ==> old(self).request_in_range(
                T::spec_min_binding_size() * len,
                T::spec_alignment() as int,
            ),
        ensures
            final(self).wf(),
            old(self).request_answered(
                *final(self),
                label,
                T::spec_min_binding_size() * len,
                T::spec_alignment() as int,
                r,
            ),
    {
        let per = T::min_binding_size();
        assert(per * len > 0) by (nonlinear_arith)
            requires per > 0, len > 0;
        self.allocate_raw(label, per * len, T::alignment())
    }
}

/// The label of the first span marked in use at or after index `i`, if any.
pub open spec fn first_used_label_from(spans: Seq<Span>, used: Seq<bool>, i: nat) -> Option<Option<&'static str>>
    decreases spans.len() - i,
{
    if i >= spans.len() {
        None
    } else if used[i as int] {
        Some(spans[i as int].label)
    } else {
        first_used_label_from(spans, used, i + 1)
    }
}

impl<B> GpuBuffer<B> {
    /// The label of the first partition in use under `used`, if any.
    pub fn first_used_label_given(&self, used: &Vec<bool>) -> (r: Option<Option<&'static str>>)
        requires
            used.len() == self.spans().len(),
        ensures
            r == first_used_label_from(self.spans(), used@, 0),
    {
        let n = self.partitions.len();
        let mut i: usize = 0;
        while i < n
            invariant
                n == self.partitions.len(),
                used.len() == n,
                i <= n,
                first_used_label_from(self.spans(), used@, 0) == first_used_label_from(self.spans(), used@, i as nat),
            decreases n - i,
        {
            if used[i] {
                assert(self.spans()[i as int] == self.partitions@[i as int]@);
                return Some(self.partitions[i].label);
            }
            i = i + 1;
        }
        None
    }
}

/// Growing is refused with `e` because the last buffer still holds a
/// partition in use, under some usage.
pub open spec fn resize_refused<B>(buffers: Seq<GpuBuffer<B>>, e: GpuAllocatorError) -> bool {
    &&& buffers.len() > 0
    &&& exists|used: Seq<bool>|
        #![trigger first_used_label_from(buffers.last().spans(), used, 0)]
        used.len() == buffers.last().spans().len() && usage_within(used, buffers.last().holders()) && (first_used_label_from(buffers.last().spans(), used, 0) matches Some(
            l,
        ) && e == (GpuAllocatorError::ResizingWhileInUse { label: l }))
}

/// Growing to `size` bytes kept all buffers but the last and asks for the
/// buffers from index `kept.len()` up to the planned count, with their planned
/// sizes.
pub open spec fn resize_planned<B>(
    buffers: Seq<GpuBuffer<B>>,
    kept: Seq<GpuBuffer<B>>,
    max_buffer: int,
    size: int,
    sizes: Seq<u64>,
) -> bool {
    &&& kept == (if buffers.len() == 0 { buffers } else { buffers.drop_last() })
    &&& kept.len() + sizes.len() == div_ceil_spec(size, max_buffer) || (sizes.len() == 0 && div_ceil_spec(
        size,
        max_buffer,
    ) <= kept.len())
    &&& forall|i: int| 0 <= i < sizes.len() ==> #[trigger] sizes[i] == planned_buffer_size(size, max_buffer, kept.len() + i)
    &&& forall|i: int| 0 <= i < sizes.len() ==> 0 < #[trigger] sizes[i] <= max_buffer
}

impl<B> GpuAllocator<B> {
    /// Prepares growing the allocator to `size` bytes. Growing to no more
    /// than the size it was made with is ignored. Otherwise the last buffer
    /// is dropped, unless something is still allocated in it, and the sizes
    /// of the buffers to create and add with `push_buffer` are returned.
    pub fn resize_to(&mut self, size: u64) -> (r: Result<Vec<u64>, GpuAllocatorError>)
        requires
            old(self).wf(),
        ensures
            final(self).wf(),
            final(self).max_binding() == old(self).max_binding(),
            final(self).max_buffer() == old(self).max_buffer(),
            final(self).size_spec() == old(self).size_spec(),
            final(self).label_spec() == old(self).label_spec(),
            size <= old(self).size_spec() ==> final(self).buffers_spec() == old(self).buffers_spec() && (r matches Ok(
                v,
            ) && v.len() == 0),
            r matches Err(e) ==> final(self).buffers_spec() == old(self).buffers_spec() && resize_refused(
                old(self).buffers_spec(),
                e,
            ),
            size > old(self).size_spec() ==> (r matches Ok(v) ==> resize_planned(
                old(self).buffers_spec(),
                final(self).buffers_spec(),
                old(self).max_buffer(),
                size as int,
                v@,
            )),
    {
        if size <= self.size {
            return Ok(Vec::new());
        }
        let num_buffer = div_ceil_u64(size, self.max_buffer_size);
        proof {
            lemma_div_ceil_bounds(size as int, self.max_buffer_size as int);
        }
        let nb = self.buffers.len();
        if nb > 0 {
            let used = self.buffers[nb - 1].usage();
            if let Some(label) = self.buffers[nb - 1].first_used_label_given(&used) {
                assert(self.buffers_spec().last() == self.buffers_spec()[nb - 1]);
                return Err(GpuAllocatorError::ResizingWhileInUse { label });
            }
            let ghost before = self.buffers_spec();
            self.buffers.pop();
            proof {
                assert(self.buffers_spec() =~= before.drop_last());
                lemma_extents_nonneg(before);
                lemma_extent_nonneg(before.last());
            }
        }
        let mut sizes: Vec<u64> = Vec::new();
        let start = self.buffers.len() as u64;
        let mut i: u64 = start;
        while i < num_buffer
            invariant
                num_buffer == div_ceil_spec(size as int, self.max_buffer_size as int),
                self.max_buffer_size * num_buffer < size + self.max_buffer_size,
                self.max_buffer_size > 0,
                start <= i,
                i <= num_buffer || i == start,
                sizes.len() == i - start,
                forall|j: int| 0 <= j < sizes.len() ==> #[trigger] sizes[j] == planned_buffer_size(size as int, self.max_buffer_size as int, start + j),
                forall|j: int| 0 <= j < sizes.len() ==> 0 < #[trigger] sizes[j] <= self.max_buffer_size,
            decreases num_buffer - i,
        {
            assert(i * self.max_buffer_size < size) by (nonlinear_arith)
                requires i < num_buffer, self.max_buffer_size * num_buffer < size + self.max_buffer_size, self.max_buffer_size > 0;
            let rest = size - i * self.max_buffer_size;
            let here = if rest < self.max_buffer_size { rest } else { self.max_buffer_size };
            sizes.push(here);
            i = i + 1;
        }
        Ok(sizes)
    }

    /// Adds a buffer after the existing ones, unless the bytes of all
    /// buffers would no longer fit in a `u64`; tells whether it was added.
    pub fn push_buffer(&mut self, buffer: GpuBuffer<B>) -> (added: bool)
        requires
            old(self).wf(),
            buffer.wf(),
        ensures
            final(self).wf(),
            added == (extents_sum(old(self).buffers_spec()) + buffer.extent() <= u64::MAX),
            added ==> final(self).buffers_spec() == old(self).buffers_spec().push(buffer),
            !added ==> final(self).buffers_spec() == old(self).buffers_spec(),
            final(self).max_binding() == old(self).max_binding(),
            final(self).max_buffer() == old(self).max_buffer(),
            final(self).size_spec() == old(self).size_spec(),
            final(self).label_spec() == old(self).label_spec(),
    {
        let total = self.total_size();
        let extent = buffer.size();
        if total > u64::MAX - extent {
            return false;
        }
        let ghost before = self.buffers_spec();
        self.buffers.push(buffer);
        assert(self.buffers_spec().drop_last() =~= before);
        true
    }

    /// Bytes of all buffers together.
    pub fn total_size(&self) -> (r: u64)
        requires
            self.wf(),
        ensures
            r == extents_sum(self.buffers_spec()),
    {
        let ghost bufs = self.buffers_spec();
        let n = self.buffers.len();
        let mut acc: u64 = 0;
        for i in 0..n
            invariant
                n == self.buffers.len(),
                bufs == self.buffers_spec(),
                self.wf(),
                acc == extents_sum(bufs.take(i as int)),
        {
            proof {
                assert(bufs.take(i + 1).drop_last() =~= bufs.take(i as int));
                lemma_extents_sum_prefix(bufs, i as int);
            }
            acc = acc + self.buffers[i].size();
        }
        proof {
            assert(bufs.take(n as int) =~= bufs);
        }
        acc
    }

    /// Number of buffers.
    pub fn buffer_count(&self) -> (r: usize)
        ensures
            r == self.buffers_spec().len(),
    {
        self.buffers.len()
    }

    /// The allocator's label.
    pub fn label(&self) -> (r: &'static str)
        ensures
            r == self.label_spec(),
    {
        self.label
    }
}

/// The extents of a prefix sum to at most the extents of all buffers.
pub proof fn lemma_extents_sum_prefix<B>(buffers: Seq<GpuBuffer<B>>, i: int)
    requires
        0 <= i < buffers.len(),
        forall|j: int| 0 <= j < buffers.len() ==> (#[trigger] buffers[j]).wf(),
    ensures
        extents_sum(buffers.take(i)) + buffers[i].extent() <= extents_sum(buffers),
    decreases buffers.len(),
{
    lemma_extents_nonneg(buffers);
    if i < buffers.len() - 1 {
        let front = buffers.drop_last();
        assert(front.take(i) =~= buffers.take(i));
        lemma_extents_sum_prefix(front, i);
        assert(buffers.last().wf());
        lemma_extent_nonneg(buffers.last());
    } else {
        assert(buffers.take(i) =~= buffers.drop_last());
    }
}

proof fn lemma_extent_nonneg<B>(buffer: GpuBuffer<B>)
    requires
        buffer.wf(),
    ensures
        buffer.extent() >= 0,
{
    if buffer.spans().len() > 0 {
        lemma_tiles_bounds(buffer.spans(), buffer.extent(), buffer.spans().len() - 1);
    }
}

proof fn lemma_extents_nonneg<B>(buffers: Seq<GpuBuffer<B>>)
    requires
        forall|j: int| 0 <= j < buffers.len() ==> (#[trigger] buffers[j]).wf(),
    ensures
        extents_sum(buffers) >= 0,
    decreases buffers.len(),
{
    if buffers.len() > 0 {
        lemma_extents_nonneg(buffers.drop_last());
        lemma_extent_nonneg(buffers.last());
    }
}

/// Buffers with the same extents have the same extent sum.
pub proof fn lemma_extents_sum_same<B>(a: Seq<GpuBuffer<B>>, b: Seq<GpuBuffer<B>>)
    requires
        a.len() == b.len(),
        forall|j: int| 0 <= j < a.len() ==> (#[trigger] a[j]).extent() == b[j].extent(),
    ensures
        extents_sum(a) == extents_sum(b),
    decreases a.len(),
{
    if a.len() > 0 {
        lemma_extents_sum_same(a.drop_last(), b.drop_last());
    }
}

} // verus!
