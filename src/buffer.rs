//! Samples waiting to be committed to the store as one batch.
use vstd::prelude::*;
use crate::sample::Sample;

verus! {

/// Default number of samples per batch.
pub const BUFFER_LIMIT: usize = 256;

/// What appending `s` to the pending samples `buf` gives: the pending samples
/// afterwards, and the batch handed over for commit once `cap` are pending.
pub open spec fn append_spec(buf: Seq<Sample>, cap: nat, s: Sample) -> (
    Seq<Sample>,
    Option<Seq<Sample>>,
) {
    let next = buf.push(s);
    if next.len() >= cap {
        (Seq::<Sample>::empty(), Some(next))
    } else {
        (next, None)
    }
}

/// Appending each of `xs` in turn: the pending samples afterwards and the
/// batches handed over, in order.
pub open spec fn fill(buf: Seq<Sample>, cap: nat, xs: Seq<Sample>) -> (
    Seq<Sample>,
    Seq<Seq<Sample>>,
)
    decreases xs.len(),
{
    if xs.len() == 0 {
        (buf, Seq::<Seq<Sample>>::empty())
    } else {
        let (b, batches) = fill(buf, cap, xs.drop_last());
        let (b2, out) = append_spec(b, cap, xs.last());
        match out {
            Some(batch) => (b2, batches.push(batch)),
            None => (b2, batches),
        }
    }
}

pub open spec fn batch_view(b: Option<Vec<Sample>>) -> Option<Seq<Sample>> {
    match b {
        Some(v) => Some(v@),
        None => None,
    }
}

/// An ordered sequence of samples that is handed over whole once it
/// reaches its capacity.
pub struct SampleBuffer {
    samples: Vec<Sample>,
    capacity: usize,
}

impl View for SampleBuffer {
    type V = Seq<Sample>;

    closed spec fn view(&self) -> Seq<Sample> {
        self.samples@
    }
}

impl SampleBuffer {
    pub closed spec fn cap(&self) -> nat {
        self.capacity as nat
    }

    /// Fewer samples are pending than the capacity, which is at least one.
    pub open spec fn wf(&self) -> bool {
        self.cap() >= 1 && self@.len() < self.cap()
    }

    /// An empty buffer that hands over batches of `capacity` samples.
    pub fn with_capacity(capacity: usize) -> (r: SampleBuffer)
        requires
            capacity >= 1,
        ensures
            r.wf(),
            r@ == Seq::<Sample>::empty(),
            r.cap() == capacity,
    {
        SampleBuffer { samples: Vec::new(), capacity }
    }

    /// An empty buffer with the default capacity.
    pub fn new() -> (r: SampleBuffer)
        ensures
            r.wf(),
            r@ == Seq::<Sample>::empty(),
            r.cap() == BUFFER_LIMIT,
    {
        SampleBuffer::with_capacity(BUFFER_LIMIT)
    }

    pub fn len(&self) -> (r: usize)
        ensures
            r == self@.len(),
    {
        self.samples.len()
    }

    pub fn capacity(&self) -> (r: usize)
        ensures
            r == self.cap(),
    {
        self.capacity
    }

    /// Appends `s`; when the capacity is reached, hands over every pending
    /// sample, in order, and starts afresh.
    pub fn append(&mut self, s: Sample) -> (batch: Option<Vec<Sample>>)
        requires
            old(self).wf(),
        ensures
            final(self).wf(),
            final(self).cap() == old(self).cap(),
            (final(self)@, batch_view(batch)) == append_spec(old(self)@, old(self).cap(), s),
    {
        self.samples.push(s);
        if self.samples.len() >= self.capacity {
            let mut batch: Vec<Sample> = Vec::new();
            batch.append(&mut self.samples);
            Some(batch)
        } else {
            None
        }
    }

    /// Hands over every pending sample, in order, leaving none.
    pub fn take_all(&mut self) -> (r: Vec<Sample>)
        requires
            old(self).wf(),
        ensures
            final(self).wf(),
            final(self).cap() == old(self).cap(),
            r@ == old(self)@,
            final(self)@ == Seq::<Sample>::empty(),
    {
        let mut all: Vec<Sample> = Vec::new();
        all.append(&mut self.samples);
        all
    }
}

/// Appending fewer samples than the capacity to an empty buffer keeps all of
/// them, in order, and hands nothing over; appending exactly the capacity
/// hands them all over as one batch and leaves the buffer empty.
pub proof fn lemma_fill_from_empty(cap: nat, xs: Seq<Sample>)
    requires
        cap >= 1,
        xs.len() <= cap,
    ensures
        xs.len() < cap ==> fill(Seq::<Sample>::empty(), cap, xs) == (
            xs,
            Seq::<Seq<Sample>>::empty(),
        ),
        xs.len() == cap ==> fill(Seq::<Sample>::empty(), cap, xs) == (
            Seq::<Sample>::empty(),
            seq![xs],
        ),
    decreases xs.len(),
{
    if xs.len() > 0 {
        let prev = xs.drop_last();
        lemma_fill_from_empty(cap, prev);
        assert(prev.push(xs.last()) =~= xs);
        assert(seq![xs] =~= Seq::<Seq<Sample>>::empty().push(xs));
    }
}

/// No sample is lost or repeated: the batches handed over, followed by what
/// is still pending, are the pending samples followed by everything appended.
pub proof fn lemma_fill_conserves(buf: Seq<Sample>, cap: nat, xs: Seq<Sample>)
    ensures
        fill(buf, cap, xs).1.flatten() + fill(buf, cap, xs).0 == buf + xs,
    decreases xs.len(),
{
    if xs.len() == 0 {
        assert(Seq::<Seq<Sample>>::empty().flatten() =~= Seq::<Sample>::empty());
        assert(Seq::<Sample>::empty() + buf =~= buf + xs);
    } else {
        let prev = xs.drop_last();
        lemma_fill_conserves(buf, cap, prev);
        let (b, batches) = fill(buf, cap, prev);
        let next = b.push(xs.last());
        assert(buf + xs =~= (buf + prev).push(xs.last()));
        if next.len() >= cap {
            batches.lemma_flatten_push(next);
            assert(batches.flatten() + next + Seq::<Sample>::empty() =~= (batches.flatten() + b).push(
                xs.last(),
            ));
        } else {
            assert(batches.flatten() + next =~= (batches.flatten() + b).push(xs.last()));
        }
    }
}

} // verus!
