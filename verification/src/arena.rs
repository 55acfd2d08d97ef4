//! Bounded reuse of buffers: which of them are kept, and which is handed out.
use vstd::prelude::*;

verus! {

/// The bytes that are kept at most.
pub const DEFAULT_MAX_CACHED_BYTES: usize = 134_217_728;

/// The bytes of the largest buffer that is kept.
pub const DEFAULT_MAX_BUFFER_BYTES: usize = 33_554_432;

/// The most buffers of one capacity that are kept.
pub const DEFAULT_MAX_BUFFERS_PER_BUCKET: usize = 4;

/// The bytes of one value.
pub const VALUE_BYTES: usize = 4;

/// The first of `start`, twice `start` and so on that reaches `requested`.
pub open spec fn power_from(start: int, requested: int) -> int
    decreases 2 * requested - start,
{
    if start >= requested || start < 1 {
        start
    } else {
        power_from(start * 2, requested)
    }
}

/// The capacity that is made for a request: the next power of two, or the
/// request itself where that cannot be counted.
pub open spec fn ceiling_of(requested: usize) -> usize {
    if power_from(1, requested as int) <= usize::MAX {
        power_from(1, requested as int) as usize
    } else {
        requested
    }
}

proof fn lemma_power_from(start: int, requested: int)
    requires
        start >= 1,
    ensures
        power_from(start, requested) >= start,
        power_from(start, requested) >= requested,
        power_from(start, requested) > start ==> power_from(start, requested) < 2 * requested,
    decreases 2 * requested - start,
{
    if start < requested {
        lemma_power_from(start * 2, requested);
    }
}

/// The capacity that is made for a request is at least the request, and less
/// than twice it.
pub proof fn lemma_ceiling(requested: usize)
    requires
        requested >= 1,
    ensures
        requested <= ceiling_of(requested),
        ceiling_of(requested) < 2 * requested,
{
    lemma_power_from(1, requested as int);
}

/// The capacity that is made for a request.
pub fn bucket_ceiling(requested: usize) -> (result: usize)
    ensures
        result == ceiling_of(requested),
{
    let mut power: usize = 1;
    while power < requested
        invariant
            power >= 1,
            power_from(power as int, requested as int) == power_from(1, requested as int),
        decreases 2 * requested - power,
    {
        proof {
            lemma_power_from(power * 2, requested as int);
        }
        if power > usize::MAX / 2 {
            return requested;
        }
        power = power * 2;
    }
    power
}

/// Buffers that are kept for reuse, with their capacities.
pub struct InferenceArena<B> {
    buffers: Vec<(usize, B)>,
    cached: usize,
    max_cached_bytes: usize,
    max_buffer_bytes: usize,
    max_buffers_per_bucket: usize,
}

/// The bytes of all buffers.
pub open spec fn bytes_of<B>(buffers: Seq<(usize, B)>) -> int
    decreases buffers.len(),
{
    if buffers.len() == 0 {
        0
    } else {
        bytes_of(buffers.drop_last()) + buffers.last().0 * VALUE_BYTES
    }
}

/// The number of buffers of a capacity.
pub open spec fn bucket_len<B>(buffers: Seq<(usize, B)>, capacity: usize) -> int
    decreases buffers.len(),
{
    if buffers.len() == 0 {
        0
    } else {
        bucket_len(buffers.drop_last(), capacity) + if buffers.last().0 == capacity {
            1int
        } else {
            0int
        }
    }
}

/// Whether the buffer at `index` is the one to hand out: of the least capacity
/// that serves the request, the one that came last.
pub open spec fn serves<B>(buffers: Seq<(usize, B)>, requested: usize, index: int) -> bool {
    &&& 0 <= index < buffers.len()
    &&& requested <= buffers[index].0 <= ceiling_of(requested)
    &&& forall|i: int|
        0 <= i < buffers.len() && requested <= (#[trigger] buffers[i]).0 ==> buffers[index].0
            <= buffers[i].0
    &&& forall|i: int| index < i < buffers.len() ==> (#[trigger] buffers[i]).0 != buffers[index].0
}

/// Whether no buffer serves the request.
pub open spec fn none_serves<B>(buffers: Seq<(usize, B)>, requested: usize) -> bool {
    requested == 0 || forall|i: int|
        0 <= i < buffers.len() ==> !(requested <= (#[trigger] buffers[i]).0 <= ceiling_of(
            requested,
        ))
}

impl<B> InferenceArena<B> {
    /// The buffers, in the order in which they came, with their capacities.
    pub closed spec fn buffers(self) -> Seq<(usize, B)> {
        self.buffers@
    }

    /// The bytes that are kept at most.
    pub closed spec fn cached_limit(self) -> usize {
        self.max_cached_bytes
    }

    /// The bytes of the largest buffer that is kept.
    pub closed spec fn buffer_limit(self) -> usize {
        self.max_buffer_bytes
    }

    /// The most buffers of one capacity that are kept.
    pub closed spec fn bucket_limit(self) -> usize {
        self.max_buffers_per_bucket
    }

    /// Whether the count of bytes is right and every limit is kept.
    pub closed spec fn wf(self) -> bool {
        &&& self.cached == bytes_of(self.buffers@)
        &&& self.cached <= self.max_cached_bytes
        &&& forall|i: int|
            0 <= i < self.buffers@.len() ==> 0 < (#[trigger] self.buffers@[i]).0
                && self.buffers@[i].0 * VALUE_BYTES <= self.max_buffer_bytes
        &&& forall|capacity: usize| #[trigger]
            bucket_len(self.buffers@, capacity) <= self.max_buffers_per_bucket
    }

    /// Whether the limits of another arena are the same.
    pub open spec fn same_limits(self, other: InferenceArena<B>) -> bool {
        &&& self.cached_limit() == other.cached_limit()
        &&& self.buffer_limit() == other.buffer_limit()
        &&& self.bucket_limit() == other.bucket_limit()
    }

    /// Whether a buffer is kept when it comes back.
    pub open spec fn keeps(self, capacity: usize) -> bool {
        &&& capacity > 0
        &&& capacity * VALUE_BYTES <= usize::MAX
        &&& capacity * VALUE_BYTES <= self.buffer_limit()
        &&& bytes_of(self.buffers()) + capacity * VALUE_BYTES <= self.cached_limit()
        &&& bucket_len(self.buffers(), capacity) < self.bucket_limit()
    }

    /// An arena without buffers.
    pub fn with_limits(
        max_cached_bytes: usize,
        max_buffer_bytes: usize,
        max_buffers_per_bucket: usize,
    ) -> (result: InferenceArena<B>)
        ensures
            result.wf(),
            result.buffers() == Seq::<(usize, B)>::empty(),
            result.cached_limit() == max_cached_bytes,
            result.buffer_limit() == max_buffer_bytes,
            result.bucket_limit() == max_buffers_per_bucket,
    {
        InferenceArena {
            buffers: Vec::new(),
            cached: 0,
            max_cached_bytes,
            max_buffer_bytes,
            max_buffers_per_bucket,
        }
    }

    /// The number of buffers that are kept.
    pub fn cached_buffers(&self) -> (result: usize)
        requires
            self.wf(),
        ensures
            result == self.buffers().len(),
    {
        self.buffers.len()
    }

    /// The bytes of the buffers that are kept.
    pub fn cached_bytes(&self) -> (result: usize)
        requires
            self.wf(),
        ensures
            result == bytes_of(self.buffers()),
    {
        self.cached
    }

    /// Takes a buffer for a request out of the arena: of those whose capacity
    /// is at least the request and at most its ceiling, the smallest, and of
    /// equal ones the last.
    pub fn take(&mut self, requested: usize) -> (result: Option<B>)
        requires
            old(self).wf(),
        ensures
            final(self).wf(),
            final(self).same_limits(*old(self)),
            match result {
                Some(buffer) => requested > 0 && exists|index: int| #[trigger]
                    serves(old(self).buffers(), requested, index) && buffer
                        == old(self).buffers()[index].1 && final(self).buffers()
                        == old(self).buffers().remove(index),
                None => none_serves(old(self).buffers(), requested) && final(self).buffers()
                    == old(self).buffers(),
            },
    {
        if requested == 0 {
            return None;
        }
        let ceiling: usize = bucket_ceiling(requested);
        let ghost all = self.buffers@;
        let mut best: Option<usize> = None;
        for index in 0..self.buffers.len()
            invariant
                self.buffers@ == all,
                requested > 0,
                ceiling == ceiling_of(requested),
                match best {
                    Some(found) => {
                        &&& found < index
                        &&& requested <= all[found as int].0 <= ceiling
                        &&& forall|i: int|
                            0 <= i < index && requested <= (#[trigger] all[i]).0
                                ==> all[found as int].0 <= all[i].0
                        &&& forall|i: int|
                            found < i < index ==> (#[trigger] all[i]).0 != all[found as int].0
                    },
                    None => forall|i: int|
                        0 <= i < index ==> !(requested <= (#[trigger] all[i]).0 <= ceiling),
                },
        {
            let capacity: usize = self.buffers[index].0;
            if requested <= capacity && capacity <= ceiling {
                let better: bool = match best {
                    Some(found) => capacity <= self.buffers[found].0,
                    None => true,
                };
                if better {
                    best = Some(index);
                }
            }
        }
        match best {
            None => None,
            Some(found) => {
                proof {
                    assert(serves(all, requested, found as int));
                    lemma_removed(all, found as int);
                }
                let (capacity, buffer): (usize, B) = self.buffers.remove(found);
                self.cached = self.cached - capacity * VALUE_BYTES;
                proof {
                    let rest = self.buffers@;
                    assert(rest == all.remove(found as int));
                    assert forall|i: int| 0 <= i < rest.len() implies 0 < (#[trigger] rest[i]).0
                        && rest[i].0 * VALUE_BYTES <= self.max_buffer_bytes by {
                        if i < found {
                            assert(rest[i] == all[i]);
                        } else {
                            assert(rest[i] == all[i + 1]);
                        }
                    }
                    assert forall|other: usize| #[trigger]
                        bucket_len(rest, other) <= self.max_buffers_per_bucket by {
                        assert(bucket_len(all, other) <= self.max_buffers_per_bucket);
                    }
                }
                Some(buffer)
            },
        }
    }

    /// Gives a buffer back, and tells whether it is kept.
    pub fn recycle(&mut self, capacity: usize, buffer: B) -> (result: bool)
        requires
            old(self).wf(),
        ensures
            final(self).wf(),
            final(self).same_limits(*old(self)),
            result == old(self).keeps(capacity),
            final(self).buffers() == if result {
                old(self).buffers().push((capacity, buffer))
            } else {
                old(self).buffers()
            },
    {
        if capacity == 0 || capacity > usize::MAX / VALUE_BYTES {
            return false;
        }
        let bytes: usize = capacity * VALUE_BYTES;
        if bytes > self.max_buffer_bytes || bytes > self.max_cached_bytes || self.cached
            > self.max_cached_bytes - bytes {
            return false;
        }
        let ghost all = self.buffers@;
        let mut count: usize = 0;
        assert(all.take(0) =~= Seq::<(usize, B)>::empty());
        for index in 0..self.buffers.len()
            invariant
                self.buffers@ == all,
                count <= index,
                count == bucket_len(all.take(index as int), capacity),
        {
            proof {
                assert(all.take(index + 1).drop_last() =~= all.take(index as int));
            }
            if self.buffers[index].0 == capacity {
                count = count + 1;
            }
        }
        assert(all.take(all.len() as int) =~= all);
        if count >= self.max_buffers_per_bucket {
            return false;
        }
        self.buffers.push((capacity, buffer));
        self.cached = self.cached + bytes;
        proof {
            let more = self.buffers@;
            assert(more.drop_last() =~= all);
            assert forall|other: usize| #[trigger]
                bucket_len(more, other) <= self.max_buffers_per_bucket by {
                assert(bucket_len(all, other) <= self.max_buffers_per_bucket);
            }
        }
        true
    }

    /// Every limit holds of what is kept at any time.
    pub proof fn lemma_limits(self, index: int)
        requires
            self.wf(),
            0 <= index < self.buffers().len(),
        ensures
            bytes_of(self.buffers()) <= self.cached_limit(),
            0 < self.buffers()[index].0,
            self.buffers()[index].0 * VALUE_BYTES <= self.buffer_limit(),
            bucket_len(self.buffers(), self.buffers()[index].0) <= self.bucket_limit(),
    {
    }
}

impl<B> Default for InferenceArena<B> {
    /// An arena with the usual limits.
    fn default() -> (result: InferenceArena<B>)
        ensures
            result.wf(),
            result.buffers() == Seq::<(usize, B)>::empty(),
            result.cached_limit() == DEFAULT_MAX_CACHED_BYTES,
            result.buffer_limit() == DEFAULT_MAX_BUFFER_BYTES,
            result.bucket_limit() == DEFAULT_MAX_BUFFERS_PER_BUCKET,
    {
        InferenceArena::with_limits(
            DEFAULT_MAX_CACHED_BYTES,
            DEFAULT_MAX_BUFFER_BYTES,
            DEFAULT_MAX_BUFFERS_PER_BUCKET,
        )
    }
}

proof fn lemma_removed<B>(buffers: Seq<(usize, B)>, index: int)
    requires
        0 <= index < buffers.len(),
    ensures
        bytes_of(buffers.remove(index)) == bytes_of(buffers) - buffers[index].0 * VALUE_BYTES,
        bytes_of(buffers.remove(index)) >= 0,
        forall|capacity: usize| #[trigger]
            bucket_len(buffers.remove(index), capacity) <= bucket_len(buffers, capacity),
    decreases buffers.len(),
{
    let rest = buffers.remove(index);
    let head = buffers.drop_last();
    if index == buffers.len() - 1 {
        assert(rest =~= head);
        lemma_bytes_positive(head);
    } else {
        lemma_removed(head, index);
        assert(rest.drop_last() =~= head.remove(index));
        assert(rest.last() == buffers.last());
        assert forall|capacity: usize| #[trigger]
            bucket_len(rest, capacity) <= bucket_len(buffers, capacity) by {
            assert(bucket_len(head.remove(index), capacity) <= bucket_len(head, capacity));
        }
    }
}

proof fn lemma_bytes_positive<B>(buffers: Seq<(usize, B)>)
    ensures
        bytes_of(buffers) >= 0,
    decreases buffers.len(),
{
    if buffers.len() > 0 {
        lemma_bytes_positive(buffers.drop_last());
    }
}

/// A buffer that was just given back is the one that serves a request for its
/// capacity, and taking it leaves what was there before.
pub proof fn lemma_take_recycled<B>(
    buffers: Seq<(usize, B)>,
    capacity: usize,
    buffer: B,
    index: int,
)
    requires
        capacity > 0,
        serves(buffers.push((capacity, buffer)), capacity, index),
    ensures
        index == buffers.len(),
        buffers.push((capacity, buffer))[index].1 == buffer,
        buffers.push((capacity, buffer)).remove(index) == buffers,
{
    let all = buffers.push((capacity, buffer));
    assert(all[buffers.len() as int].0 == capacity);
    assert(all[index].0 <= capacity);
    assert(all.remove(buffers.len() as int) =~= buffers);
}

/// A request for the capacity of a buffer that was just given back is served.
pub proof fn lemma_recycled_serves<B>(buffers: Seq<(usize, B)>, capacity: usize, buffer: B)
    requires
        capacity > 0,
    ensures
        serves(buffers.push((capacity, buffer)), capacity, buffers.len() as int),
        !none_serves(buffers.push((capacity, buffer)), capacity),
{
    lemma_ceiling(capacity);
    let all = buffers.push((capacity, buffer));
    assert(all[buffers.len() as int].0 == capacity);
}

/// A buffer of exactly `len` values: what it holds first stays, and `filler`
/// follows.
pub fn for_overwrite<F: Copy>(buffer: Vec<F>, len: usize, filler: F) -> (result: Vec<F>)
    ensures
        result@ == Seq::new(
            len as nat,
            |i: int|
                if i < buffer@.len() {
                    buffer@[i]
                } else {
                    filler
                },
        ),
{
    let ghost given = buffer@;
    let mut result: Vec<F> = buffer;
    if result.len() > len {
        result.truncate(len);
    }
    let ghost start = result@;
    while result.len() < len
        invariant
            start.len() == if given.len() > len {
                len as int
            } else {
                given.len() as int
            },
            start.len() <= result@.len() <= len,
            forall|i: int| 0 <= i < start.len() ==> result@[i] == given[i],
            forall|i: int| start.len() <= i < result@.len() ==> result@[i] == filler,
        decreases len - result@.len(),
    {
        result.push(filler);
    }
    assert(result@ =~= Seq::new(
        len as nat,
        |i: int|
            if i < buffer@.len() {
                buffer@[i]
            } else {
                filler
            },
    ));
    result
}

/// A buffer of exactly `len` values that are all `zero`.
pub fn zeroed<F: Copy>(buffer: Vec<F>, len: usize, zero: F) -> (result: Vec<F>)
    ensures
        result@ == Seq::new(len as nat, |i: int| zero),
{
    let mut result: Vec<F> = buffer;
    result.clear();
    while result.len() < len
        invariant
            result@.len() <= len,
            forall|i: int| 0 <= i < result@.len() ==> result@[i] == zero,
        decreases len - result@.len(),
    {
        result.push(zero);
    }
    assert(result@ =~= Seq::new(len as nat, |i: int| zero));
    result
}

} // verus!
