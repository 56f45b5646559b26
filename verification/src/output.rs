//! What waits between the signal path and the output device.

use std::collections::VecDeque;

use vstd::prelude::*;

#[allow(unused_imports)]
use crate::channels::{frames_begun, lemma_frames_begun, on_all_channels};

verus! {

/// The number of chunks that may wait for the output device to ask.
pub const MAX_CHUNKS: usize = 8;

/// Chunks that wait for the output device to ask, the oldest first.
pub struct Backlog<T> {
    chunks: VecDeque<Vec<T>>,
}

/// Samples on their way to the output device, the oldest first.
pub struct OutputQueue<T> {
    buffer: VecDeque<T>,
    limit: usize,
}

/// The newest items that a queue of a limited length keeps.
pub open spec fn newest<T>(queue: Seq<T>, limit: nat) -> Seq<T> {
    if queue.len() > limit {
        queue.skip(queue.len() - limit)
    } else {
        queue
    }
}

/// Chunks one after the other.
pub open spec fn concatenated<T>(chunks: Seq<Vec<T>>) -> Seq<T>
    decreases chunks.len(),
{
    if chunks.len() == 0 {
        Seq::empty()
    } else {
        concatenated(chunks.drop_last()) + chunks.last()@
    }
}

/// So many interleaved samples played from a queue: every channel of a frame
/// gets the same sample, and silence where the queue has run out.
pub open spec fn played<T>(queue: Seq<T>, silence: T, len: nat, channels: nat) -> Seq<T> {
    Seq::new(
        len,
        |j: int|
            if (j / (channels as int)) < queue.len() {
                queue[j / (channels as int)]
            } else {
                silence
            },
    )
}

/// What is left of a queue after so many interleaved samples.
pub open spec fn left_over<T>(queue: Seq<T>, len: nat, channels: nat) -> Seq<T> {
    let frames = frames_begun(len, channels);
    if frames < queue.len() {
        queue.skip(frames as int)
    } else {
        Seq::empty()
    }
}

impl<T> Backlog<T> {
    /// The chunks that wait.
    pub closed spec fn view(&self) -> Seq<Vec<T>> {
        self.chunks@
    }

    /// Nothing waits.
    pub fn new() -> (r: Self)
        ensures
            r@ == Seq::<Vec<T>>::empty(),
    {
        Backlog { chunks: VecDeque::new() }
    }

    /// Adds a chunk.  Where too many wait, the oldest is dropped, so that delay cannot
    /// build up.
    pub fn send(&mut self, chunk: Vec<T>)
        ensures
            final(self)@ == newest(old(self)@.push(chunk), MAX_CHUNKS as nat),
    {
        self.chunks.push_back(chunk);
        let ghost all = self.chunks@;
        while self.chunks.len() > MAX_CHUNKS
            invariant
                self.chunks@.len() <= all.len(),
                self.chunks@ =~= all.skip(all.len() - self.chunks@.len()),
                self.chunks@.len() < all.len() ==> self.chunks@.len() >= MAX_CHUNKS,
            decreases self.chunks@.len(),
        {
            let _ = self.chunks.pop_front();
        }
    }

    /// Hands over all chunks that wait, the oldest first.
    pub fn take_all(&mut self) -> (r: Vec<Vec<T>>)
        ensures
            r@ == old(self)@,
            final(self)@ == Seq::<Vec<T>>::empty(),
    {
        let ghost all = self.chunks@;
        let mut taken: Vec<Vec<T>> = Vec::new();
        while self.chunks.len() > 0
            invariant
                taken@ + self.chunks@ =~= all,
            decreases self.chunks@.len(),
        {
            match self.chunks.pop_front() {
                Some(chunk) => taken.push(chunk),
                None => {},
            }
        }
        taken
    }
}

impl<T> OutputQueue<T> {
    /// The samples in the queue.
    pub closed spec fn view(&self) -> Seq<T> {
        self.buffer@
    }

    /// The number of samples that may wait.
    pub closed spec fn capacity(&self) -> usize {
        self.limit
    }

    /// An empty queue that holds a tenth of a second: it takes one sample for each
    /// frame of the device, whatever the number of channels.
    pub fn new(sample_rate: u32) -> (r: Self)
        ensures
            r@ == Seq::<T>::empty(),
            r.capacity() == sample_rate / 10,
    {
        OutputQueue { buffer: VecDeque::new(), limit: sample_rate as usize / 10 }
    }
}

impl<T: Copy> OutputQueue<T> {
    /// Appends a chunk of processed samples.
    pub fn push_chunk(&mut self, chunk: &Vec<T>)
        ensures
            final(self)@ == old(self)@ + chunk@,
            final(self).capacity() == old(self).capacity(),
    {
        let mut i: usize = 0;
        while i < chunk.len()
            invariant
                i <= chunk@.len(),
                self.buffer@ =~= old(self).buffer@ + chunk@.take(i as int),
                self.limit == old(self).limit,
            decreases chunk@.len() - i,
        {
            self.buffer.push_back(chunk[i]);
            i += 1;
        }
        assert(chunk@.take(i as int) =~= chunk@);
    }

    /// Drops the oldest samples beyond the limit, so that delay cannot build up.
    pub fn trim(&mut self)
        ensures
            final(self)@ == newest(old(self)@, old(self).capacity() as nat),
            final(self).capacity() == old(self).capacity(),
    {
        let ghost all = self.buffer@;
        while self.buffer.len() > self.limit
            invariant
                self.limit == old(self).limit,
                all == old(self).buffer@,
                self.buffer@.len() <= all.len(),
                self.buffer@ =~= all.skip(all.len() - self.buffer@.len()),
                self.buffer@.len() < all.len() ==> self.buffer@.len() >= self.limit,
            decreases self.buffer@.len(),
        {
            let _ = self.buffer.pop_front();
        }
    }

    /// Fills a device buffer of interleaved samples.
    pub fn fill(&mut self, data: &mut [T], channels: usize, silence: T)
        requires
            channels > 0,
        ensures
            final(data)@ == played(old(self)@, silence, old(data)@.len(), channels as nat),
            final(self)@ == left_over(old(self)@, old(data)@.len(), channels as nat),
            final(self).capacity() == old(self).capacity(),
    {
        let len: usize = data.len();
        let ghost queue = self.buffer@;
        let ghost c = channels as nat;
        let ghost want = played(queue, silence, len as nat, c);
        let ghost mut f: nat = 0;
        let mut pos: usize = 0;
        proof {
            assert(0 * c == 0) by (nonlinear_arith);
        }
        while pos < len
            invariant
                len == data@.len(),
                len == old(data)@.len(),
                channels > 0,
                c == channels,
                queue == old(self).buffer@,
                want == played(queue, silence, len as nat, c),
                self.limit == old(self).limit,
                f <= frames_begun(len as nat, c),
                pos == f * c || (pos == len && f == frames_begun(len as nat, c)),
                pos <= len,
                self.buffer@ =~= (if f < queue.len() {
                    queue.skip(f as int)
                } else {
                    Seq::empty()
                }),
                forall|j: int| 0 <= j < pos ==> data@[j] == #[trigger] want[j],
            decreases len - pos,
        {
            proof {
                lemma_frames_begun(len as nat, c, f);
                lemma_frames_begun(len as nat, c, f + 1);
                assert((f + 1) * c == f * c + c) by (nonlinear_arith);
            }
            let sample = match self.buffer.pop_front() {
                Some(s) => s,
                None => silence,
            };
            assert(sample == (if f < queue.len() {
                queue[f as int]
            } else {
                silence
            }));
            let end: usize = if channels < len - pos {
                pos + channels
            } else {
                len
            };
            let ghost start = pos;
            while pos < end
                invariant
                    len == data@.len(),
                    start <= pos <= end <= len,
                    start == f * c,
                    end <= start + c,
                    c > 0,
                    want == played(queue, silence, len as nat, c),
                    sample == (if f < queue.len() {
                        queue[f as int]
                    } else {
                        silence
                    }),
                    forall|j: int| 0 <= j < pos ==> data@[j] == #[trigger] want[j],
                decreases end - pos,
            {
                proof {
                    vstd::arithmetic::div_mod::lemma_fundamental_div_mod_converse(
                        pos as int,
                        c as int,
                        f as int,
                        pos - start,
                    );
                }
                data[pos] = sample;
                pos += 1;
            }
            proof {
                f = f + 1;
            }
        }
        proof {
            lemma_frames_begun(len as nat, c, f);
            assert(data@ =~= want);
        }
    }

    /// Answers a request of the output device: takes in the chunks that have
    /// arrived, drops what is too old, and fills the buffer.
    pub fn serve(&mut self, chunks: &Vec<Vec<T>>, data: &mut [T], channels: usize, silence: T)
        requires
            channels > 0,
        ensures
            ({
                let queue = newest(
                    old(self)@ + concatenated(chunks@),
                    old(self).capacity() as nat,
                );
                &&& final(data)@ == played(queue, silence, old(data)@.len(), channels as nat)
                &&& final(self)@ == left_over(queue, old(data)@.len(), channels as nat)
            }),
            final(self).capacity() == old(self).capacity(),
    {
        let mut i: usize = 0;
        assert(chunks@.take(0) =~= Seq::empty());
        while i < chunks.len()
            invariant
                i <= chunks@.len(),
                self@ =~= old(self)@ + concatenated(chunks@.take(i as int)),
                self.capacity() == old(self).capacity(),
            decreases chunks@.len() - i,
        {
            assert(chunks@.take(i + 1).drop_last() =~= chunks@.take(i as int));
            self.push_chunk(&chunks[i]);
            i += 1;
        }
        assert(chunks@.take(i as int) =~= chunks@);
        self.trim();
        self.fill(data, channels, silence);
    }
}

/// A trimmed queue is within its limit and has lost none but its oldest samples,
/// and only where there were too many.
pub proof fn law_delay_is_bounded<T>(queue: Seq<T>, limit: nat)
    ensures
        newest(queue, limit).len() <= limit,
        queue.len() >= limit ==> newest(queue, limit).len() == limit,
        queue.len() <= limit ==> newest(queue, limit) == queue,
        newest(queue, limit) == queue.skip(queue.len() - newest(queue, limit).len()),
{
    assert(queue.skip(0) =~= queue);
}

/// While the queue lasts, whole frames play it in order on every channel, and
/// what is not played stays.
pub proof fn law_queue_plays_in_order<T>(queue: Seq<T>, silence: T, frames: nat, channels: nat)
    requires
        channels >= 1,
        frames <= queue.len(),
    ensures
        played(queue, silence, frames * channels, channels) == on_all_channels(
            queue.take(frames as int),
            channels,
        ),
        left_over(queue, frames * channels, channels) == queue.skip(frames as int),
{
    let c = channels as int;
    let len = frames * channels;
    let heard = played(queue, silence, len, channels);
    let wanted = on_all_channels(queue.take(frames as int), channels);
    assert forall|j: int| 0 <= j < len implies #[trigger] heard[j] == wanted[j] by {
        vstd::arithmetic::div_mod::lemma_fundamental_div_mod(j, c);
        vstd::arithmetic::div_mod::lemma_mod_bound(j, c);
        vstd::arithmetic::div_mod::lemma_div_pos_is_pos(j, c);
        assert(j / c < frames) by (nonlinear_arith)
            requires
                j < frames * c,
                j == c * (j / c) + j % c,
                0 <= j % c,
                c >= 1,
        ;
    }
    assert(heard =~= wanted);
    lemma_frames_begun(len, channels, frames);
    if frames > 0 {
        let last = (frames - 1) as nat;
        lemma_frames_begun(len, channels, last);
        assert(last * channels < len) by (nonlinear_arith)
            requires
                last < frames,
                channels >= 1,
                len == frames * channels,
        ;
    }
    assert(frames_begun(len, channels) == frames);
    assert(left_over(queue, len, channels) =~= queue.skip(frames as int));
}

/// Chunks come one after the other, in the order in which they were sent.
pub proof fn law_chunks_come_in_order<T>(chunks: Seq<Vec<T>>, chunk: Vec<T>)
    ensures
        concatenated(chunks.push(chunk)) == concatenated(chunks) + chunk@,
        concatenated(Seq::<Vec<T>>::empty()) == Seq::<T>::empty(),
{
    assert(chunks.push(chunk).drop_last() =~= chunks);
}

/// A queue that has run out plays silence.
pub proof fn law_an_empty_queue_is_silent<T>(silence: T, len: nat, channels: nat, j: int)
    requires
        channels >= 1,
        0 <= j < len,
    ensures
        played(Seq::<T>::empty(), silence, len, channels)[j] == silence,
        played(Seq::<T>::empty(), silence, len, channels).len() == len,
        left_over(Seq::<T>::empty(), len, channels) == Seq::<T>::empty(),
{
    vstd::arithmetic::div_mod::lemma_div_pos_is_pos(j, channels as int);
}

/// What a request is given does not depend on how long it is, nor on whether it comes in
/// one or in two: two requests, of which the first asks for whole frames, are given what one
/// request for both is given, and leave the same behind.
pub proof fn law_requests_join<T>(
    queue: Seq<T>,
    silence: T,
    frames: nat,
    more: nat,
    channels: nat,
)
    requires
        channels >= 1,
    ensures
        ({
            let first = frames * channels;
            let rest = left_over(queue, first, channels);
            &&& played(queue, silence, first + more, channels) == played(
                queue,
                silence,
                first,
                channels,
            ) + played(rest, silence, more, channels)
            &&& left_over(queue, first + more, channels) == left_over(rest, more, channels)
        }),
{
    let c = channels as int;
    let first = frames * channels;
    let rest = left_over(queue, first, channels);
    lemma_whole_frames(frames, channels);
    let whole = played(queue, silence, first + more, channels);
    let parts = played(queue, silence, first, channels) + played(rest, silence, more, channels);
    assert forall|j: int| 0 <= j < first + more implies #[trigger] whole[j] == parts[j] by {
        if j >= first {
            lemma_frames_on(frames, channels, j - first);
        }
        vstd::arithmetic::div_mod::lemma_div_pos_is_pos(j, c);
    }
    assert(whole =~= parts);
    lemma_frames_on(frames, channels, more + c - 1);
    assert(frames_begun(first + more, channels) == frames + frames_begun(more, channels));
    assert(left_over(queue, first + more, channels) =~= left_over(rest, more, channels));
}

/// A place so many whole frames on is in a frame that many on.
proof fn lemma_frames_on(frames: nat, channels: nat, i: int)
    requires
        channels >= 1,
        i >= 0,
    ensures
        (frames * channels + i) / (channels as int) == frames + i / (channels as int),
{
    let c = channels as int;
    vstd::arithmetic::div_mod::lemma_fundamental_div_mod(i, c);
    vstd::arithmetic::div_mod::lemma_mod_bound(i, c);
    let q = frames + i / c;
    assert(frames * channels + i == q * c + i % c) by (nonlinear_arith)
        requires
            i == c * (i / c) + i % c,
            q == frames + i / c,
            c == channels,
    ;
    vstd::arithmetic::div_mod::lemma_fundamental_div_mod_converse(frames * channels + i, c, q, i % c);
}

/// So many whole frames begin as many frames.
proof fn lemma_whole_frames(frames: nat, channels: nat)
    requires
        channels >= 1,
    ensures
        frames_begun(frames * channels, channels) == frames,
{
    lemma_frames_begun(frames * channels, channels, frames);
    if frames > 0 {
        let last = (frames - 1) as nat;
        lemma_frames_begun(frames * channels, channels, last);
        assert(last * channels < frames * channels) by (nonlinear_arith)
            requires
                last < frames,
                channels >= 1,
        ;
    }
}

} // verus!
