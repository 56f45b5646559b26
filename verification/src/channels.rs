//! Interleaved channels and the single one that is processed.

use vstd::prelude::*;
use vstd::slice::slice_to_vec;

verus! {

/// The number of frames that `len` interleaved samples of so many channels
/// begin.
pub open spec fn frames_begun(len: nat, channels: nat) -> nat {
    (len + channels - 1) as nat / channels
}

/// The first channel of interleaved samples.
pub open spec fn first_channel<T>(data: Seq<T>, channels: nat) -> Seq<T> {
    if channels > 1 {
        Seq::new(frames_begun(data.len(), channels), |i: int| data[i * channels])
    } else {
        data
    }
}

/// One channel laid out on so many.
pub open spec fn on_all_channels<T>(mono: Seq<T>, channels: nat) -> Seq<T> {
    Seq::new(mono.len() * channels, |j: int| mono[j / channels as int])
}

/// A frame is begun by the samples before a position exactly where it starts
/// before the position.
pub proof fn lemma_frames_begun(len: nat, channels: nat, i: nat)
    requires
        channels >= 1,
    ensures
        i < frames_begun(len, channels) <==> i * channels < len,
{
    let n = frames_begun(len, channels);
    let c = channels as int;
    vstd::arithmetic::div_mod::lemma_fundamental_div_mod(len + channels - 1, c);
    vstd::arithmetic::div_mod::lemma_mod_bound(len + channels - 1, c);
    if i < n {
        assert(i * c + c <= n * c) by (nonlinear_arith)
            requires
                i + 1 <= n,
                c >= 1,
        ;
        assert(n * c == c * n) by (nonlinear_arith);
    } else {
        assert(n * c <= i * c) by (nonlinear_arith)
            requires
                n <= i,
                c >= 1,
        ;
        assert(n * c == c * n) by (nonlinear_arith);
    }
}

/// What is laid out on any number of channels is read back from the first.
pub proof fn law_channels_round_trip<T>(mono: Seq<T>, channels: nat)
    requires
        channels >= 1,
    ensures
        first_channel(on_all_channels(mono, channels), channels) == mono,
{
    let wide = on_all_channels(mono, channels);
    let c = channels as int;
    assert(wide.len() == mono.len() * channels);
    if channels == 1 {
        assert forall|j: int| 0 <= j < mono.len() implies wide[j] == mono[j] by {
            assert(j / 1 == j);
        }
        assert(mono.len() * 1 == mono.len());
        assert(wide =~= mono);
    } else {
        let back = first_channel(wide, channels);
        assert(back.len() == mono.len()) by {
            lemma_frames_begun(wide.len(), channels, mono.len());
            assert(back.len() <= mono.len());
            if mono.len() > 0 {
                let last = (mono.len() - 1) as nat;
                lemma_frames_begun(wide.len(), channels, last);
                assert(last * channels < mono.len() * channels) by (nonlinear_arith)
                    requires
                        last < mono.len(),
                        channels >= 1,
                ;
            }
        }
        assert forall|i: int| 0 <= i < mono.len() implies back[i] == mono[i] by {
            assert(0 <= i * c < mono.len() * c) by (nonlinear_arith)
                requires
                    0 <= i < mono.len(),
                    c >= 1,
            ;
            vstd::arithmetic::div_mod::lemma_div_multiples_vanish(i, c);
            assert(c * i == i * c) by (nonlinear_arith);
        }
        assert(back =~= mono);
    }
}

/// The first channel of interleaved samples.
pub fn to_mono<T: Copy>(data: &[T], channels: usize) -> (r: Vec<T>)
    ensures
        r@ == first_channel(data@, channels as nat),
{
    if channels <= 1 {
        return slice_to_vec(data);
    }
    let mut mono: Vec<T> = Vec::new();
    let mut pos: usize = 0;
    let ghost c = channels as nat;
    proof {
        assert(0 * c == 0) by (nonlinear_arith);
    }
    while pos < data.len()
        invariant
            channels > 1,
            c == channels,
            pos == mono@.len() * c || (pos == data@.len() && mono@.len() == frames_begun(
                data@.len(),
                c,
            )),
            mono@.len() <= frames_begun(data@.len(), c),
            mono@ =~= first_channel(data@, c).take(mono@.len() as int),
        decreases data@.len() - pos,
    {
        let ghost n = mono@.len();
        proof {
            lemma_frames_begun(data@.len(), c, n);
            lemma_frames_begun(data@.len(), c, n + 1);
            assert((n + 1) * c == n * c + c) by (nonlinear_arith);
        }
        mono.push(data[pos]);
        if channels < data.len() - pos {
            pos = pos + channels;
        } else {
            pos = data.len();
        }
    }
    proof {
        let n = mono@.len();
        lemma_frames_begun(data@.len(), c, n);
        assert(mono@ =~= first_channel(data@, c));
    }
    mono
}

/// So many frames of some channels, interleaved.
pub open spec fn interleaved<T>(channels: Seq<Seq<T>>, frames: nat) -> Seq<T> {
    Seq::new(
        frames * channels.len(),
        |j: int| channels[j % channels.len() as int][j / channels.len() as int],
    )
}

/// Of any number of interleaved channels the first is read, and none of the others has a
/// part in it.
pub proof fn law_the_first_channel_is_read<T>(channels: Seq<Seq<T>>, frames: nat)
    requires
        channels.len() >= 1,
        channels[0].len() == frames,
    ensures
        first_channel(interleaved(channels, frames), channels.len()) == channels[0],
{
    let wide = interleaved(channels, frames);
    let n = channels.len();
    let c = n as int;
    let back = first_channel(wide, n);
    if n == 1 {
        assert(frames * 1 == frames);
        assert forall|j: int| 0 <= j < frames implies #[trigger] wide[j] == channels[0][j] by {
            assert(j % 1 == 0 && j / 1 == j);
        }
        assert(back =~= channels[0]);
    } else {
        lemma_frames_begun(wide.len(), n, frames);
        if frames > 0 {
            let last = (frames - 1) as nat;
            lemma_frames_begun(wide.len(), n, last);
            assert(last * n < frames * n) by (nonlinear_arith)
                requires
                    last < frames,
                    n >= 1,
            ;
        }
        assert(back.len() == frames);
        assert forall|i: int| 0 <= i < frames implies #[trigger] back[i] == channels[0][i] by {
            assert(0 <= i * c < frames * c) by (nonlinear_arith)
                requires
                    0 <= i < frames,
                    c >= 1,
            ;
            vstd::arithmetic::div_mod::lemma_div_multiples_vanish(i, c);
            vstd::arithmetic::div_mod::lemma_mod_multiples_basic(i, c);
            assert(c * i == i * c) by (nonlinear_arith);
        }
        assert(back =~= channels[0]);
    }
}

} // verus!
