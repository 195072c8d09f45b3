//! The live pipeline edges: the verified per-callback and per-step
//! compute, publishing through an outside crate's bounded channels.
//! Channel state is shared across threads, so nothing can be assumed
//! about the outcome of a publish; the contracts therefore speak only of
//! the computed values, and the publishes are best-effort by the channel
//! crate's own discipline (a full channel refuses the message, it never
//! blocks).
use vstd::prelude::*;
use crate::analyzer::{Analyzer, Spectrum, band_mean, db_level, linear_level, smooth_step, POWER_LIMIT};
use crate::meter::{Meter, downmix_batch, frame_count, peak_upto, mean_square};

verus! {

#[verifier::external_type_specification]
#[verifier::external_body]
#[verifier::reject_recursive_types(T)]
pub struct ExSender<T>(crossbeam_channel::Sender<T>);

/// Relies on crossbeam_channel::Sender::try_send: a non-blocking publish
/// that refuses the message when the bounded channel is full or
/// disconnected. The channel is shared between threads, so no call's
/// outcome is predictable; the result only reports acceptance.
#[verifier::external_body]
fn try_publish<T>(tx: &crossbeam_channel::Sender<T>, v: T) -> bool {
    tx.try_send(v).is_ok()
}

/// The capture callback's work: downmixes one interleaved batch, meters
/// it, and — unless the batch held no frame — publishes the level
/// snapshot and the mono batch, each best-effort on its own channel.
/// Returns the meter it published: the exact peak and the rounded root
/// of the mean squared mono sample.
pub fn downmix_and_publish(
    data: &Vec<i32>,
    channels: usize,
    tx_meter: &crossbeam_channel::Sender<Meter>,
    tx_frames: &crossbeam_channel::Sender<Vec<i32>>,
) -> (m: Meter)
    requires
        channels >= 1,
        channels <= 65536,
        data@.len() <= 0x40000000,
        forall|i: int| 0 <= i < data@.len() ==> -65536 <= #[trigger] data@[i] <= 65536,
    ensures
        m.peak == peak_upto(
            data@,
            channels as int,
            frame_count(data@.len() as int, channels as int),
        ),
        m.rms * m.rms <= mean_square(data@, channels as int),
        mean_square(data@, channels as int) < (m.rms + 1) * (m.rms + 1),
        m.peak <= 65536,
        m.rms <= 65536,
{
    let (mono, m) = downmix_batch(data, channels);
    if mono.len() > 0 {
        try_publish(tx_meter, m);
        try_publish(tx_frames, mono);
    }
    m
}

/// One analyzer step around the host's transform: folds the 513 bin
/// powers into bands, smooths both representations, publishes the
/// snapshot best-effort, and returns it. Every value of the returned
/// snapshot lies in the unit interval, and each band is exactly one
/// smoothing step from its previous level.
pub fn analyze_and_publish(
    a: &mut Analyzer,
    power: &Vec<u64>,
    tx: &crossbeam_channel::Sender<Spectrum>,
) -> (s: Spectrum)
    requires
        old(a).wf(),
        power@.len() == 513,
        forall|i: int| 0 <= i < power@.len() ==> #[trigger] power@[i] <= POWER_LIMIT,
    ensures
        final(a).wf(),
        s.wf(),
        s.bands@ == final(a).smooth@,
        s.bands_linear@ == final(a).smooth_linear@,
        forall|b: int|
            0 <= b < 96 ==> #[trigger] s.bands@[b] == smooth_step(
                old(a).smooth@[b] as int,
                db_level(band_mean(power@, old(a).map.map@, b)),
            ),
        forall|b: int|
            0 <= b < 96 ==> #[trigger] s.bands_linear@[b] == smooth_step(
                old(a).smooth_linear@[b] as int,
                linear_level(band_mean(power@, old(a).map.map@, b)),
            ),
        final(a).ring@ == old(a).ring@,
        final(a).pushed@ == old(a).pushed@,
        final(a).emitted@ == old(a).emitted@,
        final(a).window@ == old(a).window@,
        final(a).map == old(a).map,
{
    let s = a.bands_from_power(power);
    let dup = s.clone();
    try_publish(tx, dup);
    s
}

} // verus!
