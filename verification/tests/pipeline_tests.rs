use selara::analyzer::Analyzer;
use selara::channel::BestEffortQueue;
use selara::meter::Meter;
use selara::pipeline::{analyze_and_publish, downmix_and_publish};

#[test]
fn queue_drops_newest_when_full() {
    // offering 12 messages to a capacity-8 queue keeps the first 8 and
    // drops exactly 4, without ever blocking
    let mut q: BestEffortQueue<u32> = BestEffortQueue::new(8);
    let mut dropped: u32 = 0;
    for i in 0..12u32 {
        if !q.try_send(i) {
            dropped += 1;
        }
    }
    assert_eq!(q.len(), 8);
    assert_eq!(dropped, 4);
    for i in 0..8u32 {
        assert_eq!(q.try_recv(), Some(i));
    }
    assert_eq!(q.try_recv(), None);
}

#[test]
fn queue_interleaved_send_and_recv() {
    let mut q: BestEffortQueue<u32> = BestEffortQueue::new(2);
    assert!(q.try_send(1));
    assert!(q.try_send(2));
    assert!(!q.try_send(3));
    assert_eq!(q.try_recv(), Some(1));
    assert!(q.try_send(4));
    assert_eq!(q.try_recv(), Some(2));
    assert_eq!(q.try_recv(), Some(4));
    assert_eq!(q.try_recv(), None);
}

#[test]
fn publish_meter_and_frames() {
    let (tx_meter, rx_meter) = crossbeam_channel::bounded::<Meter>(32);
    let (tx_frames, rx_frames) = crossbeam_channel::bounded::<Vec<i32>>(16);
    let data = vec![32768i32, -32768, 65536, 0];
    let m = downmix_and_publish(&data, 2, &tx_meter, &tx_frames);
    assert_eq!(m.peak, 32768);
    assert_eq!(m.rms, 23170);
    let got = rx_meter.try_recv().expect("meter published");
    assert_eq!(got.rms, m.rms);
    assert_eq!(got.peak, m.peak);
    let mono = rx_frames.try_recv().expect("frames published");
    assert_eq!(mono, vec![0, 32768]);
}

#[test]
fn empty_batch_publishes_nothing() {
    let (tx_meter, rx_meter) = crossbeam_channel::bounded::<Meter>(32);
    let (tx_frames, rx_frames) = crossbeam_channel::bounded::<Vec<i32>>(16);
    let data: Vec<i32> = vec![];
    let m = downmix_and_publish(&data, 2, &tx_meter, &tx_frames);
    assert_eq!(m.rms, 0);
    assert_eq!(m.peak, 0);
    assert!(rx_meter.try_recv().is_err());
    assert!(rx_frames.try_recv().is_err());
}

#[test]
fn spectrum_channel_drops_when_undrained() {
    let (tx_spec, rx_spec) = crossbeam_channel::bounded(2);
    let mut a = Analyzer::new(48000, vec![65536u32; 1024]);
    let power = vec![1000000u64; 513];
    for _ in 0..5 {
        a.push_batch(&vec![100i32; 1024]);
        let _ = a.take_frame();
        let s = analyze_and_publish(&mut a, &power, &tx_spec);
        assert!(s.bands.iter().all(|&v| v <= 65536));
    }
    // capacity 2, undrained: exactly 2 of the 5 snapshots queued
    assert!(rx_spec.try_recv().is_ok());
    assert!(rx_spec.try_recv().is_ok());
    assert!(rx_spec.try_recv().is_err());
}

#[test]
fn published_snapshot_equals_returned() {
    let (tx_spec, rx_spec) = crossbeam_channel::bounded(8);
    let mut a = Analyzer::new(48000, vec![65536u32; 1024]);
    a.push_batch(&vec![20000i32; 1024]);
    let _ = a.take_frame();
    let power = vec![123456789u64; 513];
    let s = analyze_and_publish(&mut a, &power, &tx_spec);
    let got = rx_spec.try_recv().expect("snapshot published");
    assert_eq!(got.bands, s.bands);
    assert_eq!(got.bands_linear, s.bands_linear);
    assert!(s.bands.iter().any(|&v| v > 0));
}
