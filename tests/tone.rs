use timbre::{AudioFormat, Phase, StreamState};

fn sine(format: AudioFormat, amplitude: f32, frequency: f32) -> impl Fn(u64) -> f32 {
    let rate = format.sample_rate as f64;
    move |n: u64| {
        let phase = std::f64::consts::PI * 2.0 * frequency as f64 * n as f64 / rate;
        amplitude * (phase.sin() as f32)
    }
}

#[test]
fn render_fills_every_channel_of_every_frame() {
    for channels in 1u8..=4 {
        let format = AudioFormat::new(channels, 48000).unwrap();
        let mut phase = Phase::new();
        let mut buf = vec![9.0f32; 64 * channels as usize];
        let r = phase.render(format, &mut buf, sine(format, 1.0, 440.0));
        assert_eq!(r.read, buf.len());
        assert_eq!(r.state, StreamState::Good);
        for frame in buf.chunks(channels as usize) {
            assert!(frame.iter().all(|s| *s == frame[0]));
        }
        assert!(buf.iter().any(|s| *s != 9.0));
        assert_eq!(phase.frame(), 64);
    }
}

#[test]
fn render_leaves_partial_frame_alone() {
    let format = AudioFormat::new(2, 44100).unwrap();
    let mut phase = Phase::new();
    let mut buf = vec![7.0f32; 5];
    let r = phase.render(format, &mut buf, |n: u64| n as f32 + 1.0);
    assert_eq!(r.read, 4);
    assert_eq!(buf, vec![1.0, 1.0, 2.0, 2.0, 7.0]);
    assert_eq!(phase.frame(), 2);
}

#[test]
fn render_of_empty_buffer_writes_nothing() {
    let format = AudioFormat::new(1, 44100).unwrap();
    let mut phase = Phase::new();
    let mut buf: Vec<f32> = Vec::new();
    let r = phase.render(format, &mut buf, |n: u64| n as f32);
    assert_eq!(r.read, 0);
    assert_eq!(r.state, StreamState::Good);
    assert_eq!(phase.frame(), 0);
}

#[test]
fn two_reads_equal_one_long_read() {
    let format = AudioFormat::new(2, 44100).unwrap();
    let mut split = Phase::new();
    let mut a = vec![0.0f32; 300];
    let mut b = vec![0.0f32; 212];
    split.render(format, &mut a, sine(format, 0.7, 440.0));
    split.render(format, &mut b, sine(format, 0.7, 440.0));
    let mut whole = Phase::new();
    let mut c = vec![0.0f32; 512];
    whole.render(format, &mut c, sine(format, 0.7, 440.0));
    a.extend_from_slice(&b);
    assert_eq!(a, c);
    assert_eq!(split.frame(), whole.frame());
}

#[test]
fn sine_stays_within_amplitude() {
    let format = AudioFormat::new(1, 44100).unwrap();
    let mut phase = Phase::new();
    let mut buf = vec![0.0f32; 4096];
    phase.render(format, &mut buf, sine(format, 0.25, 1000.0));
    assert!(buf.iter().all(|s| s.abs() <= 0.25 + 1e-6));
    assert!(buf.iter().any(|s| s.abs() > 0.24));
}

#[test]
fn sine_matches_formula() {
    let format = AudioFormat::new(1, 44100).unwrap();
    let mut phase = Phase::new();
    let mut buf = vec![0.0f32; 1024];
    let r = phase.render(format, &mut buf, sine(format, 1.0, 440.0));
    assert_eq!(r.read, 1024);
    for (i, s) in buf.iter().enumerate() {
        let want = (2.0 * std::f64::consts::PI * 440.0 * i as f64 / 44100.0).sin();
        assert!((*s as f64 - want).abs() < 1e-5, "sample {}", i);
    }
}
