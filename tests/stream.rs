use timbre::{AudioFormat, ReadResult, StreamState};

#[test]
fn it_works() {
    assert_eq!(2 + 2, 4);
}

#[test]
fn format_requires_channels_and_rate() {
    assert_eq!(AudioFormat::new(0, 44100), None);
    assert_eq!(AudioFormat::new(2, 0), None);
    let f = AudioFormat::new(2, 48000).unwrap();
    assert_eq!(f.channels, 2);
    assert_eq!(f.sample_rate, 48000);
}

#[test]
fn format_counts_whole_frames() {
    let f = AudioFormat::new(2, 48000).unwrap();
    assert_eq!(f.frames(0), 0);
    assert_eq!(f.frames(1), 0);
    assert_eq!(f.frames(7), 3);
    assert_eq!(f.frames(8), 4);
}

#[test]
fn read_result_constructors() {
    assert_eq!(ReadResult::good(5), ReadResult { read: 5, state: StreamState::Good });
    assert_eq!(ReadResult::underrun(2).state, StreamState::Underrun);
    assert_eq!(ReadResult::finished(0).read, 0);
    assert_eq!(ReadResult::finished(0).state, StreamState::Finished);
}
