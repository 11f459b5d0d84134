use gyroflow_bench::source::{decoder_input_args, decoder_output_args, Fill, FillError, FrameSource};

#[test]
fn synthetic_frames_count_up() {
    let s = FrameSource::synthetic(600);
    let mut dst = vec![9u8; 600];
    assert_eq!(s.fill(&mut dst), Ok(Fill::Done));
    for (i, b) in dst.iter().enumerate() {
        assert_eq!(*b, (i & 0xFF) as u8);
    }
}

#[test]
fn synthetic_frames_are_cut_to_the_buffer() {
    let s = FrameSource::synthetic(4);
    let mut short = [9u8; 2];
    assert_eq!(s.fill(&mut short), Ok(Fill::Done));
    assert_eq!(short, [0, 1]);
    let mut long = [9u8; 6];
    assert_eq!(s.fill(&mut long), Ok(Fill::Done));
    assert_eq!(long, [0, 1, 2, 3, 9, 9]);
}

#[test]
fn decoded_frames_are_read_whole() {
    let s = FrameSource::video(3, 2);
    let mut dst = vec![7u8; 30];
    assert_eq!(s.fill(&mut dst), Ok(Fill::Read { bytes: 24 }));
    assert_eq!(dst, vec![7u8; 30]);
    assert_eq!(s.fill(&mut [0u8; 24]), Ok(Fill::Read { bytes: 24 }));
    assert_eq!(s.fill(&mut [0u8; 23]), Err(FillError::BufferTooSmall));
    assert_eq!(FillError::BufferTooSmall.message(), "dst buffer smaller than frame_bytes");
}

#[test]
fn decoder_arguments() {
    assert_eq!(decoder_input_args(), vec!["-loglevel", "error", "-i"]);
    assert_eq!(
        decoder_output_args(1920, 1080),
        vec!["-f", "rawvideo", "-pix_fmt", "rgba", "-s", "1920x1080", "-"]
    );
}
