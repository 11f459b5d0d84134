//! Where the frames of a run come from.

use crate::text::{decimal, decimal_of};
use vstd::prelude::*;

verus! {

/// A source of frames.
#[derive(Debug)]
pub enum FrameSource {
    /// The same frame every time.
    Synthetic { template: Vec<u8> },
    /// Frames of `frame_bytes` bytes that a decoder pipes in.
    Video { frame_bytes: usize },
}

/// How a frame gets into its buffer.
#[derive(Clone, Copy, Debug, PartialEq, Eq, Structural)]
pub enum Fill {
    /// It is there.
    Done,
    /// As many bytes have to be read from the decoder into the start of the buffer.
    Read { bytes: usize },
}

/// Why a buffer cannot be filled.
#[derive(Clone, Copy, Debug, PartialEq, Eq, Structural)]
pub enum FillError {
    BufferTooSmall,
}

impl FillError {
    /// The reason in words.
    pub fn message(self) -> (r: &'static str)
        ensures
            r@ == "dst buffer smaller than frame_bytes"@,
    {
        "dst buffer smaller than frame_bytes"
    }
}

/// The pattern of a synthetic frame: the bytes count up, and start over after 255.
pub open spec fn pattern(frame_bytes: nat) -> Seq<u8> {
    Seq::new(frame_bytes, |i: int| (i % 256) as u8)
}

/// A buffer after a synthetic frame was copied to its start, as far as there is
/// room.
pub open spec fn overlaid(before: Seq<u8>, template: Seq<u8>) -> Seq<u8> {
    let n = if before.len() < template.len() {
        before.len()
    } else {
        template.len()
    };
    template.take(n as int) + before.skip(n as int)
}

impl FrameSource {
    /// A source of synthetic frames of the given size.
    pub fn synthetic(frame_bytes: usize) -> (r: Self)
        ensures
            r matches FrameSource::Synthetic { template } && template@ == pattern(
                frame_bytes as nat,
            ),
    {
        let mut template: Vec<u8> = Vec::new();
        for i in 0..frame_bytes
            invariant
                template@ =~= pattern(i as nat),
        {
            template.push((i % 256) as u8);
        }
        FrameSource::Synthetic { template }
    }

    /// A source of decoded frames of the given width and height, four bytes a pixel.
    pub fn video(width: usize, height: usize) -> (r: Self)
        requires
            width * height * 4 <= usize::MAX,
        ensures
            r matches FrameSource::Video { frame_bytes } && frame_bytes == width * height * 4,
    {
        FrameSource::Video { frame_bytes: width * height * 4 }
    }

    /// Fills `dst` with the next frame, or says how much of it has to be read. A
    /// synthetic frame is cut off where the buffer ends, and leaves what is behind
    /// it in the buffer; a decoded one needs room for all of it.
    pub fn fill(&self, dst: &mut [u8]) -> (r: Result<Fill, FillError>)
        ensures
            match *self {
                FrameSource::Synthetic { template } => {
                    &&& r == Ok::<Fill, FillError>(Fill::Done)
                    &&& final(dst)@ == overlaid(old(dst)@, template@)
                },
                FrameSource::Video { frame_bytes } => {
                    &&& r == if old(dst)@.len() < frame_bytes {
                        Err::<Fill, FillError>(FillError::BufferTooSmall)
                    } else {
                        Ok::<Fill, FillError>(Fill::Read { bytes: frame_bytes })
                    }
                    &&& final(dst)@ == old(dst)@
                },
            },
    {
        match self {
            FrameSource::Synthetic { template } => {
                let n: usize = if dst.len() < template.len() { dst.len() } else { template.len() };
                let ghost before = dst@;
                assert(dst@ =~= template@.take(0) + before.skip(0));
                for i in 0..n
                    invariant
                        n <= template@.len(),
                        n <= before.len(),
                        dst@ == template@.take(i as int) + before.skip(i as int),
                {
                    dst[i] = template[i];
                    assert(dst@ =~= template@.take(i as int + 1) + before.skip(i as int + 1));
                }
                Ok(Fill::Done)
            },
            FrameSource::Video { frame_bytes } => {
                if dst.len() < *frame_bytes {
                    Err(FillError::BufferTooSmall)
                } else {
                    Ok(Fill::Read { bytes: *frame_bytes })
                }
            },
        }
    }
}

/// A buffer of a synthetic frame's own size holds just the frame afterwards,
/// whatever was in it, so that every frame is the same; and no buffer changes its
/// size.
pub proof fn law_synthetic_frames_are_all_the_same(before: Seq<u8>, template: Seq<u8>)
    ensures
        before.len() == template.len() ==> overlaid(before, template) == template,
        overlaid(before, template).len() == before.len(),
        overlaid(overlaid(before, template), template) == overlaid(before, template),
{
    if before.len() == template.len() {
        assert(overlaid(before, template) =~= template);
    }
    assert(overlaid(overlaid(before, template), template) =~= overlaid(before, template));
}

/// A width and a height, as the decoder takes them.
pub open spec fn size_text(width: usize, height: usize) -> Seq<char> {
    decimal_of(width as nat) + "x"@ + decimal_of(height as nat)
}

/// The decoder's arguments before the name of the video.
pub fn decoder_input_args() -> (r: Vec<&'static str>)
    ensures
        r@.map_values(|s: &str| s@) == seq!["-loglevel"@, "error"@, "-i"@],
{
    let r: Vec<&'static str> = vec!["-loglevel", "error", "-i"];
    assert(r@.map_values(|s: &str| s@) =~= seq!["-loglevel"@, "error"@, "-i"@]);
    r
}

/// The decoder's arguments behind the name of the video: raw frames of the given
/// width and height, four bytes a pixel, on standard output.
pub fn decoder_output_args(width: usize, height: usize) -> (r: Vec<String>)
    ensures
        r@.map_values(|s: String| s@) == seq![
            "-f"@,
            "rawvideo"@,
            "-pix_fmt"@,
            "rgba"@,
            "-s"@,
            size_text(width, height),
            "-"@,
        ],
{
    let size = decimal(width).concat("x").concat(decimal(height).as_str());
    let r: Vec<String> = vec![
        "-f".to_owned(),
        "rawvideo".to_owned(),
        "-pix_fmt".to_owned(),
        "rgba".to_owned(),
        "-s".to_owned(),
        size,
        "-".to_owned(),
    ];
    assert(r@.map_values(|s: String| s@) =~= seq![
        "-f"@,
        "rawvideo"@,
        "-pix_fmt"@,
        "rgba"@,
        "-s"@,
        size_text(width, height),
        "-"@,
    ]);
    r
}

/// A synthetic frame has the size asked for, starts with zero, and counts up by one
/// from byte to byte, from 255 back to zero.
pub proof fn law_pattern_counts_up(frame_bytes: nat, i: int)
    requires
        0 <= i < frame_bytes,
    ensures
        pattern(frame_bytes).len() == frame_bytes,
        pattern(frame_bytes)[0] == 0,
        i + 1 < frame_bytes && pattern(frame_bytes)[i] < 255 ==> pattern(frame_bytes)[i + 1]
            == pattern(frame_bytes)[i] + 1,
        i + 1 < frame_bytes && pattern(frame_bytes)[i] == 255 ==> pattern(frame_bytes)[i + 1] == 0,
{
}

/// Of a buffer that a synthetic frame was copied to, every byte that the frame
/// reaches is the frame's, and every byte behind it is what it was.
pub proof fn law_frames_are_copied(before: Seq<u8>, template: Seq<u8>, i: int)
    requires
        0 <= i < before.len(),
    ensures
        overlaid(before, template).len() == before.len(),
        i < template.len() ==> overlaid(before, template)[i] == template[i],
        i >= template.len() ==> overlaid(before, template)[i] == before[i],
{
}

/// The decoder is told the width, an `x` and the height.
pub proof fn law_size_text(width: usize, height: usize)
    ensures
        ({
            let at = decimal_of(width as nat).len() as int;
            let t = size_text(width, height);
            &&& t.take(at) == decimal_of(width as nat)
            &&& t[at] == 'x'
            &&& t.skip(at + 1) == decimal_of(height as nat)
        }),
{
    reveal_strlit("x");
    let at = decimal_of(width as nat).len() as int;
    let t = size_text(width, height);
    assert(t.take(at) =~= decimal_of(width as nat));
    assert(t.skip(at + 1) =~= decimal_of(height as nat));
}

} // verus!
