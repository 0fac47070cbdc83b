//! The model's input: the grayscale plane repeated once for each input
//! channel.

use vstd::prelude::*;
use crate::error::DetectError;
use crate::preprocess::GrayBuffer;

verus! {

/// What one intensity is divided by to lie in the unit interval.
pub const INTENSITY_MAX: u8 = 255;

/// An input of shape `[1, channels, height, width]`, channel after channel.
/// Element `i` has the value `data[i] / INTENSITY_MAX`.
pub struct InputTensor {
    pub channels: usize,
    pub height: usize,
    pub width: usize,
    pub data: Vec<u8>,
}

impl InputTensor {
    /// The four dimensions, the batch of one first.
    pub open spec fn dims(&self) -> Seq<int> {
        seq![1, self.channels as int, self.height as int, self.width as int]
    }

    /// There is one element for each position of the shape.
    pub open spec fn wf(&self) -> bool {
        self.data@.len() == self.channels * self.height * self.width
    }

    /// The four dimensions, the batch of one first.
    pub fn shape(&self) -> (s: [usize; 4])
        ensures
            s@.len() == 4,
            forall|i: int| 0 <= i < 4 ==> s@[i] as int == self.dims()[i],
    {
        [1, self.channels, self.height, self.width]
    }
}

/// `count` copies of `plane`, one after the other.
pub open spec fn replicated(plane: Seq<u8>, count: int) -> Seq<u8>
    decreases count,
{
    if count <= 0 {
        Seq::empty()
    } else {
        replicated(plane, count - 1) + plane
    }
}

/// Length and elements of `replicated`.
pub proof fn lemma_replicated(plane: Seq<u8>, count: int)
    requires
        0 <= count,
    ensures
        replicated(plane, count).len() == count * plane.len(),
        forall|c: int, i: int|
            0 <= c < count && 0 <= i < plane.len() ==> #[trigger] replicated(plane, count)[c
                * plane.len() + i] == plane[i],
    decreases count,
{
    if count > 0 {
        lemma_replicated(plane, count - 1);
        let before = replicated(plane, count - 1);
        let n = plane.len() as int;
        assert((count - 1) * n + n == count * n) by (nonlinear_arith);
        assert forall|c: int, i: int| 0 <= c < count && 0 <= i < n implies #[trigger] replicated(
            plane,
            count,
        )[c * n + i] == plane[i] by {
            if c < count - 1 {
                assert(0 <= c * n + i < (count - 1) * n) by (nonlinear_arith)
                    requires
                        0 <= c < count - 1,
                        0 <= i < n,
                ;
                assert(before[c * n + i] == plane[i]);
            } else {
                assert(c * n + i - before.len() == i);
            }
        }
    } else {
        assert(count * plane.len() == 0) by (nonlinear_arith)
            requires
                count == 0,
        ;
    }
}

/// Lays the image out as the model's input.
///
/// A channel count of zero or less is refused. Otherwise the plane of
/// intensities is repeated `in_channels` times; dividing by `INTENSITY_MAX`
/// is left to whoever turns the bytes into numbers.
pub fn image_to_tensor(buf: &GrayBuffer, in_channels: i64) -> (r: Result<InputTensor, DetectError>)
    requires
        buf.wf(),
        in_channels > 0 ==> in_channels <= usize::MAX && in_channels * buf.pixels@.len()
            <= isize::MAX,
    ensures
        in_channels <= 0 ==> r is Err && r->Err_0 == DetectError::Channel,
        in_channels > 0 ==> r is Ok && ({
            let t = r->Ok_0;
            &&& t.wf()
            &&& t.channels == in_channels
            &&& t.height == buf.height
            &&& t.width == buf.width
            &&& t.data@ == replicated(buf.pixels@, in_channels as int)
        }),
{
    if in_channels <= 0 {
        return Err(DetectError::Channel);
    }
    let channels: usize = in_channels as usize;
    let mut data: Vec<u8> = Vec::new();
    let mut c: usize = 0;
    while c < channels
        invariant
            c <= channels,
            data@ == replicated(buf.pixels@, c as int),
        decreases channels - c,
    {
        let ghost before = data@;
        let mut i: usize = 0;
        while i < buf.pixels.len()
            invariant
                i <= buf.pixels.len(),
                data@ == before + buf.pixels@.take(i as int),
            decreases buf.pixels.len() - i,
        {
            data.push(buf.pixels[i]);
            assert(data@ =~= before + buf.pixels@.take(i + 1));
            i += 1;
        }
        assert(buf.pixels@.take(i as int) =~= buf.pixels@);
        c += 1;
    }
    proof {
        lemma_replicated(buf.pixels@, channels as int);
        assert(channels * buf.height * buf.width == channels * (buf.width * buf.height))
            by (nonlinear_arith);
    }
    Ok(InputTensor { channels, height: buf.height as usize, width: buf.width as usize, data })
}

} // verus!
