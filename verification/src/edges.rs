use vstd::prelude::*;
use vstd::arithmetic::div_mod::{lemma_mod_bound, lemma_multiply_divide_lt};
use crate::bounded::{max_int, min_int, Bounded};

verus! {

/// One colour channel of a pixel.
#[derive(Copy, Clone, Debug, PartialEq, Eq, Structural)]
pub enum Channel {
    Red,
    Green,
    Blue,
}

/// One direction across an image.
#[derive(Copy, Clone, Debug, PartialEq, Eq, Structural)]
pub enum Axis {
    X,
    Y,
}

/// An RGB image: rows of pixels, each three 8-bit samples.
#[derive(Debug)]
pub struct RgbGrid {
    pub width: u32,
    pub height: u32,
    pub samples: Vec<u8>,
}

/// The place of a channel among the samples of a pixel.
pub open spec fn channel_offset(channel: Channel) -> int {
    match channel {
        Channel::Red => 0,
        Channel::Green => 1,
        Channel::Blue => 2,
    }
}

/// The co-ordinate `steps` below `i`, stopping at zero.
pub open spec fn step_down(i: int, steps: int) -> int {
    max_int(i - steps, 0)
}

/// The co-ordinate `steps` above `i`, stopping at `ceiling`; an `i` above the
/// ceiling counts as the ceiling.
pub open spec fn step_up(i: int, steps: int, ceiling: int) -> int {
    min_int(min_int(i, ceiling) + steps, ceiling)
}

/// A pixel position lies on a row and a column of the image.
pub proof fn lemma_pixel_index_in_range(x: int, y: int, width: int, height: int)
    requires
        0 <= x < width,
        0 <= y < height,
    ensures
        0 <= y * width + x < width * height,
{
    assert(0 <= y * width && y * width + width <= height * width) by (nonlinear_arith)
        requires
            0 <= y < height,
            0 < width,
    ;
    assert(height * width == width * height) by (nonlinear_arith);
}

impl RgbGrid {
    /// The image has at least one pixel, and three samples for every pixel.
    pub open spec fn wf(&self) -> bool {
        &&& self.width >= 1
        &&& self.height >= 1
        &&& self.samples@.len() == 3 * (self.width * self.height)
    }

    /// The sample of `channel` at column `x` of row `y`.
    pub open spec fn sample(&self, x: int, y: int, channel: Channel) -> int {
        self.samples@[3 * (y * self.width + x) + channel_offset(channel)] as int
    }

    /// Signed change of `channel` across the pixel, in half units of a
    /// sample: the two pixels before it along `axis` less the two after it,
    /// the outer ones counted twice. Beyond the edge of the image the edge
    /// pixel is read again.
    pub open spec fn change(&self, x: int, y: int, channel: Channel, axis: Axis) -> int {
        match axis {
            Axis::X => {
                let ceiling = self.width - 1;
                2 * self.sample(step_down(min_int(x, ceiling), 2), y, channel) + self.sample(
                    step_down(min_int(x, ceiling), 1),
                    y,
                    channel,
                ) - self.sample(step_up(x, 1, ceiling), y, channel) - 2 * self.sample(
                    step_up(x, 2, ceiling),
                    y,
                    channel,
                )
            },
            Axis::Y => {
                let ceiling = self.height - 1;
                2 * self.sample(x, step_down(min_int(y, ceiling), 2), channel) + self.sample(
                    x,
                    step_down(min_int(y, ceiling), 1),
                    channel,
                ) - self.sample(x, step_up(y, 1, ceiling), channel) - 2 * self.sample(
                    x,
                    step_up(y, 2, ceiling),
                    channel,
                )
            },
        }
    }

    /// The change of all three channels together.
    pub open spec fn brightness(&self, x: int, y: int, axis: Axis) -> int {
        self.change(x, y, Channel::Red, axis) + self.change(x, y, Channel::Green, axis)
            + self.change(x, y, Channel::Blue, axis)
    }

    /// The axis along which the brightness changes more, `X` where both
    /// change alike.
    pub open spec fn steeper_axis(&self, x: int, y: int) -> Axis {
        if self.brightness(x, y, Axis::X) - self.brightness(x, y, Axis::Y) >= 0 {
            Axis::X
        } else {
            Axis::Y
        }
    }

    /// An image of `width` by `height` pixels over `samples`, where there are
    /// three samples for each of at least one pixel.
    pub fn new(width: u32, height: u32, samples: Vec<u8>) -> (grid: Option<RgbGrid>)
        ensures
            grid is Some <==> width >= 1 && height >= 1 && samples@.len() == 3 * (width * height),
            grid matches Some(g) ==> g.wf() && g.width == width && g.height == height
                && g.samples@ == samples@,
    {
        proof {
            assert(0 <= width * height <= 0xFFFF_FFFF * 0xFFFF_FFFF) by (nonlinear_arith)
                requires
                    0 <= width <= 0xFFFF_FFFF,
                    0 <= height <= 0xFFFF_FFFF,
            ;
        }
        let wanted: u128 = 3 * (width as u128 * height as u128);
        if width >= 1 && height >= 1 && samples.len() as u128 == wanted {
            Some(RgbGrid { width: width, height: height, samples: samples })
        } else {
            None
        }
    }

    /// The sample of `channel` at column `x` of row `y`.
    pub fn get(&self, x: u32, y: u32, channel: Channel) -> (v: u8)
        requires
            self.wf(),
            x < self.width,
            y < self.height,
        ensures
            v == self.sample(x as int, y as int, channel),
    {
        proof {
            lemma_pixel_index_in_range(x as int, y as int, self.width as int, self.height as int);
            assert(0 <= y * self.width) by (nonlinear_arith)
                requires
                    0 <= y,
                    0 <= self.width,
            ;
        }
        let count: usize = self.samples.len();
        assert(3 * (y * self.width + x) + 2 < count);
        let offset: usize = match channel {
            Channel::Red => 0,
            Channel::Green => 1,
            Channel::Blue => 2,
        };
        let pixel: u64 = y as u64 * self.width as u64 + x as u64;
        self.samples[3 * (pixel as usize) + offset]
    }
}

/// Signed change of `channel` across the pixel at (`x`, `y`) along `axis`, in
/// half units of a sample.
pub fn channel_change(rgb_image: &RgbGrid, x: u32, y: u32, channel: Channel, axis: Axis) -> (change:
    i32)
    requires
        rgb_image.wf(),
        axis == Axis::X ==> y < rgb_image.height,
        axis == Axis::Y ==> x < rgb_image.width,
    ensures
        change == rgb_image.change(x as int, y as int, channel, axis),
        -765 <= change <= 765,
{
    let x_sat = Bounded::new(x, rgb_image.width - 1);
    let y_sat = Bounded::new(y, rgb_image.height - 1);
    match axis {
        Axis::X => 2 * (rgb_image.get(x_sat.sub(2), y, channel) as i32) + rgb_image.get(
            x_sat.sub(1),
            y,
            channel,
        ) as i32 - rgb_image.get(x_sat.add(1), y, channel) as i32 - 2 * (rgb_image.get(
            x_sat.add(2),
            y,
            channel,
        ) as i32),
        Axis::Y => 2 * (rgb_image.get(x, y_sat.sub(2), channel) as i32) + rgb_image.get(
            x,
            y_sat.sub(1),
            channel,
        ) as i32 - rgb_image.get(x, y_sat.add(1), channel) as i32 - 2 * (rgb_image.get(
            x,
            y_sat.add(2),
            channel,
        ) as i32),
    }
}

/// Change of all three channels together across the pixel at (`x`, `y`)
/// along `axis`, in half units of a sample.
pub fn brightness_change(rgb_image: &RgbGrid, x: u32, y: u32, axis: Axis) -> (change: i32)
    requires
        rgb_image.wf(),
        axis == Axis::X ==> y < rgb_image.height,
        axis == Axis::Y ==> x < rgb_image.width,
    ensures
        change == rgb_image.brightness(x as int, y as int, axis),
{
    channel_change(rgb_image, x, y, Channel::Red, axis) + channel_change(
        rgb_image,
        x,
        y,
        Channel::Green,
        axis,
    ) + channel_change(rgb_image, x, y, Channel::Blue, axis)
}

/// For every pixel, row by row, the axis along which its brightness changes
/// more.
pub fn edge_orientations(rgb_image: &RgbGrid) -> (axes: Vec<Axis>)
    requires
        rgb_image.wf(),
    ensures
        axes@.len() == rgb_image.width * rgb_image.height,
        forall|i: int|
            0 <= i < axes@.len() ==> axes@[i] == rgb_image.steeper_axis(
                i % (rgb_image.width as int),
                i / (rgb_image.width as int),
            ),
{
    let count: usize = rgb_image.samples.len();
    assert(3 * (rgb_image.width * rgb_image.height) == count);
    let width: u64 = rgb_image.width as u64;
    let pixels: u64 = width * rgb_image.height as u64;
    let mut axes: Vec<Axis> = Vec::new();
    let mut i: u64 = 0;
    while i < pixels
        invariant
            rgb_image.wf(),
            width == rgb_image.width,
            pixels == rgb_image.width * rgb_image.height,
            0 <= i <= pixels,
            axes@.len() == i,
            forall|m: int|
                0 <= m < i ==> axes@[m] == rgb_image.steeper_axis(
                    m % (rgb_image.width as int),
                    m / (rgb_image.width as int),
                ),
        decreases pixels - i,
    {
        proof {
            lemma_mod_bound(i as int, width as int);
            lemma_multiply_divide_lt(i as int, width as int, rgb_image.height as int);
        }
        let x: u32 = (i % width) as u32;
        let y: u32 = (i / width) as u32;
        let diff = brightness_change(rgb_image, x, y, Axis::X) - brightness_change(
            rgb_image,
            x,
            y,
            Axis::Y,
        );
        axes.push(
            if diff >= 0 {
                Axis::X
            } else {
                Axis::Y
            },
        );
        i = i + 1;
    }
    axes
}

} // verus!
