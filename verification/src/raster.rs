//! Scrolling raster ("waterfall") visualization of recent sensor history.
//!
//! The buffer is a fixed `width x height` grayscale image, row-major, one byte
//! per pixel. Each update cycle scrolls the image up one row — row `y` takes
//! row `y + 1`'s old contents, the top row ages out — and paints the bottom
//! row: each sensor owns a band of `width / NUM_SENSORS` columns whose
//! brightness is the sensor's clamped intensity, fading linearly to the right
//! edge of the band.

use vstd::arithmetic::div_mod::{lemma_div_is_ordered, lemma_div_multiples_vanish};
use vstd::prelude::*;

use crate::state::{table_values, MeasurementTable, Measurement, NUM_SENSORS};
use std::collections::VecDeque;

verus! {

/// Width of the visualization raster, in pixels.
pub const VP_WIDTH: usize = 100;

/// Height of the visualization raster, in pixels: one row per update cycle.
pub const VP_HEIGHT: usize = 250;

/// Capacity of the sample buffer: samples per second times band length over
/// band speed.
pub const SAMPLE_BUF_SIZE: usize = 10 * (100 / 4);

/// Full-scale sensor reading: values at or above it paint full intensity.
pub const INTENSITY_FULL_SCALE: u16 = 2000;

/// Grayscale of one pixel within a sensor band: the clamped intensity
/// `min(v, full_scale) / full_scale`, times the linear falloff
/// `(band - off) / band`, times 255, truncated.
pub open spec fn gray_value(v: u16, off: int, band: int) -> int
    recommends
        0 <= off < band,
{
    ((if v <= INTENSITY_FULL_SCALE {
        v as int
    } else {
        INTENSITY_FULL_SCALE as int
    }) * (band - off) * 255) / ((INTENSITY_FULL_SCALE as int) * band)
}

/// One pixel of a freshly painted bottom row: sensor `x / band` paints column
/// `x` with falloff offset `x % band`; columns right of the last band, or all
/// columns when the raster is narrower than the sensor count, stay black.
pub open spec fn spec_pixel(width: int, values: Seq<u16>, x: int) -> u8
    recommends
        values.len() == NUM_SENSORS,
        0 <= x < width,
{
    let band = width / (NUM_SENSORS as int);
    if band > 0 && x < (NUM_SENSORS as int) * band {
        gray_value(values[x / band], x % band, band) as u8
    } else {
        0u8
    }
}

/// A whole freshly painted bottom row.
pub open spec fn spec_new_row(width: int, values: Seq<u16>) -> Seq<u8> {
    Seq::new(width as nat, |x: int| spec_pixel(width, values, x))
}

/// Fixed-size scrolling grayscale raster, row-major, one byte per pixel.
pub struct RasterBuffer {
    pixels: Vec<u8>,
    width: usize,
    height: usize,
}

impl RasterBuffer {
    /// The pixel bytes, row-major.
    pub closed spec fn pixels_view(self) -> Seq<u8> {
        self.pixels@
    }

    /// The raster width.
    pub closed spec fn spec_width(self) -> int {
        self.width as int
    }

    /// The raster height.
    pub closed spec fn spec_height(self) -> int {
        self.height as int
    }

    /// Positive dimensions; the buffer holds exactly `width * height` pixels,
    /// whatever else happens.
    pub open spec fn wf(self) -> bool {
        &&& self.spec_width() >= 1
        &&& self.spec_height() >= 1
        &&& self.pixels_view().len() == self.spec_width() * self.spec_height()
    }

    /// Row `y` of the image, top first.
    pub open spec fn row(self, y: int) -> Seq<u8>
        recommends
            0 <= y < self.spec_height(),
    {
        self.pixels_view().subrange(y * self.spec_width(), (y + 1) * self.spec_width())
    }

    /// A black raster of the given dimensions.
    pub fn new(width: usize, height: usize) -> (r: RasterBuffer)
        requires
            1 <= width,
            1 <= height,
            width * height <= usize::MAX,
        ensures
            r.wf(),
            r.spec_width() == width,
            r.spec_height() == height,
            r.pixels_view() == Seq::new((width * height) as nat, |i: int| 0u8),
    {
        let total: usize = width * height;
        let mut pixels: Vec<u8> = Vec::new();
        while pixels.len() < total
            invariant
                pixels@.len() <= total,
                forall|i: int| 0 <= i < pixels@.len() ==> pixels@[i] == 0u8,
            decreases total - pixels@.len(),
        {
            pixels.push(0);
        }
        let r = RasterBuffer { pixels, width, height };
        proof {
            assert(r.pixels_view() =~= Seq::new((width * height) as nat, |i: int| 0u8));
        }
        r
    }

    /// Width accessor.
    pub fn width(&self) -> (r: usize)
        ensures
            r == self.spec_width(),
    {
        self.width
    }

    /// Height accessor.
    pub fn height(&self) -> (r: usize)
        ensures
            r == self.spec_height(),
    {
        self.height
    }

    /// The pixel bytes, row-major, for the presentation layer to blit.
    pub fn pixel_bytes(&self) -> (r: &Vec<u8>)
        ensures
            r@ == self.pixels_view(),
    {
        &self.pixels
    }

    /// The pixel at column `x` of row `y`.
    pub fn pixel_at(&self, x: usize, y: usize) -> (r: u8)
        requires
            self.wf(),
            x < self.spec_width(),
            y < self.spec_height(),
        ensures
            r == self.row(y as int)[x as int],
    {
        let n = self.pixels.len();
        proof {
            assert((y as int) * self.spec_width() + x < n as int && (y + 1) * self.spec_width()
                <= n as int && (y + 1) * self.spec_width() == (y as int) * self.spec_width()
                + self.spec_width()) by (nonlinear_arith)
                requires
                    n as int == self.spec_width() * self.spec_height(),
                    self.spec_width() >= 1,
                    x < self.spec_width(),
                    y < self.spec_height(),
            ;
            assert(self.row(y as int)[x as int] == self.pixels_view()[(y as int)
                * self.spec_width() + x]);
        }
        self.pixels[y * self.width + x]
    }

    /// Reallocate at new dimensions, discarding the contents — or keep the
    /// buffer untouched when the dimensions already match.
    pub fn resize(&mut self, width: usize, height: usize)
        requires
            old(self).wf(),
            1 <= width,
            1 <= height,
            width * height <= usize::MAX,
        ensures
            final(self).wf(),
            final(self).spec_width() == width,
            final(self).spec_height() == height,
            old(self).spec_width() == width && old(self).spec_height() == height ==> final(self).pixels_view() == old(self).pixels_view(),
            !(old(self).spec_width() == width && old(self).spec_height() == height) ==> final(self).pixels_view() == Seq::new((width * height) as nat, |i: int| 0u8),
    {
        if width == self.width && height == self.height {
            return ;
        }
        *self = RasterBuffer::new(width, height);
    }

    /// One update cycle: scroll the image up one row, discarding the top row,
    /// and paint the bottom row from the latest sensor values.
    pub fn update(&mut self, values: &Vec<u16>)
        requires
            old(self).wf(),
            values@.len() == NUM_SENSORS,
        ensures
            final(self).wf(),
            final(self).spec_width() == old(self).spec_width(),
            final(self).spec_height() == old(self).spec_height(),
            forall|y: int|
                0 <= y < old(self).spec_height() - 1 ==> final(self).row(y) == old(self).row(y + 1),
            final(self).row(final(self).spec_height() - 1) == spec_new_row(
                old(self).spec_width(),
                values@,
            ),
    {
        let w = self.width;
        let h0 = self.height;
        let total = self.pixels.len();
        proof {
            assert(total >= w) by (nonlinear_arith)
                requires
                    total as int == (w as int) * (h0 as int),
                    w >= 1,
                    h0 >= 1,
            ;
        }
        let base = total - w;
        let ghost orig = self.pixels@;

        // Scroll: every pixel below the first row moves up one row; ascending
        // order means each source is still unwritten when it is read.
        let mut k: usize = 0;
        while k < base
            invariant
                k <= base,
                base == total - w,
                w == self.width,
                h0 == self.height,
                w >= 1,
                h0 >= 1,
                total as int == (w as int) * (h0 as int),
                total == self.pixels@.len(),
                total >= w,
                orig.len() == total,
                forall|j: int| 0 <= j < k ==> self.pixels@[j] == orig[j + w],
                forall|j: int| k <= j < total ==> self.pixels@[j] == orig[j],
            decreases base - k,
        {
            let v = self.pixels[k + w];
            self.pixels.set(k, v);
            k = k + 1;
        }

        // Paint the bottom row.
        let ghost shifted = self.pixels@;
        let band: usize = w / NUM_SENSORS;
        let mut x: usize = 0;
        while x < w
            invariant
                x <= w,
                base == total - w,
                w == self.width,
                h0 == self.height,
                w >= 1,
                h0 >= 1,
                total as int == (w as int) * (h0 as int),
                band == w / NUM_SENSORS,
                total == self.pixels@.len(),
                total >= w,
                shifted.len() == total,
                values@.len() == NUM_SENSORS,
                forall|j: int| 0 <= j < base ==> self.pixels@[j] == shifted[j],
                forall|j: int|
                    base <= j < base + x ==> self.pixels@[j] == spec_pixel(
                        w as int,
                        values@,
                        j - base,
                    ),
                forall|j: int| base + x <= j < total ==> self.pixels@[j] == shifted[j],
            decreases w - x,
        {
            let g: u8;
            if band > 0 && x < band * NUM_SENSORS {
                proof {
                    assert(band * NUM_SENSORS <= w) by (nonlinear_arith)
                        requires
                            band as int == w as int / (NUM_SENSORS as int),
                            w >= 1,
                    ;
                    assert(x / band < NUM_SENSORS && x % band < band && x % band >= 0)
                        by (nonlinear_arith)
                        requires
                            band >= 1,
                            0 <= x < (band as int) * (NUM_SENSORS as int),
                    ;
                }
                let sensor: usize = x / band;
                let off: usize = x % band;
                let v: u16 = values[sensor];
                let vc: u128 = if v > INTENSITY_FULL_SCALE {
                    INTENSITY_FULL_SCALE as u128
                } else {
                    v as u128
                };
                proof {
                    assert(vc * ((band - off) as u128) * 255 <= 2000 * (band as u128) * 255
                        < u128::MAX) by (nonlinear_arith)
                        requires
                            vc <= 2000,
                            0 <= off < band,
                            band <= usize::MAX as int,
                    ;
                }
                let num: u128 = vc * ((band - off) as u128) * 255;
                let den: u128 = (INTENSITY_FULL_SCALE as u128) * (band as u128);
                let q: u128 = num / den;
                proof {
                    lemma_div_is_ordered(num as int, 255 * (den as int), den as int);
                    lemma_div_multiples_vanish(255, den as int);
                    assert(num <= 255 * den) by (nonlinear_arith)
                        requires
                            num == vc * ((band - off) as u128) * 255,
                            den == 2000 * (band as u128),
                            vc <= 2000,
                            0 <= off < band,
                    ;
                    assert(q <= 255);
                    assert(q as int == gray_value(v, off as int, band as int));
                }
                g = q as u8;
                proof {
                    assert(g == spec_pixel(w as int, values@, x as int));
                }
            } else {
                g = 0;
                proof {
                    assert(g == spec_pixel(w as int, values@, x as int));
                }
            }
            self.pixels.set(base + x, g);
            x = x + 1;
        }

        // The pointwise facts above give the row-by-row picture.
        proof {
            let wi = w as int;
            let h = self.spec_height();
            assert(total == wi * h);
            assert(base == (h - 1) * wi) by (nonlinear_arith)
                requires
                    base == total - wi,
                    total == wi * h,
            ;
            assert forall|y: int| 0 <= y < h - 1 implies self.row(y) == old(self).row(y + 1) by {
                assert(y * wi >= 0 && y * wi + wi <= base && (y + 1) * wi == y * wi + wi && (y + 2)
                    * wi == (y + 1) * wi + wi && (y + 2) * wi <= total) by (nonlinear_arith)
                    requires
                        0 <= y < h - 1,
                        wi >= 1,
                        base == (h - 1) * wi,
                        total == wi * h,
                ;
                assert forall|t: int| 0 <= t < wi implies self.row(y)[t] == old(self).row(y + 1)[t] by {
                    assert(self.row(y)[t] == self.pixels_view()[y * wi + t]);
                    assert(old(self).row(y + 1)[t] == orig[(y + 1) * wi + t]);
                    assert(self.pixels_view()[y * wi + t] == shifted[y * wi + t]);
                    assert(shifted[y * wi + t] == orig[y * wi + t + wi]);
                }
                assert(self.row(y) =~= old(self).row(y + 1));
            }
            assert((h - 1) * wi + wi == total) by (nonlinear_arith)
                requires
                    base == (h - 1) * wi,
                    base == total - wi,
            ;
            assert(h * wi == wi * h && (h - 1 + 1) * wi == h * wi) by (nonlinear_arith);
            assert(self.row(h - 1).len() == wi);
            assert(spec_new_row(wi, values@).len() == wi);
            assert forall|t: int| 0 <= t < wi implies self.row(h - 1)[t] == spec_new_row(
                wi,
                values@,
            )[t] by {
                assert((h - 1 + 1) * wi == (h - 1) * wi + wi) by (nonlinear_arith);
                assert(self.row(h - 1) == self.pixels_view().subrange(
                    (h - 1) * wi,
                    (h - 1) * wi + wi,
                ));
                assert(self.row(h - 1)[t] == self.pixels_view()[(h - 1) * wi + t]);
                assert(self.pixels_view()[base + t] == spec_pixel(wi, values@, t));
            }
            assert(self.row(h - 1) =~= spec_new_row(wi, values@));
        }
    }
}

/// Visualization state: the raster plus the bounded buffer of recent samples
/// handed over by the router (drop-oldest past `SAMPLE_BUF_SIZE`).
pub struct VisualizationTab {
    /// The scrolling raster image.
    pub cache: RasterBuffer,
    /// Recent samples handed over by the router, oldest first.
    pub sensor_buffer: VecDeque<Measurement>,
}

impl VisualizationTab {
    /// The buffered samples, oldest first.
    pub open spec fn samples(self) -> Seq<Measurement> {
        self.sensor_buffer@
    }

    /// The raster holds its invariant and the sample buffer its bound.
    pub open spec fn wf(self) -> bool {
        &&& self.cache.wf()
        &&& self.samples().len() <= SAMPLE_BUF_SIZE
    }

    /// A fresh visualization: black raster at the design dimensions, no
    /// samples.
    pub fn new() -> (r: VisualizationTab)
        ensures
            r.wf(),
            r.cache.spec_width() == VP_WIDTH,
            r.cache.spec_height() == VP_HEIGHT,
            r.cache.pixels_view() == Seq::new((VP_WIDTH * VP_HEIGHT) as nat, |i: int| 0u8),
            r.samples() == Seq::<Measurement>::empty(),
    {
        VisualizationTab {
            cache: RasterBuffer::new(VP_WIDTH, VP_HEIGHT),
            sensor_buffer: VecDeque::with_capacity(SAMPLE_BUF_SIZE),
        }
    }

    /// Buffer one sample, dropping the oldest when full.
    pub fn add_sensor_value(&mut self, measurement: Measurement)
        requires
            old(self).wf(),
        ensures
            final(self).wf(),
            final(self).cache == old(self).cache,
            final(self).samples() == if old(self).samples().len() < SAMPLE_BUF_SIZE {
                old(self).samples().push(measurement)
            } else {
                old(self).samples().skip(1).push(measurement)
            },
    {
        if self.sensor_buffer.len() >= SAMPLE_BUF_SIZE {
            self.sensor_buffer.pop_front();
        }
        self.sensor_buffer.push_back(measurement);
        proof {
            if old(self).samples().len() >= SAMPLE_BUF_SIZE {
                assert(self.samples() =~= old(self).samples().skip(1).push(measurement));
            }
        }
    }

    /// Title under which the presentation layer shows the pane.
    pub fn title(&self) -> (r: &'static str)
        ensures
            r@ == "Visualization"@,
    {
        "Visualization"
    }

    /// Accessor for the presentation layer: dimensions and pixel bytes of the
    /// raster, ready to blit.
    pub fn raster_snapshot(&self) -> (r: (usize, usize, &Vec<u8>))
        ensures
            r.0 == self.cache.spec_width(),
            r.1 == self.cache.spec_height(),
            r.2@ == self.cache.pixels_view(),
    {
        (self.cache.width(), self.cache.height(), self.cache.pixel_bytes())
    }

    /// One presentation cycle: make sure the raster has the design dimensions,
    /// then scroll it and paint the bottom row from the latest measurements.
    pub fn update_cycle(&mut self, measurements: &MeasurementTable)
        requires
            old(self).wf(),
            measurements.wf(),
        ensures
            final(self).wf(),
            final(self).samples() == old(self).samples(),
            final(self).cache.spec_width() == VP_WIDTH,
            final(self).cache.spec_height() == VP_HEIGHT,
            old(self).cache.spec_width() == VP_WIDTH && old(self).cache.spec_height() == VP_HEIGHT
                ==> forall|y: int|
                0 <= y < VP_HEIGHT - 1 ==> final(self).cache.row(y) == old(self).cache.row(y + 1),
            final(self).cache.row(VP_HEIGHT - 1) == spec_new_row(
                VP_WIDTH as int,
                table_values(*measurements),
            ),
    {
        self.cache.resize(VP_WIDTH, VP_HEIGHT);
        let values = measurements.latest_values();
        self.cache.update(&values);
    }
}

} // verus!
