use metalstream::raster::{RasterBuffer, VisualizationTab, SAMPLE_BUF_SIZE, VP_HEIGHT, VP_WIDTH};
use metalstream::state::{GlobalState, Measurement, MeasurementTable};

fn table_with(values: &[(u8, u16)]) -> MeasurementTable {
    let mut t = MeasurementTable::new();
    for &(id, value) in values {
        t.upsert(Measurement { id, connected: true, value });
    }
    t
}

#[test]
fn new_raster_is_black_at_design_size() {
    let viz = VisualizationTab::new();
    assert_eq!(viz.cache.width(), VP_WIDTH);
    assert_eq!(viz.cache.height(), VP_HEIGHT);
    assert_eq!(viz.cache.pixel_bytes().len(), VP_WIDTH * VP_HEIGHT);
    assert!(viz.cache.pixel_bytes().iter().all(|&p| p == 0));
}

#[test]
fn bottom_row_band_fades_left_to_right() {
    // One sensor at 900 of 2000: intensity 0.45, band of 100/8 = 12 columns.
    let mut viz = VisualizationTab::new();
    let t = table_with(&[(1, 900)]);
    viz.update_cycle(&t);
    let bottom = VP_HEIGHT - 1;
    // Left edge of the band: 0.45 * 255 truncated.
    assert_eq!(viz.cache.pixel_at(0, bottom), 114);
    // Strictly fading toward the right edge of the band.
    for x in 1..12 {
        assert!(viz.cache.pixel_at(x, bottom) < viz.cache.pixel_at(x - 1, bottom));
    }
    // Right edge of the band: 0.45 * (1/12) * 255 truncated.
    assert_eq!(viz.cache.pixel_at(11, bottom), 9);
    // The next band belongs to sensor 2, which never reported.
    assert_eq!(viz.cache.pixel_at(12, bottom), 0);
    // Columns right of the last band stay black (8 * 12 = 96).
    assert_eq!(viz.cache.pixel_at(96, bottom), 0);
    assert_eq!(viz.cache.pixel_at(99, bottom), 0);
}

#[test]
fn full_scale_reading_paints_full_intensity() {
    let mut viz = VisualizationTab::new();
    let t = table_with(&[(2, 2000)]);
    viz.update_cycle(&t);
    // Sensor 2 owns columns 12..24.
    assert_eq!(viz.cache.pixel_at(12, VP_HEIGHT - 1), 255);
    assert_eq!(viz.cache.pixel_at(0, VP_HEIGHT - 1), 0);
}

#[test]
fn readings_above_full_scale_are_clamped() {
    let mut viz = VisualizationTab::new();
    let t = table_with(&[(1, 65535)]);
    viz.update_cycle(&t);
    assert_eq!(viz.cache.pixel_at(0, VP_HEIGHT - 1), 255);
}

#[test]
fn update_scrolls_every_row_up_by_one() {
    let mut viz = VisualizationTab::new();
    let t1 = table_with(&[(1, 900)]);
    viz.update_cycle(&t1);
    let old_bottom: Vec<u8> =
        (0..VP_WIDTH).map(|x| viz.cache.pixel_at(x, VP_HEIGHT - 1)).collect();
    let t2 = table_with(&[(1, 2000)]);
    viz.update_cycle(&t2);
    // The old bottom row moved up one row; the new bottom row is fresh.
    for x in 0..VP_WIDTH {
        assert_eq!(viz.cache.pixel_at(x, VP_HEIGHT - 2), old_bottom[x]);
    }
    assert_eq!(viz.cache.pixel_at(0, VP_HEIGHT - 1), 255);
    // The pixel count never changes.
    assert_eq!(viz.cache.pixel_bytes().len(), VP_WIDTH * VP_HEIGHT);
}

#[test]
fn resize_keeps_matching_dimensions_and_discards_otherwise() {
    let mut r = RasterBuffer::new(4, 3);
    let values = vec![100u16, 0, 0, 0, 0, 0, 0, 0];
    r.update(&values);
    let kept = r.pixel_at(0, 2);
    r.resize(4, 3);
    assert_eq!(r.pixel_at(0, 2), kept);
    r.resize(5, 3);
    assert_eq!(r.width(), 5);
    assert_eq!(r.height(), 3);
    assert!((0..5).all(|x| (0..3).all(|y| r.pixel_at(x, y) == 0)));
}

#[test]
fn narrow_raster_paints_nothing() {
    // Narrower than the sensor count: the band is empty, all columns black.
    let mut r = RasterBuffer::new(4, 2);
    let values = vec![2000u16, 2000, 2000, 2000, 2000, 2000, 2000, 2000];
    r.update(&values);
    assert!((0..4).all(|x| r.pixel_at(x, 1) == 0));
}

#[test]
fn sample_buffer_drops_the_oldest_past_capacity() {
    let mut viz = VisualizationTab::new();
    for i in 0..(SAMPLE_BUF_SIZE + 10) {
        viz.add_sensor_value(Measurement { id: 1, connected: true, value: i as u16 });
    }
    assert_eq!(viz.sensor_buffer.len(), SAMPLE_BUF_SIZE);
    assert_eq!(viz.sensor_buffer.front().unwrap().value, 10);
    assert_eq!(
        viz.sensor_buffer.back().unwrap().value,
        (SAMPLE_BUF_SIZE + 9) as u16
    );
}

#[test]
fn routed_measurement_feeds_the_raster_end_to_end() {
    // The end-to-end path: chunk -> message -> measurement -> bottom row.
    let mut acc = metalstream::parser::FrameAccumulator::new();
    let msgs = acc.push_chunk(b"$12:SMS:ID=1:C=1:V=900#");
    assert_eq!(msgs.len(), 1);
    let mut st = GlobalState::new();
    let mut viz = VisualizationTab::new();
    let out = st.route_message(&msgs[0]);
    viz.add_sensor_value(out.sample.unwrap());
    viz.update_cycle(&st.measurements);
    assert_eq!(viz.cache.pixel_at(0, VP_HEIGHT - 1), 114);
    assert_eq!(viz.cache.pixel_at(11, VP_HEIGHT - 1), 9);
    assert_eq!(viz.cache.pixel_at(12, VP_HEIGHT - 1), 0);
    let m = st.measurements.get(1).unwrap();
    assert_eq!((m.id, m.connected, m.value), (1, true, 900));
}
