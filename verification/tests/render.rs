use openpbr::render::{poll, Config, RenderStatus};
use RenderStatus::{Done, Finished, Running};

fn config(width: usize, height: usize) -> Config {
    Config {
        width,
        height,
        samples: 16,
        bounces: 4,
    }
}

#[test]
fn pixel_count_is_width_times_height() {
    assert_eq!(config(512, 512).pixel_count(), 262_144);
    assert_eq!(config(3, 2).pixel_count(), 6);
    assert_eq!(config(0, 7).pixel_count(), 0);
}

#[test]
fn pixel_offset_is_row_major() {
    let c = config(4, 3);
    assert_eq!(c.pixel_offset(0, 0), 0);
    assert_eq!(c.pixel_offset(3, 0), 3);
    assert_eq!(c.pixel_offset(0, 1), 4);
    assert_eq!(c.pixel_offset(2, 2), 10);
    assert_eq!(c.pixel_offset(3, 2), 11);
}

#[test]
fn scan_order_fills_buffer_once() {
    let c = config(5, 3);
    let mut seen = vec![0; c.pixel_count()];
    let mut expected = 0;
    for y in 0..c.height {
        for x in 0..c.width {
            let offset = c.pixel_offset(x, y);
            assert_eq!(offset, expected);
            seen[offset] += 1;
            expected += 1;
        }
    }
    assert!(seen.iter().all(|&n| n == 1));
}

#[test]
fn config_clone_keeps_settings() {
    let c = config(64, 32).clone();
    assert_eq!((c.width, c.height, c.samples, c.bounces), (64, 32, 16, 4));
}

#[test]
fn poll_collects_finished_renders_in_order() {
    let actions = poll(&[Done, Finished, Running, Finished, Done]);
    assert_eq!(actions.collect, vec![1, 3]);
    assert!(actions.repaint);
}

#[test]
fn poll_stops_repainting_when_nothing_runs() {
    let actions = poll(&[Finished, Done]);
    assert_eq!(actions.collect, vec![0]);
    assert!(!actions.repaint);

    let actions = poll(&[]);
    assert!(actions.collect.is_empty());
    assert!(!actions.repaint);

    let actions = poll(&[Running, Running]);
    assert!(actions.collect.is_empty());
    assert!(actions.repaint);
}
