use mxd_bar::sensor::capture::{frame_is_blank, BgraFrame};
use mxd_bar::sensor::digits::{read_exp_value, read_exp_value_native, synth_value_frame};
use mxd_bar::sensor::sampler::{probe_frame, Probe};

fn blank(w: i32, h: i32) -> BgraFrame {
    let mut px = vec![40u8; w as usize * h as usize * 4];
    for p in px.chunks_exact_mut(4) {
        p[3] = 255;
    }
    BgraFrame { w, h, pixels: px }
}

#[test]
fn reads_synthesized_value_region() {
    let cases = [
        ("527819", 756),
        ("1200", 758),
        ("38", 752),
        ("7", 761),
        ("700000", 757),
        ("9999999", 758),
        ("0", 758),
        ("1", 751),
    ];
    for (s, gx) in cases {
        let want = s.parse::<i64>().unwrap();
        let got = read_exp_value(&synth_value_frame(s.as_bytes(), gx, 900, 800));
        assert_eq!(got, Some(want), "{s} at gx0={gx}");
    }
}

#[test]
fn absorbs_anchor_drift_within_search_window() {
    for gx in 751..=762 {
        let got = read_exp_value(&synth_value_frame(b"527819", gx, 900, 800));
        assert_eq!(got, Some(527_819), "gx0={gx}");
    }
}

#[test]
fn geometry_guard_returns_none() {
    assert_eq!(read_exp_value(&blank(830, 800)), None);
    assert_eq!(read_exp_value(&blank(900, 770)), None);
    assert_eq!(read_exp_value(&blank(900, 800)), None);
}

#[test]
fn synth_frame_pixels_follow_templates() {
    let f = synth_value_frame(b"1", 751, 900, 800);
    assert_eq!(f.pixels.len(), 900 * 800 * 4);
    // Background pixel, and alpha everywhere.
    assert_eq!(&f.pixels[0..4], &[40, 40, 40, 255]);
    let ink = f.pixels.chunks_exact(4).filter(|p| p[0] == 240).count();
    assert!(ink > 0);
    assert_eq!(read_exp_value_native(&f), Some(1));
}

#[test]
fn blank_frame_probe_is_blank() {
    // An all-black capture (what a blocked PrintWindow gives).
    let f = BgraFrame { w: 900, h: 800, pixels: vec![0u8; 900 * 800 * 4] };
    assert!(frame_is_blank(&f));
    assert_eq!(probe_frame(&f, true), Probe::Blank { minimized: true });
    // The grey synthetic background is not blank: the sampled bytes include alpha.
    assert!(!frame_is_blank(&blank(900, 800)));
    let g = synth_value_frame(b"4321", 756, 900, 800);
    assert!(!frame_is_blank(&g));
    assert_eq!(probe_frame(&g, false), Probe::Read(4321));
}
