use imageutil::canvas::Canvas;
use imageutil::gradiation::{linear_gradient, linear_gradient_copy, GeometryError, Gradiation};
use imageutil::util::{mix_channel_exec, Color, Mixer};

fn rgba(r: u8, g: u8, b: u8, a: u8) -> Color {
    Color::new(vec![r, g, b, a])
}

fn pixel(c: &Canvas, x: u32, y: u32) -> Vec<u8> {
    c.get_pixel(x, y).channels
}

#[test]
fn mixer_boundary_returns_endpoints() {
    let c1 = rgba(10, 20, 30, 40);
    let c2 = rgba(200, 100, 50, 0);
    let mixer = Mixer::new(&c1, &c2);
    assert_eq!(mixer.at(0, 255).channels, vec![10, 20, 30, 40]);
    assert_eq!(mixer.at(255, 255).channels, vec![200, 100, 50, 0]);
    assert_eq!(mixer.at(7, 7).channels, vec![200, 100, 50, 0]);
}

#[test]
fn mixer_midpoint_truncates() {
    let c1 = rgba(0, 255, 10, 100);
    let c2 = rgba(255, 0, 11, 101);
    let mixer = Mixer::new(&c1, &c2);
    // halfway both ways: 127.5 truncates to 127, upward and downward alike
    assert_eq!(mixer.at(1, 2).channels, vec![127, 127, 10, 100]);
}

#[test]
fn mixer_stays_between_inputs() {
    let c1 = rgba(10, 240, 0, 255);
    let c2 = rgba(90, 20, 255, 0);
    let mixer = Mixer::new(&c1, &c2);
    for num in 0..=100u64 {
        let m = mixer.at(num, 100);
        for i in 0..4 {
            let lo = c1.channels[i].min(c2.channels[i]);
            let hi = c1.channels[i].max(c2.channels[i]);
            assert!(lo <= m.channels[i] && m.channels[i] <= hi);
        }
    }
}

#[test]
fn mixer_saturates_beyond_one() {
    // position 2: 0 + (200 - 0) * 2 = 400, saturating to 255
    assert_eq!(mix_channel_exec(0, 200, 2, 1), 255);
    // position 2 downward: 200 + (0 - 200) * 2 = -200, saturating to 0
    assert_eq!(mix_channel_exec(200, 0, 2, 1), 0);
}

#[test]
fn gradient_corners() {
    let bg = rgba(0, 0, 0, 0);
    let mut canvas = Canvas::new(100, 100, &bg).unwrap();
    let g = Gradiation {
        start_color: rgba(0, 0, 255, 255),
        end_color: rgba(255, 255, 255, 255),
        start_point: (0, 0),
        end_point: (100, 100),
    };
    linear_gradient(&mut canvas, &g).unwrap();
    assert_eq!(pixel(&canvas, 0, 0), vec![0, 0, 255, 255]);
    // far corner: position (99/100 + 99/100) / 2; 255 * 19800 / 20000 = 252
    assert_eq!(pixel(&canvas, 99, 99), vec![252, 252, 255, 255]);
}

#[test]
fn gradient_clamps_end_point_to_canvas() {
    let bg = rgba(9, 9, 9, 9);
    let g1 = Gradiation {
        start_color: rgba(0, 0, 255, 255),
        end_color: rgba(255, 0, 0, 255),
        start_point: (0, 0),
        end_point: (250, 177),
    };
    let g2 = Gradiation {
        start_color: rgba(0, 0, 255, 255),
        end_color: rgba(255, 0, 0, 255),
        start_point: (0, 0),
        end_point: (40, 30),
    };
    let mut c1 = Canvas::new(40, 30, &bg).unwrap();
    let mut c2 = Canvas::new(40, 30, &bg).unwrap();
    linear_gradient(&mut c1, &g1).unwrap();
    linear_gradient(&mut c2, &g2).unwrap();
    for y in 0..30 {
        for x in 0..40 {
            assert_eq!(pixel(&c1, x, y), pixel(&c2, x, y));
        }
    }
}

#[test]
fn gradient_end_before_start_is_geometry_error() {
    let bg = rgba(1, 2, 3, 4);
    let mut canvas = Canvas::new(20, 20, &bg).unwrap();
    let g = Gradiation {
        start_color: rgba(0, 0, 0, 255),
        end_color: rgba(255, 255, 255, 255),
        start_point: (15, 15),
        end_point: (5, 5),
    };
    assert_eq!(linear_gradient(&mut canvas, &g), Err(GeometryError));
    for y in 0..20 {
        for x in 0..20 {
            assert_eq!(pixel(&canvas, x, y), vec![1, 2, 3, 4]);
        }
    }
}

#[test]
fn gradient_copy_leaves_original_untouched() {
    let bg = rgba(7, 7, 7, 7);
    let canvas = Canvas::new(10, 10, &bg).unwrap();
    let g = Gradiation {
        start_color: rgba(0, 0, 0, 255),
        end_color: rgba(200, 100, 50, 255),
        start_point: (0, 0),
        end_point: (10, 10),
    };
    let out = linear_gradient_copy(&canvas, &g).unwrap();
    for y in 0..10 {
        for x in 0..10 {
            assert_eq!(pixel(&canvas, x, y), vec![7, 7, 7, 7]);
        }
    }
    let mut in_place = Canvas::new(10, 10, &bg).unwrap();
    linear_gradient(&mut in_place, &g).unwrap();
    for y in 0..10 {
        for x in 0..10 {
            assert_eq!(pixel(&out, x, y), pixel(&in_place, x, y));
        }
    }
}

#[test]
fn gradient_end_to_end_scenario() {
    // 100 by 100, blue to white across the whole canvas: the center pixel
    // sits within 2 of (127, 127, 255, 255)
    let bg = rgba(0, 0, 0, 0);
    let mut canvas = Canvas::new(100, 100, &bg).unwrap();
    let g = Gradiation {
        start_color: rgba(0, 0, 255, 255),
        end_color: rgba(255, 255, 255, 255),
        start_point: (0, 0),
        end_point: (100, 100),
    };
    linear_gradient(&mut canvas, &g).unwrap();
    let p = pixel(&canvas, 50, 50);
    let expect = [127i32, 127, 255, 255];
    for i in 0..4 {
        assert!((p[i] as i32 - expect[i]).abs() <= 2, "channel {} was {}", i, p[i]);
    }
}
