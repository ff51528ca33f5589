use raytracer::bvh::BoxKey;
use raytracer::integrator::{bounce, Bounce, MAX_DEPTH};
use raytracer::key::order_key;
use raytracer::plan::{pixel_at, samples_per_worker};
use raytracer::ppm::ppm_text;

#[test]
fn order_key_follows_float_order() {
    let values = [-1.0e30f32, -2.5, -1.0, -0.0, 0.0, 1.0e-40, 0.5, 1.0, 3.0, 1.0e30];
    for a in values {
        for b in values {
            let ka = order_key(a.to_bits()).unwrap();
            let kb = order_key(b.to_bits()).unwrap();
            assert_eq!(ka <= kb, a <= b, "{} {}", a, b);
            assert_eq!(ka == kb, a == b, "{} {}", a, b);
        }
    }
}

#[test]
fn order_key_values() {
    assert_eq!(order_key(1.0f32.to_bits()), Some(0x8000_0000 + 0x3f80_0000));
    assert_eq!(order_key((-1.0f32).to_bits()), Some(0x8000_0000 - 0x3f80_0000));
    assert_eq!(order_key(0.0f32.to_bits()), Some(0x8000_0000));
    assert_eq!(order_key((-0.0f32).to_bits()), Some(0x8000_0000));
    assert_eq!(order_key(f32::INFINITY.to_bits()), Some(0xff80_0000));
    assert_eq!(order_key(f32::NEG_INFINITY.to_bits()), Some(0x0080_0000));
}

#[test]
fn order_key_refuses_nan() {
    assert_eq!(order_key(f32::NAN.to_bits()), None);
    assert_eq!(order_key(0xffc0_0001), None);
    assert_eq!(BoxKey::from_bits(0, f32::NAN.to_bits(), 0), None);
    assert_eq!(
        BoxKey::from_bits(2.0f32.to_bits(), 0, (-2.0f32).to_bits()),
        Some(BoxKey { x: 0xc000_0000, y: 0x8000_0000, z: 0x4000_0000 })
    );
}

#[test]
fn samples_are_split_evenly() {
    assert_eq!(samples_per_worker(100, 1), 100);
    assert_eq!(samples_per_worker(100, 4), 25);
    assert_eq!(samples_per_worker(10, 3), 3);
    assert_eq!(samples_per_worker(2, 3), 0);
}

#[test]
fn pixels_run_from_the_top_row() {
    assert_eq!(pixel_at(0, 4, 3), (0, 2));
    assert_eq!(pixel_at(3, 4, 3), (3, 2));
    assert_eq!(pixel_at(5, 4, 3), (1, 1));
    assert_eq!(pixel_at(11, 4, 3), (3, 0));
}

#[test]
fn paths_are_cut_off_at_the_depth_bound() {
    assert_eq!(MAX_DEPTH, 50);
    assert_eq!(bounce(0, false), Bounce::Sky);
    assert_eq!(bounce(80, false), Bounce::Sky);
    assert_eq!(bounce(0, true), Bounce::Scatter);
    assert_eq!(bounce(49, true), Bounce::Scatter);
    assert_eq!(bounce(50, true), Bounce::Cutoff);
}

#[test]
fn ppm_text_of_two_pixels() {
    let text = ppm_text(&vec![1, 2, 3, 255, 0, 10], 2, 1);
    assert_eq!(String::from_utf8(text).unwrap(), "P3\n2 1\n255\n\n1 2 3 \n255 0 10 \n");
}

#[test]
fn ppm_text_ends_a_partial_pixel() {
    let text = ppm_text(&vec![100, 20, 3, 7], 200, 100);
    assert_eq!(String::from_utf8(text).unwrap(), "P3\n200 100\n255\n\n100 20 3 \n7 \n");
}

#[test]
fn ppm_text_of_no_pixels() {
    let text = ppm_text(&Vec::new(), 0, 0);
    assert_eq!(String::from_utf8(text).unwrap(), "P3\n0 0\n255\n\n");
}
