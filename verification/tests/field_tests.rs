use sanbox::field::{diffuse_samples, keep_newest, resample_nearest, resize_scalar_field, scratch_fill_samples};
use sanbox::frame::{css_rgb, fill_rgba};
use sanbox::noise::coord_hash;

#[test]
fn resample_doubles_each_pixel() {
    let old = [1, 2, 3, 4];
    let r = resample_nearest(&old, 2, 2, 4, 4);
    assert_eq!(r, vec![1, 1, 2, 2, 1, 1, 2, 2, 3, 3, 4, 4, 3, 3, 4, 4]);
}

#[test]
fn resample_shrinks_to_nearest_before() {
    let old = [1, 2, 3, 4, 5, 6];
    assert_eq!(resample_nearest(&old, 3, 2, 2, 1), vec![1, 2]);
    assert_eq!(resample_nearest(&old, 3, 2, 1, 3), vec![1, 1, 4]);
}

#[test]
fn resample_to_same_size_is_identity() {
    let old: Vec<u32> = (0..12).collect();
    assert_eq!(resample_nearest(&old, 4, 3, 4, 3), old);
}

#[test]
fn resize_scalar_field_cases() {
    let old = [0.5f32, 0.25];
    assert!(resize_scalar_field(&old, 2, 1, 0, 3, 0.0).is_empty());
    assert!(resize_scalar_field(&old, 2, 1, 3, 0, 0.0).is_empty());
    assert_eq!(resize_scalar_field(&[], 0, 5, 2, 2, 0.0f32), vec![0.0; 4]);
    assert_eq!(resize_scalar_field(&old, 2, 1, 4, 1, 0.0), vec![0.5, 0.5, 0.25, 0.25]);
}

#[test]
fn keep_newest_drops_oldest() {
    assert_eq!(keep_newest(vec![1, 2, 3, 4, 5], 2), vec![4, 5]);
    assert_eq!(keep_newest(vec![1, 2], 2), vec![1, 2]);
    assert_eq!(keep_newest(vec![1, 2], 0), Vec::<i32>::new());
    assert_eq!(keep_newest(Vec::<i32>::new(), 3), Vec::<i32>::new());
}

#[test]
fn sample_counts_are_clamped() {
    assert_eq!(scratch_fill_samples(0), 48);
    assert_eq!(scratch_fill_samples(520 * 100), 100);
    assert_eq!(scratch_fill_samples(520 * 5000), 1024);
    assert_eq!(diffuse_samples(0, false), 96);
    assert_eq!(diffuse_samples(180 * 200, false), 200);
    assert_eq!(diffuse_samples(180 * 200, true), 600);
    assert_eq!(diffuse_samples(180 * 10_000, false), 3072);
    assert_eq!(diffuse_samples(180 * 10_000, true), 9216);
    assert_eq!(diffuse_samples(180 * 20, true), 96);
}

#[test]
fn coord_hash_values() {
    assert_eq!(coord_hash(0, 0, 0x9E37), 32926);
    assert_eq!(coord_hash(3, 5, 0x7F4A), 45099);
    assert_eq!(coord_hash(11, 7, 0x51ED), 45149);
    for x in 0..50 {
        for y in 0..50 {
            assert!(coord_hash(x, y, 0xC13F) <= 0xffff);
        }
    }
}

#[test]
fn fill_rgba_writes_opaque_pixels() {
    let fb = [Some((1, 2, 3)), None];
    let mut rgba = vec![9u8; 3];
    fill_rgba(&fb, &mut rgba);
    assert_eq!(rgba, vec![1, 2, 3, 255, 96, 72, 50, 255]);
    let mut long = vec![7u8; 20];
    fill_rgba(&fb[..1], &mut long);
    assert_eq!(long, vec![1, 2, 3, 255]);
    let mut exact = vec![0u8; 4];
    fill_rgba(&fb[1..], &mut exact);
    assert_eq!(exact, vec![96, 72, 50, 255]);
}

#[test]
fn css_rgb_of_background() {
    assert_eq!(String::from_utf8(css_rgb((96, 72, 50))).unwrap(), "rgb(96, 72, 50)");
    assert_eq!(String::from_utf8(css_rgb((0, 255, 100))).unwrap(), "rgb(0, 255, 100)");
}
