use lut_rs::clamp_and_scale;
use lut_rs::lut::{is_cube_of, Lut};

fn corners() -> Vec<[u8; 3]> {
    vec![
        [b'A', 0, 0],
        [b'B', 0, 0],
        [b'C', 0, 0],
        [b'D', 0, 0],
        [b'E', 0, 0],
        [b'F', 0, 0],
        [b'G', 0, 0],
        [b'H', 0, 0],
    ]
}

#[test]
fn channels_fall_into_the_nearest_of_two_bins() {
    assert_eq!(clamp_and_scale(0, 2), 0);
    assert_eq!(clamp_and_scale(255, 2), 1);
    assert_eq!(clamp_and_scale(127, 2), 0);
    assert_eq!(clamp_and_scale(128, 2), 1);
}

#[test]
fn channels_fall_into_the_nearest_bin() {
    // 64 / 255 * 32 = 8.03, 100 / 255 * 32 = 12.55
    assert_eq!(clamp_and_scale(64, 33), 8);
    assert_eq!(clamp_and_scale(100, 33), 13);
    assert_eq!(clamp_and_scale(255, 33), 32);
    // 1 / 255 * 2 = 0.008, 63 / 255 * 2 = 0.494, 64 / 255 * 2 = 0.502
    assert_eq!(clamp_and_scale(63, 3), 0);
    assert_eq!(clamp_and_scale(64, 3), 1);
    assert_eq!(clamp_and_scale(191, 3), 1);
    assert_eq!(clamp_and_scale(192, 3), 2);
}

#[test]
fn quantization_agrees_with_binary_floating_point() {
    for size in [1usize, 2, 3, 4, 5, 16, 17, 32, 33, 64, 65, 128, 255, 256, 257, 1000] {
        for value in 0..=255u8 {
            let expected =
                ((value as f32 / 255.0 * (size as f32 - 1.0)).round() as u32).min(size as u32 - 1);
            assert_eq!(clamp_and_scale(value, size), expected as usize, "{} of {}", value, size);
        }
    }
}

#[test]
fn a_single_bin_takes_every_value() {
    for value in 0..=255u8 {
        assert_eq!(clamp_and_scale(value, 1), 0);
    }
}

#[test]
fn the_ends_of_the_range_map_to_the_ends_of_the_axis() {
    for size in [1usize, 2, 7, 33, 65, 4096, usize::MAX] {
        assert_eq!(clamp_and_scale(0, size), 0);
        assert_eq!(clamp_and_scale(255, size), size - 1);
    }
}

#[test]
fn every_value_has_its_own_bin_among_256() {
    for value in 0..=255u8 {
        assert_eq!(clamp_and_scale(value, 256), value as usize);
    }
}

#[test]
fn red_varies_fastest_then_green_then_blue() {
    let lut = Lut::new(corners());
    assert!(lut.is_well_formed());
    assert_eq!(lut.apply_to_color([0, 0, 0])[0], b'A');
    assert_eq!(lut.apply_to_color([255, 0, 0])[0], b'B');
    assert_eq!(lut.apply_to_color([0, 255, 0])[0], b'C');
    assert_eq!(lut.apply_to_color([255, 255, 0])[0], b'D');
    assert_eq!(lut.apply_to_color([0, 0, 255])[0], b'E');
    assert_eq!(lut.apply_to_color([255, 0, 255])[0], b'F');
    assert_eq!(lut.apply_to_color([0, 255, 255])[0], b'G');
    assert_eq!(lut.apply_to_color([255, 255, 255])[0], b'H');
    assert_eq!(lut.apply_to_color([200, 100, 50])[0], b'B');
    assert_eq!(lut.apply_to_color([127, 128, 127])[0], b'C');
}

#[test]
fn a_table_quantizes_with_its_own_edge() {
    let lut = Lut::new(corners());
    assert_eq!(lut.clamp_and_scale(0), 0);
    assert_eq!(lut.clamp_and_scale(127), 0);
    assert_eq!(lut.clamp_and_scale(128), 1);
    assert_eq!(lut.clamp_and_scale(255), 1);
    let lut = Lut::new(vec![[0, 0, 0]; 27]);
    assert_eq!(lut.clamp_and_scale(64), 1);
    assert_eq!(lut.clamp_and_scale(255), 2);
}

#[test]
fn a_table_of_one_entry_maps_everything_to_it() {
    let lut = Lut::new(vec![[1, 2, 3]]);
    assert!(lut.is_well_formed());
    assert_eq!(lut.apply_to_color([0, 0, 0]), [1, 2, 3]);
    assert_eq!(lut.apply_to_color([255, 128, 7]), [1, 2, 3]);
}

#[test]
fn a_table_is_well_formed_when_its_length_is_a_cube() {
    for edge in 1..=12usize {
        assert!(Lut::new(vec![[0, 0, 0]; edge * edge * edge]).is_well_formed());
    }
    for count in [0usize, 2, 3, 4, 7, 9, 26, 28, 63, 65, 100, 999, 1001] {
        assert!(!Lut::new(vec![[0, 0, 0]; count]).is_well_formed(), "{}", count);
    }
}

#[test]
fn the_edge_is_the_nearest_cube_root() {
    // Between 2^3 = 8 and 3^3 = 27 the cube root passes 2.5 at 15.625.
    for (count, edge) in [(8usize, 2usize), (15, 2), (16, 3), (27, 3), (42, 3), (43, 4), (64, 4)] {
        let lut = Lut::new(vec![[0, 0, 0]; count]);
        // The last bin along an axis is the edge less one.
        assert_eq!(lut.clamp_and_scale(255), edge - 1, "{}", count);
    }
}

#[test]
fn cubes_are_told_from_other_counts() {
    assert!(is_cube_of(0, 0));
    assert!(is_cube_of(1, 1));
    assert!(is_cube_of(8, 2));
    assert!(is_cube_of(35937, 33));
    assert!(is_cube_of(274625, 65));
    assert!(!is_cube_of(7, 2));
    assert!(!is_cube_of(9, 2));
    assert!(!is_cube_of(0, 1));
    assert!(!is_cube_of(1, 0));
    assert!(!is_cube_of(0, usize::MAX));
    assert!(!is_cube_of(usize::MAX, usize::MAX));
    assert!(!is_cube_of(0, 1 << 32));
}

#[test]
fn the_identity_table_gives_every_colour_back() {
    let mut table: Vec<[u8; 3]> = Vec::with_capacity(256 * 256 * 256);
    for blue in 0..=255u8 {
        for green in 0..=255u8 {
            for red in 0..=255u8 {
                table.push([red, green, blue]);
            }
        }
    }
    let lut = Lut::new(table);
    assert!(lut.is_well_formed());
    for color in [[0, 0, 0], [255, 255, 255], [10, 20, 30], [1, 254, 127], [200, 3, 99]] {
        assert_eq!(lut.apply_to_color(color), color);
    }
    for value in 0..=255u8 {
        let color = [value, value.wrapping_mul(7), value.wrapping_add(91)];
        assert_eq!(lut.apply_to_color(color), color);
    }
}
