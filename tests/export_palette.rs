use botpath::export::{
    exported_curves, indices_with_flag, material_for_alpha, rebuild_order, palette_cell, quantize_channel, quantize_color,
    segment_points, PALETTE_STEPS,
};

#[test]
fn quantized_channels() {
    assert_eq!(quantize_channel(0), 0);
    assert_eq!(quantize_channel(7), 0);
    assert_eq!(quantize_channel(8), 1);
    assert_eq!(quantize_channel(255), 31);
    assert_eq!(quantize_color((255, 128, 64, 9)), (31, 16, 8, 1));
    assert_eq!(PALETTE_STEPS, 32);
}

#[test]
fn palette_cells() {
    assert_eq!(palette_cell((0, 0, 0, 0)), (0, 0));
    assert_eq!(palette_cell((31, 31, 31, 31)), (1023, 1023));
    assert_eq!(palette_cell((1, 2, 3, 4)), (65, 131));
}

#[test]
fn material_by_alpha() {
    assert_eq!(material_for_alpha(31), "spline.vmt");
    assert_eq!(material_for_alpha(30), "spline-transparent.vmt");
    assert_eq!(material_for_alpha(0), "spline-transparent.vmt");
}

#[test]
fn bundle_curves_are_not_exported() {
    assert_eq!(exported_curves(&vec![false, true, false]), vec![0, 2]);
    assert_eq!(exported_curves(&vec![true, true]), Vec::<usize>::new());
    assert_eq!(exported_curves(&vec![]), Vec::<usize>::new());
}

#[test]
fn segment_endpoints() {
    assert_eq!(segment_points(0, true, 3), (0, 1));
    assert_eq!(segment_points(1, false, 3), (1, 1));
    assert_eq!(segment_points(2, true, 3), (2, 2));
    assert_eq!(segment_points(2, false, 3), (2, 2));
}

#[test]
fn bundle_curves_are_rebuilt_first() {
    assert_eq!(rebuild_order(&vec![false, true, false, true]), vec![1, 3, 0, 2]);
    assert_eq!(rebuild_order(&vec![false, false]), vec![0, 1]);
    assert_eq!(indices_with_flag(&vec![true, false, true], true), vec![0, 2]);
}
