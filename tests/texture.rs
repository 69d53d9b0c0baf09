use rtw::{DiffuseLight, ImageTexture};

fn grid() -> Vec<Vec<u32>> {
    // three columns of two rows: value 10 * x + y
    (0..3).map(|x| (0..2).map(|y| 10 * x + y).collect()).collect()
}

#[test]
fn image_texture_dimensions() {
    let t = ImageTexture::new(grid());
    assert_eq!(t.width(), 3);
    assert_eq!(t.height(), 2);
}

#[test]
fn image_texture_nearest_pixel() {
    let t = ImageTexture::new(grid());
    assert_eq!(t.texel(0, 0), 0);
    assert_eq!(t.texel(2, 1), 21);
    assert_eq!(t.texel(1, 0), 10);
}

#[test]
fn image_texture_clamps_to_grid() {
    let t = ImageTexture::new(grid());
    assert_eq!(t.texel(3, 0), 20);
    assert_eq!(t.texel(0, 2), 1);
    assert_eq!(t.texel(usize::MAX, usize::MAX), 21);
}

#[test]
fn diffuse_light_keeps_its_texture() {
    let light = DiffuseLight::new(7u32);
    assert_eq!(light.emit, 7);
}
