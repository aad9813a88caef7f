use irb::image::Image;
use irb::Error;

fn bits(x: f32) -> u32 {
    x.to_bits()
}

#[test]
fn new_and_get_round_trip() {
    let data = vec![bits(1.), bits(2.), bits(3.), bits(4.)];
    let image = Image::new(data.clone(), 2, 2).unwrap();
    assert_eq!(2, image.width());
    assert_eq!(2, image.height());
    for row in 0..2 {
        for col in 0..2 {
            assert_eq!(Some(data[row * 2 + col]), image.get(col, row));
        }
    }
    assert_eq!(1., f32::from_bits(image.index(0, 0)));
    assert_eq!(2., f32::from_bits(image.index(1, 0)));
    assert_eq!(3., f32::from_bits(image.index(0, 1)));
    assert_eq!(4., f32::from_bits(image.index(1, 1)));
}

#[test]
fn new_wrong_length_fails() {
    assert_eq!(
        Err(Error::ImageLength(0, 1)),
        Image::new(vec![], 1, 1).map(|_| ())
    );
    assert_eq!(
        Err(Error::ImageLength(3, 4)),
        Image::new(vec![1, 2, 3], 2, 2).map(|_| ())
    );
    assert_eq!(
        Err(Error::ImageLength(2, 0)),
        Image::new(vec![1, 2], 0, 5).map(|_| ())
    );
}

#[test]
fn get_out_of_bounds_is_none() {
    let image = Image::new(vec![bits(1.), bits(2.), bits(3.), bits(4.)], 2, 2).unwrap();
    assert_eq!(None, image.get(2, 0));
    assert_eq!(None, image.get(0, 2));
    assert_eq!(None, image.get(2, 2));
}

#[test]
fn empty_image_is_fine() {
    let image = Image::new(vec![], 0, 7).unwrap();
    assert_eq!(0, image.width());
    assert_eq!(7, image.height());
    assert_eq!(None, image.get(0, 0));
}
