use node_detect::error::DetectError;
use node_detect::preprocess::GrayBuffer;
use node_detect::tensor::{image_to_tensor, InputTensor, INTENSITY_MAX};

fn tensor_error(r: Result<InputTensor, DetectError>) -> DetectError {
    match r {
        Ok(_) => panic!("the tensor was built"),
        Err(e) => e,
    }
}

#[test]
fn plane_is_repeated_for_each_channel() {
    let img = GrayBuffer::new(3, 2, vec![0, 51, 102, 153, 204, 255]).unwrap();
    let t = image_to_tensor(&img, 3).unwrap();
    assert_eq!(t.shape(), [1, 3, 2, 3]);
    assert_eq!((t.channels, t.height, t.width), (3, 2, 3));
    assert_eq!(
        t.data,
        vec![0, 51, 102, 153, 204, 255, 0, 51, 102, 153, 204, 255, 0, 51, 102, 153, 204, 255]
    );
    let one = image_to_tensor(&img, 1).unwrap();
    assert_eq!(one.shape(), [1, 1, 2, 3]);
    assert_eq!(one.data, img.pixels);
}

#[test]
fn intensities_divide_to_the_unit_interval() {
    assert_eq!(INTENSITY_MAX, 255);
    let img = GrayBuffer::new(3, 1, vec![0, 51, 255]).unwrap();
    let t = image_to_tensor(&img, 2).unwrap();
    let values: Vec<f32> = t.data.iter().map(|&p| p as f32 / INTENSITY_MAX as f32).collect();
    assert_eq!(values, vec![0.0, 0.2, 1.0, 0.0, 0.2, 1.0]);
}

#[test]
fn no_channel_is_refused() {
    let img = GrayBuffer::new(3, 2, vec![0; 6]).unwrap();
    for channels in [0, -1, i64::MIN] {
        assert_eq!(tensor_error(image_to_tensor(&img, channels)), DetectError::Channel);
    }
}

#[test]
fn empty_image_gives_an_empty_tensor() {
    let img = GrayBuffer::new(0, 0, vec![]).unwrap();
    let t = image_to_tensor(&img, 4).unwrap();
    assert_eq!(t.shape(), [1, 4, 0, 0]);
    assert!(t.data.is_empty());
}
