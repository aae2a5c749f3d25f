use mandelbrot::emit::{encode_image, encoder_outcome, EmitError};
use mandelbrot::grid::TileGrid;

fn decode(bytes: &[u8]) -> (u32, u32, png::ColorType, png::BitDepth, Vec<u8>) {
    let decoder = png::Decoder::new(bytes);
    let mut reader = decoder.read_info().unwrap();
    let mut pixels = vec![0u8; reader.output_buffer_size()];
    let info = reader.next_frame(&mut pixels).unwrap();
    pixels.truncate(info.buffer_size());
    (info.width, info.height, info.color_type, info.bit_depth, pixels)
}

#[test]
fn encode_image_refuses_zero_width() {
    assert_eq!(encode_image(0, 4, &Vec::new()), Err(EmitError::EmptyImage));
}

#[test]
fn encode_image_refuses_zero_height() {
    assert_eq!(encode_image(4, 0, &Vec::new()), Err(EmitError::EmptyImage));
}

#[test]
fn encode_image_refuses_a_short_buffer() {
    assert_eq!(encode_image(2, 2, &vec![1, 2, 3]), Err(EmitError::BufferLength));
}

#[test]
fn encode_image_refuses_a_long_buffer() {
    assert_eq!(encode_image(2, 2, &vec![1, 2, 3, 4, 5]), Err(EmitError::BufferLength));
}

#[test]
fn encode_image_writes_a_png_stream() {
    let pixels = vec![0u8, 64, 128, 255, 1, 2];
    let bytes = encode_image(3, 2, &pixels).unwrap();
    assert_ne!(bytes, pixels);
    assert_eq!(&bytes[..8], &[137u8, 80, 78, 71, 13, 10, 26, 10]);
    assert_eq!(&bytes[bytes.len() - 8..bytes.len() - 4], b"IEND");
}

#[test]
fn encode_image_round_trips_through_the_decoder() {
    let pixels = vec![0u8, 64, 128, 255, 1, 2];
    let bytes = encode_image(3, 2, &pixels).unwrap();
    let (width, height, color, depth, decoded) = decode(&bytes);
    assert_eq!((width, height), (3, 2));
    assert!(matches!(color, png::ColorType::Grayscale));
    assert!(matches!(depth, png::BitDepth::Eight));
    assert_eq!(decoded, pixels);
}

#[test]
fn encode_image_is_repeatable() {
    let pixels = vec![7u8; 64];
    assert_eq!(encode_image(8, 8, &pixels), encode_image(8, 8, &pixels));
}

#[test]
fn rendered_buffer_is_accepted_by_the_encoder() {
    let g = TileGrid::new(6, 4, 3, 2).unwrap();
    let buf = g.render(&|row: u32, col: u32| (40 * row + col) as u8);
    let bytes = encode_image(6, 4, &buf).unwrap();
    let (width, height, _, _, decoded) = decode(&bytes);
    assert_eq!((width, height), (6, 4));
    assert_eq!(decoded, buf);
}

#[test]
fn encoder_outcome_hands_the_stream_on() {
    assert_eq!(encoder_outcome(Ok(vec![1, 2, 3])), Ok(vec![1, 2, 3]));
}

#[test]
fn encoder_outcome_maps_every_encoder_error() {
    assert_eq!(encoder_outcome(Err(png::EncodingError::LimitsExceeded)), Err(EmitError::Encoder));
}
