use bke_ccl::geometry::Dimensions;
use bke_ccl::error::PipelineError;
use bke_ccl::layout::{first_difference, labels_from_bytes, uniform_bytes};

#[test]
fn uniform_record_is_sixteen_bytes_of_machine_words() {
    let bytes = uniform_bytes(&Dimensions::new(640, 480));
    let mut expected = Vec::new();
    for word in [640u32, 480, 0, 0] {
        expected.extend_from_slice(&word.to_ne_bytes());
    }
    assert_eq!(bytes.len(), 16);
    assert_eq!(bytes, expected);
    let little: Vec<u8> = vec![0x80, 2, 0, 0, 0xe0, 1, 0, 0, 0, 0, 0, 0, 0, 0, 0, 0];
    let big: Vec<u8> = vec![0, 0, 2, 0x80, 0, 0, 1, 0xe0, 0, 0, 0, 0, 0, 0, 0, 0];
    assert!(bytes == little || bytes == big);
}

#[test]
fn labels_are_read_back_as_machine_words() {
    let labels: [u32; 6] = [1, 0, 3, 258, 65536, u32::MAX];
    let mut bytes = Vec::new();
    for label in labels {
        bytes.extend_from_slice(&label.to_ne_bytes());
    }
    let read = labels_from_bytes(&Dimensions::new(3, 2), &bytes);
    assert_eq!(read, Ok(labels.to_vec()));
}

#[test]
fn readback_works_at_any_alignment() {
    let mut bytes = vec![0xffu8];
    for label in [7u32, 9] {
        bytes.extend_from_slice(&label.to_ne_bytes());
    }
    assert_eq!(labels_from_bytes(&Dimensions::new(2, 1), &bytes[1..]), Ok(vec![7, 9]));
}

#[test]
fn readback_of_the_wrong_length_is_rejected() {
    let dims = Dimensions::new(2, 2);
    assert_eq!(labels_from_bytes(&dims, &[0; 15]), Err(PipelineError::ReadbackLength));
    assert_eq!(labels_from_bytes(&dims, &[0; 12]), Err(PipelineError::ReadbackLength));
    assert_eq!(labels_from_bytes(&dims, &[0; 20]), Err(PipelineError::ReadbackLength));
    assert_eq!(labels_from_bytes(&dims, &[]), Err(PipelineError::ReadbackLength));
    assert_eq!(labels_from_bytes(&dims, &[0; 16]), Ok(vec![0; 4]));
    assert_eq!(labels_from_bytes(&Dimensions::new(0, 7), &[]), Ok(vec![]));
}

#[test]
fn equal_buffers_have_no_difference() {
    assert_eq!(first_difference(&[1, 0, 3], &[1, 0, 3]), None);
    assert_eq!(first_difference(&[], &[]), None);
}

#[test]
fn first_difference_is_the_least_position() {
    assert_eq!(first_difference(&[1, 0, 3, 4], &[1, 0, 5, 6]), Some(2));
    assert_eq!(first_difference(&[9], &[8]), Some(0));
}

#[test]
fn a_buffer_that_ends_early_differs_at_its_end() {
    assert_eq!(first_difference(&[1, 2, 3], &[1, 2]), Some(2));
    assert_eq!(first_difference(&[1, 2], &[1, 2, 3]), Some(2));
    assert_eq!(first_difference(&[], &[0]), Some(0));
}
