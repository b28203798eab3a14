use vandalize::naming::{decimal_width, file_name};
use vandalize::random::{draw_bytes, draw_offsets};
use vandalize::{
    every, substitute, vandalize, vandalize_bytes, vandalize_data, OutputPlan, Source, Strategy,
    VandalizeError,
};

fn abcd() -> Source {
    Source::new("abcd".to_string(), "bin".to_string(), vec![0x41, 0x42, 0x43, 0x44])
}

fn differing_offsets(a: &[u8], b: &[u8]) -> Vec<usize> {
    assert_eq!(a.len(), b.len());
    (0..a.len()).filter(|&k| a[k] != b[k]).collect()
}

#[test]
fn every_mode_stride_one_on_abcd() {
    let source = abcd();
    let plan = every(&source, 1).unwrap();
    assert_eq!(plan.count, 4);
    assert_eq!(plan.width, 1);
    let copy = plan.copy(&source, 2);
    assert_eq!(copy.file_name, "abcd_v2.bin");
    assert_eq!(copy.data.len(), 4);
    assert_eq!(copy.data[0], 0x41);
    assert_eq!(copy.data[1], 0x42);
    assert_eq!(copy.data[3], 0x44);
    for i in 0..4 {
        let copy = plan.copy(&source, i);
        assert_eq!(copy.file_name, format!("abcd_v{}.bin", i));
        let diff = differing_offsets(&source.data, &copy.data);
        assert!(diff.is_empty() || diff == vec![i]);
    }
}

#[test]
fn random_mode_three_copies_of_abcd() {
    let source = abcd();
    let plan = vandalize(&source, 3).unwrap();
    assert_eq!(plan.count, 3);
    assert_eq!(plan.width, 1);
    assert_eq!(plan.strategy, Strategy::Random);
    let names: Vec<String> = (0..3).map(|i| plan.copy(&source, i).file_name).collect();
    assert_eq!(names, vec!["abcd_v0.bin", "abcd_v1.bin", "abcd_v2.bin"]);
    for i in 0..3 {
        let copy = plan.copy(&source, i);
        assert_eq!(copy.data.len(), 4);
        assert!(differing_offsets(&source.data, &copy.data).len() <= 1);
    }
}

#[test]
fn stride_zero_is_rejected() {
    assert_eq!(every(&abcd(), 0), Err(VandalizeError::InvalidArgument));
}

#[test]
fn random_mode_on_empty_source_fails() {
    let empty = Source::new("e".to_string(), "bin".to_string(), vec![]);
    assert_eq!(vandalize(&empty, 1), Err(VandalizeError::InvalidRange));
    assert_eq!(vandalize(&empty, 5), Err(VandalizeError::InvalidRange));
}

#[test]
fn every_mode_on_empty_source_makes_nothing() {
    let empty = Source::new("e".to_string(), "bin".to_string(), vec![]);
    for stride in [1usize, 2, 7] {
        let plan = every(&empty, stride).unwrap();
        assert_eq!(plan.count, 0);
    }
}

#[test]
fn random_mode_zero_copies_is_a_no_op() {
    let plan = vandalize(&abcd(), 0).unwrap();
    assert_eq!(plan.count, 0);
}

#[test]
fn every_mode_stride_larger_than_source() {
    let plan = every(&abcd(), 5).unwrap();
    assert_eq!(plan.count, 0);
}

#[test]
fn every_mode_stride_two() {
    let source = Source::new("f".to_string(), "dat".to_string(), vec![1, 2, 3, 4, 5]);
    let plan = every(&source, 2).unwrap();
    assert_eq!(plan.count, 2);
    assert_eq!(plan.index(0), 0);
    assert_eq!(plan.index(1), 2);
    let copy = plan.copy(&source, 1);
    assert_eq!(copy.file_name, "f_v2.dat");
    let diff = differing_offsets(&source.data, &copy.data);
    assert!(diff.is_empty() || diff == vec![2]);
}

#[test]
fn every_mode_names_use_offsets_not_counter() {
    let source = Source::new("x".to_string(), "bin".to_string(), vec![0u8; 200]);
    let plan = every(&source, 20).unwrap();
    assert_eq!(plan.count, 10);
    assert_eq!(plan.width, 2);
    assert_eq!(plan.copy(&source, 0).file_name, "x_v00.bin");
    assert_eq!(plan.copy(&source, 1).file_name, "x_v20.bin");
    assert_eq!(plan.copy(&source, 9).file_name, "x_v180.bin");
}

#[test]
fn every_mode_covers_each_offset_of_a_long_file() {
    let source = Source::new("long".to_string(), "raw".to_string(), (0..=255u8).collect());
    let plan = every(&source, 1).unwrap();
    assert_eq!(plan.count, 256);
    assert_eq!(plan.width, 3);
    for i in 0..256 {
        assert_eq!(plan.index(i), i);
    }
    assert_eq!(plan.copy(&source, 7).file_name, "long_v007.raw");
}

#[test]
fn random_mode_names_padded_to_count_width() {
    let source = abcd();
    let plan = vandalize(&source, 12).unwrap();
    assert_eq!(plan.width, 2);
    assert_eq!(plan.copy(&source, 3).file_name, "abcd_v03.bin");
    assert_eq!(plan.copy(&source, 11).file_name, "abcd_v11.bin");
}

#[test]
fn random_mode_offsets_stay_within_source() {
    let source = Source::new("s".to_string(), "bin".to_string(), vec![0u8; 3]);
    let plan = vandalize(&source, 200).unwrap();
    for i in 0..200 {
        let copy = plan.copy(&source, i);
        assert_eq!(copy.data.len(), 3);
        assert!(differing_offsets(&source.data, &copy.data).len() <= 1);
    }
}

#[test]
fn random_mode_over_many_copies_hits_several_offsets() {
    let source = Source::new("s".to_string(), "bin".to_string(), vec![0u8; 4]);
    let plan = vandalize(&source, 400).unwrap();
    let mut hit = [false; 4];
    for i in 0..400 {
        for k in differing_offsets(&source.data, &plan.copy(&source, i).data) {
            hit[k] = true;
        }
    }
    assert!(hit.iter().filter(|&&h| h).count() >= 2);
}

#[test]
fn substitute_replaces_listed_offsets() {
    let out = substitute(&[1, 2, 3, 4, 5], &[1, 3], &[9, 8]);
    assert_eq!(out, vec![1, 9, 3, 8, 5]);
}

#[test]
fn substitute_first_and_last_byte() {
    let out = substitute(&[1, 2, 3], &[0, 2], &[7, 6]);
    assert_eq!(out, vec![7, 2, 6]);
}

#[test]
fn substitute_duplicate_offset_keeps_later_byte() {
    let out = substitute(&[1, 2, 3], &[1, 1], &[7, 6]);
    assert_eq!(out, vec![1, 6, 3]);
}

#[test]
fn substitute_without_offsets_copies() {
    assert_eq!(substitute(&[4, 5, 6], &[], &[]), vec![4, 5, 6]);
    assert_eq!(substitute(&[], &[], &[]), Vec::<u8>::new());
}

#[test]
fn vandalize_bytes_keeps_length_and_unlisted_bytes() {
    let data: Vec<u8> = (10..30).collect();
    let out = vandalize_bytes(&data, &[0, 5, 5, 19]).unwrap();
    assert_eq!(out.len(), data.len());
    for k in differing_offsets(&data, &out) {
        assert!([0, 5, 19].contains(&k));
    }
}

#[test]
fn vandalize_bytes_out_of_range() {
    assert_eq!(vandalize_bytes(&[1, 2, 3], &[1, 3]), Err(VandalizeError::PositionOutOfRange));
    assert_eq!(vandalize_bytes(&[], &[0]), Err(VandalizeError::PositionOutOfRange));
}

#[test]
fn listed_bytes_change_about_as_often_as_chance_allows() {
    let data = vec![0u8; 64];
    let positions: Vec<usize> = (0..64).collect();
    let mut unchanged = 0;
    for _ in 0..16 {
        let out = vandalize_bytes(&data, &positions).unwrap();
        unchanged += out.iter().filter(|&&b| b == 0).count();
    }
    assert!(unchanged < 64);
}

#[test]
fn vandalize_data_on_empty() {
    assert_eq!(vandalize_data(&[], 1), Err(VandalizeError::InvalidRange));
    assert_eq!(vandalize_data(&[], 0), Ok(vec![]));
}

#[test]
fn vandalize_data_breaks_at_most_the_asked_bytes() {
    let data: Vec<u8> = (0..50).collect();
    for k in [0usize, 1, 3, 60] {
        let out = vandalize_data(&data, k).unwrap();
        assert_eq!(out.len(), data.len());
        assert!(differing_offsets(&data, &out).len() <= k);
    }
    assert_eq!(vandalize_data(&data, 0).unwrap(), data);
}

#[test]
fn draw_offsets_are_sorted_and_in_range() {
    let offsets = draw_offsets(5, 100);
    assert_eq!(offsets.len(), 100);
    assert!(offsets.iter().all(|&p| p < 5));
    assert!(offsets.windows(2).all(|w| w[0] <= w[1]));
    assert!(draw_offsets(0, 0).is_empty());
}

#[test]
fn draw_bytes_gives_the_count() {
    assert_eq!(draw_bytes(0).len(), 0);
    let bytes = draw_bytes(256);
    assert_eq!(bytes.len(), 256);
    assert!(bytes.iter().any(|&b| b != bytes[0]));
}

#[test]
fn decimal_width_values() {
    assert_eq!(decimal_width(0), 1);
    assert_eq!(decimal_width(9), 1);
    assert_eq!(decimal_width(10), 2);
    assert_eq!(decimal_width(99), 2);
    assert_eq!(decimal_width(100), 3);
    assert_eq!(decimal_width(usize::MAX), usize::MAX.to_string().len());
}

#[test]
fn file_name_pads_with_zeros() {
    assert_eq!(file_name("img", 7, 3, "png"), "img_v007.png");
    assert_eq!(file_name("img", 0, 1, "png"), "img_v0.png");
    assert_eq!(file_name("img", 1234, 2, "png"), "img_v1234.png");
    assert_eq!(file_name("a.b", 42, 0, ""), "a.b_v42.");
    assert_eq!(file_name("img", usize::MAX, 0, "x"), format!("img_v{}.x", usize::MAX));
}

#[test]
fn source_len_counts_bytes() {
    assert_eq!(abcd().len(), 4);
    let empty = Source::new("e".to_string(), "x".to_string(), vec![]);
    assert_eq!(empty.len(), 0);
}

#[test]
fn plan_equality_reflects_fields() {
    let a: OutputPlan = every(&abcd(), 2).unwrap();
    let b: OutputPlan = every(&abcd(), 2).unwrap();
    assert_eq!(a, b);
    assert_eq!(a.strategy, Strategy::Every { stride: 2 });
    assert_eq!(a.source_len, 4);
}
