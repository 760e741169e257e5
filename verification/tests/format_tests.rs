//! Display rendering: the array bracket rule, scalar texts, type labels,
//! the encoding catalog, and the human-readable size and count formats.

use safetensors_explorer::explorer::gguf_tensor_records;
use safetensors_explorer::encode::encode_file;
use safetensors_explorer::ggml::GGMLType;
use safetensors_explorer::gguf::{GGUFFile, GGUFTensorInfo};
use safetensors_explorer::render::{metadata_record, render_display_value, DisplayValue};
use safetensors_explorer::utils::{format_parameters, format_shape, format_size};

#[test]
fn long_array_renders_first_second_ellipsis_last_count() {
    let v = DisplayValue::Array((1..=7).map(DisplayValue::U32).collect());
    assert_eq!(render_display_value(&v), "[1, 2, ..., 7 (7)]");
}

#[test]
fn short_array_renders_every_element() {
    let v = DisplayValue::Array((1..=5).map(DisplayValue::U32).collect());
    assert_eq!(render_display_value(&v), "[1, 2, 3, 4, 5]");
    let empty = DisplayValue::Array(Vec::new());
    assert_eq!(render_display_value(&empty), "[]");
    let one = DisplayValue::Array(vec![DisplayValue::Bool(true)]);
    assert_eq!(render_display_value(&one), "[true]");
}

#[test]
fn six_elements_is_already_truncated() {
    let v = DisplayValue::Array((1..=6).map(DisplayValue::U32).collect());
    assert_eq!(render_display_value(&v), "[1, 2, ..., 6 (6)]");
}

#[test]
fn scalars_render_plainly_strings_quoted() {
    assert_eq!(render_display_value(&DisplayValue::U8(0)), "0");
    assert_eq!(render_display_value(&DisplayValue::I8(-5)), "-5");
    assert_eq!(render_display_value(&DisplayValue::I64(i64::MIN)), "-9223372036854775808");
    assert_eq!(render_display_value(&DisplayValue::U64(u64::MAX)), "18446744073709551615");
    assert_eq!(render_display_value(&DisplayValue::Bool(false)), "false");
    assert_eq!(
        render_display_value(&DisplayValue::Str("hi there".to_string())),
        "\"hi there\""
    );
    assert_eq!(
        render_display_value(&DisplayValue::F32Text("3.25".to_string())),
        "3.25"
    );
}

#[test]
fn nested_arrays_render_recursively() {
    let inner = DisplayValue::Array(vec![DisplayValue::U32(1), DisplayValue::U32(2)]);
    let outer = DisplayValue::Array(vec![inner, DisplayValue::U32(9)]);
    assert_eq!(render_display_value(&outer), "[[1, 2], 9]");
}

#[test]
fn metadata_record_carries_label_and_text() {
    let m = metadata_record(&"general.scale".to_string(), &DisplayValue::F32Text("0.5".to_string()));
    assert_eq!(m.name, "general.scale");
    assert_eq!(m.value, "0.5");
    assert_eq!(m.value_type, "f32");
    let a = metadata_record(
        &"ids".to_string(),
        &DisplayValue::Array(vec![DisplayValue::U16(3), DisplayValue::U16(4)]),
    );
    assert_eq!(a.value, "[3, 4]");
    assert_eq!(a.value_type, "array");
}

#[test]
fn encoding_catalog_round_trips_tags() {
    assert_eq!(GGMLType::from_u32(0), Some(GGMLType::F32));
    assert_eq!(GGMLType::from_u32(2), Some(GGMLType::Q4_0));
    assert_eq!(GGMLType::from_u32(36), Some(GGMLType::GGML_TYPE_Q1_58));
    assert_eq!(GGMLType::from_u32(4), None, "4 and 5 are gaps in the catalog");
    assert_eq!(GGMLType::from_u32(31), None);
    assert_eq!(GGMLType::Q6_K.to_u32(), 14);
    assert_eq!(GGMLType::Q4_0.label(), "Q4_0");
    assert_eq!(GGMLType::GGML_TYPE_Q1_58.label(), "Q1_58");
}

#[test]
fn element_sizes_match_the_catalog() {
    assert_eq!(GGMLType::F32.element_size_frac(), (4, 1));
    assert_eq!(GGMLType::Q4_0.element_size_frac(), (18, 32));
    assert_eq!(GGMLType::Q2_K.element_size_frac(), (84, 256));
    assert_eq!(GGMLType::GGML_TYPE_Q1_58.element_size_frac(), (79, 400));
    assert_eq!(GGMLType::F32.tensor_size_bytes(10), 40);
    assert_eq!(GGMLType::Q4_0.tensor_size_bytes(32), 18);
    assert_eq!(GGMLType::Q4_0.tensor_size_bytes(4096 * 4096), 9437184);
    assert_eq!(GGMLType::IQ1_S.tensor_size_bytes(256), 50);
}

#[test]
fn gguf_records_derive_counts_and_sizes() {
    let tensors = vec![GGUFTensorInfo {
        name: "layer.0.w".to_string(),
        dimensions: vec![64, 32],
        tensor_type: GGMLType::Q8_0,
        offset: 0,
    }];
    let bytes = encode_file(3, &Vec::new(), &tensors);
    let file = GGUFFile::read(&bytes).expect("decode");
    let records = gguf_tensor_records(&file);
    assert_eq!(records.len(), 1);
    assert_eq!(records[0].name, "layer.0.w");
    assert_eq!(records[0].dtype, "Q8_0");
    assert_eq!(records[0].shape, vec![64, 32]);
    assert_eq!(records[0].num_elements, 2048);
    assert_eq!(records[0].size_bytes, 2048 * 34 / 32);
}

#[test]
fn format_shape_parenthesizes() {
    assert_eq!(format_shape(&vec![]), "()");
    assert_eq!(format_shape(&vec![7]), "(7)");
    assert_eq!(format_shape(&vec![2, 3, 4]), "(2, 3, 4)");
}

#[test]
fn format_size_steps_through_units() {
    assert_eq!(format_size(0), "0 B");
    assert_eq!(format_size(512), "512 B");
    assert_eq!(format_size(1023), "1023 B");
    assert_eq!(format_size(1024), "1.0 KB");
    assert_eq!(format_size(1536), "1.5 KB");
    assert_eq!(format_size(10 * 1024 * 1024), "10.0 MB");
    assert_eq!(format_size(3 * 1024 * 1024 * 1024 + 512 * 1024 * 1024), "3.5 GB");
}

#[test]
fn format_parameters_uses_thousands_suffixes() {
    assert_eq!(format_parameters(999), "999");
    assert_eq!(format_parameters(1000), "1.0K");
    assert_eq!(format_parameters(1500), "1.5K");
    assert_eq!(format_parameters(7_000_000), "7.0M");
    assert_eq!(format_parameters(6_738_415_616), "6.7B");
}

#[test]
fn decoded_file_flows_into_a_tree() {
    let tensors = vec![
        GGUFTensorInfo {
            name: "blk.0.ffn.weight".to_string(),
            dimensions: vec![8, 4],
            tensor_type: GGMLType::F32,
            offset: 0,
        },
        GGUFTensorInfo {
            name: "blk.0.ffn.bias".to_string(),
            dimensions: vec![4],
            tensor_type: GGMLType::F32,
            offset: 128,
        },
    ];
    let bytes = encode_file(3, &Vec::new(), &tensors);
    let file = GGUFFile::read(&bytes).expect("decode");
    let records = gguf_tensor_records(&file);
    let tree = safetensors_explorer::tree::TreeBuilder::build_tree(&records);
    assert_eq!(tree.len(), 1);
    match &tree[0] {
        safetensors_explorer::tree::TreeNode::Group { name, tensor_count, total_size, .. } => {
            assert_eq!(name, "blk");
            assert_eq!(*tensor_count, 2);
            assert_eq!(*total_size, 32 * 4 + 4 * 4);
        }
        other => panic!("expected group, got {:?}", other),
    }
}
