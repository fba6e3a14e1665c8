use ligesis::proofsys::export::{
    decode, exported_public_data, manifest_lines, parse_line, parse_number, split_words,
    ArrayTable, ElementType, ExportError,
};
use ligesis::proofsys::model::ModelWeights;
use ligesis::proofsys::tensor::Matrix;
use ligesis::proofsys::witness::Config;

fn config() -> Config {
    Config {
        n_layer: 1,
        n_seq: 1,
        n_head: 1,
        d_head: 2,
        d_model: 2,
        mlp_hidden: 3,
        vocab: 4,
        scale: 4,
        max_v: 2,
    }
}

fn bytes(values: &[i64]) -> Vec<u8> {
    values.iter().flat_map(|v| v.to_le_bytes()).collect()
}

fn put(table: &mut ArrayTable, name: &str, d0: usize, d1: usize, first: i64) {
    let n = d0 * if d1 == 0 { 1 } else { d1 };
    let entry = parse_line(&format!("{name} int64 {d0} {d1} {name}.bin")).ok().unwrap();
    let values: Vec<i64> = (0..n as i64).map(|i| first + i).collect();
    assert!(table.add(entry, &bytes(&values)).is_ok());
}

fn full(skip: &str, wpe: bool) -> ArrayTable {
    let mut t = ArrayTable::new();
    let arrays = [
        ("wte", 4, 2, 10),
        ("ln_f_g", 2, 0, 20),
        ("ln_f_b", 2, 0, 30),
        ("exp_lut", 9, 0, 40),
        ("gelu_lut", 17, 0, 50),
        ("blk0_ln_1_g", 2, 0, 60),
        ("blk0_ln_1_b", 2, 0, 70),
        ("blk0_attn_w", 2, 6, 80),
        ("blk0_attn_b", 6, 0, 100),
        ("blk0_attn_proj_w", 2, 2, 110),
        ("blk0_attn_proj_b", 2, 0, 120),
        ("blk0_ln_2_g", 2, 0, 130),
        ("blk0_ln_2_b", 2, 0, 140),
        ("blk0_fc_w", 2, 3, 150),
        ("blk0_fc_b", 3, 0, 160),
        ("blk0_fproj_w", 3, 2, 170),
        ("blk0_fproj_b", 2, 0, 180),
    ];
    for (name, d0, d1, first) in arrays {
        if name != skip {
            put(&mut t, name, d0, d1, first);
        }
    }
    if wpe {
        put(&mut t, "wpe", 1024, 2, -5);
    }
    t
}

#[test]
fn words_and_lines() {
    assert_eq!(split_words("  a\tbc  d\u{a0}e\r"), ["a", "bc", "d", "e"]);
    assert!(split_words(" \t ").is_empty());
    assert_eq!(manifest_lines("a b\r\n\n  \nc\n d"), ["a b", "c", " d"]);
    assert_eq!(manifest_lines("x\r"), ["x\r"]);
    assert!(manifest_lines("").is_empty());
}

#[test]
fn numbers() {
    assert_eq!(parse_number("0"), Some(0));
    assert_eq!(parse_number("+042"), Some(42));
    assert_eq!(parse_number("18446744073709551615"), Some(u64::MAX as usize));
    assert_eq!(parse_number("18446744073709551616"), None);
    assert_eq!(parse_number("+"), None);
    assert_eq!(parse_number(""), None);
    assert_eq!(parse_number("-1"), None);
    assert_eq!(parse_number("1x"), None);
}

#[test]
fn manifest_entries_and_their_errors() {
    let e = parse_line("wte int32 4 2 wte.bin").ok().unwrap();
    assert_eq!((e.name.as_str(), e.element, e.d0, e.d1), ("wte", ElementType::Int32, 4, 2));
    assert_eq!(e.file, "wte.bin");
    assert!(matches!(parse_line("a int32 4 2"), Err(ExportError::BadLine(l)) if l == "a int32 4 2"));
    assert!(matches!(parse_line("a f32 x 2 f"), Err(ExportError::BadNumber(n)) if n == "x"));
    assert!(matches!(parse_line("a f32 1 -2 f"), Err(ExportError::BadNumber(n)) if n == "-2"));
    assert!(matches!(parse_line("a f32 1 2 f"), Err(ExportError::UnsupportedType(t)) if t == "f32"));
}

#[test]
fn little_endian_numbers() {
    let b = [0xff, 0xff, 0xff, 0xff, 1, 0, 0, 0x80];
    assert_eq!(decode(&b, ElementType::Int32).ok().unwrap(), [-1, i32::MIN as i64 + 1]);
    assert_eq!(decode(&b, ElementType::Int64).ok().unwrap(), [i64::from_le_bytes(b)]);
    assert!(matches!(decode(&b[1..], ElementType::Int32), Err(ExportError::UnalignedInt32)));
    assert!(matches!(decode(&b[4..], ElementType::Int64), Err(ExportError::UnalignedInt64)));
}

#[test]
fn arrays_must_fill_their_shape() {
    let mut t = ArrayTable::new();
    let e = parse_line("m int64 2 3 m.bin").ok().unwrap();
    let r = t.add(e, &bytes(&[1, 2, 3]));
    assert!(matches!(r, Err(ExportError::Length { found: 3, d0: 2, d1: 3, .. })));
    let v = parse_line("v int64 3 0 v.bin").ok().unwrap();
    assert!(t.add(v, &bytes(&[1, 2, 3])).is_ok());
}

#[test]
fn weights_are_built_from_the_arrays() {
    let cfg = config();
    let w = ModelWeights::from_arrays(&full("", true), &cfg).ok().unwrap();
    assert_eq!(w.wte, Matrix::new(4, 2, (10..18).collect()));
    assert!(w.has_wpe);
    assert_eq!(w.wpe.get(1, 0), -3);
    assert_eq!(w.exp_lut, (40..49).collect::<Vec<i64>>());
    assert_eq!(w.gelu_lut.len(), 17);
    assert_eq!(w.blocks.len(), 1);
    assert_eq!(w.blocks[0].attn_w, Matrix::new(2, 6, (80..92).collect()));
    assert_eq!(w.blocks[0].fproj_w, Matrix::new(3, 2, (170..176).collect()));
    assert_eq!(w.blocks[0].fproj_b, [180, 181]);
}

#[test]
fn the_position_embedding_is_optional() {
    let w = ModelWeights::from_arrays(&full("", false), &config()).ok().unwrap();
    assert!(!w.has_wpe);
    assert_eq!(w.wpe, Matrix::zeros(1024, 2));
}

#[test]
fn missing_and_misshaped_arrays_are_reported() {
    let cfg = config();
    let r = ModelWeights::from_arrays(&full("blk0_fc_w", true), &cfg);
    assert!(matches!(r, Err(ExportError::Missing(n)) if n == "blk0_fc_w"));
    let mut t = full("ln_f_g", true);
    put(&mut t, "ln_f_g", 3, 0, 0);
    let r = ModelWeights::from_arrays(&t, &cfg);
    assert!(matches!(r, Err(ExportError::VectorShape(n)) if n == "ln_f_g"));
    let mut t = full("wte", true);
    put(&mut t, "wte", 2, 4, 0);
    let r = ModelWeights::from_arrays(&t, &cfg);
    assert!(matches!(
        r,
        Err(ExportError::MatrixShape { d0: 2, d1: 4, rows: 4, cols: 2, .. })
    ));
    // Of two arrays with one name, the later is kept.
    put(&mut t, "wte", 4, 2, 7);
    assert_eq!(ModelWeights::from_arrays(&t, &cfg).ok().unwrap().wte.get(0, 0), 7);
}

#[test]
fn public_data_is_put_together() {
    let cfg = config();
    let d = exported_public_data(vec![3], vec![1, 2], vec![4, 5, 6, 7], vec![8, 9], &cfg);
    assert_eq!(d.input_ids, [3]);
    assert_eq!(d.x0, Matrix::new(1, 2, vec![1, 2]));
    assert_eq!(d.logits_int, Matrix::new(1, 4, vec![4, 5, 6, 7]));
    assert_eq!(d.final_x, Matrix::new(1, 2, vec![8, 9]));
}

#[test]
fn table_lengths_go_by_the_product() {
    let mut cfg = config();
    cfg.max_v = -cfg.max_v;
    cfg.scale = -cfg.scale;
    assert!(ModelWeights::from_arrays(&full("", true), &cfg).is_ok());
    cfg.scale = -cfg.scale;
    let r = ModelWeights::from_arrays(&full("", true), &cfg);
    assert!(matches!(r, Err(ExportError::VectorShape(n)) if n == "exp_lut"));
    let r = ModelWeights::from_arrays(&full("wte", true), &cfg);
    assert!(matches!(r, Err(ExportError::Missing(n)) if n == "wte"));
}
