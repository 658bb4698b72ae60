use atlas::surfaces::{find_bool, find_int, morton, norm_patterns, rung_range, words_le, Atoms, Config, Grid, Model, Place};

#[test]
fn morton_is_z_order() {
    let p = Place::new(3, 5);
    let order = [0usize, 1, 5, 6, 2, 3, 7, 8, 10, 11, 12, 13, 4, 9, 14];
    for (pos, idx) in order.iter().enumerate() {
        assert_eq!(p.rank[*idx] as usize, pos);
    }
}

#[test]
fn config_parses() {
    let c = Config::from_json(r#"{"hidden_size": 2048, "intermediate_size": 6144, "num_hidden_layers": 28, "num_attention_heads": 16, "num_key_value_heads": 8, "head_dim": 128, "vocab_size": 151936, "tie_word_embeddings": true}"#);
    assert_eq!(
        (c.hidden, c.intermediate, c.n_layers, c.n_q_heads, c.n_kv_heads, c.head_dim, c.vocab, c.tied),
        (2048, 6144, 28, 16, 8, 128, 151936, true)
    );
    assert_eq!(c.q_dim(), 2048);
    assert_eq!(c.kv_dim(), 1024);
}

#[test]
fn config_keys_that_are_absent_or_malformed_are_none() {
    assert_eq!(find_int(r#"{"a": 12}"#, "b"), None);
    assert_eq!(find_int(r#"{"a": x12}"#, "a"), None);
    assert_eq!(find_int(r#"{"a":   7, "b": 9}"#, "b"), Some(9));
    assert_eq!(find_int(r#"{"a": 99999999999999999999999}"#, "a"), None);
    assert_eq!(find_bool(r#"{"t": false}"#, "t"), Some(false));
    assert_eq!(find_bool(r#"{"t": maybe}"#, "t"), None);
    let c = Config::from_json(r#"{"hidden_size": 1, "intermediate_size": 2, "num_hidden_layers": 3, "num_attention_heads": 4, "num_key_value_heads": 5, "head_dim": 6, "vocab_size": 7}"#);
    assert!(!c.tied);
}

#[test]
fn morton_interleaves_bits() {
    assert_eq!(morton(0, 0), 0);
    assert_eq!(morton(0, 1), 1);
    assert_eq!(morton(1, 0), 2);
    assert_eq!(morton(3, 3), 15);
}

#[test]
fn the_model_names_its_surfaces() {
    let dict: Vec<u16> = vec![0x3F80, 0x4000, 0xBFC0, 0x0000];
    let atoms = Atoms::from_dict(&dict);
    let rows = 128usize;
    let cols = 256usize;
    let ids: Vec<u16> = (0..rows * cols).map(|i| (i % 3) as u16).collect();
    let grid = Grid { rows, cols, th: 128, tw: 128, ids: ids.clone(), place: std::sync::Arc::new(Place::new(1, 2)), rmin: -1, rmax: 1 };
    let cfg = Config::from_json(r#"{"hidden_size": 256, "intermediate_size": 512, "num_hidden_layers": 1, "num_attention_heads": 2, "num_key_value_heads": 1, "head_dim": 128, "vocab_size": 128, "tie_word_embeddings": true}"#);
    let norm = norm_patterns(&[1, 0, 3], &atoms);
    assert_eq!(norm, vec![0x4000, 0x3F80, 0x0000]);
    let model = Model {
        id: "m".to_string(),
        cfg,
        atoms,
        grids: vec![("model.embed_tokens.weight".to_string(), grid)],
        norms: vec![("model.norm.weight".to_string(), norm)],
        folds: Vec::new(),
        cub: None,
        fiber: None,
    };
    assert!(!model.radix());
    assert_eq!(model.norm("model.norm.weight"), &[0x4000, 0x3F80, 0x0000]);
    assert_eq!(model.grid("model.embed_tokens.weight").rows, 128);
    let row = model.embed_row(5);
    assert_eq!(row.len(), 256);
    for (c, &p) in row.iter().enumerate() {
        let tile = model.grid("model.embed_tokens.weight").place.rank[c / 128] as usize;
        let id = ids[tile * 128 * 128 + 5 * 128 + c % 128];
        assert_eq!(p, dict[id as usize]);
    }
    // 1.0 = 1·2^0, 2.0 = 1·2^1, -1.5 = -3·2^-1, 0 has no core
    assert_eq!(rung_range(&[0, 1, 2, 3], &model.atoms), (-1, 1));
    assert_eq!(rung_range(&[3, 3], &model.atoms), (0, 0));
    assert_eq!(words_le(&[0x80, 0x3F, 0x00, 0x40]), vec![0x3F80, 0x4000]);
}

#[test]
fn manifest_entries_come_in_order_with_their_shapes() {
    let text = "[{\"dtype\": \"BF16\", \"name\": \"model.layers.0.mlp.up_proj.weight\", \"shape\": [256, 128]},\n {\"name\": \"model.norm.weight\", \"shape\": [ 128 ]}]";
    let e = atlas::surfaces::scan_manifest(text).unwrap();
    assert_eq!(
        e,
        vec![("model.layers.0.mlp.up_proj.weight".to_string(), vec![256, 128]), ("model.norm.weight".to_string(), vec![128])]
    );
    assert_eq!(atlas::surfaces::scan_manifest("{}"), Some(vec![]));
    assert_eq!(atlas::surfaces::scan_manifest("{\"name\": \"é\", \"shape\": [+7]}"), Some(vec![("é".to_string(), vec![7])]));
}

#[test]
fn a_broken_manifest_entry_is_refused() {
    assert_eq!(atlas::surfaces::scan_manifest("{\"name\": \"a\", \"shape\": [2, x]}"), None);
    assert_eq!(atlas::surfaces::scan_manifest("{\"name\": \"a\", \"shape\": []}"), None);
    assert_eq!(atlas::surfaces::scan_manifest("{\"name\": \"a\"}"), None);
    assert_eq!(atlas::surfaces::scan_manifest("{\"name\": \"a"), None);
}
