use qwen_asr::attention::{create_causal_mask, KvCache};

#[test]
fn causal_mask_without_cache() {
    let m = create_causal_mask(3, 0);
    assert_eq!(m, vec![false, true, true, false, false, true, false, false, false]);
}

#[test]
fn causal_mask_with_cache() {
    let m = create_causal_mask(1, 4);
    assert_eq!(m, vec![false; 5]);
    let m = create_causal_mask(2, 1);
    assert_eq!(m, vec![false, false, true, false, false, false]);
}

#[test]
fn causal_mask_empty() {
    assert!(create_causal_mask(0, 5).is_empty());
}

#[test]
fn kv_cache_layers() {
    let mut c: KvCache<u32> = KvCache::new(3);
    assert_eq!(c.layer(0), None);
    assert_eq!(c.first_filled(), None);
    c.set_layer(1, 7);
    c.set_layer(5, 9);
    assert_eq!(c.layer(1), Some(&7));
    assert_eq!(c.layer(5), None);
    assert_eq!(c.first_filled(), Some(&7));
    c.set_layer(0, 3);
    assert_eq!(c.first_filled(), Some(&3));
}
