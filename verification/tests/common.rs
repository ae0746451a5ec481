use vip::common::words::{arg_words, data_value};
use vip::value::Value;

fn bits(words: &[u64], mask_xz: &[u64], width: u32) -> Value {
    Value::Bits {
        words: words.to_vec(),
        mask_xz: mask_xz.to_vec(),
        width,
    }
}

#[test]
fn arg_words_zero_extends_and_round_trips() {
    let v = bits(&[0xdead], &[0], 64);
    let words = arg_words(&v, 128, "data").unwrap();
    assert_eq!(words, vec![0xdead, 0]);

    let wide = bits(&[0x1, 0x2], &[0, 0], 128);
    let words = arg_words(&wide, 128, "data").unwrap();
    assert_eq!(data_value(&words, 128), wide);
}

#[test]
fn arg_words_rejects_oversized_and_xz() {
    let v = bits(&[u64::MAX], &[0], 64);
    let err = arg_words(&v, 32, "data").unwrap_err();
    assert!(err.message().contains("does not fit the 32-bit bus"));

    let wide = bits(&[0, 0, 1], &[0, 0, 0], 192);
    assert!(arg_words(&wide, 128, "data").is_err());

    let xz = bits(&[1], &[1], 32);
    let err = arg_words(&xz, 32, "data").unwrap_err();
    assert!(err.message().contains("X/Z"));
}
