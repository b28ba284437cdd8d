use base58_crt::base58::DecodeError;
use base58_crt::pipeline::run_pipeline;

#[test]
fn end_to_end_known_text() {
    let rep = run_pipeline("3KMUV7snH6wU48zt").unwrap();
    assert_eq!(rep.decoded, 654996940358353959041587265);
    assert_eq!(rep.packed, 654996940358353959041587265);
    assert_eq!(rep.residues, vec![627959409, 871153333, 369798765]);
    assert_eq!(
        rep.matrices,
        vec![
            [0, 0, 1, 0, 0, 0, 1, 0, 0],
            [0, 0, 0, 1, 0, 0, 0, 1, 0],
            [0, 0, 0, 0, 0, 0, 1, 1, 0],
        ]
    );
    assert_eq!(rep.reconstructed, 654996940358353959041587265);
    assert_eq!(rep.restored, "3KMUV7snH6wU48zt");
}

#[test]
fn end_to_end_invalid_text() {
    assert!(matches!(run_pipeline("3KMUV7snH6wU48z0"), Err(DecodeError::InvalidCharacter('0'))));
    assert!(matches!(run_pipeline("Il"), Err(DecodeError::InvalidCharacter('I'))));
}

#[test]
fn end_to_end_value_above_moduli_product() {
    let rep = run_pipeline("zzzzzzzzzzzzzzzz").unwrap();
    let product = 1000000037000000399000001323u128;
    assert_eq!(rep.packed, rep.decoded % 3u128.pow(60));
    assert_eq!(rep.reconstructed, rep.packed % product);
}
