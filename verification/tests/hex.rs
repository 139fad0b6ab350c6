use edge::util::{byte_v2hex, hex2byte_v};

#[test]
fn test_hex() {
    let hex = "a";
    let byte_v = hex2byte_v(hex);
    assert_eq!(byte_v[0], 10);
    assert_eq!("0a", byte_v2hex(&byte_v));
}

#[test]
fn hex_goes_both_ways() {
    assert_eq!(hex2byte_v("0aff10"), vec![10u8, 255, 16]);
    assert_eq!(hex2byte_v("AbC"), vec![10u8, 188]);
    assert_eq!(hex2byte_v(""), Vec::<u8>::new());
    assert_eq!(hex2byte_v("zz"), vec![0u8]);
    assert_eq!(byte_v2hex(&vec![0, 1, 171, 255]), "0001abff");
    assert_eq!(byte_v2hex(&vec![]), "");
    let byte_v: Vec<u8> = (0..=255).collect();
    assert_eq!(hex2byte_v(&byte_v2hex(&byte_v)), byte_v);
}
