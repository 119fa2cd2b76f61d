use svetd::param::{bits_to_u8, FloatParam, Param, Params, BITS_255};

#[test]
fn float_bits_convert_like_as_u8() {
    for x in [0.0f32, 0.4, 1.0, 1.5, 127.9, 128.0, 254.99, 255.0, 255.5, 256.0, 1e9, -0.0, -3.0, f32::INFINITY, f32::NEG_INFINITY, f32::NAN, 1e-40] {
        assert_eq!(bits_to_u8(x.to_bits()), x as u8, "value {x}");
    }
    assert_eq!(BITS_255, 255.0f32.to_bits());
}

#[test]
fn float_param_store_and_load() {
    let mut p = FloatParam::new_with_time(1.5f32.to_bits(), 7);
    assert_eq!(p.load(), 1.5f32.to_bits());
    assert_eq!(p.last_updated(), 7);
    assert_eq!(p.load_u8(), 1);
    p.store(300.0f32.to_bits());
    assert_eq!(p.load_u8(), 255);
    assert!(p.last_updated() > 7);
    assert!(FloatParam::now_micros() > 0);
}

#[test]
fn params_by_name() {
    let mut ps = Params::new();
    let p = ps.create_param("PB1");
    assert_eq!(p.load(), 0);
    ps.insert("PB2".to_string(), FloatParam::new_with_time(2.0f32.to_bits(), 1));
    assert_eq!(ps.get("PB2".to_string()).unwrap().load(), 2.0f32.to_bits());
    assert!(ps.get("PB1".to_string()).is_some());
    assert!(ps.get("PB3".to_string()).is_none());
    ps.insert("PB2".to_string(), FloatParam::new_with_time(3.0f32.to_bits(), 1));
    assert_eq!(ps.get("PB2".to_string()).unwrap().load(), 3.0f32.to_bits());
}

#[test]
fn integer_param_starts_at_zero() {
    assert_eq!(Param::new().value(), 0);
}
