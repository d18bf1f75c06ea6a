use squeeze::lzw::EncodingOptions;

#[test]
fn validate_accepts_auto_mode() {
    let opts = EncodingOptions {
        auto_update_index: true,
        manual_index_bits: None,
        show_emitted_codes: false,
    };
    assert!(opts.validate().is_ok());
}

#[test]
fn validate_accepts_manual_widths_in_range() {
    for bits in 9..=15u8 {
        let opts = EncodingOptions {
            auto_update_index: false,
            manual_index_bits: Some(bits),
            show_emitted_codes: false,
        };
        assert!(opts.validate().is_ok());
        assert_eq!(opts.get_initial_bit_width(), bits as u32);
    }
}

#[test]
fn validate_rejects_out_of_range_width() {
    let opts = EncodingOptions {
        auto_update_index: false,
        manual_index_bits: Some(20),
        show_emitted_codes: false,
    };
    let err = opts.validate().unwrap_err();
    assert_eq!(err, "Manual index bits must be between 9-15, got 20");

    let opts = EncodingOptions {
        auto_update_index: false,
        manual_index_bits: Some(200),
        show_emitted_codes: false,
    };
    let err = opts.validate().unwrap_err();
    assert_eq!(err, "Manual index bits must be between 9-15, got 200");
}

#[test]
fn validate_requires_manual_width() {
    let opts = EncodingOptions {
        auto_update_index: false,
        manual_index_bits: None,
        show_emitted_codes: false,
    };
    let err = opts.validate().unwrap_err();
    assert_eq!(err, "Manual index bits required when auto_update_index is false");
}

#[test]
fn initial_width_defaults() {
    let opts = EncodingOptions {
        auto_update_index: true,
        manual_index_bits: Some(12),
        show_emitted_codes: false,
    };
    assert_eq!(opts.get_initial_bit_width(), 9);
    let opts = EncodingOptions {
        auto_update_index: false,
        manual_index_bits: None,
        show_emitted_codes: false,
    };
    assert_eq!(opts.get_initial_bit_width(), 9);
}
