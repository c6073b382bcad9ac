use safe_ascii::{map_suppress, map_to_escape, map_to_mnemonic, AsciiMapping, ConversionMode};

#[test]
fn test_generate_mapping() {
    // Exclusion list with all but first excluded
    let mut exclusion_list: [bool; 256] = [true; 256];
    exclusion_list[1] = false;

    let mapping = AsciiMapping::new(ConversionMode::Mnemonic, exclusion_list);
    assert_eq!(mapping.convert_u8(0), "\0");
    assert_eq!(mapping.convert_u8(1), "(SOH)");
    assert_eq!(mapping.convert_u8(48), "0");
}

#[test]
fn lib_test_generate_mapping() {
    // Exclusion list with all but first excluded
    let mut exclusion_list: [bool; 256] = [true; 256];
    exclusion_list[1] = false;

    let mapping = AsciiMapping::new(ConversionMode::Mnemonic, exclusion_list);
    assert_eq!(mapping.convert_u8(0), "\0");
    assert_eq!(mapping.convert_u8(1), "(SOH)");
    assert_eq!(mapping.convert_u8(48), "0");
    assert_eq!(mapping.convert_u8(255), (255 as u8 as char).to_string());
}

#[test]
fn mnemonic_names() {
    assert_eq!(map_to_mnemonic(0), "(NUL)");
    assert_eq!(map_to_mnemonic(b'\n'), "(LF)");
    assert_eq!(map_to_mnemonic(b'\r'), "(CR)");
    assert_eq!(map_to_mnemonic(9), "(HT)");
    assert_eq!(map_to_mnemonic(27), "(ESC)");
    assert_eq!(map_to_mnemonic(31), "(US)");
    assert_eq!(map_to_mnemonic(32), "(SP)");
    assert_eq!(map_to_mnemonic(127), "(DEL)");
    assert_eq!(map_to_mnemonic(128), "(>7F)");
    assert_eq!(map_to_mnemonic(255), "(>7F)");
}

#[test]
fn mnemonic_of_printable_is_itself() {
    assert_eq!(map_to_mnemonic(b'a'), "a");
    assert_eq!(map_to_mnemonic(b'!'), "!");
    assert_eq!(map_to_mnemonic(b'~'), "~");
}

#[test]
fn escape_is_lowercase_hex() {
    assert_eq!(map_to_escape(0), "\\x00");
    assert_eq!(map_to_escape(b'\t'), "\\x09");
    assert_eq!(map_to_escape(b'\n'), "\\x0a");
    assert_eq!(map_to_escape(b'\r'), "\\x0d");
    assert_eq!(map_to_escape(b'0'), "\\x30");
    assert_eq!(map_to_escape(b'~'), "\\x7e");
    assert_eq!(map_to_escape(255), "\\xff");
}

#[test]
fn suppress_keeps_only_printable() {
    assert_eq!(map_suppress(0), "");
    assert_eq!(map_suppress(b'\t'), "");
    assert_eq!(map_suppress(b' '), "");
    assert_eq!(map_suppress(200), "");
    assert_eq!(map_suppress(b'a'), "a");
    assert_eq!(map_suppress(b'0'), "0");
    assert_eq!(map_suppress(b'~'), "~");
}

#[test]
fn printable_bytes_pass_through_in_every_mode() {
    let modes = [ConversionMode::Mnemonic, ConversionMode::Escape, ConversionMode::Suppress];
    for mode in modes {
        for exclusions in [[false; 256], [true; 256]] {
            let mapping = AsciiMapping::new(mode, exclusions);
            for b in 0x21u8..=0x7e {
                assert_eq!(mapping.convert_u8(b), (b as char).to_string());
            }
        }
    }
}

#[test]
fn exclusion_overrides_mode() {
    let mut exclusions = [false; 256];
    exclusions[0] = true;
    exclusions[10] = true;
    exclusions[200] = true;
    for mode in [ConversionMode::Mnemonic, ConversionMode::Escape, ConversionMode::Suppress] {
        let mapping = AsciiMapping::new(mode, exclusions);
        assert_eq!(mapping.convert_u8(0), "\0");
        assert_eq!(mapping.convert_u8(10), "\n");
        assert_eq!(mapping.convert_u8(200), (200u8 as char).to_string());
    }
}

#[test]
fn table_entries_follow_mode() {
    let none = [false; 256];
    let escape = AsciiMapping::new(ConversionMode::Escape, none);
    assert_eq!(escape.convert_u8(0), "\\x00");
    assert_eq!(escape.convert_u8(32), "\\x20");
    assert_eq!(escape.convert_u8(0x7f), "\\x7f");
    assert_eq!(escape.convert_u8(0x80), "\\x80");
    let suppress = AsciiMapping::new(ConversionMode::Suppress, none);
    assert_eq!(suppress.convert_u8(0), "");
    assert_eq!(suppress.convert_u8(255), "");
    let mnemonic = AsciiMapping::new(ConversionMode::Mnemonic, none);
    assert_eq!(mnemonic.convert_u8(32), "(SP)");
    assert_eq!(mnemonic.convert_u8(0x99), "(>7F)");
}

#[test]
fn convert_slice_prefix() {
    let mapping = AsciiMapping::new(ConversionMode::Mnemonic, [false; 256]);
    assert_eq!(mapping.convert_u8_slice(&[b'h', b' ', b'i'], 3), "h(SP)i");
    assert_eq!(mapping.convert_u8_slice(&[b'h', b' ', b'i'], 2), "h(SP)");
    assert_eq!(mapping.convert_u8_slice(&[b'h', b' ', b'i'], 0), "");
    assert_eq!(mapping.convert_u8_slice(&[], 0), "");
}
