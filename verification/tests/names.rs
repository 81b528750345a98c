use chum_world::plugin::FilePluginLengthText;
use chum_world::util::{get_file_string, hash_name, str_eq};

#[test]
fn hash_name_matches_crc32_check_value() {
    // the CRC-32 IEEE check value for the nine digits
    assert_eq!(hash_name("123456789"), 0xCBF43926u32 as i32);
}

#[test]
fn hash_name_of_empty_is_zero() {
    assert_eq!(hash_name(""), 0);
}

#[test]
fn hash_name_depends_on_content() {
    assert_ne!(hash_name("GROUND.TXT"), hash_name("ground.txt"));
    assert_eq!(hash_name("GROUND.TXT"), hash_name("GROUND.TXT"));
}

#[test]
fn str_eq_compares_contents() {
    assert!(str_eq("abc", "abc"));
    assert!(!str_eq("abc", "abd"));
    assert!(!str_eq("abc", "ab"));
    assert!(str_eq("", ""));
}

#[test]
fn file_string_slots_id_before_extension() {
    assert_eq!(get_file_string("hello.txt", 0x1234ABCD), "hello_1234ABCD_.txt");
}

#[test]
fn file_string_pads_short_ids_with_underscores() {
    // five padding spaces and the two brackets all become underscores
    assert_eq!(get_file_string("hello.txt", 0x1A2), "hello______1A2_.txt");
}

#[test]
fn file_string_without_extension_appends_id() {
    assert_eq!(get_file_string("name", 0xF), "name________F_");
}

#[test]
fn file_string_splits_at_last_dot_and_sanitizes() {
    assert_eq!(get_file_string("my file.v1.txt", 1), "my_file.v1________1_.txt");
}

#[test]
fn length_text_import_prefixes_length() {
    let p = FilePluginLengthText;
    assert_eq!(p.import_data(b"hi"), vec![0, 0, 0, 2, b'h', b'i']);
    assert_eq!(p.import_data(b""), vec![0, 0, 0, 0]);
}

#[test]
fn length_text_export_strips_prefix() {
    let p = FilePluginLengthText;
    assert_eq!(p.export_data(&[0, 0, 0, 2, 104, 105]), Some(vec![104, 105]));
    // the prefix's value is not checked, only skipped
    assert_eq!(p.export_data(&[9, 9, 9, 9, 7]), Some(vec![7]));
    assert_eq!(p.export_data(&[0, 0, 0, 0]), Some(vec![]));
    assert_eq!(p.export_data(&[1, 2, 3]), None);
}

#[test]
fn length_text_round_trip() {
    let p = FilePluginLengthText;
    let framed = p.import_data(b"some text");
    assert_eq!(p.export_data(&framed), Some(b"some text".to_vec()));
}

#[test]
fn plugin_string_is_stable() {
    let p = FilePluginLengthText;
    assert_eq!(p.get_plugin_string(), "length-text");
}
