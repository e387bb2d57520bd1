use osu_collection_creator::backup::get_backup_file_name;
use osu_collection_creator::beatmaps::{beatmap_hash, is_beatmap_file, lower_hex};

#[test]
fn beatmap_files_end_with_osu() {
    assert!(is_beatmap_file("Artist - Title (Mapper) [Hard].osu"));
    assert!(is_beatmap_file(".osu"));
    assert!(is_beatmap_file("folder/inner.osu"));
}

#[test]
fn other_files_are_not_beatmaps() {
    assert!(!is_beatmap_file(""));
    assert!(!is_beatmap_file("osu"));
    assert!(!is_beatmap_file("audio.mp3"));
    assert!(!is_beatmap_file("set.osz"));
    assert!(!is_beatmap_file("map.OSU"));
    assert!(!is_beatmap_file("map.osu.bak"));
    assert!(!is_beatmap_file("map.osu "));
    assert!(!is_beatmap_file("map.os"));
}

#[test]
fn lower_hex_writes_two_digits_per_byte() {
    assert_eq!(lower_hex(&[]), "");
    assert_eq!(lower_hex(&[0]), "00");
    assert_eq!(lower_hex(&[10, 20, 30]), "0a141e");
    assert_eq!(lower_hex(&[0x01, 0x23, 0x45, 0x67, 0x89, 0xab, 0xcd, 0xef]), "0123456789abcdef");
    assert_eq!(lower_hex(&[0xff, 0x9a, 0xf0, 0x0f]), "ff9af00f");
}

#[test]
fn beatmap_hash_is_the_md5_of_the_text() {
    assert_eq!(beatmap_hash(""), "d41d8cd98f00b204e9800998ecf8427e");
    assert_eq!(beatmap_hash("abc"), "900150983cd24fb0d6963f7d28e17f72");
    assert_eq!(beatmap_hash("osu file format v14\n"), "36f70c48e16e2b13c3c93609eafdaff9");
}

#[test]
fn beatmap_hash_is_taken_over_the_utf8_bytes() {
    assert_eq!(beatmap_hash("\u{e9}"), "66ddcd97cfdeabb2f6fb8a999b4bc76f");
}

#[test]
fn beatmap_hash_has_32_digits() {
    for text in ["", "a", "some longer beatmap text\r\nwith lines"] {
        let hash = beatmap_hash(text);
        assert_eq!(hash.len(), 32);
        assert!(hash.chars().all(|c| c.is_ascii_digit() || ('a'..='f').contains(&c)));
    }
}

#[test]
fn backup_file_name_joins_the_fields() {
    assert_eq!(
        get_backup_file_name("2021", "11", "22", "09", "05", "59"),
        "collection_backup_2021-11-22-09-05-59.db"
    );
    assert_eq!(get_backup_file_name("", "", "", "", "", ""), "collection_backup_-----.db");
}
