use sting07::names::{candidate_names, file_name, hash_name, hex_name, should_dump, HashDictionary};
use sting07::output::{collision_name, path_components};

#[test]
fn lookup_finds_embedded_name() {
    let dict = HashDictionary::new();
    assert_eq!(dict.lookup(hash_name("level")), Some(b"level".to_vec()));
    assert_eq!(
        dict.lookup(hash_name("wwise/explore_02")),
        Some(b"wwise/explore_02".to_vec())
    );
}

#[test]
fn lookup_misses_unknown_hash() {
    let dict = HashDictionary::new();
    assert_eq!(dict.lookup(hash_name("not_a_known_name")), None);
    assert_eq!(dict.lookup(0x1234), None);
}

#[test]
fn hash_matches_murmur64a() {
    assert_eq!(hash_name("level"), murmurhash64::murmur_hash64a(b"level", 0));
    assert_ne!(hash_name("level"), hash_name("unit"));
}

#[test]
fn later_name_wins_on_same_hash() {
    let dict = HashDictionary::from_names(&["a", "b", "a"]);
    assert_eq!(dict.lookup(hash_name("a")), Some(b"a".to_vec()));
    assert_eq!(dict.lookup(hash_name("b")), Some(b"b".to_vec()));
}

#[test]
fn hex_fallback_has_eight_uppercase_digits() {
    assert_eq!(hex_name(0xabc), b"00000ABC".to_vec());
    assert_eq!(hex_name(0), b"00000000".to_vec());
    assert_eq!(hex_name(0xc17b8adddbfbc068), b"C17B8ADDDBFBC068".to_vec());
    assert_eq!(hex_name(0x1_0000_0000), b"100000000".to_vec());
}

#[test]
fn file_name_joins_name_and_extension() {
    let dict = HashDictionary::new();
    let n = file_name(&dict, hash_name("wwise_bank"), hash_name("wwise/explore_02"));
    assert_eq!(n, b"wwise/explore_02.wwise_bank".to_vec());
    let u = file_name(&dict, 0x7910103158fc1de9, 0xbeef);
    assert_eq!(u, b"0000BEEF.7910103158FC1DE9".to_vec());
}

#[test]
fn every_extension_is_dumped() {
    assert!(should_dump(0));
    assert!(should_dump(hash_name("lua")));
}

#[test]
fn candidate_list_is_embedded() {
    let names = candidate_names();
    assert!(names.contains(&"level"));
    assert!(names.contains(&"wwise/action_03_ambient"));
}

#[test]
fn collision_inserts_suffix_before_first_dot() {
    assert_eq!(collision_name(b"explore_02.wwise_bank", 1, 3), Some(b"explore_02_1.wwise_bank".to_vec()));
    assert_eq!(collision_name(b"a.b.c", 12, 20), Some(b"a_12.b.c".to_vec()));
    assert_eq!(collision_name(b"noext", 2, 2), Some(b"noext_2".to_vec()));
    assert_ne!(collision_name(b"x.y", 1, 1).unwrap(), b"x.y".to_vec());
}

#[test]
fn collision_search_gives_up_past_file_count() {
    assert_eq!(collision_name(b"a.b", 4, 3), None);
}

#[test]
fn components_split_on_slash() {
    assert_eq!(
        path_components(b"wwise/explore_02.wwise_bank"),
        vec![b"wwise".to_vec(), b"explore_02.wwise_bank".to_vec()]
    );
    assert_eq!(path_components(b"level.unit"), vec![b"level.unit".to_vec()]);
}

#[test]
fn embedded_dictionary_holds_every_candidate() {
    let dict = HashDictionary::new();
    for n in candidate_names() {
        assert_eq!(dict.lookup(hash_name(n)), Some(n.as_bytes().to_vec()));
    }
    assert_eq!(candidate_names().len(), 66);
}
