use dorg::OrgError;
use dorg::codec::{decode_config, encode_config};
use dorg::config::load_organizer;
use dorg::organizer::Organizer;
use dorg::rules::RuleSet;

fn chars_of(s: &str) -> Vec<char> {
    s.chars().collect()
}

fn text_of(v: &[char]) -> String {
    v.iter().collect()
}

fn default_org(root: &str) -> Organizer {
    Organizer::new(Organizer::get_default_rules(), root.to_string())
}

#[test]
fn encode_yields_the_expected_stored_text() {
    let org = default_org("/home/user/Downloads");
    let out = encode_config(&org);
    assert_eq!(
        text_of(&out),
        "{\"rules\":{\"exe\":\"Executables\",\"torrent\":\"MetaInfo\"},\"sorting_path\":\"/home/user/Downloads\"}"
    );
}

#[test]
fn encode_of_empty_rules_is_an_empty_object() {
    let org = Organizer::new(RuleSet::new(), "/d".to_string());
    let out = encode_config(&org);
    assert_eq!(text_of(&out), "{\"rules\":{},\"sorting_path\":\"/d\"}");
}

#[test]
fn saved_text_loads_back_to_the_same_configuration() {
    let mut org = default_org("/home/user/Downloads");
    org.add_rule("pdf".to_string(), "Documents".to_string());
    let out = encode_config(&org);
    let back = decode_config(&out).expect("round trip must decode");
    assert_eq!(back.sorting_path, org.sorting_path);
    assert_eq!(back.rules.len(), org.rules.len());
    for i in 0..org.rules.len() {
        assert_eq!(back.rules.pair(i), org.rules.pair(i));
    }
}

#[test]
fn round_trip_keeps_characters_that_need_escaping() {
    let mut org = Organizer::new(RuleSet::new(), "/tab\there".to_string());
    org.add_rule("odd\"ext".to_string(), "back\\slash".to_string());
    org.add_rule("line".to_string(), "two\nlines".to_string());
    let out = encode_config(&org);
    let back = decode_config(&out).expect("escaped text must decode");
    assert_eq!(back.sorting_path, "/tab\there");
    assert_eq!(back.rules.get(&"odd\"ext".to_string()), Some(&"back\\slash".to_string()));
    assert_eq!(back.rules.get(&"line".to_string()), Some(&"two\nlines".to_string()));
}

#[test]
fn decode_accepts_the_empty_rules_object() {
    let text = chars_of("{\"rules\":{},\"sorting_path\":\"/d\"}");
    let org = decode_config(&text).expect("empty rules are a configuration");
    assert_eq!(org.rules.len(), 0);
    assert_eq!(org.sorting_path, "/d");
}

#[test]
fn decode_rejects_garbage() {
    for bad in [
        "",
        "not json at all",
        "{\"rules\":{}}",
        "{\"rules\":{\"a\":\"x\"},\"sorting_path\":\"/d\"",
        "{\"rules\":{\"a\":\"x\"},\"sorting_path\":\"/d\"}trailing",
        "{\"rules\":{\"a\":1},\"sorting_path\":\"/d\"}",
        "{\"rules\":{\"a\":\"x\",},\"sorting_path\":\"/d\"}",
        "{\"rules\":{\"a\":\"\\q\"},\"sorting_path\":\"/d\"}",
        "{\"other\":{},\"sorting_path\":\"/d\"}",
    ] {
        let text = chars_of(bad);
        match decode_config(&text) {
            Ok(_) => panic!("accepted: {bad}"),
            Err(e) => assert_eq!(e, OrgError::ConfigCorrupt),
        }
    }
}

#[test]
fn decode_rejects_keys_out_of_order() {
    let text = chars_of("{\"rules\":{\"b\":\"x\",\"a\":\"y\"},\"sorting_path\":\"/d\"}");
    assert_eq!(decode_config(&text).err(), Some(OrgError::ConfigCorrupt));
    let dup = chars_of("{\"rules\":{\"a\":\"x\",\"a\":\"y\"},\"sorting_path\":\"/d\"}");
    assert_eq!(decode_config(&dup).err(), Some(OrgError::ConfigCorrupt));
}

#[test]
fn load_organizer_defaults_when_nothing_is_saved() {
    let org = load_organizer(None, &"/home/u/Downloads".to_string()).expect("defaults load");
    assert_eq!(org.sorting_path, "/home/u/Downloads");
    assert_eq!(org.rules.len(), 2);
    assert_eq!(org.rules.get(&"exe".to_string()), Some(&"Executables".to_string()));
    assert_eq!(org.rules.get(&"torrent".to_string()), Some(&"MetaInfo".to_string()));
}

#[test]
fn load_organizer_reads_saved_text_and_rejects_corrupt_text() {
    let saved = chars_of("{\"rules\":{\"png\":\"Images\"},\"sorting_path\":\"/pix\"}");
    let org = load_organizer(Some(&saved), &"/unused".to_string()).expect("saved text loads");
    assert_eq!(org.sorting_path, "/pix");
    assert_eq!(org.rules.get(&"png".to_string()), Some(&"Images".to_string()));
    let bad = chars_of("{broken");
    assert_eq!(
        load_organizer(Some(&bad), &"/unused".to_string()).err(),
        Some(OrgError::ConfigCorrupt)
    );
}

#[test]
fn decode_accepts_pretty_printed_text() {
    let text = chars_of(
        "{\n  \"rules\": {\n    \"exe\": \"Executables\",\n    \"torrent\": \"MetaInfo\"\n  },\n  \"sorting_path\": \"/home/u/D\"\n}\n",
    );
    let org = decode_config(&text).expect("pretty text decodes");
    assert_eq!(org.sorting_path, "/home/u/D");
    assert_eq!(org.rules.get(&"exe".to_string()), Some(&"Executables".to_string()));
    assert_eq!(org.rules.get(&"torrent".to_string()), Some(&"MetaInfo".to_string()));
}

#[test]
fn decode_reads_back_what_a_pretty_json_writer_emits() {
    let mut org = default_org("/home/user/Downloads");
    org.add_rule("pdf".to_string(), "Documents".to_string());
    let compact = text_of(&encode_config(&org));
    let v: serde_json::Value = serde_json::from_str(&compact).expect("compact text parses");
    let pretty = serde_json::to_string_pretty(&v).expect("pretty printing succeeds");
    assert_ne!(pretty, compact);
    let back = decode_config(&pretty.chars().collect()).expect("pretty text decodes");
    assert_eq!(back.sorting_path, org.sorting_path);
    assert_eq!(back.rules.len(), org.rules.len());
    for i in 0..org.rules.len() {
        assert_eq!(back.rules.pair(i), org.rules.pair(i));
    }
}

#[test]
fn decode_rejects_whitespace_inside_tokens() {
    let text = chars_of("{\"rules\" x:{},\"sorting_path\":\"/d\"}");
    assert_eq!(decode_config(&text).err(), Some(OrgError::ConfigCorrupt));
}

#[test]
fn decode_keeps_the_stored_key_order() {
    let text = chars_of("{\"rules\":{\"avi\":\"V\",\"mkv\":\"V\",\"zip\":\"A\"},\"sorting_path\":\"/d\"}");
    let org = decode_config(&text).expect("sorted keys decode");
    assert_eq!(org.rules.pair(0).0, "avi");
    assert_eq!(org.rules.pair(1).0, "mkv");
    assert_eq!(org.rules.pair(2).0, "zip");
}

#[test]
fn round_trip_keeps_an_empty_path() {
    let org = Organizer::new(RuleSet::new(), "".to_string());
    let back = decode_config(&encode_config(&org)).expect("empty path round trips");
    assert_eq!(back.sorting_path, "");
    assert_eq!(back.rules.len(), 0);
}

#[test]
fn error_kinds_describe_themselves() {
    assert_eq!(OrgError::ConfigCorrupt.describe(), "the saved configuration is corrupt");
    assert_eq!(OrgError::FileDeleteFailed.describe(), "a file could not be deleted");
    assert_eq!(OrgError::FileMoveFailed.describe(), "a file could not be moved");
}

#[test]
fn stored_text_is_real_json() {
    let mut org = default_org("/home/user/Downloads");
    org.add_rule("odd\"ext".to_string(), "back\\slash\nand\ttabs".to_string());
    let out = text_of(&encode_config(&org));
    let v: serde_json::Value = serde_json::from_str(&out).expect("the stored text parses as JSON");
    assert_eq!(v["sorting_path"], "/home/user/Downloads");
    assert_eq!(v["rules"]["exe"], "Executables");
    assert_eq!(v["rules"]["torrent"], "MetaInfo");
    assert_eq!(v["rules"]["odd\"ext"], "back\\slash\nand\ttabs");
    assert_eq!(v["rules"].as_object().map(|o| o.len()), Some(3));
}
