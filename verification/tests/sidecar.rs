use chum_world::extract::{assemble_archive, JsonData, JsonDataFile, NamedFile};
use chum_world::util::hash_name;

fn entry(id: &str, type_id: &str) -> JsonDataFile {
    JsonDataFile {
        id: id.to_string(),
        type_id: type_id.to_string(),
        subtype_id: id.to_string(),
        file_name: format!("{}.bin", id),
    }
}

#[test]
fn exists_id_finds_entries() {
    let d = JsonData { header: String::new(), files: vec![entry("A", "TXT"), entry("B", "BIN")] };
    assert!(d.exists_id("A"));
    assert!(d.exists_id("B"));
    assert!(!d.exists_id("C"));
    assert!(!d.exists_id(""));
}

#[test]
fn merge_appends_only_new_ids() {
    let mut d = JsonData { header: "H".to_string(), files: vec![entry("A", "TXT")] };
    let other = JsonData {
        header: "ignored".to_string(),
        files: vec![entry("A", "BIN"), entry("B", "BIN"), entry("B", "TXT"), entry("C", "TXT")],
    };
    d.merge_from(other);
    assert_eq!(d.header, "H");
    let ids: Vec<&str> = d.files.iter().map(|f| f.id.as_str()).collect();
    assert_eq!(ids, vec!["A", "B", "C"]);
    // the entry kept for an already-present id is the first one seen
    assert_eq!(d.files[0].type_id, "TXT");
    assert_eq!(d.files[1].type_id, "BIN");
}

#[test]
fn assemble_builds_table_and_container() {
    let header = "L".repeat(256);
    let files = vec![
        NamedFile {
            id: "GROUND".to_string(),
            type_id: "TXT".to_string(),
            subtype_id: "GROUND".to_string(),
            data: vec![1, 2, 3],
        },
        NamedFile {
            id: "SKY".to_string(),
            type_id: "BIN".to_string(),
            subtype_id: "CLOUD".to_string(),
            data: vec![4; 5000],
        },
    ];
    let archive = assemble_archive(&header, files);
    // every name sits in the table under its hash
    assert_eq!(archive.ngc.get(hash_name("GROUND")).unwrap().as_str(), "GROUND");
    assert_eq!(archive.ngc.get(hash_name("TXT")).unwrap().as_str(), "TXT");
    assert_eq!(archive.ngc.get(hash_name("SKY")).unwrap().as_str(), "SKY");
    assert_eq!(archive.ngc.get(hash_name("BIN")).unwrap().as_str(), "BIN");
    assert_eq!(archive.ngc.get(hash_name("CLOUD")).unwrap().as_str(), "CLOUD");
    // the container holds both records under the name hashes
    assert_eq!(archive.dgc.header.legal_notice, header.as_bytes());
    let files = archive.dgc.iter_files();
    assert_eq!(files.len(), 2);
    let ground = files.iter().find(|f| f.data == vec![1, 2, 3]).unwrap();
    assert_eq!(ground.id1, hash_name("GROUND"));
    assert_eq!(ground.id2, hash_name("GROUND"));
    assert_eq!(ground.type_id, hash_name("TXT"));
    let sky = files.iter().find(|f| f.data.len() == 5000).unwrap();
    assert_eq!(sky.id1, hash_name("SKY"));
    assert_eq!(sky.id2, hash_name("CLOUD"));
    assert_eq!(sky.type_id, hash_name("BIN"));
    // sized from the largest payload: room for a 5000-byte record
    assert_eq!(archive.dgc.chunk_size, 6144);
    for c in &archive.dgc.data {
        assert!(c.get_size() <= archive.dgc.chunk_size);
    }
}

#[test]
fn assemble_of_nothing_is_empty() {
    let header = "L".repeat(256);
    let archive = assemble_archive(&header, vec![]);
    assert_eq!(archive.dgc.chunk_size, 2048);
    assert_eq!(archive.dgc.data.len(), 0);
    assert!(archive.ngc.names.is_empty());
}
