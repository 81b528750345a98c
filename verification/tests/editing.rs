use chum_world::dgc::{DgcArchive, DgcFile};
use chum_world::editor::{Archive, ArchiveFile};
use chum_world::ngc::NgcArchive;
use chum_world::util::hash_name;

fn named(name: &str, typeid: &str, subtypeid: &str, data: Vec<u8>) -> ArchiveFile {
    ArchiveFile {
        data,
        name: name.to_string(),
        typeid: typeid.to_string(),
        subtypeid: subtypeid.to_string(),
    }
}

#[test]
fn find_and_exists_by_name() {
    let a = Archive {
        files: vec![named("A", "TXT", "", vec![1]), named("B", "BIN", "S", vec![2])],
        header: String::new(),
    };
    assert!(a.exists_file("A"));
    assert_eq!(a.find("B"), Some(1));
    assert_eq!(a.find("C"), None);
    assert!(!a.exists_file("C"));
}

#[test]
fn add_replaces_or_appends() {
    let mut a = Archive { files: vec![named("A", "TXT", "", vec![1])], header: String::new() };
    let prev = a.add(named("A", "TXT", "", vec![9]));
    assert_eq!(prev.unwrap().data, vec![1]);
    assert_eq!(a.files.len(), 1);
    assert_eq!(a.files[0].data, vec![9]);
    let none = a.add(named("B", "BIN", "", vec![2]));
    assert!(none.is_none());
    assert_eq!(a.files.len(), 2);
}

#[test]
fn sort_orders_by_type_subtype_name() {
    let mut a = Archive {
        files: vec![
            named("zeta", "TXT", "", vec![]),
            named("alpha", "BIN", "x", vec![]),
            named("mid", "TXT", "", vec![]),
            named("alpha", "BIN", "a", vec![]),
        ],
        header: String::new(),
    };
    a.sort_files();
    let keys: Vec<(&str, &str, &str)> = a
        .files
        .iter()
        .map(|f| (f.typeid.as_str(), f.subtypeid.as_str(), f.name.as_str()))
        .collect();
    assert_eq!(
        keys,
        vec![("BIN", "a", "alpha"), ("BIN", "x", "alpha"), ("TXT", "", "mid"), ("TXT", "", "zeta")]
    );
}

#[test]
fn round_trip_through_container() {
    let mut src = Archive {
        files: vec![named("GROUND", "TXT", "", vec![1, 2, 3]), named("SKY", "BIN", "CLOUD", vec![4, 5])],
        header: "e".repeat(256),
    };
    src.sort_files();
    let (dgc, ngc) = src.into_archives();
    // names land in the table under their hashes
    assert_eq!(ngc.get(hash_name("GROUND")).unwrap().as_str(), "GROUND");
    assert_eq!(ngc.get(hash_name("CLOUD")).unwrap().as_str(), "CLOUD");
    // an empty subtype reuses the record's own name hash
    let back = Archive::from_archives(dgc, ngc).unwrap();
    assert_eq!(back.header, src.header);
    assert_eq!(back.files.len(), 2);
    for f in &src.files {
        let i = back.find(&f.name).unwrap();
        assert_eq!(back.files[i].typeid, f.typeid);
        assert_eq!(back.files[i].subtypeid, f.subtypeid);
        assert_eq!(back.files[i].data, f.data);
    }
}

#[test]
fn missing_name_yields_nothing() {
    let mut dgc = DgcArchive::new(&"e".repeat(256), 0);
    dgc.add_file(DgcFile { data: vec![1], type_id: 7, id1: 8, id2: 9 });
    let ngc = NgcArchive::new();
    assert!(Archive::from_archives(dgc, ngc).is_none());
}
