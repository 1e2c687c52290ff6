use delve::export::{read_export, ExportFile, ExportFiles, TableError};

fn files() -> ExportFiles {
    ExportFiles {
        crates: b"created_at,description,documentation,downloads,homepage,id,max_upload_size,name,readme,repository,updated_at\n\
2020-01-01,\"Serialize, deserialize\",,1000,,1,,serde,,https://github.com/serde-rs/serde,2020-02-01\n\
2020-01-01,json,,,,2,5,serde_json,,,2020-02-01\n"
            .to_vec(),
        crate_keywords: b"crate_id,keyword_id\n1,10\n".to_vec(),
        crate_categories: b"category_id,crate_id\n5,2\n".to_vec(),
        crate_owners: b"crate_id,created_at,created_by,owner_id,owner_kind\n1,2020,,7,0\n".to_vec(),
        keywords: b"crates_cnt,created_at,id,keyword\n1,2020,10,serialization\n".to_vec(),
        categories: b"category,crates_cnt,created_at,description,id,path,slug\nEncoding,1,2020,desc,5,encoding,encoding\n"
            .to_vec(),
        versions: b"checksum,crate_id,crate_size,created_at,downloads,features,id,license,links,num,published_by,updated_at,yanked\n\
abc,1,100,2020,5,{},100,MIT,,1.0.0,3,2020,t\n"
            .to_vec(),
        version_downloads: b"date,downloads,version_id\n2024-01-05,4,100\n".to_vec(),
    }
}

#[test]
fn reads_export_tables_by_header() {
    let tables = read_export(&files()).unwrap();
    assert_eq!(tables.crates.len(), 2);
    assert_eq!(tables.crates[0].description, "Serialize, deserialize");
    assert_eq!(tables.crates[0].downloads, Some(1000));
    assert_eq!(tables.crates[1].downloads, None);
    assert_eq!(tables.crates[1].max_upload_size, Some(5));
    assert_eq!(tables.crates[1].name, "serde_json");
    assert_eq!(tables.crate_categories[0].crate_id, 2);
    assert_eq!(tables.crate_categories[0].category_id, 5);
    assert_eq!(tables.crate_owners[0].created_by, None);
    assert_eq!(tables.versions[0].yanked, Some('t'));
    assert_eq!(tables.versions[0].published_by, Some(3));
    assert_eq!(tables.version_downloads[0].date, "2024-01-05");
    assert_eq!(tables.keywords[0].keyword, "serialization");
}

#[test]
fn bad_number_names_the_row() {
    let mut f = files();
    f.crate_keywords = b"crate_id,keyword_id\n1,10\n2,x\n".to_vec();
    let err = read_export(&f).unwrap_err();
    assert_eq!(err.file, ExportFile::CrateKeywords);
    assert_eq!(err.error, TableError::Row(2));
}

#[test]
fn missing_column_names_the_row() {
    let mut f = files();
    f.version_downloads = b"date,version_id\n2024-01-05,100\n".to_vec();
    let err = read_export(&f).unwrap_err();
    assert_eq!(err.file, ExportFile::VersionDownloads);
    assert_eq!(err.error, TableError::Row(1));
}

#[test]
fn malformed_csv_is_refused() {
    let mut f = files();
    f.keywords = b"crates_cnt,created_at,id,keyword\n1,2020,10\n".to_vec();
    let err = read_export(&f).unwrap_err();
    assert_eq!(err.file, ExportFile::Keywords);
    assert_eq!(err.error, TableError::Csv);
}

#[test]
fn header_only_table_is_empty() {
    let mut f = files();
    f.crate_owners = b"crate_id,created_at,created_by,owner_id,owner_kind\n".to_vec();
    assert!(read_export(&f).unwrap().crate_owners.is_empty());
    f.crate_owners = Vec::new();
    assert!(read_export(&f).unwrap().crate_owners.is_empty());
}

#[test]
fn integer_fields_read_hex_after_0x() {
    let mut f = files();
    f.crate_keywords = b"crate_id,keyword_id\n0x1F,+7\n".to_vec();
    let tables = read_export(&f).unwrap();
    assert_eq!(tables.crate_keywords[0].crate_id, 31);
    assert_eq!(tables.crate_keywords[0].keyword_id, 7);
    f.crate_keywords = b"crate_id,keyword_id\n0x,1\n".to_vec();
    assert_eq!(read_export(&f).unwrap_err().error, TableError::Row(1));
    f.crate_keywords = b"crate_id,keyword_id\n18446744073709551616,1\n".to_vec();
    assert_eq!(read_export(&f).unwrap_err().error, TableError::Row(1));
}
