use blog::codec::parse_document;
use blog::codec::to_document;
use blog::record::Frontmatter;
use blog::record::FrontmatterError;

fn sample_doc() -> String {
    "title = \"First Post\"\nfile_name = \"first-post.md\"\ndescription = \"An opening note\"\nposted = \"2023-04-01\"\ntags = [\"rust\", \"blog\"]\nauthor = \"Ada\"\nestimated_reading_time = 7\norder = 3\n"
    .to_string()
}

fn sample_record() -> Frontmatter {
    Frontmatter {
        title: "First Post".to_string(),
        file_name: "first-post.md".to_string(),
        description: "An opening note".to_string(),
        posted: "2023-04-01".to_string(),
        tags: vec!["rust".to_string(), "blog".to_string()],
        author: "Ada".to_string(),
        estimated_reading_time: 7,
        order: 3,
    }
}

fn assert_same(a: &Frontmatter, b: &Frontmatter) {
    assert_eq!(a.title, b.title);
    assert_eq!(a.file_name, b.file_name);
    assert_eq!(a.description, b.description);
    assert_eq!(a.posted, b.posted);
    assert_eq!(a.tags, b.tags);
    assert_eq!(a.author, b.author);
    assert_eq!(a.estimated_reading_time, b.estimated_reading_time);
    assert_eq!(a.order, b.order);
}

#[test]
fn parse_well_formed_document() {
    let f = parse_document(&sample_doc()).expect("well-formed document must parse");
    assert_same(&f, &sample_record());
}

#[test]
fn serialize_is_canonical() {
    let s = to_document(&sample_record()).expect("plain fields must serialize");
    assert_eq!(s, sample_doc());
}

#[test]
fn round_trip_preserves_record() {
    let original = sample_record();
    let doc = to_document(&original).expect("plain fields must serialize");
    let back = parse_document(&doc).expect("a serialized record must parse");
    assert_same(&back, &original);
}

#[test]
fn round_trip_empty_tags_and_zero_counters() {
    let original = Frontmatter {
        title: "T".to_string(),
        file_name: "t.md".to_string(),
        description: String::new(),
        posted: String::new(),
        tags: Vec::new(),
        author: "B".to_string(),
        estimated_reading_time: 0,
        order: 0,
    };
    let doc = to_document(&original).expect("plain fields must serialize");
    assert!(doc.contains("tags = []\n"));
    assert!(doc.contains("estimated_reading_time = 0\n"));
    assert!(doc.ends_with("order = 0\n"));
    let back = parse_document(&doc).expect("a serialized record must parse");
    assert_same(&back, &original);
}

#[test]
fn missing_author_is_parse_error() {
    let doc = "title = \"First Post\"\nfile_name = \"first-post.md\"\ndescription = \"An opening note\"\nposted = \"2023-04-01\"\ntags = [\"rust\", \"blog\"]\nestimated_reading_time = 7\norder = 3\n";
    let e = parse_document(doc).expect_err("a document missing a field must not parse");
    assert!(matches!(e, FrontmatterError::TomlError(_)));
}

#[test]
fn oversized_counter_is_parse_error() {
    let doc = sample_doc().replace("order = 3", "order = 4294967296");
    let e = parse_document(&doc).expect_err("an oversized counter must not parse");
    assert!(matches!(e, FrontmatterError::TomlError(_)));
}

#[test]
fn trailing_text_is_parse_error() {
    let doc = sample_doc() + "extra = \"no\"\n";
    assert!(parse_document(&doc).is_err());
}

#[test]
fn unterminated_quote_is_parse_error() {
    let doc = sample_doc().replace("\"Ada\"", "\"Ada");
    assert!(parse_document(&doc).is_err());
}

#[test]
fn unquoted_value_is_parse_error() {
    let doc = sample_doc().replace("\"Ada\"", "Ada");
    assert!(parse_document(&doc).is_err());
}

#[test]
fn quote_inside_field_fails_serialization() {
    let mut r = sample_record();
    r.title = "a \"quoted\" word".to_string();
    let e = to_document(&r).expect_err("a quote cannot stand inside a line");
    assert!(matches!(e, FrontmatterError::OtherError(_)));
}

#[test]
fn line_break_inside_tag_fails_serialization() {
    let mut r = sample_record();
    r.tags = vec!["one\ntwo".to_string()];
    assert!(to_document(&r).is_err());
}

#[test]
fn canonical_document_is_plain_toml() {
    let doc = to_document(&sample_record()).expect("plain fields must serialize");
    let table: toml::Table = doc.parse().expect("the canonical document is TOML");
    assert_eq!(table["title"].as_str(), Some("First Post"));
    assert_eq!(table["file_name"].as_str(), Some("first-post.md"));
    assert_eq!(table["description"].as_str(), Some("An opening note"));
    assert_eq!(table["posted"].as_str(), Some("2023-04-01"));
    let tags: Vec<&str> = table["tags"]
        .as_array()
        .expect("tags is a list")
        .iter()
        .map(|v| v.as_str().expect("each tag is text"))
        .collect();
    assert_eq!(tags, vec!["rust", "blog"]);
    assert_eq!(table["author"].as_str(), Some("Ada"));
    assert_eq!(table["estimated_reading_time"].as_integer(), Some(7));
    assert_eq!(table["order"].as_integer(), Some(3));
}
