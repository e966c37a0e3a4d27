use blog::ordering::sort_records;
use blog::pipeline::collect;
use blog::pipeline::index_response;
use blog::record::Frontmatter;
use blog::record::FrontmatterError;

fn record(title: &str, order: u32) -> Frontmatter {
    Frontmatter {
        title: title.to_string(),
        file_name: format!("{}.md", title.to_lowercase()),
        description: "d".to_string(),
        posted: "2023-04-01".to_string(),
        tags: vec!["t".to_string()],
        author: "Ada".to_string(),
        estimated_reading_time: 4,
        order,
    }
}

fn doc(title: &str, order: u32) -> String {
    blog::codec::to_document(&record(title, order)).expect("plain fields must serialize")
}

#[test]
fn collect_returns_one_record_per_document() {
    let docs = vec![doc("A", 1), doc("B", 5), doc("C", 5)];
    let records = collect(&docs).expect("well-formed documents must collect");
    assert_eq!(records.len(), 3);
    assert_eq!(records[0].title, "A");
    assert_eq!(records[1].title, "B");
    assert_eq!(records[2].title, "C");
    assert_eq!(records[0].order, 1);
    assert_eq!(records[1].order, 5);
    assert_eq!(records[2].order, 5);
}

#[test]
fn collect_aborts_on_malformed_document() {
    let docs = vec![doc("A", 1), "title = \"broken".to_string(), doc("C", 5)];
    let e = collect(&docs).expect_err("one malformed document fails the collection");
    assert!(matches!(e, FrontmatterError::TomlError(_)));
}

#[test]
fn sort_is_descending_and_stable() {
    // walk order A(1), B(5), C(5): descending by order, B stays before C
    let sorted = sort_records(vec![record("A", 1), record("B", 5), record("C", 5)]);
    let titles: Vec<&str> = sorted.iter().map(|r| r.title.as_str()).collect();
    assert_eq!(titles, vec!["B", "C", "A"]);
}

#[test]
fn sort_of_empty_and_single() {
    assert_eq!(sort_records(Vec::new()).len(), 0);
    let sorted = sort_records(vec![record("A", 9)]);
    assert_eq!(sorted.len(), 1);
    assert_eq!(sorted[0].title, "A");
}

#[test]
fn sort_keeps_walk_order_when_all_orders_equal() {
    let sorted = sort_records(vec![record("A", 2), record("B", 2), record("C", 2)]);
    let titles: Vec<&str> = sorted.iter().map(|r| r.title.as_str()).collect();
    assert_eq!(titles, vec!["A", "B", "C"]);
}

#[test]
fn empty_directory_renders_a_page_with_no_posts() {
    let docs: Vec<String> = Vec::new();
    let records = collect(&docs).expect("an empty collection succeeds");
    assert!(records.is_empty());
    let sorted = sort_records(records);
    assert!(sorted.is_empty());

    let mut engine = tera::Tera::default();
    engine
        .add_raw_template(
            "home.html",
            "<ul>{% for post in posts %}<li>{{ post }}</li>{% endfor %}</ul>",
        )
        .expect("the template is well-formed");
    let mut context = tera::Context::new();
    let titles: Vec<String> = sorted.iter().map(|r| r.title.clone()).collect();
    context.insert("posts", &titles);
    let html = engine.render("home.html", &context).expect("rendering zero posts succeeds");
    let response = index_response(Ok(html));
    assert_eq!(response.status, 200);
    assert_eq!(response.content_type, "text/html");
    assert_eq!(response.body, "<ul></ul>");
}

#[test]
fn missing_author_document_gives_error_response() {
    let bad = "title = \"First Post\"\nfile_name = \"first-post.md\"\ndescription = \"An opening note\"\nposted = \"2023-04-01\"\ntags = [\"rust\"]\nestimated_reading_time = 7\norder = 3\n"
    .to_string();
    let outcome = match collect(&vec![bad]) {
        Ok(_) => panic!("a document missing its author must not collect"),
        Err(_) => Err("collection failed".to_string()),
    };
    let response = index_response(outcome);
    assert_eq!(response.status, 500);
    assert_eq!(response.content_type, "text/html");
    assert_eq!(response.body, "<p>Something went wrong!</p>");
}

#[test]
fn missing_template_gives_error_response() {
    let engine = tera::Tera::default();
    let context = tera::Context::new();
    let outcome = match engine.render("home.html", &context) {
        Ok(_) => panic!("rendering without the template must fail"),
        Err(e) => Err(e.to_string()),
    };
    let response = index_response(outcome);
    assert_eq!(response.status, 500);
    assert_eq!(response.content_type, "text/html");
    assert_eq!(response.body, "<p>Something went wrong!</p>");
}

#[test]
fn rendered_page_lists_posts_in_display_order() {
    let docs = vec![doc("A", 1), doc("B", 5), doc("C", 5)];
    let sorted = sort_records(collect(&docs).expect("well-formed documents must collect"));

    let mut engine = tera::Tera::default();
    engine
        .add_raw_template("home.html", "{% for post in posts %}{{ post }};{% endfor %}")
        .expect("the template is well-formed");
    let mut context = tera::Context::new();
    let titles: Vec<String> = sorted.iter().map(|r| r.title.clone()).collect();
    context.insert("posts", &titles);
    let html = engine.render("home.html", &context).expect("rendering succeeds");
    let response = index_response(Ok(html));
    assert_eq!(response.status, 200);
    assert_eq!(response.body, "B;C;A;");
}
