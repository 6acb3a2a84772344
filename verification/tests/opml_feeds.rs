use llm_utils::errors::OpmlError;
use llm_utils::opml::{Body, Head, Opml, Outline};

fn folder(text: &str, children: Vec<Outline>) -> Outline {
    Outline {
        text: text.to_string(),
        type_: Some("folder".to_string()),
        outlines: Some(children),
        ..Default::default()
    }
}

fn rss(text: &str, xml_url: &str) -> Outline {
    Outline {
        text: text.to_string(),
        type_: Some("rss".to_string()),
        xml_url: Some(xml_url.to_string()),
        ..Default::default()
    }
}

fn document(title: &str, outlines: Vec<Outline>) -> Opml {
    Opml {
        version: "2.0".to_string(),
        head: Head { title: Some(title.to_string()), ..Default::default() },
        body: Body { outlines },
    }
}

#[test]
fn basic() {
    // <opml version="2.0"> with head title "My Subscription List" and a body of
    // a "Technology" folder, a top-level "Hacker News" feed and a "My Bookmarks" folder.
    let opml = document(
        "My Subscription List",
        vec![
            folder(
                "Technology",
                vec![
                    rss("TechCrunch", "https://techcrunch.com/feed/"),
                    rss("The Verge", "https://www.theverge.com/rss/index.xml"),
                ],
            ),
            rss("Hacker News", "https://hnrss.org/frontpage"),
            folder(
                "My Bookmarks",
                vec![
                    rss("Google", "https://techcrunch.com/feed/"),
                    rss("Stack Overflow", "https://techcrunch.com/feed/"),
                ],
            ),
        ],
    );
    assert_eq!(opml.version, "2.0");
    assert_eq!(opml.head.title, Some("My Subscription List".to_string()));
    assert_eq!(opml.body.outlines.len(), 3);
    let group_feeds = opml.get_group_feeds().unwrap();
    assert_eq!(group_feeds.len(), 3);
    // Root-level feeds come first (no folder), then folder groups in document order
    assert_eq!(group_feeds[0].group, "");
    assert_eq!(group_feeds[0].feeds.len(), 1);
    assert_eq!(group_feeds[0].feeds[0].text, Some("Hacker News".to_string()));
    assert_eq!(group_feeds[1].group, "Technology");
    assert_eq!(group_feeds[1].feeds.len(), 2);
    assert_eq!(group_feeds[2].group, "My Bookmarks");
    assert_eq!(group_feeds[2].feeds.len(), 2);
}

#[test]
fn test_missing_xml_url() {
    let invalid = Outline {
        text: "Invalid RSS".to_string(),
        type_: Some("rss".to_string()),
        ..Default::default()
    };
    let opml = document("Test", vec![invalid]);
    let result = opml.get_group_feeds();
    assert!(result.is_err());
}

#[test]
fn test_empty_opml() {
    let opml = Opml {
        version: "2.0".to_string(),
        head: Head::default(),
        body: Body::default(),
    };
    let group_feeds = opml.get_group_feeds().unwrap();
    assert_eq!(group_feeds.len(), 0);
}

#[test]
fn test_nested_folders() {
    let opml = document(
        "Nested Folders Test",
        vec![
            folder(
                "Tech",
                vec![
                    folder(
                        "News",
                        vec![
                            rss("TechCrunch", "https://techcrunch.com/feed/"),
                            rss("The Verge", "https://www.theverge.com/rss/index.xml"),
                        ],
                    ),
                    folder(
                        "Blogs",
                        vec![folder(
                            "Personal Tech",
                            vec![rss("John's Blog", "https://example.com/john.xml")],
                        )],
                    ),
                ],
            ),
            rss("Direct Feed", "https://example.com/direct.xml"),
        ],
    );
    let group_feeds = opml.get_group_feeds().unwrap();

    // Should have 3 groups: root level (empty), Tech/News, Tech/Blogs/Personal Tech
    assert_eq!(group_feeds.len(), 3);

    // Root-level feeds first
    let root_feeds = group_feeds.iter().find(|g| g.group.is_empty()).unwrap();
    assert_eq!(root_feeds.feeds.len(), 1);
    assert_eq!(root_feeds.feeds[0].text, Some("Direct Feed".to_string()));

    // Nested folder groups with full path
    let tech_news = group_feeds.iter().find(|g| g.group == "Tech/News").unwrap();
    assert_eq!(tech_news.feeds.len(), 2);
    assert_eq!(tech_news.feeds[0].text, Some("TechCrunch".to_string()));

    let tech_blogs_personal =
        group_feeds.iter().find(|g| g.group == "Tech/Blogs/Personal Tech").unwrap();
    assert_eq!(tech_blogs_personal.feeds.len(), 1);
    assert_eq!(tech_blogs_personal.feeds[0].text, Some("John's Blog".to_string()));
}

#[test]
fn test_deeply_nested_folders() {
    let opml = document(
        "Deep Nesting",
        vec![folder(
            "Level1",
            vec![folder(
                "Level2",
                vec![folder(
                    "Level3",
                    vec![folder("Level4", vec![rss("Deep Feed", "https://example.com/deep.xml")])],
                )],
            )],
        )],
    );
    let group_feeds = opml.get_group_feeds().unwrap();

    assert_eq!(group_feeds.len(), 1);
    assert_eq!(group_feeds[0].group, "Level1/Level2/Level3/Level4");
    assert_eq!(group_feeds[0].feeds.len(), 1);
    assert_eq!(group_feeds[0].feeds[0].text, Some("Deep Feed".to_string()));
}

#[test]
fn test_empty_text_no_double_slash() {
    let opml = document(
        "Test",
        vec![folder(
            "Parent",
            vec![folder("", vec![rss("Child", "https://example.com/feed.xml")])],
        )],
    );
    let group_feeds = opml.get_group_feeds().unwrap();

    // Empty-text folder is transparent: children are processed at the
    // parent path level, producing "Parent" (NOT "Parent//Child")
    assert_eq!(group_feeds.len(), 1);
    assert_eq!(group_feeds[0].group, "Parent");
    assert_eq!(group_feeds[0].feeds[0].text, Some("Child".to_string()));
}

#[test]
fn implicit_feeds_and_empty_folders() {
    let untyped = Outline {
        text: "Untyped".to_string(),
        xml_url: Some("https://example.com/u.xml".to_string()),
        html_url: Some("https://example.com".to_string()),
        title: Some("U".to_string()),
        ..Default::default()
    };
    let link = Outline {
        text: "Link".to_string(),
        type_: Some("link".to_string()),
        xml_url: Some("https://example.com/l.xml".to_string()),
        ..Default::default()
    };
    let note = Outline { text: "Note".to_string(), ..Default::default() };
    // The children of a feed outline are not looked at.
    let mut with_children = rss("Parent feed", "https://example.com/p.xml");
    with_children.outlines =
        Some(vec![Outline { text: "bad".to_string(), type_: Some("rss".to_string()), ..Default::default() }]);
    let opml = document(
        "Mixed",
        vec![untyped, folder("Empty", vec![note]), link, with_children, folder("No children", vec![])],
    );
    let groups = opml.get_group_feeds().unwrap();
    assert_eq!(groups.len(), 1);
    assert_eq!(groups[0].group, "");
    assert_eq!(groups[0].feeds.len(), 3);
    assert_eq!(groups[0].feeds[0].xml_url, "https://example.com/u.xml");
    assert_eq!(groups[0].feeds[0].html_url, Some("https://example.com".to_string()));
    assert_eq!(groups[0].feeds[0].title, Some("U".to_string()));
    assert_eq!(groups[0].feeds[1].text, Some("Link".to_string()));
    assert_eq!(groups[0].feeds[2].text, Some("Parent feed".to_string()));
}

#[test]
fn transparent_folders_come_before_the_level_feeds() {
    let opml = document(
        "Order",
        vec![
            rss("Top", "https://example.com/top.xml"),
            folder("Named", vec![rss("N", "https://example.com/n.xml")]),
            folder("", vec![rss("Inner", "https://example.com/i.xml")]),
        ],
    );
    let groups = opml.get_group_feeds().unwrap();
    assert_eq!(groups.len(), 3);
    assert_eq!(groups[0].group, "");
    assert_eq!(groups[0].feeds[0].text, Some("Inner".to_string()));
    assert_eq!(groups[1].group, "");
    assert_eq!(groups[1].feeds[0].text, Some("Top".to_string()));
    assert_eq!(groups[2].group, "Named");
}

#[test]
fn missing_url_deep_inside_a_folder_is_reported() {
    let bad = Outline { text: "Bad".to_string(), type_: Some("rss".to_string()), ..Default::default() };
    let opml = document(
        "Err",
        vec![rss("Good", "https://example.com/g.xml"), folder("A", vec![folder("B", vec![bad])])],
    );
    match opml.get_group_feeds() {
        Err(OpmlError::BadFeed(message)) => assert_eq!(message, "RSS outline missing xmlUrl"),
        _ => panic!("expected a bad feed error"),
    }
}

#[test]
fn default_document_is_version_two() {
    let opml = Opml::default();
    assert_eq!(opml.version, "2.0");
    assert_eq!(opml.head.title, None);
    assert!(opml.body.outlines.is_empty());
    let outline = Outline::default();
    assert!(outline.text.is_empty());
    assert!(outline.extra.is_empty());
}
