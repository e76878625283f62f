use web2md::models::PageData;
use web2md::page_url::Url;
use web2md::render::{
    assemble, compose_fragment, document_chunks, join_fragments, order_fragments, prepare_page,
    render_document, render_pages, Conversion, RenderMode, RenderedFragment,
};

fn url(text: &str) -> Url {
    Url::parse(text).unwrap()
}

fn page(address: &str, html: &str) -> PageData {
    PageData { url: url(address), html: html.to_string() }
}

fn fragment(index: usize, text: &str) -> RenderedFragment {
    RenderedFragment { original_index: index, text: text.to_string() }
}

fn convert(conversion: Conversion) -> Option<String> {
    match conversion {
        Conversion::Markdown { html } => Some(html2md::parse_html(&html)),
        Conversion::Article { html, url, threshold } => {
            let mut config = dom_smoothie::Config::default();
            config.char_threshold = threshold;
            let mut reader =
                dom_smoothie::Readability::new(html.as_str(), Some(url.as_str()), Some(config)).ok()?;
            let article = reader.parse().ok()?;
            Some(html2md::parse_html(&article.content))
        }
    }
}

fn conversions(pages: &[PageData], mode: RenderMode) -> Vec<Option<String>> {
    pages.iter().map(|page| convert(prepare_page(page, mode))).collect()
}

fn document(pages: &[PageData], mode: RenderMode) -> String {
    render_document(pages, &conversions(pages, mode), mode)
}

const HELLO: &str = "<html><head><title>T</title><script>var a = 1;</script></head><body><h1>Hello</h1><p>World <b>bold</b></p><SCRIPT type=\"x\">alert(\"<b>no</b>\")\n</SCRIPT><p>After</p></body></html>";
const ONLY_SCRIPT: &str = "<html><body>   \n <script>only();</script></body></html>";
const BARE: &str = "<p>fragment only</p><script>s()</script>";
const ALL_MODES: [RenderMode; 3] =
    [RenderMode::Raw, RenderMode::BodyOnly, RenderMode::ReadabilityExtracted];

#[test]
fn a_page_has_a_separator_before_its_text() {
    for index in [0, 3] {
        let made = compose_fragment(index, &url("https://e.com/a"), Some("text"), RenderMode::BodyOnly);
        assert_eq!(made, fragment(index, "--- https://e.com/a ---\n\ntext"));
        let made = compose_fragment(index, &url("https://e.com/a"), Some(" text\n"), RenderMode::Raw);
        assert_eq!(made, fragment(index, "--- https://e.com/a ---\n\n text\n"));
    }
}

#[test]
fn an_extracted_article_has_no_separator() {
    for index in [0, 2] {
        let made = compose_fragment(
            index,
            &url("https://e.com/a"),
            Some("text"),
            RenderMode::ReadabilityExtracted,
        );
        assert_eq!(made, fragment(index, "text"));
    }
}

#[test]
fn a_blank_text_gives_an_empty_fragment() {
    for mode in ALL_MODES {
        for index in [0, 1, 7] {
            for body in ["", " ", "\n\n", " \t\r\n\u{a0}"] {
                let made = compose_fragment(index, &url("https://e.com/a"), Some(body), mode);
                assert_eq!(made, fragment(index, ""));
            }
        }
    }
}

#[test]
fn a_conversion_that_gave_nothing_gives_an_empty_fragment() {
    for mode in ALL_MODES {
        let made = compose_fragment(4, &url("https://e.com/a"), None, mode);
        assert_eq!(made, fragment(4, ""));
    }
    let pages = vec![page("https://e.com/a", "<p>one</p>"), page("https://e.com/b", "<p>two</p>")];
    let converted = vec![None, Some("two".to_string())];
    assert_eq!(render_document(&pages, &converted, RenderMode::BodyOnly), "--- https://e.com/b ---\n\ntwo");
    assert_eq!(render_document(&pages, &[], RenderMode::BodyOnly), "");
    assert_eq!(
        render_document(&pages, &[Some("one".to_string())], RenderMode::BodyOnly),
        "--- https://e.com/a ---\n\none"
    );
}

#[test]
fn the_raw_page_is_left_as_it_is() {
    let prepared = prepare_page(&page("https://e.com/a", HELLO), RenderMode::Raw);
    assert_eq!(prepared, Conversion::Markdown { html: HELLO.to_string() });
    assert_eq!(
        convert(prepared),
        Some("Tvar a = 1;\n\nHello\n==========\n\nWorld **bold**\n\nalert(\"\\<b\\>no\\</b\\>\")\n\nAfter".to_string())
    );
}

#[test]
fn the_body_is_prepared_without_its_scripts() {
    let prepared = prepare_page(&page("https://e.com/a", HELLO), RenderMode::BodyOnly);
    assert_eq!(
        prepared,
        Conversion::Markdown { html: "<h1>Hello</h1><p>World <b>bold</b></p><p>After</p>".to_string() }
    );
    assert_eq!(convert(prepared), Some("Hello\n==========\n\nWorld **bold**\n\nAfter".to_string()));
}

#[test]
fn scripts_go_in_any_letter_case_and_over_lines() {
    let html = "<body>a<script>1</script>b<ScRiPt src=x>\n2\n</sCrIpT >c<script>3</SCRIPT>d<script>open</body>";
    let prepared = prepare_page(&page("https://e.com/a", html), RenderMode::BodyOnly);
    match prepared {
        Conversion::Markdown { html } => {
            assert!(html.starts_with("ab"), "{html:?}");
            assert!(!html.contains("<script>1"), "{html:?}");
            assert!(!html.contains("3"), "{html:?}");
            assert!(html.contains("d"), "{html:?}");
        }
        other => panic!("{other:?}"),
    }
}

#[test]
fn a_page_without_a_body_element_is_prepared_whole() {
    let prepared = prepare_page(&page("https://e.com/c", BARE), RenderMode::BodyOnly);
    assert_eq!(prepared, Conversion::Markdown { html: "<p>fragment only</p>".to_string() });
}

#[test]
fn the_article_is_left_to_be_extracted() {
    let prepared = prepare_page(&page("https://e.com/a#x", HELLO), RenderMode::ReadabilityExtracted);
    assert_eq!(
        prepared,
        Conversion::Article {
            html: HELLO.to_string(),
            url: "https://e.com/a".to_string(),
            threshold: 500,
        }
    );
}

#[test]
fn the_article_is_extracted_from_its_surroundings() {
    let html = format!(
        "<html><head><title>Site - Story</title></head><body><nav><a href=\"/\">Home</a> <a href=\"/x\">X</a></nav><article><h1>Story</h1>{}</article><footer>Copyright</footer><script>var x = 1;</script></body></html>",
        "<p>Lorem ipsum dolor sit amet, consectetur adipiscing elit.</p>".repeat(12)
    );
    let story = page("https://e.com/story", &html);
    let converted = convert(prepare_page(&story, RenderMode::ReadabilityExtracted));
    let made = compose_fragment(2, &story.url, converted.as_deref(), RenderMode::ReadabilityExtracted);
    let paragraphs = vec!["Lorem ipsum dolor sit amet, consectetur adipiscing elit."; 12].join("\n\n");
    assert_eq!(made, fragment(2, &paragraphs));
}

#[test]
fn a_page_without_text_contributes_nothing() {
    let empty = page("https://e.com/b", ONLY_SCRIPT);
    let nothing = page("https://e.com/d", "");
    let pages = vec![page("https://e.com/a", "<p>one</p>"), page("https://e.com/c", "<p>three</p>")];
    for mode in [RenderMode::BodyOnly, RenderMode::ReadabilityExtracted] {
        let expected = document(&pages, mode);
        for blank in [&empty, &nothing] {
            for at in 0..=pages.len() {
                let mut longer = pages.clone();
                longer.insert(at, blank.clone());
                assert_eq!(longer.len(), 3);
                assert_eq!(document(&longer, mode), expected, "{mode:?} {at}");
            }
        }
    }
    let expected = document(&pages, RenderMode::Raw);
    for at in 0..=pages.len() {
        let mut longer = pages.clone();
        longer.insert(at, nothing.clone());
        assert_eq!(document(&longer, RenderMode::Raw), expected);
    }
    assert_eq!(
        document(&pages, RenderMode::BodyOnly),
        "--- https://e.com/a ---\n\none\n\n\n--- https://e.com/c ---\n\nthree"
    );
    assert_eq!(document(&[empty, nothing], RenderMode::BodyOnly), "");
}

#[test]
fn the_document_holds_the_pages_in_their_order() {
    let pages = vec![
        page("https://e.com/a", HELLO),
        page("https://e.com/b", ONLY_SCRIPT),
        page("https://e.com/c", BARE),
        page("https://e.com/d", ""),
    ];
    assert_eq!(
        document(&pages, RenderMode::BodyOnly),
        "--- https://e.com/a ---\n\nHello\n==========\n\nWorld **bold**\n\nAfter\n\n\n--- https://e.com/c ---\n\nfragment only"
    );
    assert_eq!(
        document(&pages, RenderMode::Raw),
        "--- https://e.com/a ---\n\nTvar a = 1;\n\nHello\n==========\n\nWorld **bold**\n\nalert(\"\\<b\\>no\\</b\\>\")\n\nAfter\n\n\n--- https://e.com/b ---\n\n only();\n\n\n--- https://e.com/c ---\n\nfragment only\n\ns()"
    );
    assert_eq!(
        document(&pages, RenderMode::ReadabilityExtracted),
        "Hello\n----------\n\nWorld **bold**\n\nAfter\n\n\nfragment only"
    );
    assert_eq!(document(&[], RenderMode::BodyOnly), "");
}

#[test]
fn two_pages_stand_in_the_document_in_their_order() {
    let pages = vec![
        page("https://example.com/ok1", "<html><body><p>alpha</p></body></html>"),
        page("https://example.com/ok2", "<html><body><p>beta</p></body></html>"),
    ];
    let fragments = render_pages(&pages, &conversions(&pages, RenderMode::BodyOnly), RenderMode::BodyOnly);
    let (chunks, kept) = document_chunks(fragments, true);
    let text = kept.unwrap();
    assert_eq!(chunks.concat(), text);
    assert_eq!(
        text,
        "--- https://example.com/ok1 ---\n\nalpha\n\n\n--- https://example.com/ok2 ---\n\nbeta"
    );
    assert!(text.find("alpha").unwrap() < text.find("beta").unwrap());
    assert!(!text.contains("fail1"));
}

#[test]
fn fragments_made_in_any_order_give_the_same_document() {
    let pages = vec![
        page("https://e.com/a", HELLO),
        page("https://e.com/b", ONLY_SCRIPT),
        page("https://e.com/c", BARE),
    ];
    let mode = RenderMode::BodyOnly;
    let expected = document(&pages, mode);
    let orders: [[usize; 3]; 6] = [[0, 1, 2], [0, 2, 1], [1, 0, 2], [1, 2, 0], [2, 0, 1], [2, 1, 0]];
    for order in orders {
        let arrived: Vec<RenderedFragment> = order
            .iter()
            .map(|&i| {
                let converted = convert(prepare_page(&pages[i], mode));
                compose_fragment(i, &pages[i].url, converted.as_deref(), mode)
            })
            .collect();
        assert_eq!(assemble(arrived), expected);
    }
    let rendered = render_pages(&pages, &conversions(&pages, mode), mode);
    assert_eq!(join_fragments(&rendered), expected);
}

#[test]
fn fragments_are_ordered_by_their_place() {
    let arrived = vec![fragment(2, "c"), fragment(0, "a"), fragment(3, "d"), fragment(1, "b")];
    let ordered = order_fragments(arrived);
    assert_eq!(ordered, vec![fragment(0, "a"), fragment(1, "b"), fragment(2, "c"), fragment(3, "d")]);
    assert_eq!(join_fragments(&ordered), "a\n\n\nb\n\n\nc\n\n\nd");
    let twice = vec![fragment(1, "x"), fragment(0, "a"), fragment(1, "y")];
    assert_eq!(assemble(twice), "a\n\n\nx\n\n\ny");
    assert_eq!(assemble(Vec::new()), "");
    assert_eq!(assemble(vec![fragment(1, ""), fragment(0, "")]), "");
}

#[test]
fn the_gap_stands_between_texts_only() {
    assert_eq!(join_fragments(&[fragment(0, ""), fragment(1, "b")]), "b");
    assert_eq!(join_fragments(&[fragment(0, "a"), fragment(1, "")]), "a");
    assert_eq!(join_fragments(&[fragment(0, "a"), fragment(1, ""), fragment(2, "c")]), "a\n\n\nc");
    assert_eq!(join_fragments(&[fragment(0, ""), fragment(1, ""), fragment(2, "c"), fragment(3, "")]), "c");
}

#[test]
fn the_chunks_to_write_leave_out_the_empty_fragments() {
    let arrived = vec![fragment(3, "d"), fragment(1, ""), fragment(0, "a"), fragment(2, "c")];
    let (chunks, document) = document_chunks(arrived, true);
    assert_eq!(chunks, vec!["a", "\n\n\nc", "\n\n\nd"]);
    assert_eq!(document, Some("a\n\n\nc\n\n\nd".to_string()));
    assert_eq!(chunks.concat(), "a\n\n\nc\n\n\nd");
    let arrived = vec![fragment(1, "b"), fragment(0, "")];
    assert_eq!(document_chunks(arrived, false), (vec!["b".to_string()], None));
    assert_eq!(document_chunks(Vec::new(), true), (Vec::new(), Some(String::new())));
    assert_eq!(document_chunks(Vec::new(), false), (Vec::new(), None));
}
