use llms_fetch_mcp::{
    classify_content, extract_headings, generate_toc, html_to_markdown, is_empty_or_invisible,
    path_component_ok, render_toc, sanitize_query, Heading, HtmlError, TocConfig,
};

#[test]
fn small_document_yields_exact_outline() {
    let md = "# H1\n## H2\n### H3";
    let config = TocConfig {
        toc_budget: 4000,
        full_content_threshold: 8000,
    };
    let toc = generate_toc(md, 9000, &config).unwrap();
    assert_eq!(
        toc,
        "  1\u{2192}# H1\n  2\u{2192}## H2\n  3\u{2192}### H3"
    );
}

#[test]
fn two_huge_headings_overflow_every_level() {
    let md = format!("# {}\n# {}", "x".repeat(10000), "y".repeat(10000));
    let config = TocConfig {
        toc_budget: 10,
        full_content_threshold: 2000,
    };
    assert!(generate_toc(&md, md.len(), &config).is_none());
}

#[test]
fn zero_threshold_small_document() {
    let md = "# Title\nContent.";
    let config = TocConfig {
        toc_budget: 1000,
        full_content_threshold: 0,
    };
    let toc = generate_toc(md, 16, &config).unwrap();
    assert!(toc.starts_with("  1\u{2192}# Title"));
}

#[test]
fn outline_length_stays_within_budget() {
    let mut md = String::new();
    for c in 0..8 {
        md.push_str(&format!("# Chapter {c}\n\n"));
        for s in 0..6 {
            md.push_str(&format!("## Section {c}.{s}\n\nprose\n\n"));
        }
    }
    for budget in [50usize, 120, 300, 900, 2500] {
        let config = TocConfig {
            toc_budget: budget,
            full_content_threshold: 0,
        };
        if let Some(toc) = generate_toc(&md, md.len(), &config) {
            assert!(toc.len() <= budget, "budget {budget} exceeded: {}", toc.len());
        }
    }
}

#[test]
fn crlf_and_lf_line_numbers_agree() {
    let lf = "intro\n\n# One\n\ntext\n\n## Two\n\nmore\n\n### Three\n";
    let crlf = lf.replace('\n', "\r\n");
    let from_lf = extract_headings(lf);
    let from_crlf = extract_headings(&crlf);
    assert_eq!(from_lf.len(), from_crlf.len());
    for (a, b) in from_lf.iter().zip(from_crlf.iter()) {
        assert_eq!(a.line_number, b.line_number);
        assert_eq!(a.level, b.level);
    }
}

#[test]
fn setext_title_has_no_underline_in_text() {
    let md = "Title\n===\n\nSubtitle\n---\n";
    let headings = extract_headings(md);
    assert_eq!(headings.len(), 2);
    assert_eq!(headings[0].level, 1);
    assert_eq!(headings[0].text, "Title");
    assert!(!headings[0].text.contains('='));
    assert_eq!(headings[1].level, 2);
    assert_eq!(headings[1].text, "Subtitle");
    assert!(!headings[1].text.contains('-'));
}

#[test]
fn invisible_only_link_heading_is_dropped_entirely() {
    let md = "# Kept\n\n### [\u{200B}](#anchor)\n\n## Also kept";
    let headings = extract_headings(md);
    assert_eq!(headings.len(), 2);
    assert_eq!(headings[0].text, "# Kept");
    assert_eq!(headings[1].text, "## Also kept");
}

#[test]
fn nonempty_link_markup_is_preserved() {
    let md = "## See [the guide](https://example.com/guide) here";
    let headings = extract_headings(md);
    assert_eq!(headings.len(), 1);
    assert_eq!(
        headings[0].text,
        "## See [the guide](https://example.com/guide) here"
    );
}

#[test]
fn line_numbers_grow_with_document_order() {
    let md = "# A\n\ntext\n\n## B\n\n```\n# fenced\n```\n\n### C\n\n#### D";
    let headings = extract_headings(md);
    assert!(headings.len() >= 3);
    for w in headings.windows(2) {
        assert!(w[0].line_number <= w[1].line_number);
    }
}

#[test]
fn query_sanitization_replaces_unsafe_characters() {
    assert_eq!(sanitize_query("path=../etc/passwd"), "path=.._etc_passwd");
    assert_eq!(sanitize_query("name=file:name?test"), "name=file_name_test");
    assert_eq!(
        sanitize_query("path=..\\etc\\passwd"),
        "path=.._etc_passwd"
    );
    assert_eq!(sanitize_query("a<b>c|d*e\"f"), "a_b_c_d_e_f");
    assert_eq!(sanitize_query("plain=value"), "plain=value");
}

#[test]
fn dot_components_are_rejected() {
    assert!(!path_component_ok("."));
    assert!(!path_component_ok(".."));
    assert!(path_component_ok("docs"));
    assert!(path_component_ok(".hidden"));
    assert!(path_component_ok("..."));
}

#[test]
fn converted_markdown_carries_no_tags() {
    let html = "<html><body><h1>Title</h1><p>A paragraph of text.</p></body></html>";
    let md = html_to_markdown(html, "https://example.com").unwrap();
    assert!(md.contains("Title"));
    assert!(md.contains("A paragraph of text."));
    assert!(!md.contains("<h1>"));
    assert!(!md.contains("<p>"));
}

#[test]
fn bare_domain_gets_directory_variations() {
    let variations = llms_fetch_mcp::get_url_variations("https://example.com");
    assert_eq!(variations.len(), 6);
    assert_eq!(variations[0], "https://example.com");
    assert_eq!(variations[1], "https://example.com.md");
    assert_eq!(variations[5], "https://example.com/llms-full.txt");
}

#[test]
fn deepest_fitting_level_is_selected() {
    let mut md = String::new();
    md.push_str("# Top\n\n");
    for s in 0..5 {
        md.push_str(&format!("## Sub {s}\n\n"));
    }
    for t in 0..40 {
        md.push_str(&format!("### Deep {t} with a fairly long title attached\n\n"));
    }
    // A budget that fits levels 1 and 2 but not 3.
    let config = TocConfig {
        toc_budget: 120,
        full_content_threshold: 0,
    };
    let toc = generate_toc(&md, md.len(), &config).unwrap();
    assert!(toc.contains("## Sub 4"));
    assert!(!toc.contains("### Deep"));
}

#[test]
fn whitespace_input_gives_empty_input_error() {
    assert_eq!(
        html_to_markdown("", "https://example.com"),
        Err(HtmlError::EmptyInput)
    );
    assert_eq!(
        html_to_markdown(" \n\t ", "https://example.com"),
        Err(HtmlError::EmptyInput)
    );
}

#[test]
fn empty_body_gives_empty_output_error() {
    let html = "<html><body></body></html>";
    assert_eq!(
        html_to_markdown(html, "https://example.com"),
        Err(HtmlError::EmptyOutput)
    );
}
#[test]
fn readability_strips_navigation_boilerplate() {
    let mut body = String::new();
    body.push_str("<nav><ul>");
    for i in 0..20 {
        body.push_str(&format!("<li><a href=\"/p{i}\">NAVJUNK{i}</a></li>"));
    }
    body.push_str("</ul></nav><article><h1>Real Article</h1>");
    for p in 0..30 {
        body.push_str(&format!(
            "<p>Paragraph {p} with a reasonable amount of running text so the \
             readable-content pass keeps this article body.</p>"
        ));
    }
    body.push_str("</article>");
    let html = format!("<html><head><title>T</title></head><body>{body}</body></html>");
    let md = llms_fetch_mcp::html_to_markdown(&html, "https://example.com/post").unwrap();
    assert!(md.contains("Real Article"));
    assert!(!md.contains("NAVJUNK3"));
}

#[test]
fn line_number_field_width_grows_with_line_numbers() {
    // width 3 below 100, 4 below 1000, 5 below 10000
    let h = |level: u8, line_number: usize, text: &str| Heading {
        level,
        line_number,
        text: text.to_string(),
    };
    let narrow = vec![h(1, 1, "# A"), h(1, 99, "# B")];
    assert_eq!(render_toc(&narrow, 6), "  1\u{2192}# A\n 99\u{2192}# B");

    let wider = vec![h(1, 1, "# A"), h(1, 150, "# B")];
    assert_eq!(render_toc(&wider, 6), "   1\u{2192}# A\n 150\u{2192}# B");

    let wide = vec![h(1, 1, "# A"), h(1, 1500, "# B")];
    assert_eq!(render_toc(&wide, 6), "    1\u{2192}# A\n 1500\u{2192}# B");

    let widest = vec![h(1, 1, "# A"), h(1, 123456, "# B")];
    assert_eq!(render_toc(&widest, 6), "     1\u{2192}# A\n123456\u{2192}# B");
}

#[test]
fn render_filters_by_level() {
    let headings = vec![
        Heading {
            level: 1,
            line_number: 1,
            text: "# A".to_string(),
        },
        Heading {
            level: 2,
            line_number: 2,
            text: "## B".to_string(),
        },
        Heading {
            level: 3,
            line_number: 3,
            text: "### C".to_string(),
        },
    ];
    assert_eq!(render_toc(&headings, 1), "  1\u{2192}# A");
    assert_eq!(render_toc(&headings, 2), "  1\u{2192}# A\n  2\u{2192}## B");
    assert_eq!(render_toc(&headings, 0), "");
}

#[test]
fn invisibility_test_on_link_text() {
    assert!(is_empty_or_invisible(""));
    assert!(is_empty_or_invisible(" \t\n"));
    assert!(is_empty_or_invisible("\u{200B}\u{FEFF}\u{200C}\u{200D}"));
    assert!(is_empty_or_invisible("\u{B6}"));
    assert!(is_empty_or_invisible("\u{A0} \u{3000}"));
    assert!(!is_empty_or_invisible("a"));
    assert!(!is_empty_or_invisible("\u{200B}x"));
}

#[test]
fn content_classification_labels() {
    assert_eq!(
        classify_content("https://a.com/docs/llms-full.txt", false, false),
        "llms-full"
    );
    assert_eq!(
        classify_content("https://a.com/docs/llms.txt", false, false),
        "llms"
    );
    assert_eq!(classify_content("https://a.com/x", true, false), "markdown");
    assert_eq!(
        classify_content("https://a.com/x", false, true),
        "html-converted"
    );
    assert_eq!(classify_content("https://a.com/x", false, false), "text");
}
