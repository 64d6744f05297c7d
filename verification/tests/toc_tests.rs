use llms_fetch_mcp::{
    extract_headings, find_optimal_level, generate_toc, render_toc, Heading, TocConfig,
    DEFAULT_TOC_BUDGET, DEFAULT_TOC_THRESHOLD,
};

fn default_config() -> TocConfig {
    TocConfig::default()
}

#[test]
fn test_extract_simple_headings() {
    let md = "# H1\n## H2\n### H3";
    let headings = extract_headings(md);
    assert_eq!(headings.len(), 3);
    assert_eq!(headings[0].level, 1);
    assert_eq!(headings[0].line_number, 1);
    assert_eq!(headings[0].text, "# H1");
    assert_eq!(headings[1].level, 2);
    assert_eq!(headings[1].text, "## H2");
}

#[test]
fn test_ignore_fenced_code_blocks() {
    let md = "# Real\n```\n# Fake\n```\n## Also Real";
    let headings = extract_headings(md);
    assert_eq!(headings.len(), 2);
    assert_eq!(headings[0].text, "# Real");
    assert_eq!(headings[1].text, "## Also Real");
}

#[test]
fn test_ignore_indented_code_blocks() {
    let md = "# Real\n\n    # Not a heading (indented)\n\n## Real2";
    let headings = extract_headings(md);
    assert_eq!(headings.len(), 2);
    assert_eq!(headings[0].text, "# Real");
    assert_eq!(headings[1].text, "## Real2");
}

#[test]
fn test_setext_headings() {
    let md = "H1\n==\n\nH2\n--";
    let headings = extract_headings(md);
    assert_eq!(headings.len(), 2);
    assert_eq!(headings[0].level, 1);
    assert_eq!(headings[1].level, 2);
}

#[test]
fn test_empty_links_excluded() {
    // Empty anchor links should be excluded
    let md = "## Writing markup with JSX [](#writing-markup-with-jsx)";
    let headings = extract_headings(md);
    assert_eq!(headings.len(), 1);
    assert_eq!(headings[0].text, "## Writing markup with JSX");

    // Multiple empty links - all excluded
    let md2 = "### Title [](#anchor1) [](#anchor2)";
    let headings2 = extract_headings(md2);
    assert_eq!(headings2.len(), 1);
    assert_eq!(headings2[0].text, "### Title");

    // No link - full text preserved
    let md3 = "# Simple Heading";
    let headings3 = extract_headings(md3);
    assert_eq!(headings3.len(), 1);
    assert_eq!(headings3[0].text, "# Simple Heading");

    // Link with text - KEPT (not excluded)
    let md4 = "## Title [link](url) more text";
    let headings4 = extract_headings(md4);
    assert_eq!(headings4.len(), 1);
    assert_eq!(headings4[0].text, "## Title [link](url) more text");

    // Mix of empty and non-empty links
    let md5 = "## Check [docs](url) for details [](#anchor)";
    let headings5 = extract_headings(md5);
    assert_eq!(headings5.len(), 1);
    assert_eq!(headings5[0].text, "## Check [docs](url) for details");

    // Whitespace collapsing: empty link removal should not leave double spaces
    let md6 = "## [\u{B6}](#anchor) Title with text";
    let headings6 = extract_headings(md6);
    assert_eq!(headings6.len(), 1);
    assert_eq!(headings6[0].text, "## Title with text");
    assert!(!headings6[0].text.contains("  ")); // No double spaces

    // Heading with only empty links should be filtered out
    let md7 = "## [](#anchor) [\u{B6}](#another)";
    let headings7 = extract_headings(md7);
    assert_eq!(headings7.len(), 0); // Filtered out entirely

    // Heading with only hashes and empty link should be filtered
    let md8 = "### [\u{200B}](#anchor)";
    let headings8 = extract_headings(md8);
    assert_eq!(headings8.len(), 0);
}

#[test]
fn test_unicode_headings() {
    let md = "# \u{4F60}\u{597D}\u{4E16}\u{754C}\n## \u{1F389} Emoji Heading";
    let headings = extract_headings(md);
    assert_eq!(headings.len(), 2);
    assert!(headings[0].text.contains("\u{4F60}\u{597D}\u{4E16}\u{754C}"));
    assert!(headings[1].text.contains("\u{1F389}"));
}

#[test]
fn test_crlf_line_endings() {
    // Windows-style CRLF line endings should be counted correctly
    let md = "# First\r\n## Second\r\n### Third";
    let headings = extract_headings(md);
    assert_eq!(headings.len(), 3);
    assert_eq!(headings[0].line_number, 1);
    assert_eq!(headings[1].line_number, 2);
    assert_eq!(headings[2].line_number, 3);
    assert_eq!(headings[0].text, "# First");
    assert_eq!(headings[1].text, "## Second");
    assert_eq!(headings[2].text, "### Third");
}

#[test]
fn test_mixed_line_endings() {
    // Mix of LF and CRLF should still count correctly
    let md = "# First\n## Second\r\n### Third\n#### Fourth";
    let headings = extract_headings(md);
    assert_eq!(headings.len(), 4);
    assert_eq!(headings[0].line_number, 1);
    assert_eq!(headings[1].line_number, 2);
    assert_eq!(headings[2].line_number, 3);
    assert_eq!(headings[3].line_number, 4);
}

#[test]
fn test_headings_with_inline_formatting() {
    // Headings with bold, italic, code, and links preserved exactly
    let md = "## **Bold** heading\n### Heading with `code`\n#### Heading with *italic* text\n##### Mix **bold** and `code` and [link](url)";
    let headings = extract_headings(md);
    assert_eq!(headings.len(), 4);
    assert_eq!(headings[0].text, "## **Bold** heading");
    assert_eq!(headings[1].text, "### Heading with `code`");
    assert_eq!(headings[2].text, "#### Heading with *italic* text");
    assert_eq!(
        headings[3].text,
        "##### Mix **bold** and `code` and [link](url)"
    );
}

#[test]
fn test_empty_document() {
    let md = "";
    let headings = extract_headings(md);
    assert_eq!(headings.len(), 0);

    let toc = generate_toc(md, md.len(), &TocConfig::default());
    assert!(toc.is_none());
}

#[test]
fn test_document_with_no_headings() {
    let md = "Just some paragraph text.\n\nAnd another paragraph.";
    let headings = extract_headings(md);
    assert_eq!(headings.len(), 0);

    let toc = generate_toc(md, md.len(), &TocConfig::default());
    assert!(toc.is_none());
}

#[test]
fn test_level_selection() {
    let headings = vec![
        Heading {
            level: 1,
            line_number: 1,
            text: "# ".repeat(50),
        },
        Heading {
            level: 2,
            line_number: 2,
            text: "## ".repeat(50),
        },
        Heading {
            level: 3,
            line_number: 3,
            text: "### ".repeat(50),
        },
    ];

    let result = find_optimal_level(&headings, 400);
    assert!(result.is_some());
    let (level, _toc) = result.unwrap();
    assert!(level >= 1);
}

#[test]
fn test_empty_headings() {
    let headings: Vec<Heading> = vec![];
    let toc = render_toc(&headings, 3);
    assert_eq!(toc, "");
}

#[test]
fn test_budget_pressure_returns_none() {
    let headings = vec![
        Heading {
            level: 1,
            line_number: 1,
            text: "# ".to_string() + &"x".repeat(10000),
        },
        Heading {
            level: 1,
            line_number: 2,
            text: "# ".to_string() + &"x".repeat(10000),
        },
    ];

    let level = find_optimal_level(&headings, 10);
    assert!(level.is_none());
}

#[test]
fn test_generate_toc_handles_budget_exceeded() {
    let md = format!(
        "{}# Very Long Heading {}\n{}",
        "content\n".repeat(1000),
        "x".repeat(10000),
        "more\n".repeat(1000)
    );
    let toc = generate_toc(&md, md.len(), &default_config());
    assert!(toc.is_none());
}

#[test]
fn test_deeply_nested_levels() {
    // Verify all 6 heading levels are recognized
    let md = "# Main\n\n## Level 2\n\n### Level 3\n\n#### Level 4\n\n##### Level 5\n\n###### Level 6\n";
    let headings = extract_headings(md);
    assert_eq!(headings.len(), 6);
    assert_eq!(headings[0].level, 1);
    assert_eq!(headings[1].level, 2);
    assert_eq!(headings[2].level, 3);
    assert_eq!(headings[3].level, 4);
    assert_eq!(headings[4].level, 5);
    assert_eq!(headings[5].level, 6);
}

#[test]
fn test_astro_llms_full_exceeds_budget() {
    // A large document whose H1 outline alone is far beyond the default
    // budget: every heading level overflows, so no outline is generated.
    let mut md = String::new();
    for i in 0..500 {
        md.push_str(&format!(
            "# A long top-level section heading number {i} with plenty of words\n\nbody text\n\n"
        ));
    }
    let toc = generate_toc(&md, md.len(), &default_config());
    assert!(
        toc.is_none(),
        "Should not generate ToC when even H1s exceed budget"
    );
}

#[test]
fn test_convex_llms_full_exceeds_budget() {
    // As above, with deeper nesting below the oversized H1 layer.
    let mut md = String::new();
    for i in 0..300 {
        md.push_str(&format!(
            "# Chapter {i} of the complete handbook, spelled out at length\n\n## Part {i}.1\n\ntext\n\n"
        ));
    }
    let toc = generate_toc(&md, md.len(), &default_config());
    assert!(
        toc.is_none(),
        "Should not generate ToC when even H1s exceed budget"
    );
}

fn tutorial_like_document() -> String {
    let mut md = String::new();
    for c in 0..6 {
        md.push_str(&format!("# Chapter {c}\n\nIntroductory prose.\n\n"));
        for s in 0..4 {
            md.push_str(&format!("## Section {c}.{s}\n\nSome body text.\n\n"));
            for p in 0..3 {
                md.push_str(&format!("### Topic {c}.{s}.{p}\n\nDetails.\n\n"));
            }
        }
    }
    md
}

#[test]
fn test_custom_budget_allows_more_headings() {
    let md = tutorial_like_document();

    let small_budget = TocConfig {
        toc_budget: 500,
        full_content_threshold: 2000,
    };
    let large_budget = TocConfig {
        toc_budget: 10000,
        full_content_threshold: 2000,
    };

    let toc_small = generate_toc(&md, md.len(), &small_budget);
    let toc_large = generate_toc(&md, md.len(), &large_budget);

    assert!(toc_small.is_some());
    assert!(toc_large.is_some());

    let small_len = toc_small.unwrap().len();
    let large_len = toc_large.unwrap().len();
    assert!(
        large_len >= small_len,
        "Larger budget should allow same or more headings"
    );
}

#[test]
fn test_higher_threshold_skips_more_docs() {
    let md = tutorial_like_document();

    let low_threshold = TocConfig {
        toc_budget: 1000,
        full_content_threshold: 1000,
    };
    let high_threshold = TocConfig {
        toc_budget: 1000,
        full_content_threshold: 100_000,
    };

    let toc_low = generate_toc(&md, md.len(), &low_threshold);
    let toc_high = generate_toc(&md, md.len(), &high_threshold);

    assert!(toc_low.is_some(), "Low threshold should generate ToC");
    assert!(toc_high.is_none(), "High threshold should skip ToC");
}

#[test]
fn test_zero_threshold_always_generates() {
    let small_md = "# Title\nContent.";

    let config = TocConfig {
        toc_budget: 1000,
        full_content_threshold: 0,
    };

    let toc = generate_toc(small_md, small_md.len(), &config);
    assert!(toc.is_some(), "Zero threshold should always generate ToC");
}

#[test]
fn test_tiny_budget_returns_none() {
    let md = tutorial_like_document();

    let tiny_budget = TocConfig {
        toc_budget: 10,
        full_content_threshold: 2000,
    };

    let toc = generate_toc(&md, md.len(), &tiny_budget);
    assert!(
        toc.is_none(),
        "Budget too small for even H1s should return None"
    );
}

#[test]
fn test_config_default_values() {
    let config = TocConfig::default();
    assert_eq!(config.toc_budget, DEFAULT_TOC_BUDGET);
    assert_eq!(config.full_content_threshold, DEFAULT_TOC_THRESHOLD);
}
