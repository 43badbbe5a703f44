use warc_curator::markdown::{extract, filter_line, plain_text, prose_blocks, skip_tags};
use warc_curator::pipeline::page_text;

const PROSE: &str = "The quick brown fox jumps over the lazy dog and keeps on running far away.";

#[test]
fn bare_list_marks_are_dropped() {
    assert!(!filter_line("*"));
    assert!(!filter_line("  - \t"));
    assert!(filter_line("* item"));
    assert!(filter_line("--"));
    assert!(filter_line(""));
    assert!(filter_line("text"));
}

#[test]
fn skipped_tags_are_the_nine() {
    assert_eq!(skip_tags(), vec!["script", "style", "header", "footer", "section", "nav", "img", "video", "iframe"]);
}

#[test]
fn links_give_way_to_their_labels() {
    assert_eq!(plain_text("see [here](http://x/y) now".to_string()), Some("see here now".to_string()));
    assert_eq!(plain_text("an ![image](a.png) too".to_string()), Some("an image too".to_string()));
    assert_eq!(plain_text("[![badge](b.png)](http://x)".to_string()), Some("badge".to_string()));
    assert_eq!(plain_text("a <b>bold</b> b <br> c".to_string()), Some("a  b  c".to_string()));
    assert_eq!(plain_text("a <br> b <b>bold</b> c".to_string()), Some("a bold c".to_string()));
    assert_eq!(plain_text("nothing to do".to_string()), Some("nothing to do".to_string()));
}

#[test]
fn blocks_of_prose_are_long_and_trimmed() {
    let text = format!("  {}  \n\n\nshort block\n\n\n*\n{}\n-\n", PROSE, PROSE);
    assert_eq!(prose_blocks(&text), vec![PROSE.to_string(), PROSE.to_string()]);
    assert_eq!(prose_blocks(""), Vec::<String>::new());
    let fifty = "x".repeat(50);
    assert_eq!(prose_blocks(&fifty), Vec::<String>::new());
    let fifty_one = "x".repeat(51);
    assert_eq!(prose_blocks(&fifty_one), vec![fifty_one.clone()]);
}

#[test]
fn dropping_list_marks_can_open_a_block_gap() {
    let text = format!("{}\n\n*\n\n{}", PROSE, PROSE);
    assert_eq!(prose_blocks(&text), vec![PROSE.to_string(), PROSE.to_string()]);
    let text = format!("{}\n\n{}", PROSE, PROSE);
    assert_eq!(prose_blocks(&text), vec![format!("{}\n\n{}", PROSE, PROSE)]);
    let text = format!("{}\n\n\n\n{}", PROSE, PROSE);
    assert_eq!(prose_blocks(&text), vec![PROSE.to_string(), PROSE.to_string()]);
}

#[test]
fn a_page_gives_its_prose() {
    let html = format!(
        "<html><head><title>t</title><script>var x = 1;</script><style>p {{ color: red }}</style></head>\
         <body><nav>menu menu menu</nav><p>{}</p><img src=\"a.png\" alt=\"picture\"></body></html>",
        PROSE
    );
    assert_eq!(extract(&html), Some(vec![format!("t\n\n{}", PROSE)]));
    assert_eq!(page_text(&html), Some(format!("t\n\n{}", PROSE)));
}

#[test]
fn a_page_of_scraps_gives_nothing() {
    assert_eq!(extract("<p>too short</p>"), Some(vec![]));
    assert_eq!(extract(""), Some(vec![]));
}
