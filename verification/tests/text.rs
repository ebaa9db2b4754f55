use shiori::chars;
use shiori::material::{
    extract_pdf_segments, ingest_material, join_segments, material_route, route_warning,
    split_to_segments, text_segments, MaterialError, MaterialRoute,
};
use shiori::markup::{can_be_laid_out, prepare, restore};
use shiori::numbers;
use shiori::strings;
use shiori::strings::Separator;
use shiori::text::{
    chunk_text, hash_text, hex_text, normalize_all, normalize_text, split_sentences, squeeze_text,
};

fn numbered_words(n: usize) -> String {
    (0..n).map(|i| format!("w{i}")).collect::<Vec<_>>().join(" ")
}

#[test]
fn chunks_with_overlap() {
    let text = (0..900)
        .map(|i| format!("w{i}"))
        .collect::<Vec<_>>()
        .join(" ");
    let chunks = chunk_text(&text, 400, 60);
    assert_eq!(chunks.len(), 3);
    assert!(chunks[1].contains("w340"));
}

#[test]
fn sentence_split_finds_multiple_sentences() {
    let parts = split_sentences("Das ist ein Test. Noch ein Test! Und noch einer?");
    assert_eq!(parts.len(), 3);
}

#[test]
fn sentences_keep_their_ends_and_skip_short_runs() {
    let parts = split_sentences("Das ist ein Test. Ja. Und noch einer?");
    assert_eq!(parts, vec!["Das ist ein Test.".to_string(), "Und noch einer?".to_string()]);
    assert_eq!(split_sentences(" a. "), vec!["a.".to_string()]);
    assert!(split_sentences("  ").is_empty());
}

#[test]
fn chunks_cover_every_word() {
    let text = numbered_words(23);
    let chunks = chunk_text(&text, 10, 3);
    assert_eq!(chunks.len(), 3);
    assert_eq!(chunks[0], (0..10).map(|i| format!("w{i}")).collect::<Vec<_>>().join(" "));
    assert_eq!(chunks[1], (7..17).map(|i| format!("w{i}")).collect::<Vec<_>>().join(" "));
    assert_eq!(chunks[2], (14..23).map(|i| format!("w{i}")).collect::<Vec<_>>().join(" "));
    for i in 0..23 {
        let word = format!("w{i}");
        assert!(chunks.iter().any(|c| c.split_whitespace().any(|w| w == word)));
    }
}

#[test]
fn short_text_is_one_chunk() {
    assert_eq!(chunk_text("  one  two\tthree ", 400, 60), vec!["one two three".to_string()]);
    assert!(chunk_text(" \n ", 400, 60).is_empty());
    assert_eq!(chunk_text("one two", 2, 5), vec!["one two".to_string()]);
}

#[test]
fn markup_becomes_plain_text() {
    assert_eq!(
        normalize_text("<p>Hello</p>\n<p>  World </p>").unwrap(),
        "Hello World"
    );
    assert_eq!(normalize_text("<script>alert(1)</script>Hi").unwrap(), "Hi");
    assert_eq!(normalize_text("a &amp; b").unwrap(), "a & b");
    assert_eq!(normalize_text("").unwrap(), "");
}

#[test]
fn emoji_are_laid_out() {
    let heart = "\u{2764}\u{fe0f}";
    let tick = "\u{2714}\u{fe0f}";
    let plain = |html: &str| normalize_text(html).unwrap();
    assert_eq!(plain(&format!("{heart} love")), format!("{heart} love"));
    assert_eq!(
        plain(&format!("a{heart}b <b>{heart}</b> c")),
        format!("a{heart}b {heart} c")
    );
    let ideographs = |n: usize| "\u{4e2d}".repeat(n);
    let short = format!("{}{heart}", ideographs(27));
    assert_eq!(plain(&short), short);
    assert_eq!(plain(&heart.repeat(15)), heart.repeat(15));
    assert_eq!(plain(&heart.repeat(40)), heart.repeat(40));
    assert_eq!(
        plain(&format!("{}{heart}", ideographs(60))),
        format!("{} {}{heart}", ideographs(40), ideographs(20))
    );
    assert_eq!(
        plain(&heart.repeat(130)),
        format!("{} {}", heart.repeat(80), heart.repeat(50))
    );
    assert_eq!(
        plain(&format!("{}{heart}", "a".repeat(79))),
        format!("{}{heart}", "a".repeat(79))
    );
    assert_eq!(
        plain(&format!("Love:<ul><li>{heart} one</li><li>{heart} two</li></ul>")),
        format!("Love: * {heart} one * {heart} two")
    );
    assert_eq!(
        plain(&format!("<img src=\"{}.jpg\">{heart}", "0123456789".repeat(7))),
        heart
    );
    assert_eq!(
        plain(&format!("{}{heart}", "<ol><li>x</li></ol>".repeat(3))),
        format!("1. x 1. x 1. x {heart}")
    );
    assert_eq!(
        plain(&format!("{}{heart}", "<h4>x</h4>".repeat(12))),
        format!("{}{heart}", "#### x ".repeat(12))
    );
    assert!(plain(&format!("{}{heart}", "<hr>".repeat(30))).ends_with(heart));
    assert!(plain(&format!("<dl><dt>a</dt><dd>{heart}b</dd></dl>")).ends_with(&format!("{heart}b")));
    let cell = |text: &str| plain(&format!("<table><tr><td>name</td><td>{text}</td></tr></table>"));
    for text in [
        format!("yes {tick}"),
        format!("<b>{tick}</b>"),
        format!("ok{tick}"),
        format!("<i>{tick}x</i>"),
        format!("<i><strong>x {tick}</strong></i>"),
    ] {
        assert!(cell(&text).contains(tick));
    }
    assert!(cell(&format!("yes {tick}")).contains(&format!("yes {tick}")));
    let ticks = format!("<tr><td>yes</td><td>{tick}</td></tr>").repeat(3);
    assert!(plain(&format!("<table><tbody>{ticks}</tbody></table>")).contains(tick));
    let wide = format!("<td>{tick}x</td><td>{}</td>", "word ".repeat(40)).repeat(9);
    assert!(plain(&format!("<table><tr>{wide}</tr></table>")).contains(tick));
    assert_eq!(
        plain(&format!("{heart} <a href=\"http://x/?a=1&amp;b=2\" title=\"> <\"> l </a>")),
        format!("{heart} [ l ][1] [1]: http://x/?a=1&b=2")
    );
}

#[test]
fn selectors_are_hidden_only_where_a_word_may_be_split() {
    let ready = prepare("a\u{2764}\u{fe0f} b", 80);
    assert_eq!((ready.html.as_str(), ready.stand_in), ("a\u{2764}\u{fe0f} b", None));
    let long = "\u{2764}\u{fe0f}".repeat(50);
    let ready = prepare(&long, 80);
    assert_eq!(ready.html, "\u{2764}\u{fe00}".repeat(50));
    assert_eq!(ready.stand_in, Some('\u{fe00}'));
    assert_eq!(restore(ready.html, ready.stand_in), long);
    let ready = prepare(&format!("\u{fe00}{long}"), 80);
    assert_eq!(ready.stand_in, Some('\u{fe01}'));
    let all: String = (0xfe00..0xfe0e).filter_map(char::from_u32).collect();
    let ready = prepare(&format!("{all}{long}"), 80);
    assert_eq!(ready.stand_in, None);
    assert!(!can_be_laid_out(&ready.html, 80));
}

#[test]
fn tabs_are_laid_out() {
    assert_eq!(normalize_text("<pre>a\tb</pre>").unwrap(), "a b");
    assert_eq!(
        normalize_text("<ul><li><pre>\u{65e5}\tb</pre></li></ul><table><tr>\n\t<td>c</td></tr></table>")
            .unwrap(),
        "* \u{65e5} b \u{2500} c \u{2500}"
    );
    let quotes = "<blockquote>".repeat(39);
    let ready = prepare(&format!("{quotes}<pre>\u{200b}\t</pre>"), 80);
    assert_eq!(ready.html, format!("{quotes}<pre>\u{200b} </pre>"));
    assert!(normalize_text(&format!("{quotes}<pre>\u{200b}\t</pre>")).is_some());
}

#[test]
fn markup_that_cannot_be_laid_out_is_refused() {
    let table = |span: &str| {
        format!("<table><tr><td colspan=\"{span}\">a</td><td>b</td></tr></table>")
    };
    assert_eq!(normalize_text(&table("18446744073709551615")), None);
    assert!(normalize_text(&table("18446744073709551616")).is_some());
    assert!(normalize_text(&table("1000000000")).is_some());
    assert!(normalize_text(&table("2")).is_some());
    assert!(normalize_text(&table("0")).is_some());
    assert!(normalize_text(&table("all")).is_some());
    let long = "the colspan of it ".repeat(15_000);
    assert!(normalize_text(&format!("{}{long}", table("2"))).is_some());
    let list = |start: &str| normalize_text(&format!("<ol start=\"{start}\"><li>x</li><li>y</li></ol>"));
    assert_eq!(list("9223372036854775807"), None);
    assert_eq!(list("41").unwrap(), "41. x 42. y");
    assert_eq!(list("-1").unwrap(), "-1. x 0. y");
    assert_eq!(list("9223372036854775809").unwrap(), "1. x 2. y");
    assert_eq!(
        normalize_text("start 9223372036854775807 and colspan 18446744073709551615").unwrap(),
        "start 9223372036854775807 and colspan 18446744073709551615"
    );
    assert_eq!(
        normalize_text("5 &lt; 6 &amp; \"x\"&nbsp;y &copy;&#65; <i title=\"a &gt; 'b'\">z</i>").unwrap(),
        "5 < 6 & \"x\" y \u{a9}A *z*"
    );
    let quotes = "<blockquote>".repeat(40);
    assert_eq!(normalize_text(&format!("{quotes}x")), None);
}

#[test]
fn markup_is_told_apart() {
    assert!(can_be_laid_out("<p>a &amp; b</p>", 80));
    assert!(!can_be_laid_out("<p>a</p>", 0));
    assert!(!can_be_laid_out("<p>a</p>", 1001));
    assert!(!can_be_laid_out("a &#65039; b", 80));
    assert!(can_be_laid_out("<OL START=\"12\">", 80));
    assert!(!can_be_laid_out("<OL START=\"+1234567890123456789\">", 80));
    assert!(can_be_laid_out("<p title=\"start 1234567890123456789\">", 80));
    assert!(!can_be_laid_out("<td colspan=12>", 80));
    assert!(can_be_laid_out("<td colspan=\"12345\">", 80));
    assert!(can_be_laid_out("1\u{fe0f} <a href=\"x y\">2</a>", 80));
    assert!(!can_be_laid_out("1\u{fe0f} <a href='x y'>2</a>", 80));
    let word = |n: usize| format!("{}1\u{fe0f}", "x".repeat(n));
    assert!(can_be_laid_out(&word(78), 80));
    assert!(!can_be_laid_out(&word(79), 80));
    assert!(can_be_laid_out(&format!("<ul></ul>{}", word(72)), 80));
    assert!(can_be_laid_out(&format!("<ul> </ul>x {}", word(78)), 80));
    assert!(!can_be_laid_out(&format!("<ul>x {}", word(73)), 80));
    assert!(can_be_laid_out(&format!("<hr>{}", word(78)), 80));
    assert!(can_be_laid_out(&format!("<i>x</i> y {}", word(78)), 80));
    assert!(can_be_laid_out(&format!("<i>{}</i>", word(70)), 80));
    assert!(!can_be_laid_out(&format!("<i>{}</i>", word(71)), 80));
    let filler = format!("<td>{}</td>", "word ".repeat(20));
    let cell = |text: &str| {
        format!("<table><tr>{filler}<td align=\"left\">{text}</td></tr></table>")
    };
    assert!(can_be_laid_out(&cell("1\u{fe0f}"), 80));
    assert!(can_be_laid_out(&cell("1\u{fe0f} yes 2\u{fe0f} no"), 80));
    assert!(can_be_laid_out(&cell("yes 1\u{fe0f}"), 80));
    assert!(can_be_laid_out(&cell("1\u{fe0f}yes"), 80));
    assert!(!can_be_laid_out(&cell("yes1\u{fe0f}"), 80));
    assert!(can_be_laid_out(&cell("yes1\u{fe0f}").replace(&filler, ""), 80));
    assert!(!can_be_laid_out(&cell("<i><strong>x 1\u{fe0f}</strong></i>"), 80));
    assert!(can_be_laid_out(&cell("<i><strong>x 1\u{fe0f} y</strong></i>"), 80));
    assert!(!can_be_laid_out(&cell("<i>x 1\u{fe0f}"), 80));
    assert!(can_be_laid_out(&format!("<i>x</i>{}", cell("1\u{fe0f}yes")), 80));
    assert!(can_be_laid_out(&cell("<b>1\u{fe0f}</b>"), 80));
    assert!(!can_be_laid_out(&cell("<i>1\u{fe0f}</i>"), 80));
    assert!(!can_be_laid_out(&cell(&cell("1\u{fe0f}")), 80));
    assert!(!can_be_laid_out(&cell("x").replace("</tr>", "1\u{fe0f}</tr>"), 80));
}

#[test]
fn all_texts_become_plain() {
    let plain = normalize_all(&vec!["<p>a</p>".to_string(), " b ".to_string()]).unwrap();
    assert_eq!(plain, vec!["a".to_string(), "b".to_string()]);
}

#[test]
fn squeezing_twice_is_squeezing_once() {
    let once = squeeze_text("  a \u{a0} b\u{c}c\n");
    assert_eq!(once, "a b c");
    assert_eq!(squeeze_text(&once), once);
}

#[test]
fn digests_are_hexadecimal() {
    assert_eq!(
        hash_text("abc"),
        "ba7816bf8f01cfea414140de5dae2223b00361a396177a9cb410ff61f20015ad"
    );
    assert_eq!(
        hash_text(""),
        "e3b0c44298fc1c149afbf4c8996fb92427ae41e4649b934ca495991b7852b855"
    );
    assert_eq!(hex_text(&vec![0, 15, 160, 255]), "000fa0ff");
}

#[test]
fn white_space_is_trimmed_as_std_trims() {
    for code in 0..0x11_0000u32 {
        if let Some(c) = char::from_u32(code) {
            if c.is_whitespace() {
                let padded = format!("{c}x{c}");
                assert_eq!(strings::trimmed(&padded), "x");
                assert_eq!(strings::split_words(&padded), vec!["x".to_string()]);
            }
        }
    }
    assert_eq!(strings::trimmed("\u{200b}x"), "\u{200b}x");
    assert_eq!(strings::start_trimmed(" x "), "x ");
}

#[test]
fn ascii_capitals_are_lowered() {
    assert_eq!(chars::to_ascii_lower('Q'), 'q');
    assert_eq!(chars::to_ascii_lower('Ä'), 'Ä');
    assert_eq!(strings::with_ascii_lowered("DocX Ä"), "docx Ä");
}

#[test]
fn terms_are_lower_case_runs() {
    assert_eq!(
        strings::split_terms("Über-Größe: A1, b", 2),
        vec!["über".to_string(), "größe".to_string(), "a1".to_string()]
    );
    let terms = vec!["neph".to_string(), "tub".to_string(), "x".to_string()];
    assert_eq!(strings::count_terms(&terms, "nephron tubule"), 2);
}

#[test]
fn splitting_and_joining_agree() {
    let parts = strings::split_by("a,,b,", Separator::Char(','));
    assert_eq!(parts, vec!["a".to_string(), String::new(), "b".to_string(), String::new()]);
    assert_eq!(strings::join_all(&parts, ","), "a,,b,");
    assert_eq!(strings::keep_non_empty(parts), vec!["a".to_string(), "b".to_string()]);
}

#[test]
fn words_of_joined_words_are_the_words() {
    let words = vec!["one".to_string(), "two".to_string()];
    assert_eq!(strings::split_words(&strings::join_all(&words, " ")), words);
}

#[test]
fn texts_are_compared_by_code() {
    assert!(strings::is_le("abc", "abd"));
    assert!(strings::is_le("ab", "abc"));
    assert!(!strings::is_le("b", "abc"));
    assert!(strings::is_le("z", "é"));
    assert!(strings::is_le("", ""));
    assert!(strings::same("x", "x"));
    assert!(!strings::same("x", "y"));
}

#[test]
fn first_characters_are_counted_as_characters() {
    assert_eq!(strings::first_chars("äöü", 2), "äö");
    assert_eq!(strings::first_chars("äöü", 9), "äöü");
    assert_eq!(strings::without_first("äöü", 1), "öü");
    assert_eq!(strings::utf8_len("äöü"), 6);
}

#[test]
fn substrings_are_found() {
    assert!(strings::contains_text("abcabd", "abd"));
    assert!(strings::contains_text("abc", ""));
    assert!(!strings::contains_text("abc", "abcd"));
    assert!(strings::has_prefix("query: x", "query:"));
    assert_eq!(strings::with_char_replaced("a\\b\\c", '\\', '/'), "a/b/c");
    assert_eq!(strings::with_unix_lines("a\r\nb\rc\r\r\n"), "a\nb\rc\r\n");
}

#[test]
fn integers_are_written_and_read_back() {
    for n in [0, 7, 10, -1, i64::MAX, i64::MIN] {
        let mut text = String::new();
        numbers::push_decimal(&mut text, n);
        assert_eq!(text, n.to_string());
        assert_eq!(numbers::parse_i64(&text), Some(n));
    }
    assert_eq!(numbers::parse_i64("+5"), Some(5));
    assert_eq!(numbers::parse_i64(""), None);
    assert_eq!(numbers::parse_i64("-"), None);
    assert_eq!(numbers::parse_i64("9223372036854775808"), None);
    assert_eq!(numbers::parse_i64("1_0"), None);
    assert_eq!(numbers::parse_unsigned("65535", 65535), Some(65535));
    assert_eq!(numbers::parse_unsigned("65536", 65535), None);
    assert_eq!(numbers::parse_unsigned("-1", 65535), None);
    assert_eq!(numbers::numbered("Page ", 12), "Page 12");
}

#[test]
fn faults_of_numbers_read_as_std_says_them() {
    for text in [
        "", "-", "+", "x", "1x", "12", "-7", "9223372036854775807", "9223372036854775808",
        "-9223372036854775808", "-9223372036854775809", "99999999999999999999x", "99x", "--1",
    ] {
        let expected = text.parse::<i64>().err().map(|e| e.to_string());
        assert_eq!(numbers::parse_fault(text).map(|s| s.to_string()), expected, "{text}");
    }
}

#[test]
fn extensions_choose_the_route() {
    assert_eq!(material_route("txt").unwrap(), MaterialRoute::Text);
    assert_eq!(material_route("PDF").unwrap(), MaterialRoute::Pdf);
    for ext in ["docx", "PPTX", "doc", "ppt"] {
        assert_eq!(material_route(ext).unwrap(), MaterialRoute::Office);
    }
    let error = material_route("Odt").unwrap_err();
    assert_eq!(error.message(), "Unsupported material type: odt");
    assert_eq!(
        route_warning(MaterialRoute::Office),
        Some("Converted through unoconvert".to_string())
    );
    assert_eq!(route_warning(MaterialRoute::Pdf), None);
}

#[test]
fn lines_become_segments() {
    let segments = split_to_segments(" one \n\n two\n", "Line");
    assert_eq!(segments.len(), 2);
    assert_eq!(segments[0].label, "Line 1");
    assert_eq!(segments[0].text, "one");
    assert_eq!(segments[1].label, "Line 3");
    assert_eq!(segments[1].ordinal, 2);
    assert_eq!(segments[1].id, 2);
    assert_eq!(segments[1].material_id, 0);
    assert!(split_to_segments(" \n ", "Line").is_empty());
}

#[test]
fn text_files_are_one_segment() {
    let segments = text_segments("one\ntwo\n\nthree").unwrap();
    assert_eq!(segments.len(), 1);
    assert_eq!(segments[0].label, "Line 1");
    assert_eq!(segments[0].text, "one two three");
}

#[test]
fn pages_become_segments() {
    let segments = extract_pdf_segments("one\r\ntwo\u{c} \u{c}three").unwrap();
    assert_eq!(segments.len(), 2);
    assert_eq!(segments[0].label, "Page 1");
    assert_eq!(segments[0].text, "one two");
    assert_eq!(segments[1].label, "Page 2");
    assert_eq!(segments[1].text, "three");
    assert_eq!(join_segments(&segments), "one two\n\nthree");
}

#[test]
fn files_without_text_are_refused() {
    let error = extract_pdf_segments(" \u{c}\r\n").unwrap_err();
    assert!(matches!(error, MaterialError::NoText));
    assert_eq!(
        error.message(),
        "OCR not supported in v1 or the PDF contains no extractable text"
    );
    assert_eq!(
        MaterialError::Unrenderable.message(),
        "material cannot be laid out as text"
    );
}

#[test]
fn materials_are_read_along_their_route() {
    let office = ingest_material(MaterialRoute::Office, "one\u{c}two").unwrap();
    assert_eq!(office.source_text, "one\n\ntwo");
    assert_eq!(office.segments.len(), 2);
    assert_eq!(office.warning, Some("Converted through unoconvert".to_string()));
    let pdf = ingest_material(MaterialRoute::Pdf, "one").unwrap();
    assert_eq!(pdf.warning, None);
    let text = ingest_material(MaterialRoute::Text, "").unwrap();
    assert!(text.segments.is_empty());
    assert_eq!(text.source_text, "");
    assert!(ingest_material(MaterialRoute::Pdf, "").is_err());
}
