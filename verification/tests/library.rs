use picweaver::command::{parse_command, Command};
use picweaver::index::filter_entries_by_tag;
use picweaver::order::order_by_name;
use picweaver::pages::{
    generate_entries_index, generate_entry_page, generate_gallery_content,
    generate_gallery_content_tags, generate_nav_cloud, generate_root_page, generate_tag_page,
    text_to_paragraphs, txt_to_html,
};
use picweaver::placeholders::{replace_placeholders, Placeholders};
use picweaver::replace::replace_str;
use picweaver::tags::{get_tags, insert_sorted, is_space_char};
use picweaver::text::{chars_of, compare_str, Order};

fn strings(v: &[&str]) -> Vec<String> {
    v.iter().map(|s| s.to_string()).collect()
}

fn map(pairs: &[(&str, &str)]) -> Placeholders {
    let mut m = Placeholders::new();
    for (k, v) in pairs {
        m.insert(k.to_string(), v.to_string());
    }
    m
}

#[test]
fn chars_of_keeps_every_character() {
    assert_eq!(chars_of("aé€𝄞"), vec!['a', 'é', '€', '𝄞']);
    assert_eq!(chars_of(""), Vec::<char>::new());
}

#[test]
fn compare_str_orders_by_code_point() {
    assert_eq!(compare_str("abc", "abd"), Order::Less);
    assert_eq!(compare_str("abc", "abc"), Order::Equal);
    assert_eq!(compare_str("abcd", "abc"), Order::Greater);
    assert_eq!(compare_str("", "a"), Order::Less);
    assert_eq!(compare_str("Z", "a"), Order::Less);
    assert_eq!(compare_str("é", "z"), Order::Greater);
}

#[test]
fn replace_str_matches_std() {
    let cases: &[(&str, &str, &str)] = &[
        ("a$Xb$X", "$X", "1"),
        ("abc", "", "X"),
        ("", "", "X"),
        ("aaa", "aa", "b"),
        ("no match here", "$TITLE", "t"),
        ("line\nline\n", "\n", "</p><p>"),
        ("ééé", "é", "e"),
        ("", "x", "y"),
    ];
    for (s, p, r) in cases {
        assert_eq!(replace_str(s, p, r), s.replace(p, r), "{:?}", (s, p, r));
    }
    assert_eq!(replace_str("abc", "", "X"), "XaXbXcX");
    assert_eq!(replace_str("aaa", "aa", "b"), "ba");
}

#[test]
fn replace_placeholders_in_key_order() {
    let m = map(&[("$CONTENT", "[$TITLE]"), ("$TITLE", "T"), ("$NAVCLOUD", "")]);
    assert_eq!(replace_placeholders("$TITLE|$CONTENT|$NAVCLOUD", &m), "T|[T]|");
    let m = map(&[("$TITLE", "[$CONTENT]"), ("$CONTENT", "C")]);
    assert_eq!(replace_placeholders("$TITLE $CONTENT", &m), "[$CONTENT] C");
}

#[test]
fn placeholders_insert_overwrites() {
    let m = map(&[("$A", "1"), ("$A", "2")]);
    assert_eq!(replace_placeholders("$A", &m), "2");
    let empty = Placeholders::new();
    assert_eq!(replace_placeholders("$A stays", &empty), "$A stays");
}

#[test]
fn txt_to_html_makes_paragraphs() {
    assert_eq!(txt_to_html(b"a\nb".to_vec()), b"<p>a</p><p>b</p>".to_vec());
    assert_eq!(txt_to_html(Vec::new()), b"<p></p>".to_vec());
    assert_eq!(txt_to_html(b"x\n".to_vec()), b"<p>x</p><p></p>".to_vec());
}

#[test]
fn txt_to_html_replaces_invalid_utf8() {
    let out = txt_to_html(vec![0xff, b'\n', b'a']);
    assert_eq!(String::from_utf8(out).unwrap(), "<p>\u{FFFD}</p><p>a</p>");
    let out = txt_to_html("é".as_bytes().to_vec());
    assert_eq!(String::from_utf8(out).unwrap(), "<p>é</p>");
}

#[test]
fn text_to_paragraphs_splits_lines() {
    assert_eq!(text_to_paragraphs("one\ntwo\nthree"), "<p>one</p><p>two</p><p>three</p>");
    assert_eq!(text_to_paragraphs("single"), "<p>single</p>");
}

#[test]
fn whitespace_is_unicode_white_space() {
    for c in ['\t', '\n', '\u{b}', '\u{c}', '\r', ' ', '\u{85}', '\u{a0}', '\u{1680}', '\u{2000}', '\u{200a}', '\u{2028}', '\u{2029}', '\u{202f}', '\u{205f}', '\u{3000}'] {
        assert!(is_space_char(c), "{:?}", c);
        assert!(c.is_whitespace());
    }
    for c in ['a', '_', '\u{200b}', '\u{180e}', '\u{feff}', '\0'] {
        assert!(!is_space_char(c), "{:?}", c);
        assert!(!c.is_whitespace());
    }
}

#[test]
fn get_tags_sorted_and_unique() {
    assert_eq!(get_tags("b a  b\tc\n"), strings(&["a", "b", "c"]));
    assert_eq!(get_tags(""), Vec::<String>::new());
    assert_eq!(get_tags(" \n\t "), Vec::<String>::new());
    assert_eq!(get_tags("night\u{3000}day"), strings(&["day", "night"]));
    assert_eq!(get_tags("same same same"), strings(&["same"]));
}

#[test]
fn get_tags_matches_split_whitespace() {
    let text = "sea  sky\nsun sea\r\nmoon\u{a0}stars  ";
    let expected: std::collections::BTreeSet<String> =
        text.split_whitespace().map(|t| t.to_string()).collect();
    assert_eq!(get_tags(text), expected.into_iter().collect::<Vec<_>>());
}

#[test]
fn insert_sorted_keeps_order() {
    let mut v = Vec::new();
    insert_sorted(&mut v, "m".to_string());
    insert_sorted(&mut v, "a".to_string());
    insert_sorted(&mut v, "z".to_string());
    insert_sorted(&mut v, "m".to_string());
    assert_eq!(v, strings(&["a", "m", "z"]));
}

#[test]
fn filter_entries_by_tag_groups_paths() {
    let entries = vec![
        ("entries/one".to_string(), strings(&["cat", "dog"])),
        ("entries/two".to_string(), strings(&["bird", "dog"])),
        ("entries/three".to_string(), Vec::new()),
        ("entries/four".to_string(), strings(&["cat"])),
    ];
    let idx = filter_entries_by_tag(&entries);
    assert_eq!(
        idx,
        vec![
            ("bird".to_string(), strings(&["entries/two"])),
            ("cat".to_string(), strings(&["entries/one", "entries/four"])),
            ("dog".to_string(), strings(&["entries/one", "entries/two"])),
        ]
    );
    assert_eq!(filter_entries_by_tag(&Vec::new()), Vec::new());
}

#[test]
fn order_by_name_is_stable() {
    assert_eq!(order_by_name(&strings(&["b", "a", "b", "A"])), vec![3, 1, 0, 2]);
    assert_eq!(order_by_name(&Vec::new()), Vec::<usize>::new());
    let names = strings(&["img10.jpg", "img2.jpg", "img1.jpg"]);
    assert_eq!(order_by_name(&names), vec![2, 0, 1]);
}

#[test]
fn gallery_content_links_sorted_images() {
    let html = generate_gallery_content(&strings(&["b.png", "a.jpg"]));
    assert_eq!(
        html,
        "<div class=\"gallery\">\n\
         <a href=\"images/a.jpg\" target=\"_blank\">\n<img src=\"images/a.jpg\" alt=\"a.jpg\">\n</a>\
         <a href=\"images/b.png\" target=\"_blank\">\n<img src=\"images/b.png\" alt=\"b.png\">\n</a>\
         </div>\n"
    );
    assert_eq!(generate_gallery_content(&Vec::new()), "<div class=\"gallery\">\n</div>\n");
}

#[test]
fn gallery_content_tags_links_paths() {
    let html = generate_gallery_content_tags(
        &strings(&["z.png", "y.png"]),
        &strings(&["entries/e/images/z.png", "entries/e/images/y.png"]),
    );
    assert_eq!(
        html,
        "<a href=\"../entries/e/images/y.png\" target=\"_blank\">\n <img src=\"../entries/e/images/y.png\" alt=\"y.png\">\n</a>\
         <a href=\"../entries/e/images/z.png\" target=\"_blank\">\n <img src=\"../entries/e/images/z.png\" alt=\"z.png\">\n</a>"
    );
    assert_eq!(generate_gallery_content_tags(&Vec::new(), &Vec::new()), "");
}

#[test]
fn tag_page_fills_template() {
    let base = "<title>$TITLE</title><body>$CONTENT</body>$NAVCLOUD";
    let page = generate_tag_page(base, "cats", &strings(&["<a>1</a>", "<a>2</a>"]));
    assert_eq!(
        page,
        "<title>cats</title><body><div class=\"gallery\">\n<a>1</a><a>2</a></div>\n</body>"
    );
}

#[test]
fn entry_page_nests_gallery() {
    let base = "<h1>$TITLE</h1>$CONTENT";
    let content = "<p>intro $TITLE</p>$CONTENT$NAVCLOUD";
    let page = generate_entry_page(base, content, "holiday", "<gallery/>");
    assert_eq!(page, "<h1>holiday</h1><p>intro </p><gallery/>");
}

#[test]
fn nav_cloud_links_each_tag() {
    assert_eq!(
        generate_nav_cloud(&strings(&["a", "b"])),
        "<a href=\"a/index.html\">a</a> <a href=\"b/index.html\">b</a> "
    );
    assert_eq!(generate_nav_cloud(&Vec::new()), "");
}

#[test]
fn root_page_has_nav_cloud() {
    let base = "[$TITLE]$CONTENT$NAVCLOUD";
    let about = "<p>About</p> $NAVCLOUD";
    let page = generate_root_page(base, about, "My Gallery", &strings(&["sea"]));
    assert_eq!(page, "[My Gallery]<p>About</p> <a href=\"sea/index.html\">sea</a> ");
}

#[test]
fn entries_index_sorted_by_name() {
    let base = "$TITLE:$CONTENT";
    let page = generate_entries_index(base, &strings(&["b", "a"]), &strings(&["b", "a"]));
    assert_eq!(
        page,
        "Entries:<a href=\"a/index.html\">a</a><br><a href=\"b/index.html\">b</a><br>"
    );
    assert_eq!(generate_entries_index(base, &Vec::new(), &Vec::new()), "Entries:");
}

#[test]
fn template_without_placeholders_is_unchanged() {
    let base = "<html>static</html>";
    assert_eq!(generate_tag_page(base, "t", &strings(&["x"])), base);
}

#[test]
fn parse_command_cases() {
    assert!(matches!(parse_command(&strings(&["picweaver"])), Command::NoArguments));
    assert!(matches!(parse_command(&Vec::new()), Command::NoArguments));
    match parse_command(&strings(&["picweaver", "new_project", "site"])) {
        Command::NewProject(Some(n)) => assert_eq!(n, "site"),
        other => panic!("{:?}", other),
    }
    assert!(matches!(parse_command(&strings(&["p", "new_project"])), Command::NewProject(None)));
    match parse_command(&strings(&["p", "new_entry", "trip", "extra"])) {
        Command::NewEntry(Some(n)) => assert_eq!(n, "trip"),
        other => panic!("{:?}", other),
    }
    assert!(matches!(parse_command(&strings(&["p", "new_entry"])), Command::NewEntry(None)));
    assert!(matches!(parse_command(&strings(&["p", "print_entries_by_tag"])), Command::PrintEntriesByTag));
    assert!(matches!(parse_command(&strings(&["p", "generate"])), Command::Generate));
    match parse_command(&strings(&["p", "publish"])) {
        Command::Unrecognized(c) => assert_eq!(c, "publish"),
        other => panic!("{:?}", other),
    }
}

#[test]
fn replacing_a_pattern_by_itself_changes_nothing() {
    for (s, p) in [("a$Xb", "$X"), ("abc", ""), ("aaaa", "aa"), ("", "x")] {
        assert_eq!(replace_str(s, p, p), s);
    }
}

#[test]
fn text_without_pattern_is_unchanged() {
    assert_eq!(replace_str("plain text", "$CONTENT", "x"), "plain text");
    assert_eq!(text_to_paragraphs(""), "<p></p>");
}
