use taskini::element::{Comment, Element, ElementData, ListElement, Page, PageElement, Text, Title};
use taskini::md_parse::{md_to_page, try_md_to_page, MdError};
use taskini::text::count_start_spaces;
use taskini::to_html::{PAGE_HTML_END, PAGE_HTML_START};
use taskini::to_md::childs_to_md;

const SAMPLE: &str = "# My Page\n## Section\nSome text\n    - item\n        deeper\n### Sub\n- bullet\n# Comments\n- l12 @alice\n  hello\n  - @bob\n    reply";

fn leaf(data: ElementData) -> Element {
    Element { data, childs: Vec::new() }
}

#[test]
fn count_start_spaces_counts_leading_empty_words() {
    assert_eq!(count_start_spaces(&vec!["", "", "a", "b"]), 2);
    assert_eq!(count_start_spaces(&vec!["a"]), 0);
    assert_eq!(count_start_spaces(&vec!["", "", ""]), 3);
    assert_eq!(count_start_spaces(&vec![]), 0);
}

#[test]
fn md_to_page_builds_the_tree() {
    let page = md_to_page(SAMPLE);
    let (title, comments) = match &page.data {
        ElementData::Page(p) => (p.title.clone(), p.comments.as_ref().unwrap()),
        _ => panic!("root is not a page"),
    };
    assert_eq!(title, Some("My Page".to_string()));
    assert_eq!(page.childs.len(), 1);
    let section = &page.childs[0];
    match &section.data {
        ElementData::Title(t) => assert_eq!(t.txt, "Section"),
        _ => panic!("expected a title"),
    }
    assert_eq!(section.childs.len(), 2);
    match &section.childs[0].data {
        ElementData::Text(t) => assert_eq!(t.txt, "Some text"),
        _ => panic!("expected a text"),
    }
    match &section.childs[0].childs[0].data {
        ElementData::ListElement(t) => assert_eq!(t.txt, "item"),
        _ => panic!("expected a list element"),
    }
    match &section.childs[0].childs[0].childs[0].data {
        ElementData::Text(t) => assert_eq!(t.txt, "deeper"),
        _ => panic!("expected a text"),
    }
    match &section.childs[1].data {
        ElementData::Title(t) => assert_eq!(t.txt, "Sub"),
        _ => panic!("expected a title"),
    }
    assert!(matches!(comments.data, ElementData::CommentSection));
    assert_eq!(comments.childs.len(), 1);
    match &comments.childs[0].data {
        ElementData::Comment(c) => {
            assert_eq!(c.line, Some("12".to_string()));
            assert_eq!(c.user, "alice");
            assert_eq!(c.text, vec!["hello".to_string()]);
        },
        _ => panic!("expected a comment"),
    }
    match &comments.childs[0].childs[0].data {
        ElementData::Comment(c) => {
            assert_eq!(c.line, None);
            assert_eq!(c.user, "bob");
            assert_eq!(c.text, vec!["reply".to_string()]);
        },
        _ => panic!("expected a comment"),
    }
}

#[test]
fn md_page_renders_back_to_markdown() {
    let page = md_to_page(SAMPLE);
    assert_eq!(
        page.to_md(0, 0),
        "# My Page\n\n## Section\nSome text\n    - item\n        deeper\n\n### Sub\n- bullet\n\n# Comments\n- l12 @alice\n  hello\n  - @bob\n    reply"
    );
}

#[test]
fn md_canonical_text_reads_and_renders_to_itself() {
    let canonical = "# My Page\n\n## Section\nSome text\n    - item\n        deeper\n\n### Sub\n- bullet\n\n# Comments\n- l12 @alice\n  hello\n  - @bob\n    reply";
    assert_eq!(md_to_page(canonical).to_md(0, 0), canonical);
}

#[test]
fn md_errors() {
    assert!(matches!(try_md_to_page("# A\n# B"), Err(MdError::TitleAlreadySet)));
    assert!(matches!(try_md_to_page("# A\n# Comments\n# Comments"), Err(MdError::CommentsAlreadySet)));
    assert!(matches!(try_md_to_page("### x"), Err(MdError::MissingParent)));
    assert!(matches!(try_md_to_page("        - x"), Err(MdError::MissingParent)));
    assert!(matches!(try_md_to_page("##"), Err(MdError::LineTooShort)));
    assert!(matches!(try_md_to_page("#"), Err(MdError::LineTooShort)));
    assert!(matches!(try_md_to_page("  -"), Err(MdError::LineTooShort)));
    assert!(matches!(try_md_to_page("# A\n# Comments\n- @x"), Err(MdError::MissingWord)));
    assert!(matches!(try_md_to_page("# A\n# Comments\n    - @x"), Err(MdError::MissingParent)));
    assert!(try_md_to_page("").is_ok());
}

#[test]
fn md_blank_line_in_comments_is_comment_text() {
    let page = md_to_page("# A\n# Comments\n- l1 @u\n");
    match &page.data {
        ElementData::Page(p) => match &p.comments.as_ref().unwrap().childs[0].data {
            ElementData::Comment(c) => assert_eq!(c.text, vec!["".to_string()]),
            _ => panic!("expected a comment"),
        },
        _ => panic!("root is not a page"),
    }
}

#[test]
fn md_comment_marks_are_removed() {
    let page = md_to_page("# A\n# Comments\n- l1l2 @@u@");
    match &page.data {
        ElementData::Page(p) => match &p.comments.as_ref().unwrap().childs[0].data {
            ElementData::Comment(c) => {
                assert_eq!(c.line, Some("12".to_string()));
                assert_eq!(c.user, "u");
            },
            _ => panic!("expected a comment"),
        },
        _ => panic!("root is not a page"),
    }
}

#[test]
fn item_renderers() {
    assert_eq!(Title { txt: "T".to_string() }.to_md(2), "\n### T");
    assert_eq!(Text { txt: "x".to_string() }.to_md(2), "        x");
    assert_eq!(ListElement { txt: "x".to_string() }.to_md(1), "    - x");
    let p: PageElement = Page { title: Some("P".to_string()), comments: None };
    assert_eq!(p.to_md(), "# P");
    let c = Comment { line: Some("3".to_string()), user: "u".to_string(), text: vec!["a".to_string(), "b".to_string()] };
    assert_eq!(c.to_md(1), "- l3 @u\n  a\n  b");
    assert_eq!(c.to_md(3), "    - l3 @u\n      a\n      b");
    let c2 = Comment { line: None, user: "v".to_string(), text: vec![] };
    assert_eq!(c2.to_md(0), "- @v\n");
    assert_eq!(ElementData::CommentSection.to_md(0, 0), "");
}

#[test]
fn childs_to_md_joins_with_newlines() {
    let childs = vec![
        leaf(ElementData::Text(Text { txt: "a".to_string() })),
        leaf(ElementData::ListElement(ListElement { txt: "b".to_string() })),
    ];
    assert_eq!(childs_to_md(&childs, 0, 1), "    a\n    - b");
}

#[test]
fn item_html() {
    assert_eq!(Title { txt: "T".to_string() }.to_html(0), "<h1>T</h1>");
    assert_eq!(Title { txt: "T".to_string() }.to_html(11), "<h12>T</h12>");
    assert_eq!(Text { txt: "x".to_string() }.to_html(3), "<p class='indent_3'>x</p>");
    assert_eq!(ListElement { txt: "x".to_string() }.to_html(0), "<p class='indent_0'>x</p>");
    assert_eq!(Page { title: Some("P".to_string()), comments: None }.to_html(), "<h1>P</h1>");
    assert_eq!(ElementData::CommentSection.to_html(0, 0), "-");
}

#[test]
fn element_html_of_a_page() {
    let page = Element {
        data: ElementData::Page(Page { title: Some("T".to_string()), comments: None }),
        childs: vec![Element {
            data: ElementData::Title(Title { txt: "S".to_string() }),
            childs: vec![leaf(ElementData::Text(Text { txt: "x".to_string() }))],
        }],
    };
    let text = "<div class='element'><button>←</button><button>→</button><button></button><p class='indent_0'>x</p></div>";
    let title = format!(
        "<div class='element'><button></button><button></button><button>▼</button><h2>S</h2></div><div class=''>{text}</div>"
    );
    let main = format!(
        "<div class='element'><button></button><button></button><button></button><h1>T</h1></div><div class=''>{title}</div>"
    );
    assert_eq!(page.to_html(0, 0), format!("{PAGE_HTML_START}{main}{PAGE_HTML_END}"));
    assert!(PAGE_HTML_START.contains("<p>Outline</p>"));
    assert!(PAGE_HTML_END.contains("<p>Comments</p>"));
}

#[test]
fn checked_renderers_refuse_what_would_fail() {
    let untitled = Element {
        data: ElementData::Page(Page { title: None, comments: None }),
        childs: vec![leaf(ElementData::Text(Text { txt: "x".to_string() }))],
    };
    assert!(!untitled.is_renderable());
    assert!(!untitled.is_titled());
    assert!(untitled.try_to_md(0, 0).is_none());
    assert!(untitled.try_to_html(0, 0).is_none());
    let no_comments = Element {
        data: ElementData::Page(Page { title: Some("T".to_string()), comments: None }),
        childs: Vec::new(),
    };
    assert!(!no_comments.is_renderable());
    assert!(no_comments.is_titled());
    assert!(no_comments.try_to_md(0, 0).is_none());
    assert!(no_comments.try_to_html(0, 0).is_some());
    let page = md_to_page(SAMPLE);
    assert!(page.is_renderable());
    assert!(page.height_below(6));
    assert!(!page.height_below(5));
    assert_eq!(page.try_to_md(0, 0), Some(page.to_md(0, 0)));
    assert!(page.try_to_md(usize::MAX - 1, 0).is_none());
}

#[test]
fn written_tree_reads_back_as_written() {
    let comment = |line: Option<&str>, user: &str, text: &[&str], childs: Vec<Element>| Element {
        data: ElementData::Comment(Comment {
            line: line.map(|x| x.to_string()),
            user: user.to_string(),
            text: text.iter().map(|t| t.to_string()).collect(),
        }),
        childs,
    };
    let thread = comment(Some("3"), "ann", &["first point", "second"], vec![comment(None, "ben", &["agreed"], Vec::new())]);
    let section = Element { data: ElementData::CommentSection, childs: vec![thread] };
    let tree = Element {
        data: ElementData::Page(Page { title: Some("Doc".to_string()), comments: Some(Box::new(section)) }),
        childs: vec![
            Element {
                data: ElementData::Text(Text { txt: "intro".to_string() }),
                childs: vec![leaf(ElementData::ListElement(ListElement { txt: "point".to_string() }))],
            },
            Element {
                data: ElementData::Title(Title { txt: "Part".to_string() }),
                childs: vec![
                    leaf(ElementData::Text(Text { txt: "body".to_string() })),
                    Element {
                        data: ElementData::Title(Title { txt: "Detail".to_string() }),
                        childs: vec![leaf(ElementData::ListElement(ListElement { txt: "x".to_string() }))],
                    },
                ],
            },
        ],
    };
    let md = tree.to_md(0, 0);
    assert_eq!(
        md,
        "# Doc\nintro\n    - point\n\n## Part\nbody\n\n### Detail\n- x\n\n# Comments\n- l3 @ann\n  first point\n  second\n  - @ben\n    agreed"
    );
    let back = md_to_page(&md);
    assert_eq!(back.to_md(0, 0), md);
    match &back.data {
        ElementData::Page(p) => {
            assert_eq!(p.title.as_deref(), Some("Doc"));
            let c = p.comments.as_ref().unwrap();
            assert!(matches!(c.data, ElementData::CommentSection));
            assert_eq!(c.childs.len(), 1);
            match &c.childs[0].data {
                ElementData::Comment(k) => {
                    assert_eq!(k.line.as_deref(), Some("3"));
                    assert_eq!(k.user, "ann");
                    assert_eq!(k.text, vec!["first point".to_string(), "second".to_string()]);
                }
                _ => panic!("expected a comment"),
            }
            assert_eq!(c.childs[0].childs.len(), 1);
        }
        _ => panic!("expected a page"),
    }
    assert_eq!(back.childs.len(), 2);
    assert_eq!(back.childs[1].childs.len(), 2);
}

#[test]
fn comment_lines_leave_the_page_alone() {
    let a = "# Page\n## Head\ntext\n    - item";
    let whole = format!("{a}\n# Comments\n- l1 @u\n  ## not a heading\n  - @v\n    - x");
    let before = md_to_page(a);
    let after = md_to_page(&whole);
    let title = |e: &Element| match &e.data {
        ElementData::Page(p) => p.title.clone(),
        _ => None,
    };
    assert_eq!(title(&after), title(&before));
    assert_eq!(after.childs.len(), before.childs.len());
    assert_eq!(childs_to_md(&after.childs, 0, 0), childs_to_md(&before.childs, 0, 0));
}

#[test]
fn sibling_markdown_joins_with_a_line_break() {
    let x = leaf(ElementData::Text(Text { txt: "x".to_string() }));
    let y = leaf(ElementData::ListElement(ListElement { txt: "y".to_string() }));
    let z = leaf(ElementData::Title(Title { txt: "z".to_string() }));
    let a = vec![leaf(ElementData::Text(Text { txt: "x".to_string() }))];
    let b = vec![
        leaf(ElementData::ListElement(ListElement { txt: "y".to_string() })),
        leaf(ElementData::Title(Title { txt: "z".to_string() })),
    ];
    let ab = vec![x, y, z];
    assert_eq!(childs_to_md(&ab, 0, 1), format!("{}\n{}", childs_to_md(&a, 0, 1), childs_to_md(&b, 0, 1)));
    assert_eq!(childs_to_md(&Vec::new(), 0, 1), "");
    assert_eq!(childs_to_md(&a, 0, 1), a[0].to_md(1, 1));
}

#[test]
fn page_html_leaves_the_comments_out() {
    let body = || vec![leaf(ElementData::Text(Text { txt: "x".to_string() }))];
    let bare = Element {
        data: ElementData::Page(Page { title: Some("T".to_string()), comments: None }),
        childs: body(),
    };
    let section = Element {
        data: ElementData::CommentSection,
        childs: vec![leaf(ElementData::Comment(Comment {
            line: Some("1".to_string()),
            user: "u".to_string(),
            text: vec!["hi".to_string()],
        }))],
    };
    let with_comments = Element {
        data: ElementData::Page(Page { title: Some("T".to_string()), comments: Some(Box::new(section)) }),
        childs: body(),
    };
    assert_eq!(bare.to_html(0, 0), with_comments.to_html(0, 0));
}
