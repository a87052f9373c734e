use std::collections::HashMap;
use taskini::organization::{remove_all_str, Data, Organization};
use taskini::page::{CodeBlock, Element, Line, ListItem, Node, Page, TaskReference, Title};
use taskini::page_parse::{try_from_md, NoteError};
use taskini::task::{Task, TaskStatus};

const DATA_MODEL: &str = "# Data model
```mermaid
graph LR
    subgraph user_database[User Database]
        subgraph user
            user_id
            primary_email
            password_hash
        end
        subgraph link_user_organization
            link_user_organization.user_id[user_id]
            link_user_organization.organization_id[organization_id]
        end
    end

    subgraph organization_database_server[Organization Database Server]
        subgraph organization_database[Organization Database]
            organization_id
            data
        end
    end

    subgraph server
    end

link_user_organization.user_id -.- user_id
link_user_organization.organization_id -.- organization_id

server -.- organization_database_server
server -.- user_database

client -.- server
```
";

const TASKS_NOTE: &str = "# Tasks\n\n## Todo\n- [ ] buy milk\n- [x] done thing\n    - sub item\n";

#[test]
fn note_with_code_block_renders_back_to_itself() {
    let mut tasks: HashMap<u128, Task> = HashMap::new();
    let page = Page::from_md(DATA_MODEL, "/data_model".to_string(), &mut tasks);
    assert_eq!(page.title, "Data model");
    assert_eq!(page.path, "/data_model");
    assert!(page.comments.is_none());
    assert_eq!(page.childs.len(), 1);
    match &page.childs[0] {
        Node::CodeBlock(c) => {
            assert_eq!(c.content.len(), 32);
            assert_eq!(c.content[0], "```mermaid");
            assert_eq!(c.content[31], "```");
        }
        _ => panic!("expected a code block"),
    }
    assert!(tasks.is_empty());
    assert_eq!(page.to_md(0, 0, &tasks), DATA_MODEL);
}

#[test]
fn note_with_tasks_reads_and_renders_back() {
    let mut tasks: HashMap<u128, Task> = HashMap::new();
    let page = Page::from_md(TASKS_NOTE, "/tasks".to_string(), &mut tasks);
    assert_eq!(page.title, "Tasks");
    assert_eq!(tasks.len(), 2);
    assert_eq!(page.childs.len(), 1);
    let todo = match &page.childs[0] {
        Node::Title(t) => t,
        _ => panic!("expected a title"),
    };
    assert_eq!(todo.value, "Todo");
    assert_eq!(todo.childs.len(), 2);
    match (&todo.childs[0], &todo.childs[1]) {
        (Node::TaskReference(a), Node::TaskReference(b)) => {
            let ta = &tasks[&a.id];
            assert_eq!(ta.title, "buy milk");
            assert!(ta.status == TaskStatus::New);
            assert_eq!(ta.id, a.id);
            let tb = &tasks[&b.id];
            assert_eq!(tb.title, "done thing");
            assert!(tb.status == TaskStatus::Done);
            assert_eq!(b.childs.len(), 1);
            match &b.childs[0] {
                Node::ListItem(l) => assert_eq!(l.txt, "sub item"),
                _ => panic!("expected a list item"),
            }
            assert_ne!(a.id, b.id);
        }
        _ => panic!("expected two task references"),
    }
    assert_eq!(page.to_md(0, 0, &tasks), TASKS_NOTE);
}

#[test]
fn note_comments_are_kept_raw() {
    let mut tasks: HashMap<u128, Task> = HashMap::new();
    let md = "# T\nsome line\n## Comments\nfree text\n";
    let page = Page::from_md(md, "/t".to_string(), &mut tasks);
    assert_eq!(page.comments.as_deref(), Some("free text\n"));
    assert_eq!(page.to_md(0, 0, &tasks), "# T\nsome line\n\n## Comments\nfree text\n");
}

#[test]
fn note_second_comments_separator_drops_comments() {
    let mut tasks: HashMap<u128, Task> = HashMap::new();
    let md = "# T\n## Comments\na\n## Comments\nb";
    let page = Page::from_md(md, "/t".to_string(), &mut tasks);
    assert!(page.comments.is_none());
    assert_eq!(page.title, "T");
}

#[test]
fn note_lines_nest_by_indentation() {
    let mut tasks: HashMap<u128, Task> = HashMap::new();
    let md = "# P\nfirst\n    second\n## S\n### Sub\n- item";
    let page = Page::from_md(md, "/p".to_string(), &mut tasks);
    assert_eq!(page.childs.len(), 2);
    match &page.childs[0] {
        Node::Line(l) => {
            assert_eq!(l.value, "first");
            assert_eq!(l.childs.len(), 1);
            match &l.childs[0] {
                Node::Line(m) => assert_eq!(m.value, "second"),
                _ => panic!("expected a line"),
            }
        }
        _ => panic!("expected a line"),
    }
    match &page.childs[1] {
        Node::Title(s) => {
            assert_eq!(s.value, "S");
            assert_eq!(s.childs.len(), 1);
            match &s.childs[0] {
                Node::Title(sub) => {
                    assert_eq!(sub.value, "Sub");
                    assert_eq!(sub.childs.len(), 1);
                }
                _ => panic!("expected a sub title"),
            }
        }
        _ => panic!("expected a title"),
    }
    assert_eq!(page.to_md(0, 0, &tasks), "# P\nfirst\n    second\n\n## S\n\n### Sub\n- item\n");
}

#[test]
fn note_errors() {
    let cases: Vec<(&str, NoteError)> = vec![
        ("just text", NoteError::MissingTitle),
        ("", NoteError::MissingTitle),
        ("# A\n# B", NoteError::TitleAlreadySet),
        ("#", NoteError::LineTooShort),
        ("# A\n- [ ]", NoteError::LineTooShort),
        ("# A\n-", NoteError::LineTooShort),
        ("# A\n### x", NoteError::MissingParent),
        ("# A\n        - deep", NoteError::MissingParent),
        ("# A\n```mermaid\n```mermaid", NoteError::CodeBlockAlreadyOpen),
    ];
    for (md, expected) in cases {
        let mut tasks: HashMap<u128, Task> = HashMap::new();
        match try_from_md(md, "/x".to_string(), &mut tasks) {
            Ok(_) => panic!("expected an error for {md:?}"),
            Err(e) => assert!(e == expected, "wrong error for {md:?}"),
        }
    }
}

#[test]
fn a_note_that_cannot_be_read_leaves_the_tasks_alone() {
    let mut tasks: HashMap<u128, Task> = HashMap::new();
    tasks.insert(5, task("existing", TaskStatus::New, 5));
    let r = try_from_md("# A\n- [ ] one\n# B", "/x".to_string(), &mut tasks);
    assert!(matches!(r, Err(NoteError::TitleAlreadySet)));
    assert_eq!(tasks.len(), 1);
    let r = try_from_md("- [x] two\nno title", "/y".to_string(), &mut tasks);
    assert!(matches!(r, Err(NoteError::MissingTitle)));
    assert_eq!(tasks.len(), 1);
    assert_eq!(tasks[&5].title, "existing");
}

#[test]
fn remove_all_takes_out_every_occurrence() {
    assert_eq!(remove_all_str("root/org/notes/page.md", "root/org"), "/notes/page.md");
    assert_eq!(remove_all_str("a.md.md", ".md"), "a");
    assert_eq!(remove_all_str("aaa", "aa"), "a");
    assert_eq!(remove_all_str("abc", ""), "abc");
    assert_eq!(remove_all_str("", "x"), "");
}

#[test]
fn organization_new_is_named_after_last_path_part() {
    let org = Organization::new("a/b/c");
    assert_eq!(org.name, "c");
    assert_eq!(org.id_txt, "c");
    assert!(org.pages.is_empty());
    assert!(org.tasks.is_empty());
    let s = org.settings();
    assert_eq!(s.id, org.id);
    assert_eq!(s.name, "c");
    assert_eq!(s.id_txt, "c");
    let other = Organization::new("a/b/c");
    assert_ne!(org.id, other.id);
    assert_eq!((org.id >> 76) & 0xf, 4);
}

#[test]
fn organization_add_page_and_files() {
    let mut org = Organization::new("root/org");
    let id = org.add_page("root/org/notes/page.md", "root/org", TASKS_NOTE).unwrap();
    assert_eq!(org.pages.len(), 1);
    assert_eq!(org.tasks.len(), 2);
    let page = &org.pages[&id];
    assert_eq!(page.id, id);
    assert_eq!(page.path, "/notes/page");
    assert_eq!(org.page_md(page).as_deref(), Some(TASKS_NOTE));
    assert_eq!(org.settings_dir("out"), "out/org/settings/");
    assert_eq!(org.settings_file("out"), "out/org/settings/organization.json");
    assert_eq!(org.page_file("out", page, "json"), "out/org//notes/page.json");
    assert_eq!(org.page_file("out", page, "md"), "out/org//notes/page.md");

    let bad = org.add_page("root/org/bad.md", "root/org", "- [ ] lost\nno title");
    assert!(matches!(bad, Err(NoteError::MissingTitle)));
    assert_eq!(org.pages.len(), 1);
    assert_eq!(org.tasks.len(), 2);
}

#[test]
fn data_keeps_organizations_by_id() {
    let mut data = Data::new();
    assert!(data.organizations.is_empty());
    let org = Organization::new("x/tasty_bakery");
    let id = org.id;
    data.add(org);
    assert_eq!(data.organizations.len(), 1);
    assert_eq!(data.organizations[&id].name, "tasty_bakery");
}

fn task(title: &str, status: TaskStatus, id: u128) -> Task {
    Task { title: title.to_string(), subtasks: Vec::new(), status, id }
}

#[test]
fn written_page_reads_back_as_written() {
    let mut tasks: HashMap<u128, Task> = HashMap::new();
    tasks.insert(7, task("water plants", TaskStatus::Done, 7));
    tasks.insert(9, task("call home", TaskStatus::New, 9));
    let code = CodeBlock {
        content: vec!["```".to_string(), "let x = 1;".to_string(), "```".to_string()],
        childs: Vec::new(),
    };
    let intro = Line {
        value: "intro text".to_string(),
        childs: vec![Node::ListItem(ListItem { txt: "point".to_string(), childs: Vec::new() })],
    };
    let sub = Title {
        value: "Later".to_string(),
        childs: vec![Node::TaskReference(TaskReference { id: 9, childs: Vec::new() })],
    };
    let section = Title {
        value: "Now".to_string(),
        childs: vec![
            Node::TaskReference(TaskReference {
                id: 7,
                childs: vec![Node::Line(Line { value: "detail".to_string(), childs: Vec::new() })],
            }),
            Node::Title(sub),
        ],
    };
    let page = Page {
        id: 1,
        title: "Plan".to_string(),
        path: "/plan".to_string(),
        childs: vec![Node::Line(intro), Node::CodeBlock(code), Node::Title(section)],
        comments: Some("looks good\n".to_string()),
    };
    let md = page.to_md(0, 0, &tasks);
    assert_eq!(
        md,
        "# Plan\nintro text\n    - point\n```\nlet x = 1;\n```\n\n## Now\n- [x] water plants\n    detail\n\n### Later\n- [ ] call home\n\n## Comments\nlooks good\n"
    );
    let mut read_tasks: HashMap<u128, Task> = HashMap::new();
    let back = Page::from_md(&md, "/plan".to_string(), &mut read_tasks);
    assert_eq!(back.title, "Plan");
    assert_eq!(back.comments.as_deref(), Some("looks good\n"));
    assert_eq!(back.childs.len(), 3);
    assert_eq!(read_tasks.len(), 2);
    let titles: Vec<(String, bool)> = read_tasks.values().map(|t| (t.title.clone(), t.status == TaskStatus::Done)).collect();
    assert!(titles.contains(&("water plants".to_string(), true)));
    assert!(titles.contains(&("call home".to_string(), false)));
    assert_eq!(back.to_md(0, 0, &read_tasks), md);
}

/// Reads the organizations as files would give them (only `notana` holds a note) and checks that
/// each exported note is the note read.
#[test]
fn import_export() {
    let inputs: Vec<(&str, Vec<(&str, &str)>)> = vec![
        ("../examples/in/tasty_bakery", Vec::new()),
        ("../examples/in/yummy_for_charity", Vec::new()),
        ("../examples/in/notana", vec![("../examples/in/notana/data_model.md", DATA_MODEL)]),
    ];
    let mut data = Data::new();
    let mut read_back: Vec<(String, String)> = Vec::new();
    for (path, notes) in &inputs {
        let mut org = Organization::new(path);
        for (path_md, md) in notes {
            org.add_page(path_md, path, md).unwrap();
            read_back.push((path_md.replace("../examples/in/", "../examples/out/"), md.to_string()));
        }
        data.add(org);
    }
    assert_eq!(data.organizations.len(), 3);
    let mut exported: Vec<(String, String)> = Vec::new();
    for org in data.organizations.values() {
        assert_eq!(org.settings_file("../examples/out"), format!("../examples/out/{}/settings/organization.json", org.name));
        for page in org.pages.values() {
            let file = org.page_file("../examples/out", page, "md").replace("//", "/");
            exported.push((file, org.page_md(page).unwrap()));
        }
    }
    assert_eq!(exported, read_back);
}
