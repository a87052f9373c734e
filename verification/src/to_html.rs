use vstd::prelude::*;
use crate::element::{
    elements_model, lemma_elements_model, lemma_models_height, models_height, DataModel,
    Element, ElementData, ElementModel, ListElement, Page, Text, Title,
};
use crate::text::{decimal, join, join_strings, push_decimal, push_str};
use crate::to_md::child_indent;

verus! {

/// What a rendered page puts before its content: the outline column and the opening of the center column.
pub const PAGE_HTML_START: &'static str = "\n                    <div id='left'>\n                        <p>Outline</p>\n                    </div>\n                    <div id='center'>\n                        ";

/// What a rendered page puts after its content: the end of the center column and the comments column.
pub const PAGE_HTML_END: &'static str = "\n                    </div>\n                    <div id='right'>\n                        <p>Comments</p>\n                    </div>\n                ";

pub open spec fn title_html(txt: Seq<char>, level: nat) -> Seq<char> {
    "<h"@ + decimal(level + 1) + ">"@ + txt + "</h"@ + decimal(level + 1) + ">"@
}

pub open spec fn indented_html(txt: Seq<char>, indent: nat) -> Seq<char> {
    "<p class='indent_"@ + decimal(indent) + "'>"@ + txt + "</p>"@
}

pub open spec fn page_html(title: Seq<char>) -> Seq<char> {
    "<h1>"@ + title + "</h1>"@
}

/// The HTML of one node on its own; comments and comment sections show as a dash.
pub open spec fn data_html(d: DataModel, level: nat, indent: nat) -> Seq<char> {
    match d {
        DataModel::Page { title, .. } => page_html(title.unwrap()),
        DataModel::Title(t) => title_html(t, level),
        DataModel::Text(t) => indented_html(t, indent),
        DataModel::ListElement(t) => indented_html(t, indent),
        _ => "-"@,
    }
}

pub open spec fn is_indentable(d: DataModel) -> bool {
    d is Text || d is ListElement
}

pub open spec fn button_show_hide(d: DataModel) -> Seq<char> {
    if d is Title { "<button>▼</button>"@ } else { "<button></button>"@ }
}

pub open spec fn button_left(d: DataModel) -> Seq<char> {
    if is_indentable(d) { "<button>←</button>"@ } else { "<button></button>"@ }
}

pub open spec fn button_right(d: DataModel) -> Seq<char> {
    if is_indentable(d) { "<button>→</button>"@ } else { "<button></button>"@ }
}

pub open spec fn element_holder(d: DataModel, level: nat, indent: nat) -> Seq<char> {
    "<div class='element'>"@ + button_left(d) + button_right(d) + button_show_hide(d) + data_html(d, level, indent)
        + "</div>"@
}

/// The HTML of a whole tree; a page is framed by the outline and comments columns.
pub open spec fn element_html(e: ElementModel, level: nat, indent: nat) -> Seq<char>
    decreases e, 1int,
{
    let ci = child_indent(e.data, indent);
    let holder = element_holder(e.data, level, indent);
    let main = if e.childs.len() > 0 {
        holder + "<div class=''>"@ + childs_html(e.childs, level, ci) + "</div>"@
    } else {
        holder
    };
    if e.data is Page {
        PAGE_HTML_START@ + main + PAGE_HTML_END@
    } else {
        main
    }
}

pub open spec fn childs_html(s: Seq<ElementModel>, level: nat, ci: nat) -> Seq<char>
    decreases s, 0int,
{
    if s.len() == 0 {
        Seq::empty()
    } else if s.len() == 1 {
        element_html(s[0], level + 1, ci)
    } else {
        childs_html(s.drop_last(), level, ci) + "\n"@ + element_html(s[s.len() - 1], level + 1, ci)
    }
}

/// Every page node among the tree's nodes has a title.
pub open spec fn titled(e: ElementModel) -> bool
    decreases e, 1int,
{
    &&& all_titled(e.childs)
    &&& (e.data matches DataModel::Page { title, .. } ==> title is Some)
}

pub open spec fn all_titled(s: Seq<ElementModel>) -> bool
    decreases s, 0int,
{
    if s.len() == 0 {
        true
    } else {
        all_titled(s.drop_last()) && titled(s.last())
    }
}

proof fn lemma_all_titled(s: Seq<ElementModel>, i: int)
    requires
        0 <= i < s.len(),
        all_titled(s),
    ensures
        titled(s[i]),
    decreases s.len(),
{
    if i < s.len() - 1 {
        lemma_all_titled(s.drop_last(), i);
    }
}

proof fn lemma_childs_html_join(s: Seq<ElementModel>, level: nat, ci: nat)
    ensures
        childs_html(s, level, ci) == join(
            Seq::new(s.len(), |i: int| element_html(s[i], level + 1, ci)),
            "\n"@,
        ),
    decreases s.len(),
{
    if s.len() > 1 {
        lemma_childs_html_join(s.drop_last(), level, ci);
        assert(Seq::new(s.len(), |i: int| element_html(s[i], level + 1, ci)).drop_last() =~= Seq::new(
            s.drop_last().len(),
            |i: int| element_html(s.drop_last()[i], level + 1, ci),
        ));
    }
}

impl Title {
    pub fn to_html(&self, level: usize) -> (r: String)
        requires
            level < usize::MAX,
        ensures
            r@ == title_html(self.txt@, level as nat),
    {
        let level_str = level + 1;
        let mut r = String::new();
        push_str(&mut r, "<h");
        push_decimal(&mut r, level_str);
        push_str(&mut r, ">");
        push_str(&mut r, self.txt.as_str());
        push_str(&mut r, "</h");
        push_decimal(&mut r, level_str);
        push_str(&mut r, ">");
        r
    }
}

fn indented_to_html(txt: &String, indent: usize) -> (r: String)
    ensures
        r@ == indented_html(txt@, indent as nat),
{
    let mut r = String::new();
    push_str(&mut r, "<p class='indent_");
    push_decimal(&mut r, indent);
    push_str(&mut r, "'>");
    push_str(&mut r, txt.as_str());
    push_str(&mut r, "</p>");
    r
}

impl Text {
    pub fn to_html(&self, indent: usize) -> (r: String)
        ensures
            r@ == indented_html(self.txt@, indent as nat),
    {
        indented_to_html(&self.txt, indent)
    }
}

impl Page {
    pub fn to_html(&self) -> (r: String)
        requires
            self.title is Some,
        ensures
            r@ == page_html(self.title.unwrap()@),
    {
        let mut r = String::new();
        push_str(&mut r, "<h1>");
        match &self.title {
            Some(t) => push_str(&mut r, t.as_str()),
            None => {},
        }
        push_str(&mut r, "</h1>");
        r
    }
}

impl ListElement {
    pub fn to_html(&self, indent: usize) -> (r: String)
        ensures
            r@ == indented_html(self.txt@, indent as nat),
    {
        indented_to_html(&self.txt, indent)
    }
}

impl ElementData {
    pub fn to_html(&self, level: usize, indent: usize) -> (r: String)
        requires
            level < usize::MAX,
            self matches ElementData::Page(p) ==> p.title is Some,
        ensures
            r@ == data_html(self.model(), level as nat, indent as nat),
    {
        match self {
            ElementData::Page(x) => x.to_html(),
            ElementData::Title(x) => x.to_html(level),
            ElementData::Text(x) => x.to_html(indent),
            ElementData::ListElement(x) => x.to_html(indent),
            _ => {
                let mut r = String::new();
                push_str(&mut r, "-");
                r
            },
        }
    }
}

fn childs_to_html(childs: &Vec<Element>, level: usize, child_indent: usize) -> (r: String)
    requires
        all_titled(elements_model(childs@)),
        level + 1 + models_height(elements_model(childs@)) < usize::MAX,
        child_indent + models_height(elements_model(childs@)) < usize::MAX,
    ensures
        r@ == childs_html(elements_model(childs@), level as nat, child_indent as nat),
    decreases childs@, 0int,
{
    let ghost ms = elements_model(childs@);
    proof {
        lemma_elements_model(childs@);
        lemma_childs_html_join(ms, level as nat, child_indent as nat);
    }
    let mut parts: Vec<String> = Vec::new();
    let mut i: usize = 0;
    while i < childs.len()
        invariant
            i <= childs.len(),
            ms == elements_model(childs@),
            ms.len() == childs.len(),
            forall|j: int| 0 <= j < childs.len() ==> #[trigger] ms[j] == childs@[j].model(),
            all_titled(ms),
            level + 1 + models_height(ms) < usize::MAX,
            child_indent + models_height(ms) < usize::MAX,
            parts@.map_values(|p: String| p@) == Seq::new(
                ms.len(),
                |k: int| element_html(ms[k], level as nat + 1, child_indent as nat),
            ).take(i as int),
        decreases childs.len() - i,
    {
        proof {
            lemma_models_height(ms, i as int);
            lemma_all_titled(ms, i as int);
            assert(decreases_to!(childs@ => childs@[i as int]));
        }
        let p = childs[i].to_html(level + 1, child_indent);
        let ghost old_parts = parts@;
        let ghost all = Seq::new(ms.len(), |k: int| element_html(ms[k], level as nat + 1, child_indent as nat));
        assert(all.take(i + 1) =~= all.take(i as int).push(p@));
        parts.push(p);
        assert(parts@.map_values(|p: String| p@) =~= old_parts.map_values(|p: String| p@).push(p@));
        i = i + 1;
    }
    assert(Seq::new(ms.len(), |k: int| element_html(ms[k], level as nat + 1, child_indent as nat)).take(
        i as int,
    ) =~= Seq::new(ms.len(), |k: int| element_html(ms[k], level as nat + 1, child_indent as nat)));
    join_strings(&parts, "\n")
}

fn button(indentable: bool, on: &str) -> (r: String)
    ensures
        r@ == (if indentable { "<button>"@ + on@ + "</button>"@ } else { "<button></button>"@ }),
{
    let mut r = String::new();
    if indentable {
        push_str(&mut r, "<button>");
        push_str(&mut r, on);
        push_str(&mut r, "</button>");
    } else {
        push_str(&mut r, "<button></button>");
    }
    r
}

impl Element {
    /// The HTML of this tree; a page is framed by the outline and comments columns.
    pub fn to_html(&self, level: usize, indent: usize) -> (r: String)
        requires
            titled(self.model()),
            level + self.model().height() < usize::MAX,
            indent + self.model().height() < usize::MAX,
        ensures
            r@ == element_html(self.model(), level as nat, indent as nat),
        decreases self, 1int,
    {
        let ghost d = self.data.model();
        let child_indent = match self.data {
            ElementData::Text(_) => indent + 1,
            ElementData::ListElement(_) => indent + 1,
            _ => indent,
        };
        let child_md = childs_to_html(&self.childs, level, child_indent);
        let is_title = match &self.data {
            ElementData::Title(_) => true,
            _ => false,
        };
        let indentable = match &self.data {
            ElementData::Text(_) => true,
            ElementData::ListElement(_) => true,
            _ => false,
        };
        let button_show_hide = if is_title {
            let mut b = String::new();
            push_str(&mut b, "<button>▼</button>");
            b
        } else {
            button(false, "")
        };
        let button_left = button(indentable, "←");
        let button_right = button(indentable, "→");
        proof {
            reveal_strlit("<button>");
            reveal_strlit("</button>");
            reveal_strlit("←");
            reveal_strlit("→");
            reveal_strlit("<button>←</button>");
            reveal_strlit("<button>→</button>");
        }
        assert(button_left@ == crate::to_html::button_left(d));
        assert(button_right@ == crate::to_html::button_right(d));
        let mut element_holder = String::new();
        push_str(&mut element_holder, "<div class='element'>");
        push_str(&mut element_holder, button_left.as_str());
        push_str(&mut element_holder, button_right.as_str());
        push_str(&mut element_holder, button_show_hide.as_str());
        let data_html = self.data.to_html(level, indent);
        push_str(&mut element_holder, data_html.as_str());
        push_str(&mut element_holder, "</div>");
        let main_html = if self.childs.len() > 0 {
            let mut m = element_holder;
            push_str(&mut m, "<div class=''>");
            push_str(&mut m, child_md.as_str());
            push_str(&mut m, "</div>");
            m
        } else {
            element_holder
        };
        match &self.data {
            ElementData::Page(_) => {
                let mut r = String::new();
                push_str(&mut r, PAGE_HTML_START);
                push_str(&mut r, main_html.as_str());
                push_str(&mut r, PAGE_HTML_END);
                r
            },
            _ => main_html,
        }
    }
}

} // verus!

verus! {

impl Element {
    /// Whether every page node in the tree has a title.
    pub fn is_titled(&self) -> (b: bool)
        ensures
            b == titled(self.model()),
        decreases self, 1int,
    {
        let ghost m = self.model();
        assert(m.data == self.data.model());
        assert(m.childs == elements_model(self.childs@));
        let own = match &self.data {
            ElementData::Page(p) => p.title.is_some(),
            _ => true,
        };
        own && all_titled_exec(&self.childs)
    }

    /// The HTML of this tree, or `None` where rendering would fail: a page node without a title,
    /// or a tree too deep for the levels to be counted.
    pub fn try_to_html(&self, level: usize, indent: usize) -> (r: Option<String>)
        ensures
            r matches Some(s) ==> s@ == element_html(self.model(), level as nat, indent as nat),
            r is None <==> !(titled(self.model()) && level + self.model().height() < usize::MAX && indent
                + self.model().height() < usize::MAX),
    {
        let m = if level > indent { level } else { indent };
        if self.is_titled() && self.height_below(usize::MAX - m) {
            Some(self.to_html(level, indent))
        } else {
            None
        }
    }
}

fn all_titled_exec(s: &Vec<Element>) -> (b: bool)
    ensures
        b == all_titled(elements_model(s@)),
    decreases s@, 0int,
{
    proof {
        lemma_elements_model(s@);
    }
    let mut i: usize = 0;
    while i < s.len()
        invariant
            i <= s.len(),
            forall|j: int| 0 <= j < s.len() ==> #[trigger] elements_model(s@)[j] == s@[j].model(),
            elements_model(s@).len() == s.len(),
            all_titled(elements_model(s@).take(i as int)),
        decreases s.len() - i,
    {
        assert(decreases_to!(s@ => s@[i as int]));
        let ok = s[i].is_titled();
        assert(elements_model(s@).take(i + 1).drop_last() =~= elements_model(s@).take(i as int));
        assert(elements_model(s@).take(i + 1).last() == s@[i as int].model());
        if !ok {
            proof {
                lemma_titled_prefix(elements_model(s@), i + 1, s.len() as int);
            }
            assert(elements_model(s@).take(s.len() as int) =~= elements_model(s@));
            return false;
        }
        i = i + 1;
    }
    assert(elements_model(s@).take(s.len() as int) =~= elements_model(s@));
    true
}

proof fn lemma_titled_prefix(s: Seq<ElementModel>, i: int, j: int)
    requires
        0 <= i <= j <= s.len(),
        !all_titled(s.take(i)),
    ensures
        !all_titled(s.take(j)),
    decreases j - i,
{
    if i < j {
        assert(s.take(i + 1).drop_last() =~= s.take(i));
        lemma_titled_prefix(s, i + 1, j);
    }
}

} // verus!

verus! {

/// A page's comments never show in its HTML: two pages with the same title and the same nodes
/// under them render alike.
pub proof fn law_page_html_ignores_comments(e1: ElementModel, e2: ElementModel, level: nat, indent: nat)
    requires
        e1.data is Page,
        e2.data is Page,
        e1.data->Page_title == e2.data->Page_title,
        e1.childs == e2.childs,
    ensures
        element_html(e1, level, indent) == element_html(e2, level, indent),
{
    assert(data_html(e1.data, level, indent) == data_html(e2.data, level, indent));
    assert(child_indent(e1.data, indent) == child_indent(e2.data, indent));
}

} // verus!

verus! {

/// The HTML of a text or list item at indentation `indent`: the outdent and indent buttons, an
/// empty show/hide button, the paragraph classed `indent_` and the indentation, and then, if it has
/// any, the nodes under it one level deeper and one indentation step further in.
pub proof fn law_indented_item_html(e: ElementModel, level: nat, indent: nat)
    requires
        e.data is Text || e.data is ListElement,
    ensures
        ({
            let t = if e.data is Text { e.data->Text_0 } else { e.data->ListElement_0 };
            let holder = "<div class='element'>"@ + "<button>←</button>"@ + "<button>→</button>"@
                + "<button></button>"@ + "<p class='indent_"@ + decimal(indent) + "'>"@ + t + "</p>"@
                + "</div>"@;
            element_html(e, level, indent) == if e.childs.len() > 0 {
                holder + "<div class=''>"@ + childs_html(e.childs, level, indent + 1) + "</div>"@
            } else {
                holder
            }
        }),
{
    let t = if e.data is Text { e.data->Text_0 } else { e.data->ListElement_0 };
    assert(data_html(e.data, level, indent) == indented_html(t, indent));
    assert(element_holder(e.data, level, indent) =~= "<div class='element'>"@ + "<button>←</button>"@
        + "<button>→</button>"@ + "<button></button>"@ + "<p class='indent_"@ + decimal(indent) + "'>"@ + t
        + "</p>"@ + "</div>"@);
}

/// A nested list: an item at indentation `indent` whose only node under it is a leaf item puts that
/// leaf's paragraph at indentation `indent + 1`.
pub proof fn law_nested_item_html(e: ElementModel, level: nat, indent: nat)
    requires
        e.data is Text || e.data is ListElement,
        e.childs.len() == 1,
        e.childs[0].data is Text || e.childs[0].data is ListElement,
        e.childs[0].childs.len() == 0,
    ensures
        ({
            let c = e.childs[0];
            let u = if c.data is Text { c.data->Text_0 } else { c.data->ListElement_0 };
            childs_html(e.childs, level, indent + 1) == "<div class='element'>"@ + "<button>←</button>"@
                + "<button>→</button>"@ + "<button></button>"@ + "<p class='indent_"@ + decimal(indent + 1)
                + "'>"@ + u + "</p>"@ + "</div>"@
        }),
{
    law_indented_item_html(e.childs[0], level + 1, indent + 1);
}

/// The HTML of a title at `level`: empty outdent and indent buttons, the show/hide button, the
/// heading of rank `level + 1`, and then, if it has any, the nodes under it one level deeper at the
/// same indentation.
pub proof fn law_title_html(e: ElementModel, level: nat, indent: nat)
    requires
        e.data is Title,
    ensures
        ({
            let holder = "<div class='element'>"@ + "<button></button>"@ + "<button></button>"@
                + "<button>▼</button>"@ + "<h"@ + decimal(level + 1) + ">"@ + e.data->Title_0 + "</h"@
                + decimal(level + 1) + ">"@ + "</div>"@;
            element_html(e, level, indent) == if e.childs.len() > 0 {
                holder + "<div class=''>"@ + childs_html(e.childs, level, indent) + "</div>"@
            } else {
                holder
            }
        }),
{
    assert(element_holder(e.data, level, indent) =~= "<div class='element'>"@ + "<button></button>"@
        + "<button></button>"@ + "<button>▼</button>"@ + "<h"@ + decimal(level + 1) + ">"@ + e.data->Title_0
        + "</h"@ + decimal(level + 1) + ">"@ + "</div>"@);
}

/// The HTML of a page: the outline column, then in the center column its holder (three empty
/// buttons and the title as the first heading) and the nodes under it one level deeper at the same
/// indentation, then the comments column.
pub proof fn law_page_html(e: ElementModel, level: nat, indent: nat)
    requires
        e.data is Page,
    ensures
        ({
            let holder = "<div class='element'>"@ + "<button></button>"@ + "<button></button>"@
                + "<button></button>"@ + "<h1>"@ + e.data->Page_title.unwrap() + "</h1>"@ + "</div>"@;
            let main = if e.childs.len() > 0 {
                holder + "<div class=''>"@ + childs_html(e.childs, level, indent) + "</div>"@
            } else {
                holder
            };
            element_html(e, level, indent) == PAGE_HTML_START@ + main + PAGE_HTML_END@
        }),
{
    assert(element_holder(e.data, level, indent) =~= "<div class='element'>"@ + "<button></button>"@
        + "<button></button>"@ + "<button></button>"@ + "<h1>"@ + e.data->Page_title.unwrap() + "</h1>"@
        + "</div>"@);
}

/// The HTML of a comment or a comment section: three empty buttons and a dash, and then, if it has
/// any, the nodes under it one level deeper at the same indentation.
pub proof fn law_comment_html(e: ElementModel, level: nat, indent: nat)
    requires
        e.data is Comment || e.data is CommentSection,
    ensures
        ({
            let holder = "<div class='element'>"@ + "<button></button>"@ + "<button></button>"@
                + "<button></button>"@ + "-"@ + "</div>"@;
            element_html(e, level, indent) == if e.childs.len() > 0 {
                holder + "<div class=''>"@ + childs_html(e.childs, level, indent) + "</div>"@
            } else {
                holder
            }
        }),
{
}

/// Sibling trees render one after the other, one level deeper, separated by line breaks.
pub proof fn law_childs_html(s: Seq<ElementModel>, level: nat, ci: nat)
    requires
        s.len() > 0,
    ensures
        childs_html(s, level, ci) == if s.len() == 1 {
            element_html(s[0], level + 1, ci)
        } else {
            childs_html(s.drop_last(), level, ci) + "\n"@ + element_html(s[s.len() - 1], level + 1, ci)
        },
{
}

} // verus!
