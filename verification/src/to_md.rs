use vstd::prelude::*;
use crate::element::{
    elements_model, lemma_elements_model, lemma_models_height, lemma_models_renderable,
    models_height, models_renderable, opt_str_view, strings_view, Comment, DataModel, Element,
    ElementData, ElementModel, ListElement, PageElement, Text, Title,
};
use crate::text::{join, join_strings, push_str, repeat, repeat_str};

verus! {

/// Four spaces per indentation step.
pub open spec fn indentation(n: nat) -> Seq<char> {
    repeat("    "@, n)
}

pub open spec fn title_md(txt: Seq<char>, level: nat) -> Seq<char> {
    "\n"@ + repeat("#"@, level + 1) + " "@ + txt
}

pub open spec fn text_md(txt: Seq<char>, indent: nat) -> Seq<char> {
    indentation(indent) + txt
}

pub open spec fn page_md(title: Seq<char>) -> Seq<char> {
    "# "@ + title
}

pub open spec fn list_md(txt: Seq<char>, indent: nat) -> Seq<char> {
    indentation(indent) + "- "@ + txt
}

/// Two spaces per nesting step below the first level of a comment thread.
pub open spec fn comment_prefix(level: nat) -> Seq<char> {
    repeat("  "@, if level >= 1 { (level - 1) as nat } else { 0 })
}

pub open spec fn comment_text_lines(text: Seq<Seq<char>>, level: nat) -> Seq<Seq<char>> {
    text.map_values(|l: Seq<char>| "  "@ + comment_prefix(level) + l)
}

pub open spec fn comment_md(line: Option<Seq<char>>, user: Seq<char>, text: Seq<Seq<char>>, level: nat) -> Seq<char> {
    let line_str = match line {
        Some(x) => "l"@ + x + " "@,
        None => Seq::empty(),
    };
    comment_prefix(level) + "- "@ + line_str + "@"@ + user + "\n"@ + join(comment_text_lines(text, level), "\n"@)
}

/// The markdown of one node on its own, without the nodes under it.
pub open spec fn data_md(d: DataModel, level: nat, indent: nat) -> Seq<char> {
    match d {
        DataModel::Page { title, .. } => page_md(title.unwrap()),
        DataModel::Title(t) => title_md(t, level),
        DataModel::Text(t) => text_md(t, indent),
        DataModel::ListElement(t) => list_md(t, indent),
        DataModel::Comment { line, user, text } => comment_md(line, user, text, level),
        DataModel::CommentSection => Seq::empty(),
    }
}

/// Texts and list elements indent the nodes under them by one more step.
pub open spec fn child_indent(d: DataModel, indent: nat) -> nat {
    match d {
        DataModel::Text(_) => indent + 1,
        DataModel::ListElement(_) => indent + 1,
        _ => indent,
    }
}

/// The markdown of a whole tree.
pub open spec fn element_md(e: ElementModel, level: nat, indent: nat) -> Seq<char>
    decreases e, 1int,
{
    let ci = child_indent(e.data, indent);
    let comments = match e.data {
        DataModel::Page { comments: Some(c), .. } => "\n\n# Comments\n"@ + childs_md(c.childs, level, ci),
        _ => Seq::empty(),
    };
    if e.childs.len() > 0 {
        data_md(e.data, level, indent) + "\n"@ + childs_md(e.childs, level, ci) + comments
    } else {
        data_md(e.data, level, indent) + comments
    }
}

/// The markdown of sibling trees, one level deeper, separated by newlines.
pub open spec fn childs_md(s: Seq<ElementModel>, level: nat, ci: nat) -> Seq<char>
    decreases s, 0int,
{
    if s.len() == 0 {
        Seq::empty()
    } else if s.len() == 1 {
        element_md(s[0], level + 1, ci)
    } else {
        childs_md(s.drop_last(), level, ci) + "\n"@ + element_md(s[s.len() - 1], level + 1, ci)
    }
}

pub proof fn lemma_childs_md_join(s: Seq<ElementModel>, level: nat, ci: nat)
    ensures
        childs_md(s, level, ci) == join(
            Seq::new(s.len(), |i: int| element_md(s[i], level + 1, ci)),
            "\n"@,
        ),
    decreases s.len(),
{
    let parts = Seq::new(s.len(), |i: int| element_md(s[i], level + 1, ci));
    if s.len() > 1 {
        lemma_childs_md_join(s.drop_last(), level, ci);
        assert(parts.drop_last() =~= Seq::new(
            s.drop_last().len(),
            |i: int| element_md(s.drop_last()[i], level + 1, ci),
        ));
    }
}

impl Title {
    pub fn to_md(&self, level: usize) -> (r: String)
        requires
            level < usize::MAX,
        ensures
            r@ == title_md(self.txt@, level as nat),
    {
        let mut r = String::new();
        push_str(&mut r, "\n");
        let hashes = repeat_str("#", level + 1);
        push_str(&mut r, hashes.as_str());
        push_str(&mut r, " ");
        push_str(&mut r, self.txt.as_str());
        r
    }
}

impl Text {
    pub fn to_md(&self, indent: usize) -> (r: String)
        ensures
            r@ == text_md(self.txt@, indent as nat),
    {
        let mut r = repeat_str("    ", indent);
        push_str(&mut r, self.txt.as_str());
        r
    }
}

impl PageElement {
    pub fn to_md(&self) -> (r: String)
        requires
            self.title is Some,
        ensures
            r@ == page_md(self.title.unwrap()@),
    {
        let mut r = String::new();
        push_str(&mut r, "# ");
        match &self.title {
            Some(t) => push_str(&mut r, t.as_str()),
            None => {},
        }
        r
    }
}

impl ListElement {
    pub fn to_md(&self, indent: usize) -> (r: String)
        ensures
            r@ == list_md(self.txt@, indent as nat),
    {
        let mut r = repeat_str("    ", indent);
        push_str(&mut r, "- ");
        push_str(&mut r, self.txt.as_str());
        r
    }
}

impl Comment {
    pub fn to_md(&self, level: usize) -> (r: String)
        ensures
            r@ == comment_md(opt_str_view(self.line), self.user@, strings_view(self.text@), level as nat),
    {
        let prefix = repeat_str("  ", if level >= 1 { level - 1 } else { 0 });
        let mut lines: Vec<String> = Vec::new();
        let mut i: usize = 0;
        while i < self.text.len()
            invariant
                i <= self.text.len(),
                prefix@ == comment_prefix(level as nat),
                lines@.map_values(|p: String| p@) == comment_text_lines(
                    strings_view(self.text@),
                    level as nat,
                ).take(i as int),
            decreases self.text.len() - i,
        {
            let mut l = String::new();
            push_str(&mut l, "  ");
            push_str(&mut l, prefix.as_str());
            push_str(&mut l, self.text[i].as_str());
            let ghost old_lines = lines@;
            let ghost all = comment_text_lines(strings_view(self.text@), level as nat);
            assert(all[i as int] == l@);
            assert(all.take(i + 1) =~= all.take(i as int).push(l@));
            lines.push(l);
            assert(lines@.map_values(|p: String| p@) =~= old_lines.map_values(|p: String| p@).push(l@));
            i = i + 1;
            assert(lines@.map_values(|p: String| p@) =~= comment_text_lines(
                strings_view(self.text@),
                level as nat,
            ).take(i as int));
        }
        assert(comment_text_lines(strings_view(self.text@), level as nat).take(i as int)
            =~= comment_text_lines(strings_view(self.text@), level as nat));
        let text_str = join_strings(&lines, "\n");
        let mut r = prefix;
        push_str(&mut r, "- ");
        match &self.line {
            Some(x) => {
                push_str(&mut r, "l");
                push_str(&mut r, x.as_str());
                push_str(&mut r, " ");
            },
            None => {},
        }
        push_str(&mut r, "@");
        push_str(&mut r, self.user.as_str());
        push_str(&mut r, "\n");
        push_str(&mut r, text_str.as_str());
        r
    }
}

impl ElementData {
    pub fn to_md(&self, level: usize, indent: usize) -> (r: String)
        requires
            level < usize::MAX,
            self matches ElementData::Page(p) ==> p.title is Some,
        ensures
            r@ == data_md(self.model(), level as nat, indent as nat),
    {
        match self {
            ElementData::Page(x) => x.to_md(),
            ElementData::Title(x) => x.to_md(level),
            ElementData::Text(x) => x.to_md(indent),
            ElementData::ListElement(x) => x.to_md(indent),
            ElementData::Comment(x) => x.to_md(level),
            ElementData::CommentSection => String::new(),
        }
    }
}

/// The markdown of sibling nodes one level below `level`, separated by newlines.
pub fn childs_to_md(childs: &Vec<Element>, level: usize, child_indent: usize) -> (r: String)
    requires
        models_renderable(elements_model(childs@)),
        level + 1 + models_height(elements_model(childs@)) < usize::MAX,
        child_indent + models_height(elements_model(childs@)) < usize::MAX,
    ensures
        r@ == childs_md(elements_model(childs@), level as nat, child_indent as nat),
    decreases childs@, 0int,
{
    let ghost ms = elements_model(childs@);
    proof {
        lemma_elements_model(childs@);
        lemma_childs_md_join(ms, level as nat, child_indent as nat);
    }
    let mut parts: Vec<String> = Vec::new();
    let mut i: usize = 0;
    while i < childs.len()
        invariant
            i <= childs.len(),
            ms == elements_model(childs@),
            ms.len() == childs.len(),
            forall|j: int| 0 <= j < childs.len() ==> #[trigger] ms[j] == childs@[j].model(),
            models_renderable(ms),
            level + 1 + models_height(ms) < usize::MAX,
            child_indent + models_height(ms) < usize::MAX,
            parts@.map_values(|p: String| p@) == Seq::new(
                ms.len(),
                |k: int| element_md(ms[k], level as nat + 1, child_indent as nat),
            ).take(i as int),
        decreases childs.len() - i,
    {
        proof {
            lemma_models_height(ms, i as int);
            lemma_models_renderable(ms, i as int);
            assert(decreases_to!(childs@ => childs@[i as int]));
        }
        let p = childs[i].to_md(level + 1, child_indent);
        let ghost old_parts = parts@;
        let ghost all = Seq::new(ms.len(), |k: int| element_md(ms[k], level as nat + 1, child_indent as nat));
        assert(all.take(i + 1) =~= all.take(i as int).push(p@));
        parts.push(p);
        assert(parts@.map_values(|p: String| p@) =~= old_parts.map_values(|p: String| p@).push(p@));
        i = i + 1;
        assert(parts@.map_values(|p: String| p@) =~= Seq::new(
            ms.len(),
            |k: int| element_md(ms[k], level as nat + 1, child_indent as nat),
        ).take(i as int));
    }
    assert(Seq::new(ms.len(), |k: int| element_md(ms[k], level as nat + 1, child_indent as nat)).take(
        i as int,
    ) =~= Seq::new(ms.len(), |k: int| element_md(ms[k], level as nat + 1, child_indent as nat)));
    join_strings(&parts, "\n")
}

impl Element {
    /// The markdown of this tree: the node, the nodes under it and, for a page, its comments.
    pub fn to_md(&self, level: usize, indent: usize) -> (r: String)
        requires
            self.model().renderable(),
            level + self.model().height() < usize::MAX,
            indent + self.model().height() < usize::MAX,
        ensures
            r@ == element_md(self.model(), level as nat, indent as nat),
        decreases self, 1int,
    {
        let child_indent = match self.data {
            ElementData::Text(_) => indent + 1,
            ElementData::ListElement(_) => indent + 1,
            _ => indent,
        };
        let comments = match &self.data {
            ElementData::Page(page_data) => {
                match &page_data.comments {
                    Some(c) => {
                        let comments_md = childs_to_md(&c.childs, level, child_indent);
                        let mut s = String::new();
                        push_str(&mut s, "\n\n# Comments\n");
                        push_str(&mut s, comments_md.as_str());
                        s
                    },
                    None => String::new(),
                }
            },
            _ => String::new(),
        };
        let child_md = childs_to_md(&self.childs, level, child_indent);
        let mut r = self.data.to_md(level, indent);
        if self.childs.len() > 0 {
            push_str(&mut r, "\n");
            push_str(&mut r, child_md.as_str());
        }
        push_str(&mut r, comments.as_str());
        r
    }
}

} // verus!

verus! {

impl Element {
    /// The markdown of this tree, or `None` where rendering would fail: a page node without a
    /// title or a comment section, or a tree too deep for the levels to be counted.
    pub fn try_to_md(&self, level: usize, indent: usize) -> (r: Option<String>)
        ensures
            r matches Some(s) ==> s@ == element_md(self.model(), level as nat, indent as nat),
            r is None <==> !(self.model().renderable() && level + self.model().height() < usize::MAX && indent
                + self.model().height() < usize::MAX),
    {
        let m = if level > indent { level } else { indent };
        if self.is_renderable() && self.height_below(usize::MAX - m) {
            Some(self.to_md(level, indent))
        } else {
            None
        }
    }
}

} // verus!

verus! {

/// The markdown of sibling trees: none gives nothing, one gives its markdown one level deeper, and
/// two non-empty runs give their markdowns joined by a line break.
pub proof fn law_childs_md_concat(a: Seq<ElementModel>, b: Seq<ElementModel>, x: ElementModel, level: nat, ci: nat)
    requires
        a.len() > 0,
        b.len() > 0,
    ensures
        childs_md(Seq::empty(), level, ci) == Seq::<char>::empty(),
        childs_md(seq![x], level, ci) == element_md(x, level + 1, ci),
        childs_md(a + b, level, ci) == childs_md(a, level, ci) + "\n"@ + childs_md(b, level, ci),
    decreases b.len(),
{
    assert(seq![x][0] == x);
    let ab = a + b;
    assert(ab.drop_last() =~= a + b.drop_last());
    assert(ab[ab.len() - 1] == b[b.len() - 1]);
    if b.len() == 1 {
        assert(b.drop_last() =~= Seq::<ElementModel>::empty());
        assert(ab.drop_last() =~= a);
        assert(b[0] == b[b.len() - 1]);
    } else {
        law_childs_md_concat(a, b.drop_last(), x, level, ci);
        assert(b.drop_last()[b.drop_last().len() - 1] == b[b.len() - 2]);
        assert(childs_md(b, level, ci) == childs_md(b.drop_last(), level, ci) + "\n"@ + element_md(
            b[b.len() - 1],
            level + 1,
            ci,
        ));
        assert(childs_md(ab, level, ci) =~= childs_md(a, level, ci) + "\n"@ + childs_md(b, level, ci));
    }
}

} // verus!
