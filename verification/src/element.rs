use vstd::prelude::*;

verus! {

/// A node of a note page: what it holds and the nodes under it.
pub struct Element {
    pub data: ElementData,
    pub childs: Vec<Element>,
}

pub enum ElementData {
    Page(Page),
    Title(Title),
    Text(Text),
    ListElement(ListElement),
    Comment(Comment),
    CommentSection,
}

pub struct Title {
    pub txt: String,
}

pub struct Text {
    pub txt: String,
}

pub struct ListElement {
    pub txt: String,
}

pub struct Page {
    pub title: Option<String>,
    pub comments: Option<Box<Element>>,
}

pub type PageElement = Page;

pub struct Comment {
    pub line: Option<String>,
    pub user: String,
    pub text: Vec<String>,
}

/// The mathematical value of an element.
pub struct ElementModel {
    pub data: DataModel,
    pub childs: Seq<ElementModel>,
}

pub enum DataModel {
    Page { title: Option<Seq<char>>, comments: Option<Box<ElementModel>> },
    Title(Seq<char>),
    Text(Seq<char>),
    ListElement(Seq<char>),
    Comment { line: Option<Seq<char>>, user: Seq<char>, text: Seq<Seq<char>> },
    CommentSection,
}

pub open spec fn opt_str_view(o: Option<String>) -> Option<Seq<char>> {
    match o {
        Some(s) => Some(s@),
        None => None,
    }
}

pub open spec fn strings_view(v: Seq<String>) -> Seq<Seq<char>> {
    v.map_values(|s: String| s@)
}

impl Element {
    pub open spec fn model(&self) -> ElementModel
        decreases self, 1int,
    {
        ElementModel { data: self.data.model(), childs: elements_model(self.childs@) }
    }
}

pub open spec fn elements_model(s: Seq<Element>) -> Seq<ElementModel>
    decreases s, 0int,
{
    if s.len() == 0 {
        Seq::empty()
    } else {
        elements_model(s.drop_last()).push(s.last().model())
    }
}

impl ElementData {
    pub open spec fn model(&self) -> DataModel
        decreases self, 0int,
    {
        match self {
            ElementData::Page(p) => DataModel::Page {
                title: opt_str_view(p.title),
                comments: match p.comments {
                    Some(b) => Some(Box::new(b.model())),
                    None => None,
                },
            },
            ElementData::Title(t) => DataModel::Title(t.txt@),
            ElementData::Text(t) => DataModel::Text(t.txt@),
            ElementData::ListElement(t) => DataModel::ListElement(t.txt@),
            ElementData::Comment(c) => DataModel::Comment {
                line: opt_str_view(c.line),
                user: c.user@,
                text: strings_view(c.text@),
            },
            ElementData::CommentSection => DataModel::CommentSection,
        }
    }
}

} // verus!

verus! {

/// The model of a sequence of elements is the sequence of their models.
pub proof fn lemma_elements_model(s: Seq<Element>)
    ensures
        elements_model(s).len() == s.len(),
        forall|i: int| 0 <= i < s.len() ==> #[trigger] elements_model(s)[i] == s[i].model(),
    decreases s.len(),
{
    if s.len() > 0 {
        lemma_elements_model(s.drop_last());
    }
}

impl ElementModel {
    /// Depth of the tree, counting the comment threads of a page as children of the page.
    pub open spec fn height(self) -> nat
        decreases self, 1int,
    {
        let own = 1 + models_height(self.childs);
        match self.data {
            DataModel::Page { comments: Some(c), .. } => {
                let ch = 1 + models_height(c.childs);
                if ch > own { ch } else { own }
            },
            _ => own,
        }
    }

    /// Every page node in the tree has a title and a comment section, so that it can be rendered.
    pub open spec fn renderable(self) -> bool
        decreases self, 1int,
    {
        &&& models_renderable(self.childs)
        &&& match self.data {
            DataModel::Page { title, comments } => title is Some && match comments {
                Some(c) => models_renderable(c.childs),
                None => false,
            },
            _ => true,
        }
    }
}

pub open spec fn models_height(s: Seq<ElementModel>) -> nat
    decreases s, 0int,
{
    if s.len() == 0 {
        0
    } else {
        let a = models_height(s.drop_last());
        let b = s.last().height();
        if a > b { a } else { b }
    }
}

pub open spec fn models_renderable(s: Seq<ElementModel>) -> bool
    decreases s, 0int,
{
    if s.len() == 0 {
        true
    } else {
        models_renderable(s.drop_last()) && s.last().renderable()
    }
}

pub proof fn lemma_models_height(s: Seq<ElementModel>, i: int)
    requires
        0 <= i < s.len(),
    ensures
        s[i].height() <= models_height(s),
    decreases s.len(),
{
    if i < s.len() - 1 {
        lemma_models_height(s.drop_last(), i);
    }
}

pub proof fn lemma_models_renderable(s: Seq<ElementModel>, i: int)
    requires
        0 <= i < s.len(),
        models_renderable(s),
    ensures
        s[i].renderable(),
    decreases s.len(),
{
    if i < s.len() - 1 {
        lemma_models_renderable(s.drop_last(), i);
    }
}

} // verus!

verus! {

/// `p` leads from the root of `t` to one of its nodes, one child index per step.
pub open spec fn valid_path(t: ElementModel, p: Seq<usize>) -> bool
    decreases p.len(),
{
    p.len() == 0 || (p[0] < t.childs.len() && valid_path(t.childs[p[0] as int], p.drop_first()))
}

/// The node that `p` leads to.
pub open spec fn node_at(t: ElementModel, p: Seq<usize>) -> ElementModel
    decreases p.len(),
{
    if p.len() == 0 {
        t
    } else {
        node_at(t.childs[p[0] as int], p.drop_first())
    }
}

/// `t` with `c` appended to the children of the node that `p` leads to.
pub open spec fn push_at(t: ElementModel, p: Seq<usize>, c: ElementModel) -> ElementModel
    decreases p.len(),
{
    if p.len() == 0 {
        ElementModel { data: t.data, childs: t.childs.push(c) }
    } else {
        ElementModel {
            data: t.data,
            childs: t.childs.update(p[0] as int, push_at(t.childs[p[0] as int], p.drop_first(), c)),
        }
    }
}

/// The data of a comment with one more line of text; other data unchanged.
pub open spec fn with_text_line(d: DataModel, l: Seq<char>) -> DataModel {
    match d {
        DataModel::Comment { line, user, text } => DataModel::Comment { line, user, text: text.push(l) },
        _ => d,
    }
}

/// `t` where the node that `p` leads to, if a comment, has `l` as one more line of text.
pub open spec fn add_text_at(t: ElementModel, p: Seq<usize>, l: Seq<char>) -> ElementModel
    decreases p.len(),
{
    if p.len() == 0 {
        ElementModel { data: with_text_line(t.data, l), childs: t.childs }
    } else {
        ElementModel {
            data: t.data,
            childs: t.childs.update(p[0] as int, add_text_at(t.childs[p[0] as int], p.drop_first(), l)),
        }
    }
}

pub proof fn lemma_elements_model_update(s: Seq<Element>, j: int, x: Element)
    requires
        0 <= j < s.len(),
    ensures
        elements_model(s.update(j, x)) == elements_model(s).update(j, x.model()),
{
    lemma_elements_model(s);
    lemma_elements_model(s.update(j, x));
    assert(elements_model(s.update(j, x)) =~= elements_model(s).update(j, x.model()));
}

pub proof fn lemma_elements_model_push(s: Seq<Element>, x: Element)
    ensures
        elements_model(s.push(x)) == elements_model(s).push(x.model()),
{
    assert(s.push(x).drop_last() =~= s);
}

/// Pushing a child keeps every path valid and makes the path to the new child valid.
pub proof fn lemma_push_at_paths(t: ElementModel, q: Seq<usize>, c: ElementModel, p: Seq<usize>)
    requires
        valid_path(t, q),
        node_at(t, q).childs.len() <= usize::MAX,
    ensures
        valid_path(t, p) ==> valid_path(push_at(t, q, c), p),
        valid_path(t, p) ==> node_at(push_at(t, q, c), p).data == node_at(t, p).data,
        valid_path(push_at(t, q, c), q.push(node_at(t, q).childs.len() as usize)),
        node_at(push_at(t, q, c), q.push(node_at(t, q).childs.len() as usize)) == c,
        node_at(push_at(t, q, c), q).childs.len() == node_at(t, q).childs.len() + 1,
    decreases q.len(),
{
    if q.len() == 0 {
        if p.len() > 0 && valid_path(t, p) {
            assert(push_at(t, q, c).childs[p[0] as int] == t.childs[p[0] as int]);
        }
        let n = t.childs.len() as usize;
        let pt = push_at(t, q, c);
        assert(q.push(n) =~= seq![n]);
        assert(seq![n].drop_first() =~= Seq::<usize>::empty());
        assert(pt.childs[n as int] == c);
        assert(valid_path(pt.childs[n as int], seq![n].drop_first()));
        assert(valid_path(pt, seq![n]));
        assert(node_at(pt, seq![n]) == node_at(pt.childs[n as int], seq![n].drop_first()));
    } else {
        let j = q[0] as int;
        let pd = if p.len() > 0 { p.drop_first() } else { p };
        lemma_push_at_paths(t.childs[j], q.drop_first(), c, pd);
        let n = node_at(t, q).childs.len() as usize;
        assert(node_at(t, q) == node_at(t.childs[j], q.drop_first()));
        assert(q.push(n).drop_first() =~= q.drop_first().push(n));
        assert(q.push(n)[0] == q[0]);
        let pt = push_at(t, q, c);
        assert(pt.childs[j] == push_at(t.childs[j], q.drop_first(), c));
        assert(valid_path(pt, q.push(n)));
        assert(node_at(pt, q.push(n)) == node_at(pt.childs[j], q.push(n).drop_first()));
        assert(node_at(pt, q) == node_at(pt.childs[j], q.drop_first()));
        if p.len() > 0 && valid_path(t, p) && p[0] as int != j {
            assert(push_at(t, q, c).childs[p[0] as int] == t.childs[p[0] as int]);
        }
    }
}

/// Adding a line of text keeps every path valid and every other node's data.
pub proof fn lemma_add_text_at_paths(t: ElementModel, q: Seq<usize>, l: Seq<char>, p: Seq<usize>)
    requires
        valid_path(t, q),
    ensures
        valid_path(t, p) ==> valid_path(add_text_at(t, q, l), p),
        valid_path(t, p) ==> node_at(add_text_at(t, q, l), p).childs.len() == node_at(t, p).childs.len(),
    decreases q.len(),
{
    if q.len() == 0 {
    } else {
        let j = q[0] as int;
        let pd = if p.len() > 0 { p.drop_first() } else { p };
        lemma_add_text_at_paths(t.childs[j], q.drop_first(), l, pd);
        if p.len() > 0 && valid_path(t, p) && p[0] as int != j {
            assert(add_text_at(t, q, l).childs[p[0] as int] == t.childs[p[0] as int]);
        }
    }
}

impl Element {
    /// Appends `child` under the node that `path[i..]` leads to, and returns its index there.
    pub fn push_child_at(&mut self, path: &Vec<usize>, i: usize, child: Element) -> (n: usize)
        requires
            i <= path.len(),
            valid_path(old(self).model(), path@.skip(i as int)),
        ensures
            final(self).model() == push_at(old(self).model(), path@.skip(i as int), child.model()),
            n == node_at(old(self).model(), path@.skip(i as int)).childs.len(),
        decreases path.len() - i,
    {
        let ghost p = path@.skip(i as int);
        proof {
            lemma_elements_model(self.childs@);
        }
        if i == path.len() {
            let n = self.childs.len();
            proof {
                lemma_elements_model_push(self.childs@, child);
            }
            self.childs.push(child);
            n
        } else {
            let j = path[i];
            assert(p[0] == j);
            assert(p.drop_first() =~= path@.skip(i + 1));
            let ghost old_childs = self.childs@;
            let ghost old_child = self.childs@[j as int];
            let n = self.childs[j].push_child_at(path, i + 1, child);
            proof {
                lemma_elements_model_update(old_childs, j as int, self.childs@[j as int]);
                assert(self.childs@ == old_childs.update(j as int, self.childs@[j as int]));
            }
            n
        }
    }

    /// Adds `line` to the text of the node that `path[i..]` leads to, when that node is a comment.
    pub fn add_text_at(&mut self, path: &Vec<usize>, i: usize, line: String)
        requires
            i <= path.len(),
            valid_path(old(self).model(), path@.skip(i as int)),
        ensures
            final(self).model() == add_text_at(old(self).model(), path@.skip(i as int), line@),
        decreases path.len() - i,
    {
        let ghost p = path@.skip(i as int);
        proof {
            lemma_elements_model(self.childs@);
        }
        if i == path.len() {
            match &mut self.data {
                ElementData::Comment(c) => {
                    let ghost old_text = c.text@;
                    c.text.push(line);
                    assert(strings_view(c.text@) =~= strings_view(old_text).push(line@));
                },
                _ => {},
            }
        } else {
            let j = path[i];
            assert(p[0] == j);
            assert(p.drop_first() =~= path@.skip(i + 1));
            let ghost old_childs = self.childs@;
            self.childs[j].add_text_at(path, i + 1, line);
            proof {
                lemma_elements_model_update(old_childs, j as int, self.childs@[j as int]);
            }
        }
    }
}

} // verus!

verus! {

impl Element {
    /// Whether every page node in the tree has a title and a comment section.
    pub fn is_renderable(&self) -> (b: bool)
        ensures
            b == self.model().renderable(),
        decreases self, 1int,
    {
        let ghost m = self.model();
        assert(m.data == self.data.model());
        assert(m.childs == elements_model(self.childs@));
        let own = match &self.data {
            ElementData::Page(p) => {
                if p.title.is_none() {
                    false
                } else {
                    match &p.comments {
                        Some(c) => {
                            assert(m.data->Page_comments == Some(Box::new(c.model())));
                            all_renderable(&c.childs)
                        },
                        None => false,
                    }
                }
            },
            _ => true,
        };
        own && all_renderable(&self.childs)
    }

    /// Whether the tree, comment threads included, is less than `limit` deep.
    pub fn height_below(&self, limit: usize) -> (b: bool)
        ensures
            b == (self.model().height() < limit),
        decreases self, 1int,
    {
        let ghost m = self.model();
        assert(m.data == self.data.model());
        assert(m.childs == elements_model(self.childs@));
        if limit == 0 {
            return false;
        }
        let own = all_height_below(&self.childs, limit - 1);
        match &self.data {
            ElementData::Page(p) => match &p.comments {
                Some(c) => {
                    assert(m.data->Page_comments == Some(Box::new(c.model())));
                    own && all_height_below(&c.childs, limit - 1)
                },
                None => own,
            },
            _ => own,
        }
    }
}

/// Whether every tree of `s` is renderable.
pub fn all_renderable(s: &Vec<Element>) -> (b: bool)
    ensures
        b == models_renderable(elements_model(s@)),
    decreases s@, 0int,
{
    proof {
        lemma_elements_model(s@);
    }
    let mut i: usize = 0;
    while i < s.len()
        invariant
            i <= s.len(),
            forall|j: int| 0 <= j < s.len() ==> #[trigger] elements_model(s@)[j] == s@[j].model(),
            elements_model(s@).len() == s.len(),
            models_renderable(elements_model(s@).take(i as int)),
        decreases s.len() - i,
    {
        assert(decreases_to!(s@ => s@[i as int]));
        let ok = s[i].is_renderable();
        assert(elements_model(s@).take(i + 1).drop_last() =~= elements_model(s@).take(i as int));
        assert(elements_model(s@).take(i + 1).last() == s@[i as int].model());
        if !ok {
            proof {
                lemma_renderable_prefix(elements_model(s@), i + 1, s.len() as int);
            }
            assert(elements_model(s@).take(s.len() as int) =~= elements_model(s@));
            return false;
        }
        i = i + 1;
    }
    assert(elements_model(s@).take(s.len() as int) =~= elements_model(s@));
    true
}

proof fn lemma_renderable_prefix(s: Seq<ElementModel>, i: int, j: int)
    requires
        0 <= i <= j <= s.len(),
        !models_renderable(s.take(i)),
    ensures
        !models_renderable(s.take(j)),
    decreases j - i,
{
    if i < j {
        assert(s.take(i + 1).drop_last() =~= s.take(i));
        lemma_renderable_prefix(s, i + 1, j);
    }
}

/// Whether every tree of `s` is less than `limit` deep.
pub fn all_height_below(s: &Vec<Element>, limit: usize) -> (b: bool)
    ensures
        b == (models_height(elements_model(s@)) < limit),
    decreases s@, 0int,
{
    proof {
        lemma_elements_model(s@);
    }
    if limit == 0 {
        return false;
    }
    let mut i: usize = 0;
    while i < s.len()
        invariant
            0 < limit,
            i <= s.len(),
            forall|j: int| 0 <= j < s.len() ==> #[trigger] elements_model(s@)[j] == s@[j].model(),
            elements_model(s@).len() == s.len(),
            models_height(elements_model(s@).take(i as int)) < limit,
        decreases s.len() - i,
    {
        assert(decreases_to!(s@ => s@[i as int]));
        let ok = s[i].height_below(limit);
        assert(elements_model(s@).take(i + 1).drop_last() =~= elements_model(s@).take(i as int));
        assert(elements_model(s@).take(i + 1).last() == s@[i as int].model());
        if !ok {
            proof {
                lemma_height_prefix(elements_model(s@), i + 1, s.len() as int, limit as nat);
            }
            assert(elements_model(s@).take(s.len() as int) =~= elements_model(s@));
            return false;
        }
        i = i + 1;
    }
    assert(elements_model(s@).take(s.len() as int) =~= elements_model(s@));
    true
}

proof fn lemma_height_prefix(s: Seq<ElementModel>, i: int, j: int, limit: nat)
    requires
        0 <= i <= j <= s.len(),
        models_height(s.take(i)) >= limit,
    ensures
        models_height(s.take(j)) >= limit,
    decreases j - i,
{
    if i < j {
        assert(s.take(i + 1).drop_last() =~= s.take(i));
        lemma_height_prefix(s, i + 1, j, limit);
    }
}

} // verus!
