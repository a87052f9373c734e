use vstd::prelude::*;
use std::collections::HashMap;
use crate::element::{
    add_text_at, lemma_add_text_at_paths, lemma_push_at_paths, node_at, push_at, valid_path,
    Comment, DataModel, Element, ElementData, ElementModel, ListElement, Page, Text, Title,
};
use crate::text::{
    chars_of, count_leading_spaces, lemma_split_len, leading_spaces, range_eq, remove_char, split,
    split_ranges, string_of, string_without,
};

verus! {

/// Why a markdown text cannot be read as a page.
#[derive(Debug, PartialEq, Eq, Structural)]
pub enum MdError {
    /// A second `# ` title line.
    TitleAlreadySet,
    /// A second `# Comments` line.
    CommentsAlreadySet,
    /// A line whose indentation or level has no node to hang under.
    MissingParent,
    /// A marker line with nothing after its marker.
    LineTooShort,
    /// A comment line without its line number or user.
    MissingWord,
}

/// The state of the reader between two lines.
pub struct MdState {
    /// The page so far; its data is a page without comments.
    pub root: ElementModel,
    /// The comment section, once `# Comments` has been read.
    pub comments: Option<ElementModel>,
    /// The path of the last `## ` title, under which `### ` titles go.
    pub parent1: Option<Seq<usize>>,
    /// For each indentation, the path of the node under which a line with that indentation goes.
    pub by_indent: Map<nat, Seq<usize>>,
    /// For each comment nesting, the path (in the comment section) of the node a comment goes under.
    pub comment_by_indent: Map<nat, Seq<usize>>,
    /// The nesting under which lines of comment text go.
    pub last_comment: nat,
    /// Whether `# Comments` has been read.
    pub in_comments: bool,
}

pub open spec fn empty_page() -> ElementModel {
    ElementModel { data: DataModel::Page { title: None, comments: None }, childs: Seq::empty() }
}

pub open spec fn initial_state() -> MdState {
    MdState {
        root: empty_page(),
        comments: None,
        parent1: None,
        by_indent: Map::empty().insert(0nat, Seq::empty()),
        comment_by_indent: Map::empty(),
        last_comment: 0,
        in_comments: false,
    }
}

pub open spec fn leaf(d: DataModel) -> ElementModel {
    ElementModel { data: d, childs: Seq::empty() }
}

/// The path of the child that pushing under `p` creates.
pub open spec fn new_child_path(t: ElementModel, p: Seq<usize>) -> Seq<usize> {
    p.push(node_at(t, p).childs.len() as usize)
}

/// `t` hung under the node that the indentation `ind` leads to; the new node takes the indentation `ind + 1`.
pub open spec fn push_indented(s: MdState, ind: nat, d: DataModel) -> MdState {
    let p = s.by_indent[ind];
    MdState {
        root: push_at(s.root, p, leaf(d)),
        by_indent: s.by_indent.insert(ind + 1, new_child_path(s.root, p)),
        ..s
    }
}

/// One line read before `# Comments`.
pub open spec fn page_step(s: MdState, l: Seq<char>) -> Result<MdState, MdError> {
    let k = leading_spaces(l);
    let tok = split(l.skip(k as int), ' ')[0];
    if tok == seq!['#'] {
        if s.root.data matches DataModel::Page { title: Some(_), .. } {
            Err(MdError::TitleAlreadySet)
        } else if l.len() < 2 {
            Err(MdError::LineTooShort)
        } else {
            Ok(MdState {
                root: ElementModel {
                    data: DataModel::Page { title: Some(l.skip(2)), comments: None },
                    childs: s.root.childs,
                },
                ..s
            })
        }
    } else if tok == seq!['#', '#'] {
        if l.len() < k + 3 {
            Err(MdError::LineTooShort)
        } else {
            let np = new_child_path(s.root, Seq::empty());
            Ok(MdState {
                root: push_at(s.root, Seq::empty(), leaf(DataModel::Title(l.skip(k + 3int)))),
                parent1: Some(np),
                by_indent: s.by_indent.insert(0, np),
                ..s
            })
        }
    } else if tok == seq!['#', '#', '#'] {
        match s.parent1 {
            None => Err(MdError::MissingParent),
            Some(p) => if l.len() < k + 4 {
                Err(MdError::LineTooShort)
            } else {
                Ok(MdState {
                    root: push_at(s.root, p, leaf(DataModel::Title(l.skip(k + 4int)))),
                    by_indent: s.by_indent.insert(0, new_child_path(s.root, p)),
                    ..s
                })
            },
        }
    } else if tok.len() == 0 {
        Ok(s)
    } else if !s.by_indent.contains_key(k / 4) {
        Err(MdError::MissingParent)
    } else if tok == seq!['-'] {
        if l.len() < k + 2 {
            Err(MdError::LineTooShort)
        } else {
            Ok(push_indented(s, k / 4, DataModel::ListElement(l.skip(k + 2int))))
        }
    } else {
        Ok(push_indented(s, k / 4, DataModel::Text(l.skip(k as int))))
    }
}

/// One line read after `# Comments`.
pub open spec fn comments_step(s: MdState, l: Seq<char>) -> Result<MdState, MdError> {
    let k = leading_spaces(l);
    let words = split(l.skip(k as int), ' ');
    let c = s.comments.unwrap();
    if words[0] == seq!['-'] {
        let ind = k / 2;
        if !s.comment_by_indent.contains_key(ind) {
            Err(MdError::MissingParent)
        } else if words.len() < (if ind == 0 { 3int } else { 2int }) {
            Err(MdError::MissingWord)
        } else {
            let p = s.comment_by_indent[ind];
            let comment = if ind == 0 {
                DataModel::Comment {
                    line: Some(remove_char(words[1], 'l')),
                    user: remove_char(words[2], '@'),
                    text: Seq::empty(),
                }
            } else {
                DataModel::Comment { line: None, user: remove_char(words[1], '@'), text: Seq::empty() }
            };
            Ok(MdState {
                comments: Some(push_at(c, p, leaf(comment))),
                last_comment: ind + 1,
                comment_by_indent: s.comment_by_indent.insert(ind + 1, new_child_path(c, p)),
                ..s
            })
        }
    } else if !s.comment_by_indent.contains_key(s.last_comment) {
        Err(MdError::MissingParent)
    } else {
        Ok(MdState {
            comments: Some(add_text_at(c, s.comment_by_indent[s.last_comment], l.skip(k as int))),
            ..s
        })
    }
}

/// One line of the markdown text.
pub open spec fn md_step(s: MdState, l: Seq<char>) -> Result<MdState, MdError> {
    if l == "# Comments"@ {
        if s.comments is Some {
            Err(MdError::CommentsAlreadySet)
        } else {
            Ok(MdState {
                comments: Some(leaf(DataModel::CommentSection)),
                comment_by_indent: s.comment_by_indent.insert(0, Seq::empty()),
                in_comments: true,
                ..s
            })
        }
    } else if !s.in_comments {
        page_step(s, l)
    } else {
        comments_step(s, l)
    }
}

/// The state after reading `lines` in order, or the first reason to stop.
pub open spec fn md_lines(lines: Seq<Seq<char>>) -> Result<MdState, MdError>
    decreases lines.len(),
{
    if lines.len() == 0 {
        Ok(initial_state())
    } else {
        match md_lines(lines.drop_last()) {
            Ok(s) => md_step(s, lines.last()),
            Err(e) => Err(e),
        }
    }
}

/// The page that a markdown text describes, or why it cannot be read.
pub open spec fn md_page(md: Seq<char>) -> Result<ElementModel, MdError> {
    match md_lines(split(md, '\n')) {
        Ok(s) => Ok(ElementModel {
            data: DataModel::Page {
                title: s.root.data->Page_title,
                comments: match s.comments {
                    Some(c) => Some(Box::new(c)),
                    None => None,
                },
            },
            childs: s.root.childs,
        }),
        Err(e) => Err(e),
    }
}

} // verus!

verus! {

/// The reader's state between two lines: the tree so far and where the next lines go.
struct MdReader {
    page: Element,
    comments: Option<Element>,
    parent1: Option<Vec<usize>>,
    by_indent: HashMap<usize, Vec<usize>>,
    comment_by_indent: HashMap<usize, Vec<usize>>,
    last_comment: usize,
    in_comments: bool,
}

/// The map from levels to paths that a map of path vectors stands for.
pub open spec fn paths_map(m: Map<usize, Vec<usize>>) -> Map<nat, Seq<usize>> {
    Map::new(|k: nat| k <= usize::MAX && m.contains_key(k as usize), |k: nat| m[k as usize]@)
}

pub open spec fn opt_path(p: Option<Vec<usize>>) -> Option<Seq<usize>> {
    match p {
        Some(v) => Some(v@),
        None => None,
    }
}

pub open spec fn opt_model(e: Option<Element>) -> Option<ElementModel> {
    match e {
        Some(x) => Some(x.model()),
        None => None,
    }
}

pub open spec fn all_valid(t: ElementModel, m: Map<nat, Seq<usize>>) -> bool {
    forall|k: nat| #[trigger] m.contains_key(k) ==> valid_path(t, m[k])
}

pub(crate) fn copy_path(p: &Vec<usize>) -> (r: Vec<usize>)
    ensures
        r@ == p@,
{
    let mut r: Vec<usize> = Vec::new();
    let mut i: usize = 0;
    while i < p.len()
        invariant
            i <= p.len(),
            r@ == p@.take(i as int),
        decreases p.len() - i,
    {
        r.push(p[i]);
        i = i + 1;
        assert(r@ =~= p@.take(i as int));
    }
    assert(p@.take(i as int) =~= p@);
    r
}

pub(crate) fn get_path(v: &HashMap<usize, Vec<usize>>, k: usize) -> (r: Option<Vec<usize>>)
    ensures
        r is Some <==> paths_map(v@).contains_key(k as nat),
        r is Some ==> r.unwrap()@ == paths_map(v@)[k as nat],
{
    match v.get(&k) {
        Some(p) => Some(copy_path(p)),
        None => None,
    }
}

pub(crate) fn set_path(v: &mut HashMap<usize, Vec<usize>>, k: usize, p: Vec<usize>)
    ensures
        paths_map(final(v)@) == paths_map(old(v)@).insert(k as nat, p@),
{
    let ghost pv = p@;
    v.insert(k, p);
    assert(paths_map(v@) =~= paths_map(old(v)@).insert(k as nat, pv));
}

impl MdReader {
    spec fn state(&self) -> MdState {
        MdState {
            root: self.page.model(),
            comments: opt_model(self.comments),
            parent1: opt_path(self.parent1),
            by_indent: paths_map(self.by_indent@),
            comment_by_indent: paths_map(self.comment_by_indent@),
            last_comment: self.last_comment as nat,
            in_comments: self.in_comments,
        }
    }

    spec fn wf(&self) -> bool {
        &&& self.page.model().data matches DataModel::Page { comments: None, .. }
        &&& all_valid(self.page.model(), paths_map(self.by_indent@))
        &&& (self.parent1 matches Some(p) ==> valid_path(self.page.model(), p@))
        &&& (self.comments is Some <==> self.in_comments)
        &&& (!self.in_comments ==> self.comment_by_indent@ == Map::<usize, Vec<usize>>::empty())
        &&& (self.comments matches Some(c) ==> all_valid(c.model(), paths_map(self.comment_by_indent@)))
    }

    fn new() -> (r: MdReader)
        ensures
            r.wf(),
            r.state() == initial_state(),
    {
        let mut by_indent: HashMap<usize, Vec<usize>> = HashMap::new();
        by_indent.insert(0, Vec::new());
        let r = MdReader {
            page: Element {
                data: ElementData::Page(Page { title: None, comments: None }),
                childs: Vec::new(),
            },
            comments: None,
            parent1: None,
            by_indent,
            comment_by_indent: HashMap::new(),
            last_comment: 0,
            in_comments: false,
        };
        proof {
            crate::element::lemma_elements_model(r.page.childs@);
        }
        assert(r.page.model().childs =~= Seq::<ElementModel>::empty());
        assert(paths_map(r.by_indent@) =~= Map::empty().insert(0nat, Seq::<usize>::empty()));
        assert(paths_map(r.comment_by_indent@) =~= Map::<nat, Seq<usize>>::empty());
        r
    }

    /// Hangs a new leaf under the node that `path` leads to in the page, and returns the leaf's path.
    fn push_page_child(&mut self, path: &Vec<usize>, child: Element) -> (np: Vec<usize>)
        requires
            old(self).wf(),
            valid_path(old(self).page.model(), path@),
            child.model().childs.len() == 0,
        ensures
            final(self).page.model() == push_at(old(self).page.model(), path@, child.model()),
            np@ == new_child_path(old(self).page.model(), path@),
            valid_path(final(self).page.model(), np@),
            all_valid(final(self).page.model(), paths_map(final(self).by_indent@)),
            final(self).parent1 matches Some(p) ==> valid_path(final(self).page.model(), p@),
            final(self).comments == old(self).comments,
            final(self).parent1 == old(self).parent1,
            final(self).by_indent == old(self).by_indent,
            final(self).comment_by_indent == old(self).comment_by_indent,
            final(self).last_comment == old(self).last_comment,
            final(self).in_comments == old(self).in_comments,
    {
        let ghost t = self.page.model();
        let ghost cm = child.model();
        assert(path@.skip(0) =~= path@);
        let n = self.page.push_child_at(path, 0, child);
        let mut np = copy_path(path);
        np.push(n);
        proof {
            lemma_push_at_paths(t, path@, cm, path@);
            assert forall|k: nat| #[trigger] paths_map(self.by_indent@).contains_key(k) implies valid_path(
                self.page.model(),
                paths_map(self.by_indent@)[k],
            ) by {
                lemma_push_at_paths(t, path@, cm, paths_map(self.by_indent@)[k]);
            }
            if self.parent1 is Some {
                lemma_push_at_paths(t, path@, cm, self.parent1.unwrap()@);
            }
        }
        np
    }
}


impl MdReader {
    fn push_indented(&mut self, ind: usize, child: Element) -> (r: Result<(), MdError>)
        requires
            old(self).wf(),
            child.model().childs.len() == 0,
            ind < usize::MAX,
        ensures
            paths_map(old(self).by_indent@).contains_key(ind as nat) ==> r is Ok && final(self).wf()
                && final(self).state() == push_indented(old(self).state(), ind as nat, child.model().data),
            !paths_map(old(self).by_indent@).contains_key(ind as nat) ==> r == Err::<(), MdError>(
                MdError::MissingParent,
            ),
    {
        match get_path(&self.by_indent, ind) {
            None => Err(MdError::MissingParent),
            Some(p) => {
                let ghost cm = child.model();
                assert(cm == leaf(cm.data));
                let np = self.push_page_child(&p, child);
                set_path(&mut self.by_indent, ind + 1, np);
                proof {
                    let m = paths_map(self.by_indent@);
                    assert forall|k: nat| #[trigger] m.contains_key(k) implies valid_path(
                        self.page.model(),
                        m[k],
                    ) by {
                        if k != ind + 1 {
                            assert(paths_map(old(self).by_indent@).contains_key(k));
                        }
                    }
                }
                Ok(())
            },
        }
    }

    fn page_step(&mut self, v: &Vec<char>, a: usize, b: usize) -> (r: Result<(), MdError>)
        requires
            old(self).wf(),
            !old(self).in_comments,
            a <= b <= v.len(),
        ensures
            match page_step(old(self).state(), v@.subrange(a as int, b as int)) {
                Ok(s) => r is Ok && final(self).wf() && final(self).state() == s,
                Err(e) => r == Err::<(), MdError>(e),
            },
    {
        let ghost l = v@.subrange(a as int, b as int);
        let ghost s0 = self.state();
        let k = count_leading_spaces(v, a, b);
        assert(l.skip(k as int) =~= v@.subrange(a + k, b as int));
        let words = split_ranges(v, a + k, b, ' ');
        let t0 = words[0].0;
        let t1 = words[0].1;
        let ghost tok = split(l.skip(k as int), ' ')[0];
        assert(tok == v@.subrange(t0 as int, t1 as int));
        let h1 = vec!['#'];
        let h2 = vec!['#', '#'];
        let h3 = vec!['#', '#', '#'];
        let dash = vec!['-'];
        assert(h1@ =~= seq!['#']);
        assert(h2@ =~= seq!['#', '#']);
        assert(h3@ =~= seq!['#', '#', '#']);
        assert(dash@ =~= seq!['-']);
        if range_eq(v, t0, t1, &h1) {
            assert(tok == seq!['#']);
            let has_title = match &self.page.data {
                ElementData::Page(p) => p.title.is_some(),
                _ => false,
            };
            if has_title {
                return Err(MdError::TitleAlreadySet);
            }
            if b - a < 2 {
                return Err(MdError::LineTooShort);
            }
            let t = string_of(v, a + 2, b);
            assert(t@ == l.skip(2));
            self.page.data = ElementData::Page(Page { title: Some(t), comments: None });
            proof {
                let m = paths_map(self.by_indent@);
                assert forall|k: nat| #[trigger] m.contains_key(k) implies valid_path(
                    self.page.model(),
                    m[k],
                ) by {
                    assert(valid_path(s0.root, m[k]));
                }
                if self.parent1 is Some {
                    assert(valid_path(s0.root, self.parent1.unwrap()@));
                }
            }
            assert(self.page.model().childs == s0.root.childs);
            assert(self.state() == page_step(s0, l)->Ok_0);
            Ok(())
        } else if range_eq(v, t0, t1, &h2) {
            assert(tok == seq!['#', '#']);
            if b - a - k < 3 {
                return Err(MdError::LineTooShort);
            }
            let txt = string_of(v, a + k + 3, b);
            assert(txt@ == l.skip(k + 3int));
            let title = Element { data: ElementData::Title(Title { txt }), childs: Vec::new() };
            proof {
                crate::element::lemma_elements_model(title.childs@);
            }
            let root_path: Vec<usize> = Vec::new();
            assert(root_path@ =~= Seq::<usize>::empty());
            let np = self.push_page_child(&root_path, title);
            self.parent1 = Some(copy_path(&np));
            set_path(&mut self.by_indent, 0, np);
            proof {
                let m = paths_map(self.by_indent@);
                assert forall|k: nat| #[trigger] m.contains_key(k) implies valid_path(
                    self.page.model(),
                    m[k],
                ) by {
                    if k != 0 {
                        assert(paths_map(old(self).by_indent@).contains_key(k));
                    }
                }
            }
            assert(self.state() == page_step(s0, l)->Ok_0);
            Ok(())
        } else if range_eq(v, t0, t1, &h3) {
            assert(tok == seq!['#', '#', '#']);
            match &self.parent1 {
                None => Err(MdError::MissingParent),
                Some(p1) => {
                    if b - a - k < 4 {
                        return Err(MdError::LineTooShort);
                    }
                    let p = copy_path(p1);
                    let txt = string_of(v, a + k + 4, b);
                    assert(txt@ == l.skip(k + 4int));
                    let title = Element { data: ElementData::Title(Title { txt }), childs: Vec::new() };
                    proof {
                        crate::element::lemma_elements_model(title.childs@);
                    }
                    let np = self.push_page_child(&p, title);
                    set_path(&mut self.by_indent, 0, np);
                    proof {
                        let m = paths_map(self.by_indent@);
                        assert forall|k: nat| #[trigger] m.contains_key(k) implies valid_path(
                            self.page.model(),
                            m[k],
                        ) by {
                            if k != 0 {
                                assert(paths_map(old(self).by_indent@).contains_key(k));
                            }
                        }
                    }
                    assert(self.state() == page_step(s0, l)->Ok_0);
                    Ok(())
                },
            }
        } else if t1 == t0 {
            assert(tok.len() == 0);
            Ok(())
        } else if range_eq(v, t0, t1, &dash) {
            assert(tok == seq!['-']);
            if get_path(&self.by_indent, k / 4).is_none() {
                return Err(MdError::MissingParent);
            }
            if b - a - k < 2 {
                return Err(MdError::LineTooShort);
            }
            let txt = string_of(v, a + k + 2, b);
            assert(txt@ == l.skip(k + 2int));
            let item = Element { data: ElementData::ListElement(ListElement { txt }), childs: Vec::new() };
            proof {
                crate::element::lemma_elements_model(item.childs@);
            }
            let r = self.push_indented(k / 4, item);
            assert(page_step(s0, l) == Ok::<MdState, MdError>(push_indented(s0, (k / 4) as nat, DataModel::ListElement(l.skip(k + 2int)))));
            r
        } else {
            let txt = string_of(v, a + k, b);
            assert(txt@ == l.skip(k as int));
            let item = Element { data: ElementData::Text(Text { txt }), childs: Vec::new() };
            proof {
                crate::element::lemma_elements_model(item.childs@);
            }
            let r = self.push_indented(k / 4, item);
            assert(!s0.by_indent.contains_key((k/4) as nat) ==> page_step(s0, l) == Err::<MdState, MdError>(MdError::MissingParent));
            r
        }
    }
}


impl MdReader {
    fn comments_step(&mut self, v: &Vec<char>, a: usize, b: usize) -> (r: Result<(), MdError>)
        requires
            old(self).wf(),
            old(self).in_comments,
            a <= b <= v.len(),
        ensures
            match comments_step(old(self).state(), v@.subrange(a as int, b as int)) {
                Ok(s) => r is Ok && final(self).wf() && final(self).state() == s,
                Err(e) => r == Err::<(), MdError>(e),
            },
    {
        let ghost l = v@.subrange(a as int, b as int);
        let ghost s0 = self.state();
        let k = count_leading_spaces(v, a, b);
        assert(l.skip(k as int) =~= v@.subrange(a + k, b as int));
        let words = split_ranges(v, a + k, b, ' ');
        let ghost ws = split(l.skip(k as int), ' ');
        let dash = vec!['-'];
        assert(dash@ =~= seq!['-']);
        let mut cs = match self.comments.take() {
            Some(c) => c,
            None => {
                assert(false);
                return Err(MdError::MissingParent);
            },
        };
        let ghost c0 = cs.model();
        assert(s0.comments == Some(c0));
        let r = if range_eq(v, words[0].0, words[0].1, &dash) {
            assert(ws[0] == seq!['-']);
            let ind = k / 2;
            match get_path(&self.comment_by_indent, ind) {
                None => Err(MdError::MissingParent),
                Some(p) => {
                    let need: usize = if ind == 0 { 3 } else { 2 };
                    if words.len() < need {
                        Err(MdError::MissingWord)
                    } else {
                        let comment = if ind == 0 {
                            let line = string_without(v, words[1].0, words[1].1, 'l');
                            let user = string_without(v, words[2].0, words[2].1, '@');
                            Comment { line: Some(line), user, text: Vec::new() }
                        } else {
                            let user = string_without(v, words[1].0, words[1].1, '@');
                            Comment { line: None, user, text: Vec::new() }
                        };
                        assert(crate::element::strings_view(comment.text@) =~= Seq::<Seq<char>>::empty());
                        let item = Element { data: ElementData::Comment(comment), childs: Vec::new() };
                        proof {
                            crate::element::lemma_elements_model(item.childs@);
                        }
                        let ghost im = item.model();
                        assert(p@.skip(0) =~= p@);
                        let n = cs.push_child_at(&p, 0, item);
                        let mut np = copy_path(&p);
                        np.push(n);
                        set_path(&mut self.comment_by_indent, ind + 1, np);
                        self.last_comment = ind + 1;
                        proof {
                            lemma_push_at_paths(c0, p@, im, p@);
                            let m = paths_map(self.comment_by_indent@);
                            assert forall|j: nat| #[trigger] m.contains_key(j) implies valid_path(
                                cs.model(),
                                m[j],
                            ) by {
                                if j != ind + 1 {
                                    assert(s0.comment_by_indent.contains_key(j));
                                    lemma_push_at_paths(c0, p@, im, m[j]);
                                }
                            }
                        }
                        Ok(())
                    }
                },
            }
        } else {
            match get_path(&self.comment_by_indent, self.last_comment) {
                None => Err(MdError::MissingParent),
                Some(p) => {
                    let txt = string_of(v, a + k, b);
                    assert(p@.skip(0) =~= p@);
                    cs.add_text_at(&p, 0, txt);
                    proof {
                        let m = paths_map(self.comment_by_indent@);
                        assert forall|j: nat| #[trigger] m.contains_key(j) implies valid_path(
                            cs.model(),
                            m[j],
                        ) by {
                            lemma_add_text_at_paths(c0, p@, txt@, m[j]);
                        }
                    }
                    Ok(())
                },
            }
        };
        self.comments = Some(cs);
        r
    }

    fn step(&mut self, v: &Vec<char>, a: usize, b: usize, header: &Vec<char>) -> (r: Result<(), MdError>)
        requires
            old(self).wf(),
            a <= b <= v.len(),
            header@ == "# Comments"@,
        ensures
            match md_step(old(self).state(), v@.subrange(a as int, b as int)) {
                Ok(s) => r is Ok && final(self).wf() && final(self).state() == s,
                Err(e) => r == Err::<(), MdError>(e),
            },
    {
        if range_eq(v, a, b, header) {
            if self.comments.is_some() {
                return Err(MdError::CommentsAlreadySet);
            }
            let section = Element { data: ElementData::CommentSection, childs: Vec::new() };
            proof {
                crate::element::lemma_elements_model(section.childs@);
            }
            self.comments = Some(section);
            let root: Vec<usize> = Vec::new();
            set_path(&mut self.comment_by_indent, 0, root);
            self.in_comments = true;
            proof {
                let m = paths_map(self.comment_by_indent@);
                assert forall|j: nat| #[trigger] m.contains_key(j) implies valid_path(
                    self.comments.unwrap().model(),
                    m[j],
                ) by {
                    if j != 0 {
                        assert(paths_map(old(self).comment_by_indent@).contains_key(j));
                    }
                }
            }
            Ok(())
        } else if !self.in_comments {
            self.page_step(v, a, b)
        } else {
            self.comments_step(v, a, b)
        }
    }
}

/// Reads a markdown note into a page, or says why the text cannot be read.
pub fn try_md_to_page(md_str: &str) -> (r: Result<Element, MdError>)
    ensures
        match md_page(md_str@) {
            Ok(m) => r is Ok && r->Ok_0.model() == m,
            Err(e) => r == Err::<Element, MdError>(e),
        },
{
    let v = chars_of(md_str);
    let lines = split_ranges(&v, 0, v.len(), '\n');
    assert(v@.subrange(0, v.len() as int) =~= v@);
    let ghost ls = split(md_str@, '\n');
    let header = chars_of("# Comments");
    let mut reader = MdReader::new();
    let mut i: usize = 0;
    while i < lines.len()
        invariant
            i <= lines.len(),
            lines.len() == ls.len(),
            v@ == md_str@,
            ls == split(md_str@, '\n'),
            header@ == "# Comments"@,
            forall|j: int| 0 <= j < lines.len() ==> 0 <= (#[trigger] lines[j]).0 <= lines[j].1 <= v.len(),
            forall|j: int| 0 <= j < lines.len() ==> v@.subrange((#[trigger] lines[j]).0 as int, lines[j].1 as int)
                == ls[j],
            reader.wf(),
            md_lines(ls.take(i as int)) == Ok::<MdState, MdError>(reader.state()),
        decreases lines.len() - i,
    {
        assert(ls.take(i + 1).drop_last() =~= ls.take(i as int));
        assert(ls.take(i + 1).last() == ls[i as int]);
        let (a, b) = lines[i];
        match reader.step(&v, a, b, &header) {
            Ok(()) => {},
            Err(e) => {
                proof {
                    lemma_md_lines_err(ls, (i + 1) as int);
                }
                return Err(e);
            },
        }
        i = i + 1;
    }
    assert(ls.take(i as int) =~= ls);
    let title = match reader.page.data {
        ElementData::Page(p) => p.title,
        _ => None,
    };
    let page = Element {
        data: ElementData::Page(Page {
            title,
            comments: match reader.comments {
                Some(c) => Some(Box::new(c)),
                None => None,
            },
        }),
        childs: reader.page.childs,
    };
    Ok(page)
}

proof fn lemma_md_lines_err(ls: Seq<Seq<char>>, i: int)
    requires
        0 < i <= ls.len(),
        md_lines(ls.take(i)) is Err,
    ensures
        md_lines(ls) == md_lines(ls.take(i)),
    decreases ls.len() - i,
{
    if i < ls.len() {
        assert(ls.take(i + 1).drop_last() =~= ls.take(i));
        lemma_md_lines_err(ls, i + 1);
    } else {
        assert(ls.take(i) =~= ls);
    }
}

/// Reads a markdown note into a page: title, titles, texts and list elements by indentation,
/// and after `# Comments` the comment threads.
pub fn md_to_page(md_str: &str) -> (page: Element)
    requires
        md_page(md_str@) is Ok,
    ensures
        page.model() == md_page(md_str@)->Ok_0,
{
    match try_md_to_page(md_str) {
        Ok(p) => p,
        Err(_) => {
            assert(false);
            Element { data: ElementData::CommentSection, childs: Vec::new() }
        },
    }
}

} // verus!
