use vstd::prelude::*;
use crate::page::{
    lemma_nodes_model, lemma_nodes_model_push, lemma_nodes_model_update, nodes_model, CodeBlock,
    KindModel, Line, ListItem, Node, NodeModel, Page, PageModel, TaskReference, Title,
};
use std::collections::HashMap;
use crate::md_parse::{copy_path, get_path, opt_path, paths_map, set_path};
use crate::task::{is_v4_id, new_id, Task, TaskModel, TaskStatus};
use crate::text::{
    chars_of, count_leading_spaces, leading_spaces, range_eq, split, split_ranges, string_of,
};

verus! {

/// Why a note file cannot be read as a page.
#[derive(Debug, PartialEq, Eq, Structural)]
pub enum NoteError {
    /// A second `# ` title line.
    TitleAlreadySet,
    /// A marker line with nothing after its marker.
    LineTooShort,
    /// A line whose level or indentation has no node to hang under.
    MissingParent,
    /// A ```` ```mermaid ```` fence inside an open code block.
    CodeBlockAlreadyOpen,
    /// No `# ` title line at all.
    MissingTitle,
}

/// `f` with `p` leading, one child index per step, from the top of the forest to one of its nodes.
pub open spec fn fvalid(f: Seq<NodeModel>, p: Seq<usize>) -> bool
    decreases p.len(),
{
    p.len() == 0 || (p[0] < f.len() && fvalid(f[p[0] as int].childs, p.drop_first()))
}

/// The children of the node that `p` leads to (the forest itself for the empty path).
pub open spec fn fchilds_at(f: Seq<NodeModel>, p: Seq<usize>) -> Seq<NodeModel>
    decreases p.len(),
{
    if p.len() == 0 {
        f
    } else {
        fchilds_at(f[p[0] as int].childs, p.drop_first())
    }
}

/// `f` with `c` appended under the node that `p` leads to.
pub open spec fn fpush(f: Seq<NodeModel>, p: Seq<usize>, c: NodeModel) -> Seq<NodeModel>
    decreases p.len(),
{
    if p.len() == 0 {
        f.push(c)
    } else {
        f.update(
            p[0] as int,
            NodeModel { kind: f[p[0] as int].kind, childs: fpush(f[p[0] as int].childs, p.drop_first(), c) },
        )
    }
}

/// The path of the node that pushing under `p` creates.
pub open spec fn fnew_path(f: Seq<NodeModel>, p: Seq<usize>) -> Seq<usize> {
    p.push(fchilds_at(f, p).len() as usize)
}

pub proof fn lemma_fpush_paths(f: Seq<NodeModel>, q: Seq<usize>, c: NodeModel, p: Seq<usize>)
    requires
        fvalid(f, q),
        fchilds_at(f, q).len() <= usize::MAX,
    ensures
        fvalid(f, p) ==> fvalid(fpush(f, q, c), p),
        fvalid(fpush(f, q, c), fnew_path(f, q)),
    decreases q.len(),
{
    if q.len() == 0 {
        let n = f.len() as usize;
        assert(q.push(n) =~= seq![n]);
        assert(seq![n].drop_first() =~= Seq::<usize>::empty());
        assert(fvalid(fpush(f, q, c)[n as int].childs, seq![n].drop_first()));
        if p.len() > 0 && fvalid(f, p) {
            assert(fpush(f, q, c)[p[0] as int] == f[p[0] as int]);
        }
    } else {
        let j = q[0] as int;
        let pd = if p.len() > 0 { p.drop_first() } else { p };
        lemma_fpush_paths(f[j].childs, q.drop_first(), c, pd);
        let n = fchilds_at(f, q).len() as usize;
        assert(fchilds_at(f, q) == fchilds_at(f[j].childs, q.drop_first()));
        assert(q.push(n).drop_first() =~= q.drop_first().push(n));
        assert(q.push(n)[0] == q[0]);
        if p.len() > 0 && fvalid(f, p) && p[0] as int != j {
            assert(fpush(f, q, c)[p[0] as int] == f[p[0] as int]);
        }
    }
}

/// The reader's state between two lines of a note.
pub struct NoteState {
    pub title: Option<Seq<char>>,
    /// The body so far.
    pub childs: Seq<NodeModel>,
    /// The path of the last `## ` title, under which `### ` titles go.
    pub level1: Option<Seq<usize>>,
    /// For each indentation, the path of the node under which a line with that indentation goes.
    pub by_indent: Map<nat, Seq<usize>>,
    pub code_open: bool,
    /// The lines of the code block being read, fences included.
    pub code: Seq<Seq<char>>,
    /// The tasks found so far, in the order of their lines. In the body read so far, a task
    /// reference holds the position of its task in this sequence.
    pub created: Seq<FoundTask>,
}

/// A task as a note line describes it.
pub struct FoundTask {
    pub status: TaskStatus,
    pub title: Seq<char>,
}

pub open spec fn note_initial() -> NoteState {
    NoteState {
        title: None,
        childs: Seq::empty(),
        level1: None,
        by_indent: Map::empty().insert(0nat, Seq::empty()),
        code_open: false,
        code: Seq::empty(),
        created: Seq::empty(),
    }
}

pub open spec fn fleaf(kind: KindModel) -> NodeModel {
    NodeModel { kind, childs: Seq::empty() }
}

/// Hangs a new node under the node of indentation `ind`; the new node takes indentation `ind + 1`.
pub open spec fn note_push(s: NoteState, ind: nat, kind: KindModel) -> NoteState {
    let p = s.by_indent[ind];
    NoteState {
        childs: fpush(s.childs, p, fleaf(kind)),
        by_indent: s.by_indent.insert(ind + 1, fnew_path(s.childs, p)),
        ..s
    }
}

pub open spec fn starts_with(s: Seq<char>, prefix: Seq<char>) -> bool {
    prefix.len() <= s.len() && s.take(prefix.len() as int) == prefix
}

/// A list line: a task (`- [ ] ` or `- [x] `) or a list item.
pub open spec fn list_step(s: NoteState, ind: nat, l2: Seq<char>) -> Result<NoteState, NoteError> {
    let status = if starts_with(l2, "- [ ]"@) {
        Some(TaskStatus::New)
    } else if starts_with(l2, "- [x]"@) {
        Some(TaskStatus::Done)
    } else {
        None
    };
    match status {
        None => if l2.len() < 2 {
            Err(NoteError::LineTooShort)
        } else {
            Ok(note_push(s, ind, KindModel::ListItem(l2.skip(2))))
        },
        Some(st) => if l2.len() < 6 || l2[5] as u32 >= 128 {
            Err(NoteError::LineTooShort)
        } else {
            let task = FoundTask { status: st, title: l2.skip(6) };
            let t = note_push(s, ind, KindModel::TaskReference(s.created.len() as u128));
            Ok(NoteState { created: s.created.push(task), ..t })
        },
    }
}

/// One line of the body of a note.
pub open spec fn note_step(s: NoteState, l: Seq<char>) -> Result<NoteState, NoteError> {
    let k = leading_spaces(l);
    let ind = k / 4;
    let l2 = l.skip(k as int);
    let tok = split(l2, ' ')[0];
    if tok == "#"@ {
        if l.len() < 2 {
            Err(NoteError::LineTooShort)
        } else if s.title is Some {
            Err(NoteError::TitleAlreadySet)
        } else {
            Ok(NoteState { title: Some(l.skip(2)), ..s })
        }
    } else if tok == "##"@ {
        if l.len() < 3 {
            Err(NoteError::LineTooShort)
        } else {
            let np = fnew_path(s.childs, Seq::empty());
            Ok(NoteState {
                childs: fpush(s.childs, Seq::empty(), fleaf(KindModel::Title(l.skip(3)))),
                level1: Some(np),
                by_indent: s.by_indent.insert(0, np),
                ..s
            })
        }
    } else if tok == "###"@ {
        match s.level1 {
            None => Err(NoteError::MissingParent),
            Some(p) => if l.len() < 4 {
                Err(NoteError::LineTooShort)
            } else {
                Ok(NoteState {
                    childs: fpush(s.childs, p, fleaf(KindModel::Title(l.skip(4)))),
                    by_indent: s.by_indent.insert(0, fnew_path(s.childs, p)),
                    ..s
                })
            },
        }
    } else if tok == "-"@ {
        if !s.by_indent.contains_key(ind) {
            Err(NoteError::MissingParent)
        } else {
            list_step(s, ind, l2)
        }
    } else if tok == "```mermaid"@ {
        if s.code_open {
            Err(NoteError::CodeBlockAlreadyOpen)
        } else {
            Ok(NoteState { code: s.code.push(l), code_open: true, ..s })
        }
    } else if tok == "```"@ {
        if !s.code_open {
            Ok(NoteState { code: s.code.push(l), code_open: true, ..s })
        } else if !s.by_indent.contains_key(ind) {
            Err(NoteError::MissingParent)
        } else {
            let t = note_push(s, ind, KindModel::CodeBlock(s.code.push(l)));
            Ok(NoteState { code: Seq::empty(), code_open: false, ..t })
        }
    } else if s.code_open {
        Ok(NoteState { code: s.code.push(l), ..s })
    } else if l.len() == 0 {
        Ok(s)
    } else if !s.by_indent.contains_key(ind) {
        Err(NoteError::MissingParent)
    } else {
        Ok(note_push(s, ind, KindModel::Line(l2)))
    }
}

/// The state after reading `lines` in order.
pub open spec fn note_lines(lines: Seq<Seq<char>>) -> Result<NoteState, NoteError>
    decreases lines.len(),
{
    if lines.len() == 0 {
        Ok(note_initial())
    } else {
        match note_lines(lines.drop_last()) {
            Ok(s) => note_step(s, lines.last()),
            Err(e) => Err(e),
        }
    }
}

/// The first position, from `i` on, where `pat` occurs in `s`.
pub open spec fn find_from(s: Seq<char>, pat: Seq<char>, i: int) -> Option<int>
    decreases s.len() + 1 - i,
{
    if i < 0 || i + pat.len() > s.len() {
        None
    } else if s.subrange(i, i + pat.len()) == pat {
        Some(i)
    } else {
        find_from(s, pat, i + 1)
    }
}

/// What separates a note's body from its comments.
pub open spec fn comments_separator() -> Seq<char> {
    "## Comments\n"@
}

/// The body of a note and, when the separator occurs exactly once, the comments after it.
pub open spec fn note_sections(md: Seq<char>) -> (Seq<char>, Option<Seq<char>>) {
    let sep = comments_separator();
    match find_from(md, sep, 0) {
        None => (md, None),
        Some(i) => {
            let rest = md.skip(i + sep.len());
            (md.take(i), if find_from(rest, sep, 0) is None { Some(rest) } else { None })
        },
    }
}

/// What a note describes: its title, its body (task references holding the positions of their
/// tasks), its comments and the tasks found in it in order; or why the note cannot be read.
pub open spec fn note_page(md: Seq<char>) -> Result<(Seq<char>, Seq<NodeModel>, Option<Seq<char>>, Seq<FoundTask>), NoteError> {
    let (body, comments) = note_sections(md);
    match note_lines(split(body, '\n')) {
        Err(e) => Err(e),
        Ok(s) => match s.title {
            None => Err(NoteError::MissingTitle),
            Some(t) => Ok((t, s.childs, comments, s.created)),
        },
    }
}

/// A node with each task position replaced by the id that `ids` gives it.
pub open spec fn subst_node(n: NodeModel, ids: Seq<u128>) -> NodeModel
    decreases n, 1int,
{
    NodeModel {
        kind: match n.kind {
            KindModel::TaskReference(i) => KindModel::TaskReference(ids[i as int]),
            k => k,
        },
        childs: subst_nodes(n.childs, ids),
    }
}

pub open spec fn subst_nodes(s: Seq<NodeModel>, ids: Seq<u128>) -> Seq<NodeModel>
    decreases s, 0int,
{
    if s.len() == 0 {
        Seq::empty()
    } else {
        subst_nodes(s.drop_last(), ids).push(subst_node(s[s.len() - 1], ids))
    }
}

/// The page that a readable note gives when its n-th task gets the id `ids[n]`.
pub open spec fn note_page_model(md: Seq<char>, id: u128, path: Seq<char>, ids: Seq<u128>) -> PageModel {
    let (title, childs, comments, _) = note_page(md)->Ok_0;
    PageModel { id, title, path, childs: subst_nodes(childs, ids), comments }
}

/// The tasks of a readable note, the n-th with the id `ids[n]`.
pub open spec fn task_of(found: FoundTask, id: u128) -> TaskModel {
    TaskModel { title: found.title, subtasks: Seq::empty(), status: found.status, id }
}

/// `m` with each task of `found` put in under the id that `ids` gives it, in order.
pub open spec fn insert_tasks(m: Map<u128, TaskModel>, found: Seq<FoundTask>, ids: Seq<u128>) -> Map<u128, TaskModel>
    decreases found.len(),
{
    if found.len() == 0 {
        m
    } else {
        let n = found.len() - 1;
        insert_tasks(m, found.drop_last(), ids).insert(ids[n], task_of(found[n], ids[n]))
    }
}

} // verus!

verus! {

pub proof fn lemma_subst_nodes(s: Seq<NodeModel>, ids: Seq<u128>)
    ensures
        subst_nodes(s, ids).len() == s.len(),
        forall|i: int| 0 <= i < s.len() ==> #[trigger] subst_nodes(s, ids)[i] == subst_node(s[i], ids),
    decreases s.len(),
{
    if s.len() > 0 {
        lemma_subst_nodes(s.drop_last(), ids);
    }
}

proof fn lemma_subst_nodes_update(s: Seq<NodeModel>, j: int, x: NodeModel, ids: Seq<u128>)
    requires
        0 <= j < s.len(),
    ensures
        subst_nodes(s.update(j, x), ids) == subst_nodes(s, ids).update(j, subst_node(x, ids)),
{
    lemma_subst_nodes(s, ids);
    lemma_subst_nodes(s.update(j, x), ids);
    assert(subst_nodes(s.update(j, x), ids) =~= subst_nodes(s, ids).update(j, subst_node(x, ids)));
}

/// Giving ids to task positions commutes with hanging a node, and keeps paths and child counts.
pub proof fn lemma_subst_fpush(f: Seq<NodeModel>, p: Seq<usize>, c: NodeModel, ids: Seq<u128>)
    requires
        fvalid(f, p),
    ensures
        fvalid(subst_nodes(f, ids), p),
        fchilds_at(subst_nodes(f, ids), p).len() == fchilds_at(f, p).len(),
        subst_nodes(fpush(f, p, c), ids) == fpush(subst_nodes(f, ids), p, subst_node(c, ids)),
    decreases p.len(),
{
    lemma_subst_nodes(f, ids);
    if p.len() == 0 {
        assert(f.push(c).drop_last() =~= f);
    } else {
        let j = p[0] as int;
        lemma_subst_fpush(f[j].childs, p.drop_first(), c, ids);
        let nj = NodeModel { kind: f[j].kind, childs: fpush(f[j].childs, p.drop_first(), c) };
        lemma_subst_nodes_update(f, j, nj, ids);
        assert(subst_node(nj, ids).kind == subst_node(f[j], ids).kind);
    }
}

/// Appends `child` under the node that `path[i..]` leads to in the forest `childs`, and returns its index there.
fn push_in(childs: &mut Vec<Node>, path: &Vec<usize>, i: usize, child: Node) -> (n: usize)
    requires
        i <= path.len(),
        fvalid(nodes_model(old(childs)@), path@.skip(i as int)),
    ensures
        nodes_model(final(childs)@) == fpush(nodes_model(old(childs)@), path@.skip(i as int), child.model()),
        n == fchilds_at(nodes_model(old(childs)@), path@.skip(i as int)).len(),
    decreases path.len() - i,
{
    let ghost p = path@.skip(i as int);
    proof {
        lemma_nodes_model(childs@);
    }
    if i == path.len() {
        proof {
            lemma_nodes_model_push(childs@, child);
        }
        childs.push(child);
        childs.len() - 1
    } else {
        let j = path[i];
        assert(p[0] == j);
        assert(p.drop_first() =~= path@.skip(i + 1));
        let ghost old_childs = childs@;
        let ghost kind = childs@[j as int].kind();
        let n = match &mut childs[j] {
            Node::TaskReference(x) => push_in(&mut x.childs, path, i + 1, child),
            Node::ListItem(x) => push_in(&mut x.childs, path, i + 1, child),
            Node::CodeBlock(x) => push_in(&mut x.childs, path, i + 1, child),
            Node::Title(x) => push_in(&mut x.childs, path, i + 1, child),
            Node::Line(x) => push_in(&mut x.childs, path, i + 1, child),
        };
        proof {
            lemma_nodes_model_update(old_childs, j as int, childs@[j as int]);
            assert(childs@ == old_childs.update(j as int, childs@[j as int]));
            assert(childs@[j as int].kind() == kind);
        }
        n
    }
}

} // verus!

verus! {

/// Every task position in a node's tree is below `bound`.
pub open spec fn refs_below(n: NodeModel, bound: nat) -> bool
    decreases n, 1int,
{
    &&& (n.kind matches KindModel::TaskReference(i) ==> i < bound)
    &&& all_refs_below(n.childs, bound)
}

pub open spec fn all_refs_below(s: Seq<NodeModel>, bound: nat) -> bool
    decreases s, 0int,
{
    if s.len() == 0 {
        true
    } else {
        all_refs_below(s.drop_last(), bound) && refs_below(s[s.len() - 1], bound)
    }
}

proof fn lemma_all_refs_below(s: Seq<NodeModel>, bound: nat)
    ensures
        all_refs_below(s, bound) <==> forall|i: int| 0 <= i < s.len() ==> #[trigger] refs_below(s[i], bound),
    decreases s.len(),
{
    if s.len() > 0 {
        let d = s.drop_last();
        lemma_all_refs_below(d, bound);
        if forall|i: int| 0 <= i < s.len() ==> #[trigger] refs_below(s[i], bound) {
            assert forall|i: int| 0 <= i < d.len() implies #[trigger] refs_below(d[i], bound) by {
                assert(d[i] == s[i]);
            }
            assert(refs_below(s[s.len() - 1], bound));
            assert(all_refs_below(d, bound));
            assert(all_refs_below(s, bound));
        }
        if all_refs_below(s, bound) {
            assert forall|i: int| 0 <= i < s.len() implies #[trigger] refs_below(s[i], bound) by {
                if i < d.len() {
                    assert(d[i] == s[i]);
                }
            }
        }
    }
}

/// Trees whose task positions are below `bound` give the same ids with more ids appended.
proof fn lemma_subst_extend(n: NodeModel, ids: Seq<u128>, x: u128)
    requires
        refs_below(n, ids.len()),
    ensures
        subst_node(n, ids.push(x)) == subst_node(n, ids),
    decreases n, 1int,
{
    lemma_subst_extend_all(n.childs, ids, x);
}

proof fn lemma_subst_extend_all(s: Seq<NodeModel>, ids: Seq<u128>, x: u128)
    requires
        all_refs_below(s, ids.len()),
    ensures
        subst_nodes(s, ids.push(x)) == subst_nodes(s, ids),
    decreases s, 0int,
{
    if s.len() > 0 {
        lemma_subst_extend_all(s.drop_last(), ids, x);
        lemma_subst_extend(s[s.len() - 1], ids, x);
    }
}

proof fn lemma_refs_below_mono(n: NodeModel, b1: nat, b2: nat)
    requires
        refs_below(n, b1),
        b1 <= b2,
    ensures
        refs_below(n, b2),
    decreases n, 1int,
{
    lemma_all_refs_below_mono(n.childs, b1, b2);
}

proof fn lemma_all_refs_below_mono(s: Seq<NodeModel>, b1: nat, b2: nat)
    requires
        all_refs_below(s, b1),
        b1 <= b2,
    ensures
        all_refs_below(s, b2),
    decreases s, 0int,
{
    if s.len() > 0 {
        lemma_all_refs_below_mono(s.drop_last(), b1, b2);
        lemma_refs_below_mono(s[s.len() - 1], b1, b2);
    }
}

proof fn lemma_fpush_refs_below(f: Seq<NodeModel>, p: Seq<usize>, c: NodeModel, bound: nat)
    requires
        fvalid(f, p),
        all_refs_below(f, bound),
        refs_below(c, bound),
    ensures
        all_refs_below(fpush(f, p, c), bound),
    decreases p.len(),
{
    lemma_all_refs_below(f, bound);
    if p.len() == 0 {
        lemma_all_refs_below(f.push(c), bound);
    } else {
        let j = p[0] as int;
        assert(refs_below(f[j], bound));
        lemma_all_refs_below(f[j].childs, bound);
        lemma_fpush_refs_below(f[j].childs, p.drop_first(), c, bound);
        let nj = NodeModel { kind: f[j].kind, childs: fpush(f[j].childs, p.drop_first(), c) };
        assert(refs_below(nj, bound));
        lemma_all_refs_below(f.update(j, nj), bound);
        assert forall|i: int| 0 <= i < f.len() implies #[trigger] refs_below(f.update(j, nj)[i], bound) by {
            if i != j {
                assert(refs_below(f[i], bound));
            }
        }
    }
}

} // verus!

verus! {

/// The reader's state between two lines of a note, with the spec state it stands for.
struct NoteReader {
    title: Option<String>,
    childs: Vec<Node>,
    level1: Option<Vec<usize>>,
    by_indent: HashMap<usize, Vec<usize>>,
    code_open: bool,
    code: Vec<String>,
    st: Ghost<NoteState>,
    ids: Ghost<Seq<u128>>,
}

pub open spec fn strs(v: Seq<String>) -> Seq<Seq<char>> {
    v.map_values(|x: String| x@)
}

impl NoteReader {
    spec fn inv(&self) -> bool {
        let s = self.st@;
        &&& (match self.title {
            Some(t) => s.title == Some(t@),
            None => s.title is None,
        })
        &&& nodes_model(self.childs@) == subst_nodes(s.childs, self.ids@)
        &&& opt_path(self.level1) == s.level1
        &&& paths_map(self.by_indent@) == s.by_indent
        &&& self.code_open == s.code_open
        &&& strs(self.code@) == s.code
        &&& s.created.len() == self.ids@.len()
        &&& (forall|i: int| 0 <= i < self.ids@.len() ==> is_v4_id(#[trigger] self.ids@[i]))
        &&& (forall|k: nat| #[trigger] s.by_indent.contains_key(k) ==> fvalid(s.childs, s.by_indent[k]))
        &&& (s.level1 matches Some(p) ==> fvalid(s.childs, p))
        &&& all_refs_below(s.childs, s.created.len())
    }

    fn new() -> (r: NoteReader)
        ensures
            r.inv(),
            r.st@ == note_initial(),
            r.ids@ == Seq::<u128>::empty(),
    {
        let mut by_indent: HashMap<usize, Vec<usize>> = HashMap::new();
        by_indent.insert(0, Vec::new());
        let r = NoteReader {
            title: None,
            childs: Vec::new(),
            level1: None,
            by_indent,
            code_open: false,
            code: Vec::new(),
            st: Ghost(note_initial()),
            ids: Ghost(Seq::empty()),
        };
        assert(nodes_model(r.childs@) =~= Seq::<NodeModel>::empty());
        assert(paths_map(r.by_indent@) =~= Map::empty().insert(0nat, Seq::<usize>::empty()));
        assert(strs(r.code@) =~= Seq::<Seq<char>>::empty());
        r
    }

    /// Hangs `child`, which stands for the leaf `c`, under the node that `p` leads to.
    fn hang(&mut self, p: &Vec<usize>, child: Node, Ghost(c): Ghost<NodeModel>) -> (np: Vec<usize>)
        requires
            old(self).inv(),
            fvalid(old(self).st@.childs, p@),
            child.model() == subst_node(c, old(self).ids@),
            refs_below(c, old(self).st@.created.len()),
        ensures
            final(self).st@ == (NoteState { childs: fpush(old(self).st@.childs, p@, c), ..old(self).st@ }),
            np@ == fnew_path(old(self).st@.childs, p@),
            final(self).inv(),
            fvalid(final(self).st@.childs, np@),
            final(self).ids == old(self).ids,
            final(self).title == old(self).title,
            final(self).level1 == old(self).level1,
            final(self).by_indent == old(self).by_indent,
            final(self).code_open == old(self).code_open,
            final(self).code == old(self).code,
    {
        let ghost f = self.st@.childs;
        let ghost ids = self.ids@;
        proof {
            lemma_subst_fpush(f, p@, c, ids);
        }
        assert(p@.skip(0) =~= p@);
        let n = push_in(&mut self.childs, p, 0, child);
        let mut np = copy_path(p);
        np.push(n);
        let ghost s0 = self.st@;
        self.st = Ghost(NoteState { childs: fpush(f, p@, c), ..s0 });
        proof {
            lemma_fpush_paths(f, p@, c, p@);
            assert forall|k: nat| #[trigger] s0.by_indent.contains_key(k) implies fvalid(
                fpush(f, p@, c),
                s0.by_indent[k],
            ) by {
                lemma_fpush_paths(f, p@, c, s0.by_indent[k]);
            }
            if s0.level1 is Some {
                lemma_fpush_paths(f, p@, c, s0.level1.unwrap());
            }
            lemma_fpush_refs_below(f, p@, c, s0.created.len());
        }
        np
    }
}

} // verus!

verus! {

/// The tasks kept so far are those found, in order, each with its id.
pub open spec fn found_rel(found: Seq<Task>, s: NoteState, ids: Seq<u128>) -> bool {
    &&& found.len() == s.created.len()
    &&& forall|k: int| 0 <= k < found.len() ==> #[trigger] found[k].model() == task_of(s.created[k], ids[k])
}

impl NoteReader {
    /// Hangs a leaf under the node of indentation `ind`, which the new leaf takes as `ind + 1`.
    fn hang_indented(&mut self, ind: usize, child: Node, Ghost(c): Ghost<NodeModel>) -> (r: Result<(), NoteError>)
        requires
            old(self).inv(),
            ind < usize::MAX,
            child.model() == subst_node(c, old(self).ids@),
            refs_below(c, old(self).st@.created.len()),
            c.childs.len() == 0,
        ensures
            old(self).st@.by_indent.contains_key(ind as nat) ==> r is Ok && final(self).inv()
                && final(self).st@ == note_push(old(self).st@, ind as nat, c.kind),
            !old(self).st@.by_indent.contains_key(ind as nat) ==> r == Err::<(), NoteError>(NoteError::MissingParent),
            final(self).ids == old(self).ids,
    {
        match get_path(&self.by_indent, ind) {
            None => Err(NoteError::MissingParent),
            Some(p) => {
                assert(c.childs =~= Seq::<NodeModel>::empty());
                assert(c == fleaf(c.kind));
                let ghost s0 = self.st@;
                let np = self.hang(&p, child, Ghost(c));
                let ghost npv = np@;
                set_path(&mut self.by_indent, ind + 1, np);
                let ghost s1 = self.st@;
                self.st = Ghost(NoteState { by_indent: s1.by_indent.insert((ind + 1) as nat, npv), ..s1 });
                Ok(())
            },
        }
    }

    fn list_step(
        &mut self,
        v: &Vec<char>,
        from: usize,
        to: usize,
        ind: usize,
        kept: &mut Vec<Task>,
    ) -> (r: Result<(), NoteError>)
        requires
            old(self).inv(),
            from <= to <= v.len(),
            ind < usize::MAX,
            old(self).st@.by_indent.contains_key(ind as nat),
            old(self).st@.created.len() < usize::MAX,
            found_rel(old(kept)@, old(self).st@, old(self).ids@),
        ensures
            match list_step(old(self).st@, ind as nat, v@.subrange(from as int, to as int)) {
                Ok(t) => r is Ok && final(self).inv() && final(self).st@ == t && found_rel(
                    final(kept)@,
                    t,
                    final(self).ids@,
                ),
                Err(e) => r == Err::<(), NoteError>(e),
            },
    {
        let ghost l2 = v@.subrange(from as int, to as int);
        let new_mark = chars_of("- [ ]");
        let done_mark = chars_of("- [x]");
        let is_new = if to - from >= new_mark.len() {
            assert(l2.take(new_mark.len() as int) =~= v@.subrange(from as int, from + new_mark.len()));
            range_eq(v, from, from + new_mark.len(), &new_mark)
        } else {
            false
        };
        assert(is_new == starts_with(l2, "- [ ]"@));
        let is_done = if !is_new && to - from >= done_mark.len() {
            assert(l2.take(done_mark.len() as int) =~= v@.subrange(from as int, from + done_mark.len()));
            range_eq(v, from, from + done_mark.len(), &done_mark)
        } else {
            false
        };
        assert(is_done == (!starts_with(l2, "- [ ]"@) && starts_with(l2, "- [x]"@)));
        if !is_new && !is_done {
            if to - from < 2 {
                return Err(NoteError::LineTooShort);
            }
            let txt = string_of(v, from + 2, to);
            assert(txt@ == l2.skip(2));
            let ghost c = fleaf(KindModel::ListItem(txt@));
            let child = Node::ListItem(ListItem { txt, childs: Vec::new() });
            assert(nodes_model(Seq::<Node>::empty()) =~= Seq::<NodeModel>::empty());
            assert(subst_nodes(Seq::<NodeModel>::empty(), self.ids@) =~= Seq::<NodeModel>::empty());
            assert(all_refs_below(Seq::<NodeModel>::empty(), self.st@.created.len()));
            return self.hang_indented(ind, child, Ghost(c));
        }
        if to - from < 6 || (#[verifier::truncate] (v[from + 5] as u32)) >= 128 {
            return Err(NoteError::LineTooShort);
        }
        let status = if is_new { TaskStatus::New } else { TaskStatus::Done };
        let title = string_of(v, from + 6, to);
        assert(title@ == l2.skip(6));
        let id = new_id();
        let ghost s0 = self.st@;
        let ghost ids0 = self.ids@;
        let ghost pos = s0.created.len();
        let ghost c = fleaf(KindModel::TaskReference(pos as u128));
        proof {
            lemma_subst_extend_all(s0.childs, ids0, id);
        }
        self.ids = Ghost(ids0.push(id));
        let ghost found = FoundTask { status, title: title@ };
        self.st = Ghost(NoteState { created: s0.created.push(found), ..s0 });
        proof {
            lemma_all_refs_below_mono(s0.childs, pos, pos + 1);
            assert(self.ids@[pos as int] == id);
        }
        assert(nodes_model(Seq::<Node>::empty()) =~= Seq::<NodeModel>::empty());
        assert(subst_nodes(Seq::<NodeModel>::empty(), self.ids@) =~= Seq::<NodeModel>::empty());
        assert(all_refs_below(Seq::<NodeModel>::empty(), pos + 1));
        let child = Node::TaskReference(TaskReference { id, childs: Vec::new() });
        let task = Task { title, subtasks: Vec::new(), status, id };
        assert(task.model() == task_of(found, id)) by {
            assert(task.subtasks@ =~= Seq::<u128>::empty());
        }
        kept.push(task);
        proof {
            assert forall|k: int| 0 <= k < kept@.len() implies #[trigger] kept@[k].model() == task_of(
                self.st@.created[k],
                self.ids@[k],
            ) by {
                if k < pos {
                    assert(kept@[k] == old(kept)@[k]);
                    assert(self.st@.created[k] == s0.created[k]);
                    assert(self.ids@[k] == ids0[k]);
                }
            }
        }
        self.hang_indented(ind, child, Ghost(c))
    }
}

} // verus!

verus! {

proof fn lemma_empty_leaf(ids: Seq<u128>, bound: nat)
    ensures
        nodes_model(Seq::<Node>::empty()) == Seq::<NodeModel>::empty(),
        subst_nodes(Seq::<NodeModel>::empty(), ids) == Seq::<NodeModel>::empty(),
        all_refs_below(Seq::<NodeModel>::empty(), bound),
{
    assert(nodes_model(Seq::<Node>::empty()) =~= Seq::<NodeModel>::empty());
}

impl NoteReader {
    fn step(
        &mut self,
        v: &Vec<char>,
        a: usize,
        b: usize,
        kept: &mut Vec<Task>,
    ) -> (r: Result<(), NoteError>)
        requires
            old(self).inv(),
            a <= b <= v.len(),
            old(self).st@.created.len() < usize::MAX,
            found_rel(old(kept)@, old(self).st@, old(self).ids@),
        ensures
            match note_step(old(self).st@, v@.subrange(a as int, b as int)) {
                Ok(t) => r is Ok && final(self).inv() && final(self).st@ == t && found_rel(
                    final(kept)@,
                    t,
                    final(self).ids@,
                ),
                Err(e) => r == Err::<(), NoteError>(e),
            },
    {
        let ghost l = v@.subrange(a as int, b as int);
        let ghost s0 = self.st@;
        let k = count_leading_spaces(v, a, b);
        let ind = k / 4;
        assert(l.skip(k as int) =~= v@.subrange(a + k, b as int));
        let words = split_ranges(v, a + k, b, ' ');
        let t0 = words[0].0;
        let t1 = words[0].1;
        let ghost tok = split(l.skip(k as int), ' ')[0];
        assert(tok == v@.subrange(t0 as int, t1 as int));
        let h1 = chars_of("#");
        let h2 = chars_of("##");
        let h3 = chars_of("###");
        let dash = chars_of("-");
        let mermaid = chars_of("```mermaid");
        let fence = chars_of("```");
        proof {
            lemma_empty_leaf(self.ids@, s0.created.len());
        }
        if range_eq(v, t0, t1, &h1) {
            if b - a < 2 {
                return Err(NoteError::LineTooShort);
            }
            if self.title.is_some() {
                return Err(NoteError::TitleAlreadySet);
            }
            let t = string_of(v, a + 2, b);
            assert(t@ == l.skip(2));
            let ghost tv = t@;
            self.title = Some(t);
            self.st = Ghost(NoteState { title: Some(tv), ..s0 });
            Ok(())
        } else if range_eq(v, t0, t1, &h2) {
            if b - a < 3 {
                return Err(NoteError::LineTooShort);
            }
            let txt = string_of(v, a + 3, b);
            assert(txt@ == l.skip(3));
            let ghost c = fleaf(KindModel::Title(txt@));
            let child = Node::Title(Title { value: txt, childs: Vec::new() });
            let root: Vec<usize> = Vec::new();
            assert(root@ =~= Seq::<usize>::empty());
            let np = self.hang(&root, child, Ghost(c));
            let ghost npv = np@;
            self.level1 = Some(copy_path(&np));
            set_path(&mut self.by_indent, 0, np);
            let ghost s1 = self.st@;
            self.st = Ghost(NoteState { level1: Some(npv), by_indent: s1.by_indent.insert(0, npv), ..s1 });
            Ok(())
        } else if range_eq(v, t0, t1, &h3) {
            let p = match &self.level1 {
                None => {
                    return Err(NoteError::MissingParent);
                },
                Some(p1) => copy_path(p1),
            };
            if b - a < 4 {
                return Err(NoteError::LineTooShort);
            }
            let txt = string_of(v, a + 4, b);
            assert(txt@ == l.skip(4));
            let ghost c = fleaf(KindModel::Title(txt@));
            let child = Node::Title(Title { value: txt, childs: Vec::new() });
            let np = self.hang(&p, child, Ghost(c));
            let ghost npv = np@;
            set_path(&mut self.by_indent, 0, np);
            let ghost s1 = self.st@;
            self.st = Ghost(NoteState { by_indent: s1.by_indent.insert(0, npv), ..s1 });
            Ok(())
        } else if range_eq(v, t0, t1, &dash) {
            if get_path(&self.by_indent, ind).is_none() {
                return Err(NoteError::MissingParent);
            }
            self.list_step(v, a + k, b, ind, kept)
        } else if range_eq(v, t0, t1, &mermaid) {
            if self.code_open {
                return Err(NoteError::CodeBlockAlreadyOpen);
            }
            let line = string_of(v, a, b);
            let ghost lv = line@;
            let ghost old_code = self.code@;
            self.code.push(line);
            assert(strs(self.code@) =~= strs(old_code).push(lv));
            self.code_open = true;
            self.st = Ghost(NoteState { code: s0.code.push(l), code_open: true, ..s0 });
            Ok(())
        } else if range_eq(v, t0, t1, &fence) {
            let line = string_of(v, a, b);
            let ghost lv = line@;
            if !self.code_open {
                let ghost old_code = self.code@;
                self.code.push(line);
                assert(strs(self.code@) =~= strs(old_code).push(lv));
                self.code_open = true;
                self.st = Ghost(NoteState { code: s0.code.push(l), code_open: true, ..s0 });
                return Ok(());
            }
            if get_path(&self.by_indent, ind).is_none() {
                return Err(NoteError::MissingParent);
            }
            let ghost old_code = self.code@;
            self.code.push(line);
            assert(strs(self.code@) =~= strs(old_code).push(lv));
            let mut content: Vec<String> = Vec::new();
            std::mem::swap(&mut content, &mut self.code);
            assert(strs(self.code@) =~= Seq::<Seq<char>>::empty());
            self.code_open = false;
            let ghost c = fleaf(KindModel::CodeBlock(s0.code.push(l)));
            self.st = Ghost(NoteState { code: Seq::empty(), code_open: false, ..s0 });
            let child = Node::CodeBlock(CodeBlock { content, childs: Vec::new() });
            self.hang_indented(ind, child, Ghost(c))
        } else if self.code_open {
            let line = string_of(v, a, b);
            let ghost lv = line@;
            let ghost old_code = self.code@;
            self.code.push(line);
            assert(strs(self.code@) =~= strs(old_code).push(lv));
            self.st = Ghost(NoteState { code: s0.code.push(l), ..s0 });
            Ok(())
        } else if a == b {
            Ok(())
        } else {
            let txt = string_of(v, a + k, b);
            assert(txt@ == l.skip(k as int));
            let ghost c = fleaf(KindModel::Line(txt@));
            let child = Node::Line(Line { value: txt, childs: Vec::new() });
            self.hang_indented(ind, child, Ghost(c))
        }
    }
}

} // verus!

verus! {

pub proof fn lemma_find_from(s: Seq<char>, pat: Seq<char>, j: int)
    ensures
        find_from(s, pat, j) matches Some(i) ==> j <= i && i + pat.len() <= s.len() && s.subrange(
            i,
            i + pat.len(),
        ) == pat,
    decreases s.len() + 1 - j,
{
    if !(j < 0 || j + pat.len() > s.len()) && s.subrange(j, j + pat.len()) != pat {
        lemma_find_from(s, pat, j + 1);
    }
}

/// Putting tasks in keeps every key and adds the id of each task put in.
pub proof fn lemma_insert_tasks_keys(m: Map<u128, TaskModel>, found: Seq<FoundTask>, ids: Seq<u128>)
    requires
        found.len() <= ids.len(),
    ensures
        forall|k: u128| m.contains_key(k) ==> #[trigger] insert_tasks(m, found, ids).contains_key(k),
        forall|i: int| 0 <= i < found.len() ==> insert_tasks(m, found, ids).contains_key(#[trigger] ids[i]),
    decreases found.len(),
{
    if found.len() > 0 {
        lemma_insert_tasks_keys(m, found.drop_last(), ids);
        let n = found.len() - 1;
        assert forall|k: u128| m.contains_key(k) implies #[trigger] insert_tasks(m, found, ids).contains_key(k) by {
            assert(insert_tasks(m, found.drop_last(), ids).contains_key(k));
        }
        assert forall|i: int| 0 <= i < found.len() implies insert_tasks(m, found, ids).contains_key(#[trigger] ids[i]) by {
            if i < n {
                assert(insert_tasks(m, found.drop_last(), ids).contains_key(ids[i]));
            }
        }
    }
}

/// Where `pat` first occurs in `v[from..to]`, counted from `from`.
pub(crate) fn find_in(v: &Vec<char>, from: usize, to: usize, pat: &Vec<char>) -> (r: Option<usize>)
    requires
        from <= to <= v.len(),
    ensures
        match find_from(v@.subrange(from as int, to as int), pat@, 0) {
            Some(i) => r == Some(i as usize),
            None => r is None,
        },
{
    let ghost s = v@.subrange(from as int, to as int);
    let n = to - from;
    let mut j: usize = 0;
    while j <= n && n - j >= pat.len()
        invariant
            from <= to <= v.len(),
            n == to - from,
            s == v@.subrange(from as int, to as int),
            find_from(s, pat@, 0) == find_from(s, pat@, j as int),
        decreases n + 1 - j,
    {
        assert(s.subrange(j as int, j + pat.len()) =~= v@.subrange(from + j, from + j + pat.len()));
        assert(pat@.len() == 0 ==> v@.subrange(from + j, from + j + pat.len()) =~= pat@);
        if range_eq(v, from + j, from + j + pat.len(), pat) {
            return Some(j);
        }
        j = j + 1;
    }
    None
}

/// Reads a note into a page with a fresh id, putting each task found into `tasks` under a fresh id;
/// or says why the note cannot be read, leaving `tasks` as it was.
pub fn try_from_md(page_md_str_full: &str, path_short: String, tasks: &mut HashMap<u128, Task>) -> (r: Result<Page, NoteError>)
    ensures
        match note_page(page_md_str_full@) {
            Ok((_, childs, _, found)) => r is Ok && is_v4_id(r->Ok_0.id) && all_refs_below(childs, found.len())
                && exists|ids: Seq<u128>| {
                &&& ids.len() == found.len()
                &&& forall|i: int| 0 <= i < ids.len() ==> is_v4_id(#[trigger] ids[i])
                &&& r->Ok_0.model() == note_page_model(page_md_str_full@, r->Ok_0.id, path_short@, ids)
                &&& crate::task::tasks_model(final(tasks)@) == insert_tasks(
                    crate::task::tasks_model(old(tasks)@),
                    found,
                    ids,
                )
            },
            Err(e) => r == Err::<Page, NoteError>(e) && final(tasks)@ == old(tasks)@,
        },
        forall|k: u128| old(tasks)@.contains_key(k) ==> #[trigger] final(tasks)@.contains_key(k),
{
    let id = new_id();
    let v = chars_of(page_md_str_full);
    assert(v@.subrange(0, v.len() as int) =~= v@);
    let sep = chars_of("## Comments\n");
    let ghost md = page_md_str_full@;
    let (body_end, comments) = match find_in(&v, 0, v.len(), &sep) {
        None => (v.len(), None),
        Some(i) => {
            proof {
                lemma_find_from(v@.subrange(0, v.len() as int), sep@, 0);
            }
            let start = i + sep.len();
            assert(v@.subrange(start as int, v.len() as int) =~= md.skip(start as int));
            let again = find_in(&v, start, v.len(), &sep);
            if again.is_none() {
                (i, Some(string_of(&v, start, v.len())))
            } else {
                (i, None)
            }
        },
    };
    let ghost (body, cm) = note_sections(md);
    assert(v@.subrange(0, body_end as int) =~= body);
    assert(match comments {
        Some(c) => cm == Some(c@),
        None => cm is None,
    });
    let lines = split_ranges(&v, 0, body_end, '\n');
    let ghost ls = split(body, '\n');
    let ghost m0 = crate::task::tasks_model(tasks@);
    let mut reader = NoteReader::new();
    let mut found: Vec<Task> = Vec::new();
    let mut i: usize = 0;
    while i < lines.len()
        invariant
            i <= lines.len(),
            lines.len() == ls.len(),
            md == page_md_str_full@,
            tasks@ == old(tasks)@,
            ls == split(note_sections(md).0, '\n'),
            body_end <= v.len(),
            forall|j: int| 0 <= j < lines.len() ==> 0 <= (#[trigger] lines[j]).0 <= lines[j].1 <= body_end,
            forall|j: int| 0 <= j < lines.len() ==> v@.subrange((#[trigger] lines[j]).0 as int, lines[j].1 as int)
                == ls[j],
            reader.inv(),
            reader.st@.created.len() <= i,
            note_lines(ls.take(i as int)) == Ok::<NoteState, NoteError>(reader.st@),
            found_rel(found@, reader.st@, reader.ids@),
        decreases lines.len() - i,
    {
        assert(ls.take(i + 1).drop_last() =~= ls.take(i as int));
        assert(ls.take(i + 1).last() == ls[i as int]);
        let (a, b) = lines[i];
        match reader.step(&v, a, b, &mut found) {
            Ok(()) => {},
            Err(e) => {
                assert(note_lines(ls.take(i + 1)) == Err::<NoteState, NoteError>(e));
                proof {
                    lemma_note_lines_err(ls, (i + 1) as int);
                }
                assert(note_lines(ls) == Err::<NoteState, NoteError>(e));
                assert(note_page(md) == Err::<(Seq<char>, Seq<NodeModel>, Option<Seq<char>>, Seq<FoundTask>), NoteError>(e));
                return Err(e);
            },
        }
        i = i + 1;
    }
    assert(ls.take(i as int) =~= ls);
    let title = match reader.title {
        Some(t) => t,
        None => {
            return Err(NoteError::MissingTitle);
        },
    };
    let ghost created = reader.st@.created;
    let ghost ids = reader.ids@;
    let mut k: usize = 0;
    assert(created.take(0) =~= Seq::<FoundTask>::empty());
    while k < found.len()
        invariant
            k <= found.len(),
            found_rel(found@, reader.st@, ids),
            created == reader.st@.created,
            ids == reader.ids@,
            m0 == crate::task::tasks_model(old(tasks)@),
            crate::task::tasks_model(tasks@) == insert_tasks(m0, created.take(k as int), ids),
        decreases found.len() - k,
    {
        let t = Task {
            title: found[k].title.clone(),
            subtasks: Vec::new(),
            status: found[k].status,
            id: found[k].id,
        };
        assert(found@[k as int].model() == task_of(created[k as int], ids[k as int]));
        assert(t.model() == task_of(created[k as int], ids[k as int])) by {
            assert(t.subtasks@ =~= Seq::<u128>::empty());
        }
        let ghost tm = t.model();
        let ghost before = tasks@;
        tasks.insert(t.id, t);
        assert(crate::task::tasks_model(tasks@) =~= crate::task::tasks_model(before).insert(ids[k as int], tm));
        assert(created.take(k + 1).drop_last() =~= created.take(k as int));
        assert(created.take(k + 1)[k as int] == created[k as int]);
        k = k + 1;
    }
    assert(created.take(k as int) =~= created);
    proof {
        lemma_insert_tasks_keys(m0, created, ids);
        assert forall|key: u128| old(tasks)@.contains_key(key) implies #[trigger] tasks@.contains_key(key) by {
            assert(m0.contains_key(key));
            assert(crate::task::tasks_model(tasks@).contains_key(key));
        }
    }
    let page = Page { id, title, path: path_short, childs: reader.childs, comments };
    assert(page.model() == note_page_model(md, id, path_short@, ids));
    Ok(page)
}

proof fn lemma_note_lines_err(ls: Seq<Seq<char>>, i: int)
    requires
        0 < i <= ls.len(),
        note_lines(ls.take(i)) is Err,
    ensures
        note_lines(ls) == note_lines(ls.take(i)),
    decreases ls.len() - i,
{
    if i < ls.len() {
        assert(ls.take(i + 1).drop_last() =~= ls.take(i));
        lemma_note_lines_err(ls, i + 1);
    } else {
        assert(ls.take(i) =~= ls);
    }
}

impl Page {
    /// Reads a note into a page with a fresh id: its `# ` title, its body of titles, list items,
    /// tasks, code blocks and lines, and the raw text after `## Comments`; each task found goes into
    /// `tasks` under a fresh id.
    pub fn from_md(page_md_str_full: &str, path_short: String, tasks: &mut HashMap<u128, Task>) -> (page: Page)
        requires
            note_page(page_md_str_full@) is Ok,
        ensures
            is_v4_id(page.id),
            exists|ids: Seq<u128>| {
                &&& ids.len() == note_page(page_md_str_full@)->Ok_0.3.len()
                &&& forall|i: int| 0 <= i < ids.len() ==> is_v4_id(#[trigger] ids[i])
                &&& page.model() == note_page_model(page_md_str_full@, page.id, path_short@, ids)
                &&& crate::task::tasks_model(final(tasks)@) == insert_tasks(
                    crate::task::tasks_model(old(tasks)@),
                    note_page(page_md_str_full@)->Ok_0.3,
                    ids,
                )
            },
    {
        match try_from_md(page_md_str_full, path_short, tasks) {
            Ok(p) => p,
            Err(_) => {
                assert(false);
                Page { id: 0, title: String::new(), path: String::new(), childs: Vec::new(), comments: None }
            },
        }
    }
}

} // verus!
