use vstd::prelude::*;
use crate::page::{node_md, nodes_md, page_md, status_mark, KindModel, NodeModel, PageModel};
use crate::page_parse::{
    comments_separator, fchilds_at, find_from, fleaf, fnew_path, fpush, fvalid, lemma_fpush_paths,
    note_initial, note_lines, note_page, note_page_model, note_push, note_sections, note_step,
    insert_tasks, starts_with, subst_node, subst_nodes, task_of, FoundTask, NoteError, NoteState,
};
use crate::task::{Task, TaskStatus};
use crate::text::{
    join, leading_spaces, lemma_join_append, lemma_repeat_spaces, lemma_spaces_then,
    lemma_split_first, lemma_split_join, repeat, split,
};
use crate::to_md::indentation;

verus! {

// ---------------------------------------------------------------------------------------------
// A page written as lines
// ---------------------------------------------------------------------------------------------

/// The line of a task reference: its checkbox and the task's title.
pub open spec fn task_line(t: Task, indent: nat) -> Seq<char> {
    indentation(indent) + "- ["@ + status_mark(t.status) + "] "@ + t.title@
}

/// The lines of a node's markdown, one per line of text.
pub open spec fn node_lines(n: NodeModel, depth: nat, indent: nat, tasks: Map<u128, Task>) -> Seq<Seq<char>>
    decreases n, 1int,
{
    match n.kind {
        KindModel::TaskReference(id) => seq![task_line(tasks[id], indent)] + nodes_lines(
            n.childs,
            depth + 1,
            indent + 1,
            tasks,
        ),
        KindModel::CodeBlock(content) => if content.len() == 0 {
            seq![Seq::empty()]
        } else {
            content
        },
        KindModel::Line(v) => seq![indentation(indent) + v] + nodes_lines(n.childs, depth + 1, indent + 1, tasks),
        KindModel::ListItem(t) => seq![indentation(indent) + "- "@ + t] + nodes_lines(
            n.childs,
            depth + 1,
            indent + 1,
            tasks,
        ),
        KindModel::Title(v) => seq![Seq::empty(), repeat("#"@, depth + 1) + " "@ + v] + nodes_lines(
            n.childs,
            depth + 1,
            0,
            tasks,
        ),
    }
}

/// The lines of sibling nodes, one node after the other.
pub open spec fn nodes_lines(s: Seq<NodeModel>, depth: nat, indent: nat, tasks: Map<u128, Task>) -> Seq<Seq<char>>
    decreases s, 0int,
{
    if s.len() == 0 {
        Seq::empty()
    } else {
        nodes_lines(s.drop_last(), depth, indent, tasks) + node_lines(s[s.len() - 1], depth, indent, tasks)
    }
}

/// The title line and the body lines of a page.
pub open spec fn page_head_lines(p: PageModel, tasks: Map<u128, Task>) -> Seq<Seq<char>> {
    seq!["# "@ + p.title] + nodes_lines(p.childs, 1, 0, tasks)
}

/// All the lines of a page: title, body, an empty line and the comments.
pub open spec fn page_lines(p: PageModel, tasks: Map<u128, Task>) -> Seq<Seq<char>> {
    page_head_lines(p, tasks) + seq![Seq::<char>::empty()] + match p.comments {
        Some(c) => seq!["## Comments"@, c],
        None => Seq::empty(),
    }
}

proof fn lemma_node_lines_md(n: NodeModel, depth: nat, indent: nat, tasks: Map<u128, Task>)
    ensures
        node_lines(n, depth, indent, tasks).len() > 0,
        join(node_lines(n, depth, indent, tasks), "\n"@) == node_md(n, depth, indent, tasks),
    decreases n, 1int,
{
    match n.kind {
        KindModel::TaskReference(id) => {
            lemma_nodes_lines_md(seq![task_line(tasks[id], indent)], n.childs, depth + 1, indent + 1, tasks);
        },
        KindModel::CodeBlock(content) => {
            if content.len() == 0 {
                assert(join(content, "\n"@) == Seq::<char>::empty());
            }
        },
        KindModel::Line(v) => {
            lemma_nodes_lines_md(seq![indentation(indent) + v], n.childs, depth + 1, indent + 1, tasks);
        },
        KindModel::ListItem(t) => {
            lemma_nodes_lines_md(seq![indentation(indent) + "- "@ + t], n.childs, depth + 1, indent + 1, tasks);
        },
        KindModel::Title(v) => {
            lemma_nodes_lines_md(
                seq![Seq::empty(), repeat("#"@, depth + 1) + " "@ + v],
                n.childs,
                depth + 1,
                0,
                tasks,
            );
        },
    }
}

proof fn lemma_nodes_lines_md(
    head: Seq<Seq<char>>,
    s: Seq<NodeModel>,
    depth: nat,
    indent: nat,
    tasks: Map<u128, Task>,
)
    requires
        head.len() > 0,
    ensures
        join(head + nodes_md(s, depth, indent, tasks), "\n"@) == join(head + nodes_lines(s, depth, indent, tasks), "\n"@),
    decreases s, 0int,
{
    if s.len() == 0 {
        assert(head + nodes_md(s, depth, indent, tasks) =~= head);
        assert(head + nodes_lines(s, depth, indent, tasks) =~= head);
    } else {
        let d = s.drop_last();
        let x = s[s.len() - 1];
        lemma_nodes_lines_md(head, d, depth, indent, tasks);
        lemma_node_lines_md(x, depth, indent, tasks);
        let a = head + nodes_md(d, depth, indent, tasks);
        assert(head + nodes_md(s, depth, indent, tasks) =~= a.push(node_md(x, depth, indent, tasks)));
        assert(a.push(node_md(x, depth, indent, tasks)).drop_last() =~= a);
        let b = head + nodes_lines(d, depth, indent, tasks);
        lemma_join_append(b, node_lines(x, depth, indent, tasks), "\n"@);
        assert(head + nodes_lines(s, depth, indent, tasks) =~= b + node_lines(x, depth, indent, tasks));
    }
}

/// The markdown of a page is its lines joined with line breaks.
pub proof fn lemma_page_md_lines(p: PageModel, tasks: Map<u128, Task>)
    ensures
        page_md(p, 0, tasks) == join(page_lines(p, tasks), "\n"@),
{
    let head = seq!["# "@ + p.title];
    let tail = seq![Seq::<char>::empty()] + match p.comments {
        Some(c) => seq!["## Comments"@, c],
        None => Seq::empty(),
    };
    lemma_nodes_lines_md(head, p.childs, 1, 0, tasks);
    let a = head + nodes_md(p.childs, 1, 0, tasks);
    let b = head + nodes_lines(p.childs, 1, 0, tasks);
    lemma_join_append(a, tail, "\n"@);
    lemma_join_append(b, tail, "\n"@);
    assert(seq!["# "@ + p.title] + nodes_md(p.childs, 0 + 1, 0, tasks) + seq![Seq::<char>::empty()] + match p.comments {
        Some(c) => seq!["## Comments"@, c],
        None => Seq::empty(),
    } =~= a + tail);
    assert(page_lines(p, tasks) =~= b + tail);
}

// ---------------------------------------------------------------------------------------------
// Task positions
// ---------------------------------------------------------------------------------------------

/// The ids of the tasks that a node's tree refers to, in the order of its lines.
pub open spec fn nrefs(n: NodeModel) -> Seq<u128>
    decreases n, 1int,
{
    match n.kind {
        KindModel::TaskReference(id) => seq![id] + srefs(n.childs),
        _ => srefs(n.childs),
    }
}

pub open spec fn srefs(s: Seq<NodeModel>) -> Seq<u128>
    decreases s, 0int,
{
    if s.len() == 0 {
        Seq::empty()
    } else {
        srefs(s.drop_last()) + nrefs(s[s.len() - 1])
    }
}

/// A node's tree with its task references numbered in the order of their lines, from `base` on.
pub open spec fn npos(n: NodeModel, base: nat) -> NodeModel
    decreases n, 1int,
{
    match n.kind {
        KindModel::TaskReference(_) => NodeModel {
            kind: KindModel::TaskReference(base as u128),
            childs: spos(n.childs, base + 1),
        },
        _ => NodeModel { kind: n.kind, childs: spos(n.childs, base) },
    }
}

pub open spec fn spos(s: Seq<NodeModel>, base: nat) -> Seq<NodeModel>
    decreases s, 0int,
{
    if s.len() == 0 {
        Seq::empty()
    } else {
        spos(s.drop_last(), base).push(npos(s[s.len() - 1], base + srefs(s.drop_last()).len()))
    }
}

/// The tasks that reading a page finds for the given task ids.
pub open spec fn found_of(refs: Seq<u128>, tasks: Map<u128, Task>) -> Seq<FoundTask> {
    refs.map_values(|id: u128| FoundTask { status: tasks[id].status, title: tasks[id].title@ })
}

proof fn lemma_found_of_append(a: Seq<u128>, b: Seq<u128>, tasks: Map<u128, Task>)
    ensures
        found_of(a + b, tasks) == found_of(a, tasks) + found_of(b, tasks),
        found_of(a, tasks).len() == a.len(),
{
    assert(found_of(a + b, tasks) =~= found_of(a, tasks) + found_of(b, tasks));
}

// ---------------------------------------------------------------------------------------------
// Reading from a given state
// ---------------------------------------------------------------------------------------------

/// The state after reading `lines`, from the state `s` on.
pub open spec fn note_run(s: NoteState, lines: Seq<Seq<char>>) -> Result<NoteState, NoteError>
    decreases lines.len(),
{
    if lines.len() == 0 {
        Ok(s)
    } else {
        match note_run(s, lines.drop_last()) {
            Ok(t) => note_step(t, lines.last()),
            Err(e) => Err(e),
        }
    }
}

proof fn lemma_note_lines_run(ls: Seq<Seq<char>>)
    ensures
        note_lines(ls) == note_run(note_initial(), ls),
    decreases ls.len(),
{
    if ls.len() > 0 {
        lemma_note_lines_run(ls.drop_last());
    }
}

proof fn lemma_note_run_append(s: NoteState, a: Seq<Seq<char>>, b: Seq<Seq<char>>)
    ensures
        note_run(s, a + b) == match note_run(s, a) {
            Ok(t) => note_run(t, b),
            Err(e) => Err(e),
        },
    decreases b.len(),
{
    if b.len() == 0 {
        assert(a + b =~= a);
    } else {
        lemma_note_run_append(s, a, b.drop_last());
        assert((a + b).drop_last() =~= a + b.drop_last());
        assert((a + b).last() == b.last());
    }
}

proof fn lemma_note_run_one(s: NoteState, l: Seq<char>)
    ensures
        note_run(s, seq![l]) == note_step(s, l),
{
    assert(seq![l].drop_last() =~= Seq::<Seq<char>>::empty());
    assert(note_run(s, Seq::<Seq<char>>::empty()) == Ok::<NoteState, NoteError>(s));
    assert(seq![l].last() == l);
}

// ---------------------------------------------------------------------------------------------
// Hanging nodes in a forest
// ---------------------------------------------------------------------------------------------

/// `f` with the nodes of `cs` hung one after the other under the node that `q` leads to.
pub open spec fn fappend(f: Seq<NodeModel>, q: Seq<usize>, cs: Seq<NodeModel>) -> Seq<NodeModel>
    decreases cs.len(),
{
    if cs.len() == 0 {
        f
    } else {
        fpush(fappend(f, q, cs.drop_last()), q, cs.last())
    }
}

proof fn lemma_fchilds_fpush(f: Seq<NodeModel>, q: Seq<usize>, c: NodeModel)
    requires
        fvalid(f, q),
    ensures
        fchilds_at(fpush(f, q, c), q) == fchilds_at(f, q).push(c),
    decreases q.len(),
{
    if q.len() > 0 {
        lemma_fchilds_fpush(f[q[0] as int].childs, q.drop_first(), c);
    }
}

proof fn lemma_fchilds_new(f: Seq<NodeModel>, q: Seq<usize>, c: NodeModel)
    requires
        fvalid(f, q),
        fchilds_at(f, q).len() <= usize::MAX,
    ensures
        fvalid(fpush(f, q, c), fnew_path(f, q)),
        fchilds_at(fpush(f, q, c), fnew_path(f, q)) == c.childs,
    decreases q.len(),
{
    lemma_fpush_paths(f, q, c, q);
    let m = fchilds_at(f, q).len() as usize;
    if q.len() == 0 {
        assert(fnew_path(f, q) =~= seq![m]);
        assert(seq![m].drop_first() =~= Seq::<usize>::empty());
        assert(m as int == f.len());
        assert(fpush(f, q, c) == f.push(c));
        assert(f.push(c)[m as int] == c);
        assert(fchilds_at(f.push(c), seq![m]) == fchilds_at(c.childs, Seq::<usize>::empty()));
    } else {
        let j = q[0] as int;
        let qd = q.drop_first();
        lemma_fchilds_new(f[j].childs, qd, c);
        assert(fchilds_at(f, q) == fchilds_at(f[j].childs, qd));
        assert(fnew_path(f, q).drop_first() =~= fnew_path(f[j].childs, qd));
        assert(fnew_path(f, q)[0] == q[0]);
        assert(fpush(f, q, c)[j].childs == fpush(f[j].childs, qd, c));
        assert(fchilds_at(fpush(f, q, c), fnew_path(f, q)) == fchilds_at(
            fpush(f, q, c)[j].childs,
            fnew_path(f, q).drop_first(),
        ));
    }
}

proof fn lemma_fpush_under_new(f: Seq<NodeModel>, q: Seq<usize>, k: KindModel, cs: Seq<NodeModel>, x: NodeModel)
    requires
        fvalid(f, q),
        fchilds_at(f, q).len() <= usize::MAX,
    ensures
        fpush(fpush(f, q, NodeModel { kind: k, childs: cs }), fnew_path(f, q), x) == fpush(
            f,
            q,
            NodeModel { kind: k, childs: cs.push(x) },
        ),
    decreases q.len(),
{
    let m = fchilds_at(f, q).len() as usize;
    let n0 = NodeModel { kind: k, childs: cs };
    let n1 = NodeModel { kind: k, childs: cs.push(x) };
    if q.len() == 0 {
        assert(fnew_path(f, q) =~= seq![m]);
        assert(seq![m].drop_first() =~= Seq::<usize>::empty());
        assert(m as int == f.len());
        let g = f.push(n0);
        assert(fpush(f, q, n0) == g);
        assert(g[m as int] == n0);
        assert(fpush(g, seq![m], x) == g.update(
            m as int,
            NodeModel { kind: g[m as int].kind, childs: fpush(g[m as int].childs, Seq::<usize>::empty(), x) },
        ));
        assert(g.update(m as int, n1) =~= f.push(n1));
    } else {
        let j = q[0] as int;
        let qd = q.drop_first();
        lemma_fpush_under_new(f[j].childs, qd, k, cs, x);
        assert(fchilds_at(f, q) == fchilds_at(f[j].childs, qd));
        let np = fnew_path(f, q);
        assert(np.drop_first() =~= fnew_path(f[j].childs, qd));
        assert(np[0] == q[0]);
        let g = fpush(f, q, n0);
        assert(g == f.update(j, NodeModel { kind: f[j].kind, childs: fpush(f[j].childs, qd, n0) }));
        assert(g[j].childs == fpush(f[j].childs, qd, n0));
        assert(fpush(g, np, x) == g.update(
            j,
            NodeModel { kind: g[j].kind, childs: fpush(g[j].childs, np.drop_first(), x) },
        ));
        assert(fpush(f, q, n1) == f.update(j, NodeModel { kind: f[j].kind, childs: fpush(f[j].childs, qd, n1) }));
        assert(fpush(g, np, x) =~= fpush(f, q, n1));
    }
}

proof fn lemma_fappend_new(f: Seq<NodeModel>, q: Seq<usize>, k: KindModel, cs: Seq<NodeModel>)
    requires
        fvalid(f, q),
        fchilds_at(f, q).len() <= usize::MAX,
    ensures
        fappend(fpush(f, q, NodeModel { kind: k, childs: Seq::empty() }), fnew_path(f, q), cs) == fpush(
            f,
            q,
            NodeModel { kind: k, childs: cs },
        ),
    decreases cs.len(),
{
    if cs.len() == 0 {
        assert(cs =~= Seq::<NodeModel>::empty());
    } else {
        lemma_fappend_new(f, q, k, cs.drop_last());
        lemma_fpush_under_new(f, q, k, cs.drop_last(), cs.last());
        assert(cs.drop_last().push(cs.last()) =~= cs);
    }
}

proof fn lemma_fappend_paths(f: Seq<NodeModel>, q: Seq<usize>, cs: Seq<NodeModel>, p: Seq<usize>)
    requires
        fvalid(f, q),
        fchilds_at(f, q).len() + cs.len() <= usize::MAX,
    ensures
        fvalid(fappend(f, q, cs), q),
        fchilds_at(fappend(f, q, cs), q) == fchilds_at(f, q) + cs,
        fvalid(f, p) ==> fvalid(fappend(f, q, cs), p),
    decreases cs.len(),
{
    if cs.len() == 0 {
        assert(fchilds_at(f, q) + cs =~= fchilds_at(f, q));
    } else {
        let d = cs.drop_last();
        lemma_fappend_paths(f, q, d, p);
        let g = fappend(f, q, d);
        lemma_fpush_paths(g, q, cs.last(), p);
        lemma_fpush_paths(g, q, cs.last(), q);
        lemma_fchilds_fpush(g, q, cs.last());
        assert((fchilds_at(f, q) + d).push(cs.last()) =~= fchilds_at(f, q) + cs);
    }
}

proof fn lemma_fappend_top(f: Seq<NodeModel>, cs: Seq<NodeModel>)
    ensures
        fappend(f, Seq::empty(), cs) == f + cs,
    decreases cs.len(),
{
    if cs.len() == 0 {
        assert(f + cs =~= f);
    } else {
        lemma_fappend_top(f, cs.drop_last());
        assert((f + cs.drop_last()).push(cs.last()) =~= f + cs);
    }
}

// ---------------------------------------------------------------------------------------------
// One line at a time
// ---------------------------------------------------------------------------------------------

/// The words that give a line its meaning when they come first.
pub open spec fn is_marker(w: Seq<char>) -> bool {
    w == "#"@ || w == "##"@ || w == "###"@ || w == "-"@ || w == "```mermaid"@ || w == "```"@
}

/// The first word of a line after its leading spaces, as reading a note sees it.
pub open spec fn line_tok(l: Seq<char>) -> Seq<char> {
    split(l.skip(leading_spaces(l) as int), ' ')[0]
}

pub(crate) proof fn lemma_markers()
    ensures
        "#"@ == seq!['#'],
        "##"@ == seq!['#', '#'],
        "###"@ == seq!['#', '#', '#'],
        "-"@ == seq!['-'],
        "```"@ == seq!['`', '`', '`'],
        "```mermaid"@.len() == 10,
        "```mermaid"@[0] == '`',
{
    reveal_strlit("#");
    reveal_strlit("##");
    reveal_strlit("###");
    reveal_strlit("-");
    reveal_strlit("```");
    reveal_strlit("```mermaid");
}

pub(crate) proof fn lemma_space_lits()
    ensures
        "    "@ == seq![' ', ' ', ' ', ' '],
        " "@ == seq![' '],
        "- "@ == seq!['-', ' '],
        "# "@ == seq!['#', ' '],
{
    reveal_strlit("    ");
    reveal_strlit(" ");
    reveal_strlit("- ");
    reveal_strlit("# ");
}

proof fn lemma_box_lits()
    ensures
        "- ["@ == seq!['-', ' ', '['],
        "] "@ == seq![']', ' '],
        "["@ == seq!['['],
        "x"@ == seq!['x'],
        " "@ == seq![' '],
        "[ ]"@ == seq!['[', ' ', ']'],
        "[x]"@ == seq!['[', 'x', ']'],
        "- [ ]"@ == seq!['-', ' ', '[', ' ', ']'],
        "- [x]"@ == seq!['-', ' ', '[', 'x', ']'],
{
    reveal_strlit("- [");
    reveal_strlit("] ");
    reveal_strlit("[");
    reveal_strlit("x");
    reveal_strlit(" ");
    reveal_strlit("[ ]");
    reveal_strlit("[x]");
    reveal_strlit("- [ ]");
    reveal_strlit("- [x]");
}

/// An indentation is four spaces per step.
pub(crate) proof fn lemma_indentation(i: nat)
    ensures
        indentation(i).len() == 4 * i,
        forall|k: int| 0 <= k < indentation(i).len() ==> #[trigger] indentation(i)[k] == ' ',
{
    lemma_space_lits();
    lemma_repeat_spaces("    "@, i);
    assert("    "@.len() == 4);
    assert(i * 4 == 4 * i);
}

/// Indented text: its leading spaces are the indentation, and what follows is the text.
pub(crate) proof fn lemma_indented(i: nat, v: Seq<char>)
    requires
        v.len() == 0 || v[0] != ' ',
    ensures
        leading_spaces(indentation(i) + v) == 4 * i,
        (indentation(i) + v).skip(4 * i as int) == v,
        leading_spaces(indentation(i) + v) / 4 == i,
{
    lemma_indentation(i);
    lemma_spaces_then(indentation(i), v);
}

/// The first word of `w`, a space and more is `w`.
pub(crate) proof fn lemma_first_word(w: Seq<char>, rest: Seq<char>)
    requires
        !w.contains(' '),
    ensures
        split(w + " "@ + rest, ' ')[0] == w,
{
    lemma_space_lits();
    assert(w + " "@ + rest =~= w + seq![' '] + rest);
    lemma_split_first(w, rest, ' ');
}

proof fn lemma_step_empty(s: NoteState)
    requires
        !s.code_open,
    ensures
        note_step(s, Seq::empty()) == Ok::<NoteState, NoteError>(s),
{
    lemma_markers();
    let l = Seq::<char>::empty();
    assert(leading_spaces(l) == 0);
    assert(l.skip(0) =~= l);
    assert(split(l, ' ') == seq![l]);
}

proof fn lemma_step_line(s: NoteState, i: nat, v: Seq<char>)
    requires
        s.by_indent.contains_key(i),
        !s.code_open,
        v.len() > 0,
        v[0] != ' ',
        !is_marker(split(v, ' ')[0]),
    ensures
        note_step(s, indentation(i) + v) == Ok::<NoteState, NoteError>(note_push(s, i, KindModel::Line(v))),
{
    lemma_indented(i, v);
}

proof fn lemma_step_list_item(s: NoteState, i: nat, t: Seq<char>)
    requires
        s.by_indent.contains_key(i),
        !s.code_open,
        !starts_with(t, "[ ]"@),
        !starts_with(t, "[x]"@),
    ensures
        note_step(s, indentation(i) + "- "@ + t) == Ok::<NoteState, NoteError>(note_push(s, i, KindModel::ListItem(t))),
{
    lemma_markers();
    lemma_space_lits();
    lemma_box_lits();
    let l2 = "- "@ + t;
    assert(l2[0] == '-');
    lemma_indented(i, l2);
    assert(indentation(i) + "- "@ + t =~= indentation(i) + l2);
    assert(l2 =~= "-"@ + " "@ + t);
    assert(!"-"@.contains(' ')) by {
        assert("-"@[0] == '-');
    }
    lemma_first_word("-"@, t);
    if starts_with(l2, "- [ ]"@) {
        assert(t.take(3) =~= "[ ]"@) by {
            assert forall|k: int| 0 <= k < 3 implies t.take(3)[k] == "[ ]"@[k] by {
                assert(l2.take(5)[k + 2] == "- [ ]"@[k + 2]);
            }
        }
    }
    if starts_with(l2, "- [x]"@) {
        assert(t.take(3) =~= "[x]"@) by {
            assert forall|k: int| 0 <= k < 3 implies t.take(3)[k] == "[x]"@[k] by {
                assert(l2.take(5)[k + 2] == "- [x]"@[k + 2]);
            }
        }
    }
    assert(l2.skip(2) =~= t);
}

proof fn lemma_task_words(m: Seq<char>, title: Seq<char>)
    requires
        m == "x"@ || m == " "@,
    ensures
        ("- ["@ + m + "] "@ + title)[0] == '-',
        split("- ["@ + m + "] "@ + title, ' ')[0] == "-"@,
        starts_with("- ["@ + m + "] "@ + title, "- [ ]"@) <==> m == " "@,
        starts_with("- ["@ + m + "] "@ + title, "- [x]"@) <==> m == "x"@,
        ("- ["@ + m + "] "@ + title).len() >= 6,
        ("- ["@ + m + "] "@ + title)[5] == ' ',
        ("- ["@ + m + "] "@ + title).skip(6) == title,
{
    lemma_markers();
    lemma_box_lits();
    let l2 = "- ["@ + m + "] "@ + title;
    let c = m[0];
    assert(m == seq![c]);
    assert(l2 =~= seq!['-', ' ', '[', c, ']', ' '] + title);
    assert(l2 =~= "-"@ + " "@ + ("["@ + m + "] "@ + title));
    assert(!"-"@.contains(' ')) by {
        assert("-"@[0] == '-');
    }
    lemma_first_word("-"@, "["@ + m + "] "@ + title);
    assert(l2.take(5) =~= seq!['-', ' ', '[', c, ']']);
    if m == " "@ {
        assert(l2.take(5) =~= "- [ ]"@);
        assert(l2.take(5)[3] != "- [x]"@[3]);
    } else {
        assert(l2.take(5) =~= "- [x]"@);
        assert(l2.take(5)[3] != "- [ ]"@[3]);
    }
    assert(l2.skip(6) =~= title);
}

#[verifier::rlimit(40)]
proof fn lemma_step_task(s: NoteState, i: nat, t: Task)
    requires
        s.by_indent.contains_key(i),
        !s.code_open,
    ensures
        note_step(s, task_line(t, i)) == Ok::<NoteState, NoteError>(NoteState {
            created: s.created.push(FoundTask { status: t.status, title: t.title@ }),
            ..note_push(s, i, KindModel::TaskReference(s.created.len() as u128))
        }),
{
    lemma_markers();
    let m = status_mark(t.status);
    reveal_strlit("x");
    reveal_strlit(" ");
    assert(m == "x"@ || m == " "@);
    let l2 = "- ["@ + m + "] "@ + t.title@;
    lemma_task_words(m, t.title@);
    lemma_indented(i, l2);
    let l = task_line(t, i);
    assert(l =~= indentation(i) + l2);
    let k = leading_spaces(l);
    assert(k / 4 == i);
    assert(l.skip(k as int) == l2);
    let tok = split(l2, ' ')[0];
    assert(tok == "-"@);
    assert(tok != "#"@ && tok != "##"@ && tok != "###"@) by {
        assert(tok[0] != "#"@[0]);
    }
    let st = if t.status == TaskStatus::New { TaskStatus::New } else { TaskStatus::Done };
    assert(st == t.status);
    assert(starts_with(l2, "- [ ]"@) <==> t.status == TaskStatus::New) by {
        assert("x"@ != " "@) by {
            assert("x"@[0] != " "@[0]);
        }
    }
    assert(starts_with(l2, "- [x]"@) <==> t.status == TaskStatus::Done) by {
        assert("x"@ != " "@) by {
            assert("x"@[0] != " "@[0]);
        }
    }
    assert((l2[5] as u32) < 128);
    assert(crate::page_parse::list_step(s, i, l2) == Ok::<NoteState, NoteError>(NoteState {
            created: s.created.push(FoundTask { status: t.status, title: t.title@ }),
            ..note_push(s, i, KindModel::TaskReference(s.created.len() as u128))
        }));
}

proof fn lemma_step_code_open(s: NoteState, l: Seq<char>)
    requires
        !s.code_open,
        line_tok(l) == "```mermaid"@ || line_tok(l) == "```"@,
    ensures
        note_step(s, l) == Ok::<NoteState, NoteError>(NoteState { code: s.code.push(l), code_open: true, ..s }),
{
    lemma_markers();
}

proof fn lemma_step_code_inner(s: NoteState, l: Seq<char>)
    requires
        s.code_open,
        !is_marker(line_tok(l)),
    ensures
        note_step(s, l) == Ok::<NoteState, NoteError>(NoteState { code: s.code.push(l), ..s }),
{
}

proof fn lemma_step_code_close(s: NoteState, l: Seq<char>)
    requires
        s.code_open,
        line_tok(l) == "```"@,
        s.by_indent.contains_key(leading_spaces(l) / 4),
    ensures
        note_step(s, l) == Ok::<NoteState, NoteError>(NoteState {
            code: Seq::empty(),
            code_open: false,
            ..note_push(s, leading_spaces(l) / 4, KindModel::CodeBlock(s.code.push(l)))
        }),
{
    lemma_markers();
}

/// A marker line: its marker, a space and the text after it.
pub(crate) proof fn lemma_marker_line(w: Seq<char>, v: Seq<char>)
    requires
        w.len() > 0,
        w[0] != ' ',
        !w.contains(' '),
    ensures
        leading_spaces(w + " "@ + v) == 0,
        (w + " "@ + v).skip(0) == w + " "@ + v,
        split(w + " "@ + v, ' ')[0] == w,
        (w + " "@ + v).skip(w.len() + 1 as int) == v,
{
    lemma_space_lits();
    let l = w + " "@ + v;
    assert(l[0] == w[0]);
    assert(l.skip(0) =~= l);
    lemma_first_word(w, v);
    assert(l.skip(w.len() + 1 as int) =~= v);
}

pub(crate) proof fn lemma_hashes(n: nat)
    requires
        1 <= n <= 3,
    ensures
        repeat("#"@, n) == if n == 1 { "#"@ } else if n == 2 { "##"@ } else { "###"@ },
        !repeat("#"@, n).contains(' '),
        repeat("#"@, n)[0] == '#',
        repeat("#"@, n).len() == n,
{
    lemma_markers();
    assert(repeat("#"@, 0) =~= Seq::<char>::empty());
    assert(repeat("#"@, 1) =~= "#"@);
    if n >= 2 {
        assert(repeat("#"@, 2) =~= "##"@);
    }
    if n == 3 {
        assert(repeat("#"@, 3) =~= "###"@);
    }
    let r = repeat("#"@, n);
    assert(!r.contains(' ')) by {
        if r.contains(' ') {
            let k = choose|k: int| 0 <= k < r.len() && r[k] == ' ';
            assert(r[k] == '#');
        }
    }
}

proof fn lemma_step_page_title(s: NoteState, t: Seq<char>)
    requires
        s.title is None,
    ensures
        note_step(s, "# "@ + t) == Ok::<NoteState, NoteError>(NoteState { title: Some(t), ..s }),
{
    lemma_hashes(1);
    lemma_markers();
    lemma_space_lits();
    let l = "# "@ + t;
    assert(l =~= "#"@ + " "@ + t);
    lemma_marker_line("#"@, t);
    assert(leading_spaces(l) == 0);
    assert(split(l.skip(0), ' ')[0] == "#"@);
    assert(l.len() >= 2);
    assert(l.skip(2) == t);
}

proof fn lemma_step_title(s: NoteState, v: Seq<char>)
    ensures
        note_step(s, repeat("#"@, 2) + " "@ + v) == Ok::<NoteState, NoteError>(NoteState {
            childs: fpush(s.childs, Seq::empty(), fleaf(KindModel::Title(v))),
            level1: Some(fnew_path(s.childs, Seq::empty())),
            by_indent: s.by_indent.insert(0, fnew_path(s.childs, Seq::empty())),
            ..s
        }),
{
    lemma_hashes(2);
    lemma_markers();
    lemma_space_lits();
    let l = repeat("#"@, 2) + " "@ + v;
    lemma_marker_line("##"@, v);
    assert(leading_spaces(l) == 0);
    assert(split(l.skip(0), ' ')[0] == "##"@);
    assert(l.len() >= 3);
    assert(l.skip(3) == v);
}

#[verifier::rlimit(60)]
proof fn lemma_step_subtitle(s: NoteState, v: Seq<char>, p: Seq<usize>)
    requires
        s.level1 == Some(p),
    ensures
        note_step(s, repeat("#"@, 3) + " "@ + v) == Ok::<NoteState, NoteError>(NoteState {
            childs: fpush(s.childs, p, fleaf(KindModel::Title(v))),
            by_indent: s.by_indent.insert(0, fnew_path(s.childs, p)),
            ..s
        }),
{
    lemma_hashes(3);
    lemma_markers();
    lemma_space_lits();
    let l = repeat("#"@, 3) + " "@ + v;
    lemma_marker_line("###"@, v);
    assert(leading_spaces(l) == 0);
    let tok = split(l.skip(leading_spaces(l) as int), ' ')[0];
    assert(tok == "###"@);
    assert(tok != "#"@);
    assert(tok != "##"@);
    assert(l.len() >= 4);
    assert(l.skip(4) == v);
    let r = Ok::<NoteState, NoteError>(NoteState {
            childs: fpush(s.childs, p, fleaf(KindModel::Title(l.skip(4)))),
            by_indent: s.by_indent.insert(0, fnew_path(s.childs, p)),
            ..s
        });
    assert(note_step(s, l) == r);
}

// ---------------------------------------------------------------------------------------------
// Pages that read back as written
// ---------------------------------------------------------------------------------------------

/// The lines of a code block that read back as that block, under the node of indentation `i`:
/// an opening fence, lines that start with no marker, and a closing fence indented as `i`.
pub open spec fn code_ok(c: Seq<Seq<char>>, i: nat) -> bool {
    &&& c.len() >= 2
    &&& (line_tok(c[0]) == "```mermaid"@ || line_tok(c[0]) == "```"@)
    &&& forall|j: int| 0 < j < c.len() - 1 ==> !is_marker(#[trigger] line_tok(c[j]))
    &&& line_tok(c[c.len() - 1]) == "```"@
    &&& leading_spaces(c[c.len() - 1]) / 4 == i
}

/// A node other than a title that reads back as written at indentation `i`, with all under it.
pub open spec fn plain_ok(n: NodeModel, i: nat, tasks: Map<u128, Task>) -> bool
    decreases n, 1int,
{
    &&& n.childs.len() < usize::MAX
    &&& match n.kind {
        KindModel::Line(v) => v.len() > 0 && v[0] != ' ' && !is_marker(split(v, ' ')[0]),
        KindModel::ListItem(t) => !starts_with(t, "[ ]"@) && !starts_with(t, "[x]"@),
        KindModel::TaskReference(id) => tasks.contains_key(id),
        KindModel::CodeBlock(c) => n.childs.len() == 0 && code_ok(c, i),
        KindModel::Title(_) => false,
    }
    &&& plains_ok(n.childs, i + 1, tasks)
}

pub open spec fn plains_ok(s: Seq<NodeModel>, i: nat, tasks: Map<u128, Task>) -> bool
    decreases s, 0int,
{
    s.len() == 0 || (plains_ok(s.drop_last(), i, tasks) && plain_ok(s[s.len() - 1], i, tasks))
}

/// Between two nodes: no code block open.
pub open spec fn ready(s: NoteState) -> bool {
    !s.code_open && s.code == Seq::<Seq<char>>::empty()
}

proof fn lemma_spos_len(s: Seq<NodeModel>, base: nat)
    ensures
        spos(s, base).len() == s.len(),
    decreases s.len(),
{
    if s.len() > 0 {
        lemma_spos_len(s.drop_last(), base);
    }
}

proof fn lemma_code_prefix(s: NoteState, c: Seq<Seq<char>>, i: nat, j: int)
    requires
        ready(s),
        code_ok(c, i),
        1 <= j < c.len(),
    ensures
        note_run(s, c.take(j)) == Ok::<NoteState, NoteError>(NoteState { code: c.take(j), code_open: true, ..s }),
    decreases j,
{
    if j == 1 {
        assert(c.take(1) =~= seq![c[0]]);
        lemma_note_run_one(s, c[0]);
        lemma_step_code_open(s, c[0]);
        assert(s.code.push(c[0]) =~= c.take(1));
    } else {
        lemma_code_prefix(s, c, i, j - 1);
        let m = NoteState { code: c.take(j - 1), code_open: true, ..s };
        assert(c.take(j).drop_last() =~= c.take(j - 1));
        assert(c.take(j).last() == c[j - 1]);
        assert(!is_marker(line_tok(c[j - 1])));
        lemma_step_code_inner(m, c[j - 1]);
        assert(c.take(j - 1).push(c[j - 1]) =~= c.take(j));
    }
}

proof fn lemma_code_run(s: NoteState, c: Seq<Seq<char>>, i: nat)
    requires
        ready(s),
        code_ok(c, i),
        s.by_indent.contains_key(i),
    ensures
        note_run(s, c) == Ok::<NoteState, NoteError>(NoteState {
            code: Seq::empty(),
            code_open: false,
            ..note_push(s, i, KindModel::CodeBlock(c))
        }),
{
    let n = c.len() as int;
    lemma_code_prefix(s, c, i, n - 1);
    let m = NoteState { code: c.take(n - 1), code_open: true, ..s };
    assert(c.drop_last() =~= c.take(n - 1));
    lemma_step_code_close(m, c[n - 1]);
    assert(c.take(n - 1).push(c[n - 1]) =~= c);
    assert(c.last() == c[n - 1]);
}

/// Reading the lines of a node that is not a title hangs it, numbered, under the node of its
/// indentation.
proof fn lemma_plain_run(n: NodeModel, d: nat, i: nat, tasks: Map<u128, Task>, s: NoteState)
    requires
        plain_ok(n, i, tasks),
        ready(s),
        s.by_indent.contains_key(i),
        fvalid(s.childs, s.by_indent[i]),
        fchilds_at(s.childs, s.by_indent[i]).len() < usize::MAX,
    ensures
        note_run(s, node_lines(n, d, i, tasks)) matches Ok(t) && {
            &&& ready(t)
            &&& t.title == s.title
            &&& t.level1 == s.level1
            &&& t.childs == fpush(s.childs, s.by_indent[i], npos(n, s.created.len()))
            &&& t.created == s.created + found_of(nrefs(n), tasks)
            &&& forall|j: nat| j <= i && #[trigger] s.by_indent.contains_key(j) ==> t.by_indent.contains_key(j)
                && t.by_indent[j] == s.by_indent[j]
        },
    decreases n, 1int,
{
    let q = s.by_indent[i];
    let base = s.created.len();
    match n.kind {
        KindModel::CodeBlock(c) => {
            lemma_code_run(s, c, i);
            assert(n.childs =~= Seq::<NodeModel>::empty());
            assert(spos(n.childs, base) =~= Seq::<NodeModel>::empty());
            assert(nrefs(n) =~= Seq::<u128>::empty());
            assert(s.created + found_of(nrefs(n), tasks) =~= s.created);
            assert(npos(n, base) == fleaf(KindModel::CodeBlock(c)));
            assert(node_lines(n, d, i, tasks) == c);
        },
        KindModel::Title(_) => {},
        _ => {
            let (head, kind, s1, base1) = match n.kind {
                KindModel::Line(v) => {
                    lemma_step_line(s, i, v);
                    (indentation(i) + v, n.kind, note_push(s, i, n.kind), base)
                },
                KindModel::ListItem(t) => {
                    lemma_step_list_item(s, i, t);
                    (indentation(i) + "- "@ + t, n.kind, note_push(s, i, n.kind), base)
                },
                KindModel::TaskReference(id) => {
                    lemma_step_task(s, i, tasks[id]);
                    let k = KindModel::TaskReference(base as u128);
                    (
                        task_line(tasks[id], i),
                        k,
                        NoteState {
                            created: s.created.push(FoundTask { status: tasks[id].status, title: tasks[id].title@ }),
                            ..note_push(s, i, k)
                        },
                        base + 1,
                    )
                },
                _ => (Seq::empty(), n.kind, s, base),
            };
            let rest = nodes_lines(n.childs, d + 1, i + 1, tasks);
            assert(node_lines(n, d, i, tasks) == seq![head] + rest);
            assert(note_step(s, head) == Ok::<NoteState, NoteError>(s1));
            lemma_note_run_one(s, head);
            lemma_note_run_append(s, seq![head], rest);
            let np = fnew_path(s.childs, q);
            lemma_fchilds_new(s.childs, q, fleaf(kind));
            assert(s1.childs == fpush(s.childs, q, fleaf(kind)));
            assert(s1.by_indent == s.by_indent.insert(i + 1, np));
            assert(s1.created.len() == base1);
            lemma_plains_run(n.childs, d + 1, i + 1, tasks, s1);
            lemma_fappend_new(s.childs, q, kind, spos(n.childs, base1));
            assert(npos(n, base) == NodeModel { kind, childs: spos(n.childs, base1) });
            match n.kind {
                KindModel::TaskReference(id) => {
                    lemma_found_of_append(seq![id], srefs(n.childs), tasks);
                    assert(found_of(seq![id], tasks) =~= seq![FoundTask { status: tasks[id].status, title: tasks[id].title@ }]);
                    assert(s.created.push(FoundTask { status: tasks[id].status, title: tasks[id].title@ }) + found_of(srefs(n.childs), tasks)
                        =~= s.created + found_of(nrefs(n), tasks));
                },
                _ => {},
            }
            let t = note_run(s, node_lines(n, d, i, tasks))->Ok_0;
            assert(note_run(s, node_lines(n, d, i, tasks)) is Ok);
            assert(ready(t));
            assert(t.title == s.title);
            assert(t.level1 == s.level1);
            assert(t.childs == fpush(s.childs, q, npos(n, base)));
            assert(t.created == s.created + found_of(nrefs(n), tasks));
            assert forall|j: nat| j <= i && #[trigger] s.by_indent.contains_key(j) implies t.by_indent.contains_key(j)
                && t.by_indent[j] == s.by_indent[j] by {
                assert(s1.by_indent.contains_key(j));
                assert(s1.by_indent[j] == s.by_indent[j]);
            }
        },
    }
}

proof fn lemma_plains_run(cs: Seq<NodeModel>, d: nat, i: nat, tasks: Map<u128, Task>, s: NoteState)
    requires
        plains_ok(cs, i, tasks),
        ready(s),
        s.by_indent.contains_key(i),
        fvalid(s.childs, s.by_indent[i]),
        fchilds_at(s.childs, s.by_indent[i]).len() + cs.len() < usize::MAX,
    ensures
        note_run(s, nodes_lines(cs, d, i, tasks)) matches Ok(t) && {
            &&& ready(t)
            &&& t.title == s.title
            &&& t.level1 == s.level1
            &&& t.childs == fappend(s.childs, s.by_indent[i], spos(cs, s.created.len()))
            &&& t.created == s.created + found_of(srefs(cs), tasks)
            &&& forall|j: nat| j <= i && #[trigger] s.by_indent.contains_key(j) ==> t.by_indent.contains_key(j)
                && t.by_indent[j] == s.by_indent[j]
        },
    decreases cs, 0int,
{
    let q = s.by_indent[i];
    let base = s.created.len();
    if cs.len() == 0 {
        assert(nodes_lines(cs, d, i, tasks) =~= Seq::<Seq<char>>::empty());
        assert(srefs(cs) =~= Seq::<u128>::empty());
        assert(s.created + found_of(srefs(cs), tasks) =~= s.created);
    } else {
        let d0 = cs.drop_last();
        let x = cs[cs.len() - 1];
        lemma_plains_run(d0, d, i, tasks, s);
        lemma_note_run_append(s, nodes_lines(d0, d, i, tasks), node_lines(x, d, i, tasks));
        let t1 = note_run(s, nodes_lines(d0, d, i, tasks))->Ok_0;
        lemma_spos_len(d0, base);
        lemma_fappend_paths(s.childs, q, spos(d0, base), q);
        assert(t1.by_indent[i] == q);
        lemma_found_of_append(srefs(d0), nrefs(x), tasks);
        lemma_found_of_append(Seq::empty(), srefs(d0), tasks);
        assert(t1.created.len() == base + srefs(d0).len());
        lemma_plain_run(x, d, i, tasks, t1);
        let sp = spos(cs, base);
        assert(sp.drop_last() == spos(d0, base));
        assert(sp.last() == npos(x, base + srefs(d0).len()));
        assert(s.created + found_of(srefs(d0), tasks) + found_of(nrefs(x), tasks) =~= s.created + found_of(
            srefs(cs),
            tasks,
        ));
    }
}

/// A `### ` title with nodes under it, none of them a title.
pub open spec fn sub_ok(n: NodeModel, tasks: Map<u128, Task>) -> bool {
    &&& n.kind is Title
    &&& n.childs.len() < usize::MAX
    &&& plains_ok(n.childs, 0, tasks)
}

/// The nodes under a `## ` title: nodes other than titles first, then `### ` titles.
pub open spec fn sec_ok(s: Seq<NodeModel>, tasks: Map<u128, Task>) -> bool
    decreases s.len(),
{
    s.len() == 0 || if s[s.len() - 1].kind is Title {
        sub_ok(s[s.len() - 1], tasks) && sec_ok(s.drop_last(), tasks)
    } else {
        plains_ok(s, 0, tasks)
    }
}

/// A `## ` title with its section under it.
pub open spec fn top_ok(n: NodeModel, tasks: Map<u128, Task>) -> bool {
    &&& n.kind is Title
    &&& n.childs.len() < usize::MAX
    &&& sec_ok(n.childs, tasks)
}

/// The body of a page: nodes other than titles first, then `## ` titles.
pub open spec fn body_ok(s: Seq<NodeModel>, tasks: Map<u128, Task>) -> bool
    decreases s.len(),
{
    s.len() == 0 || if s[s.len() - 1].kind is Title {
        top_ok(s[s.len() - 1], tasks) && body_ok(s.drop_last(), tasks)
    } else {
        plains_ok(s, 0, tasks)
    }
}

proof fn lemma_run_empty_line(s: NoteState)
    requires
        ready(s),
    ensures
        note_run(s, seq![Seq::<char>::empty()]) == Ok::<NoteState, NoteError>(s),
{
    lemma_note_run_one(s, Seq::empty());
    lemma_step_empty(s);
}

/// The empty line and the title line of a title, read from `s`.
proof fn lemma_run_title_head(s: NoteState, h: Seq<char>, rest: Seq<Seq<char>>)
    requires
        ready(s),
    ensures
        note_run(s, seq![Seq::<char>::empty(), h] + rest) == match note_step(s, h) {
            Ok(t) => note_run(t, rest),
            Err(e) => Err(e),
        },
{
    lemma_run_empty_line(s);
    lemma_note_run_append(s, seq![Seq::<char>::empty()], seq![h]);
    assert(seq![Seq::<char>::empty()] + seq![h] =~= seq![Seq::<char>::empty(), h]);
    lemma_note_run_one(s, h);
    lemma_note_run_append(s, seq![Seq::<char>::empty(), h], rest);
}

proof fn lemma_sub_run(n: NodeModel, tasks: Map<u128, Task>, s: NoteState, p: Seq<usize>)
    requires
        sub_ok(n, tasks),
        ready(s),
        s.level1 == Some(p),
        fvalid(s.childs, p),
        fchilds_at(s.childs, p).len() < usize::MAX,
    ensures
        note_run(s, node_lines(n, 2, 0, tasks)) matches Ok(t) && {
            &&& ready(t)
            &&& t.title == s.title
            &&& t.level1 == s.level1
            &&& t.childs == fpush(s.childs, p, npos(n, s.created.len()))
            &&& t.created == s.created + found_of(nrefs(n), tasks)
        },
{
    let v = n.kind->Title_0;
    let base = s.created.len();
    let h = repeat("#"@, 3) + " "@ + v;
    let rest = nodes_lines(n.childs, 3, 0, tasks);
    assert(node_lines(n, 2, 0, tasks) == seq![Seq::<char>::empty(), h] + rest);
    lemma_run_title_head(s, h, rest);
    lemma_step_subtitle(s, v, p);
    let np = fnew_path(s.childs, p);
    let s1 = NoteState {
        childs: fpush(s.childs, p, fleaf(KindModel::Title(v))),
        by_indent: s.by_indent.insert(0, np),
        ..s
    };
    lemma_fchilds_new(s.childs, p, fleaf(KindModel::Title(v)));
    lemma_plains_run(n.childs, 3, 0, tasks, s1);
    lemma_fappend_new(s.childs, p, KindModel::Title(v), spos(n.childs, base));
}

proof fn lemma_sec_run(cs: Seq<NodeModel>, tasks: Map<u128, Task>, s: NoteState, p: Seq<usize>)
    requires
        sec_ok(cs, tasks),
        ready(s),
        s.level1 == Some(p),
        s.by_indent.contains_key(0),
        s.by_indent[0] == p,
        fvalid(s.childs, p),
        fchilds_at(s.childs, p).len() + cs.len() < usize::MAX,
    ensures
        note_run(s, nodes_lines(cs, 2, 0, tasks)) matches Ok(t) && {
            &&& ready(t)
            &&& t.title == s.title
            &&& t.level1 == s.level1
            &&& t.childs == fappend(s.childs, p, spos(cs, s.created.len()))
            &&& t.created == s.created + found_of(srefs(cs), tasks)
        },
    decreases cs.len(),
{
    let base = s.created.len();
    if cs.len() == 0 {
        assert(nodes_lines(cs, 2, 0, tasks) =~= Seq::<Seq<char>>::empty());
        assert(srefs(cs) =~= Seq::<u128>::empty());
        assert(s.created + found_of(srefs(cs), tasks) =~= s.created);
    } else if cs[cs.len() - 1].kind is Title {
        let d0 = cs.drop_last();
        let x = cs[cs.len() - 1];
        lemma_sec_run(d0, tasks, s, p);
        lemma_note_run_append(s, nodes_lines(d0, 2, 0, tasks), node_lines(x, 2, 0, tasks));
        let t1 = note_run(s, nodes_lines(d0, 2, 0, tasks))->Ok_0;
        lemma_spos_len(d0, base);
        lemma_fappend_paths(s.childs, p, spos(d0, base), p);
        lemma_found_of_append(srefs(d0), nrefs(x), tasks);
        lemma_found_of_append(Seq::empty(), srefs(d0), tasks);
        assert(t1.created.len() == base + srefs(d0).len());
        lemma_sub_run(x, tasks, t1, p);
        let sp = spos(cs, base);
        assert(sp.drop_last() == spos(d0, base));
        assert(sp.last() == npos(x, base + srefs(d0).len()));
        assert(s.created + found_of(srefs(d0), tasks) + found_of(nrefs(x), tasks) =~= s.created + found_of(
            srefs(cs),
            tasks,
        ));
    } else {
        lemma_plains_run(cs, 2, 0, tasks, s);
    }
}

proof fn lemma_top_run(n: NodeModel, tasks: Map<u128, Task>, s: NoteState)
    requires
        top_ok(n, tasks),
        ready(s),
        s.childs.len() < usize::MAX,
    ensures
        note_run(s, node_lines(n, 1, 0, tasks)) matches Ok(t) && {
            &&& ready(t)
            &&& t.title == s.title
            &&& t.childs == s.childs.push(npos(n, s.created.len()))
            &&& t.created == s.created + found_of(nrefs(n), tasks)
        },
{
    let v = n.kind->Title_0;
    let base = s.created.len();
    let h = repeat("#"@, 2) + " "@ + v;
    let rest = nodes_lines(n.childs, 2, 0, tasks);
    assert(node_lines(n, 1, 0, tasks) == seq![Seq::<char>::empty(), h] + rest);
    lemma_run_title_head(s, h, rest);
    lemma_step_title(s, v);
    let e = Seq::<usize>::empty();
    let np = fnew_path(s.childs, e);
    let s1 = NoteState {
        childs: fpush(s.childs, e, fleaf(KindModel::Title(v))),
        level1: Some(np),
        by_indent: s.by_indent.insert(0, np),
        ..s
    };
    lemma_fchilds_new(s.childs, e, fleaf(KindModel::Title(v)));
    lemma_sec_run(n.childs, tasks, s1, np);
    lemma_fappend_new(s.childs, e, KindModel::Title(v), spos(n.childs, base));
}

proof fn lemma_body_run(cs: Seq<NodeModel>, tasks: Map<u128, Task>, s: NoteState)
    requires
        body_ok(cs, tasks),
        ready(s),
        s.by_indent.contains_key(0),
        s.by_indent[0] == Seq::<usize>::empty(),
        s.childs.len() + cs.len() < usize::MAX,
    ensures
        note_run(s, nodes_lines(cs, 1, 0, tasks)) matches Ok(t) && {
            &&& ready(t)
            &&& t.title == s.title
            &&& t.childs == s.childs + spos(cs, s.created.len())
            &&& t.created == s.created + found_of(srefs(cs), tasks)
        },
    decreases cs.len(),
{
    let base = s.created.len();
    if cs.len() == 0 {
        assert(nodes_lines(cs, 1, 0, tasks) =~= Seq::<Seq<char>>::empty());
        assert(srefs(cs) =~= Seq::<u128>::empty());
        assert(s.created + found_of(srefs(cs), tasks) =~= s.created);
        assert(s.childs + spos(cs, base) =~= s.childs);
    } else if cs[cs.len() - 1].kind is Title {
        let d0 = cs.drop_last();
        let x = cs[cs.len() - 1];
        lemma_body_run(d0, tasks, s);
        lemma_note_run_append(s, nodes_lines(d0, 1, 0, tasks), node_lines(x, 1, 0, tasks));
        let t1 = note_run(s, nodes_lines(d0, 1, 0, tasks))->Ok_0;
        lemma_spos_len(d0, base);
        lemma_found_of_append(srefs(d0), nrefs(x), tasks);
        lemma_found_of_append(Seq::empty(), srefs(d0), tasks);
        assert(t1.created.len() == base + srefs(d0).len());
        lemma_top_run(x, tasks, t1);
        let sp = spos(cs, base);
        assert(sp =~= spos(d0, base).push(npos(x, base + srefs(d0).len())));
        assert((s.childs + spos(d0, base)).push(npos(x, base + srefs(d0).len())) =~= s.childs + sp);
        assert(s.created + found_of(srefs(d0), tasks) + found_of(nrefs(x), tasks) =~= s.created + found_of(
            srefs(cs),
            tasks,
        ));
    } else {
        lemma_plains_run(cs, 1, 0, tasks, s);
        lemma_fappend_top(s.childs, spos(cs, base));
    }
}

/// The title line and the body of a page, read from the start.
proof fn lemma_head_run(p: PageModel, tasks: Map<u128, Task>)
    requires
        body_ok(p.childs, tasks),
        p.childs.len() < usize::MAX,
    ensures
        note_run(note_initial(), page_head_lines(p, tasks)) matches Ok(t) && {
            &&& ready(t)
            &&& t.title == Some(p.title)
            &&& t.childs == spos(p.childs, 0)
            &&& t.created == found_of(srefs(p.childs), tasks)
        },
{
    let s = note_initial();
    let h = "# "@ + p.title;
    lemma_note_run_one(s, h);
    lemma_step_page_title(s, p.title);
    lemma_note_run_append(s, seq![h], nodes_lines(p.childs, 1, 0, tasks));
    let s0 = NoteState { title: Some(p.title), ..s };
    assert(s0.childs + spos(p.childs, 0) =~= spos(p.childs, 0));
    lemma_body_run(p.childs, tasks, s0);
    assert(s0.created + found_of(srefs(p.childs), tasks) =~= found_of(srefs(p.childs), tasks));
}

// ---------------------------------------------------------------------------------------------
// Where the comments start
// ---------------------------------------------------------------------------------------------

/// `s` ends with `w`.
pub open spec fn ends_with(s: Seq<char>, w: Seq<char>) -> bool {
    w.len() <= s.len() && s.subrange(s.len() - w.len(), s.len() as int) == w
}

/// A line that reads as one line and does not run into the comments: no line break in it, and it
/// does not end with `## Comments`.
pub open spec fn line_safe(l: Seq<char>) -> bool {
    !l.contains('\n') && !ends_with(l, "## Comments"@)
}

/// `pat` occurs nowhere in `s`.
pub open spec fn no_occ(s: Seq<char>, pat: Seq<char>) -> bool {
    forall|j: int| 0 <= j && j + pat.len() <= s.len() ==> #[trigger] s.subrange(j, j + pat.len()) != pat
}

proof fn lemma_sep_lits()
    ensures
        comments_separator() == seq!['#', '#', ' ', 'C', 'o', 'm', 'm', 'e', 'n', 't', 's', '\n'],
        "## Comments"@ == seq!['#', '#', ' ', 'C', 'o', 'm', 'm', 'e', 'n', 't', 's'],
        "\n"@ == seq!['\n'],
{
    reveal_strlit("## Comments\n");
    reveal_strlit("## Comments");
    reveal_strlit("\n");
}

proof fn lemma_find_none(s: Seq<char>, pat: Seq<char>, i: int)
    requires
        no_occ(s, pat),
        0 <= i,
    ensures
        find_from(s, pat, i) is None,
    decreases s.len() + 1 - i,
{
    if i + pat.len() <= s.len() {
        assert(s.subrange(i, i + pat.len()) != pat);
        lemma_find_none(s, pat, i + 1);
    }
}

proof fn lemma_find_at(s: Seq<char>, pat: Seq<char>, i: int, k: int)
    requires
        0 <= i <= k,
        k + pat.len() <= s.len(),
        s.subrange(k, k + pat.len()) == pat,
        forall|j: int| i <= j < k ==> #[trigger] s.subrange(j, j + pat.len()) != pat,
    ensures
        find_from(s, pat, i) == Some(k),
    decreases k - i,
{
    if i < k {
        assert(s.subrange(i, i + pat.len()) != pat);
        lemma_find_at(s, pat, i + 1, k);
    }
}

/// Appending a safe line and a line break to text that ends with a line break adds no separator.
proof fn lemma_no_sep_step(yp: Seq<char>, l: Seq<char>)
    requires
        no_occ(yp, comments_separator()),
        yp.len() == 0 || yp[yp.len() - 1] == '\n',
        line_safe(l),
    ensures
        no_occ(yp + l + "\n"@, comments_separator()),
{
    lemma_sep_lits();
    let sep = comments_separator();
    let s = yp + l + "\n"@;
    let n = yp.len() as int;
    let m = l.len() as int;
    assert forall|j: int| 0 <= j && j + sep.len() <= s.len() implies #[trigger] s.subrange(j, j + sep.len()) != sep by {
        if s.subrange(j, j + sep.len()) == sep {
            assert(s[j + 11] == s.subrange(j, j + 12)[11]);
            assert(s[j + 11] == '\n');
            if j + 12 <= n {
                assert(yp.subrange(j, j + 12) =~= s.subrange(j, j + 12));
            } else if j + 11 < n + m {
                assert(s[j + 11] == l[j + 11 - n]);
                assert(l.contains('\n'));
            } else if m >= 11 {
                assert(l.subrange(m - 11, m) =~= "## Comments"@) by {
                    assert forall|k: int| 0 <= k < 11 implies l.subrange(m - 11, m)[k] == "## Comments"@[k] by {
                        assert(s[j + k] == s.subrange(j, j + 12)[k]);
                        assert(s[j + k] == l[m - 11 + k]);
                    }
                }
                assert(ends_with(l, "## Comments"@));
            } else {
                assert(n >= 1);
                assert(s[n - 1] == yp[n - 1]);
                let k = n - 1 - j;
                assert(0 <= k < 11);
                assert(s[j + k] == s.subrange(j, j + 12)[k]);
                assert(sep[k] != '\n');
            }
        }
    }
}

/// Safe lines, joined and ended with a line break, hold no separator.
proof fn lemma_no_sep_lines(ls: Seq<Seq<char>>)
    requires
        ls.len() > 0,
        forall|k: int| 0 <= k < ls.len() ==> line_safe(#[trigger] ls[k]),
    ensures
        no_occ(join(ls, "\n"@) + "\n"@, comments_separator()),
        (join(ls, "\n"@) + "\n"@).last() == '\n',
    decreases ls.len(),
{
    lemma_sep_lits();
    let l = ls[ls.len() - 1];
    assert(line_safe(l));
    if ls.len() == 1 {
        let e = Seq::<char>::empty();
        assert(no_occ(e, comments_separator()));
        lemma_no_sep_step(e, l);
        assert(e + l + "\n"@ =~= join(ls, "\n"@) + "\n"@);
    } else {
        let d = ls.drop_last();
        assert forall|k: int| 0 <= k < d.len() implies line_safe(#[trigger] d[k]) by {
            assert(d[k] == ls[k]);
        }
        lemma_no_sep_lines(d);
        let yp = join(d, "\n"@) + "\n"@;
        assert(yp[yp.len() - 1] == yp.last());
        lemma_no_sep_step(yp, l);
        assert(yp + l + "\n"@ =~= join(ls, "\n"@) + "\n"@);
    }
}

/// After text without separator that ends with a line break, an empty line and the comments title,
/// the comments start right after the title.
proof fn lemma_sep_after(y: Seq<char>, c: Seq<char>)
    requires
        no_occ(y, comments_separator()),
        y.len() > 0,
        y.last() == '\n',
    ensures
        find_from(y + "\n"@ + comments_separator() + c, comments_separator(), 0) == Some(y.len() + 1 as int),
{
    lemma_sep_lits();
    let sep = comments_separator();
    let md = y + "\n"@ + sep + c;
    let n = y.len() as int;
    assert(md.subrange(n + 1, n + 13) =~= sep);
    assert forall|j: int| 0 <= j < n + 1 implies #[trigger] md.subrange(j, j + sep.len()) != sep by {
        if md.subrange(j, j + sep.len()) == sep {
            assert(md[j + 11] == md.subrange(j, j + 12)[11]);
            if j + 12 <= n {
                assert(y.subrange(j, j + 12) =~= md.subrange(j, j + 12));
            } else if j + 11 == n {
                assert(md[j + 10] == md.subrange(j, j + 12)[10]);
                assert(md[n - 1] == y[n - 1]);
                assert(y[n - 1] == y.last());
            } else {
                assert(n < j + 11 <= n + 11);
                assert(md[j + 11] == sep[j + 11 - n - 1]);
            }
        }
    }
    lemma_find_at(md, sep, 0, n + 1);
}

// ---------------------------------------------------------------------------------------------
// The law
// ---------------------------------------------------------------------------------------------

/// A page that its markdown describes exactly: its body has nodes other than titles before its
/// `## ` titles, and so has each `## ` title before its `### ` titles; lines and list items start
/// with no marker, code blocks are fenced, every task referred to is known, each written line of
/// the title and body is safe, the comments hold no second comments title, and no list is too
/// long to count.
pub open spec fn page_ok(p: PageModel, tasks: Map<u128, Task>) -> bool {
    &&& body_ok(p.childs, tasks)
    &&& p.childs.len() < usize::MAX
    &&& forall|k: int| 0 <= k < page_head_lines(p, tasks).len() ==> line_safe(#[trigger] page_head_lines(p, tasks)[k])
    &&& (p.comments matches Some(c) ==> find_from(c, comments_separator(), 0) is None)
}

proof fn lemma_split_page_body(h: Seq<Seq<char>>, extra: Seq<Seq<char>>)
    requires
        forall|k: int| 0 <= k < h.len() ==> line_safe(#[trigger] h[k]),
        forall|k: int| 0 <= k < extra.len() ==> #[trigger] extra[k] == Seq::<char>::empty(),
        h.len() + extra.len() > 0,
    ensures
        split(join(h + extra, "\n"@), '\n') == h + extra,
{
    lemma_sep_lits();
    let ls = h + extra;
    assert forall|k: int| 0 <= k < ls.len() implies !(#[trigger] ls[k]).contains('\n') by {
        if k < h.len() {
            assert(ls[k] == h[k]);
            assert(line_safe(h[k]));
        } else {
            assert(ls[k] == extra[k - h.len()]);
        }
    }
    assert("\n"@ == seq!['\n']);
    lemma_split_join(ls, '\n');
}

/// Reading back the markdown of a page that it describes exactly gives its title, its body with
/// task references numbered in the order of their lines, its comments, and the tasks referred to,
/// in that order, with their titles and states.
pub proof fn lemma_page_md_reads_back(p: PageModel, tasks: Map<u128, Task>)
    requires
        page_ok(p, tasks),
    ensures
        note_page(page_md(p, 0, tasks)) == Ok::<(Seq<char>, Seq<NodeModel>, Option<Seq<char>>, Seq<FoundTask>), NoteError>(
            (p.title, spos(p.childs, 0), p.comments, found_of(srefs(p.childs), tasks)),
        ),
{
    lemma_sep_lits();
    lemma_page_md_lines(p, tasks);
    let h = page_head_lines(p, tasks);
    let e = Seq::<char>::empty();
    let md = page_md(p, 0, tasks);
    lemma_no_sep_lines(h);
    let y = join(h, "\n"@) + "\n"@;
    lemma_head_run(p, tasks);
    lemma_note_lines_run(h + seq![e]);
    lemma_note_lines_run(h + seq![e, e]);
    let t = note_run(note_initial(), h)->Ok_0;
    lemma_run_empty_line(t);
    lemma_note_run_append(note_initial(), h, seq![e]);
    lemma_note_run_append(t, seq![e], seq![e]);
    assert(seq![e] + seq![e] =~= seq![e, e]);
    lemma_note_run_append(note_initial(), h, seq![e, e]);
    assert(join(seq![e], "\n"@) == e);
    lemma_join_append(h, seq![e], "\n"@);
    assert(join(h + seq![e], "\n"@) =~= y);
    match p.comments {
        None => {
            assert(page_lines(p, tasks) =~= h + seq![e]);
            lemma_find_none(y, comments_separator(), 0);
            assert(note_sections(md) == (md, Option::<Seq<char>>::None));
            lemma_split_page_body(h, seq![e]);
        },
        Some(c) => {
            let tail = seq![e, "## Comments"@, c];
            assert(page_lines(p, tasks) =~= h + tail);
            lemma_join_append(h, tail, "\n"@);
            assert(join(tail, "\n"@) =~= e + "\n"@ + "## Comments"@ + "\n"@ + c) by {
                let t2 = seq![e, "## Comments"@];
                assert(tail.drop_last() =~= t2);
                assert(t2.drop_last() =~= seq![e]);
                assert(join(seq![e], "\n"@) == e);
                assert(join(t2, "\n"@) == e + "\n"@ + "## Comments"@);
                assert(join(tail, "\n"@) == join(t2, "\n"@) + "\n"@ + c);
            }
            assert(md =~= y + "\n"@ + comments_separator() + c);
            lemma_sep_after(y, c);
            let i = y.len() + 1;
            assert(md.take(i as int) =~= y + "\n"@);
            assert(md.skip(i + comments_separator().len() as int) =~= c);
            lemma_join_append(h, seq![e, e], "\n"@);
            assert(join(seq![e, e], "\n"@) =~= "\n"@) by {
                assert(seq![e, e].drop_last() =~= seq![e]);
            }
            assert(join(h + seq![e, e], "\n"@) =~= y + "\n"@);
            assert(note_sections(md) == (y + "\n"@, Some(c)));
            lemma_split_page_body(h, seq![e, e]);
        },
    }
}

/// Numbering the task references of nodes and then giving each number the id it was numbered
/// from gives the nodes back.
proof fn lemma_subst_npos(n: NodeModel, base: nat, ids: Seq<u128>)
    requires
        base + nrefs(n).len() <= u128::MAX + 1,
        base + nrefs(n).len() <= ids.len(),
        forall|k: int| 0 <= k < nrefs(n).len() ==> ids[base + k] == #[trigger] nrefs(n)[k],
    ensures
        subst_node(npos(n, base), ids) == n,
    decreases n, 1int,
{
    match n.kind {
        KindModel::TaskReference(id) => {
            assert(nrefs(n)[0] == id);
            assert(ids[base as int] == id);
            assert forall|k: int| 0 <= k < srefs(n.childs).len() implies ids[(base + 1) + k] == #[trigger] srefs(
                n.childs,
            )[k] by {
                assert(nrefs(n)[1 + k] == srefs(n.childs)[k]);
            }
            lemma_subst_spos(n.childs, base + 1, ids);
        },
        _ => {
            lemma_subst_spos(n.childs, base, ids);
        },
    }
}

proof fn lemma_subst_spos(s: Seq<NodeModel>, base: nat, ids: Seq<u128>)
    requires
        base + srefs(s).len() <= u128::MAX + 1,
        base + srefs(s).len() <= ids.len(),
        forall|k: int| 0 <= k < srefs(s).len() ==> ids[base + k] == #[trigger] srefs(s)[k],
    ensures
        subst_nodes(spos(s, base), ids) == s,
    decreases s, 0int,
{
    if s.len() == 0 {
        assert(spos(s, base) =~= Seq::<NodeModel>::empty());
        assert(s =~= Seq::<NodeModel>::empty());
    } else {
        let d = s.drop_last();
        let x = s[s.len() - 1];
        let b2 = base + srefs(d).len();
        assert forall|k: int| 0 <= k < srefs(d).len() implies ids[base + k] == #[trigger] srefs(d)[k] by {
            assert(srefs(s)[k] == srefs(d)[k]);
        }
        assert forall|k: int| 0 <= k < nrefs(x).len() implies ids[b2 + k] == #[trigger] nrefs(x)[k] by {
            assert(srefs(s)[srefs(d).len() + k] == nrefs(x)[k]);
        }
        lemma_subst_spos(d, base, ids);
        lemma_subst_npos(x, b2, ids);
        let sp = spos(s, base);
        assert(sp.drop_last() == spos(d, base));
        assert(sp[sp.len() - 1] == npos(x, b2));
        assert(d.push(x) =~= s);
    }
}

/// What a read gives back of a write: the markdown of a page that it describes exactly reads back
/// as that page, title, body and comments, when each task found gets the id of the task written
/// on its line; and the tasks found have the titles and states of the tasks written.
pub proof fn law_page_md_reads_back(p: PageModel, tasks: Map<u128, Task>, id: u128, path: Seq<char>)
    requires
        page_ok(p, tasks),
        srefs(p.childs).len() <= u128::MAX,
    ensures
        note_page(page_md(p, 0, tasks)) is Ok,
        note_page(page_md(p, 0, tasks))->Ok_0.3 == found_of(srefs(p.childs), tasks),
        note_page_model(page_md(p, 0, tasks), id, path, srefs(p.childs)) == (PageModel { id, path, ..p }),
{
    lemma_page_md_reads_back(p, tasks);
    lemma_subst_spos(p.childs, 0, srefs(p.childs));
}

/// The tasks of `tasks2` under `ids[base..]` have the titles and states of the tasks of `tasks`
/// that `refs` lists, in order.
pub open spec fn same_tasks(refs: Seq<u128>, tasks: Map<u128, Task>, ids: Seq<u128>, base: nat, tasks2: Map<u128, Task>) -> bool {
    &&& base + refs.len() <= ids.len()
    &&& forall|k: int| 0 <= k < refs.len() ==> {
        &&& (#[trigger] tasks2[ids[base + k]]).title@ == tasks[refs[k]].title@
        &&& tasks2[ids[base + k]].status == tasks[refs[k]].status
    }
}

proof fn lemma_md_subst_npos(n: NodeModel, base: nat, ids: Seq<u128>, tasks: Map<u128, Task>, tasks2: Map<u128, Task>, d: nat, i: nat)
    requires
        base + nrefs(n).len() <= u128::MAX + 1,
        same_tasks(nrefs(n), tasks, ids, base, tasks2),
    ensures
        node_md(subst_node(npos(n, base), ids), d, i, tasks2) == node_md(n, d, i, tasks),
    decreases n, 1int,
{
    match n.kind {
        KindModel::TaskReference(id) => {
            assert(nrefs(n)[0] == id);
            assert(tasks2[ids[base + 0int]].title@ == tasks[nrefs(n)[0]].title@);
            assert(ids[(base as u128) as int] == ids[base + 0int]);
            assert forall|k: int| 0 <= k < srefs(n.childs).len() implies {
                &&& (#[trigger] tasks2[ids[(base + 1) + k]]).title@ == tasks[srefs(n.childs)[k]].title@
                &&& tasks2[ids[(base + 1) + k]].status == tasks[srefs(n.childs)[k]].status
            } by {
                assert(nrefs(n)[1 + k] == srefs(n.childs)[k]);
                assert(tasks2[ids[base + (1 + k)]].title@ == tasks[nrefs(n)[1 + k]].title@);
            }
            lemma_md_subst_spos(n.childs, base + 1, ids, tasks, tasks2, d + 1, i + 1);
        },
        KindModel::Title(_) => {
            lemma_md_subst_spos(n.childs, base, ids, tasks, tasks2, d + 1, 0);
        },
        _ => {
            lemma_md_subst_spos(n.childs, base, ids, tasks, tasks2, d + 1, i + 1);
        },
    }
}

proof fn lemma_md_subst_spos(s: Seq<NodeModel>, base: nat, ids: Seq<u128>, tasks: Map<u128, Task>, tasks2: Map<u128, Task>, d: nat, i: nat)
    requires
        base + srefs(s).len() <= u128::MAX + 1,
        same_tasks(srefs(s), tasks, ids, base, tasks2),
    ensures
        nodes_md(subst_nodes(spos(s, base), ids), d, i, tasks2) == nodes_md(s, d, i, tasks),
    decreases s, 0int,
{
    if s.len() == 0 {
        assert(spos(s, base) =~= Seq::<NodeModel>::empty());
        assert(subst_nodes(spos(s, base), ids) =~= Seq::<NodeModel>::empty());
    } else {
        let dl = s.drop_last();
        let x = s[s.len() - 1];
        let b2 = base + srefs(dl).len();
        assert forall|k: int| 0 <= k < srefs(dl).len() implies {
            &&& (#[trigger] tasks2[ids[base + k]]).title@ == tasks[srefs(dl)[k]].title@
            &&& tasks2[ids[base + k]].status == tasks[srefs(dl)[k]].status
        } by {
            assert(srefs(s)[k] == srefs(dl)[k]);
        }
        assert forall|k: int| 0 <= k < nrefs(x).len() implies {
            &&& (#[trigger] tasks2[ids[b2 + k]]).title@ == tasks[nrefs(x)[k]].title@
            &&& tasks2[ids[b2 + k]].status == tasks[nrefs(x)[k]].status
        } by {
            assert(srefs(s)[srefs(dl).len() + k] == nrefs(x)[k]);
            assert(tasks2[ids[base + (srefs(dl).len() + k)]].title@ == tasks[srefs(s)[srefs(dl).len() + k]].title@);
        }
        lemma_md_subst_spos(dl, base, ids, tasks, tasks2, d, i);
        lemma_md_subst_npos(x, b2, ids, tasks, tasks2, d, i);
        let sp = spos(s, base);
        assert(sp.drop_last() == spos(dl, base));
        assert(sp[sp.len() - 1] == npos(x, b2));
        let ss = subst_nodes(sp, ids);
        assert(ss.drop_last() == subst_nodes(spos(dl, base), ids));
        assert(ss[ss.len() - 1] == subst_node(npos(x, b2), ids));
    }
}

/// What a write gives back of a read: writing the page read back from a written page, with tasks
/// that have the titles and states of the tasks written, gives the same markdown.
pub proof fn law_page_md_writes_back(
    p: PageModel,
    tasks: Map<u128, Task>,
    id: u128,
    path: Seq<char>,
    ids: Seq<u128>,
    tasks2: Map<u128, Task>,
)
    requires
        page_ok(p, tasks),
        srefs(p.childs).len() <= u128::MAX,
        ids.len() == srefs(p.childs).len(),
        same_tasks(srefs(p.childs), tasks, ids, 0, tasks2),
    ensures
        page_md(note_page_model(page_md(p, 0, tasks), id, path, ids), 0, tasks2) == page_md(p, 0, tasks),
{
    lemma_page_md_reads_back(p, tasks);
    lemma_md_subst_spos(p.childs, 0, ids, tasks, tasks2, 1, 0);
}

/// Tasks put in under distinct ids can each be found under its id.
proof fn lemma_insert_tasks_at(m: Map<u128, crate::task::TaskModel>, found: Seq<FoundTask>, ids: Seq<u128>, k: int)
    requires
        0 <= k < found.len(),
        found.len() <= ids.len(),
        forall|a: int, b: int| 0 <= a < b < found.len() ==> ids[a] != ids[b],
    ensures
        insert_tasks(m, found, ids).contains_key(ids[k]),
        insert_tasks(m, found, ids)[ids[k]] == task_of(found[k], ids[k]),
    decreases found.len(),
{
    let n = found.len() - 1;
    if k < n {
        let d = found.drop_last();
        assert(ids[k] != ids[n]);
        assert(d[k] == found[k]);
        lemma_insert_tasks_at(m, d, ids, k);
    }
}

/// Markdown in the form that writing a page emits, read into a page whose tasks get distinct ids
/// and then written with those tasks, gives back the same text (importing a note and exporting it
/// gives the note back).
pub proof fn law_note_written_form_writes_back(
    s: Seq<char>,
    id: u128,
    path: Seq<char>,
    ids: Seq<u128>,
    before: Map<u128, Task>,
    tasks2: Map<u128, Task>,
)
    requires
        exists|p: PageModel, tasks: Map<u128, Task>|
            page_ok(p, tasks) && srefs(p.childs).len() <= u128::MAX && #[trigger] page_md(p, 0, tasks) == s,
        note_page(s) is Ok ==> {
            &&& ids.len() == note_page(s)->Ok_0.3.len()
            &&& forall|a: int, b: int| 0 <= a < b < ids.len() ==> ids[a] != ids[b]
            &&& crate::task::tasks_model(tasks2) == insert_tasks(
                crate::task::tasks_model(before),
                note_page(s)->Ok_0.3,
                ids,
            )
        },
    ensures
        note_page(s) is Ok,
        page_md(note_page_model(s, id, path, ids), 0, tasks2) == s,
{
    let (p, tasks) = choose|p: PageModel, tasks: Map<u128, Task>|
        page_ok(p, tasks) && srefs(p.childs).len() <= u128::MAX && #[trigger] page_md(p, 0, tasks) == s;
    lemma_page_md_reads_back(p, tasks);
    let found = note_page(s)->Ok_0.3;
    let refs = srefs(p.childs);
    assert(found == found_of(refs, tasks));
    assert forall|k: int| 0 <= k < refs.len() implies {
        &&& (#[trigger] tasks2[ids[0 + k]]).title@ == tasks[refs[k]].title@
        &&& tasks2[ids[0 + k]].status == tasks[refs[k]].status
    } by {
        lemma_insert_tasks_at(crate::task::tasks_model(before), found, ids, k);
        assert(crate::task::tasks_model(tasks2).contains_key(ids[k]));
        assert(tasks2.contains_key(ids[k]));
        assert(crate::task::tasks_model(tasks2)[ids[k]] == tasks2[ids[k]].model());
        assert(found[k] == FoundTask { status: tasks[refs[k]].status, title: tasks[refs[k]].title@ });
    }
    law_page_md_writes_back(p, tasks, id, path, ids, tasks2);
}

} // verus!
