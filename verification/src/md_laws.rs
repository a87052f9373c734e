use vstd::prelude::*;
use crate::element::{
    add_text_at, lemma_push_at_paths, node_at, push_at, valid_path, with_text_line, DataModel,
    ElementModel,
};
use crate::md_parse::{
    initial_state, leaf, md_lines, md_page, md_step, new_child_path, push_indented, MdError, MdState,
};
use crate::note_laws::{
    lemma_first_word, lemma_hashes, lemma_indentation, lemma_indented, lemma_marker_line,
    lemma_markers, lemma_space_lits,
};
use crate::text::{
    join, leading_spaces, lemma_join_append, lemma_repeat_spaces, lemma_spaces_then,
    lemma_split_concat, lemma_split_join, lemma_split_no_sep, lemma_split_sep_append, remove_char, repeat, split,
};
use crate::to_md::indentation;
use crate::to_md::{
    child_indent, childs_md, comment_prefix, comment_text_lines, data_md, element_md, list_md,
    page_md, text_md, title_md,
};

verus! {

// ---------------------------------------------------------------------------------------------
// An element tree written as lines
// ---------------------------------------------------------------------------------------------

/// The first line of a comment: its mark, its line number if any, and its user.
pub open spec fn comment_head(line: Option<Seq<char>>, user: Seq<char>, level: nat) -> Seq<char> {
    let line_str = match line {
        Some(x) => "l"@ + x + " "@,
        None => Seq::empty(),
    };
    comment_prefix(level) + "- "@ + line_str + "@"@ + user
}

/// The lines of one node on its own.
pub open spec fn data_lines(d: DataModel, level: nat, indent: nat) -> Seq<Seq<char>> {
    match d {
        DataModel::Page { title, .. } => seq![page_md(title.unwrap())],
        DataModel::Title(t) => seq![Seq::empty(), repeat("#"@, level + 1) + " "@ + t],
        DataModel::Text(t) => seq![text_md(t, indent)],
        DataModel::ListElement(t) => seq![list_md(t, indent)],
        DataModel::Comment { line, user, text } => seq![comment_head(line, user, level)] + if text.len() == 0 {
            seq![Seq::empty()]
        } else {
            comment_text_lines(text, level)
        },
        DataModel::CommentSection => seq![Seq::empty()],
    }
}

/// The lines of a tree's markdown, one per line of text.
pub open spec fn elem_lines(e: ElementModel, level: nat, indent: nat) -> Seq<Seq<char>>
    decreases e, 1int,
{
    let ci = child_indent(e.data, indent);
    data_lines(e.data, level, indent) + elems_lines(e.childs, level, ci) + match e.data {
        DataModel::Page { comments: Some(c), .. } => seq![Seq::empty(), "# Comments"@] + if c.childs.len() == 0 {
            seq![Seq::empty()]
        } else {
            elems_lines(c.childs, level, ci)
        },
        _ => Seq::empty(),
    }
}

/// The lines of sibling trees, each one level deeper.
pub open spec fn elems_lines(s: Seq<ElementModel>, level: nat, ci: nat) -> Seq<Seq<char>>
    decreases s, 0int,
{
    if s.len() == 0 {
        Seq::empty()
    } else {
        elems_lines(s.drop_last(), level, ci) + elem_lines(s[s.len() - 1], level + 1, ci)
    }
}

proof fn lemma_data_lines_md(d: DataModel, level: nat, indent: nat)
    ensures
        data_lines(d, level, indent).len() > 0,
        join(data_lines(d, level, indent), "\n"@) == data_md(d, level, indent),
{
    match d {
        DataModel::Title(t) => {
            let e = Seq::<char>::empty();
            let h = repeat("#"@, level + 1) + " "@ + t;
            assert(seq![e, h].drop_last() =~= seq![e]);
            assert(join(seq![e], "\n"@) == e);
            assert(join(seq![e, h], "\n"@) == e + "\n"@ + h);
            assert(title_md(t, level) =~= e + "\n"@ + h);
        },
        DataModel::Comment { line, user, text } => {
            let head = seq![comment_head(line, user, level)];
            let rest = if text.len() == 0 {
                seq![Seq::<char>::empty()]
            } else {
                comment_text_lines(text, level)
            };
            assert(rest.len() > 0);
            lemma_join_append(head, rest, "\n"@);
            assert(join(head, "\n"@) == comment_head(line, user, level));
            if text.len() == 0 {
                assert(comment_text_lines(text, level) =~= Seq::<Seq<char>>::empty());
                assert(join(rest, "\n"@) == join(comment_text_lines(text, level), "\n"@));
            }
        },
        DataModel::Page { title, .. } => {
            assert(join(seq![page_md(title.unwrap())], "\n"@) == page_md(title.unwrap()));
        },
        DataModel::Text(t) => {
            assert(join(seq![text_md(t, indent)], "\n"@) == text_md(t, indent));
        },
        DataModel::ListElement(t) => {
            assert(join(seq![list_md(t, indent)], "\n"@) == list_md(t, indent));
        },
        DataModel::CommentSection => {
            assert(join(seq![Seq::<char>::empty()], "\n"@) == Seq::<char>::empty());
        },
    }
}

proof fn lemma_elem_lines_md(e: ElementModel, level: nat, indent: nat)
    ensures
        elem_lines(e, level, indent).len() > 0,
        join(elem_lines(e, level, indent), "\n"@) == element_md(e, level, indent),
    decreases e, 1int,
{
    let ci = child_indent(e.data, indent);
    let d = data_lines(e.data, level, indent);
    let c = elems_lines(e.childs, level, ci);
    lemma_data_lines_md(e.data, level, indent);
    let dc_str = if e.childs.len() > 0 {
        data_md(e.data, level, indent) + "\n"@ + childs_md(e.childs, level, ci)
    } else {
        data_md(e.data, level, indent)
    };
    if e.childs.len() > 0 {
        lemma_elems_lines_md(e.childs, level, ci);
        lemma_join_append(d, c, "\n"@);
    } else {
        assert(c =~= Seq::<Seq<char>>::empty());
        assert(d + c =~= d);
    }
    assert(join(d + c, "\n"@) == dc_str);
    match e.data {
        DataModel::Page { comments: Some(b), .. } => {
            let q = if b.childs.len() == 0 {
                seq![Seq::<char>::empty()]
            } else {
                elems_lines(b.childs, level, ci)
            };
            let p = seq![Seq::<char>::empty(), "# Comments"@] + q;
            if b.childs.len() > 0 {
                lemma_elems_lines_md(b.childs, level, ci);
            }
            assert(join(q, "\n"@) == childs_md(b.childs, level, ci));
            let e0 = Seq::<char>::empty();
            lemma_join_append(seq![e0, "# Comments"@], q, "\n"@);
            assert(seq![e0, "# Comments"@].drop_last() =~= seq![e0]);
            assert(join(seq![e0], "\n"@) == e0);
            assert(join(seq![e0, "# Comments"@], "\n"@) == e0 + "\n"@ + "# Comments"@);
            assert(join(p, "\n"@) == e0 + "\n"@ + "# Comments"@ + "\n"@ + childs_md(b.childs, level, ci));
            lemma_join_append(d + c, p, "\n"@);
            assert(elem_lines(e, level, indent) == d + c + p);
            reveal_strlit("\n");
            reveal_strlit("# Comments");
            reveal_strlit("\n\n# Comments\n");
            assert(dc_str + "\n"@ + (Seq::<char>::empty() + "\n"@ + "# Comments"@ + "\n"@ + childs_md(
                b.childs,
                level,
                ci,
            )) =~= dc_str + ("\n\n# Comments\n"@ + childs_md(b.childs, level, ci)));
        },
        _ => {
            assert(elem_lines(e, level, indent) =~= d + c);
            assert(dc_str + Seq::<char>::empty() =~= dc_str);
        },
    }
}

proof fn lemma_elems_lines_md(s: Seq<ElementModel>, level: nat, ci: nat)
    requires
        s.len() > 0,
    ensures
        elems_lines(s, level, ci).len() > 0,
        join(elems_lines(s, level, ci), "\n"@) == childs_md(s, level, ci),
    decreases s, 0int,
{
    let x = s[s.len() - 1];
    lemma_elem_lines_md(x, level + 1, ci);
    if s.len() == 1 {
        assert(s.drop_last() =~= Seq::<ElementModel>::empty());
        assert(elems_lines(s, level, ci) =~= elem_lines(x, level + 1, ci));
    } else {
        lemma_elems_lines_md(s.drop_last(), level, ci);
        lemma_join_append(elems_lines(s.drop_last(), level, ci), elem_lines(x, level + 1, ci), "\n"@);
    }
}

/// The markdown of a tree is its lines joined with line breaks.
pub proof fn lemma_element_md_lines(e: ElementModel, level: nat, indent: nat)
    ensures
        element_md(e, level, indent) == join(elem_lines(e, level, indent), "\n"@),
{
    lemma_elem_lines_md(e, level, indent);
}

// ---------------------------------------------------------------------------------------------
// Reading from a given state
// ---------------------------------------------------------------------------------------------

/// The state after reading `lines`, from the state `s` on.
pub open spec fn md_run(s: MdState, lines: Seq<Seq<char>>) -> Result<MdState, MdError>
    decreases lines.len(),
{
    if lines.len() == 0 {
        Ok(s)
    } else {
        match md_run(s, lines.drop_last()) {
            Ok(t) => md_step(t, lines.last()),
            Err(e) => Err(e),
        }
    }
}

proof fn lemma_md_lines_run(ls: Seq<Seq<char>>)
    ensures
        md_lines(ls) == md_run(initial_state(), ls),
    decreases ls.len(),
{
    if ls.len() > 0 {
        lemma_md_lines_run(ls.drop_last());
    }
}

proof fn lemma_md_run_append(s: MdState, a: Seq<Seq<char>>, b: Seq<Seq<char>>)
    ensures
        md_run(s, a + b) == match md_run(s, a) {
            Ok(t) => md_run(t, b),
            Err(e) => Err(e),
        },
    decreases b.len(),
{
    if b.len() == 0 {
        assert(a + b =~= a);
    } else {
        lemma_md_run_append(s, a, b.drop_last());
        assert((a + b).drop_last() =~= a + b.drop_last());
        assert((a + b).last() == b.last());
    }
}

proof fn lemma_md_run_one(s: MdState, l: Seq<char>)
    ensures
        md_run(s, seq![l]) == md_step(s, l),
{
    assert(seq![l].drop_last() =~= Seq::<Seq<char>>::empty());
    assert(md_run(s, Seq::<Seq<char>>::empty()) == Ok::<MdState, MdError>(s));
    assert(seq![l].last() == l);
}

// ---------------------------------------------------------------------------------------------
// Growing a tree
// ---------------------------------------------------------------------------------------------

/// `t` with the trees of `cs` hung one after the other under the node that `q` leads to.
pub open spec fn eappend(t: ElementModel, q: Seq<usize>, cs: Seq<ElementModel>) -> ElementModel
    decreases cs.len(),
{
    if cs.len() == 0 {
        t
    } else {
        push_at(eappend(t, q, cs.drop_last()), q, cs.last())
    }
}

proof fn lemma_node_at_push(t: ElementModel, q: Seq<usize>, c: ElementModel)
    requires
        valid_path(t, q),
    ensures
        node_at(push_at(t, q, c), q) == (ElementModel { data: node_at(t, q).data, childs: node_at(t, q).childs.push(c) }),
    decreases q.len(),
{
    if q.len() > 0 {
        let j = q[0] as int;
        lemma_node_at_push(t.childs[j], q.drop_first(), c);
        assert(push_at(t, q, c).childs[j] == push_at(t.childs[j], q.drop_first(), c));
    }
}

proof fn lemma_push_under_new(t: ElementModel, q: Seq<usize>, n: ElementModel, x: ElementModel)
    requires
        valid_path(t, q),
        node_at(t, q).childs.len() <= usize::MAX,
    ensures
        push_at(push_at(t, q, n), new_child_path(t, q), x) == push_at(
            t,
            q,
            ElementModel { data: n.data, childs: n.childs.push(x) },
        ),
    decreases q.len(),
{
    let m = node_at(t, q).childs.len() as usize;
    let n1 = ElementModel { data: n.data, childs: n.childs.push(x) };
    let np = new_child_path(t, q);
    if q.len() == 0 {
        assert(np =~= seq![m]);
        assert(seq![m].drop_first() =~= Seq::<usize>::empty());
        assert(m as int == t.childs.len());
        let g = push_at(t, q, n);
        assert(g.childs == t.childs.push(n));
        assert(g.childs[m as int] == n);
        assert(push_at(g, seq![m], x) == ElementModel {
            data: g.data,
            childs: g.childs.update(m as int, push_at(g.childs[m as int], Seq::<usize>::empty(), x)),
        });
        assert(g.childs.update(m as int, n1) =~= t.childs.push(n1));
    } else {
        let j = q[0] as int;
        let qd = q.drop_first();
        lemma_push_under_new(t.childs[j], qd, n, x);
        assert(node_at(t, q) == node_at(t.childs[j], qd));
        assert(np.drop_first() =~= new_child_path(t.childs[j], qd));
        assert(np[0] == q[0]);
        let g = push_at(t, q, n);
        assert(g.childs[j] == push_at(t.childs[j], qd, n));
        assert(push_at(g, np, x) == ElementModel {
            data: g.data,
            childs: g.childs.update(j, push_at(g.childs[j], np.drop_first(), x)),
        });
        assert(push_at(g, np, x).childs =~= push_at(t, q, n1).childs);
    }
}

proof fn lemma_text_under_new(t: ElementModel, q: Seq<usize>, n: ElementModel, l: Seq<char>)
    requires
        valid_path(t, q),
        node_at(t, q).childs.len() <= usize::MAX,
    ensures
        add_text_at(push_at(t, q, n), new_child_path(t, q), l) == push_at(
            t,
            q,
            ElementModel { data: with_text_line(n.data, l), childs: n.childs },
        ),
    decreases q.len(),
{
    let m = node_at(t, q).childs.len() as usize;
    let n1 = ElementModel { data: with_text_line(n.data, l), childs: n.childs };
    let np = new_child_path(t, q);
    if q.len() == 0 {
        assert(np =~= seq![m]);
        assert(seq![m].drop_first() =~= Seq::<usize>::empty());
        assert(m as int == t.childs.len());
        let g = push_at(t, q, n);
        assert(g.childs == t.childs.push(n));
        assert(g.childs[m as int] == n);
        assert(add_text_at(g, seq![m], l) == ElementModel {
            data: g.data,
            childs: g.childs.update(m as int, add_text_at(g.childs[m as int], Seq::<usize>::empty(), l)),
        });
        assert(g.childs.update(m as int, n1) =~= t.childs.push(n1));
    } else {
        let j = q[0] as int;
        let qd = q.drop_first();
        lemma_text_under_new(t.childs[j], qd, n, l);
        assert(node_at(t, q) == node_at(t.childs[j], qd));
        assert(np.drop_first() =~= new_child_path(t.childs[j], qd));
        assert(np[0] == q[0]);
        let g = push_at(t, q, n);
        assert(g.childs[j] == push_at(t.childs[j], qd, n));
        assert(add_text_at(g, np, l) == ElementModel {
            data: g.data,
            childs: g.childs.update(j, add_text_at(g.childs[j], np.drop_first(), l)),
        });
        assert(add_text_at(g, np, l).childs =~= push_at(t, q, n1).childs);
    }
}

proof fn lemma_eappend_new(t: ElementModel, q: Seq<usize>, n: ElementModel, cs: Seq<ElementModel>)
    requires
        valid_path(t, q),
        node_at(t, q).childs.len() <= usize::MAX,
        n.childs.len() == 0,
    ensures
        eappend(push_at(t, q, n), new_child_path(t, q), cs) == push_at(t, q, ElementModel { data: n.data, childs: cs }),
    decreases cs.len(),
{
    if cs.len() == 0 {
        assert(n.childs =~= cs);
    } else {
        lemma_eappend_new(t, q, n, cs.drop_last());
        lemma_push_under_new(t, q, ElementModel { data: n.data, childs: cs.drop_last() }, cs.last());
        assert(cs.drop_last().push(cs.last()) =~= cs);
    }
}

proof fn lemma_eappend_paths(t: ElementModel, q: Seq<usize>, cs: Seq<ElementModel>, p: Seq<usize>)
    requires
        valid_path(t, q),
        node_at(t, q).childs.len() + cs.len() <= usize::MAX,
    ensures
        valid_path(eappend(t, q, cs), q),
        node_at(eappend(t, q, cs), q).childs == node_at(t, q).childs + cs,
        valid_path(t, p) ==> valid_path(eappend(t, q, cs), p),
    decreases cs.len(),
{
    if cs.len() == 0 {
        assert(node_at(t, q).childs + cs =~= node_at(t, q).childs);
    } else {
        let d = cs.drop_last();
        lemma_eappend_paths(t, q, d, p);
        let g = eappend(t, q, d);
        lemma_push_at_paths(g, q, cs.last(), p);
        lemma_push_at_paths(g, q, cs.last(), q);
        lemma_node_at_push(g, q, cs.last());
        assert((node_at(t, q).childs + d).push(cs.last()) =~= node_at(t, q).childs + cs);
    }
}

proof fn lemma_eappend_root(t: ElementModel, cs: Seq<ElementModel>)
    ensures
        eappend(t, Seq::empty(), cs) == (ElementModel { data: t.data, childs: t.childs + cs }),
    decreases cs.len(),
{
    if cs.len() == 0 {
        assert(t.childs + cs =~= t.childs);
    } else {
        lemma_eappend_root(t, cs.drop_last());
        assert((t.childs + cs.drop_last()).push(cs.last()) =~= t.childs + cs);
    }
}

// ---------------------------------------------------------------------------------------------
// One line at a time
// ---------------------------------------------------------------------------------------------

/// The words that give a body line its meaning when they come first.
pub open spec fn md_marker(w: Seq<char>) -> bool {
    w == seq!['#'] || w == seq!['#', '#'] || w == seq!['#', '#', '#'] || w == seq!['-']
}

proof fn lemma_comments_lit()
    ensures
        "# Comments"@ == seq!['#', ' ', 'C', 'o', 'm', 'm', 'e', 'n', 't', 's'],
        "  "@ == seq![' ', ' '],
        "l"@ == seq!['l'],
        "@"@ == seq!['@'],
{
    reveal_strlit("# Comments");
    reveal_strlit("  ");
    reveal_strlit("l");
    reveal_strlit("@");
}

proof fn lemma_md_step_empty(s: MdState)
    requires
        !s.in_comments,
    ensures
        md_step(s, Seq::empty()) == Ok::<MdState, MdError>(s),
{
    lemma_comments_lit();
    let l = Seq::<char>::empty();
    assert(l != "# Comments"@);
    assert(leading_spaces(l) == 0);
    assert(l.skip(0) =~= l);
    lemma_split_no_sep(l, ' ');
}

proof fn lemma_md_step_page_title(s: MdState, t: Seq<char>)
    requires
        !s.in_comments,
        s.root.data matches DataModel::Page { title: None, .. },
        t != "Comments"@,
    ensures
        md_step(s, page_md(t)) == Ok::<MdState, MdError>(MdState {
            root: ElementModel { data: DataModel::Page { title: Some(t), comments: None }, childs: s.root.childs },
            ..s
        }),
{
    lemma_comments_lit();
    lemma_hashes(1);
    lemma_markers();
    lemma_space_lits();
    reveal_strlit("Comments");
    let l = "# "@ + t;
    assert(l =~= "#"@ + " "@ + t);
    lemma_marker_line("#"@, t);
    if l == "# Comments"@ {
        assert(l.skip(2) =~= "Comments"@);
    }
    assert(split(l.skip(leading_spaces(l) as int), ' ')[0] == seq!['#']);
    assert(l.skip(2) == t);
}

proof fn lemma_md_step_title(s: MdState, v: Seq<char>)
    requires
        !s.in_comments,
    ensures
        md_step(s, repeat("#"@, 2) + " "@ + v) == Ok::<MdState, MdError>(MdState {
            root: push_at(s.root, Seq::empty(), leaf(DataModel::Title(v))),
            parent1: Some(new_child_path(s.root, Seq::empty())),
            by_indent: s.by_indent.insert(0, new_child_path(s.root, Seq::empty())),
            ..s
        }),
{
    lemma_comments_lit();
    lemma_hashes(2);
    lemma_markers();
    lemma_space_lits();
    let l = repeat("#"@, 2) + " "@ + v;
    lemma_marker_line("##"@, v);
    assert(l[1] != "# Comments"@[1]);
    let tok = split(l.skip(leading_spaces(l) as int), ' ')[0];
    assert(tok == seq!['#', '#']);
    assert(tok != seq!['#']);
    assert(l.skip(3) == v);
}

proof fn lemma_md_step_subtitle(s: MdState, v: Seq<char>, p: Seq<usize>)
    requires
        !s.in_comments,
        s.parent1 == Some(p),
    ensures
        md_step(s, repeat("#"@, 3) + " "@ + v) == Ok::<MdState, MdError>(MdState {
            root: push_at(s.root, p, leaf(DataModel::Title(v))),
            by_indent: s.by_indent.insert(0, new_child_path(s.root, p)),
            ..s
        }),
{
    lemma_comments_lit();
    lemma_hashes(3);
    lemma_markers();
    lemma_space_lits();
    let l = repeat("#"@, 3) + " "@ + v;
    lemma_marker_line("###"@, v);
    assert(l[1] != "# Comments"@[1]);
    let tok = split(l.skip(leading_spaces(l) as int), ' ')[0];
    assert(tok == seq!['#', '#', '#']);
    assert(tok != seq!['#'] && tok != seq!['#', '#']);
    assert(l.skip(4) == v);
}

proof fn lemma_md_step_text(s: MdState, i: nat, t: Seq<char>)
    requires
        !s.in_comments,
        s.by_indent.contains_key(i),
        t.len() > 0,
        t[0] != ' ',
        !md_marker(split(t, ' ')[0]),
    ensures
        md_step(s, text_md(t, i)) == Ok::<MdState, MdError>(push_indented(s, i, DataModel::Text(t))),
{
    lemma_comments_lit();
    lemma_indented(i, t);
    lemma_indentation(i);
    let l = text_md(t, i);
    if l == "# Comments"@ {
        if i == 0 {
            assert(indentation(0) =~= Seq::<char>::empty());
            assert(t =~= seq!['#'] + seq![' '] + "Comments"@) by {
                reveal_strlit("Comments");
            }
            assert(!seq!['#'].contains(' ')) by {
                assert(seq!['#'][0] == '#');
            }
            lemma_split_sep_append(seq!['#'], Seq::empty(), ' ');
            crate::text::lemma_split_prefix(seq!['#'] + seq![' '], "Comments"@, ' ');
            lemma_split_no_sep(seq!['#'], ' ');
            assert(seq!['#'] + seq![' '] + Seq::<char>::empty() =~= seq!['#'] + seq![' ']);
            assert(split(t, ' ')[0] == seq!['#']);
        } else {
            assert(l[0] == ' ');
        }
    }
    let tok = split(t, ' ')[0];
    assert(l.skip(4 * i as int) == t);
    if tok.len() == 0 {
        lemma_first_char_word(t);
    }
}

/// The first word of text that starts with something other than a space is not empty.
proof fn lemma_first_char_word(t: Seq<char>)
    requires
        t.len() > 0,
        t[0] != ' ',
    ensures
        split(t, ' ')[0].len() > 0,
    decreases t.len(),
{
    if t.len() == 1 {
        lemma_split_no_sep(t, ' ');
    } else {
        lemma_first_char_word(t.drop_last());
        crate::text::lemma_split_prefix(t.drop_last(), seq![t.last()], ' ');
        assert(t.drop_last() + seq![t.last()] =~= t);
        crate::text::lemma_split_len(t.drop_last(), ' ');
        if crate::text::split(t.drop_last(), ' ').len() == 1 {
            let init = split(t.drop_last(), ' ');
            if t.last() == ' ' {
                assert(split(t, ' ') == init.push(Seq::empty()));
            } else {
                assert(split(t, ' ') == init.update(0, init[0].push(t.last())));
            }
        }
    }
}

proof fn lemma_md_step_list(s: MdState, i: nat, t: Seq<char>)
    requires
        !s.in_comments,
        s.by_indent.contains_key(i),
    ensures
        md_step(s, list_md(t, i)) == Ok::<MdState, MdError>(push_indented(s, i, DataModel::ListElement(t))),
{
    lemma_comments_lit();
    lemma_markers();
    lemma_space_lits();
    let l2 = "- "@ + t;
    assert(l2[0] == '-');
    lemma_indented(i, l2);
    lemma_indentation(i);
    let l = list_md(t, i);
    assert(l =~= indentation(i) + l2);
    if i == 0 {
        assert(l[0] == '-');
    } else {
        assert(l[0] == ' ');
    }
    assert(l != "# Comments"@);
    assert(l2 =~= "-"@ + " "@ + t);
    assert(!"-"@.contains(' ')) by {
        assert("-"@[0] == '-');
    }
    lemma_first_word("-"@, t);
    let tok = split(l.skip(4 * i as int), ' ')[0];
    assert(tok == seq!['-']);
    assert(tok != seq!['#'] && tok != seq!['#', '#'] && tok != seq!['#', '#', '#']);
    assert(l.skip(4 * i + 2 as int) =~= t);
}

proof fn lemma_md_step_comments(s: MdState)
    requires
        s.comments is None,
    ensures
        md_step(s, "# Comments"@) == Ok::<MdState, MdError>(MdState {
            comments: Some(leaf(DataModel::CommentSection)),
            comment_by_indent: s.comment_by_indent.insert(0, Seq::empty()),
            in_comments: true,
            ..s
        }),
{
}

/// `c` followed by text without `c`: taking out `c` leaves the text.
proof fn lemma_remove_char_lead(c: char, x: Seq<char>)
    requires
        !x.contains(c),
    ensures
        remove_char(seq![c] + x, c) == x,
    decreases x.len(),
{
    if x.len() == 0 {
        assert(seq![c] + x =~= seq![c]);
        assert(seq![c].drop_last() =~= Seq::<char>::empty());
        assert(seq![c].last() == c);
        assert(remove_char(Seq::<char>::empty(), c) == Seq::<char>::empty());
        assert(x =~= Seq::<char>::empty());
    } else {
        assert(!x.drop_last().contains(c)) by {
            if x.drop_last().contains(c) {
                let k = choose|k: int| 0 <= k < x.drop_last().len() && x.drop_last()[k] == c;
                assert(x[k] == c);
            }
        }
        lemma_remove_char_lead(c, x.drop_last());
        assert((seq![c] + x).drop_last() =~= seq![c] + x.drop_last());
        assert((seq![c] + x).last() == x.last());
        assert(x.last() != c) by {
            assert(x[x.len() - 1] == x.last());
        }
        assert(x.drop_last().push(x.last()) =~= x);
    }
}

/// Spaces, a `-`, a space and more: the spaces lead, and the first word after them is `-`.
proof fn lemma_dash_line(sp: Seq<char>, rest: Seq<char>)
    requires
        forall|i: int| 0 <= i < sp.len() ==> sp[i] == ' ',
    ensures
        leading_spaces(sp + "- "@ + rest) == sp.len(),
        (sp + "- "@ + rest).skip(sp.len() as int) == "- "@ + rest,
        (sp + "- "@ + rest)[0] != '#',
{
    lemma_space_lits();
    let r = "- "@ + rest;
    assert(r[0] == '-');
    lemma_spaces_then(sp, r);
    assert(sp + "- "@ + rest =~= sp + r);
    if sp.len() > 0 {
        assert((sp + r)[0] == sp[0]);
    } else {
        assert((sp + r)[0] == r[0]);
    }
}

proof fn lemma_comment_prefix(level: nat)
    requires
        level >= 1,
    ensures
        comment_prefix(level).len() == 2 * (level - 1),
        forall|i: int| 0 <= i < comment_prefix(level).len() ==> #[trigger] comment_prefix(level)[i] == ' ',
{
    lemma_comments_lit();
    lemma_repeat_spaces("  "@, (level - 1) as nat);
    assert(((level - 1) as nat) * 2 == 2 * (level - 1));
}

proof fn lemma_no_space_word(a: Seq<char>, b: Seq<char>)
    requires
        !a.contains(' '),
        !b.contains(' '),
    ensures
        !(a + b).contains(' '),
{
    if (a + b).contains(' ') {
        let k = choose|k: int| 0 <= k < (a + b).len() && (a + b)[k] == ' ';
        if k < a.len() {
            assert(a[k] == ' ');
        } else {
            assert(b[k - a.len()] == ' ');
        }
    }
}

/// The comment line of a comment, read in the comments.
proof fn lemma_md_step_comment_head(s: MdState, line: Option<Seq<char>>, user: Seq<char>, level: nat)
    requires
        s.in_comments,
        s.comments is Some,
        level >= 1,
        s.comment_by_indent.contains_key((level - 1) as nat),
        !user.contains(' '),
        !user.contains('@'),
        level == 1 ==> (line matches Some(x) && !x.contains(' ') && !x.contains('l')),
        level > 1 ==> line is None,
    ensures
        md_step(s, comment_head(line, user, level)) == Ok::<MdState, MdError>(MdState {
            comments: Some(push_at(
                s.comments.unwrap(),
                s.comment_by_indent[(level - 1) as nat],
                leaf(DataModel::Comment { line, user, text: Seq::empty() }),
            )),
            last_comment: level,
            comment_by_indent: s.comment_by_indent.insert(
                level,
                new_child_path(s.comments.unwrap(), s.comment_by_indent[(level - 1) as nat]),
            ),
            ..s
        }),
{
    lemma_comments_lit();
    lemma_markers();
    lemma_space_lits();
    lemma_comment_prefix(level);
    let sp = comment_prefix(level);
    let line_str = match line {
        Some(x) => "l"@ + x + " "@,
        None => Seq::<char>::empty(),
    };
    let rest = line_str + "@"@ + user;
    let l = comment_head(line, user, level);
    assert(l =~= sp + "- "@ + rest);
    lemma_dash_line(sp, rest);
    assert(l != "# Comments"@) by {
        assert(l[0] != "# Comments"@[0]);
    }
    let k = leading_spaces(l);
    assert(k == 2 * (level - 1));
    assert(k / 2 == level - 1);
    let r = l.skip(k as int);
    assert(r == "- "@ + rest);
    let dash = seq!['-'];
    assert(!dash.contains(' ')) by {
        assert(dash[0] == '-');
    }
    lemma_split_no_sep(dash, ' ');
    let at_user = "@"@ + user;
    assert(!"@"@.contains(' ')) by {
        assert("@"@[0] == '@');
    }
    lemma_no_space_word("@"@, user);
    assert(at_user =~= seq!['@'] + user);
    lemma_remove_char_lead('@', user);
    let words = split(r, ' ');
    match line {
        Some(x) => {
            let lx = "l"@ + x;
            assert(!"l"@.contains(' ')) by {
                assert("l"@[0] == 'l');
            }
            lemma_no_space_word("l"@, x);
            assert(lx =~= seq!['l'] + x);
            lemma_remove_char_lead('l', x);
            assert(r =~= (dash + seq![' '] + lx) + seq![' '] + at_user);
            lemma_split_sep_append(dash, lx, ' ');
            lemma_split_sep_append(dash + seq![' '] + lx, at_user, ' ');
            assert(words =~= seq![dash, lx, at_user]);
            assert(level == 1);
        },
        None => {
            assert(r =~= dash + seq![' '] + at_user);
            lemma_split_sep_append(dash, at_user, ' ');
            assert(words =~= seq![dash, at_user]);
            assert(level > 1);
        },
    }
}

/// A line of a comment's text, read in the comments.
proof fn lemma_md_step_comment_text(s: MdState, x: Seq<char>, level: nat)
    requires
        s.in_comments,
        s.comments is Some,
        level >= 1,
        s.last_comment == level,
        s.comment_by_indent.contains_key(level),
        x.len() == 0 || x[0] != ' ',
        split(x, ' ')[0] != seq!['-'],
    ensures
        md_step(s, "  "@ + comment_prefix(level) + x) == Ok::<MdState, MdError>(MdState {
            comments: Some(add_text_at(s.comments.unwrap(), s.comment_by_indent[level], x)),
            ..s
        }),
{
    lemma_comments_lit();
    lemma_comment_prefix(level);
    let sp = "  "@ + comment_prefix(level);
    assert forall|i: int| 0 <= i < sp.len() implies sp[i] == ' ' by {
        if i >= 2 {
            assert(sp[i] == comment_prefix(level)[i - 2]);
        }
    }
    lemma_spaces_then(sp, x);
    let l = sp + x;
    assert(l[0] == ' ');
    assert(l != "# Comments"@) by {
        assert(l[0] != "# Comments"@[0]);
    }
}

/// An empty line in the comments adds an empty line to the comment being read.
proof fn lemma_md_step_comment_empty(s: MdState)
    requires
        s.in_comments,
        s.comments is Some,
        s.comment_by_indent.contains_key(s.last_comment),
    ensures
        md_step(s, Seq::empty()) == Ok::<MdState, MdError>(MdState {
            comments: Some(add_text_at(s.comments.unwrap(), s.comment_by_indent[s.last_comment], Seq::empty())),
            ..s
        }),
{
    lemma_comments_lit();
    let l = Seq::<char>::empty();
    assert(l != "# Comments"@);
    assert(leading_spaces(l) == 0);
    assert(l.skip(0) =~= l);
    lemma_split_no_sep(l, ' ');
    assert(split(l, ' ')[0] != seq!['-']);
}

// ---------------------------------------------------------------------------------------------
// Comment threads
// ---------------------------------------------------------------------------------------------

/// A comment at nesting `level` (from 1) that reads back as written, with its replies: a comment
/// of the first level has a line number, one without `l` or space; a reply has none; the user has
/// no space and no `@`; the text has lines, none starting with a space or with the word `-`.
pub open spec fn thread_ok(e: ElementModel, level: nat) -> bool
    decreases e, 1int,
{
    &&& e.childs.len() < usize::MAX
    &&& match e.data {
        DataModel::Comment { line, user, text } => {
            &&& text.len() > 0
            &&& !user.contains(' ')
            &&& !user.contains('@')
            &&& if level == 1 {
                line matches Some(x) && !x.contains(' ') && !x.contains('l')
            } else {
                line is None
            }
            &&& forall|j: int| 0 <= j < text.len() ==> (#[trigger] text[j]).len() == 0 || text[j][0] != ' '
            &&& forall|j: int| 0 <= j < text.len() ==> split(#[trigger] text[j], ' ')[0] != seq!['-']
        },
        _ => false,
    }
    &&& threads_ok(e.childs, level + 1)
}

pub open spec fn threads_ok(s: Seq<ElementModel>, level: nat) -> bool
    decreases s, 0int,
{
    s.len() == 0 || (threads_ok(s.drop_last(), level) && thread_ok(s[s.len() - 1], level))
}

/// Reading in the comments: comments are being read, and `p` is a valid path of them.
pub open spec fn in_thread(s: MdState, lv: nat) -> bool {
    &&& s.in_comments
    &&& s.comments is Some
    &&& s.comment_by_indent.contains_key(lv)
    &&& valid_path(s.comments.unwrap(), s.comment_by_indent[lv])
}

proof fn lemma_text_run(s: MdState, text: Seq<Seq<char>>, level: nat, c: ElementModel, p: Seq<usize>, line: Option<Seq<char>>, user: Seq<char>, j: int)
    requires
        level >= 1,
        0 <= j <= text.len(),
        valid_path(c, p),
        node_at(c, p).childs.len() < usize::MAX,
        s.in_comments,
        s.comments == Some(push_at(c, p, leaf(DataModel::Comment { line, user, text: Seq::empty() }))),
        s.last_comment == level,
        s.comment_by_indent.contains_key(level),
        s.comment_by_indent[level] == new_child_path(c, p),
        forall|k: int| 0 <= k < text.len() ==> (#[trigger] text[k]).len() == 0 || text[k][0] != ' ',
        forall|k: int| 0 <= k < text.len() ==> split(#[trigger] text[k], ' ')[0] != seq!['-'],
    ensures
        md_run(s, comment_text_lines(text, level).take(j)) == Ok::<MdState, MdError>(MdState {
            comments: Some(push_at(c, p, leaf(DataModel::Comment { line, user, text: text.take(j) }))),
            ..s
        }),
    decreases j,
{
    let ls = comment_text_lines(text, level);
    if j == 0 {
        assert(ls.take(0) =~= Seq::<Seq<char>>::empty());
        assert(text.take(0) =~= Seq::<Seq<char>>::empty());
        assert(s == MdState { comments: Some(push_at(c, p, leaf(DataModel::Comment { line, user, text: text.take(0) }))), ..s });
    } else {
        lemma_text_run(s, text, level, c, p, line, user, j - 1);
        let m = MdState {
            comments: Some(push_at(c, p, leaf(DataModel::Comment { line, user, text: text.take(j - 1) }))),
            ..s
        };
        assert(ls.take(j).drop_last() =~= ls.take(j - 1));
        assert(ls.take(j).last() == "  "@ + comment_prefix(level) + text[j - 1]);
        assert(text[j - 1].len() == 0 || text[j - 1][0] != ' ');
        assert(split(text[j - 1], ' ')[0] != seq!['-']);
        lemma_md_step_comment_text(m, text[j - 1], level);
        lemma_text_under_new(c, p, leaf(DataModel::Comment { line, user, text: text.take(j - 1) }), text[j - 1]);
        assert(text.take(j - 1).push(text[j - 1]) =~= text.take(j));
    }
}

proof fn lemma_thread_run(e: ElementModel, level: nat, indent: nat, s: MdState)
    requires
        level >= 1,
        thread_ok(e, level),
        in_thread(s, (level - 1) as nat),
        node_at(s.comments.unwrap(), s.comment_by_indent[(level - 1) as nat]).childs.len() < usize::MAX,
    ensures
        md_run(s, elem_lines(e, level, indent)) matches Ok(t) && {
            &&& t.in_comments
            &&& t.root == s.root
            &&& t.comments == Some(push_at(s.comments.unwrap(), s.comment_by_indent[(level - 1) as nat], e))
            &&& forall|j: nat| j < level && #[trigger] s.comment_by_indent.contains_key(j) ==> t.comment_by_indent.contains_key(j)
                && t.comment_by_indent[j] == s.comment_by_indent[j]
        },
    decreases e, 1int,
{
    let c = s.comments.unwrap();
    let p = s.comment_by_indent[(level - 1) as nat];
    let (line, user, text) = match e.data {
        DataModel::Comment { line, user, text } => (line, user, text),
        _ => (None, Seq::empty(), Seq::empty()),
    };
    let head = comment_head(line, user, level);
    let tl = comment_text_lines(text, level);
    let rest = elems_lines(e.childs, level, indent);
    assert(elem_lines(e, level, indent) =~= seq![head] + tl + rest);
    lemma_md_step_comment_head(s, line, user, level);
    lemma_md_run_one(s, head);
    let np = new_child_path(c, p);
    let s1 = MdState {
        comments: Some(push_at(c, p, leaf(DataModel::Comment { line, user, text: Seq::empty() }))),
        last_comment: level,
        comment_by_indent: s.comment_by_indent.insert(level, np),
        ..s
    };
    lemma_text_run(s1, text, level, c, p, line, user, text.len() as int);
    assert(tl.take(tl.len() as int) =~= tl);
    assert(text.take(text.len() as int) =~= text);
    let n0 = leaf(DataModel::Comment { line, user, text });
    let s2 = MdState { comments: Some(push_at(c, p, n0)), ..s1 };
    lemma_md_run_append(s, seq![head], tl);
    lemma_md_run_append(s, seq![head] + tl, rest);
    lemma_push_at_paths(c, p, n0, np);
    crate::element::lemma_push_at_paths(c, p, n0, p);
    lemma_node_at_push(c, p, n0);
    assert(node_at(push_at(c, p, n0), np) == n0);
    assert(in_thread(s2, level));
    lemma_threads_run(e.childs, level, indent, s2);
    lemma_eappend_new(c, p, n0, e.childs);
    assert(e == ElementModel { data: n0.data, childs: e.childs });
    let t = md_run(s2, rest)->Ok_0;
    assert forall|j: nat| j < level && #[trigger] s.comment_by_indent.contains_key(j) implies t.comment_by_indent.contains_key(j)
        && t.comment_by_indent[j] == s.comment_by_indent[j] by {
        assert(s2.comment_by_indent.contains_key(j));
        assert(s2.comment_by_indent[j] == s.comment_by_indent[j]);
    }
}

proof fn lemma_threads_run(cs: Seq<ElementModel>, lv: nat, ci: nat, s: MdState)
    requires
        threads_ok(cs, lv + 1),
        in_thread(s, lv),
        node_at(s.comments.unwrap(), s.comment_by_indent[lv]).childs.len() + cs.len() < usize::MAX,
    ensures
        md_run(s, elems_lines(cs, lv, ci)) matches Ok(t) && {
            &&& t.in_comments
            &&& t.root == s.root
            &&& t.comments == Some(eappend(s.comments.unwrap(), s.comment_by_indent[lv], cs))
            &&& forall|j: nat| j <= lv && #[trigger] s.comment_by_indent.contains_key(j) ==> t.comment_by_indent.contains_key(j)
                && t.comment_by_indent[j] == s.comment_by_indent[j]
        },
    decreases cs, 0int,
{
    let c = s.comments.unwrap();
    let q = s.comment_by_indent[lv];
    if cs.len() == 0 {
        assert(elems_lines(cs, lv, ci) =~= Seq::<Seq<char>>::empty());
    } else {
        let d = cs.drop_last();
        let x = cs[cs.len() - 1];
        lemma_threads_run(d, lv, ci, s);
        lemma_md_run_append(s, elems_lines(d, lv, ci), elem_lines(x, lv + 1, ci));
        let t1 = md_run(s, elems_lines(d, lv, ci))->Ok_0;
        lemma_eappend_paths(c, q, d, q);
        assert(t1.comment_by_indent[lv] == q);
        assert(((lv + 1) - 1) as nat == lv);
        lemma_thread_run(x, lv + 1, ci, t1);
        assert(cs.drop_last() == d);
        assert(cs.last() == x);
        let t = md_run(t1, elem_lines(x, lv + 1, ci))->Ok_0;
        assert forall|j: nat| j <= lv && #[trigger] s.comment_by_indent.contains_key(j) implies t.comment_by_indent.contains_key(j)
            && t.comment_by_indent[j] == s.comment_by_indent[j] by {
            assert(t1.comment_by_indent.contains_key(j));
        }
    }
}

// ---------------------------------------------------------------------------------------------
// The body of a page
// ---------------------------------------------------------------------------------------------

/// A text or list element that reads back as written at indentation `i`, with all under it: a
/// text starts with neither a space nor a marker word.
pub open spec fn md_plain_ok(e: ElementModel, i: nat) -> bool
    decreases e, 1int,
{
    &&& e.childs.len() < usize::MAX
    &&& match e.data {
        DataModel::Text(t) => t.len() > 0 && t[0] != ' ' && !md_marker(split(t, ' ')[0]),
        DataModel::ListElement(_) => true,
        _ => false,
    }
    &&& md_plains_ok(e.childs, i + 1)
}

pub open spec fn md_plains_ok(s: Seq<ElementModel>, i: nat) -> bool
    decreases s, 0int,
{
    s.len() == 0 || (md_plains_ok(s.drop_last(), i) && md_plain_ok(s[s.len() - 1], i))
}

/// A `### ` title with texts and lists under it.
pub open spec fn md_sub_ok(e: ElementModel) -> bool {
    &&& e.data is Title
    &&& e.childs.len() < usize::MAX
    &&& md_plains_ok(e.childs, 0)
}

/// Under a `## ` title: texts and lists first, then `### ` titles.
pub open spec fn md_sec_ok(s: Seq<ElementModel>) -> bool
    decreases s.len(),
{
    s.len() == 0 || if s[s.len() - 1].data is Title {
        md_sub_ok(s[s.len() - 1]) && md_sec_ok(s.drop_last())
    } else {
        md_plains_ok(s, 0)
    }
}

pub open spec fn md_top_ok(e: ElementModel) -> bool {
    &&& e.data is Title
    &&& e.childs.len() < usize::MAX
    &&& md_sec_ok(e.childs)
}

/// The body of a page: texts and lists first, then `## ` titles.
pub open spec fn md_body_ok(s: Seq<ElementModel>) -> bool
    decreases s.len(),
{
    s.len() == 0 || if s[s.len() - 1].data is Title {
        md_top_ok(s[s.len() - 1]) && md_body_ok(s.drop_last())
    } else {
        md_plains_ok(s, 0)
    }
}

proof fn lemma_md_plain_run(e: ElementModel, level: nat, i: nat, s: MdState)
    requires
        md_plain_ok(e, i),
        !s.in_comments,
        s.by_indent.contains_key(i),
        valid_path(s.root, s.by_indent[i]),
        node_at(s.root, s.by_indent[i]).childs.len() < usize::MAX,
    ensures
        md_run(s, elem_lines(e, level, i)) matches Ok(t) && {
            &&& !t.in_comments
            &&& t.comments == s.comments
            &&& t.parent1 == s.parent1
            &&& t.last_comment == s.last_comment
            &&& t.root == push_at(s.root, s.by_indent[i], e)
            &&& forall|j: nat| j <= i && #[trigger] s.by_indent.contains_key(j) ==> t.by_indent.contains_key(j)
                && t.by_indent[j] == s.by_indent[j]
        },
    decreases e, 1int,
{
    let q = s.by_indent[i];
    let head = match e.data {
        DataModel::Text(t) => text_md(t, i),
        _ => list_md(e.data->ListElement_0, i),
    };
    match e.data {
        DataModel::Text(t) => {
            lemma_md_step_text(s, i, t);
        },
        _ => {
            lemma_md_step_list(s, i, e.data->ListElement_0);
        },
    }
    let rest = elems_lines(e.childs, level, i + 1);
    assert(child_indent(e.data, i) == i + 1);
    assert(elem_lines(e, level, i) =~= seq![head] + rest);
    lemma_md_run_one(s, head);
    lemma_md_run_append(s, seq![head], rest);
    let np = new_child_path(s.root, q);
    let n0 = leaf(e.data);
    let s1 = push_indented(s, i, e.data);
    assert(s1.root == push_at(s.root, q, n0));
    lemma_push_at_paths(s.root, q, n0, np);
    lemma_node_at_push(s.root, q, n0);
    lemma_md_plains_run(e.childs, level, i + 1, s1);
    lemma_eappend_new(s.root, q, n0, e.childs);
    assert(e == ElementModel { data: n0.data, childs: e.childs });
    let t = md_run(s1, rest)->Ok_0;
    assert forall|j: nat| j <= i && #[trigger] s.by_indent.contains_key(j) implies t.by_indent.contains_key(j)
        && t.by_indent[j] == s.by_indent[j] by {
        assert(s1.by_indent.contains_key(j));
        assert(s1.by_indent[j] == s.by_indent[j]);
    }
}

proof fn lemma_md_plains_run(cs: Seq<ElementModel>, lv: nat, i: nat, s: MdState)
    requires
        md_plains_ok(cs, i),
        !s.in_comments,
        s.by_indent.contains_key(i),
        valid_path(s.root, s.by_indent[i]),
        node_at(s.root, s.by_indent[i]).childs.len() + cs.len() < usize::MAX,
    ensures
        md_run(s, elems_lines(cs, lv, i)) matches Ok(t) && {
            &&& !t.in_comments
            &&& t.comments == s.comments
            &&& t.parent1 == s.parent1
            &&& t.last_comment == s.last_comment
            &&& t.root == eappend(s.root, s.by_indent[i], cs)
            &&& forall|j: nat| j <= i && #[trigger] s.by_indent.contains_key(j) ==> t.by_indent.contains_key(j)
                && t.by_indent[j] == s.by_indent[j]
        },
    decreases cs, 0int,
{
    let q = s.by_indent[i];
    if cs.len() == 0 {
        assert(elems_lines(cs, lv, i) =~= Seq::<Seq<char>>::empty());
    } else {
        let d = cs.drop_last();
        let x = cs[cs.len() - 1];
        lemma_md_plains_run(d, lv, i, s);
        lemma_md_run_append(s, elems_lines(d, lv, i), elem_lines(x, lv + 1, i));
        let t1 = md_run(s, elems_lines(d, lv, i))->Ok_0;
        lemma_eappend_paths(s.root, q, d, q);
        assert(t1.by_indent[i] == q);
        lemma_md_plain_run(x, lv + 1, i, t1);
        assert(cs.drop_last() == d);
        assert(cs.last() == x);
        let t = md_run(t1, elem_lines(x, lv + 1, i))->Ok_0;
        assert forall|j: nat| j <= i && #[trigger] s.by_indent.contains_key(j) implies t.by_indent.contains_key(j)
            && t.by_indent[j] == s.by_indent[j] by {
            assert(t1.by_indent.contains_key(j));
        }
    }
}

/// The empty line and the title line of a title, read from `s`.
proof fn lemma_md_title_head(s: MdState, h: Seq<char>, rest: Seq<Seq<char>>)
    requires
        !s.in_comments,
    ensures
        md_run(s, seq![Seq::<char>::empty(), h] + rest) == match md_step(s, h) {
            Ok(t) => md_run(t, rest),
            Err(e) => Err(e),
        },
{
    lemma_md_step_empty(s);
    lemma_md_run_one(s, Seq::empty());
    lemma_md_run_append(s, seq![Seq::<char>::empty()], seq![h]);
    assert(seq![Seq::<char>::empty()] + seq![h] =~= seq![Seq::<char>::empty(), h]);
    lemma_md_run_one(s, h);
    lemma_md_run_append(s, seq![Seq::<char>::empty(), h], rest);
}

proof fn lemma_md_sub_run(e: ElementModel, s: MdState, p: Seq<usize>)
    requires
        md_sub_ok(e),
        !s.in_comments,
        s.parent1 == Some(p),
        valid_path(s.root, p),
        node_at(s.root, p).childs.len() < usize::MAX,
    ensures
        md_run(s, elem_lines(e, 2, 0)) matches Ok(t) && {
            &&& !t.in_comments
            &&& t.comments == s.comments
            &&& t.parent1 == s.parent1
            &&& t.last_comment == s.last_comment
            &&& t.root == push_at(s.root, p, e)
        },
{
    let v = e.data->Title_0;
    let h = repeat("#"@, 3) + " "@ + v;
    let rest = elems_lines(e.childs, 2, 0);
    assert(elem_lines(e, 2, 0) =~= seq![Seq::<char>::empty(), h] + rest);
    lemma_md_title_head(s, h, rest);
    lemma_md_step_subtitle(s, v, p);
    let np = new_child_path(s.root, p);
    let n0 = leaf(DataModel::Title(v));
    let s1 = MdState { root: push_at(s.root, p, n0), by_indent: s.by_indent.insert(0, np), ..s };
    lemma_push_at_paths(s.root, p, n0, np);
    lemma_node_at_push(s.root, p, n0);
    lemma_md_plains_run(e.childs, 2, 0, s1);
    lemma_eappend_new(s.root, p, n0, e.childs);
    assert(e == ElementModel { data: n0.data, childs: e.childs });
}

proof fn lemma_md_sec_run(cs: Seq<ElementModel>, s: MdState, p: Seq<usize>)
    requires
        md_sec_ok(cs),
        !s.in_comments,
        s.parent1 == Some(p),
        s.by_indent.contains_key(0),
        s.by_indent[0] == p,
        valid_path(s.root, p),
        node_at(s.root, p).childs.len() + cs.len() < usize::MAX,
    ensures
        md_run(s, elems_lines(cs, 1, 0)) matches Ok(t) && {
            &&& !t.in_comments
            &&& t.comments == s.comments
            &&& t.parent1 == s.parent1
            &&& t.last_comment == s.last_comment
            &&& t.root == eappend(s.root, p, cs)
        },
    decreases cs.len(),
{
    if cs.len() == 0 {
        assert(elems_lines(cs, 1, 0) =~= Seq::<Seq<char>>::empty());
    } else if cs[cs.len() - 1].data is Title {
        let d = cs.drop_last();
        let x = cs[cs.len() - 1];
        lemma_md_sec_run(d, s, p);
        lemma_md_run_append(s, elems_lines(d, 1, 0), elem_lines(x, 2, 0));
        let t1 = md_run(s, elems_lines(d, 1, 0))->Ok_0;
        lemma_eappend_paths(s.root, p, d, p);
        lemma_md_sub_run(x, t1, p);
        assert(cs.drop_last() == d);
        assert(cs.last() == x);
    } else {
        lemma_md_plains_run(cs, 1, 0, s);
    }
}

proof fn lemma_md_top_run(e: ElementModel, s: MdState)
    requires
        md_top_ok(e),
        !s.in_comments,
        s.root.childs.len() < usize::MAX,
    ensures
        md_run(s, elem_lines(e, 1, 0)) matches Ok(t) && {
            &&& !t.in_comments
            &&& t.comments == s.comments
            &&& t.last_comment == s.last_comment
            &&& t.root == push_at(s.root, Seq::empty(), e)
        },
{
    let v = e.data->Title_0;
    let h = repeat("#"@, 2) + " "@ + v;
    let rest = elems_lines(e.childs, 1, 0);
    assert(elem_lines(e, 1, 0) =~= seq![Seq::<char>::empty(), h] + rest);
    lemma_md_title_head(s, h, rest);
    lemma_md_step_title(s, v);
    let z = Seq::<usize>::empty();
    let np = new_child_path(s.root, z);
    let n0 = leaf(DataModel::Title(v));
    let s1 = MdState {
        root: push_at(s.root, z, n0),
        parent1: Some(np),
        by_indent: s.by_indent.insert(0, np),
        ..s
    };
    lemma_push_at_paths(s.root, z, n0, np);
    lemma_node_at_push(s.root, z, n0);
    lemma_md_sec_run(e.childs, s1, np);
    lemma_eappend_new(s.root, z, n0, e.childs);
    assert(e == ElementModel { data: n0.data, childs: e.childs });
}

proof fn lemma_md_body_run(cs: Seq<ElementModel>, s: MdState)
    requires
        md_body_ok(cs),
        !s.in_comments,
        s.by_indent.contains_key(0),
        s.by_indent[0] == Seq::<usize>::empty(),
        s.root.childs.len() + cs.len() < usize::MAX,
    ensures
        md_run(s, elems_lines(cs, 0, 0)) matches Ok(t) && {
            &&& !t.in_comments
            &&& t.comments == s.comments
            &&& t.last_comment == s.last_comment
            &&& t.root == (ElementModel { data: s.root.data, childs: s.root.childs + cs })
        },
    decreases cs.len(),
{
    let z = Seq::<usize>::empty();
    if cs.len() == 0 {
        assert(elems_lines(cs, 0, 0) =~= Seq::<Seq<char>>::empty());
        assert(s.root.childs + cs =~= s.root.childs);
    } else if cs[cs.len() - 1].data is Title {
        let d = cs.drop_last();
        let x = cs[cs.len() - 1];
        lemma_md_body_run(d, s);
        lemma_md_run_append(s, elems_lines(d, 0, 0), elem_lines(x, 1, 0));
        let t1 = md_run(s, elems_lines(d, 0, 0))->Ok_0;
        lemma_md_top_run(x, t1);
        assert(cs.drop_last() == d);
        assert(cs.last() == x);
        assert((s.root.childs + d).push(x) =~= s.root.childs + cs);
    } else {
        lemma_md_plains_run(cs, 0, 0, s);
        lemma_eappend_root(s.root, cs);
    }
}

// ---------------------------------------------------------------------------------------------
// The law
// ---------------------------------------------------------------------------------------------

/// A page tree that its markdown describes exactly: a title other than `Comments`; a body of texts
/// and lists before `## ` titles, each with texts and lists before `### ` titles; a comment
/// section of comment threads that read back as written; no line break in any written line; and
/// no list too long to count.
pub open spec fn md_doc_ok(e: ElementModel) -> bool {
    match e.data {
        DataModel::Page { title: Some(t), comments: Some(c) } => {
            &&& t != "Comments"@
            &&& c.data == DataModel::CommentSection
            &&& md_body_ok(e.childs)
            &&& e.childs.len() < usize::MAX
            &&& threads_ok(c.childs, 1)
            &&& c.childs.len() < usize::MAX
            &&& forall|k: int| 0 <= k < elem_lines(e, 0, 0).len() ==> !(#[trigger] elem_lines(e, 0, 0)[k]).contains('\n')
        },
        _ => false,
    }
}

/// What a read gives back of a write: the markdown of a page tree that it describes exactly reads
/// back as that very tree, comments included.
pub proof fn law_md_reads_back(e: ElementModel)
    requires
        md_doc_ok(e),
    ensures
        md_page(element_md(e, 0, 0)) == Ok::<ElementModel, MdError>(e),
{
    let t = e.data->Page_title.unwrap();
    let c = *e.data->Page_comments.unwrap();
    let ls = elem_lines(e, 0, 0);
    lemma_element_md_lines(e, 0, 0);
    reveal_strlit("\n");
    assert("\n"@ == seq!['\n']);
    lemma_split_join(ls, '\n');
    lemma_md_lines_run(ls);
    let head = seq![page_md(t)];
    let body = elems_lines(e.childs, 0, 0);
    let q = if c.childs.len() == 0 {
        seq![Seq::<char>::empty()]
    } else {
        elems_lines(c.childs, 0, 0)
    };
    let z = Seq::<char>::empty();
    assert(child_indent(e.data, 0) == 0);
    assert(ls =~= head + body + seq![z, "# Comments"@] + q);
    let s = initial_state();
    lemma_md_step_page_title(s, t);
    lemma_md_run_one(s, page_md(t));
    let s0 = MdState {
        root: ElementModel { data: DataModel::Page { title: Some(t), comments: None }, childs: s.root.childs },
        ..s
    };
    lemma_md_body_run(e.childs, s0);
    lemma_md_run_append(s, head, body);
    let s1 = md_run(s0, body)->Ok_0;
    assert(s1.root.childs =~= e.childs);
    lemma_md_step_empty(s1);
    lemma_md_run_one(s1, z);
    lemma_md_step_comments(s1);
    lemma_md_run_one(s1, "# Comments"@);
    lemma_md_run_append(s1, seq![z], seq!["# Comments"@]);
    assert(seq![z] + seq!["# Comments"@] =~= seq![z, "# Comments"@]);
    lemma_md_run_append(s, head + body, seq![z, "# Comments"@]);
    let s2 = MdState {
        comments: Some(leaf(DataModel::CommentSection)),
        comment_by_indent: s1.comment_by_indent.insert(0, Seq::empty()),
        in_comments: true,
        ..s1
    };
    lemma_md_run_append(s, head + body + seq![z, "# Comments"@], q);
    if c.childs.len() == 0 {
        lemma_md_step_comment_empty(s2);
        lemma_md_run_one(s2, z);
        assert(add_text_at(leaf(DataModel::CommentSection), Seq::empty(), z) == leaf(DataModel::CommentSection));
        assert(c =~= leaf(DataModel::CommentSection)) by {
            assert(c.childs =~= Seq::<ElementModel>::empty());
        }
    } else {
        assert(in_thread(s2, 0));
        lemma_threads_run(c.childs, 0, 0, s2);
        lemma_eappend_root(leaf(DataModel::CommentSection), c.childs);
        assert(leaf(DataModel::CommentSection).childs + c.childs =~= c.childs);
    }
}

// ---------------------------------------------------------------------------------------------
// The comment section leaves the page alone
// ---------------------------------------------------------------------------------------------

/// Lines other than `# Comments`, read from the start, leave the reader outside the comments.
proof fn lemma_page_mode(ls: Seq<Seq<char>>)
    requires
        forall|i: int| 0 <= i < ls.len() ==> #[trigger] ls[i] != "# Comments"@,
    ensures
        md_run(initial_state(), ls) matches Ok(s) ==> !s.in_comments && s.comments is None,
    decreases ls.len(),
{
    if ls.len() > 0 {
        let d = ls.drop_last();
        assert forall|i: int| 0 <= i < d.len() implies #[trigger] d[i] != "# Comments"@ by {
            assert(d[i] == ls[i]);
        }
        lemma_page_mode(d);
        assert(ls.last() != "# Comments"@) by {
            assert(ls[ls.len() - 1] == ls.last());
        }
    }
}

/// Lines read in the comments never touch the page tree.
proof fn lemma_comments_keep_page(s: MdState, ls: Seq<Seq<char>>)
    requires
        s.in_comments,
        s.comments is Some,
    ensures
        md_run(s, ls) matches Ok(t) ==> t.root == s.root && t.in_comments && t.comments is Some,
    decreases ls.len(),
{
    if ls.len() > 0 {
        lemma_comments_keep_page(s, ls.drop_last());
    }
}

/// Whatever follows a `# Comments` line leaves the page's title and body as the text before it
/// gives them.
pub proof fn law_comment_lines_leave_page(a: Seq<char>, b: Seq<char>)
    requires
        forall|i: int| 0 <= i < split(a, '\n').len() ==> #[trigger] split(a, '\n')[i] != "# Comments"@,
        md_page(a + "\n# Comments\n"@ + b) is Ok,
    ensures
        md_page(a) is Ok,
        md_page(a + "\n# Comments\n"@ + b)->Ok_0.childs == md_page(a)->Ok_0.childs,
        md_page(a + "\n# Comments\n"@ + b)->Ok_0.data->Page_title == md_page(a)->Ok_0.data->Page_title,
{
    reveal_strlit("\n# Comments\n");
    reveal_strlit("# Comments");
    let cm = "# Comments"@;
    let md = a + "\n# Comments\n"@ + b;
    assert(md =~= a + seq!['\n'] + (cm + seq!['\n'] + b));
    lemma_split_concat(a, cm + seq!['\n'] + b, '\n');
    lemma_split_concat(cm, b, '\n');
    assert(!cm.contains('\n')) by {
        if cm.contains('\n') {
            let k = choose|k: int| 0 <= k < cm.len() && cm[k] == '\n';
            assert(cm[k] != '\n');
        }
    }
    lemma_split_no_sep(cm, '\n');
    let la = split(a, '\n');
    let lb = split(b, '\n');
    assert(split(md, '\n') =~= la + seq![cm] + lb);
    lemma_md_lines_run(split(md, '\n'));
    lemma_md_lines_run(la);
    let s0 = initial_state();
    lemma_md_run_append(s0, la + seq![cm], lb);
    lemma_md_run_append(s0, la, seq![cm]);
    lemma_page_mode(la);
    let s = md_run(s0, la)->Ok_0;
    lemma_md_run_one(s, cm);
    lemma_md_step_comments(s);
    let s1 = MdState {
        comments: Some(leaf(DataModel::CommentSection)),
        comment_by_indent: s.comment_by_indent.insert(0, Seq::empty()),
        in_comments: true,
        ..s
    };
    lemma_comments_keep_page(s1, lb);
}

/// Markdown in the form that writing emits reads back and writes again as the same text: for any
/// text that is the markdown of a page tree described exactly by its markdown, reading it gives a
/// tree whose markdown is that text.
pub proof fn law_md_written_form_writes_back(md: Seq<char>)
    requires
        exists|e: ElementModel| md_doc_ok(e) && #[trigger] element_md(e, 0, 0) == md,
    ensures
        md_page(md) is Ok,
        element_md(md_page(md)->Ok_0, 0, 0) == md,
{
    let e = choose|e: ElementModel| md_doc_ok(e) && #[trigger] element_md(e, 0, 0) == md;
    law_md_reads_back(e);
}

} // verus!
