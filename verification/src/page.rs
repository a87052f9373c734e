use vstd::prelude::*;
use std::collections::HashMap;
use crate::task::{Task, TaskStatus};
use crate::text::{join, join_strings, push_str, repeat, repeat_str};
use crate::to_md::indentation;

verus! {

/// A page of notes: its id, title and path, the nodes of its body and the raw text of its comments.
pub struct Page {
    pub id: u128,
    pub title: String,
    pub path: String,
    pub childs: Vec<Node>,
    pub comments: Option<String>,
}

/// A reference to a task, shown as a checkbox line.
pub struct TaskReference {
    pub id: u128,
    pub childs: Vec<Node>,
}

/// A list item.
pub struct ListItem {
    pub txt: String,
    pub childs: Vec<Node>,
}

/// A fenced code block, fences included.
pub struct CodeBlock {
    pub content: Vec<String>,
    pub childs: Vec<Node>,
}

/// A section title.
pub struct Title {
    pub value: String,
    pub childs: Vec<Node>,
}

/// A line of text.
pub struct Line {
    pub value: String,
    pub childs: Vec<Node>,
}

/// One node of a page body, of any of the five kinds.
pub enum Node {
    TaskReference(TaskReference),
    ListItem(ListItem),
    CodeBlock(CodeBlock),
    Title(Title),
    Line(Line),
}

/// What a node is, apart from the nodes under it.
pub enum KindModel {
    TaskReference(u128),
    ListItem(Seq<char>),
    CodeBlock(Seq<Seq<char>>),
    Title(Seq<char>),
    Line(Seq<char>),
}

/// The mathematical value of a node.
pub struct NodeModel {
    pub kind: KindModel,
    pub childs: Seq<NodeModel>,
}

/// The mathematical value of a page.
pub struct PageModel {
    pub id: u128,
    pub title: Seq<char>,
    pub path: Seq<char>,
    pub childs: Seq<NodeModel>,
    pub comments: Option<Seq<char>>,
}

impl Node {
    pub open spec fn childs_of(&self) -> Seq<Node> {
        match self {
            Node::TaskReference(x) => x.childs@,
            Node::ListItem(x) => x.childs@,
            Node::CodeBlock(x) => x.childs@,
            Node::Title(x) => x.childs@,
            Node::Line(x) => x.childs@,
        }
    }

    pub open spec fn kind(&self) -> KindModel {
        match self {
            Node::TaskReference(x) => KindModel::TaskReference(x.id),
            Node::ListItem(x) => KindModel::ListItem(x.txt@),
            Node::CodeBlock(x) => KindModel::CodeBlock(x.content@.map_values(|s: String| s@)),
            Node::Title(x) => KindModel::Title(x.value@),
            Node::Line(x) => KindModel::Line(x.value@),
        }
    }

    pub open spec fn model(&self) -> NodeModel
        decreases self, 1int,
    {
        NodeModel {
            kind: self.kind(),
            childs: match self {
                Node::TaskReference(x) => nodes_model(x.childs@),
                Node::ListItem(x) => nodes_model(x.childs@),
                Node::CodeBlock(x) => nodes_model(x.childs@),
                Node::Title(x) => nodes_model(x.childs@),
                Node::Line(x) => nodes_model(x.childs@),
            },
        }
    }
}

pub open spec fn nodes_model(s: Seq<Node>) -> Seq<NodeModel>
    decreases s, 0int,
{
    if s.len() == 0 {
        Seq::empty()
    } else {
        nodes_model(s.drop_last()).push(s[s.len() - 1].model())
    }
}

pub proof fn lemma_nodes_model(s: Seq<Node>)
    ensures
        nodes_model(s).len() == s.len(),
        forall|i: int| 0 <= i < s.len() ==> #[trigger] nodes_model(s)[i] == s[i].model(),
    decreases s.len(),
{
    if s.len() > 0 {
        lemma_nodes_model(s.drop_last());
    }
}

pub proof fn lemma_nodes_model_push(s: Seq<Node>, x: Node)
    ensures
        nodes_model(s.push(x)) == nodes_model(s).push(x.model()),
{
    assert(s.push(x).drop_last() =~= s);
}

pub proof fn lemma_nodes_model_update(s: Seq<Node>, j: int, x: Node)
    requires
        0 <= j < s.len(),
    ensures
        nodes_model(s.update(j, x)) == nodes_model(s).update(j, x.model()),
{
    lemma_nodes_model(s);
    lemma_nodes_model(s.update(j, x));
    assert(nodes_model(s.update(j, x)) =~= nodes_model(s).update(j, x.model()));
}

impl Page {
    pub open spec fn model(&self) -> PageModel {
        PageModel {
            id: self.id,
            title: self.title@,
            path: self.path@,
            childs: nodes_model(self.childs@),
            comments: match self.comments {
                Some(c) => Some(c@),
                None => None,
            },
        }
    }
}

} // verus!

verus! {

/// The checkbox mark of a task status.
pub open spec fn status_mark(s: TaskStatus) -> Seq<char> {
    match s {
        TaskStatus::Done => "x"@,
        TaskStatus::New => " "@,
    }
}

/// The markdown of a node and the nodes under it.
pub open spec fn node_md(n: NodeModel, depth: nat, indent: nat, tasks: Map<u128, Task>) -> Seq<char>
    decreases n, 1int,
{
    match n.kind {
        KindModel::TaskReference(id) => join(
            seq![indentation(indent) + "- ["@ + status_mark(tasks[id].status) + "] "@ + tasks[id].title@]
                + nodes_md(n.childs, depth + 1, indent + 1, tasks),
            "\n"@,
        ),
        KindModel::CodeBlock(content) => join(content, "\n"@),
        KindModel::Line(v) => join(
            seq![indentation(indent) + v] + nodes_md(n.childs, depth + 1, indent + 1, tasks),
            "\n"@,
        ),
        KindModel::ListItem(t) => join(
            seq![indentation(indent) + "- "@ + t] + nodes_md(n.childs, depth + 1, indent + 1, tasks),
            "\n"@,
        ),
        KindModel::Title(v) => join(
            seq![Seq::empty(), repeat("#"@, depth + 1) + " "@ + v] + nodes_md(n.childs, depth + 1, 0, tasks),
            "\n"@,
        ),
    }
}

/// The markdown of each of sibling nodes.
pub open spec fn nodes_md(s: Seq<NodeModel>, depth: nat, indent: nat, tasks: Map<u128, Task>) -> Seq<Seq<char>>
    decreases s, 0int,
{
    if s.len() == 0 {
        Seq::empty()
    } else {
        nodes_md(s.drop_last(), depth, indent, tasks).push(node_md(s[s.len() - 1], depth, indent, tasks))
    }
}

/// The markdown of a page: its title, its body and its comments.
pub open spec fn page_md(p: PageModel, depth: nat, tasks: Map<u128, Task>) -> Seq<char> {
    join(
        seq!["# "@ + p.title] + nodes_md(p.childs, depth + 1, 0, tasks) + seq![Seq::<char>::empty()]
            + match p.comments {
            Some(c) => seq!["## Comments"@, c],
            None => Seq::empty(),
        },
        "\n"@,
    )
}

/// Every task that a rendered node refers to is in `tasks`.
pub open spec fn node_refs_known(n: NodeModel, tasks: Map<u128, Task>) -> bool
    decreases n, 1int,
{
    match n.kind {
        KindModel::CodeBlock(_) => true,
        KindModel::TaskReference(id) => tasks.contains_key(id) && nodes_refs_known(n.childs, tasks),
        _ => nodes_refs_known(n.childs, tasks),
    }
}

pub open spec fn nodes_refs_known(s: Seq<NodeModel>, tasks: Map<u128, Task>) -> bool
    decreases s, 0int,
{
    if s.len() == 0 {
        true
    } else {
        nodes_refs_known(s.drop_last(), tasks) && node_refs_known(s[s.len() - 1], tasks)
    }
}

/// Depth of a node's tree.
pub open spec fn node_height(n: NodeModel) -> nat
    decreases n, 1int,
{
    1 + nodes_height(n.childs)
}

pub open spec fn nodes_height(s: Seq<NodeModel>) -> nat
    decreases s, 0int,
{
    if s.len() == 0 {
        0
    } else {
        let a = nodes_height(s.drop_last());
        let b = node_height(s[s.len() - 1]);
        if a > b { a } else { b }
    }
}

proof fn lemma_nodes_facts(s: Seq<NodeModel>, i: int, tasks: Map<u128, Task>)
    requires
        0 <= i < s.len(),
    ensures
        node_height(s[i]) <= nodes_height(s),
        nodes_refs_known(s, tasks) ==> node_refs_known(s[i], tasks),
    decreases s.len(),
{
    if i < s.len() - 1 {
        lemma_nodes_facts(s.drop_last(), i, tasks);
    }
}

/// Renders each of `childs` one after the other.
fn nodes_to_md(childs: &Vec<Node>, depth: usize, indent: usize, tasks: &HashMap<u128, Task>) -> (r: Vec<String>)
    requires
        nodes_refs_known(nodes_model(childs@), tasks@),
        depth + nodes_height(nodes_model(childs@)) < usize::MAX,
        indent + nodes_height(nodes_model(childs@)) < usize::MAX,
    ensures
        r@.map_values(|s: String| s@) == nodes_md(nodes_model(childs@), depth as nat, indent as nat, tasks@),
    decreases childs@, 0int,
{
    let ghost ms = nodes_model(childs@);
    proof {
        lemma_nodes_model(childs@);
    }
    let mut parts: Vec<String> = Vec::new();
    let mut i: usize = 0;
    while i < childs.len()
        invariant
            i <= childs.len(),
            ms == nodes_model(childs@),
            ms.len() == childs.len(),
            forall|j: int| 0 <= j < childs.len() ==> #[trigger] ms[j] == childs@[j].model(),
            nodes_refs_known(ms, tasks@),
            depth + nodes_height(ms) < usize::MAX,
            indent + nodes_height(ms) < usize::MAX,
            parts@.map_values(|p: String| p@) == nodes_md(ms.take(i as int), depth as nat, indent as nat, tasks@),
        decreases childs.len() - i,
    {
        proof {
            lemma_nodes_facts(ms, i as int, tasks@);
            assert(decreases_to!(childs@ => childs@[i as int]));
        }
        let p = childs[i].to_md(depth, indent, tasks);
        let ghost old_parts = parts@;
        assert(ms.take(i + 1).drop_last() =~= ms.take(i as int));
        parts.push(p);
        assert(parts@.map_values(|p: String| p@) =~= old_parts.map_values(|p: String| p@).push(p@));
        i = i + 1;
    }
    assert(ms.take(i as int) =~= ms);
    parts
}

/// The strings of `head` followed by those of `rest`, joined with newlines.
fn join_lines(head: Vec<String>, rest: Vec<String>) -> (r: String)
    ensures
        r@ == join(head@.map_values(|s: String| s@) + rest@.map_values(|s: String| s@), "\n"@),
{
    let mut all = head;
    let ghost h = all@;
    let mut rest = rest;
    let ghost rs = rest@;
    all.append(&mut rest);
    assert(all@.map_values(|s: String| s@) =~= h.map_values(|s: String| s@) + rs.map_values(|s: String| s@));
    join_strings(&all, "\n")
}

fn task_line(indent: usize, t: &Task) -> (r: String)
    ensures
        r@ == indentation(indent as nat) + "- ["@ + status_mark(t.status) + "] "@ + t.title@,
{
    let mut r = repeat_str("    ", indent);
    push_str(&mut r, "- [");
    match t.status {
        TaskStatus::Done => push_str(&mut r, "x"),
        TaskStatus::New => push_str(&mut r, " "),
    }
    push_str(&mut r, "] ");
    push_str(&mut r, t.title.as_str());
    r
}

fn prefixed(prefix: String, s: &String) -> (r: String)
    ensures
        r@ == prefix@ + s@,
{
    let mut r = prefix;
    push_str(&mut r, s.as_str());
    r
}

proof fn lemma_single(s: String)
    ensures
        seq![s].map_values(|x: String| x@) == seq![s@],
{
    assert(seq![s].map_values(|x: String| x@) =~= seq![s@]);
}

/// The model of a node of the given kind with the given nodes under it.
pub open spec fn node_of(kind: KindModel, childs: Seq<Node>) -> NodeModel {
    NodeModel { kind, childs: nodes_model(childs) }
}

/// What rendering a node needs: known tasks and room for its depth.
pub open spec fn node_md_ok(n: NodeModel, depth: nat, indent: nat, tasks: Map<u128, Task>) -> bool {
    &&& node_refs_known(n, tasks)
    &&& depth + node_height(n) < usize::MAX
    &&& indent + node_height(n) < usize::MAX
}

fn render_lines(line: String, rest: Vec<String>) -> (r: String)
    ensures
        r@ == join(seq![line@] + rest@.map_values(|s: String| s@), "\n"@),
{
    let mut head: Vec<String> = Vec::new();
    proof { lemma_single(line); }
    head.push(line);
    join_lines(head, rest)
}

impl TaskReference {
    fn render_md(&self, depth: usize, indent: usize, tasks: &HashMap<u128, Task>) -> (r: String)
        requires
            node_md_ok(node_of(KindModel::TaskReference(self.id), self.childs@), depth as nat, indent as nat, tasks@),
        ensures
            r@ == node_md(node_of(KindModel::TaskReference(self.id), self.childs@), depth as nat, indent as nat, tasks@),
        decreases self, 1int,
    {
        let task = match tasks.get(&self.id) {
            Some(t) => t,
            None => {
                assert(false);
                return String::new();
            },
        };
        let line = task_line(indent, task);
        let rest = nodes_to_md(&self.childs, depth + 1, indent + 1, tasks);
        render_lines(line, rest)
    }
}

impl CodeBlock {
    fn render_md(&self) -> (r: String)
        ensures
            r@ == join(self.content@.map_values(|s: String| s@), "\n"@),
    {
        join_strings(&self.content, "\n")
    }
}

impl Line {
    fn render_md(&self, depth: usize, indent: usize, tasks: &HashMap<u128, Task>) -> (r: String)
        requires
            node_md_ok(node_of(KindModel::Line(self.value@), self.childs@), depth as nat, indent as nat, tasks@),
        ensures
            r@ == node_md(node_of(KindModel::Line(self.value@), self.childs@), depth as nat, indent as nat, tasks@),
        decreases self, 1int,
    {
        let line = prefixed(repeat_str("    ", indent), &self.value);
        let rest = nodes_to_md(&self.childs, depth + 1, indent + 1, tasks);
        render_lines(line, rest)
    }
}

impl ListItem {
    fn render_md(&self, depth: usize, indent: usize, tasks: &HashMap<u128, Task>) -> (r: String)
        requires
            node_md_ok(node_of(KindModel::ListItem(self.txt@), self.childs@), depth as nat, indent as nat, tasks@),
        ensures
            r@ == node_md(node_of(KindModel::ListItem(self.txt@), self.childs@), depth as nat, indent as nat, tasks@),
        decreases self, 1int,
    {
        let mut p = repeat_str("    ", indent);
        push_str(&mut p, "- ");
        let line = prefixed(p, &self.txt);
        let rest = nodes_to_md(&self.childs, depth + 1, indent + 1, tasks);
        render_lines(line, rest)
    }
}

impl Title {
    fn render_md(&self, depth: usize, indent: usize, tasks: &HashMap<u128, Task>) -> (r: String)
        requires
            node_md_ok(node_of(KindModel::Title(self.value@), self.childs@), depth as nat, indent as nat, tasks@),
        ensures
            r@ == node_md(node_of(KindModel::Title(self.value@), self.childs@), depth as nat, indent as nat, tasks@),
        decreases self, 1int,
    {
        let mut p = repeat_str("#", depth + 1);
        push_str(&mut p, " ");
        let line = prefixed(p, &self.value);
        let rest = nodes_to_md(&self.childs, depth + 1, 0, tasks);
        let mut head: Vec<String> = Vec::new();
        head.push(String::new());
        head.push(line);
        assert(head@.map_values(|s: String| s@) =~= seq![Seq::<char>::empty(), line@]);
        join_lines(head, rest)
    }
}

impl Node {
    /// The markdown of this node and the nodes under it.
    pub fn to_md(&self, depth: usize, indent: usize, tasks: &HashMap<u128, Task>) -> (r: String)
        requires
            node_md_ok(self.model(), depth as nat, indent as nat, tasks@),
        ensures
            r@ == node_md(self.model(), depth as nat, indent as nat, tasks@),
        decreases self, 2int,
    {
        match self {
            Node::TaskReference(x) => x.render_md(depth, indent, tasks),
            Node::CodeBlock(x) => x.render_md(),
            Node::Line(x) => x.render_md(depth, indent, tasks),
            Node::ListItem(x) => x.render_md(depth, indent, tasks),
            Node::Title(x) => x.render_md(depth, indent, tasks),
        }
    }
}

} // verus!

verus! {

/// What a page body is made of: each kind of node, and the page itself, takes children and renders to markdown.
pub trait Element {
    /// The models of the nodes directly under this one.
    spec fn children(&self) -> Seq<NodeModel>;

    /// What rendering needs: the tasks referred to are known, and depth and indentation fit.
    spec fn md_ok(&self, depth: nat, indent: nat, tasks: Map<u128, Task>) -> bool;

    /// The markdown of this element and everything under it.
    spec fn md(&self, depth: nat, indent: nat, tasks: Map<u128, Task>) -> Seq<char>;

    /// Appends a child and returns its index among the children.
    fn add_child(&mut self, child: Node) -> (i: usize)
        ensures
            final(self).children() == old(self).children().push(child.model()),
            i == old(self).children().len(),
    ;

    fn to_md(&self, depth: usize, indent: usize, tasks: &HashMap<u128, Task>) -> (r: String)
        requires
            self.md_ok(depth as nat, indent as nat, tasks@),
        ensures
            r@ == self.md(depth as nat, indent as nat, tasks@),
    ;
}

fn push_node(childs: &mut Vec<Node>, child: Node) -> (i: usize)
    ensures
        nodes_model(final(childs)@) == nodes_model(old(childs)@).push(child.model()),
        i == old(childs)@.len(),
        i == nodes_model(old(childs)@).len(),
{
    proof {
        lemma_nodes_model_push(childs@, child);
        lemma_nodes_model(childs@);
    }
    childs.push(child);
    childs.len() - 1
}

impl Element for TaskReference {
    open spec fn children(&self) -> Seq<NodeModel> {
        nodes_model(self.childs@)
    }

    open spec fn md_ok(&self, depth: nat, indent: nat, tasks: Map<u128, Task>) -> bool {
        node_md_ok(node_of(KindModel::TaskReference(self.id), self.childs@), depth, indent, tasks)
    }

    open spec fn md(&self, depth: nat, indent: nat, tasks: Map<u128, Task>) -> Seq<char> {
        node_md(node_of(KindModel::TaskReference(self.id), self.childs@), depth, indent, tasks)
    }

    fn add_child(&mut self, child: Node) -> (i: usize) {
        push_node(&mut self.childs, child)
    }

    fn to_md(&self, depth: usize, indent: usize, tasks: &HashMap<u128, Task>) -> (r: String) {
        self.render_md(depth, indent, tasks)
    }
}

impl Element for CodeBlock {
    open spec fn children(&self) -> Seq<NodeModel> {
        nodes_model(self.childs@)
    }

    open spec fn md_ok(&self, depth: nat, indent: nat, tasks: Map<u128, Task>) -> bool {
        true
    }

    open spec fn md(&self, depth: nat, indent: nat, tasks: Map<u128, Task>) -> Seq<char> {
        join(self.content@.map_values(|s: String| s@), "\n"@)
    }

    fn add_child(&mut self, child: Node) -> (i: usize) {
        push_node(&mut self.childs, child)
    }

    fn to_md(&self, depth: usize, indent: usize, tasks: &HashMap<u128, Task>) -> (r: String) {
        self.render_md()
    }
}

impl Element for Line {
    open spec fn children(&self) -> Seq<NodeModel> {
        nodes_model(self.childs@)
    }

    open spec fn md_ok(&self, depth: nat, indent: nat, tasks: Map<u128, Task>) -> bool {
        node_md_ok(node_of(KindModel::Line(self.value@), self.childs@), depth, indent, tasks)
    }

    open spec fn md(&self, depth: nat, indent: nat, tasks: Map<u128, Task>) -> Seq<char> {
        node_md(node_of(KindModel::Line(self.value@), self.childs@), depth, indent, tasks)
    }

    fn add_child(&mut self, child: Node) -> (i: usize) {
        push_node(&mut self.childs, child)
    }

    fn to_md(&self, depth: usize, indent: usize, tasks: &HashMap<u128, Task>) -> (r: String) {
        self.render_md(depth, indent, tasks)
    }
}

impl Element for ListItem {
    open spec fn children(&self) -> Seq<NodeModel> {
        nodes_model(self.childs@)
    }

    open spec fn md_ok(&self, depth: nat, indent: nat, tasks: Map<u128, Task>) -> bool {
        node_md_ok(node_of(KindModel::ListItem(self.txt@), self.childs@), depth, indent, tasks)
    }

    open spec fn md(&self, depth: nat, indent: nat, tasks: Map<u128, Task>) -> Seq<char> {
        node_md(node_of(KindModel::ListItem(self.txt@), self.childs@), depth, indent, tasks)
    }

    fn add_child(&mut self, child: Node) -> (i: usize) {
        push_node(&mut self.childs, child)
    }

    fn to_md(&self, depth: usize, indent: usize, tasks: &HashMap<u128, Task>) -> (r: String) {
        self.render_md(depth, indent, tasks)
    }
}

impl Element for Title {
    open spec fn children(&self) -> Seq<NodeModel> {
        nodes_model(self.childs@)
    }

    open spec fn md_ok(&self, depth: nat, indent: nat, tasks: Map<u128, Task>) -> bool {
        node_md_ok(node_of(KindModel::Title(self.value@), self.childs@), depth, indent, tasks)
    }

    open spec fn md(&self, depth: nat, indent: nat, tasks: Map<u128, Task>) -> Seq<char> {
        node_md(node_of(KindModel::Title(self.value@), self.childs@), depth, indent, tasks)
    }

    fn add_child(&mut self, child: Node) -> (i: usize) {
        push_node(&mut self.childs, child)
    }

    fn to_md(&self, depth: usize, indent: usize, tasks: &HashMap<u128, Task>) -> (r: String) {
        self.render_md(depth, indent, tasks)
    }
}

impl Element for Page {
    open spec fn children(&self) -> Seq<NodeModel> {
        nodes_model(self.childs@)
    }

    open spec fn md_ok(&self, depth: nat, indent: nat, tasks: Map<u128, Task>) -> bool {
        &&& nodes_refs_known(nodes_model(self.childs@), tasks)
        &&& depth + 1 + nodes_height(nodes_model(self.childs@)) < usize::MAX
    }

    open spec fn md(&self, depth: nat, indent: nat, tasks: Map<u128, Task>) -> Seq<char> {
        page_md(self.model(), depth, tasks)
    }

    fn add_child(&mut self, child: Node) -> (i: usize) {
        push_node(&mut self.childs, child)
    }

    /// The page as markdown: `# ` and the title, the body, an empty line and, if any, the comments.
    fn to_md(&self, depth: usize, indent: usize, tasks: &HashMap<u128, Task>) -> (r: String) {
        let mut head: Vec<String> = Vec::new();
        let mut first = String::new();
        push_str(&mut first, "# ");
        push_str(&mut first, self.title.as_str());
        head.push(first);
        let ghost h0 = head@;
        let mut body = nodes_to_md(&self.childs, depth + 1, 0, tasks);
        let ghost b = body@;
        head.append(&mut body);
        head.push(String::new());
        let ghost h1 = head@;
        match &self.comments {
            Some(c) => {
                let mut t = String::new();
                push_str(&mut t, "## Comments");
                head.push(t);
                let mut cc = String::new();
                push_str(&mut cc, c.as_str());
                head.push(cc);
            },
            None => {},
        }
        assert(head@.map_values(|s: String| s@) =~= seq!["# "@ + self.title@] + nodes_md(
            nodes_model(self.childs@),
            depth as nat + 1,
            0,
            tasks@,
        ) + seq![Seq::<char>::empty()] + match self.model().comments {
            Some(c) => seq!["## Comments"@, c],
            None => Seq::empty(),
        });
        join_strings(&head, "\n")
    }
}

} // verus!

verus! {

proof fn lemma_nodes_height_below(s: Seq<NodeModel>, limit: nat)
    ensures
        nodes_height(s) < limit <==> (0 < limit && forall|i: int| 0 <= i < s.len() ==> #[trigger] node_height(s[i]) < limit),
    decreases s.len(),
{
    if s.len() > 0 {
        let d = s.drop_last();
        lemma_nodes_height_below(d, limit);
        assert forall|i: int| 0 <= i < d.len() implies #[trigger] d[i] == s[i] by {}
        if 0 < limit && forall|i: int| 0 <= i < s.len() ==> #[trigger] node_height(s[i]) < limit {
            assert(node_height(s[s.len() - 1]) < limit);
            assert forall|i: int| 0 <= i < d.len() implies #[trigger] node_height(d[i]) < limit by {
                assert(node_height(s[i]) < limit);
            }
        }
        if nodes_height(s) < limit {
            assert forall|i: int| 0 <= i < s.len() implies #[trigger] node_height(s[i]) < limit by {
                if i < d.len() {
                    assert(node_height(d[i]) < limit);
                }
            }
        }
    }
}

impl Node {
    /// The nodes directly under this one.
    pub fn childs(&self) -> (r: &Vec<Node>)
        ensures
            r@ == self.childs_of(),
            nodes_model(r@) == self.model().childs,
    {
        match self {
            Node::TaskReference(x) => &x.childs,
            Node::ListItem(x) => &x.childs,
            Node::CodeBlock(x) => &x.childs,
            Node::Title(x) => &x.childs,
            Node::Line(x) => &x.childs,
        }
    }
}

/// Whether the trees of `childs` are less than `limit` deep.
pub fn nodes_height_below(childs: &Vec<Node>, limit: usize) -> (b: bool)
    ensures
        b == (nodes_height(nodes_model(childs@)) < limit),
    decreases childs@, 0int,
{
    let ghost ms = nodes_model(childs@);
    proof {
        lemma_nodes_model(childs@);
        lemma_nodes_height_below(ms, limit as nat);
    }
    if limit == 0 {
        return false;
    }
    let mut i: usize = 0;
    while i < childs.len()
        invariant
            i <= childs.len(),
            0 < limit,
            ms == nodes_model(childs@),
            ms.len() == childs.len(),
            forall|j: int| 0 <= j < childs.len() ==> #[trigger] ms[j] == childs@[j].model(),
            forall|j: int| 0 <= j < i ==> #[trigger] node_height(ms[j]) < limit,
        decreases childs.len() - i,
    {
        assert(decreases_to!(childs@ => childs@[i as int]));
        let below = nodes_height_below(childs[i].childs(), limit - 1);
        assert(node_height(ms[i as int]) == 1 + nodes_height(ms[i as int].childs));
        if !below {
            assert(node_height(ms[i as int]) >= limit);
            proof {
                lemma_nodes_height_below(ms, limit as nat);
            }
            return false;
        }
        i = i + 1;
    }
    true
}

} // verus!
