use vstd::prelude::*;
use std::collections::HashMap;
use crate::page::{node_refs_known, nodes_model, nodes_refs_known, Element, NodeModel, Page};
use crate::page_parse::{
    all_refs_below, find_from, find_in, insert_tasks, lemma_find_from, note_page, note_page_model,
    refs_below, subst_node, subst_nodes, try_from_md, NoteError,
};
use crate::task::{is_v4_id, new_id, tasks_model, Task};
use crate::text::{chars_of, push_str, split, split_ranges, string_of};

verus! {

/// `s` with every occurrence of `pat`, found from left to right, taken out.
pub open spec fn remove_all(s: Seq<char>, pat: Seq<char>) -> Seq<char>
    decreases s.len(),
{
    if pat.len() == 0 {
        s
    } else {
        match find_from(s, pat, 0) {
            None => s,
            Some(i) => {
                proof {
                    lemma_find_from(s, pat, 0);
                }
                s.take(i) + remove_all(s.skip(i + pat.len()), pat)
            },
        }
    }
}

/// `s` with every occurrence of `pat` taken out, as `str::replace` with an empty replacement gives it.
pub fn remove_all_str(s: &str, pat: &str) -> (r: String)
    ensures
        r@ == remove_all(s@, pat@),
{
    let v = chars_of(s);
    let p = chars_of(pat);
    if p.len() == 0 {
        return string_of(&v, 0, v.len());
    }
    let mut r = String::new();
    let mut pos: usize = 0;
    assert(v@.skip(0) =~= v@);
    while pos < v.len()
        invariant
            pos <= v.len(),
            p@ == pat@,
            p.len() > 0,
            v@ == s@,
            r@ + remove_all(v@.skip(pos as int), p@) == remove_all(s@, pat@),
        decreases v.len() - pos,
    {
        assert(v@.subrange(pos as int, v.len() as int) =~= v@.skip(pos as int));
        match find_in(&v, pos, v.len(), &p) {
            None => {
                let rest = string_of(&v, pos, v.len());
                push_str(&mut r, rest.as_str());
                assert(r@ == remove_all(s@, pat@));
                return r;
            },
            Some(i) => {
                proof {
                    lemma_find_from(v@.skip(pos as int), p@, 0);
                }
                let before = string_of(&v, pos, pos + i);
                assert(before@ =~= v@.skip(pos as int).take(i as int));
                push_str(&mut r, before.as_str());
                assert(v@.skip(pos as int).skip(i + p@.len()) =~= v@.skip(pos + i + p.len()));
                pos = pos + i + p.len();
            },
        }
    }
    assert(v@.skip(pos as int) =~= Seq::<char>::empty());
    r
}

/// What identifies an organization outside: its id, its name and its text id.
pub struct OrganizationSettings {
    pub id: u128,
    pub name: String,
    pub id_txt: String,
}

/// An organization: its id and names, its pages by id, and the tasks of all its pages by id.
pub struct Organization {
    pub id: u128,
    pub id_txt: String,
    pub name: String,
    pub pages: HashMap<u128, Page>,
    pub tasks: HashMap<u128, Task>,
}

/// The name of an organization whose directory is `path`: the part after the last `/`.
pub open spec fn org_name(path: Seq<char>) -> Seq<char> {
    split(path, '/').last()
}

impl Organization {
    /// Each page is kept under its own id, and every task a page refers to is known.
    pub open spec fn wf(&self) -> bool {
        forall|k: u128| #[trigger] self.pages@.contains_key(k) ==> {
            &&& self.pages@[k].id == k
            &&& nodes_refs_known(nodes_model(self.pages@[k].childs@), self.tasks@)
        }
    }

    /// A new organization for the directory `path`, with a fresh id and no pages yet.
    pub fn new(path: &str) -> (org: Organization)
        ensures
            org.wf(),
            org.name@ == org_name(path@),
            org.id_txt@ == org_name(path@),
            is_v4_id(org.id),
            org.pages@ == Map::<u128, Page>::empty(),
            org.tasks@ == Map::<u128, Task>::empty(),
    {
        let v = chars_of(path);
        let parts = split_ranges(&v, 0, v.len(), '/');
        assert(v@.subrange(0, v.len() as int) =~= path@);
        let n = parts.len() - 1;
        let name = string_of(&v, parts[n].0, parts[n].1);
        let id_txt = string_of(&v, parts[n].0, parts[n].1);
        Organization { id: new_id(), id_txt, name, pages: HashMap::new(), tasks: HashMap::new() }
    }

    pub fn settings(&self) -> (s: OrganizationSettings)
        ensures
            s.id == self.id,
            s.name@ == self.name@,
            s.id_txt@ == self.id_txt@,
    {
        OrganizationSettings { id: self.id, name: self.name.clone(), id_txt: self.id_txt.clone() }
    }
}

} // verus!

verus! {

proof fn lemma_refs_known_mono(n: NodeModel, m1: Map<u128, Task>, m2: Map<u128, Task>)
    requires
        node_refs_known(n, m1),
        forall|k: u128| m1.contains_key(k) ==> #[trigger] m2.contains_key(k),
    ensures
        node_refs_known(n, m2),
    decreases n, 1int,
{
    if !(n.kind is CodeBlock) {
        lemma_all_refs_known_mono(n.childs, m1, m2);
    }
}

proof fn lemma_all_refs_known_mono(s: Seq<NodeModel>, m1: Map<u128, Task>, m2: Map<u128, Task>)
    requires
        nodes_refs_known(s, m1),
        forall|k: u128| m1.contains_key(k) ==> #[trigger] m2.contains_key(k),
    ensures
        nodes_refs_known(s, m2),
    decreases s, 0int,
{
    if s.len() > 0 {
        lemma_all_refs_known_mono(s.drop_last(), m1, m2);
        lemma_refs_known_mono(s[s.len() - 1], m1, m2);
    }
}

proof fn lemma_subst_refs_known(n: NodeModel, ids: Seq<u128>, bound: nat, m: Map<u128, Task>)
    requires
        refs_below(n, bound),
        forall|i: int| 0 <= i < bound ==> m.contains_key(#[trigger] ids[i]),
    ensures
        node_refs_known(subst_node(n, ids), m),
    decreases n, 1int,
{
    lemma_subst_all_refs_known(n.childs, ids, bound, m);
}

proof fn lemma_subst_all_refs_known(s: Seq<NodeModel>, ids: Seq<u128>, bound: nat, m: Map<u128, Task>)
    requires
        all_refs_below(s, bound),
        forall|i: int| 0 <= i < bound ==> m.contains_key(#[trigger] ids[i]),
    ensures
        nodes_refs_known(subst_nodes(s, ids), m),
    decreases s, 0int,
{
    if s.len() > 0 {
        lemma_subst_all_refs_known(s.drop_last(), ids, bound, m);
        lemma_subst_refs_known(s[s.len() - 1], ids, bound, m);
        let t = subst_nodes(s, ids);
        assert(t.drop_last() =~= subst_nodes(s.drop_last(), ids));
        assert(t[t.len() - 1] == subst_node(s[s.len() - 1], ids));
    }
}

impl Organization {
    /// Reads the note at `path_long` (a file under the organization's directory `org_path`), whose
    /// text is `page_md`, into a page with a fresh id, and adds it and its tasks; returns the page's
    /// id, or why the note cannot be read, leaving the organization as it was. The page's path is
    /// `path_long` without `org_path` and without `.md`.
    pub fn add_page(&mut self, path_long: &str, org_path: &str, page_md: &str) -> (r: Result<u128, NoteError>)
        requires
            old(self).wf(),
        ensures
            final(self).wf(),
            final(self).id == old(self).id,
            final(self).name == old(self).name,
            final(self).id_txt == old(self).id_txt,
            match note_page(page_md@) {
                Ok((_, _, _, found)) => r matches Ok(id) && {
                    &&& final(self).pages@ == old(self).pages@.insert(id, final(self).pages@[id])
                    &&& is_v4_id(id)
                    &&& exists|ids: Seq<u128>| {
                        &&& ids.len() == found.len()
                        &&& forall|i: int| 0 <= i < ids.len() ==> is_v4_id(#[trigger] ids[i])
                        &&& final(self).pages@[id].model() == note_page_model(
                            page_md@,
                            id,
                            remove_all(remove_all(path_long@, org_path@), ".md"@),
                            ids,
                        )
                        &&& tasks_model(final(self).tasks@) == insert_tasks(tasks_model(old(self).tasks@), found, ids)
                    }
                },
                Err(e) => r == Err::<u128, NoteError>(e) && final(self).pages@ == old(self).pages@
                    && final(self).tasks@ == old(self).tasks@,
            },
    {
        let short0 = remove_all_str(path_long, org_path);
        let short = remove_all_str(short0.as_str(), ".md");
        let ghost old_tasks = self.tasks@;
        let ghost old_pages = self.pages@;
        let res = try_from_md(page_md, short, &mut self.tasks);
        proof {
            assert forall|k: u128| #[trigger] self.pages@.contains_key(k) implies nodes_refs_known(
                nodes_model(self.pages@[k].childs@),
                self.tasks@,
            ) by {
                lemma_all_refs_known_mono(nodes_model(self.pages@[k].childs@), old_tasks, self.tasks@);
            }
        }
        match res {
            Err(e) => Err(e),
            Ok(page) => {
                let id = page.id;
                proof {
                    let (t, childs, c, found) = note_page(page_md@)->Ok_0;
                    let ids = choose|ids: Seq<u128>| {
                        &&& ids.len() == found.len()
                        &&& forall|i: int| 0 <= i < ids.len() ==> is_v4_id(#[trigger] ids[i])
                        &&& page.model() == note_page_model(page_md@, page.id, short@, ids)
                        &&& tasks_model(self.tasks@) == insert_tasks(tasks_model(old_tasks), found, ids)
                    };
                    crate::page_parse::lemma_insert_tasks_keys(tasks_model(old_tasks), found, ids);
                    assert forall|i: int| 0 <= i < found.len() implies self.tasks@.contains_key(#[trigger] ids[i]) by {
                        assert(tasks_model(self.tasks@).contains_key(ids[i]));
                    }
                    lemma_subst_all_refs_known(childs, ids, found.len(), self.tasks@);
                }
                self.pages.insert(id, page);
                Ok(id)
            },
        }
    }
}

} // verus!

verus! {

impl Organization {
    /// Where the organization's settings go under the export directory `path`.
    pub fn settings_dir(&self, path: &str) -> (r: String)
        ensures
            r@ == path@ + "/"@ + self.name@ + "/settings/"@,
    {
        let mut r = String::new();
        push_str(&mut r, path);
        push_str(&mut r, "/");
        push_str(&mut r, self.name.as_str());
        push_str(&mut r, "/settings/");
        r
    }

    /// The file of the organization's settings under the export directory `path`.
    pub fn settings_file(&self, path: &str) -> (r: String)
        ensures
            r@ == path@ + "/"@ + self.name@ + "/settings/organization.json"@,
    {
        let mut r = String::new();
        push_str(&mut r, path);
        push_str(&mut r, "/");
        push_str(&mut r, self.name.as_str());
        push_str(&mut r, "/settings/organization.json");
        r
    }

    /// The file of a page, with the extension `ext`, under the export directory `path`.
    pub fn page_file(&self, path: &str, page: &Page, ext: &str) -> (r: String)
        ensures
            r@ == path@ + "/"@ + self.name@ + "/"@ + page.path@ + "."@ + ext@,
    {
        let mut r = String::new();
        push_str(&mut r, path);
        push_str(&mut r, "/");
        push_str(&mut r, self.name.as_str());
        push_str(&mut r, "/");
        push_str(&mut r, page.path.as_str());
        push_str(&mut r, ".");
        push_str(&mut r, ext);
        r
    }

    /// The markdown of one of the organization's pages, with its tasks' titles and states; `None`
    /// when the page's tree is too deep to render.
    pub fn page_md(&self, page: &Page) -> (r: Option<String>)
        requires
            self.wf(),
            self.pages@.contains_key(page.id) && self.pages@[page.id] == *page,
        ensures
            r matches Some(s) ==> s@ == crate::page::page_md(page.model(), 0, self.tasks@),
            r is None <==> !(1 + crate::page::nodes_height(nodes_model(page.childs@)) < usize::MAX),
    {
        if crate::page::nodes_height_below(&page.childs, usize::MAX - 1) {
            Some(page.to_md(0, 0, &self.tasks))
        } else {
            None
        }
    }
}

/// All the organizations, by id.
pub struct Data {
    pub organizations: HashMap<u128, Organization>,
}

impl Data {
    pub fn new() -> (d: Data)
        ensures
            d.organizations@ == Map::<u128, Organization>::empty(),
    {
        Data { organizations: HashMap::new() }
    }

    /// Adds an organization under its id.
    pub fn add(&mut self, org: Organization)
        ensures
            final(self).organizations@ == old(self).organizations@.insert(org.id, org),
    {
        self.organizations.insert(org.id, org);
    }
}

} // verus!
