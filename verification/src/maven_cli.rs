//! The dependency tree that `mvn dependency:tree` prints, read back into a
//! graph: one node per package and module scope, edges from each line to
//! the lines indented beneath it.
use vstd::prelude::*;

use crate::config::CommandOutput;
use crate::ident::{fixed_purl, instance_id, make_instance_id};
use crate::merge::{contains_id, distinct_ids, find_id, index_of_id, lemma_index_of_id};
use crate::ident::{is_tagged, lemma_ids_tagged};
use crate::model::{all_tagged, edges_closed, has_node, dep_views, Dependency, DependencyType, DependencyView};
use crate::pattern::{find, regex_find, regex_replaced, opt_text, replace_all};
use crate::text::{
    chars_of, contains, contains_seq, find_first, first_occurrence, has_prefix, occurs_at, push_all,
    split_lines, split_on, split_on_char, starts_with, string_of, sub_chars, text_lines,
};

verus! {

/// Runs Maven to print the resolved dependency tree of a project.
pub struct MavenCliDriver {}

/// A package coordinate `group:artifact:type:version` with an optional
/// classifier and scope after it.
pub const MAVEN_COORD_PATTERN: &'static str = "[a-zA-Z0-9_.\\-]+:[a-zA-Z0-9_.\\-]+:[a-zA-Z0-9_.\\-]+:[a-zA-Z0-9_.\\-]+(?::[a-zA-Z0-9_.\\-]+)*";

/// A parenthesised remark such as `(omitted for duplicate)`, with the
/// blanks after it.
pub const ANNOTATION_PATTERN: &'static str = "\\([^\\)]+\\)\\s*";

/// What follows the log prefix (up to the first `] `) of a line.
pub open spec fn tree_line_body(line: Seq<char>) -> Seq<char> {
    match first_occurrence(line, seq![']', ' ']) {
        Some(i) => line.skip(i + 2),
        None => line,
    }
}

/// Progress lines that name no dependency.
pub open spec fn is_progress_line(body: Seq<char>) -> bool {
    has_prefix(body, "Building "@) || contains_seq(body, "Scanning for"@)
}

/// Group, artifact and version of the parts of a coordinate: four parts
/// (`g:a:type:v`), five (`g:a:type:v:scope`) or six
/// (`g:a:type:classifier:v:scope`).
pub open spec fn coordinate_parts(parts: Seq<Seq<char>>) -> Option<(Seq<char>, Seq<char>, Seq<char>)> {
    if parts.len() == 4 || parts.len() == 5 {
        Some((parts[0], parts[1], parts[3]))
    } else if parts.len() == 6 {
        Some((parts[0], parts[1], parts[4]))
    } else {
        None
    }
}

/// The package that a line of the tree names, with its depth: the byte
/// offset of its coordinate, once remarks are removed, divided by three.
pub open spec fn tree_entry(line: Seq<char>) -> Option<(Seq<char>, Seq<char>, Seq<char>, nat)> {
    let body = tree_line_body(line);
    if is_progress_line(body) {
        None
    } else {
        match regex_replaced(ANNOTATION_PATTERN@, body, Seq::empty()) {
            Some(norm) => match regex_find(MAVEN_COORD_PATTERN@, norm) {
                Some((start, mat)) => match coordinate_parts(split_on(mat, ':')) {
                    Some((g, a, v)) => Some((g, a, v, start / 3)),
                    None => None,
                },
                None => None,
            },
            None => None,
        }
    }
}

/// `pkg:maven/<group>/<artifact>@<version>`, repaired where malformed.
pub open spec fn tree_purl(g: Seq<char>, a: Seq<char>, v: Seq<char>) -> Seq<char> {
    fixed_purl("pkg:maven/"@ + g + "/"@ + a + "@"@ + v)
}

/// The node of a package line.
pub open spec fn tree_dependency(g: Seq<char>, a: Seq<char>, v: Seq<char>, purl: Seq<char>, id: Seq<char>) -> DependencyView {
    DependencyView {
        group: Some(g),
        kind: DependencyType::Library,
        name: a,
        version: Some(v),
        purl,
        instance_id: id,
        dependencies: Seq::empty(),
        location: None,
    }
}

/// Where the reading stands: the nodes so far, the identifiers of the
/// lines above the current one (outermost first), and the current module's
/// scope.
pub struct TreeState {
    pub nodes: Seq<DependencyView>,
    pub stack: Seq<Seq<char>>,
    pub scope: Seq<char>,
}

/// `nodes` with an edge from the node `parent` to `id`, unless it has it.
pub open spec fn with_edge(nodes: Seq<DependencyView>, parent: Seq<char>, id: Seq<char>) -> Seq<DependencyView> {
    match index_of_id(nodes, parent) {
        Some(i) => if nodes[i].dependencies.contains(id) {
            nodes
        } else {
            nodes.update(i, DependencyView { dependencies: nodes[i].dependencies.push(id), ..nodes[i] })
        },
        None => nodes,
    }
}

/// Reads one line. A package at depth 0 opens a module, whose URL becomes
/// the scope; the lines above it deeper than its depth are dropped; the
/// nearest remaining one gains an edge to it; it becomes a node unless its
/// identifier is known.
pub open spec fn tree_step(st: TreeState, line: Seq<char>) -> TreeState {
    match tree_entry(line) {
        None => st,
        Some((g, a, v, depth)) => {
            let purl = tree_purl(g, a, v);
            let scope = if depth == 0 {
                purl
            } else {
                st.scope
            };
            let id = instance_id(purl, scope);
            let stack = if depth < st.stack.len() {
                st.stack.take(depth as int)
            } else {
                st.stack
            };
            let nodes = if stack.len() > 0 {
                with_edge(st.nodes, stack.last(), id)
            } else {
                st.nodes
            };
            let nodes = if index_of_id(nodes, id) is Some {
                nodes
            } else {
                nodes.push(tree_dependency(g, a, v, purl, id))
            };
            TreeState { nodes, stack: stack.push(id), scope }
        },
    }
}

/// Reads the first `k` lines.
pub open spec fn tree_run(lines: Seq<Seq<char>>, k: int) -> TreeState
    decreases k,
{
    if k <= 0 || k > lines.len() {
        TreeState { nodes: Seq::empty(), stack: Seq::empty(), scope: Seq::empty() }
    } else {
        tree_step(tree_run(lines, k - 1), lines[k - 1])
    }
}

/// The graph that a printed tree describes, nodes in order of first
/// appearance.
pub open spec fn maven_tree(content: Seq<char>) -> Seq<DependencyView> {
    tree_run(text_lines(content), text_lines(content).len() as int).nodes
}

fn tree_line_body_exec(line: &Vec<char>) -> (r: Vec<char>)
    ensures
        r@ == tree_line_body(line@),
{
    let mut sep: Vec<char> = Vec::new();
    sep.push(']');
    sep.push(' ');
    assert(sep@ =~= seq![']', ' ']);
    match find_first(line, &sep) {
        Some(i) => {
            assert(occurs_at(line@, sep@, i as int));
            assert(sep@.len() == 2);
            assert(i + 2 <= line@.len());
            assert(line@.len() == line.len());
            let r = sub_chars(line, i + 2, line.len());
            assert(r@ =~= line@.skip(i + 2));
            r
        },
        None => {
            let r = sub_chars(line, 0, line.len());
            assert(r@ =~= line@);
            r
        },
    }
}

fn tree_entry_exec(line: &Vec<char>) -> (r: Option<(String, String, String, usize)>)
    ensures
        match r {
            Some((g, a, v, depth)) => tree_entry(line@) == Some((g@, a@, v@, depth as nat)),
            None => tree_entry(line@) is None,
        },
{
    let body = tree_line_body_exec(line);
    assert(body@ =~= tree_line_body(line@));
    if starts_with(&body, &chars_of("Building ")) || contains(&body, &chars_of("Scanning for")) {
        return None;
    }
    let text = string_of(&body);
    proof {
        reveal_strlit("");
        assert(""@ =~= Seq::<char>::empty());
    }
    let norm = match replace_all(ANNOTATION_PATTERN, text.as_str(), "") {
        Some(n) => n,
        None => {
            return None;
        },
    };
    let (start, mat) = match find(MAVEN_COORD_PATTERN, norm.as_str()) {
        Some(m) => m,
        None => {
            return None;
        },
    };
    let parts = split_on_char(&chars_of(mat.as_str()), ':');
    let ghost pv = parts@.map_values(|v: Vec<char>| v@);
    if parts.len() == 4 || parts.len() == 5 {
        assert(pv[0] == parts@[0]@ && pv[1] == parts@[1]@ && pv[3] == parts@[3]@);
        Some((string_of(&parts[0]), string_of(&parts[1]), string_of(&parts[3]), start / 3))
    } else if parts.len() == 6 {
        assert(pv[0] == parts@[0]@ && pv[1] == parts@[1]@ && pv[4] == parts@[4]@);
        Some((string_of(&parts[0]), string_of(&parts[1]), string_of(&parts[4]), start / 3))
    } else {
        None
    }
}

fn tree_purl_exec(g: &String, a: &String, v: &String) -> (r: String)
    ensures
        r@ == tree_purl(g@, a@, v@),
{
    let mut cs = chars_of("pkg:maven/");
    push_all(&mut cs, &chars_of(g.as_str()));
    cs.push('/');
    push_all(&mut cs, &chars_of(a.as_str()));
    cs.push('@');
    push_all(&mut cs, &chars_of(v.as_str()));
    proof {
        reveal_strlit("pkg:maven/");
        reveal_strlit("/");
        reveal_strlit("@");
        assert(cs@ =~= "pkg:maven/"@ + g@ + "/"@ + a@ + "@"@ + v@);
    }
    Dependency::auto_fix_and_validate_purl(string_of(&cs).as_str())
}

fn add_edge(nodes: &mut Vec<Dependency>, parent: &String, id: &String)
    ensures
        dep_views(final(nodes)@) == with_edge(dep_views(old(nodes)@), parent@, id@),
{
    let ghost before = dep_views(nodes@);
    match find_id(nodes, parent) {
        Some(i) => {
            proof {
                lemma_index_of_id(before, parent@);
            }
            if !contains_id(&nodes[i].dependencies, id) {
                let mut target = nodes[i].clone();
                let ghost tv = target@;
                let ghost old_deps = target.dependencies.deep_view();
                target.dependencies.push(id.clone());
                assert(target.dependencies.deep_view() =~= old_deps.push(id@));
                let ghost nv = target@;
                nodes.set(i, target);
                assert(dep_views(nodes@) =~= before.update(i as int, nv));
            }
        },
        None => {},
    }
}

impl MavenCliDriver {
    /// Maven is available where `mvn -v` ran and succeeded.
    pub fn is_available(version_output: &Option<CommandOutput>) -> (r: bool)
        ensures
            r == (version_output matches Some(o) && o.success),
    {
        match version_output {
            Some(o) => o.success,
            None => false,
        }
    }

    /// Reads a printed dependency tree (see [`maven_tree`]).
    pub fn parse_ascii_tree(content: &str) -> (r: Result<Vec<Dependency>, String>)
        ensures
            r matches Ok(ds) && dep_views(ds@) == maven_tree(content@),
    {
        let lines = split_lines(&chars_of(content));
        let ghost lv = lines@.map_values(|l: Vec<char>| l@);
        assert(lv == text_lines(content@));
        let mut nodes: Vec<Dependency> = Vec::new();
        let mut stack: Vec<String> = Vec::new();
        let mut scope = String::new();
        let mut i: usize = 0;
        assert(dep_views(nodes@) =~= Seq::<DependencyView>::empty());
        assert(stack.deep_view() =~= Seq::<Seq<char>>::empty());
        while i < lines.len()
            invariant
                i <= lines.len(),
                lv == lines@.map_values(|l: Vec<char>| l@),
                tree_run(lv, i as int) == (TreeState {
                    nodes: dep_views(nodes@),
                    stack: stack.deep_view(),
                    scope: scope@,
                }),
            decreases lines.len() - i,
        {
            assert(lv[i as int] == lines@[i as int]@);
            match tree_entry_exec(&lines[i]) {
                Some((g, a, v, depth)) => {
                    let purl = tree_purl_exec(&g, &a, &v);
                    if depth == 0 {
                        scope = purl.clone();
                    }
                    let id = make_instance_id(purl.as_str(), scope.as_str());
                    let ghost old_stack = stack.deep_view();
                    stack.truncate(depth);
                    assert(stack.deep_view() =~= if depth < old_stack.len() {
                        old_stack.take(depth as int)
                    } else {
                        old_stack
                    });
                    if stack.len() > 0 {
                        let parent = stack[stack.len() - 1].clone();
                        assert(parent@ == stack.deep_view().last());
                        add_edge(&mut nodes, &parent, &id);
                    }
                    let ghost mid = dep_views(nodes@);
                    match find_id(&nodes, &id) {
                        Some(_) => {},
                        None => {
                            let deps: Vec<String> = Vec::new();
                            assert(deps.deep_view() =~= Seq::<Seq<char>>::empty());
                            let d = Dependency {
                                group: Some(g),
                                dep_type: DependencyType::Library,
                                name: a,
                                version: Some(v),
                                purl,
                                instance_id: id.clone(),
                                dependencies: deps,
                                location: None,
                            };
                            let ghost dv = d@;
                            nodes.push(d);
                            assert(dep_views(nodes@) =~= mid.push(dv));
                        },
                    }
                    let ghost before_push = stack.deep_view();
                    stack.push(id);
                    assert(stack.deep_view() =~= before_push.push(id@));
                },
                None => {},
            }
            i = i + 1;
        }
        Ok(nodes)
    }

    /// The graph of the tree that `mvn dependency:tree` printed; its
    /// standard error where it failed.
    pub fn generate_dependencies(output: &CommandOutput) -> (r: Result<Vec<Dependency>, String>)
        ensures
            match r {
                Ok(ds) => output.success && dep_views(ds@) == maven_tree(output.stdout@),
                Err(e) => !output.success && e@ == output.stderr@,
            },
    {
        if !output.success {
            return Err(output.stderr.clone());
        }
        MavenCliDriver::parse_ascii_tree(output.stdout.as_str())
    }
}

// ---------------------------------------------------------------------
// Laws
// ---------------------------------------------------------------------

/// No identifier twice, and no edge twice from one node.
pub open spec fn tree_state_ok(nodes: Seq<DependencyView>) -> bool {
    &&& distinct_ids(nodes)
    &&& forall|i: int| 0 <= i < nodes.len() ==> (#[trigger] nodes[i]).dependencies.no_duplicates()
}

proof fn lemma_push_no_dup(s: Seq<Seq<char>>, x: Seq<char>)
    requires
        s.no_duplicates(),
        !s.contains(x),
    ensures
        s.push(x).no_duplicates(),
{
    let t = s.push(x);
    assert forall|a: int, b: int| 0 <= a < t.len() && 0 <= b < t.len() && a != b implies t[a]
        != t[b] by {
        if a == s.len() {
            assert(s[b] != x);
        } else if b == s.len() {
            assert(s[a] != x);
        }
    }
}

proof fn lemma_tree_step_ok(st: TreeState, line: Seq<char>)
    requires
        tree_state_ok(st.nodes),
    ensures
        tree_state_ok(tree_step(st, line).nodes),
{
    match tree_entry(line) {
        None => {},
        Some((g, a, v, depth)) => {
            let purl = tree_purl(g, a, v);
            let scope = if depth == 0 {
                purl
            } else {
                st.scope
            };
            let id = instance_id(purl, scope);
            let stack = if depth < st.stack.len() {
                st.stack.take(depth as int)
            } else {
                st.stack
            };
            let n1 = if stack.len() > 0 {
                with_edge(st.nodes, stack.last(), id)
            } else {
                st.nodes
            };
            if stack.len() > 0 {
                let parent = stack.last();
                lemma_index_of_id(st.nodes, parent);
                match index_of_id(st.nodes, parent) {
                    Some(i) => {
                        if !st.nodes[i].dependencies.contains(id) {
                            lemma_push_no_dup(st.nodes[i].dependencies, id);
                            assert forall|k: int| 0 <= k < n1.len() implies (#[trigger] n1[k]).dependencies.no_duplicates() by {
                                if k != i {
                                    assert(n1[k] == st.nodes[k]);
                                }
                            }
                            assert forall|x: int, y: int| 0 <= x < n1.len() && 0 <= y < n1.len() && x != y implies n1[x].instance_id != n1[y].instance_id by {
                                assert(n1[x].instance_id == st.nodes[x].instance_id);
                                assert(n1[y].instance_id == st.nodes[y].instance_id);
                            }
                        }
                    },
                    None => {},
                }
            }
            assert(tree_state_ok(n1));
            lemma_index_of_id(n1, id);
            if index_of_id(n1, id) is None {
                let n2 = n1.push(tree_dependency(g, a, v, purl, id));
                assert(n2.last().dependencies =~= Seq::<Seq<char>>::empty());
                assert forall|k: int| 0 <= k < n2.len() implies (#[trigger] n2[k]).dependencies.no_duplicates() by {
                    if k < n1.len() {
                        assert(n2[k] == n1[k]);
                    }
                }
                assert forall|x: int, y: int| 0 <= x < n2.len() && 0 <= y < n2.len() && x != y implies n2[x].instance_id != n2[y].instance_id by {
                    if x < n1.len() && y < n1.len() {
                        assert(n2[x] == n1[x] && n2[y] == n1[y]);
                    } else if x < n1.len() {
                        assert(n2[x] == n1[x]);
                    } else {
                        assert(n2[y] == n1[y]);
                    }
                }
            }
        },
    }
}

proof fn lemma_tree_run_ok(lines: Seq<Seq<char>>, k: int)
    ensures
        tree_state_ok(tree_run(lines, k).nodes),
    decreases k,
{
    if k > 0 && k <= lines.len() {
        lemma_tree_run_ok(lines, k - 1);
        lemma_tree_step_ok(tree_run(lines, k - 1), lines[k - 1]);
    }
}

/// A printed tree yields each identifier once, and each node's edges
/// without repeats.
pub proof fn law_tree_nodes_distinct(content: Seq<char>)
    ensures
        distinct_ids(maven_tree(content)),
        forall|i: int|
            0 <= i < maven_tree(content).len() ==> (#[trigger] maven_tree(content)[i]).dependencies.no_duplicates(),
{
    lemma_tree_run_ok(text_lines(content), text_lines(content).len() as int);
}

proof fn lemma_tree_run_tagged(lines: Seq<Seq<char>>, k: int)
    ensures
        all_tagged(tree_run(lines, k).nodes),
    decreases k,
{
    if k > 0 && k <= lines.len() {
        lemma_tree_run_tagged(lines, k - 1);
        let st = tree_run(lines, k - 1);
        let line = lines[k - 1];
        match tree_entry(line) {
            None => {},
            Some((g, a, v, depth)) => {
                let purl = tree_purl(g, a, v);
                let scope = if depth == 0 {
                    purl
                } else {
                    st.scope
                };
                let id = instance_id(purl, scope);
                lemma_ids_tagged(purl, scope, None);
                let stack = if depth < st.stack.len() {
                    st.stack.take(depth as int)
                } else {
                    st.stack
                };
                let n1 = if stack.len() > 0 {
                    with_edge(st.nodes, stack.last(), id)
                } else {
                    st.nodes
                };
                if stack.len() > 0 {
                    lemma_index_of_id(st.nodes, stack.last());
                }
                assert forall|i: int| 0 <= i < n1.len() implies is_tagged(#[trigger] n1[i].instance_id) by {
                    assert(n1[i].instance_id == st.nodes[i].instance_id);
                }
                let n2 = tree_step(st, line).nodes;
                assert forall|i: int| 0 <= i < n2.len() implies is_tagged(#[trigger] n2[i].instance_id) by {
                    if i < n1.len() {
                        assert(n2[i] == n1[i]);
                    }
                }
            },
        }
    }
}

/// Every node of a printed tree has a tagged identifier.
pub proof fn law_tree_ids_tagged(content: Seq<char>)
    ensures
        all_tagged(maven_tree(content)),
{
    lemma_tree_run_tagged(text_lines(content), text_lines(content).len() as int);
}

proof fn lemma_tree_run_closed(lines: Seq<Seq<char>>, k: int)
    ensures
        edges_closed(tree_run(lines, k).nodes),
    decreases k,
{
    if k > 0 && k <= lines.len() {
        lemma_tree_run_closed(lines, k - 1);
        let st = tree_run(lines, k - 1);
        let line = lines[k - 1];
        match tree_entry(line) {
            None => {},
            Some((g, a, v, depth)) => {
                let purl = tree_purl(g, a, v);
                let scope = if depth == 0 {
                    purl
                } else {
                    st.scope
                };
                let id = instance_id(purl, scope);
                let stack = if depth < st.stack.len() {
                    st.stack.take(depth as int)
                } else {
                    st.stack
                };
                let n1 = if stack.len() > 0 {
                    with_edge(st.nodes, stack.last(), id)
                } else {
                    st.nodes
                };
                if stack.len() > 0 {
                    lemma_index_of_id(st.nodes, stack.last());
                }
                lemma_with_edge_keeps(st.nodes, stack.last(), id);
                assert(n1.len() == st.nodes.len());
                assert forall|x: int| 0 <= x < n1.len() implies #[trigger] n1[x].instance_id == st.nodes[x].instance_id by {}
                let n2 = tree_step(st, line).nodes;
                lemma_index_of_id(n1, id);
                assert(has_node(n2, id)) by {
                    match index_of_id(n1, id) {
                        Some(t) => {
                            assert(n2[t].instance_id == id);
                        },
                        None => {
                            assert(n2[n1.len() as int].instance_id == id);
                        },
                    }
                }
                assert forall|x: int| 0 <= x < n1.len() implies #[trigger] n2[x] == n1[x] by {}
                assert forall|i: int, j: int|
                    0 <= i < n2.len() && 0 <= j < n2[i].dependencies.len() implies has_node(n2, #[trigger] n2[i].dependencies[j]) by {
                    let e = n2[i].dependencies[j];
                    if e != id {
                        // The edge was there before this line.
                        assert(i < n1.len());
                        let old_deps = st.nodes[i].dependencies;
                        assert(old_deps.contains(e)) by {
                            if stack.len() > 0 {
                                match index_of_id(st.nodes, stack.last()) {
                                    Some(p) => {
                                        if i == p && !old_deps.contains(id) {
                                            assert(n1[i].dependencies == old_deps.push(id));
                                            assert(j < old_deps.len());
                                            assert(old_deps[j] == e);
                                        } else {
                                            assert(n1[i] == st.nodes[i]);
                                            assert(old_deps[j] == e);
                                        }
                                    },
                                    None => {
                                        assert(old_deps[j] == e);
                                    },
                                }
                            } else {
                                assert(old_deps[j] == e);
                            }
                        }
                        let jj = choose|jj: int| 0 <= jj < old_deps.len() && old_deps[jj] == e;
                        assert(has_node(st.nodes, st.nodes[i].dependencies[jj]));
                        let w = choose|w: int| 0 <= w < st.nodes.len() && (#[trigger] st.nodes[w]).instance_id == e;
                        assert(n2[w].instance_id == e);
                    }
                }
            },
        }
    }
}

/// Every edge of a printed tree's graph leads to one of its nodes.
pub proof fn law_tree_edges_closed(content: Seq<char>)
    ensures
        edges_closed(maven_tree(content)),
{
    lemma_tree_run_closed(text_lines(content), text_lines(content).len() as int);
}

/// The line names the package of node `d`: its group, artifact and version
/// are those of the line's coordinate, and so is its URL.
pub open spec fn line_names_node(line: Seq<char>, d: DependencyView) -> bool {
    match tree_entry(line) {
        Some((g, a, v, _)) => d.group == Some(g) && d.name == a && d.version == Some(v) && d.purl
            == tree_purl(g, a, v) && d.location is None,
        None => false,
    }
}

proof fn lemma_with_edge_keeps(nodes: Seq<DependencyView>, parent: Seq<char>, id: Seq<char>)
    ensures
        with_edge(nodes, parent, id).len() == nodes.len(),
        forall|i: int|
            0 <= i < nodes.len() ==> (DependencyView {
                dependencies: nodes[i].dependencies,
                ..#[trigger] with_edge(nodes, parent, id)[i]
            }) == nodes[i],
{
    lemma_index_of_id(nodes, parent);
}

proof fn lemma_tree_run_from_lines(lines: Seq<Seq<char>>, k: int)
    requires
        0 <= k <= lines.len(),
    ensures
        forall|i: int|
            0 <= i < tree_run(lines, k).nodes.len() ==> exists|j: int|
                0 <= j < k && line_names_node(lines[j], #[trigger] tree_run(lines, k).nodes[i]),
    decreases k,
{
    if k > 0 {
        lemma_tree_run_from_lines(lines, k - 1);
        let st = tree_run(lines, k - 1);
        let line = lines[k - 1];
        let out = tree_run(lines, k).nodes;
        match tree_entry(line) {
            None => {},
            Some((g, a, v, depth)) => {
                let purl = tree_purl(g, a, v);
                let scope = if depth == 0 {
                    purl
                } else {
                    st.scope
                };
                let id = instance_id(purl, scope);
                let stack = if depth < st.stack.len() {
                    st.stack.take(depth as int)
                } else {
                    st.stack
                };
                let n1 = if stack.len() > 0 {
                    with_edge(st.nodes, stack.last(), id)
                } else {
                    st.nodes
                };
                lemma_with_edge_keeps(st.nodes, stack.last(), id);
                assert(n1.len() == st.nodes.len());
                assert forall|i: int| 0 <= i < n1.len() implies exists|j: int|
                    0 <= j < k && line_names_node(lines[j], #[trigger] n1[i]) by {
                    let j = choose|j: int| 0 <= j < k - 1 && line_names_node(lines[j], #[trigger] st.nodes[i]);
                    if stack.len() > 0 {
                        assert((DependencyView { dependencies: st.nodes[i].dependencies, ..n1[i] }) == st.nodes[i]);
                    }
                    assert(line_names_node(lines[j], n1[i]));
                }
                assert forall|i: int| 0 <= i < out.len() implies exists|j: int|
                    0 <= j < k && line_names_node(lines[j], #[trigger] out[i]) by {
                    if i < n1.len() {
                        assert(out[i] == n1[i]);
                        let j = choose|j: int| 0 <= j < k && line_names_node(lines[j], #[trigger] n1[i]);
                    } else {
                        assert(out[i] == tree_dependency(g, a, v, purl, id));
                        assert(line_names_node(lines[k - 1], out[i]));
                    }
                }
            },
        }
    }
}

/// Every node of a printed tree is the package of one of its lines: its
/// group, artifact and version are those of that line's coordinate, the
/// version being the fourth field of a coordinate of four or five fields
/// (`g:a:type:v[:scope]`) and the fifth of one of six
/// (`g:a:type:classifier:v:scope`); its URL is
/// `pkg:maven/<group>/<artifact>@<version>`, repaired.
pub proof fn law_tree_versions_from_coordinates(content: Seq<char>)
    ensures
        forall|i: int|
            0 <= i < maven_tree(content).len() ==> exists|j: int|
                0 <= j < text_lines(content).len() && line_names_node(
                    text_lines(content)[j],
                    #[trigger] maven_tree(content)[i],
                ),
        forall|parts: Seq<Seq<char>>|
            #[trigger] coordinate_parts(parts) is Some ==> {
                let (g, a, v) = coordinate_parts(parts)->0;
                &&& g == parts[0]
                &&& a == parts[1]
                &&& (parts.len() == 4 || parts.len() == 5) ==> v == parts[3]
                &&& parts.len() == 6 ==> v == parts[4]
                &&& parts.len() == 4 || parts.len() == 5 || parts.len() == 6
            },
{
    let lines = text_lines(content);
    lemma_tree_run_from_lines(lines, lines.len() as int);
}

} // verus!
