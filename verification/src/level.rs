//! Graph construction and validation.
//!
//! [`LevelManager::from_config`] turns the raw level mapping of a [`Config`]
//! into an immutable lookup table of built levels. Construction validates the
//! whole mapping up front — every `next` target must exist and no level may be
//! reachable from itself — and is all-or-nothing: on any defect an error is
//! returned and no partial graph escapes. Afterwards [`LevelManager::get`]
//! hands out nodes by identifier; edges between built nodes are expressed as
//! identifier references into the same table.

use vstd::prelude::*;
use vstd::seq_lib::seq_to_set_is_finite;
use vstd::set_lib::lemma_len_subset;
use vstd::string::StringExecFns;

use crate::config::Config;
use crate::config::Key;
use crate::config::LevelV;
use crate::config::Levels;
use crate::config::NextV;
use crate::config::distinct_ids;
use crate::config::has_id;
use crate::config::id_index;
use crate::config::lemma_lookup_at;
use crate::config::lookup;

verus! {

/// A node of the built graph. Unlike a raw configuration level, a built
/// level's edge has been validated: its target is known to exist in the same
/// graph and to lead to no cycle.
pub struct Level {
    pub id: String,
    pub legend: String,
    pub next: Next,
    pub key: Key,
}

/// The outgoing edge of a built level: either terminal, or a captioned button
/// leading to the successor level, referenced by its identifier.
pub enum Next {
    Terminal,
    Button { caption: String, to: String },
}

impl View for Next {
    type V = Option<NextV>;

    open spec fn view(&self) -> Option<NextV> {
        match self {
            Next::Terminal => None,
            Next::Button { caption, to } => Some(NextV { caption: caption@, to: to@ }),
        }
    }
}

impl View for Level {
    type V = LevelV;

    open spec fn view(&self) -> LevelV {
        LevelV { id: self.id@, legend: self.legend@, next: self.next@, key: self.key@ }
    }
}

/// The views of a sequence of built levels.
pub open spec fn node_views(b: Seq<Level>) -> Seq<LevelV> {
    b.map_values(|l: Level| l@)
}

/// The views of a sequence of identifiers.
pub open spec fn id_views(v: Seq<String>) -> Seq<Seq<char>> {
    v.map_values(|s: String| s@)
}

/// There is a `next` edge from the level identified by `a` to the one
/// identified by `b`.
pub open spec fn edge(s: Seq<LevelV>, a: Seq<char>, b: Seq<char>) -> bool {
    &&& lookup(s, a) matches Some(l)
    &&& l.next matches Some(n)
    &&& n.to == b
}

/// `p` is a non-empty closed walk along `next` edges of `s`: consecutive
/// members are connected, and the last points back at the first.
pub open spec fn is_cycle(s: Seq<LevelV>, p: Seq<Seq<char>>) -> bool {
    &&& p.len() > 0
    &&& forall|i: int| 0 <= i < p.len() - 1 ==> edge(s, #[trigger] p[i], p[i + 1])
    &&& edge(s, p[p.len() - 1], p[0])
}

/// Some identifier of `s` is reachable from itself along `next` edges.
pub open spec fn has_cycle(s: Seq<LevelV>) -> bool {
    exists|p: Seq<Seq<char>>| is_cycle(s, p)
}

/// Every `next` edge of `s` points at an identifier present in `s`.
pub open spec fn targets_present(s: Seq<LevelV>) -> bool {
    forall|i: int|
        0 <= i < s.len() ==> (#[trigger] s[i].next matches Some(n) ==> has_id(s, n.to))
}

/// Some `next` edge of `s` points at the identifier `t`.
pub open spec fn referenced(s: Seq<LevelV>, t: Seq<char>) -> bool {
    exists|i: int|
        0 <= i < s.len() && (#[trigger] s[i].next matches Some(n) && n.to == t)
}

/// A structurally sound level mapping: every `next` target exists, and no
/// identifier is reachable from itself.
pub open spec fn valid_levels(s: Seq<LevelV>) -> bool {
    targets_present(s) && !has_cycle(s)
}

/// `m` holds, under every identifier, exactly the level that `cfg` holds.
pub open spec fn reflects(m: Seq<LevelV>, cfg: Seq<LevelV>) -> bool {
    forall|id: Seq<char>| #[trigger] lookup(m, id) == lookup(cfg, id)
}

/// A structural defect of the configuration, found while building the graph.
#[derive(Debug)]
pub enum LevelInspectError {
    /// Some level is reachable from itself along `next` edges.
    LoopDetected,
    /// A `next` edge names a level absent from the configuration.
    NotFound(String),
}

impl LevelInspectError {
    /// A human-readable description of the defect.
    pub fn message(&self) -> (r: String)
        ensures
            self matches LevelInspectError::LoopDetected ==> r@ == "loop detected"@,
            self matches LevelInspectError::NotFound(i) ==> r@ == "level not found: `"@
                + i@ + "`"@,
    {
        match self {
            LevelInspectError::LoopDetected => "loop detected".to_owned(),
            LevelInspectError::NotFound(i) => {
                let s = "level not found: `".to_owned();
                let s = s.concat(i.as_str());
                s.concat("`")
            },
        }
    }
}

/// The built graph: a lookup table from identifier to built level.
pub struct LevelManager {
    st: Vec<Level>,
}

impl View for LevelManager {
    type V = Seq<LevelV>;

    closed spec fn view(&self) -> Seq<LevelV> {
        node_views(self.st@)
    }
}

// ---------------------------------------------------------------------------
// Invariants of the construction, and the lemmas relating them to validity.
// ---------------------------------------------------------------------------

/// Every built node mirrors its configuration entry, identifiers are unique,
/// and every edge of a built node points at a node built strictly earlier.
pub open spec fn built_inv(cfg: Seq<LevelV>, b: Seq<LevelV>) -> bool {
    &&& distinct_ids(b)
    &&& forall|i: int| 0 <= i < b.len() ==> lookup(cfg, (#[trigger] b[i]).id) == Some(b[i])
    &&& forall|i: int|
        0 <= i < b.len() ==> ((#[trigger] b[i]).next matches Some(n) ==> exists|j: int|
            0 <= j < i && b[j].id == n.to)
}

/// The visited identifiers are exactly those of the built nodes plus those on
/// the current traversal path; they are distinct and all configured.
pub open spec fn visited_inv(
    cfg: Seq<LevelV>,
    b: Seq<LevelV>,
    vis: Seq<Seq<char>>,
    path: Seq<Seq<char>>,
) -> bool {
    &&& forall|x: Seq<char>| #[trigger] vis.contains(x) <==> (has_id(b, x) || path.contains(x))
    &&& vis.no_duplicates()
    &&& forall|i: int| 0 <= i < vis.len() ==> has_id(cfg, #[trigger] vis[i])
}

/// The current traversal path: distinct configured identifiers, connected by
/// consecutive `next` edges, none of them built yet.
pub open spec fn path_inv(cfg: Seq<LevelV>, b: Seq<LevelV>, path: Seq<Seq<char>>) -> bool {
    &&& path.no_duplicates()
    &&& forall|i: int| 0 <= i < path.len() ==> has_id(cfg, #[trigger] path[i])
    &&& forall|i: int| 0 <= i < path.len() - 1 ==> edge(cfg, #[trigger] path[i], path[i + 1])
    &&& forall|x: Seq<char>| #[trigger] path.contains(x) ==> !has_id(b, x)
}

/// Pushing an element extends a sequence's membership by exactly it.
proof fn lemma_push_contains<A>(s: Seq<A>, y: A, x: A)
    ensures
        s.push(y).contains(x) <==> (s.contains(x) || x == y),
{
    if s.push(y).contains(x) {
        let i = choose|i: int| 0 <= i < s.push(y).len() && s.push(y)[i] == x;
        if i < s.len() {
            assert(s[i] == x);
        }
    }
    if s.contains(x) {
        let i = choose|i: int| 0 <= i < s.len() && s[i] == x;
        assert(s.push(y)[i] == x);
    }
    if x == y {
        assert(s.push(y)[s.len() as int] == x);
    }
}

/// Pushing a fresh element preserves distinctness.
proof fn lemma_no_dup_push<A>(s: Seq<A>, y: A)
    requires
        s.no_duplicates(),
        !s.contains(y),
    ensures
        s.push(y).no_duplicates(),
{
    assert forall|i: int, j: int|
        0 <= i < s.push(y).len() && 0 <= j < s.push(y).len() && i != j implies s.push(y)[i]
        != s.push(y)[j] by {
        if i < s.len() && j < s.len() {
            assert(s.push(y)[i] == s[i] && s.push(y)[j] == s[j]);
        } else if i < s.len() {
            assert(!s.contains(s[i]) ==> false);
            assert(s.push(y)[j] == y);
        } else {
            assert(s.push(y)[i] == y);
            assert(s.push(y)[j] == s[j]);
        }
    }
}

/// Pushing a node whose identifier is fresh extends `has_id` by exactly it.
proof fn lemma_has_id_push(b: Seq<LevelV>, v: LevelV, x: Seq<char>)
    ensures
        has_id(b.push(v), x) <==> (has_id(b, x) || v.id == x),
{
    if has_id(b.push(v), x) {
        let i = id_index(b.push(v), x);
        if i < b.len() {
            assert(b[i] == b.push(v)[i]);
        }
    }
    if has_id(b, x) {
        let i = id_index(b, x);
        assert(b.push(v)[i] == b[i]);
    }
    if v.id == x {
        assert(b.push(v)[b.len() as int] == v);
    }
}

/// Every sequence is a prefix of itself.
proof fn lemma_prefix_refl(a: Seq<LevelV>)
    ensures
        a.is_prefix_of(a),
{
    assert(a =~= a.subrange(0, a.len() as int));
}

/// A prefix remains one when the longer sequence grows.
proof fn lemma_prefix_push(a: Seq<LevelV>, b: Seq<LevelV>, v: LevelV)
    requires
        a.is_prefix_of(b),
    ensures
        a.is_prefix_of(b.push(v)),
{
    assert forall|k: int| 0 <= k < a.len() implies a[k] == b.push(v)[k] by {
        assert(a[k] == b.subrange(0, a.len() as int)[k]);
    }
    assert(a =~= b.push(v).subrange(0, a.len() as int));
}

/// Entering `id` during the traversal: extending both the visited set and the
/// path by `id` preserves their invariants.
proof fn lemma_enter(
    cfg: Seq<LevelV>,
    b: Seq<LevelV>,
    vis: Seq<Seq<char>>,
    path: Seq<Seq<char>>,
    id: Seq<char>,
)
    requires
        visited_inv(cfg, b, vis, path),
        path_inv(cfg, b, path),
        has_id(cfg, id),
        !has_id(b, id),
        !vis.contains(id),
        path.len() > 0 ==> edge(cfg, path.last(), id),
    ensures
        visited_inv(cfg, b, vis.push(id), path.push(id)),
        path_inv(cfg, b, path.push(id)),
{
    assert(!path.contains(id));
    lemma_no_dup_push(vis, id);
    lemma_no_dup_push(path, id);
    let vis1 = vis.push(id);
    let path2 = path.push(id);
    assert forall|x: Seq<char>| #[trigger] vis1.contains(x) <==> (has_id(b, x)
        || path2.contains(x)) by {
        lemma_push_contains(vis, id, x);
        lemma_push_contains(path, id, x);
    }
    assert forall|i: int| 0 <= i < vis1.len() implies has_id(cfg, #[trigger] vis1[i]) by {
        if i < vis.len() {
            assert(vis1[i] == vis[i]);
        } else {
            assert(vis1[i] == id);
        }
    }
    assert forall|i: int| 0 <= i < path2.len() implies has_id(cfg, #[trigger] path2[i]) by {
        if i < path.len() {
            assert(path2[i] == path[i]);
        } else {
            assert(path2[i] == id);
        }
    }
    assert forall|i: int|
        0 <= i < path2.len() - 1 implies edge(cfg, #[trigger] path2[i], path2[i + 1]) by {
        if i < path.len() - 1 {
            assert(path2[i] == path[i] && path2[i + 1] == path[i + 1]);
        } else {
            assert(path2[i] == path.last() && path2[i + 1] == id);
        }
    }
    assert forall|x: Seq<char>| #[trigger] path2.contains(x) implies !has_id(b, x) by {
        lemma_push_contains(path, id, x);
    }
}

/// Leaving `id`: its node is finished and appended to the built table, coming
/// off the path; all construction invariants carry over.
proof fn lemma_leave(
    cfg: Seq<LevelV>,
    b: Seq<LevelV>,
    vis: Seq<Seq<char>>,
    path: Seq<Seq<char>>,
    id: Seq<char>,
    lev: LevelV,
)
    requires
        built_inv(cfg, b),
        visited_inv(cfg, b, vis, path.push(id)),
        lookup(cfg, id) == Some(lev),
        lev.id == id,
        !has_id(b, id),
        lev.next matches Some(n) ==> has_id(b, n.to),
        forall|x: Seq<char>| #[trigger] path.contains(x) ==> !has_id(b, x),
        !path.contains(id),
    ensures
        built_inv(cfg, b.push(lev)),
        has_id(b.push(lev), id),
        visited_inv(cfg, b.push(lev), vis, path),
        forall|x: Seq<char>| #[trigger] path.contains(x) ==> !has_id(b.push(lev), x),
{
    let b2 = b.push(lev);
    assert(distinct_ids(b2)) by {
        assert forall|x: int, y: int| 0 <= x < y < b2.len() implies b2[x].id != b2[y].id by {
            if y < b.len() {
                assert(b2[x] == b[x] && b2[y] == b[y]);
            } else {
                assert(b2[y] == lev);
                assert(b2[x] == b[x]);
                if b[x].id == id {
                    assert(has_id(b, id));
                }
            }
        }
    }
    assert forall|x: int|
        0 <= x < b2.len() implies lookup(cfg, (#[trigger] b2[x]).id) == Some(b2[x]) by {
        if x < b.len() {
            assert(b2[x] == b[x]);
        }
    }
    assert forall|x: int|
        0 <= x < b2.len() implies ((#[trigger] b2[x]).next matches Some(nv) ==> exists|j: int|
            0 <= j < x && b2[j].id == nv.to) by {
        if x < b.len() {
            assert(b2[x] == b[x]);
            if b[x].next is Some {
                let nv = b[x].next->Some_0;
                let j = choose|j: int| 0 <= j < x && b[j].id == nv.to;
                assert(b2[j] == b[j]);
            }
        } else {
            if lev.next is Some {
                let nv = lev.next->Some_0;
                let j = id_index(b, nv.to);
                assert(b2[j] == b[j]);
            }
        }
    }
    assert(has_id(b2, id)) by {
        assert(b2[b.len() as int].id == id);
    }
    assert forall|x: Seq<char>| #[trigger] path.contains(x) implies !has_id(b2, x) by {
        lemma_has_id_push(b, lev, x);
    }
    assert forall|x: Seq<char>| #[trigger] vis.contains(x) <==> (has_id(b2, x)
        || path.contains(x)) by {
        lemma_has_id_push(b, lev, x);
        lemma_push_contains(path, id, x);
    }
}

/// A duplicate-free sequence of identifiers, each configured, is no longer
/// than the configuration itself.
proof fn lemma_visited_bound(cfg: Seq<LevelV>, vis: Seq<Seq<char>>)
    requires
        vis.no_duplicates(),
        forall|i: int| 0 <= i < vis.len() ==> has_id(cfg, #[trigger] vis[i]),
    ensures
        vis.len() <= cfg.len(),
{
    let ids = cfg.map_values(|l: LevelV| l.id);
    assert forall|x: Seq<char>| vis.to_set().contains(x) implies ids.to_set().contains(
        x,
    ) by {
        assert(vis.contains(x));
        let i = choose|i: int| 0 <= i < vis.len() && vis[i] == x;
        assert(has_id(cfg, x));
        let k = id_index(cfg, x);
        assert(ids[k] == x);
        assert(ids.contains(x));
    }
    vis.unique_seq_to_set();
    ids.lemma_cardinality_of_set();
    seq_to_set_is_finite(ids);
    lemma_len_subset(vis.to_set(), ids.to_set());
}

/// A traversal path that closes back on one of its own members exhibits a
/// cycle.
proof fn lemma_cycle_from_path(cfg: Seq<LevelV>, path: Seq<Seq<char>>, j: int)
    requires
        forall|i: int| 0 <= i < path.len() - 1 ==> edge(cfg, #[trigger] path[i], path[i + 1]),
        0 <= j < path.len(),
        edge(cfg, path[path.len() - 1], path[j]),
    ensures
        has_cycle(cfg),
{
    let p = path.subrange(j, path.len() as int);
    assert(p.len() > 0);
    assert forall|i: int| 0 <= i < p.len() - 1 implies edge(cfg, #[trigger] p[i], p[i + 1]) by {
        assert(p[i] == path[j + i]);
        assert(p[i + 1] == path[j + i + 1]);
    }
    assert(p[p.len() - 1] == path[path.len() - 1]);
    assert(p[0] == path[j]);
    assert(is_cycle(cfg, p));
}

/// When every configured identifier has a built node, a `next` edge of the
/// configuration strictly decreases the build position: the target was built
/// before the source.
proof fn lemma_edge_decreases(cfg: Seq<LevelV>, b: Seq<LevelV>, x: Seq<char>, y: Seq<char>)
    requires
        built_inv(cfg, b),
        forall|id: Seq<char>| has_id(cfg, id) ==> has_id(b, id),
        edge(cfg, x, y),
    ensures
        has_id(b, x),
        has_id(b, y),
        id_index(b, y) < id_index(b, x),
{
    assert(has_id(cfg, x));
    assert(has_id(b, x));
    let k = id_index(b, x);
    assert(0 <= k < b.len() && b[k].id == x);
    assert(lookup(cfg, b[k].id) == Some(b[k]));
    assert(lookup(cfg, x) == Some(b[k]));
    let n = b[k].next->Some_0;
    assert(n.to == y);
    let j = choose|j: int| 0 <= j < k && b[j].id == n.to;
    assert(has_id(b, y));
    let jj = id_index(b, y);
    assert(0 <= jj < b.len() && b[jj].id == y);
    assert(jj == j);
}

/// Along a cycle, the build position would have to decrease by one forever.
proof fn lemma_cycle_rank(cfg: Seq<LevelV>, b: Seq<LevelV>, p: Seq<Seq<char>>, i: int)
    requires
        built_inv(cfg, b),
        forall|id: Seq<char>| has_id(cfg, id) ==> has_id(b, id),
        is_cycle(cfg, p),
        0 <= i < p.len(),
    ensures
        id_index(b, p[i]) <= id_index(b, p[0]) - i,
    decreases i,
{
    if i > 0 {
        lemma_cycle_rank(cfg, b, p, i - 1);
        assert(edge(cfg, p[i - 1], p[i]));
        lemma_edge_decreases(cfg, b, p[i - 1], p[i]);
    }
}

/// When every configured identifier has a built node, the configuration has
/// no cycle: edges strictly decrease the build position.
proof fn lemma_built_acyclic(cfg: Seq<LevelV>, b: Seq<LevelV>)
    requires
        built_inv(cfg, b),
        forall|id: Seq<char>| has_id(cfg, id) ==> has_id(b, id),
    ensures
        !has_cycle(cfg),
{
    if has_cycle(cfg) {
        let p = choose|p: Seq<Seq<char>>| is_cycle(cfg, p);
        lemma_cycle_rank(cfg, b, p, p.len() - 1);
        assert(edge(cfg, p[p.len() - 1], p[0]));
        lemma_edge_decreases(cfg, b, p[p.len() - 1], p[0]);
        assert(false);
    }
}

/// When every configured identifier has a built node, every `next` target of
/// the configuration is present in it.
proof fn lemma_built_targets(cfg: Seq<LevelV>, b: Seq<LevelV>)
    requires
        distinct_ids(cfg),
        built_inv(cfg, b),
        forall|id: Seq<char>| has_id(cfg, id) ==> has_id(b, id),
    ensures
        targets_present(cfg),
{
    assert forall|i: int|
        0 <= i < cfg.len() implies (#[trigger] cfg[i].next matches Some(n) ==> has_id(
        cfg,
        n.to,
    )) by {
        if cfg[i].next is Some {
            let n = cfg[i].next->Some_0;
            lemma_lookup_at(cfg, i);
            assert(has_id(b, cfg[i].id));
            let k = id_index(b, cfg[i].id);
            assert(b[k].id == cfg[i].id);
            assert(lookup(cfg, b[k].id) == Some(b[k]));
            assert(b[k] == cfg[i]);
            let j = choose|j: int| 0 <= j < k && b[j].id == n.to;
            assert(lookup(cfg, b[j].id) == Some(b[j]));
            assert(has_id(cfg, n.to));
        }
    }
}

/// When every configured identifier has a built node, the built table holds,
/// under every identifier, exactly the configured level.
proof fn lemma_built_reflects(cfg: Seq<LevelV>, b: Seq<LevelV>)
    requires
        distinct_ids(cfg),
        built_inv(cfg, b),
        forall|id: Seq<char>| has_id(cfg, id) ==> has_id(b, id),
    ensures
        reflects(b, cfg),
{
    assert forall|id: Seq<char>| #[trigger] lookup(b, id) == lookup(cfg, id) by {
        if has_id(cfg, id) {
            let k = id_index(b, id);
            assert(has_id(b, id));
            assert(0 <= k < b.len() && b[k].id == id);
            assert(lookup(b, id) == Some(b[k]));
            assert(lookup(cfg, b[k].id) == Some(b[k]));
        } else {
            if has_id(b, id) {
                let k = id_index(b, id);
                assert(0 <= k < b.len() && b[k].id == id);
                assert(lookup(cfg, b[k].id) == Some(b[k]));
                assert(false);
            }
        }
    }
}

/// Validity carries over between tables that hold the same levels under the
/// same identifiers.
proof fn lemma_valid_transfer(m: Seq<LevelV>, cfg: Seq<LevelV>)
    requires
        distinct_ids(m),
        reflects(m, cfg),
        valid_levels(cfg),
    ensures
        valid_levels(m),
{
    assert forall|a: Seq<char>, t: Seq<char>| true implies (edge(m, a, t) <==> edge(
        cfg,
        a,
        t,
    )) by {
        assert(lookup(m, a) == lookup(cfg, a));
    }
    assert forall|i: int|
        0 <= i < m.len() implies (#[trigger] m[i].next matches Some(n) ==> has_id(m, n.to)) by {
        if m[i].next is Some {
            let n = m[i].next->Some_0;
            lemma_lookup_at(m, i);
            assert(lookup(cfg, m[i].id) == Some(m[i]));
            assert(has_id(cfg, m[i].id));
            let k = id_index(cfg, m[i].id);
            assert(cfg[k] == m[i]);
            assert(cfg[k].next matches Some(nn) && nn.to == n.to);
            assert(has_id(cfg, n.to));
            assert(lookup(cfg, n.to) is Some);
            assert(lookup(m, n.to) is Some);
        }
    }
    if has_cycle(m) {
        let p = choose|p: Seq<Seq<char>>| is_cycle(m, p);
        assert forall|i: int|
            0 <= i < p.len() - 1 implies edge(cfg, #[trigger] p[i], p[i + 1]) by {
            assert(edge(m, p[i], p[i + 1]));
            assert(lookup(m, p[i]) == lookup(cfg, p[i]));
        }
        assert(edge(cfg, p[p.len() - 1], p[0])) by {
            assert(lookup(m, p[p.len() - 1]) == lookup(cfg, p[p.len() - 1]));
        }
        assert(is_cycle(cfg, p));
        assert(false);
    }
}

// ---------------------------------------------------------------------------
// Executable search helpers.
// ---------------------------------------------------------------------------

/// Whether a node with identifier `id` has been built.
fn contains_built(built: &Vec<Level>, id: &String) -> (r: bool)
    ensures
        r <==> has_id(node_views(built@), id@),
{
    let n = built.len();
    let mut j: usize = 0;
    while j < n
        invariant
            n == built.len(),
            j <= n,
            forall|k: int| 0 <= k < j ==> node_views(built@)[k].id != id@,
        decreases n - j,
    {
        if built[j].id == *id {
            proof {
                assert(node_views(built@)[j as int].id == id@);
            }
            return true;
        }
        proof {
            assert(node_views(built@)[j as int].id == built@[j as int].id@);
        }
        j += 1;
    }
    false
}

/// Whether `id` has been visited.
fn contains_visited(visited: &Vec<String>, id: &String) -> (r: bool)
    ensures
        r <==> id_views(visited@).contains(id@),
{
    let n = visited.len();
    let mut j: usize = 0;
    while j < n
        invariant
            n == visited.len(),
            j <= n,
            forall|k: int| 0 <= k < j ==> id_views(visited@)[k] != id@,
        decreases n - j,
    {
        if visited[j] == *id {
            proof {
                assert(id_views(visited@)[j as int] == id@);
            }
            return true;
        }
        proof {
            assert(id_views(visited@)[j as int] == visited@[j as int]@);
        }
        j += 1;
    }
    proof {
        if id_views(visited@).contains(id@) {
            let k = choose|k: int|
                0 <= k < id_views(visited@).len() && id_views(visited@)[k] == id@;
            assert(false);
        }
    }
    false
}

impl LevelManager {
    /// Identifiers are unique in the built table.
    pub open spec fn wf(&self) -> bool {
        distinct_ids(self@)
    }

    /// Builds and validates the level graph from a configuration.
    ///
    /// Construction succeeds exactly on structurally sound mappings: every
    /// `next` target configured, no level reachable from itself. On success
    /// the graph holds, under every identifier, exactly the configured level.
    /// A cycle is reported as [`LevelInspectError::LoopDetected`]; a `next`
    /// edge naming an absent level is reported as
    /// [`LevelInspectError::NotFound`] carrying that identifier. No partial
    /// graph is ever returned.
    pub fn from_config(c: &Config) -> (r: Result<LevelManager, LevelInspectError>)
        requires
            c.levels.wf(),
        ensures
            r is Ok <==> valid_levels(c.levels@),
            r matches Ok(m) ==> m.wf() && reflects(m@, c.levels@) && valid_levels(m@),
            r == Err::<LevelManager, _>(LevelInspectError::LoopDetected) ==> has_cycle(
                c.levels@,
            ),
            r matches Err(LevelInspectError::NotFound(t)) ==> !has_id(c.levels@, t@)
                && referenced(c.levels@, t@),
            has_cycle(c.levels@) && targets_present(c.levels@) ==> r == Err::<
                LevelManager,
                _,
            >(LevelInspectError::LoopDetected),
            !targets_present(c.levels@) && !has_cycle(c.levels@) ==> (r matches Err(
                LevelInspectError::NotFound(t),
            ) && !has_id(c.levels@, t@) && referenced(c.levels@, t@)),
    {
        let ghost cfg = c.levels@;
        let mut built: Vec<Level> = Vec::new();
        let mut visited: Vec<String> = Vec::new();
        let n = c.levels.len();
        let mut i: usize = 0;
        while i < n
            invariant
                c.levels.wf(),
                cfg == c.levels@,
                n == cfg.len(),
                i <= n,
                built_inv(cfg, node_views(built@)),
                visited_inv(
                    cfg,
                    node_views(built@),
                    id_views(visited@),
                    Seq::<Seq<char>>::empty(),
                ),
                forall|k: int| 0 <= k < i ==> has_id(node_views(built@), cfg[k].id),
            decreases n - i,
        {
            let lev = c.levels.entry_at(i);
            let fuel = c.levels.len();
            let ghost pre_built = node_views(built@);
            proof {
                assert(has_id(cfg, lev.id@)) by {
                    assert(cfg[i as int].id == lev.id@);
                }
                lemma_visited_bound(cfg, id_views(visited@));
            }
            let res = Self::dfs(
                &c.levels,
                &lev.id,
                &mut built,
                &mut visited,
                fuel,
                Ghost(Seq::<Seq<char>>::empty()),
            );
            match res {
                Ok(()) => {
                    proof {
                        assert(has_id(node_views(built@), cfg[i as int].id));
                        assert forall|k: int|
                            0 <= k < i + 1 implies has_id(
                            node_views(built@),
                            cfg[k].id,
                        ) by {
                            if k < i as int {
                                assert(has_id(pre_built, cfg[k].id));
                                let w = id_index(pre_built, cfg[k].id);
                                assert(pre_built[w] == node_views(built@)[w]);
                            }
                        }
                    }
                },
                Err(e) => {
                    proof {
                        match e {
                            LevelInspectError::LoopDetected => {
                                assert(has_cycle(cfg));
                            },
                            LevelInspectError::NotFound(ref t) => {
                                assert(!has_id(cfg, t@) && referenced(cfg, t@));
                                let w = choose|w: int|
                                    0 <= w < cfg.len() && (#[trigger] cfg[w].next matches Some(
                                        nx,
                                    ) && nx.to == t@);
                                assert(!targets_present(cfg));
                            },
                        }
                    }
                    return Err(e);
                },
            }
            i += 1;
        }
        proof {
            assert forall|id: Seq<char>| has_id(cfg, id) implies has_id(
                node_views(built@),
                id,
            ) by {
                let k = id_index(cfg, id);
                assert(has_id(node_views(built@), cfg[k].id));
            }
            lemma_built_targets(cfg, node_views(built@));
            lemma_built_acyclic(cfg, node_views(built@));
            lemma_built_reflects(cfg, node_views(built@));
            lemma_valid_transfer(node_views(built@), cfg);
        }
        Ok(LevelManager { st: built })
    }

    /// One step of the depth-first construction: ensures a node for `id` and,
    /// recursively, for everything reachable from it, is built.
    ///
    /// `visited` holds every identifier ever entered; `path` is the ghost
    /// chain of identifiers currently being entered, which ends in an edge to
    /// `id`. Meeting a visited but unbuilt identifier means `id` closes a
    /// cycle; meeting an unconfigured identifier means a dangling edge.
    fn dfs(
        levels: &Levels,
        id: &String,
        built: &mut Vec<Level>,
        visited: &mut Vec<String>,
        fuel: usize,
        Ghost(path): Ghost<Seq<Seq<char>>>,
    ) -> (r: Result<(), LevelInspectError>)
        requires
            levels.wf(),
            built_inv(levels@, node_views(old(built)@)),
            visited_inv(levels@, node_views(old(built)@), id_views(old(visited)@), path),
            path_inv(levels@, node_views(old(built)@), path),
            path.len() > 0 ==> edge(levels@, path.last(), id@),
            path.len() == 0 ==> has_id(levels@, id@),
            levels@.len() - id_views(old(visited)@).len() <= fuel,
        ensures
            r is Ok ==> built_inv(levels@, node_views(final(built)@)),
            r is Ok ==> node_views(old(built)@).is_prefix_of(node_views(final(built)@)),
            r is Ok ==> has_id(node_views(final(built)@), id@),
            r is Ok ==> forall|x: Seq<char>|
                path.contains(x) ==> !has_id(node_views(final(built)@), x),
            r is Ok ==> visited_inv(
                levels@,
                node_views(final(built)@),
                id_views(final(visited)@),
                path,
            ),
            r == Err::<(), _>(LevelInspectError::LoopDetected) ==> has_cycle(levels@),
            r matches Err(LevelInspectError::NotFound(t)) ==> !has_id(levels@, t@)
                && referenced(levels@, t@),
        decreases fuel,
    {
        let ghost cfg = levels@;
        if contains_built(built, id) {
            proof {
                lemma_prefix_refl(node_views(built@));
            }
            return Ok(());
        }
        if contains_visited(visited, id) {
            proof {
                // Visited but not built: `id` lies on the current path, so the
                // path closes into a cycle.
                assert(path.contains(id@));
                let j = choose|j: int| 0 <= j < path.len() && path[j] == id@;
                assert(path.len() > 0);
                assert(edge(cfg, path[path.len() - 1], path[j]));
                lemma_cycle_from_path(cfg, path, j);
            }
            return Err(LevelInspectError::LoopDetected);
        }
        let lev = match levels.get(id.as_str()) {
            Some(l) => l,
            None => {
                proof {
                    assert(path.len() > 0);
                    let a = path[path.len() - 1];
                    assert(edge(cfg, a, id@));
                    let k = id_index(cfg, a);
                    assert(cfg[k].next matches Some(nx) && nx.to == id@);
                    assert(referenced(cfg, id@));
                }
                return Err(LevelInspectError::NotFound(id.clone()));
            },
        };
        proof {
            assert(lookup(cfg, id@) == Some(lev@));
            assert(lev@.id == id@) by {
                let k = id_index(cfg, id@);
                assert(cfg[k].id == id@);
            }
        }
        let ghost pre_vis = id_views(visited@);
        let ghost b0 = node_views(built@);
        visited.push(id.clone());
        proof {
            assert(id_views(visited@) =~= pre_vis.push(id@));
            lemma_enter(cfg, b0, pre_vis, path, id@);
            lemma_visited_bound(cfg, id_views(visited@));
        }
        let ghost vis1 = id_views(visited@);
        let ghost path2 = path.push(id@);
        let new_next: Next = match &lev.next {
            None => Next::Terminal,
            Some(nx) => {
                proof {
                    assert(edge(cfg, path2.last(), nx.to@)) by {
                        assert(path2.last() == id@);
                        assert(lookup(cfg, id@) == Some(lev@));
                        assert(lev@.next matches Some(nv) && nv.to == nx.to@);
                    }
                }
                match Self::dfs(levels, &nx.to, built, visited, fuel - 1, Ghost(path2)) {
                    Ok(()) => {},
                    Err(e) => {
                        return Err(e);
                    },
                }
                Next::Button { caption: nx.caption.clone(), to: nx.to.clone() }
            },
        };
        let ghost b1 = node_views(built@);
        let ghost vis2 = id_views(visited@);
        let node = Level {
            id: lev.id.clone(),
            legend: lev.legend.clone(),
            next: new_next,
            key: lev.key.clone(),
        };
        proof {
            assert(node@ == lev@);
            assert(!path.contains(id@));
            assert(!has_id(b1, id@)) by {
                if lev@.next is Some {
                    assert(path2.contains(id@));
                }
            }
            assert forall|x: Seq<char>| #[trigger] path.contains(x) implies !has_id(
                b1,
                x,
            ) by {
                if lev@.next is Some {
                    lemma_push_contains(path, id@, x);
                    assert(path2.contains(x));
                }
            }
        }
        built.push(node);
        proof {
            let b2 = node_views(built@);
            assert(b2 =~= b1.push(lev@));
            lemma_leave(cfg, b1, vis2, path, id@, lev@);
            if !(lev@.next is Some) {
                lemma_prefix_refl(b0);
            }
            assert(b0.is_prefix_of(b1));
            lemma_prefix_push(b0, b1, lev@);
        }
        Ok(())
    }

    /// The built level under `id`, if any. Lookup of an unknown identifier is
    /// not an error: it simply finds nothing.
    pub fn get(&self, id: &str) -> (r: Option<&Level>)
        requires
            self.wf(),
        ensures
            match r {
                Some(l) => lookup(self@, id@) == Some(l@),
                None => !has_id(self@, id@),
            },
    {
        let key: String = id.to_owned();
        let n = self.st.len();
        let mut j: usize = 0;
        while j < n
            invariant
                n == self@.len(),
                j <= n,
                self.wf(),
                key@ == id@,
                forall|k: int| 0 <= k < j ==> self@[k].id != id@,
            decreases n - j,
        {
            if self.st[j].id == key {
                proof {
                    assert(self@[j as int].id == id@);
                    lemma_lookup_at(self@, j as int);
                }
                return Some(&self.st[j]);
            }
            proof {
                assert(self@[j as int].id == self.st@[j as int].id@);
            }
            j += 1;
        }
        None
    }
}


/// Law: graph construction is deterministic in the configuration. Any two
/// built tables that hold, under every identifier, exactly the configured
/// level — as every table returned by [`LevelManager::from_config`] does —
/// agree on every lookup: the same identifiers resolve, to levels with the
/// same legends, captions, targets and keys.
pub proof fn lemma_build_deterministic(cfg: Seq<LevelV>, m1: Seq<LevelV>, m2: Seq<LevelV>)
    requires
        reflects(m1, cfg),
        reflects(m2, cfg),
    ensures
        forall|id: Seq<char>| #[trigger] lookup(m1, id) == lookup(m2, id),
{
}

} // verus!
