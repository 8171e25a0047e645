//! Transitive walks of the call graph.
//!
//! A walk is breadth-first. It grows a forest in which every symbol stands
//! once, under the symbol that led to it first, and so it ends in spite of
//! cycles. A [`CallGraph`] says whose neighbours are wanted next and is given
//! them.

use vstd::prelude::*;

use crate::json::{canonical, json_compact, write_json, Json, JsonView};
use crate::nameindex::{NameIndex, RowView};
use crate::query::{
    distinct_at, find_related, find_span_number, index_rows, label, label_of, lemma_before_at,
    ref_views, related, span_number, text_json, texts_at, Filter,
};
use crate::text::{
    contains, decimal, decimal_of, distinct, has_part, lemma_distinct_push, lemma_texts_push, same,
    texts, DistinctList,
};
use crate::ticket::{path_of, ticket_path};

verus! {

// -------------------------------------------------------------- direction

/// Which way a walk goes.
#[derive(Clone, Copy, Debug, PartialEq, Eq, Structural)]
pub enum Direction {
    /// To callers.
    Up,
    /// To callees.
    Down,
    /// To both.
    Both,
}

/// A word that is no direction.
#[derive(Clone, Copy, Debug, PartialEq, Eq)]
pub struct BadDirection;

impl Direction {
    /// The direction as it is typed.
    pub open spec fn word(self) -> Seq<char> {
        match self {
            Direction::Up => "up"@,
            Direction::Down => "down"@,
            Direction::Both => "both"@,
        }
    }

    /// Reads a direction: `up`, `down` or `both`.
    pub fn parse(s: &str) -> (r: Result<Direction, BadDirection>)
        ensures
            r matches Ok(d) ==> s@ == d.word(),
            r is Err ==> s@ != "up"@ && s@ != "down"@ && s@ != "both"@,
    {
        if same(s, "up") {
            Ok(Direction::Up)
        } else if same(s, "down") {
            Ok(Direction::Down)
        } else if same(s, "both") {
            Ok(Direction::Both)
        } else {
            Err(BadDirection)
        }
    }

    /// The direction as it is typed.
    pub fn name(self) -> (r: &'static str)
        ensures
            r@ == self.word(),
    {
        match self {
            Direction::Up => "up",
            Direction::Down => "down",
            Direction::Both => "both",
        }
    }

    /// Whether a walk this way asks for callers.
    pub fn asks_callers(self) -> (r: bool)
        ensures
            r == (self != Direction::Down),
    {
        match self {
            Direction::Down => false,
            _ => true,
        }
    }

    /// Whether a walk this way asks for callees.
    pub fn asks_callees(self) -> (r: bool)
        ensures
            r == (self != Direction::Up),
    {
        match self {
            Direction::Up => false,
            _ => true,
        }
    }
}

// ------------------------------------------------------------- neighbours

/// The functions that a reply names as callers, each once.
pub fn callers_of(reply: &Json) -> (r: Vec<String>)
    ensures
        texts(r@) == distinct(texts_at(related(reply@, "caller"@), "ticket"@)),
{
    let list = find_related(reply, "caller");
    distinct_at(&list, "ticket")
}

/// A reference that decorates a file.
#[derive(Debug)]
pub struct Decoration {
    /// What is referred to.
    pub target: String,
    /// How.
    pub kind: String,
    /// The byte where the reference starts.
    pub start: u64,
}

/// What a [`Decoration`] says.
#[verifier::ext_equal]
pub struct DecorationView {
    pub target: Seq<char>,
    pub kind: Seq<char>,
    pub start: u64,
}

impl View for Decoration {
    type V = DecorationView;

    open spec fn view(&self) -> DecorationView {
        DecorationView { target: self.target@, kind: self.kind@, start: self.start }
    }
}

/// What each of a list of decorations says.
pub open spec fn decoration_views(list: Seq<Decoration>) -> Seq<DecorationView> {
    list.map_values(|d: Decoration| d@)
}

/// The references that a list of values describes; those without a target are
/// passed over.
pub open spec fn decorations_in(list: Seq<JsonView>) -> Seq<DecorationView>
    decreases list.len(),
{
    if list.len() == 0 {
        seq![]
    } else {
        let front = decorations_in(list.drop_last());
        let v = list.last();
        if v.text_at("target_ticket"@).len() == 0 {
            front
        } else {
            front.push(
                DecorationView {
                    target: v.text_at("target_ticket"@),
                    kind: v.text_at("kind"@),
                    start: match span_number(v, "start"@, "byte_offset"@) {
                        Some(n) => n,
                        None => 0,
                    },
                },
            )
        }
    }
}

/// The references that decorate a file, as a reply lists them.
pub fn decor_refs(reply: &Json) -> (r: Vec<Decoration>)
    ensures
        decoration_views(r@) == decorations_in(reply@.items_at("reference"@)),
{
    let mut out: Vec<Decoration> = Vec::new();
    let ghost all = reply@.items_at("reference"@);
    if let Some(list) = reply.get("reference") {
        let n: usize = list.count();
        let mut i: usize = 0;
        proof {
            assert(decoration_views(out@) =~= decorations_in(all.take(0)));
        }
        while i < n
            invariant
                i <= n == all.len(),
                all == list@.items(),
                decoration_views(out@) == decorations_in(all.take(i as int)),
            decreases n - i,
        {
            let v: &Json = list.item(i);
            proof {
                assert(all.take(i + 1).drop_last() =~= all.take(i as int));
                assert(all.take(i + 1).last() == v@);
            }
            let target: &str = v.str_at("target_ticket");
            if !target.is_empty() {
                let start: u64 = match find_span_number(v, "start", "byte_offset") {
                    Some(s) => s,
                    None => 0,
                };
                let d = Decoration {
                    target: target.to_string(),
                    kind: v.str_at("kind").to_string(),
                    start,
                };
                proof {
                    assert(decoration_views(out@.push(d)) =~= decoration_views(out@).push(d@));
                }
                out.push(d);
            }
            i += 1;
        }
        proof {
            assert(all.take(all.len() as int) =~= all);
        }
    } else {
        proof {
            assert(decoration_views(out@) =~= decorations_in(all));
        }
    }
    out
}

/// Where a definition's body lies: the file, and the bytes from `start` up to
/// `end`.
#[derive(Debug)]
pub struct Body {
    pub file: String,
    pub start: u64,
    pub end: u64,
}

/// What a [`Body`] says.
#[verifier::ext_equal]
pub struct BodyView {
    pub file: Seq<char>,
    pub start: u64,
    pub end: u64,
}

impl View for Body {
    type V = BodyView;

    open spec fn view(&self) -> BodyView {
        BodyView { file: self.file@, start: self.start, end: self.end }
    }
}

/// What each of a list of bodies says.
pub open spec fn body_views(list: Seq<Body>) -> Seq<BodyView> {
    list.map_values(|b: Body| b@)
}

/// The body of a definition at this anchor. One whose span is not complete
/// takes the whole file.
pub open spec fn body_at(anchor: JsonView) -> BodyView {
    let file = anchor.text_at("parent"@);
    match (
        span_number(anchor, "start"@, "byte_offset"@),
        span_number(anchor, "end"@, "byte_offset"@),
    ) {
        (Some(start), Some(end)) => BodyView { file, start, end },
        _ => BodyView { file, start: 0, end: u64::MAX },
    }
}

/// The bodies of definitions; those that are not in a file are passed over.
pub open spec fn bodies_in(list: Seq<JsonView>) -> Seq<BodyView>
    decreases list.len(),
{
    if list.len() == 0 {
        seq![]
    } else {
        let front = bodies_in(list.drop_last());
        match list.last().member("anchor"@) {
            Some(a) if a.text_at("parent"@).len() > 0 => front.push(body_at(a)),
            _ => front,
        }
    }
}

/// The bodies of the definitions in a reply.
pub fn definition_bodies(reply: &Json) -> (r: Vec<Body>)
    ensures
        body_views(r@) == bodies_in(related(reply@, "definition"@)),
{
    let list = find_related(reply, "definition");
    let ghost all = ref_views(list@);
    let mut out: Vec<Body> = Vec::new();
    let mut i: usize = 0;
    proof {
        assert(body_views(out@) =~= bodies_in(all.take(0)));
    }
    while i < list.len()
        invariant
            i <= list@.len(),
            all == ref_views(list@),
            body_views(out@) == bodies_in(all.take(i as int)),
        decreases list@.len() - i,
    {
        proof {
            assert(all.take(i + 1).drop_last() =~= all.take(i as int));
            assert(all.take(i + 1).last() == list@[i as int]@);
        }
        if let Some(anchor) = list[i].get("anchor") {
            let file: &str = anchor.str_at("parent");
            if !file.is_empty() {
                let (start, end): (u64, u64) = match (
                    find_span_number(anchor, "start", "byte_offset"),
                    find_span_number(anchor, "end", "byte_offset"),
                ) {
                    (Some(s), Some(e)) => (s, e),
                    _ => (0, u64::MAX),
                };
                let b = Body { file: file.to_string(), start, end };
                proof {
                    assert(body_views(out@.push(b)) =~= body_views(out@).push(b@));
                }
                out.push(b);
            }
        }
        i += 1;
    }
    proof {
        assert(all.take(all.len() as int) =~= all);
    }
    out
}

/// The calls among a file's references that lie in a body.
pub open spec fn calls_in(list: Seq<DecorationView>, body: BodyView) -> Seq<Seq<char>>
    decreases list.len(),
{
    if list.len() == 0 {
        seq![]
    } else {
        let front = calls_in(list.drop_last(), body);
        let d = list.last();
        if has_part(d.kind, "ref/call"@) && body.start <= d.start < body.end {
            front.push(d.target)
        } else {
            front
        }
    }
}

/// The calls in a list of bodies, each with the references of its file.
pub open spec fn all_calls(list: Seq<(BodyView, Seq<DecorationView>)>) -> Seq<Seq<char>>
    decreases list.len(),
{
    if list.len() == 0 {
        seq![]
    } else {
        all_calls(list.drop_last()) + calls_in(list.last().1, list.last().0)
    }
}

/// What is known of a function's bodies: each with the references of its file.
pub open spec fn body_refs(list: Seq<(Body, Vec<Decoration>)>) -> Seq<
    (BodyView, Seq<DecorationView>),
> {
    list.map_values(|p: (Body, Vec<Decoration>)| (p.0@, decoration_views(p.1@)))
}

/// Adds the calls that lie in a body behind those in `found`.
fn add_calls(
    found: DistinctList,
    before: Ghost<Seq<Seq<char>>>,
    body: &Body,
    refs: &Vec<Decoration>,
) -> (r: DistinctList)
    requires
        found@ == distinct(before@),
    ensures
        r@ == distinct(before@ + calls_in(decoration_views(refs@), body@)),
{
    let ghost all = decoration_views(refs@);
    let mut r: DistinctList = found;
    let mut i: usize = 0;
    proof {
        assert(before@ + calls_in(all.take(0), body@) =~= before@);
    }
    while i < refs.len()
        invariant
            i <= refs@.len(),
            all == decoration_views(refs@),
            r@ == distinct(before@ + calls_in(all.take(i as int), body@)),
        decreases refs@.len() - i,
    {
        let d = &refs[i];
        proof {
            assert(all.take(i + 1).drop_last() =~= all.take(i as int));
            assert(all.take(i + 1).last() == d@);
        }
        if contains(d.kind.as_str(), "ref/call") && d.start >= body.start && d.start < body.end {
            let ghost list = before@ + calls_in(all.take(i as int), body@);
            proof {
                lemma_distinct_push(list, d.target@);
                assert(list.push(d.target@) =~= before@ + calls_in(all.take(i + 1), body@));
            }
            r = r.with(d.target.as_str()).0;
        }
        i += 1;
    }
    proof {
        assert(all.take(all.len() as int) =~= all);
    }
    r
}

/// The functions that are called in a function's bodies, each once.
pub fn callees_of(bodies: &Vec<(Body, Vec<Decoration>)>) -> (r: Vec<String>)
    ensures
        texts(r@) == distinct(all_calls(body_refs(bodies@))),
{
    let ghost all = body_refs(bodies@);
    let mut found: DistinctList = DistinctList::new();
    let mut i: usize = 0;
    while i < bodies.len()
        invariant
            i <= bodies@.len(),
            all == body_refs(bodies@),
            found@ == distinct(all_calls(all.take(i as int))),
        decreases bodies@.len() - i,
    {
        proof {
            assert(all.take(i + 1).drop_last() =~= all.take(i as int));
            assert(all.take(i + 1).last() == (
                bodies@[i as int].0@,
                decoration_views(bodies@[i as int].1@),
            ));
        }
        let (body, refs) = &bodies[i];
        found = add_calls(found, Ghost(all_calls(all.take(i as int))), body, refs);
        i += 1;
    }
    proof {
        assert(all.take(all.len() as int) =~= all);
    }
    found.into_list()
}

// ----------------------------------------------------------------- forest

/// A symbol that a walk came to.
#[derive(Debug)]
pub struct Node {
    pub ticket: String,
    /// The number of the symbol that led to it; none for a root.
    pub parent: Option<usize>,
    /// How many steps it is from its root.
    pub depth: usize,
}

/// What a [`Node`] says. The parent of a root is -1.
#[verifier::ext_equal]
pub struct NodeView {
    pub ticket: Seq<char>,
    pub parent: int,
    pub depth: nat,
}

impl View for Node {
    type V = NodeView;

    open spec fn view(&self) -> NodeView {
        NodeView {
            ticket: self.ticket@,
            parent: match self.parent {
                Some(p) => p as int,
                None => -1,
            },
            depth: self.depth as nat,
        }
    }
}

/// What each of a list of nodes says.
pub open spec fn node_views(list: Seq<Node>) -> Seq<NodeView> {
    list.map_values(|n: Node| n@)
}

/// A symbol with this ticket is among the nodes.
pub open spec fn has_node(nodes: Seq<NodeView>, ticket: Seq<char>) -> bool {
    exists|i: int| 0 <= i < nodes.len() && (#[trigger] nodes[i]).ticket == ticket
}

/// A forest: every symbol stands once; a root is at depth 0; and any other
/// symbol has a parent that stands before it, one step nearer to the root.
pub open spec fn is_forest(nodes: Seq<NodeView>) -> bool {
    &&& forall|i: int, j: int|
        0 <= i < j < nodes.len() ==> (#[trigger] nodes[i]).ticket != (#[trigger] nodes[j]).ticket
    &&& forall|i: int|
        0 <= i < nodes.len() ==> {
            let n = #[trigger] nodes[i];
            ||| n.parent == -1 && n.depth == 0
            ||| 0 <= n.parent < i && n.depth == nodes[n.parent].depth + 1
        }
}

/// The roots of a walk: the distinct tickets, in order.
pub open spec fn root_nodes(tickets: Seq<Seq<char>>) -> Seq<NodeView> {
    distinct(tickets).map_values(
        |t: Seq<char>| NodeView { ticket: t, parent: -1, depth: 0 },
    )
}

/// The nodes after the neighbours of the node at `at` were found. Those that
/// the filter drops and those that are there already are passed over, and
/// nothing more is taken once there are `max` nodes.
pub open spec fn grown(
    nodes: Seq<NodeView>,
    at: int,
    found: Seq<Seq<char>>,
    filter: &Filter,
    max: nat,
) -> Seq<NodeView>
    decreases found.len(),
{
    if found.len() == 0 {
        nodes
    } else {
        let now = grown(nodes, at, found.drop_last(), filter, max);
        let t = found.last();
        if now.len() >= max || !filter.keeps(ticket_path(t)) || has_node(now, t) {
            now
        } else {
            now.push(NodeView { ticket: t, parent: at, depth: nodes[at].depth + 1 })
        }
    }
}

/// A walk: its nodes, and how many of them have been looked at.
#[verifier::ext_equal]
pub struct WalkView {
    pub nodes: Seq<NodeView>,
    pub at: nat,
    pub depth: nat,
    pub max: nat,
}

/// The walk is over: every node has been looked at, or there are enough.
pub open spec fn walk_over(w: WalkView) -> bool {
    w.at >= w.nodes.len() || w.nodes.len() >= w.max
}

/// The walk without the nodes that come next but are as deep as it goes.
pub open spec fn walk_settled(w: WalkView) -> WalkView
    decreases w.nodes.len() - w.at,
{
    if !walk_over(w) && w.nodes[w.at as int].depth >= w.depth {
        walk_settled(WalkView { at: w.at + 1, ..w })
    } else {
        w
    }
}

/// The walk after the neighbours of its next node were found.
pub open spec fn walk_grown(w: WalkView, found: Seq<Seq<char>>, filter: &Filter) -> WalkView {
    WalkView {
        nodes: grown(w.nodes, w.at as int, found, filter, w.max),
        at: w.at + 1,
        ..w
    }
}

/// A walk of the call graph.
///
/// Ask [`CallGraph::next`] whose neighbours are wanted, and give them to
/// [`CallGraph::give`].
pub struct CallGraph {
    nodes: Vec<Node>,
    known: DistinctList,
    at: usize,
    depth: usize,
    max: usize,
}

impl View for CallGraph {
    type V = WalkView;

    closed spec fn view(&self) -> WalkView {
        WalkView {
            nodes: node_views(self.nodes@),
            at: self.at as nat,
            depth: self.depth as nat,
            max: self.max as nat,
        }
    }
}

/// In a forest no node is deeper than its number.
proof fn lemma_forest_depth(nodes: Seq<NodeView>, i: int)
    requires
        is_forest(nodes),
        0 <= i < nodes.len(),
    ensures
        nodes[i].depth <= i,
    decreases i,
{
    let n = nodes[i];
    if n.parent >= 0 {
        lemma_forest_depth(nodes, n.parent);
    }
}

/// A forest that grows is a forest, keeps its nodes, and stops at `max`.
pub proof fn lemma_grown(
    nodes: Seq<NodeView>,
    at: int,
    found: Seq<Seq<char>>,
    filter: &Filter,
    max: nat,
)
    requires
        is_forest(nodes),
        0 <= at < nodes.len(),
    ensures
        is_forest(grown(nodes, at, found, filter, max)),
        nodes.len() <= grown(nodes, at, found, filter, max).len(),
        forall|i: int|
            0 <= i < nodes.len() ==> #[trigger] grown(nodes, at, found, filter, max)[i] == nodes[i],
        forall|i: int|
            nodes.len() <= i < grown(nodes, at, found, filter, max).len() ==> (
            #[trigger] grown(nodes, at, found, filter, max)[i]).depth == nodes[at].depth + 1,
        grown(nodes, at, found, filter, max).len() <= max || grown(nodes, at, found, filter, max)
            == nodes,
    decreases found.len(),
{
    if found.len() > 0 {
        let front = found.drop_last();
        lemma_grown(nodes, at, front, filter, max);
        let now = grown(nodes, at, front, filter, max);
        let next = grown(nodes, at, found, filter, max);
        let t = found.last();
        if next != now {
            assert(next == now.push(NodeView { ticket: t, parent: at, depth: nodes[at].depth + 1 }));
            assert forall|a: int, b: int| 0 <= a < b < next.len() implies (
            #[trigger] next[a]).ticket != (#[trigger] next[b]).ticket by {
                if b == now.len() {
                    assert(now[a].ticket != t);
                }
            }
            assert(now[at] == nodes[at]);
            assert forall|a: int| 0 <= a < next.len() implies {
                let x = #[trigger] next[a];
                ||| x.parent == -1 && x.depth == 0
                ||| 0 <= x.parent < a && x.depth == next[x.parent].depth + 1
            } by {
                if a < now.len() {
                    assert(next[a] == now[a]);
                }
            }
        }
    }
}

/// The tickets of nodes, in order.
spec fn node_tickets(nodes: Seq<NodeView>) -> Seq<Seq<char>> {
    nodes.map_values(|n: NodeView| n.ticket)
}

proof fn lemma_known(nodes: Seq<NodeView>, ticket: Seq<char>)
    ensures
        node_tickets(nodes).contains(ticket) == has_node(nodes, ticket),
{
    if has_node(nodes, ticket) {
        let i = choose|i: int| 0 <= i < nodes.len() && (#[trigger] nodes[i]).ticket == ticket;
        assert(node_tickets(nodes)[i] == ticket);
    }
    if node_tickets(nodes).contains(ticket) {
        let i = node_tickets(nodes).index_of(ticket);
        assert(nodes[i].ticket == ticket);
    }
}

impl CallGraph {
    /// The nodes are a forest, and it is known which symbols they are.
    pub closed spec fn wf(&self) -> bool {
        &&& self.known@ == node_tickets(node_views(self.nodes@))
        &&& self.at <= self.nodes@.len()
        &&& is_forest(node_views(self.nodes@))
    }

    /// A walk from these tickets that goes `depth` steps and stops at `max`
    /// symbols.
    pub fn new(roots: &Vec<String>, depth: usize, max: usize) -> (r: Self)
        ensures
            r.wf(),
            r@ == (WalkView {
                nodes: root_nodes(texts(roots@)),
                at: 0,
                depth: depth as nat,
                max: max as nat,
            }),
    {
        let ghost all = texts(roots@);
        let mut nodes: Vec<Node> = Vec::new();
        let mut known: DistinctList = DistinctList::new();
        let mut i: usize = 0;
        proof {
            assert(node_views(nodes@) =~= root_nodes(all.take(0)));
        }
        while i < roots.len()
            invariant
                i <= roots@.len(),
                all == texts(roots@),
                known@ == distinct(all.take(i as int)),
                node_views(nodes@) == root_nodes(all.take(i as int)),
            decreases roots@.len() - i,
        {
            let t: &str = roots[i].as_str();
            proof {
                assert(all.take(i + 1).drop_last() =~= all.take(i as int));
                assert(all.take(i + 1).last() == t@);
            }
            let (next, new) = known.with(t);
            known = next;
            if new {
                let n = Node { ticket: t.to_string(), parent: None, depth: 0 };
                proof {
                    assert(node_views(nodes@.push(n)) =~= node_views(nodes@).push(n@));
                    assert(root_nodes(all.take(i + 1)) =~= root_nodes(all.take(i as int)).push(n@));
                }
                nodes.push(n);
            }
            i += 1;
        }
        let r = CallGraph { nodes, known, at: 0, depth, max };
        proof {
            assert(all.take(all.len() as int) =~= all);
            let v = node_views(r.nodes@);
            assert(node_tickets(v) =~= distinct(all));
            crate::text::lemma_distinct(all);
            assert forall|i: int, j: int| 0 <= i < j < v.len() implies (
            #[trigger] v[i]).ticket != (#[trigger] v[j]).ticket by {
                assert(distinct(all)[i] != distinct(all)[j]);
            }
        }
        r
    }

    /// The ticket of the node whose neighbours are wanted next.
    pub fn next(&mut self) -> (r: Option<String>)
        requires
            old(self).wf(),
        ensures
            final(self).wf(),
            final(self)@ == walk_settled(old(self)@),
            r is None <==> walk_over(final(self)@),
            r matches Some(t) ==> t@ == final(self)@.nodes[final(self)@.at as int].ticket,
    {
        while self.at < self.nodes.len() && self.nodes.len() < self.max && self.nodes[self.at].depth
            >= self.depth
            invariant
                self.wf(),
                walk_settled(self@) == walk_settled(old(self)@),
            decreases self.nodes@.len() - self.at,
        {
            let ghost before = self@;
            proof {
                assert(before.nodes[before.at as int] == self.nodes@[self.at as int]@);
            }
            self.at += 1;
            proof {
                assert(self@ =~= (WalkView { at: before.at + 1, ..before }));
            }
        }
        if self.at < self.nodes.len() && self.nodes.len() < self.max {
            proof {
                assert(self@.nodes[self@.at as int] == self.nodes@[self.at as int]@);
            }
            Some(self.nodes[self.at].ticket.clone())
        } else {
            None
        }
    }

    /// Gives the neighbours of the node that is next.
    pub fn give(&mut self, found: &Vec<String>, filter: &Filter)
        requires
            old(self).wf(),
            !walk_over(old(self)@),
        ensures
            final(self).wf(),
            final(self)@ == walk_grown(old(self)@, texts(found@), filter),
    {
        let ghost start = self@;
        let ghost all = texts(found@);
        let at: usize = self.at;
        let depth: usize = self.nodes[at].depth;
        let mut known: DistinctList = DistinctList::new();
        std::mem::swap(&mut known, &mut self.known);
        let mut nodes: Vec<Node> = Vec::new();
        std::mem::swap(&mut nodes, &mut self.nodes);
        let mut i: usize = 0;
        proof {
            assert(start.nodes[at as int] == nodes@[at as int]@);
            lemma_forest_depth(start.nodes, at as int);
            assert(all.take(0) =~= seq![]);
        }
        while i < found.len()
            invariant
                i <= found@.len(),
                all == texts(found@),
                at == start.at,
                at < start.nodes.len(),
                start.nodes.len() <= nodes@.len(),
                start.nodes[at as int].depth == depth,
                start.nodes == node_views(nodes@).take(start.nodes.len() as int),
                self.max == start.max,
                node_views(nodes@) == grown(
                    start.nodes,
                    at as int,
                    all.take(i as int),
                    filter,
                    start.max,
                ),
                depth <= at,
                known@ == node_tickets(node_views(nodes@)),
            decreases found@.len() - i,
        {
            let t: &str = found[i].as_str();
            let ghost now = node_views(nodes@);
            proof {
                assert(all.take(i + 1).drop_last() =~= all.take(i as int));
                assert(all.take(i + 1).last() == t@);
                lemma_known(now, t@);
            }
            if nodes.len() < self.max && filter.keep(path_of(t).as_str()) && !known.holds(t) {
                known = known.with(t).0;
                proof {
                    assert(now[at as int] == start.nodes[at as int]);
                    assert(now[at as int] == nodes@[at as int]@);
                }
                let n = Node { ticket: t.to_string(), parent: Some(at), depth: depth + 1 };
                let ghost n_view = n@;
                nodes.push(n);
                proof {
                    let next = node_views(nodes@);
                    assert(next =~= now.push(n_view));
                    assert(node_tickets(next) =~= node_tickets(now).push(t@));
                    assert(next.take(start.nodes.len() as int) =~= now.take(
                        start.nodes.len() as int,
                    ));
                }
            }
            i += 1;
        }
        proof {
            assert(all.take(all.len() as int) =~= all);
            lemma_grown(start.nodes, at as int, all, filter, start.max);
        }
        self.known = known;
        self.nodes = nodes;
        self.at = at + 1;
        proof {
            assert(self@ =~= walk_grown(start, all, filter));
        }
    }

    /// The nodes of the walk. They are a forest.
    pub fn finish(self) -> (r: Vec<Node>)
        requires
            self.wf(),
        ensures
            node_views(r@) == self@.nodes,
            is_forest(node_views(r@)),
    {
        self.nodes
    }
}

// ----------------------------------------------------------------- output

/// A node's line: its number, its parent's, its depth, its name and its path.
pub open spec fn node_line(names: Option<Seq<RowView>>, i: nat, n: NodeView) -> Seq<char> {
    let parent = if n.parent < 0 {
        "-"@
    } else {
        decimal(n.parent as nat)
    };
    "["@ + decimal(i) + "] parent="@ + parent + " depth="@ + decimal(n.depth) + "  "@ + label_of(
        names,
        n.ticket,
    ) + "  ["@ + ticket_path(n.ticket) + "]"@
}

/// The lines of a walk: a heading, and then its nodes.
pub open spec fn walk_lines(
    name: Seq<char>,
    direction: Direction,
    depth: nat,
    nodes: Seq<NodeView>,
    names: Option<Seq<RowView>>,
) -> Seq<Seq<char>> {
    let head = "callgraph "@ + name + " ("@ + direction.word() + ", depth "@ + decimal(depth)
        + ") — "@ + decimal(nodes.len()) + " nodes"@;
    seq![head] + Seq::new(nodes.len(), |i: int| node_line(names, i as nat, nodes[i]))
}

fn write_node(names: Option<&NameIndex>, i: usize, n: &Node) -> (r: String)
    ensures
        r@ == node_line(index_rows(names), i as nat, n@),
{
    let mut r: String = "[".to_string();
    r.append(decimal_of(i as u64).as_str());
    r.append("] parent=");
    match n.parent {
        Some(p) => r.append(decimal_of(p as u64).as_str()),
        None => r.append("-"),
    }
    r.append(" depth=");
    r.append(decimal_of(n.depth as u64).as_str());
    r.append("  ");
    r.append(label(names, n.ticket.as_str()).as_str());
    r.append("  [");
    r.append(path_of(n.ticket.as_str()).as_str());
    r.append("]");
    r
}

/// Puts a walk into lines.
pub fn callgraph_lines(
    name: &str,
    direction: Direction,
    depth: usize,
    nodes: &Vec<Node>,
    names: Option<&NameIndex>,
) -> (r: Vec<String>)
    ensures
        texts(r@) == walk_lines(
            name@,
            direction,
            depth as nat,
            node_views(nodes@),
            index_rows(names),
        ),
{
    let ghost all = walk_lines(
        name@,
        direction,
        depth as nat,
        node_views(nodes@),
        index_rows(names),
    );
    let mut head: String = "callgraph ".to_string();
    head.append(name);
    head.append(" (");
    head.append(direction.name());
    head.append(", depth ");
    head.append(decimal_of(depth as u64).as_str());
    head.append(") — ");
    head.append(decimal_of(nodes.len() as u64).as_str());
    head.append(" nodes");
    let mut out: Vec<String> = Vec::new();
    proof {
        assert(all[0] == head@);
    }
    out.push(head);
    let mut i: usize = 0;
    proof {
        assert(texts(out@) =~= all.take(1));
    }
    while i < nodes.len()
        invariant
            i <= nodes@.len(),
            all == walk_lines(
                name@,
                direction,
                depth as nat,
                node_views(nodes@),
                index_rows(names),
            ),
            texts(out@) == all.take(i + 1),
        decreases nodes@.len() - i,
    {
        let line = write_node(names, i, &nodes[i]);
        proof {
            assert(node_views(nodes@)[i as int] == nodes@[i as int]@);
            assert(all[i + 1] == line@);
            assert(all.take(i + 2) =~= all.take(i + 1).push(line@));
            lemma_texts_push(out@, line);
        }
        out.push(line);
        i += 1;
    }
    proof {
        assert(all.take(all.len() as int) =~= all);
    }
    out
}

/// A node as JSON.
pub open spec fn node_object(names: Option<Seq<RowView>>, i: nat, n: NodeView) -> JsonView {
    JsonView::Object(
        seq![
            ("depth"@, JsonView::UInt(n.depth as u64)),
            ("id"@, JsonView::UInt(i as u64)),
            ("name"@, JsonView::Text(label_of(names, n.ticket))),
            (
                "parent"@,
                if n.parent < 0 {
                    JsonView::Int(-1i64)
                } else {
                    JsonView::UInt(n.parent as u64)
                },
            ),
            ("path"@, JsonView::Text(ticket_path(n.ticket))),
            ("ticket"@, JsonView::Text(n.ticket)),
        ],
    )
}

/// A walk as JSON.
pub open spec fn walk_object(
    name: Seq<char>,
    direction: Direction,
    depth: nat,
    nodes: Seq<NodeView>,
    names: Option<Seq<RowView>>,
) -> JsonView {
    JsonView::Object(
        seq![
            ("depth"@, JsonView::UInt(depth as u64)),
            ("direction"@, JsonView::Text(direction.word())),
            ("name"@, JsonView::Text(name)),
            (
                "nodes"@,
                JsonView::List(
                    Seq::new(nodes.len(), |i: int| node_object(names, i as nat, nodes[i])),
                ),
            ),
        ],
    )
}

fn node_json(names: Option<&NameIndex>, i: usize, n: &Node) -> (r: Json)
    ensures
        r@ == node_object(index_rows(names), i as nat, n@),
        canonical(r@),
{
    let mut m: Vec<(String, Json)> = Vec::new();
    m.push(("depth".to_string(), Json::UInt(n.depth as u64)));
    m.push(("id".to_string(), Json::UInt(i as u64)));
    m.push(("name".to_string(), text_json(label(names, n.ticket.as_str()).as_str())));
    let parent = match n.parent {
        Some(p) => Json::UInt(p as u64),
        None => Json::Int(-1),
    };
    m.push(("parent".to_string(), parent));
    m.push(("path".to_string(), text_json(path_of(n.ticket.as_str()).as_str())));
    m.push(("ticket".to_string(), text_json(n.ticket.as_str())));
    let ghost seen = m@;
    let j = Json::Object(m);
    proof {
        crate::json::lemma_members_view(seen);
        let list = node_object(index_rows(names), i as nat, n@)->Object_0;
        assert(crate::json::members_view(seen) =~= list);
        reveal_strlit("depth");
        reveal_strlit("id");
        reveal_strlit("name");
        reveal_strlit("parent");
        reveal_strlit("path");
        reveal_strlit("ticket");
        lemma_before_at("depth"@, "id"@, 0);
        lemma_before_at("depth"@, "name"@, 0);
        lemma_before_at("depth"@, "parent"@, 0);
        lemma_before_at("depth"@, "path"@, 0);
        lemma_before_at("depth"@, "ticket"@, 0);
        lemma_before_at("id"@, "name"@, 0);
        lemma_before_at("id"@, "parent"@, 0);
        lemma_before_at("id"@, "path"@, 0);
        lemma_before_at("id"@, "ticket"@, 0);
        lemma_before_at("name"@, "parent"@, 0);
        lemma_before_at("name"@, "path"@, 0);
        lemma_before_at("name"@, "ticket"@, 0);
        lemma_before_at("parent"@, "path"@, 2);
        lemma_before_at("parent"@, "ticket"@, 0);
        lemma_before_at("path"@, "ticket"@, 0);
        assert(forall|i: int| 0 <= i < list.len() ==> canonical((#[trigger] list[i]).1));
        assert(canonical(j@));
    }
    j
}

/// Writes a walk as JSON.
pub fn callgraph_json(
    name: &str,
    direction: Direction,
    depth: usize,
    nodes: &Vec<Node>,
    names: Option<&NameIndex>,
) -> (r: String)
    ensures
        r@ == json_compact(
            walk_object(name@, direction, depth as nat, node_views(nodes@), index_rows(names)),
        ),
{
    let mut items: Vec<Json> = Vec::new();
    let mut i: usize = 0;
    while i < nodes.len()
        invariant
            i <= nodes@.len(),
            items@.len() == i,
            forall|k: int|
                0 <= k < i ==> crate::json::json_view(#[trigger] items@[k]) == node_object(
                    index_rows(names),
                    k as nat,
                    nodes@[k]@,
                ) && canonical(crate::json::json_view(items@[k])),
        decreases nodes@.len() - i,
    {
        items.push(node_json(names, i, &nodes[i]));
        i += 1;
    }
    let ghost seen_items = items@;
    let list = Json::List(items);
    proof {
        crate::json::lemma_list_view(seen_items);
        let v = node_views(nodes@);
        assert(crate::json::list_view(seen_items) =~= Seq::new(
            v.len(),
            |k: int| node_object(index_rows(names), k as nat, v[k]),
        ));
        let lv = list@->List_0;
        assert forall|k: int| 0 <= k < lv.len() implies canonical(#[trigger] lv[k]) by {
            assert(lv[k] == crate::json::json_view(seen_items[k]));
        }
        assert(canonical(list@));
    }
    let mut m: Vec<(String, Json)> = Vec::new();
    m.push(("depth".to_string(), Json::UInt(depth as u64)));
    m.push(("direction".to_string(), text_json(direction.name())));
    m.push(("name".to_string(), text_json(name)));
    m.push(("nodes".to_string(), list));
    let ghost seen = m@;
    let j = Json::Object(m);
    proof {
        crate::json::lemma_members_view(seen);
        let members = walk_object(
            name@,
            direction,
            depth as nat,
            node_views(nodes@),
            index_rows(names),
        )->Object_0;
        assert(crate::json::members_view(seen) =~= members);
        reveal_strlit("depth");
        reveal_strlit("direction");
        reveal_strlit("name");
        reveal_strlit("nodes");
        lemma_before_at("depth"@, "direction"@, 1);
        lemma_before_at("depth"@, "name"@, 0);
        lemma_before_at("depth"@, "nodes"@, 0);
        lemma_before_at("direction"@, "name"@, 0);
        lemma_before_at("direction"@, "nodes"@, 0);
        lemma_before_at("name"@, "nodes"@, 1);
        assert(canonical(members[3].1));
        assert(forall|i: int| 0 <= i < members.len() ==> canonical((#[trigger] members[i]).1));
        assert(canonical(j@));
    }
    write_json(&j)
}

// ------------------------------------------------------------------- laws

/// The walk at its end, where each symbol has these neighbours.
pub open spec fn walk_all(
    w: WalkView,
    neighbours: spec_fn(Seq<char>) -> Seq<Seq<char>>,
    filter: &Filter,
) -> WalkView
    decreases w.max - w.at,
{
    let s = walk_settled(w);
    if walk_over(s) {
        s
    } else {
        proof {
            lemma_settled(w);
        }
        walk_all(walk_grown(s, neighbours(s.nodes[s.at as int].ticket), filter), neighbours, filter)
    }
}

/// Settling only moves on, past nodes that are as deep as the walk goes.
pub proof fn lemma_settled(w: WalkView)
    ensures
        walk_settled(w).at >= w.at,
        walk_settled(w) == (WalkView { at: walk_settled(w).at, ..w }),
        !walk_over(walk_settled(w)) ==> w.nodes[walk_settled(w).at as int].depth < w.depth,
        forall|i: int| w.at <= i < walk_settled(w).at ==> (#[trigger] w.nodes[i]).depth >= w.depth,
        w.at <= w.nodes.len() ==> walk_settled(w).at <= w.nodes.len(),
    decreases w.nodes.len() - w.at,
{
    if !walk_over(w) && w.nodes[w.at as int].depth >= w.depth {
        lemma_settled(WalkView { at: w.at + 1, ..w });
    }
}

/// A neighbour that the filter keeps is among the nodes, or there are enough.
proof fn lemma_grown_takes(
    nodes: Seq<NodeView>,
    at: int,
    found: Seq<Seq<char>>,
    filter: &Filter,
    max: nat,
    k: int,
)
    requires
        is_forest(nodes),
        0 <= at < nodes.len(),
        0 <= k < found.len(),
        filter.keeps(ticket_path(found[k])),
        grown(nodes, at, found, filter, max).len() < max,
    ensures
        has_node(grown(nodes, at, found, filter, max), found[k]),
    decreases found.len(),
{
    let front = found.drop_last();
    lemma_grown(nodes, at, front, filter, max);
    let now = grown(nodes, at, front, filter, max);
    let next = grown(nodes, at, found, filter, max);
    if k < front.len() {
        lemma_grown_takes(nodes, at, front, filter, max, k);
        let i = choose|i: int| 0 <= i < now.len() && (#[trigger] now[i]).ticket == front[k];
        assert(next[i] == now[i]);
    } else if !has_node(now, found[k]) {
        assert(next[now.len() as int].ticket == found[k]);
    }
}

/// Nothing that a walk has looked at leads out of it, unless it has enough.
pub open spec fn walk_closed(
    w: WalkView,
    neighbours: spec_fn(Seq<char>) -> Seq<Seq<char>>,
    filter: &Filter,
) -> bool {
    w.nodes.len() < w.max ==> forall|i: int, k: int|
        0 <= i < w.at && (#[trigger] w.nodes[i]).depth < w.depth && 0 <= k < neighbours(
            w.nodes[i].ticket,
        ).len() && filter.keeps(ticket_path(#[trigger] neighbours(w.nodes[i].ticket)[k]))
            ==> has_node(w.nodes, neighbours(w.nodes[i].ticket)[k])
}

proof fn lemma_walk_from(
    w: WalkView,
    neighbours: spec_fn(Seq<char>) -> Seq<Seq<char>>,
    filter: &Filter,
    roots: nat,
)
    requires
        is_forest(w.nodes),
        w.at <= w.nodes.len(),
        w.nodes.len() <= w.max || w.nodes.len() <= roots,
        forall|i: int| 0 <= i < w.nodes.len() ==> (#[trigger] w.nodes[i]).depth <= w.depth,
        walk_closed(w, neighbours, filter),
    ensures
        ({
            let r = walk_all(w, neighbours, filter);
            &&& is_forest(r.nodes)
            &&& r.nodes.len() <= r.max || r.nodes.len() <= roots
            &&& forall|i: int| 0 <= i < r.nodes.len() ==> (#[trigger] r.nodes[i]).depth <= r.depth
            &&& walk_closed(r, neighbours, filter)
            &&& walk_over(r)
            &&& r.max == w.max
            &&& r.depth == w.depth
        }),
    decreases w.max - w.at,
{
    let s = walk_settled(w);
    lemma_settled(w);
    assert(walk_closed(s, neighbours, filter));
    if !walk_over(s) {
        let here = s.nodes[s.at as int];
        let found = neighbours(here.ticket);
        let g = walk_grown(s, found, filter);
        lemma_grown(s.nodes, s.at as int, found, filter, s.max);
        assert forall|i: int| 0 <= i < g.nodes.len() implies (#[trigger] g.nodes[i]).depth
            <= g.depth by {
            if i < s.nodes.len() {
                assert(g.nodes[i] == s.nodes[i]);
            }
        }
        if g.nodes.len() < g.max {
            assert forall|i: int, k: int|
                0 <= i < g.at && (#[trigger] g.nodes[i]).depth < g.depth && 0 <= k < neighbours(
                    g.nodes[i].ticket,
                ).len() && filter.keeps(
                    ticket_path(#[trigger] neighbours(g.nodes[i].ticket)[k]),
                ) implies has_node(g.nodes, neighbours(g.nodes[i].ticket)[k]) by {
                assert(g.nodes[i] == s.nodes[i]);
                if i < s.at {
                    let t = neighbours(s.nodes[i].ticket)[k];
                    assert(has_node(s.nodes, t));
                    let j = choose|j: int|
                        0 <= j < s.nodes.len() && (#[trigger] s.nodes[j]).ticket == t;
                    assert(g.nodes[j] == s.nodes[j]);
                } else {
                    lemma_grown_takes(s.nodes, s.at as int, found, filter, s.max, k);
                }
            }
        }
        lemma_walk_from(g, neighbours, filter, roots);
    }
}

/// A walk ends with a forest in which every symbol stands once, none deeper
/// than the walk goes. It holds at most `max` symbols, unless there were more
/// roots; and if it is not full, it holds every symbol that one of its nodes
/// leads to within its depth and that the filter keeps.
pub proof fn lemma_walk(
    roots: Seq<Seq<char>>,
    depth: nat,
    max: nat,
    neighbours: spec_fn(Seq<char>) -> Seq<Seq<char>>,
    filter: &Filter,
)
    ensures
        ({
            let start = WalkView { nodes: root_nodes(roots), at: 0, depth, max };
            let r = walk_all(start, neighbours, filter);
            &&& is_forest(r.nodes)
            &&& r.nodes.len() <= max || r.nodes.len() <= roots.len()
            &&& forall|i: int| 0 <= i < r.nodes.len() ==> (#[trigger] r.nodes[i]).depth <= depth
            &&& walk_over(r)
            &&& walk_closed(r, neighbours, filter)
        }),
{
    let start = WalkView { nodes: root_nodes(roots), at: 0, depth, max };
    crate::text::lemma_distinct(roots);
    assert forall|i: int, j: int| 0 <= i < j < start.nodes.len() implies (
    #[trigger] start.nodes[i]).ticket != (#[trigger] start.nodes[j]).ticket by {
        assert(distinct(roots)[i] != distinct(roots)[j]);
    }
    lemma_walk_from(start, neighbours, filter, roots.len());
}

/// The nodes stand in the order of their depths.
pub open spec fn by_depth(nodes: Seq<NodeView>) -> bool {
    forall|i: int, j: int|
        0 <= i <= j < nodes.len() ==> (#[trigger] nodes[i]).depth <= (#[trigger] nodes[j]).depth
}

proof fn lemma_by_depth_from(
    w: WalkView,
    neighbours: spec_fn(Seq<char>) -> Seq<Seq<char>>,
    filter: &Filter,
)
    requires
        is_forest(w.nodes),
        by_depth(w.nodes),
        w.at < w.nodes.len() ==> forall|i: int|
            0 <= i < w.nodes.len() ==> (#[trigger] w.nodes[i]).depth <= w.nodes[w.at as int].depth
                + 1,
    ensures
        by_depth(walk_all(w, neighbours, filter).nodes),
    decreases w.max - w.at,
{
    let s = walk_settled(w);
    lemma_settled(w);
    if !walk_over(s) {
        let here = s.nodes[s.at as int];
        let found = neighbours(here.ticket);
        let g = walk_grown(s, found, filter);
        lemma_grown(s.nodes, s.at as int, found, filter, s.max);
        assert(w.nodes[w.at as int].depth <= here.depth);
        assert forall|i: int| 0 <= i < g.nodes.len() implies (#[trigger] g.nodes[i]).depth
            <= here.depth + 1 by {
            if i < s.nodes.len() {
                assert(g.nodes[i] == s.nodes[i]);
            }
        }
        assert forall|i: int, j: int| 0 <= i <= j < g.nodes.len() implies (
        #[trigger] g.nodes[i]).depth <= (#[trigger] g.nodes[j]).depth by {
            if j < s.nodes.len() {
                assert(g.nodes[i] == s.nodes[i] && g.nodes[j] == s.nodes[j]);
            }
        }
        if g.at < g.nodes.len() {
            assert(g.nodes[s.at as int] == here);
            assert(here.depth <= g.nodes[g.at as int].depth);
        }
        lemma_by_depth_from(g, neighbours, filter);
    }
}

/// A walk is breadth-first: along the nodes that it ends with, depths never
/// decrease.
pub proof fn lemma_walk_by_depth(
    roots: Seq<Seq<char>>,
    depth: nat,
    max: nat,
    neighbours: spec_fn(Seq<char>) -> Seq<Seq<char>>,
    filter: &Filter,
)
    ensures
        by_depth(
            walk_all(
                WalkView { nodes: root_nodes(roots), at: 0, depth, max },
                neighbours,
                filter,
            ).nodes,
        ),
{
    let start = WalkView { nodes: root_nodes(roots), at: 0, depth, max };
    crate::text::lemma_distinct(roots);
    assert forall|i: int, j: int| 0 <= i < j < start.nodes.len() implies (
    #[trigger] start.nodes[i]).ticket != (#[trigger] start.nodes[j]).ticket by {
        assert(distinct(roots)[i] != distinct(roots)[j]);
    }
    lemma_by_depth_from(start, neighbours, filter);
}

// ------------------------------------------- what the operations are for

/// The directions as they are typed.
pub proof fn lemma_directions_are()
    ensures
        Direction::Up.word() == "up"@,
        Direction::Down.word() == "down"@,
        Direction::Both.word() == "both"@,
{
}

/// Decorations, bodies and nodes say what their fields hold; the parent of a
/// root is -1.
pub proof fn lemma_graph_views_are(d: Decoration, b: Body, n: Node)
    ensures
        d@.target == d.target@ && d@.kind == d.kind@ && d@.start == d.start,
        b@.file == b.file@ && b@.start == b.start && b@.end == b.end,
        n@.ticket == n.ticket@ && n@.depth == n.depth,
        n.parent matches Some(p) ==> n@.parent == p,
        n.parent is None ==> n@.parent == -1,
{
}

/// The references in a reply: one for each value with a target, which says its
/// target, its kind, and the byte where it starts, or 0.
pub proof fn lemma_decorations_are(list: Seq<JsonView>, v: JsonView)
    ensures
        decorations_in(seq![]).len() == 0,
        v.text_at("target_ticket"@).len() == 0 ==> decorations_in(list.push(v)) == decorations_in(
            list,
        ),
        v.text_at("target_ticket"@).len() > 0 ==> {
            let now = decorations_in(list.push(v));
            &&& now.drop_last() == decorations_in(list)
            &&& now.len() == decorations_in(list).len() + 1
            &&& now.last().target == v.text_at("target_ticket"@)
            &&& now.last().kind == v.text_at("kind"@)
            &&& span_number(v, "start"@, "byte_offset"@) matches Some(n) ==> now.last().start == n
            &&& span_number(v, "start"@, "byte_offset"@) is None ==> now.last().start == 0
        },
{
    assert(list.push(v).drop_last() =~= list);
    if v.text_at("target_ticket"@).len() > 0 {
        assert(decorations_in(list.push(v)).drop_last() =~= decorations_in(list));
    }
}

/// The bodies of definitions: one for each anchor that stands in a file, from
/// the byte where its span starts up to the one where it ends; where one of
/// these is not known, the whole file.
pub proof fn lemma_bodies_are(list: Seq<JsonView>, v: JsonView)
    ensures
        bodies_in(seq![]).len() == 0,
        v.member("anchor"@) is None ==> bodies_in(list.push(v)) == bodies_in(list),
        v.member("anchor"@) matches Some(a) ==> {
            let file = a.text_at("parent"@);
            let start = span_number(a, "start"@, "byte_offset"@);
            let end = span_number(a, "end"@, "byte_offset"@);
            let now = bodies_in(list.push(v));
            &&& file.len() == 0 ==> now == bodies_in(list)
            &&& file.len() > 0 && start is Some && end is Some ==> now == bodies_in(list).push(
                BodyView { file, start: start->0, end: end->0 },
            )
            &&& file.len() > 0 && (start is None || end is None) ==> now == bodies_in(list).push(
                BodyView { file, start: 0, end: u64::MAX },
            )
        },
{
    assert(list.push(v).drop_last() =~= list);
}

/// A reference that is a call in a body: its kind holds `ref/call`, and it
/// starts in the body.
pub open spec fn is_call(d: DecorationView, body: BodyView) -> bool {
    &&& exists|at: int|
        0 <= at && at + 8 <= d.kind.len() && #[trigger] d.kind.subrange(at, at + 8) == seq![
            'r',
            'e',
            'f',
            '/',
            'c',
            'a',
            'l',
            'l',
        ]
    &&& body.start <= d.start
    &&& d.start < body.end
}

#[verifier::rlimit(30)]
#[verifier::spinoff_prover]
proof fn lemma_is_call(d: DecorationView, body: BodyView)
    ensures
        is_call(d, body) <==> has_part(d.kind, "ref/call"@) && body.start <= d.start < body.end,
{
    let part = "ref/call"@;
    let call = seq!['r', 'e', 'f', '/', 'c', 'a', 'l', 'l'];
    reveal_strlit("ref/call");
    assert(part =~= call);
    crate::text::lemma_has_part_is(seq![], part, seq![], d.kind);
    if is_call(d, body) {
        let at = choose|at: int|
            0 <= at && at + 8 <= d.kind.len() && #[trigger] d.kind.subrange(at, at + 8) == call;
        assert(d.kind.subrange(at, at + part.len()) == part);
    }
    if has_part(d.kind, part) {
        let at = choose|at: int|
            0 <= at && at + part.len() <= d.kind.len() && #[trigger] d.kind.subrange(
                at,
                at + part.len(),
            ) == part;
        assert(d.kind.subrange(at, at + 8) == call);
    }
}

/// The calls in a body are the targets of just the references that are calls
/// in it, in their order.
pub proof fn lemma_calls_are(list: Seq<DecorationView>, body: BodyView)
    ensures
        calls_in(list, body) == list.filter(|d: DecorationView| is_call(d, body)).map_values(
            |d: DecorationView| d.target,
        ),
    decreases list.len(),
{
    reveal(Seq::filter);
    let kept = list.filter(|d: DecorationView| is_call(d, body));
    let calls = kept.map_values(|d: DecorationView| d.target);
    if list.len() == 0 {
        assert(calls_in(list, body) =~= calls);
    } else {
        let front = list.drop_last();
        lemma_calls_are(front, body);
        lemma_is_call(list.last(), body);
        let before = front.filter(|d: DecorationView| is_call(d, body));
        if is_call(list.last(), body) {
            assert(calls =~= before.map_values(|d: DecorationView| d.target).push(
                list.last().target,
            ));
        }
    }
}

/// The functions that are called in bodies: just the targets of the references
/// that are calls in the body beside them, each once; a reference of the kind
/// `/kythe/edge/ref/call` itself is one.
pub proof fn lemma_callees_are(
    list: Seq<(BodyView, Seq<DecorationView>)>,
    target: Seq<char>,
    d: DecorationView,
    body: BodyView,
)
    ensures
        distinct(all_calls(list)).no_duplicates(),
        distinct(all_calls(list)).contains(target) <==> exists|k: int, i: int|
            0 <= k < list.len() && 0 <= i < list[k].1.len() && is_call(
                #[trigger] list[k].1[i],
                list[k].0,
            ) && list[k].1[i].target == target,
        d.kind == "/kythe/edge/ref/call"@ && body.start <= d.start < body.end ==> is_call(d, body),
{
    crate::text::lemma_distinct(all_calls(list));
    assert(distinct(all_calls(list)).contains(target) <==> all_calls(list).contains(target));
    lemma_all_calls_are(list, target);
    if d.kind == "/kythe/edge/ref/call"@ {
        reveal_strlit("/kythe/edge/ref/call");
        let call = seq!['r', 'e', 'f', '/', 'c', 'a', 'l', 'l'];
        let at: int = 12;
        assert(d.kind.subrange(at, at + 8) =~= call);
    }
}

proof fn lemma_all_calls_are(list: Seq<(BodyView, Seq<DecorationView>)>, target: Seq<char>)
    ensures
        all_calls(list).contains(target) <==> exists|k: int, i: int|
            0 <= k < list.len() && 0 <= i < list[k].1.len() && is_call(
                #[trigger] list[k].1[i],
                list[k].0,
            ) && list[k].1[i].target == target,
    decreases list.len(),
{
    if list.len() > 0 {
        let front = list.drop_last();
        let body = list.last().0;
        let refs = list.last().1;
        let n = front.len() as int;
        let before = all_calls(front);
        let last = calls_in(refs, body);
        let all = all_calls(list);
        lemma_all_calls_are(front, target);
        lemma_calls_are(refs, body);
        let pick = |d: DecorationView| is_call(d, body);
        let kept = refs.filter(pick);
        refs.lemma_filter_len(pick);
        if all.contains(target) {
            let j = all.index_of(target);
            if j < before.len() {
                assert(before[j] == target);
                assert(before.contains(target));
                let (k, i) = choose|k: int, i: int|
                    0 <= k < front.len() && 0 <= i < front[k].1.len() && is_call(
                        #[trigger] front[k].1[i],
                        front[k].0,
                    ) && front[k].1[i].target == target;
                assert(list[k] == front[k]);
                assert(is_call(list[k].1[i], list[k].0));
            } else {
                let m = j - before.len();
                assert(last[m] == target);
                assert(kept[m].target == target);
                lemma_filter_from(refs, pick, m);
                let i = refs.index_of(kept[m]);
                assert(is_call(list[n].1[i], list[n].0));
            }
        }
        if exists|k: int, i: int|
            0 <= k < list.len() && 0 <= i < list[k].1.len() && is_call(
                #[trigger] list[k].1[i],
                list[k].0,
            ) && list[k].1[i].target == target {
            let (k, i) = choose|k: int, i: int|
                0 <= k < list.len() && 0 <= i < list[k].1.len() && is_call(
                    #[trigger] list[k].1[i],
                    list[k].0,
                ) && list[k].1[i].target == target;
            if k < n {
                assert(front[k] == list[k]);
                assert(is_call(front[k].1[i], front[k].0));
                let j = before.index_of(target);
                assert(all[j] == target);
            } else {
                assert(pick(refs[i]));
                refs.lemma_filter_contains(pick, i);
                let m = kept.index_of(refs[i]);
                assert(last[m] == target);
                assert(all[before.len() + m] == target);
            }
        }
    }
}

/// What a filter keeps was there and satisfies it.
proof fn lemma_filter_from<T>(s: Seq<T>, p: spec_fn(T) -> bool, i: int)
    requires
        0 <= i < s.filter(p).len(),
    ensures
        p(s.filter(p)[i]),
        s.contains(s.filter(p)[i]),
    decreases s.len(),
{
    reveal(Seq::filter);
    if s.len() > 0 {
        let front = s.drop_last();
        if i < front.filter(p).len() {
            lemma_filter_from(front, p, i);
            let k = front.index_of(front.filter(p)[i]);
            assert(s[k] == front.filter(p)[i]);
        } else {
            assert(s[s.len() - 1] == s.last());
        }
    }
}

/// The functions that a reply names as callers: just the texts under `ticket`
/// of its callers, each once.
pub proof fn lemma_callers_are(reply: JsonView, t: Seq<char>)
    ensures
        distinct(texts_at(related(reply, "caller"@), "ticket"@)).no_duplicates(),
        distinct(texts_at(related(reply, "caller"@), "ticket"@)).contains(t) <==> exists|i: int|
            0 <= i < related(reply, "caller"@).len() && (
            #[trigger] related(reply, "caller"@)[i]).member("ticket"@) == Some(JsonView::Text(t)),
{
    crate::text::lemma_distinct(texts_at(related(reply, "caller"@), "ticket"@));
    crate::query::lemma_texts_at_are(related(reply, "caller"@), "ticket"@, t);
    let list = texts_at(related(reply, "caller"@), "ticket"@);
    assert(distinct(list).contains(t) <==> list.contains(t));
}

/// The roots of a walk: the distinct tickets, without parents, at depth 0.
pub proof fn lemma_roots_are(tickets: Seq<Seq<char>>, i: int)
    ensures
        root_nodes(tickets).len() == distinct(tickets).len(),
        0 <= i < distinct(tickets).len() ==> root_nodes(tickets)[i] == (NodeView {
            ticket: distinct(tickets)[i],
            parent: -1,
            depth: 0,
        }),
{
}

/// How a forest grows: a neighbour that the filter keeps and that is not there
/// yet becomes a child of the node that led to it, one step deeper, while there
/// are fewer nodes than are allowed; any other one changes nothing.
pub proof fn lemma_grown_is(
    nodes: Seq<NodeView>,
    at: int,
    found: Seq<Seq<char>>,
    t: Seq<char>,
    filter: &Filter,
    max: nat,
)
    ensures
        grown(nodes, at, seq![], filter, max) == nodes,
        ({
            let now = grown(nodes, at, found, filter, max);
            let there = exists|i: int| 0 <= i < now.len() && (#[trigger] now[i]).ticket == t;
            let next = grown(nodes, at, found.push(t), filter, max);
            &&& now.len() < max && filter.keeps(ticket_path(t)) && !there ==> next == now.push(
                NodeView { ticket: t, parent: at, depth: nodes[at].depth + 1 },
            )
            &&& now.len() >= max || !filter.keeps(ticket_path(t)) || there ==> next == now
        }),
{
    assert(found.push(t).drop_last() =~= found);
}

/// When a walk is over: when every node was looked at, or there are as many as
/// are allowed; looking at a node goes on to the next.
pub proof fn lemma_walk_steps_are(w: WalkView, found: Seq<Seq<char>>, filter: &Filter)
    ensures
        walk_over(w) <==> w.at >= w.nodes.len() || w.nodes.len() >= w.max,
        walk_grown(w, found, filter).at == w.at + 1,
        walk_grown(w, found, filter).nodes == grown(w.nodes, w.at as int, found, filter, w.max),
        walk_grown(w, found, filter).depth == w.depth,
        walk_grown(w, found, filter).max == w.max,
{
}

/// A walk as lines: a heading that says what was asked for and how many nodes
/// there are, and for each node its number, that of its parent or a dash, its
/// depth, its name and its path.
pub proof fn lemma_walk_lines_are(
    name: Seq<char>,
    direction: Direction,
    depth: nat,
    nodes: Seq<NodeView>,
    names: Option<Seq<RowView>>,
    i: int,
)
    ensures
        ({
            let r = walk_lines(name, direction, depth, nodes, names);
            &&& r.len() == nodes.len() + 1
            &&& r[0] == "callgraph "@ + name + " ("@ + direction.word() + ", depth "@ + decimal(
                depth,
            ) + ") — "@ + decimal(nodes.len()) + " nodes"@
            &&& 0 <= i < nodes.len() && nodes[i].parent >= 0 ==> r[i + 1] == "["@ + decimal(
                i as nat,
            ) + "] parent="@ + decimal(nodes[i].parent as nat) + " depth="@ + decimal(
                nodes[i].depth,
            ) + "  "@ + label_of(names, nodes[i].ticket) + "  ["@ + ticket_path(nodes[i].ticket)
                + "]"@
            &&& 0 <= i < nodes.len() && nodes[i].parent < 0 ==> r[i + 1] == "["@ + decimal(
                i as nat,
            ) + "] parent="@ + "-"@ + " depth="@ + decimal(nodes[i].depth) + "  "@ + label_of(
                names,
                nodes[i].ticket,
            ) + "  ["@ + ticket_path(nodes[i].ticket) + "]"@
        }),
{
}

/// A walk as an object, and each of its nodes, member by member.
pub proof fn lemma_walk_objects_are(
    name: Seq<char>,
    direction: Direction,
    depth: nat,
    nodes: Seq<NodeView>,
    names: Option<Seq<RowView>>,
    i: nat,
    n: NodeView,
)
    ensures
        walk_object(name, direction, depth, nodes, names) == JsonView::Object(
            seq![
                ("depth"@, JsonView::UInt(depth as u64)),
                ("direction"@, JsonView::Text(direction.word())),
                ("name"@, JsonView::Text(name)),
                (
                    "nodes"@,
                    JsonView::List(
                        Seq::new(nodes.len(), |k: int| node_object(names, k as nat, nodes[k])),
                    ),
                ),
            ],
        ),
        node_object(names, i, n) == JsonView::Object(
            seq![
                ("depth"@, JsonView::UInt(n.depth as u64)),
                ("id"@, JsonView::UInt(i as u64)),
                ("name"@, JsonView::Text(label_of(names, n.ticket))),
                (
                    "parent"@,
                    if n.parent >= 0 {
                        JsonView::UInt(n.parent as u64)
                    } else {
                        JsonView::Int(-1i64)
                    },
                ),
                ("path"@, JsonView::Text(ticket_path(n.ticket))),
                ("ticket"@, JsonView::Text(n.ticket)),
            ],
        ),
{
}

} // verus!
