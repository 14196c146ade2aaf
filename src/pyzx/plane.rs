//! Reading a placed node/wire graph into the plane of the depth analysis.
use vstd::prelude::*;

use crate::pyzx::json_status::{Plane, PlaneElement};

verus! {

/// An interior node of a graph to analyse: its id, its column in half
/// units, its row index (the document's y is `-row`), and its phase label.
#[derive(Debug, Clone)]
pub struct PlacedNode {
    pub id: String,
    pub x2: usize,
    pub row: usize,
    pub value: Option<String>,
}

/// An undirected edge between two ids.
#[derive(Debug, Clone)]
pub struct PlacedEdge {
    pub src: String,
    pub tgt: String,
}

/// A graph to analyse: its interior nodes and its edges, in document order.
#[derive(Debug, Clone)]
pub struct PlacedGraph {
    pub nodes: Vec<PlacedNode>,
    pub edges: Vec<PlacedEdge>,
}

/// Why a graph has no plane.
#[derive(Debug, Clone, Copy, PartialEq, Eq, Structural)]
pub enum PlaneError {
    /// A phase-expensive node is joined to another node of its column.
    TWithCross,
    /// A coordinate is too large to size the plane with.
    TooLarge,
}

/// `t` occurs in `s`.
pub open spec fn has_infix(s: Seq<char>, t: Seq<char>) -> bool {
    exists|i: int| 0 <= i && i + t.len() <= s.len() && #[trigger] s.subrange(i, i + t.len()) == t
}

/// Relies on `regex::Regex::new` and `Regex::is_match`: the pattern `pi/4`
/// has no special characters, so it matches exactly where the text holds
/// `pi/4`; the pattern is valid, so `new` does not fail.
#[verifier::external_body]
pub fn is_quarter_pi_label(s: &str) -> (r: bool)
    ensures
        r == has_infix(s@, "pi/4"@),
{
    regex::Regex::new("pi/4").map(|re| re.is_match(s)).unwrap_or(false)
}

/// The first node at or after `i` with id `id`.
pub open spec fn find_from(nodes: Seq<PlacedNode>, id: Seq<char>, i: int) -> Option<int>
    decreases nodes.len() - i,
{
    if i < 0 || i >= nodes.len() {
        None
    } else if nodes[i].id@ == id {
        Some(i)
    } else {
        find_from(nodes, id, i + 1)
    }
}

/// The half-unit column of the node `id`, or -1 when no node has that id.
pub open spec fn x_of(nodes: Seq<PlacedNode>, id: Seq<char>) -> int {
    match find_from(nodes, id, 0) {
        Some(i) => nodes[i].x2 as int,
        None => -1,
    }
}

/// The other end of edge `e` if it touches `id` and joins two ends in one
/// column.
pub open spec fn edge_partner(nodes: Seq<PlacedNode>, id: Seq<char>, e: PlacedEdge) -> Option<Seq<char>> {
    if (e.src@ == id || e.tgt@ == id) && x_of(nodes, e.src@) == x_of(nodes, e.tgt@) {
        Some(if e.src@ == id { e.tgt@ } else { e.src@ })
    } else {
        None
    }
}

/// The partner given by the first such edge at or after `i`.
pub open spec fn partner_from(g: PlacedGraph, id: Seq<char>, i: int) -> Option<Seq<char>>
    decreases g.edges@.len() - i,
{
    if i < 0 || i >= g.edges@.len() {
        None
    } else {
        match edge_partner(g.nodes@, id, g.edges@[i]) {
            Some(p) => Some(p),
            None => partner_from(g, id, i + 1),
        }
    }
}

/// The row of the node joined to `id` in its column, by the first such edge.
pub open spec fn partner_row(g: PlacedGraph, id: Seq<char>) -> Option<usize> {
    match partner_from(g, id, 0) {
        Some(p) => match find_from(g.nodes@, p, 0) {
            Some(j) => Some(g.nodes@[j].row),
            None => None,
        },
        None => None,
    }
}

pub open spec fn is_t_node(n: PlacedNode) -> bool {
    match n.value {
        Some(v) => has_infix(v@, "pi/4"@),
        None => false,
    }
}

/// Node `i` is phase-expensive and has a partner in its column.
pub open spec fn t_with_cross(g: PlacedGraph, i: int) -> bool {
    is_t_node(g.nodes@[i]) && partner_row(g, g.nodes@[i].id@) is Some
}

/// Node `i`'s coordinates, or its partner's row, cannot size a plane.
pub open spec fn too_large(g: PlacedGraph, i: int) -> bool {
    g.nodes@[i].x2 == usize::MAX || g.nodes@[i].row == usize::MAX || partner_row(g, g.nodes@[i].id@)
        == Some(usize::MAX)
}

/// What node `i` puts in its cell.
pub open spec fn element_of(g: PlacedGraph, i: int) -> PlaneElement {
    if is_t_node(g.nodes@[i]) {
        PlaneElement::T
    } else {
        match partner_row(g, g.nodes@[i].id@) {
            Some(r) => PlaneElement::Cross(r),
            None => PlaneElement::Ordinal,
        }
    }
}

/// The cell `(y, x)` after the first `k` nodes were placed; a later node
/// on the same cell replaces an earlier one.
pub open spec fn placed(g: PlacedGraph, k: int, y: int, x: int) -> Option<PlaneElement>
    decreases k,
{
    if k <= 0 {
        None
    } else if g.nodes@[k - 1].row == y && g.nodes@[k - 1].x2 == x {
        Some(element_of(g, k - 1))
    } else {
        placed(g, k - 1, y, x)
    }
}

proof fn lemma_find_from(nodes: Seq<PlacedNode>, id: Seq<char>, j: int)
    ensures
        find_from(nodes, id, j) matches Some(i) ==> j <= i < nodes.len() && nodes[i].id@ == id,
    decreases nodes.len() - j,
{
    if 0 <= j < nodes.len() && nodes[j].id@ != id {
        lemma_find_from(nodes, id, j + 1);
    }
}

fn find_node(nodes: &Vec<PlacedNode>, id: &String) -> (r: Option<usize>)
    ensures
        r matches Some(i) ==> i < nodes@.len(),
        match r {
            Some(i) => find_from(nodes@, id@, 0) == Some(i as int),
            None => find_from(nodes@, id@, 0) is None,
        },
{
    let mut i: usize = 0;
    while i < nodes.len()
        invariant
            i <= nodes@.len(),
            find_from(nodes@, id@, 0) == find_from(nodes@, id@, i as int),
        decreases nodes@.len() - i,
    {
        proof {
            lemma_find_from(nodes@, id@, i as int);
        }
        if nodes[i].id == *id {
            return Some(i);
        }
        i += 1;
    }
    None
}

impl PlacedGraph {
    /// The half-unit column and the row of the node `id`, if there is one.
    pub fn get_node_coord(&self, id: &String) -> (r: Option<(usize, usize)>)
        ensures
            match find_from(self.nodes@, id@, 0) {
                Some(i) => r == Some((self.nodes@[i].x2, self.nodes@[i].row)),
                None => r is None,
            },
    {
        match find_node(&self.nodes, id) {
            Some(i) => Some((self.nodes[i].x2, self.nodes[i].row)),
            None => None,
        }
    }

    fn column_of(&self, id: &String) -> (r: i128)
        ensures
            r == x_of(self.nodes@, id@),
    {
        match find_node(&self.nodes, id) {
            Some(i) => self.nodes[i].x2 as i128,
            None => -1,
        }
    }

    /// The id of the node joined to `node` by an edge within one column,
    /// taking the first such edge.
    pub fn find_vertical_node(&self, node: &String) -> (r: Option<String>)
        ensures
            match partner_from(*self, node@, 0) {
                Some(p) => r is Some && r->Some_0@ == p,
                None => r is None,
            },
    {
        let mut i: usize = 0;
        while i < self.edges.len()
            invariant
                i <= self.edges@.len(),
                partner_from(*self, node@, 0) == partner_from(*self, node@, i as int),
            decreases self.edges@.len() - i,
        {
            let e = &self.edges[i];
            if (e.src == *node || e.tgt == *node) && self.column_of(&e.src) == self.column_of(&e.tgt) {
                return Some(if e.src == *node { e.tgt.clone() } else { e.src.clone() });
            }
            i += 1;
        }
        None
    }

    fn partner_row_of(&self, node: &String) -> (r: Option<usize>)
        ensures
            r == partner_row(*self, node@),
    {
        match self.find_vertical_node(node) {
            Some(p) => match self.get_node_coord(&p) {
                Some((_, row)) => Some(row),
                None => None,
            },
            None => None,
        }
    }

    /// The plane of the graph: each node's cell holds `T` for a
    /// phase-expensive label, `Cross` with its partner's row for a node
    /// joined to another in its column, and `Ordinal` otherwise; other cells
    /// are empty. A phase-expensive node with a partner is refused.
    pub fn produce_plane(&self) -> (r: Result<Plane, PlaneError>)
        ensures
            r is Err <==> exists|i: int| 0 <= i < self.nodes@.len() && (t_with_cross(*self, i) || too_large(*self, i)),
            r == Err::<Plane, PlaneError>(PlaneError::TWithCross) ==> exists|i: int| 0 <= i < self.nodes@.len() && #[trigger] t_with_cross(*self, i),
            r is Ok ==> {
                let pl = r->Ok_0;
                &&& pl.wf()
                &&& forall|i: int| 0 <= i < self.nodes@.len() ==> #[trigger] self.nodes@[i].row < pl.height()
                    && self.nodes@[i].x2 < pl.width()
                &&& forall|y: int, x: int| 0 <= y < pl.height() && 0 <= x < pl.width() ==> #[trigger] pl.cell(y, x)
                    == placed(*self, self.nodes@.len() as int, y, x)
            },
    {
        let n = self.nodes.len();
        let mut elements: Vec<PlaneElement> = Vec::new();
        let mut height: usize = 1;
        let mut width: usize = 1;
        let mut i: usize = 0;
        while i < n
            invariant
                n == self.nodes@.len(),
                i <= n,
                elements@.len() == i,
                forall|k: int| 0 <= k < i ==> #[trigger] elements@[k] == element_of(*self, k),
                forall|k: int| 0 <= k < i ==> !t_with_cross(*self, k) && !too_large(*self, k),
                1 <= height,
                1 <= width,
                forall|k: int| 0 <= k < i ==> #[trigger] self.nodes@[k].row < height && self.nodes@[k].x2 < width,
                forall|k: int| 0 <= k < i ==> match #[trigger] element_of(*self, k) {
                    PlaneElement::Cross(t) => t < height,
                    _ => true,
                },
            decreases n - i,
        {
            let node = &self.nodes[i];
            let is_t = match &node.value {
                Some(v) => is_quarter_pi_label(v.as_str()),
                None => false,
            };
            let partner = self.partner_row_of(&node.id);
            proof {
                assert(is_t == is_t_node(self.nodes@[i as int]));
            }
            if is_t && partner.is_some() {
                proof {
                    assert(t_with_cross(*self, i as int));
                }
                return Err(PlaneError::TWithCross);
            }
            if node.x2 == usize::MAX || node.row == usize::MAX || partner == Some(usize::MAX) {
                proof {
                    assert(too_large(*self, i as int));
                }
                return Err(PlaneError::TooLarge);
            }
            let e = if is_t {
                PlaneElement::T
            } else {
                match partner {
                    Some(r) => PlaneElement::Cross(r),
                    None => PlaneElement::Ordinal,
                }
            };
            if node.row + 1 > height {
                height = node.row + 1;
            }
            if node.x2 + 1 > width {
                width = node.x2 + 1;
            }
            if let Some(r) = partner {
                if r + 1 > height {
                    height = r + 1;
                }
            }
            elements.push(e);
            i += 1;
        }
        let mut rows: Vec<Vec<Option<PlaneElement>>> = Vec::new();
        let mut y: usize = 0;
        while y < height
            invariant
                y <= height,
                rows@.len() == y,
                forall|k: int| 0 <= k < y ==> (#[trigger] rows@[k])@ == Seq::new(width as nat, |x: int| None::<PlaneElement>),
            decreases height - y,
        {
            let row = vec![None; width];
            proof {
                assert(row@ =~= Seq::new(width as nat, |x: int| None::<PlaneElement>));
            }
            rows.push(row);
            y += 1;
        }
        let mut k: usize = 0;
        while k < n
            invariant
                n == self.nodes@.len(),
                k <= n,
                elements@.len() == n,
                forall|j: int| 0 <= j < n ==> #[trigger] elements@[j] == element_of(*self, j),
                forall|j: int| 0 <= j < n ==> #[trigger] self.nodes@[j].row < height && self.nodes@[j].x2 < width,
                rows@.len() == height,
                forall|r: int| 0 <= r < height ==> (#[trigger] rows@[r])@.len() == width,
                forall|r: int, x: int| 0 <= r < height && 0 <= x < width ==> #[trigger] rows@[r]@[x] == placed(
                    *self,
                    k as int,
                    r,
                    x,
                ),
            decreases n - k,
        {
            let row = self.nodes[k].row;
            let x = self.nodes[k].x2;
            let ghost before = rows@;
            rows[row].set(x, Some(elements[k]));
            proof {
                assert forall|r: int, x2: int| 0 <= r < height && 0 <= x2 < width implies #[trigger] rows@[r]@[x2]
                    == placed(*self, k as int + 1, r, x2) by {
                    if r != row {
                        assert(rows@[r] == before[r]);
                    }
                }
            }
            k += 1;
        }
        let pl = Plane { rows };
        proof {
            assert(pl.rows@[0]@.len() == width);
            assert forall|yy: int, xx: int| 0 <= yy < pl.height() && 0 <= xx < pl.width() implies match #[trigger] pl.cell(yy, xx) {
                Some(PlaneElement::Cross(t)) => t < pl.height(),
                _ => true,
            } by {
                lemma_placed_cross(*self, n as int, yy, xx, height);
            }
        }
        Ok(pl)
    }
}

proof fn lemma_placed_cross(g: PlacedGraph, k: int, y: int, x: int, h: usize)
    requires
        0 <= k <= g.nodes@.len(),
        forall|j: int| 0 <= j < k ==> match #[trigger] element_of(g, j) {
            PlaneElement::Cross(t) => t < h,
            _ => true,
        },
    ensures
        match placed(g, k, y, x) {
            Some(PlaneElement::Cross(t)) => t < h,
            _ => true,
        },
    decreases k,
{
    if k > 0 {
        lemma_placed_cross(g, k - 1, y, x, h);
    }
}

} // verus!
