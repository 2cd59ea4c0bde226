//! Automatic BSP ("dwindle"-style) tiling.
//!
//! Each workspace of each output owns a tree of splits. Every tiled window
//! is a leaf; tiling a new window splits a target leaf in two, and removing
//! a window collapses its sibling back into the parent's slot.
//!
//! Split ratios are kept in thousandths of the parent's extent.

use vstd::prelude::*;
use crate::geometry::{Point, Rect, Size, trunc_div, abs, in_i32};
use crate::shell::{Action, OutputState, OutputView, Shell, ShellView, TreeView, tv_remove, tv_insert, tv_swap, tv_adjust, tv_retain, tv_layout, tree_view, lemma_with_tree_twice, WindowHome, home_of};
use crate::shell::workspace::{spec_assign_new_window, spec_mark_floating, assign_new_window, mark_floating, spec_cleanup_floating, has_dead_floating, without, other_than};

verus! {

/// A window, identified by a number that the compositor hands out.
pub type WindowId = u64;

/// Gap between tiled windows, split evenly between the two sides of a split.
pub const HALF_GAP: i32 = 4;
/// The share given to the first child of a fresh split, in thousandths.
pub const EVEN_RATIO: u32 = 500;
/// Bounds that keyboard resizes clamp a split's ratio to, in thousandths.
pub const MIN_RATIO: i32 = 100;
pub const MAX_RATIO: i32 = 900;
/// How much one keyboard resize step moves a split's ratio, in thousandths.
pub const RESIZE_STEP: i32 = 50;

#[derive(Clone, Copy, Debug, PartialEq, Eq, Structural)]
pub enum Direction {
    Left,
    Right,
    Up,
    Down,
}

/// A node of a tiling tree.
pub enum Node {
    Leaf(WindowId),
    /// `vertical`: the children sit side by side (the split runs along x);
    /// otherwise they are stacked. `ratio`: thousandths of the extent given
    /// to `a`.
    Split { vertical: bool, ratio: u32, a: Box<Node>, b: Box<Node> },
}

/// Rounds `len * ratio / 1000` toward zero: the extent given to the first
/// child of a split of length `len`.
pub open spec fn share(len: i32, ratio: u32) -> int {
    trunc_div(len as int * ratio as int, 1000)
}

/// The areas of the two children of a split of `area`, with `2 * HALF_GAP`
/// left between them.
pub open spec fn split_areas(area: Rect, vertical: bool, ratio: u32) -> (Rect, Rect) {
    if vertical {
        let wa = share(area.size.w, ratio);
        (
            Rect { loc: area.loc, size: Size { w: (wa - HALF_GAP) as i32, h: area.size.h } },
            Rect {
                loc: Point { x: (area.loc.x + wa + HALF_GAP) as i32, y: area.loc.y },
                size: Size { w: (area.size.w - wa - HALF_GAP) as i32, h: area.size.h },
            },
        )
    } else {
        let ha = share(area.size.h, ratio);
        (
            Rect { loc: area.loc, size: Size { w: area.size.w, h: (ha - HALF_GAP) as i32 } },
            Rect {
                loc: Point { x: area.loc.x, y: (area.loc.y + ha + HALF_GAP) as i32 },
                size: Size { w: area.size.w, h: (area.size.h - ha - HALF_GAP) as i32 },
            },
        )
    }
}

/// The rectangle paired with the first entry for `w`, if any.
pub open spec fn find_rect(rects: Seq<(WindowId, Rect)>, w: WindowId) -> Option<Rect>
    decreases rects.len(),
{
    if rects.len() == 0 {
        None
    } else if rects[0].0 == w {
        Some(rects[0].1)
    } else {
        find_rect(rects.drop_first(), w)
    }
}

impl Node {
    /// The windows at the leaves, left to right.
    pub open spec fn leaves(self) -> Seq<WindowId>
        decreases self,
    {
        match self {
            Node::Leaf(w) => seq![w],
            Node::Split { a, b, .. } => a.leaves() + b.leaves(),
        }
    }

    /// Every split's ratio lies within the resize bounds.
    pub open spec fn wf(self) -> bool
        decreases self,
    {
        match self {
            Node::Leaf(_) => true,
            Node::Split { ratio, a, b, .. } => MIN_RATIO <= ratio <= MAX_RATIO && a.wf() && b.wf(),
        }
    }

    /// The tree with the first leaf holding `t` replaced by `r`.
    pub open spec fn replace_first(self, t: WindowId, r: Node) -> Node
        decreases self,
    {
        match self {
            Node::Leaf(w) => if w == t {
                r
            } else {
                self
            },
            Node::Split { vertical, ratio, a, b } => if a.leaves().contains(t) {
                Node::Split { vertical, ratio, a: Box::new(a.replace_first(t, r)), b }
            } else {
                Node::Split { vertical, ratio, a, b: Box::new(b.replace_first(t, r)) }
            },
        }
    }

    /// The tree with the first leaf holding `t` removed, its sibling taking
    /// the parent split's place; `None` if that leaf was the whole tree.
    pub open spec fn remove_first(self, t: WindowId) -> Option<Node>
        decreases self,
    {
        match self {
            Node::Leaf(w) => if w == t {
                None
            } else {
                Some(self)
            },
            Node::Split { vertical, ratio, a, b } => if a.leaves().contains(t) {
                match a.remove_first(t) {
                    None => Some(*b),
                    Some(na) => Some(Node::Split { vertical, ratio, a: Box::new(na), b }),
                }
            } else if b.leaves().contains(t) {
                match b.remove_first(t) {
                    None => Some(*a),
                    Some(nb) => Some(Node::Split { vertical, ratio, a, b: Box::new(nb) }),
                }
            } else {
                Some(self)
            },
        }
    }

    /// The tree with every leaf holding `x` given `y` and vice versa.
    pub open spec fn swapped(self, x: WindowId, y: WindowId) -> Node
        decreases self,
    {
        match self {
            Node::Leaf(w) => Node::Leaf(
                if w == x {
                    y
                } else if w == y {
                    x
                } else {
                    w
                },
            ),
            Node::Split { vertical, ratio, a, b } => Node::Split {
                vertical,
                ratio,
                a: Box::new(a.swapped(x, y)),
                b: Box::new(b.swapped(x, y)),
            },
        }
    }

    /// Resizing on behalf of the first leaf holding `t`: the nearest split
    /// above that leaf running along `vertical` moves its ratio by `delta`
    /// toward that leaf's side (up for `a`, down for `b`), clamped to the
    /// resize bounds. Returns the new tree, whether `t` occurs in it, and
    /// whether a split was adjusted.
    pub open spec fn adjusted(self, t: WindowId, vertical: bool, delta: int) -> (Node, bool, bool)
        decreases self,
    {
        match self {
            Node::Leaf(w) => (self, w == t, false),
            Node::Split { vertical: v, ratio, a, b } => {
                let (na, in_a, done_a) = a.adjusted(t, vertical, delta);
                if in_a {
                    if !done_a && v == vertical {
                        (
                            Node::Split { vertical: v, ratio: clamp_ratio(ratio + delta), a: Box::new(na), b },
                            true,
                            true,
                        )
                    } else {
                        (Node::Split { vertical: v, ratio, a: Box::new(na), b }, true, done_a)
                    }
                } else {
                    let (nb, in_b, done_b) = b.adjusted(t, vertical, delta);
                    if in_b {
                        if !done_b && v == vertical {
                            (
                                Node::Split { vertical: v, ratio: clamp_ratio(ratio - delta), a, b: Box::new(nb) },
                                true,
                                true,
                            )
                        } else {
                            (Node::Split { vertical: v, ratio, a, b: Box::new(nb) }, true, done_b)
                        }
                    } else {
                        (self, false, false)
                    }
                }
            },
        }
    }

    /// The tree with every leaf whose window is not in `alive` dropped,
    /// each split that loses one side entirely collapsing into the other.
    pub open spec fn retained(self, alive: Seq<WindowId>) -> Option<Node>
        decreases self,
    {
        match self {
            Node::Leaf(w) => if alive.contains(w) {
                Some(self)
            } else {
                None
            },
            Node::Split { vertical, ratio, a, b } => match (a.retained(alive), b.retained(alive)) {
                (None, None) => None,
                (Some(na), None) => Some(na),
                (None, Some(nb)) => Some(nb),
                (Some(na), Some(nb)) => Some(
                    Node::Split { vertical, ratio, a: Box::new(na), b: Box::new(nb) },
                ),
            },
        }
    }

    /// Every leaf's window with the rectangle it gets within `area`, left to
    /// right.
    pub open spec fn layout(self, area: Rect) -> Seq<(WindowId, Rect)>
        decreases self,
    {
        match self {
            Node::Leaf(w) => seq![(w, area)],
            Node::Split { vertical, ratio, a, b } => {
                let (area_a, area_b) = split_areas(area, vertical, ratio);
                a.layout(area_a) + b.layout(area_b)
            },
        }
    }

    /// Laying the tree out within `area` keeps every intermediate value of
    /// the split arithmetic within `i32`.
    pub open spec fn lays_out_in_range(self, area: Rect) -> bool
        decreases self,
    {
        match self {
            Node::Leaf(_) => true,
            Node::Split { vertical, ratio, a, b } => {
                let (area_a, area_b) = split_areas(area, vertical, ratio);
                split_in_range(area, vertical, ratio) && a.lays_out_in_range(area_a) && b.lays_out_in_range(area_b)
            },
        }
    }
}

/// Splitting `area` keeps within `i32`: the first child's extent less the
/// gap, the second child's start (the share added first, then the gap) and
/// its extent.
pub open spec fn split_in_range(area: Rect, vertical: bool, ratio: u32) -> bool {
    let pos: int = if vertical { area.loc.x as int } else { area.loc.y as int };
    let len: i32 = if vertical { area.size.w } else { area.size.h };
    let s = share(len, ratio);
    &&& in_i32(s - HALF_GAP)
    &&& in_i32(pos + s)
    &&& in_i32(pos + s + HALF_GAP)
    &&& in_i32(len - s - HALF_GAP)
}

/// The tree of a workspace lays out within `area` inside `i32`.
pub open spec fn tree_in_range(t: TreeView, area: Rect) -> bool {
    match t.0 {
        Some(n) => n.lays_out_in_range(area),
        None => true,
    }
}

pub open spec fn clamp_ratio(r: int) -> u32 {
    if r < MIN_RATIO {
        MIN_RATIO as u32
    } else if r > MAX_RATIO {
        MAX_RATIO as u32
    } else {
        r as u32
    }
}

pub open spec fn opt_leaves(n: Option<Node>) -> Seq<WindowId> {
    match n {
        Some(n) => n.leaves(),
        None => seq![],
    }
}

pub open spec fn opt_wf(n: Option<Node>) -> bool {
    match n {
        Some(n) => n.wf(),
        None => true,
    }
}

/// The leaf a new window is split against: `target` if it is tiled here,
/// else the last window inserted if it still is, else the first leaf.
pub open spec fn split_target(root: Node, target: Option<WindowId>, last: Option<WindowId>) -> WindowId {
    if target is Some && root.leaves().contains(target->0) {
        target->0
    } else if last is Some && root.leaves().contains(last->0) {
        last->0
    } else {
        root.leaves()[0]
    }
}

/// The tree after tiling `w` into the non-empty tree `root` laid out in
/// `area`: the target leaf becomes a split, half for the target and half
/// for `w`, running along the longer side of the target's rectangle.
pub open spec fn inserted(
    root: Node,
    w: WindowId,
    area: Rect,
    target: Option<WindowId>,
    last: Option<WindowId>,
) -> Node {
    let t = split_target(root, target, last);
    let rect = match find_rect(root.layout(area), t) {
        Some(r) => r,
        None => area,
    };
    root.replace_first(
        t,
        Node::Split {
            vertical: rect.size.w >= rect.size.h,
            ratio: EVEN_RATIO,
            a: Box::new(Node::Leaf(t)),
            b: Box::new(Node::Leaf(w)),
        },
    )
}

proof fn lemma_leaves_nonempty(n: Node)
    ensures
        n.leaves().len() >= 1,
    decreases n,
{
    match n {
        Node::Leaf(_) => {},
        Node::Split { a, b, .. } => {
            lemma_leaves_nonempty(*a);
        },
    }
}

/// With `0 <= ratio <= 1000`, the first child's share has the sign of `len`
/// and is no larger in magnitude.
proof fn lemma_share_bounds(len: i32, ratio: u32)
    requires
        ratio <= 1000,
    ensures
        len >= 0 ==> 0 <= share(len, ratio) <= len,
        len < 0 ==> len <= share(len, ratio) <= 0,
{
    let p = len as int * ratio as int;
    if len >= 0 {
        assert(0 <= p <= len as int * 1000) by (nonlinear_arith)
            requires
                len >= 0,
                ratio <= 1000,
                p == len as int * ratio as int,
        ;
    } else {
        let q = (-len) as int * ratio as int;
        assert(0 <= q <= (-len) as int * 1000) by (nonlinear_arith)
            requires
                len < 0,
                ratio <= 1000,
                q == (-len) as int * ratio as int,
        ;
        assert(-p == q) by (nonlinear_arith)
            requires
                p == len as int * ratio as int,
                q == (-len) as int * ratio as int,
        ;
    }
}

/// Layout keeps every window of the tree, in leaf order.
pub proof fn law_layout_places_every_window(n: Node, area: Rect)
    ensures
        n.layout(area).len() == n.leaves().len(),
        forall|i: int| 0 <= i < n.leaves().len() ==> #[trigger] n.layout(area)[i].0 == n.leaves()[i],
    decreases n,
{
    match n {
        Node::Leaf(_) => {},
        Node::Split { vertical, ratio, a, b } => {
            let (aa, ab) = split_areas(area, vertical, ratio);
            law_layout_places_every_window(*a, aa);
            law_layout_places_every_window(*b, ab);
            assert forall|i: int| 0 <= i < n.leaves().len() implies #[trigger] n.layout(area)[i].0
                == n.leaves()[i] by {
                if i < a.leaves().len() {
                    assert(n.layout(area)[i] == a.layout(aa)[i]);
                } else {
                    assert(n.layout(area)[i] == b.layout(ab)[i - a.leaves().len()]);
                }
            }
        },
    }
}

fn tree_contains(node: &Node, w: WindowId) -> (r: bool)
    ensures
        r == node.leaves().contains(w),
    decreases node,
{
    match node {
        Node::Leaf(x) => {
            assert(node.leaves()[0] == *x);
            *x == w
        },
        Node::Split { a, b, .. } => {
            let r = tree_contains(a, w) || tree_contains(b, w);
            proof {
                let la = a.leaves();
                let lb = b.leaves();
                if la.contains(w) {
                    let i = choose|i: int| 0 <= i < la.len() && la[i] == w;
                    assert((la + lb)[i] == w);
                }
                if lb.contains(w) {
                    let i = choose|i: int| 0 <= i < lb.len() && lb[i] == w;
                    assert((la + lb)[la.len() + i] == w);
                }
                if (la + lb).contains(w) {
                    let i = choose|i: int| 0 <= i < (la + lb).len() && (la + lb)[i] == w;
                    if i < la.len() {
                        assert(la[i] == w);
                    } else {
                        assert(lb[i - la.len()] == w);
                    }
                }
            }
            r
        },
    }
}

fn first_leaf(node: &Node) -> (w: WindowId)
    ensures
        w == node.leaves()[0],
    decreases node,
{
    match node {
        Node::Leaf(x) => *x,
        Node::Split { a, .. } => {
            proof {
                lemma_leaves_nonempty(**a);
            }
            first_leaf(a)
        },
    }
}

fn collect_leaves(node: &Node, out: &mut Vec<WindowId>)
    ensures
        final(out)@ == old(out)@ + node.leaves(),
    decreases node,
{
    match node {
        Node::Leaf(x) => {
            out.push(*x);
        },
        Node::Split { a, b, .. } => {
            collect_leaves(a, out);
            collect_leaves(b, out);
            assert(old(out)@ + a.leaves() + b.leaves() == old(out)@ + (a.leaves() + b.leaves()));
        },
    }
}

fn replace_leaf(node: Node, t: WindowId, r: Node) -> (res: Node)
    ensures
        res == node.replace_first(t, r),
    decreases node,
{
    match node {
        Node::Leaf(w) => {
            if w == t {
                r
            } else {
                Node::Leaf(w)
            }
        },
        Node::Split { vertical, ratio, a, b } => {
            if tree_contains(&a, t) {
                Node::Split { vertical, ratio, a: Box::new(replace_leaf(*a, t, r)), b }
            } else {
                Node::Split { vertical, ratio, a, b: Box::new(replace_leaf(*b, t, r)) }
            }
        },
    }
}

fn remove_rec(node: Node, t: WindowId) -> (res: (Option<Node>, bool))
    ensures
        res.0 == node.remove_first(t),
        res.1 == node.leaves().contains(t),
    decreases node,
{
    let ghost g = node;
    let found = tree_contains(&node, t);
    match node {
        Node::Leaf(w) => {
            if w == t {
                (None, found)
            } else {
                (Some(Node::Leaf(w)), found)
            }
        },
        Node::Split { vertical, ratio, a, b } => {
            proof {
                let la = a.leaves();
                let lb = b.leaves();
                if la.contains(t) {
                    let i = choose|i: int| 0 <= i < la.len() && la[i] == t;
                    assert((la + lb)[i] == t);
                }
                if lb.contains(t) {
                    let i = choose|i: int| 0 <= i < lb.len() && lb[i] == t;
                    assert((la + lb)[la.len() + i] == t);
                }
            }
            if tree_contains(&a, t) {
                let (new_a, _) = remove_rec(*a, t);
                match new_a {
                    None => (Some(*b), true),
                    Some(na) => (Some(Node::Split { vertical, ratio, a: Box::new(na), b }), true),
                }
            } else if tree_contains(&b, t) {
                let (new_b, _) = remove_rec(*b, t);
                match new_b {
                    None => (Some(*a), true),
                    Some(nb) => (Some(Node::Split { vertical, ratio, a, b: Box::new(nb) }), true),
                }
            } else {
                (Some(Node::Split { vertical, ratio, a, b }), found)
            }
        },
    }
}

fn swap_rec(node: Node, x: WindowId, y: WindowId) -> (res: Node)
    ensures
        res == node.swapped(x, y),
    decreases node,
{
    match node {
        Node::Leaf(w) => {
            if w == x {
                Node::Leaf(y)
            } else if w == y {
                Node::Leaf(x)
            } else {
                Node::Leaf(w)
            }
        },
        Node::Split { vertical, ratio, a, b } => Node::Split {
            vertical,
            ratio,
            a: Box::new(swap_rec(*a, x, y)),
            b: Box::new(swap_rec(*b, x, y)),
        },
    }
}

fn clamp_exec(r: i64) -> (c: u32)
    requires
        -0x1_0000_0000 <= r <= 0x1_0000_0000,
    ensures
        c == clamp_ratio(r as int),
{
    if r < MIN_RATIO as i64 {
        MIN_RATIO as u32
    } else if r > MAX_RATIO as i64 {
        MAX_RATIO as u32
    } else {
        r as u32
    }
}

fn adjust_rec(node: Node, t: WindowId, vertical: bool, delta: i32) -> (res: (Node, bool, bool))
    requires
        node.wf(),
    ensures
        res == node.adjusted(t, vertical, delta as int),
    decreases node,
{
    match node {
        Node::Leaf(w) => (Node::Leaf(w), w == t, false),
        Node::Split { vertical: v, ratio, a, b } => {
            let (na, in_a, done_a) = adjust_rec(*a, t, vertical, delta);
            if in_a {
                if !done_a && v == vertical {
                    let r = clamp_exec(ratio as i64 + delta as i64);
                    (Node::Split { vertical: v, ratio: r, a: Box::new(na), b }, true, true)
                } else {
                    (Node::Split { vertical: v, ratio, a: Box::new(na), b }, true, done_a)
                }
            } else {
                let (nb, in_b, done_b) = adjust_rec(*b, t, vertical, delta);
                if in_b {
                    if !done_b && v == vertical {
                        let r = clamp_exec(ratio as i64 - delta as i64);
                        (Node::Split { vertical: v, ratio: r, a: Box::new(na), b: Box::new(nb) }, true, true)
                    } else {
                        (Node::Split { vertical: v, ratio, a: Box::new(na), b: Box::new(nb) }, true, done_b)
                    }
                } else {
                    (Node::Split { vertical: v, ratio, a: Box::new(na), b: Box::new(nb) }, false, false)
                }
            }
        },
    }
}

fn retain_rec(node: Node, alive: &Vec<WindowId>) -> (res: Option<Node>)
    ensures
        res == node.retained(alive@),
    decreases node,
{
    match node {
        Node::Leaf(w) => {
            if vec_contains(alive, w) {
                Some(Node::Leaf(w))
            } else {
                None
            }
        },
        Node::Split { vertical, ratio, a, b } => {
            let ra = retain_rec(*a, alive);
            let rb = retain_rec(*b, alive);
            match (ra, rb) {
                (None, None) => None,
                (Some(na), None) => Some(na),
                (None, Some(nb)) => Some(nb),
                (Some(na), Some(nb)) => Some(
                    Node::Split { vertical, ratio, a: Box::new(na), b: Box::new(nb) },
                ),
            }
        },
    }
}

pub fn vec_contains(v: &Vec<WindowId>, w: WindowId) -> (r: bool)
    ensures
        r == v@.contains(w),
{
    for i in 0..v.len()
        invariant
            forall|j: int| 0 <= j < i ==> v@[j] != w,
    {
        if v[i] == w {
            return true;
        }
    }
    false
}

/// The extent given to the first child of a split, as `share` describes.
fn share_exec(len: i32, ratio: u32) -> (s: i32)
    requires
        ratio <= 1000,
    ensures
        s == share(len, ratio),
{
    proof {
        lemma_share_bounds(len, ratio);
    }
    if len >= 0 {
        let l: i64 = len as i64;
        let r: i64 = ratio as i64;
        assert(0 <= l * r <= 0x8000_0000 * 1000) by (nonlinear_arith)
            requires
                0 <= l <= 0x8000_0000,
                0 <= r <= 1000,
        ;
        let p: i64 = l * r;
        (p / 1000) as i32
    } else {
        let l: i64 = -(len as i64);
        let r: i64 = ratio as i64;
        assert(0 <= l * r <= 0x8000_0000 * 1000) by (nonlinear_arith)
            requires
                0 <= l <= 0x8000_0000,
                0 <= r <= 1000,
        ;
        assert(l * r == -(len as int * ratio as int)) by (nonlinear_arith)
            requires
                l == -(len as int),
                r == ratio as int,
        ;
        let p: i64 = l * r;
        (-(p / 1000)) as i32
    }
}

fn split_areas_exec(area: Rect, vertical: bool, ratio: u32) -> (r: (Rect, Rect))
    requires
        ratio <= 1000,
        split_in_range(area, vertical, ratio),
    ensures
        r == split_areas(area, vertical, ratio),
{
    proof {
        lemma_share_bounds(area.size.w, ratio);
        lemma_share_bounds(area.size.h, ratio);
    }
    if vertical {
        let wa = share_exec(area.size.w, ratio);
        (
            Rect { loc: area.loc, size: Size { w: wa - HALF_GAP, h: area.size.h } },
            Rect {
                loc: Point { x: area.loc.x + wa + HALF_GAP, y: area.loc.y },
                size: Size { w: area.size.w - wa - HALF_GAP, h: area.size.h },
            },
        )
    } else {
        let ha = share_exec(area.size.h, ratio);
        (
            Rect { loc: area.loc, size: Size { w: area.size.w, h: ha - HALF_GAP } },
            Rect {
                loc: Point { x: area.loc.x, y: area.loc.y + ha + HALF_GAP },
                size: Size { w: area.size.w, h: area.size.h - ha - HALF_GAP },
            },
        )
    }
}

fn split_in_range_exec(area: Rect, vertical: bool, ratio: u32) -> (r: bool)
    requires
        ratio <= 1000,
    ensures
        r == split_in_range(area, vertical, ratio),
{
    proof {
        lemma_share_bounds(area.size.w, ratio);
        lemma_share_bounds(area.size.h, ratio);
    }
    let pos: i64 = if vertical { area.loc.x as i64 } else { area.loc.y as i64 };
    let len: i32 = if vertical { area.size.w } else { area.size.h };
    let s: i64 = share_exec(len, ratio) as i64;
    let lo: i64 = i32::MIN as i64;
    let hi: i64 = i32::MAX as i64;
    let first: i64 = s - 4;
    let start: i64 = pos + s;
    let start_gap: i64 = start + 4;
    let rest: i64 = len as i64 - s - 4;
    lo <= first && first <= hi && lo <= start && start <= hi && lo <= start_gap && start_gap <= hi && lo <= rest
        && rest <= hi
}

fn node_in_range(node: &Node, area: Rect) -> (r: bool)
    requires
        node.wf(),
    ensures
        r == node.lays_out_in_range(area),
    decreases node,
{
    match node {
        Node::Leaf(_) => true,
        Node::Split { vertical, ratio, a, b } => {
            if !split_in_range_exec(area, *vertical, *ratio) {
                return false;
            }
            let (area_a, area_b) = split_areas_exec(area, *vertical, *ratio);
            node_in_range(a, area_a) && node_in_range(b, area_b)
        },
    }
}

fn layout_rec(node: &Node, area: Rect, out: &mut Vec<(WindowId, Rect)>)
    requires
        node.wf(),
        node.lays_out_in_range(area),
    ensures
        final(out)@ == old(out)@ + node.layout(area),
    decreases node,
{
    match node {
        Node::Leaf(w) => {
            out.push((*w, area));
        },
        Node::Split { vertical, ratio, a, b } => {
            let (area_a, area_b) = split_areas_exec(area, *vertical, *ratio);
            layout_rec(a, area_a, out);
            layout_rec(b, area_b, out);
            assert(old(out)@ + a.layout(area_a) + b.layout(area_b) == old(out)@ + (a.layout(area_a)
                + b.layout(area_b)));
        },
    }
}

fn find_rect_exec(rects: &Vec<(WindowId, Rect)>, w: WindowId) -> (r: Option<Rect>)
    ensures
        r == find_rect(rects@, w),
{
    let mut i: usize = 0;
    assert(rects@.skip(0) == rects@);
    while i < rects.len()
        invariant
            i <= rects@.len(),
            find_rect(rects@, w) == find_rect(rects@.skip(i as int), w),
        decreases rects.len() - i,
    {
        let ghost s = rects@.skip(i as int);
        if rects[i].0 == w {
            assert(s[0] == rects@[i as int]);
            return Some(rects[i].1);
        }
        assert(s.drop_first() == rects@.skip(i + 1));
        i = i + 1;
    }
    assert(rects@.skip(i as int).len() == 0);
    None
}

/// One workspace's tiling tree.
pub struct TilingLayout {
    root: Option<Node>,
    /// The most recently inserted window, used as the split target when there
    /// is no focused window to split against.
    last: Option<WindowId>,
}

impl TilingLayout {
    pub closed spec fn root_view(self) -> Option<Node> {
        self.root
    }

    pub closed spec fn last_view(self) -> Option<WindowId> {
        self.last
    }

    /// The tiled windows, in leaf order.
    pub open spec fn spec_windows(self) -> Seq<WindowId> {
        opt_leaves(self.root_view())
    }

    pub open spec fn wf(self) -> bool {
        opt_wf(self.root_view())
    }

    /// Laying this tree out within `area` stays within `i32`.
    pub open spec fn lays_out_in_range(self, area: Rect) -> bool {
        tree_in_range((self.root_view(), self.last_view()), area)
    }

    pub open spec fn spec_layout(self, area: Rect) -> Seq<(WindowId, Rect)> {
        match self.root_view() {
            Some(r) => r.layout(area),
            None => seq![],
        }
    }

    pub fn new() -> (t: TilingLayout)
        ensures
            t.root_view() is None,
            t.last_view() is None,
            t.wf(),
    {
        TilingLayout { root: None, last: None }
    }

    pub fn is_empty(&self) -> (r: bool)
        ensures
            r == (self.root_view() is None),
            r == (self.spec_windows().len() == 0),
    {
        proof {
            if self.root is Some {
                lemma_leaves_nonempty(self.root->0);
            }
        }
        self.root.is_none()
    }

    pub fn contains(&self, window: WindowId) -> (r: bool)
        ensures
            r == self.spec_windows().contains(window),
    {
        match &self.root {
            Some(n) => tree_contains(n, window),
            None => false,
        }
    }

    /// The tiled windows, in leaf order.
    pub fn windows(&self) -> (out: Vec<WindowId>)
        ensures
            out@ == self.spec_windows(),
    {
        let mut out: Vec<WindowId> = Vec::new();
        if let Some(root) = &self.root {
            collect_leaves(root, &mut out);
            assert(out@ == Seq::<WindowId>::empty() + root.leaves());
        }
        out
    }

    /// Tiles `window`, splitting in half the leaf for `target` if that is
    /// tiled here, else the leaf of the last inserted window if it still is,
    /// else the first leaf.
    pub fn insert(&mut self, window: WindowId, area: Rect, target: Option<WindowId>)
        requires
            old(self).wf(),
            old(self).lays_out_in_range(area),
        ensures
            final(self).wf(),
            final(self).last_view() == Some(window),
            final(self).root_view() == match old(self).root_view() {
                None => Some(Node::Leaf(window)),
                Some(r) => Some(inserted(r, window, area, target, old(self).last_view())),
            },
    {
        let prev_last = self.last;
        self.last = Some(window);
        let root = match self.root.take() {
            None => {
                self.root = Some(Node::Leaf(window));
                return;
            },
            Some(r) => r,
        };
        let t = match target {
            Some(t) if tree_contains(&root, t) => t,
            _ => match prev_last {
                Some(l) if tree_contains(&root, l) => l,
                _ => first_leaf(&root),
            },
        };
        let mut rects: Vec<(WindowId, Rect)> = Vec::new();
        layout_rec(&root, area, &mut rects);
        assert(rects@ == root.layout(area));
        let rect = match find_rect_exec(&rects, t) {
            Some(r) => r,
            None => area,
        };
        let vertical = rect.size.w >= rect.size.h;
        let ghost old_root = root;
        let new_root = replace_leaf(
            root,
            t,
            Node::Split {
                vertical,
                ratio: EVEN_RATIO,
                a: Box::new(Node::Leaf(t)),
                b: Box::new(Node::Leaf(window)),
            },
        );
        proof {
            assert(Node::Leaf(t).wf());
            assert(Node::Leaf(window).wf());
            lemma_replace_wf(old_root, t, Node::Split {
                vertical,
                ratio: EVEN_RATIO,
                a: Box::new(Node::Leaf(t)),
                b: Box::new(Node::Leaf(window)),
            });
        }
        self.root = Some(new_root);
    }

    /// Removes the first leaf holding `window`, collapsing its sibling into
    /// its slot. Returns whether the window was tiled here.
    pub fn remove(&mut self, window: WindowId) -> (found: bool)
        requires
            old(self).wf(),
        ensures
            final(self).wf(),
            found == old(self).spec_windows().contains(window),
            final(self).root_view() == match old(self).root_view() {
                None => None,
                Some(r) => r.remove_first(window),
            },
            final(self).last_view() == if old(self).last_view() == Some(window) {
                None
            } else {
                old(self).last_view()
            },
    {
        if self.last == Some(window) {
            self.last = None;
        }
        let root = match self.root.take() {
            None => return false,
            Some(r) => r,
        };
        let ghost g = root;
        let (new_root, found) = remove_rec(root, window);
        proof {
            lemma_remove_wf(g, window);
        }
        self.root = new_root;
        found
    }

    /// Swaps the positions of two tiled windows.
    pub fn swap(&mut self, a: WindowId, b: WindowId)
        requires
            old(self).wf(),
        ensures
            final(self).wf(),
            final(self).last_view() == old(self).last_view(),
            final(self).root_view() == match old(self).root_view() {
                None => None,
                Some(r) => Some(r.swapped(a, b)),
            },
    {
        match self.root.take() {
            None => {},
            Some(r) => {
                let ghost g = r;
                let n = swap_rec(r, a, b);
                proof {
                    lemma_swap_wf(g, a, b);
                }
                self.root = Some(n);
            },
        }
    }

    /// Grows (positive `delta`) or shrinks (negative) `window`'s share of the
    /// nearest split above it that runs along `vertical`, in thousandths.
    pub fn adjust_ratio(&mut self, window: WindowId, vertical: bool, delta: i32)
        requires
            old(self).wf(),
        ensures
            final(self).wf(),
            final(self).last_view() == old(self).last_view(),
            final(self).root_view() == match old(self).root_view() {
                None => None,
                Some(r) => Some(r.adjusted(window, vertical, delta as int).0),
            },
    {
        match self.root.take() {
            None => {},
            Some(r) => {
                let ghost g = r;
                let (n, _, _) = adjust_rec(r, window, vertical, delta);
                proof {
                    lemma_adjust_wf(g, window, vertical, delta as int);
                }
                self.root = Some(n);
            },
        }
    }

    /// Removes every window not in `alive`. Returns whether the tree changed.
    pub fn retain_alive(&mut self, alive: &Vec<WindowId>) -> (changed: bool)
        requires
            old(self).wf(),
        ensures
            final(self).wf(),
            changed == exists|i: int|
                0 <= i < old(self).spec_windows().len() && !alive@.contains(
                    #[trigger] old(self).spec_windows()[i],
                ),
            final(self).root_view() == match old(self).root_view() {
                None => None,
                Some(r) => r.retained(alive@),
            },
            final(self).last_view() == match old(self).last_view() {
                Some(l) => if old(self).spec_windows().contains(l) && !alive@.contains(l) {
                    None
                } else {
                    Some(l)
                },
                None => None,
            },
    {
        let ws = self.windows();
        let mut changed = false;
        let mut i: usize = 0;
        while i < ws.len()
            invariant
                ws@ == old(self).spec_windows(),
                i <= ws@.len(),
                changed == exists|j: int| 0 <= j < i && !alive@.contains(#[trigger] ws@[j]),
            decreases ws.len() - i,
        {
            if !vec_contains(alive, ws[i]) {
                changed = true;
            }
            i = i + 1;
        }
        match self.last {
            Some(l) => {
                if vec_contains(&ws, l) && !vec_contains(alive, l) {
                    self.last = None;
                }
            },
            None => {},
        }
        match self.root.take() {
            None => {},
            Some(r) => {
                let ghost g = r;
                let n = retain_rec(r, alive);
                proof {
                    lemma_retain_wf(g, alive@);
                }
                self.root = n;
            },
        }
        changed
    }

    /// Whether laying this tree out within `area` stays within `i32`, as
    /// `insert` and `layout` require.
    pub fn check_in_range(&self, area: Rect) -> (r: bool)
        requires
            self.wf(),
        ensures
            r == self.lays_out_in_range(area),
    {
        match &self.root {
            Some(n) => node_in_range(n, area),
            None => true,
        }
    }

    /// The on-screen rectangle of every tiled window within `area`, in leaf
    /// order.
    pub fn layout(&self, area: Rect) -> (out: Vec<(WindowId, Rect)>)
        requires
            self.wf(),
            self.lays_out_in_range(area),
        ensures
            out@ == self.spec_layout(area),
    {
        let mut out: Vec<(WindowId, Rect)> = Vec::new();
        if let Some(root) = &self.root {
            layout_rec(root, area, &mut out);
            assert(out@ == Seq::<(WindowId, Rect)>::empty() + root.layout(area));
        }
        out
    }
}

proof fn lemma_replace_wf(n: Node, t: WindowId, r: Node)
    requires
        n.wf(),
        r.wf(),
    ensures
        n.replace_first(t, r).wf(),
    decreases n,
{
    match n {
        Node::Leaf(_) => {},
        Node::Split { a, b, .. } => {
            lemma_replace_wf(*a, t, r);
            lemma_replace_wf(*b, t, r);
        },
    }
}

proof fn lemma_remove_wf(n: Node, t: WindowId)
    requires
        n.wf(),
    ensures
        opt_wf(n.remove_first(t)),
    decreases n,
{
    match n {
        Node::Leaf(_) => {},
        Node::Split { a, b, .. } => {
            lemma_remove_wf(*a, t);
            lemma_remove_wf(*b, t);
        },
    }
}

proof fn lemma_swap_wf(n: Node, x: WindowId, y: WindowId)
    requires
        n.wf(),
    ensures
        n.swapped(x, y).wf(),
    decreases n,
{
    match n {
        Node::Leaf(_) => {},
        Node::Split { a, b, .. } => {
            lemma_swap_wf(*a, x, y);
            lemma_swap_wf(*b, x, y);
        },
    }
}

proof fn lemma_adjust_wf(n: Node, t: WindowId, vertical: bool, delta: int)
    requires
        n.wf(),
    ensures
        n.adjusted(t, vertical, delta).0.wf(),
    decreases n,
{
    match n {
        Node::Leaf(_) => {},
        Node::Split { a, b, .. } => {
            lemma_adjust_wf(*a, t, vertical, delta);
            lemma_adjust_wf(*b, t, vertical, delta);
        },
    }
}

proof fn lemma_retain_wf(n: Node, alive: Seq<WindowId>)
    requires
        n.wf(),
    ensures
        opt_wf(n.retained(alive)),
    decreases n,
{
    match n {
        Node::Leaf(_) => {},
        Node::Split { a, b, .. } => {
            lemma_retain_wf(*a, alive);
            lemma_retain_wf(*b, alive);
        },
    }
}


/// `s` with `w` placed right after the first occurrence of `x` (unchanged if
/// `x` does not occur).
pub open spec fn seq_insert_after(s: Seq<WindowId>, x: WindowId, w: WindowId) -> Seq<WindowId>
    decreases s.len(),
{
    if s.len() == 0 {
        s
    } else if s[0] == x {
        seq![x, w] + s.drop_first()
    } else {
        seq![s[0]] + seq_insert_after(s.drop_first(), x, w)
    }
}

/// `s` without the first occurrence of `x` (unchanged if `x` does not occur).
pub open spec fn seq_remove_first(s: Seq<WindowId>, x: WindowId) -> Seq<WindowId>
    decreases s.len(),
{
    if s.len() == 0 {
        s
    } else if s[0] == x {
        s.drop_first()
    } else {
        seq![s[0]] + seq_remove_first(s.drop_first(), x)
    }
}

pub open spec fn swap_id(w: WindowId, x: WindowId, y: WindowId) -> WindowId {
    if w == x {
        y
    } else if w == y {
        x
    } else {
        w
    }
}

proof fn lemma_contains_concat(a: Seq<WindowId>, b: Seq<WindowId>, x: WindowId)
    ensures
        (a + b).contains(x) == (a.contains(x) || b.contains(x)),
{
    if a.contains(x) {
        let i = choose|i: int| 0 <= i < a.len() && a[i] == x;
        assert((a + b)[i] == x);
    }
    if b.contains(x) {
        let i = choose|i: int| 0 <= i < b.len() && b[i] == x;
        assert((a + b)[a.len() + i] == x);
    }
    if (a + b).contains(x) {
        let i = choose|i: int| 0 <= i < (a + b).len() && (a + b)[i] == x;
        if i < a.len() {
            assert(a[i] == x);
        } else {
            assert(b[i - a.len()] == x);
        }
    }
}

proof fn lemma_insert_after_concat(a: Seq<WindowId>, b: Seq<WindowId>, x: WindowId, w: WindowId)
    ensures
        seq_insert_after(a + b, x, w) == if a.contains(x) {
            seq_insert_after(a, x, w) + b
        } else {
            a + seq_insert_after(b, x, w)
        },
    decreases a.len(),
{
    if a.len() == 0 {
        assert(a + b == b);
    } else {
        assert((a + b)[0] == a[0]);
        assert((a + b).drop_first() == a.drop_first() + b);
        lemma_insert_after_concat(a.drop_first(), b, x, w);
        if a[0] == x {
            assert(a.contains(x));
        } else {
            if a.drop_first().contains(x) {
                let i = choose|i: int| 0 <= i < a.drop_first().len() && a.drop_first()[i] == x;
                assert(a[i + 1] == x);
            }
            if a.contains(x) {
                let i = choose|i: int| 0 <= i < a.len() && a[i] == x;
                assert(a.drop_first()[i - 1] == x);
            }
        }
    }
}

proof fn lemma_remove_first_concat(a: Seq<WindowId>, b: Seq<WindowId>, x: WindowId)
    ensures
        seq_remove_first(a + b, x) == if a.contains(x) {
            seq_remove_first(a, x) + b
        } else {
            a + seq_remove_first(b, x)
        },
    decreases a.len(),
{
    if a.len() == 0 {
        assert(a + b == b);
    } else {
        assert((a + b)[0] == a[0]);
        assert((a + b).drop_first() == a.drop_first() + b);
        lemma_remove_first_concat(a.drop_first(), b, x);
        if a[0] == x {
            assert(a.contains(x));
        } else {
            if a.drop_first().contains(x) {
                let i = choose|i: int| 0 <= i < a.drop_first().len() && a.drop_first()[i] == x;
                assert(a[i + 1] == x);
            }
            if a.contains(x) {
                let i = choose|i: int| 0 <= i < a.len() && a[i] == x;
                assert(a.drop_first()[i - 1] == x);
            }
        }
    }
}

proof fn lemma_not_contains_unchanged(s: Seq<WindowId>, x: WindowId, w: WindowId)
    requires
        !s.contains(x),
    ensures
        seq_insert_after(s, x, w) == s,
        seq_remove_first(s, x) == s,
    decreases s.len(),
{
    if s.len() > 0 {
        assert(s.drop_first().contains(x) ==> s.contains(x)) by {
            if s.drop_first().contains(x) {
                let i = choose|i: int| 0 <= i < s.drop_first().len() && s.drop_first()[i] == x;
                assert(s[i + 1] == x);
            }
        }
        lemma_not_contains_unchanged(s.drop_first(), x, w);
        assert(seq![s[0]] + s.drop_first() == s);
    }
}

/// Replacing the first leaf holding `t` by a split of `t` and `w` places `w`
/// right after that leaf.
proof fn lemma_replace_split_leaves(n: Node, t: WindowId, w: WindowId, vertical: bool, ratio: u32)
    ensures
        n.replace_first(
            t,
            Node::Split { vertical, ratio, a: Box::new(Node::Leaf(t)), b: Box::new(Node::Leaf(w)) },
        ).leaves() == seq_insert_after(n.leaves(), t, w),
    decreases n,
{
    let r = Node::Split { vertical, ratio, a: Box::new(Node::Leaf(t)), b: Box::new(Node::Leaf(w)) };
    match n {
        Node::Leaf(x) => {
            assert(Node::Leaf(t).leaves() == seq![t]);
            assert(Node::Leaf(w).leaves() == seq![w]);
            assert(r.leaves() == seq![t] + seq![w]);
            assert(seq![x].drop_first().len() == 0);
            if x == t {
                assert(seq![t, w] + seq![x].drop_first() == seq![t] + seq![w]);
            } else {
                assert(seq_insert_after(seq![x].drop_first(), t, w) == seq![x].drop_first());
                assert(seq![x] + seq![x].drop_first() == seq![x]);
            }
        },
        Node::Split { a, b, .. } => {
            lemma_replace_split_leaves(*a, t, w, vertical, ratio);
            lemma_replace_split_leaves(*b, t, w, vertical, ratio);
            lemma_insert_after_concat(a.leaves(), b.leaves(), t, w);
        },
    }
}

proof fn lemma_remove_first_leaves(n: Node, t: WindowId)
    ensures
        opt_leaves(n.remove_first(t)) == seq_remove_first(n.leaves(), t),
    decreases n,
{
    match n {
        Node::Leaf(x) => {
            if x != t {
                assert(seq_remove_first(seq![x].drop_first(), t) == seq![x].drop_first());
                assert(seq![x] + seq![x].drop_first() == seq![x]);
            }
        },
        Node::Split { a, b, .. } => {
            lemma_remove_first_leaves(*a, t);
            lemma_remove_first_leaves(*b, t);
            lemma_remove_first_concat(a.leaves(), b.leaves(), t);
            if !a.leaves().contains(t) && !b.leaves().contains(t) {
                lemma_not_contains_unchanged(b.leaves(), t, t);
            }
            if a.leaves().contains(t) && a.remove_first(t) is None {
                assert(seq_remove_first(a.leaves(), t) + b.leaves() == b.leaves());
            }
            if !a.leaves().contains(t) && b.leaves().contains(t) && b.remove_first(t) is None {
                assert(a.leaves() + seq_remove_first(b.leaves(), t) == a.leaves());
            }
        },
    }
}

/// Tiling a window places it, in leaf order, right after the leaf it split:
/// every window that was tiled stays tiled, in the same order.
pub proof fn law_insert_places_window_after_target(
    root: Node,
    w: WindowId,
    area: Rect,
    target: Option<WindowId>,
    last: Option<WindowId>,
)
    ensures
        inserted(root, w, area, target, last).leaves() == seq_insert_after(
            root.leaves(),
            split_target(root, target, last),
            w,
        ),
        root.leaves().contains(split_target(root, target, last)),
        inserted(root, w, area, target, last).leaves().contains(w),
{
    let t = split_target(root, target, last);
    let rect = match find_rect(root.layout(area), t) {
        Some(r) => r,
        None => area,
    };
    lemma_replace_split_leaves(root, t, w, rect.size.w >= rect.size.h, EVEN_RATIO);
    lemma_leaves_nonempty(root);
    assert(root.leaves().contains(t)) by {
        if !(target is Some && root.leaves().contains(target->0)) && !(last is Some
            && root.leaves().contains(last->0)) {
            assert(root.leaves()[0] == t);
        }
    }
    lemma_insert_after_contains(root.leaves(), t, w);
}

proof fn lemma_insert_after_contains(s: Seq<WindowId>, x: WindowId, w: WindowId)
    requires
        s.contains(x),
    ensures
        seq_insert_after(s, x, w).contains(w),
        seq_insert_after(s, x, w).len() == s.len() + 1,
    decreases s.len(),
{
    if s[0] == x {
        assert((seq![x, w] + s.drop_first())[1] == w);
    } else {
        let i = choose|i: int| 0 <= i < s.len() && s[i] == x;
        assert(s.drop_first()[i - 1] == x);
        lemma_insert_after_contains(s.drop_first(), x, w);
        let r = seq_insert_after(s.drop_first(), x, w);
        let j = choose|j: int| 0 <= j < r.len() && r[j] == w;
        assert((seq![s[0]] + r)[j + 1] == w);
    }
}

/// Removing a window takes out exactly its first leaf: the other windows
/// stay tiled, in the same order.
pub proof fn law_remove_takes_out_first_occurrence(root: Node, w: WindowId)
    ensures
        opt_leaves(root.remove_first(w)) == seq_remove_first(root.leaves(), w),
{
    lemma_remove_first_leaves(root, w);
}

proof fn lemma_replace_then_remove(n: Node, t: WindowId, w: WindowId, vertical: bool, ratio: u32)
    requires
        !n.leaves().contains(w),
        n.leaves().contains(t),
    ensures
        n.replace_first(
            t,
            Node::Split { vertical, ratio, a: Box::new(Node::Leaf(t)), b: Box::new(Node::Leaf(w)) },
        ).remove_first(w) == Some(n),
    decreases n,
{
    let r = Node::Split { vertical, ratio, a: Box::new(Node::Leaf(t)), b: Box::new(Node::Leaf(w)) };
    match n {
        Node::Leaf(x) => {
            assert(n.leaves()[0] == x);
            assert(x == t);
            assert(Node::Leaf(t).leaves() == seq![t]);
            assert(Node::Leaf(w).leaves() == seq![w]);
            assert(t != w);
            assert(!seq![t].contains(w)) by {
                if seq![t].contains(w) {
                    assert(seq![t][0] == w);
                }
            }
            assert(seq![w][0] == w);
            assert(seq![w].contains(w));
            assert(Node::Leaf(w).remove_first(w) is None);
            assert(n.replace_first(t, r) == r);
        },
        Node::Split { vertical: v, ratio: q, a, b } => {
            lemma_contains_concat(a.leaves(), b.leaves(), w);
            lemma_contains_concat(a.leaves(), b.leaves(), t);
            if a.leaves().contains(t) {
                lemma_replace_then_remove(*a, t, w, vertical, ratio);
                lemma_replace_split_leaves(*a, t, w, vertical, ratio);
                lemma_insert_after_contains(a.leaves(), t, w);
            } else {
                lemma_replace_then_remove(*b, t, w, vertical, ratio);
                lemma_replace_split_leaves(*a, t, w, vertical, ratio);
                lemma_replace_split_leaves(*b, t, w, vertical, ratio);
                lemma_insert_after_contains(b.leaves(), t, w);
                lemma_not_contains_unchanged(a.leaves(), t, w);
            }
        },
    }
}

/// Untiling a window right after tiling it gives back exactly the tree it
/// was tiled into, splits and ratios included, provided it was not already
/// tiled there.
pub proof fn law_remove_undoes_insert(
    root: Node,
    w: WindowId,
    area: Rect,
    target: Option<WindowId>,
    last: Option<WindowId>,
)
    requires
        !root.leaves().contains(w),
    ensures
        inserted(root, w, area, target, last).remove_first(w) == Some(root),
{
    let t = split_target(root, target, last);
    law_insert_places_window_after_target(root, w, area, target, last);
    let rect = match find_rect(root.layout(area), t) {
        Some(r) => r,
        None => area,
    };
    lemma_replace_then_remove(root, t, w, rect.size.w >= rect.size.h, EVEN_RATIO);
}

/// Tiling a new window splits the leaf of the requested target whenever the
/// target is tiled in the tree, whichever window was inserted last; only
/// when it is not does the last inserted window's leaf split, and failing
/// that the first leaf. The new window's leaf comes right after the split
/// one in leaf order.
pub proof fn law_insert_splits_the_target(
    root: Node,
    w: WindowId,
    area: Rect,
    target: Option<WindowId>,
    last: Option<WindowId>,
)
    ensures
        target is Some && root.leaves().contains(target->0) ==> inserted(root, w, area, target, last).leaves()
            == seq_insert_after(root.leaves(), target->0, w),
        !(target is Some && root.leaves().contains(target->0)) && last is Some && root.leaves().contains(last->0)
            ==> inserted(root, w, area, target, last).leaves() == seq_insert_after(root.leaves(), last->0, w),
        !(target is Some && root.leaves().contains(target->0)) && !(last is Some && root.leaves().contains(last->0))
            ==> inserted(root, w, area, target, last).leaves() == seq_insert_after(root.leaves(), root.leaves()[0], w),
{
    law_insert_places_window_after_target(root, w, area, target, last);
}

/// Swapping exchanges the two windows' places and touches nothing else.
pub proof fn law_swap_exchanges_places(n: Node, x: WindowId, y: WindowId)
    ensures
        n.swapped(x, y).leaves() == n.leaves().map_values(|w: WindowId| swap_id(w, x, y)),
    decreases n,
{
    match n {
        Node::Leaf(w) => {
            assert(n.swapped(x, y).leaves() =~= n.leaves().map_values(|w: WindowId| swap_id(w, x, y)));
        },
        Node::Split { a, b, .. } => {
            law_swap_exchanges_places(*a, x, y);
            law_swap_exchanges_places(*b, x, y);
            assert(n.swapped(x, y).leaves() =~= n.leaves().map_values(|w: WindowId| swap_id(w, x, y)));
        },
    }
}

/// Swapping exchanges the two windows' rectangles: within any area, the
/// swapped tree lays each window out where the other one was, and every
/// other window where it was.
pub proof fn law_swap_exchanges_rectangles(n: Node, x: WindowId, y: WindowId, area: Rect)
    ensures
        n.swapped(x, y).layout(area) == n.layout(area).map_values(
            |p: (WindowId, Rect)| (swap_id(p.0, x, y), p.1),
        ),
    decreases n,
{
    match n {
        Node::Leaf(w) => {
            assert(n.swapped(x, y).layout(area) =~= n.layout(area).map_values(
                |p: (WindowId, Rect)| (swap_id(p.0, x, y), p.1),
            ));
        },
        Node::Split { vertical, ratio, a, b } => {
            let (aa, ab) = split_areas(area, vertical, ratio);
            law_swap_exchanges_rectangles(*a, x, y, aa);
            law_swap_exchanges_rectangles(*b, x, y, ab);
            assert(n.swapped(x, y).layout(area) =~= n.layout(area).map_values(
                |p: (WindowId, Rect)| (swap_id(p.0, x, y), p.1),
            ));
        },
    }
}

/// Swapping the same two windows twice restores the tree.
pub proof fn law_swap_twice_restores(n: Node, x: WindowId, y: WindowId)
    ensures
        n.swapped(x, y).swapped(x, y) == n,
    decreases n,
{
    match n {
        Node::Leaf(w) => {},
        Node::Split { a, b, .. } => {
            law_swap_twice_restores(*a, x, y);
            law_swap_twice_restores(*b, x, y);
        },
    }
}

/// Resizing changes ratios only: the windows, their order and the shape of
/// the tree stay as they were.
pub proof fn law_resize_keeps_windows(n: Node, t: WindowId, vertical: bool, delta: int)
    ensures
        n.adjusted(t, vertical, delta).0.leaves() == n.leaves(),
        n.adjusted(t, vertical, delta).1 == n.leaves().contains(t),
    decreases n,
{
    match n {
        Node::Leaf(w) => {
            if n.leaves().contains(t) {
                assert(n.leaves()[0] == w);
            }
        },
        Node::Split { a, b, .. } => {
            law_resize_keeps_windows(*a, t, vertical, delta);
            law_resize_keeps_windows(*b, t, vertical, delta);
            lemma_contains_concat(a.leaves(), b.leaves(), t);
        },
    }
}

/// The first leaf holding `t` lies below some split running along
/// `vertical` (side by side when `vertical`, stacked otherwise).
pub open spec fn axis_above(n: Node, t: WindowId, vertical: bool) -> bool
    decreases n,
{
    match n {
        Node::Leaf(_) => false,
        Node::Split { vertical: v, a, b, .. } => if a.leaves().contains(t) {
            v == vertical || axis_above(*a, t, vertical)
        } else if b.leaves().contains(t) {
            v == vertical || axis_above(*b, t, vertical)
        } else {
            false
        },
    }
}

/// A resize adjusts a split exactly when one runs along the axis above the
/// window, and leaves the tree alone otherwise.
proof fn lemma_resize_done_iff_axis_above(n: Node, t: WindowId, vertical: bool, delta: int)
    ensures
        n.adjusted(t, vertical, delta).2 == axis_above(n, t, vertical),
        !axis_above(n, t, vertical) ==> n.adjusted(t, vertical, delta).0 == n,
    decreases n,
{
    law_resize_keeps_windows(n, t, vertical, delta);
    match n {
        Node::Leaf(_) => {},
        Node::Split { a, b, .. } => {
            law_resize_keeps_windows(*a, t, vertical, delta);
            law_resize_keeps_windows(*b, t, vertical, delta);
            lemma_resize_done_iff_axis_above(*a, t, vertical, delta);
            lemma_resize_done_iff_axis_above(*b, t, vertical, delta);
        },
    }
}

/// A keyboard resize changes only the nearest split above the focused
/// window that runs along the requested axis. With no such split the tree
/// stays as it is. At a split whose side holding the window already has
/// one along that axis, this split keeps its ratio and the resize happens
/// inside that side; otherwise, if this split runs along the axis, it is
/// the one that moves: its ratio grows by `delta` when the window is in the
/// first child and shrinks by `delta` when it is in the second, clamped to
/// the resize bounds, and both children stay as they were.
pub proof fn law_resize_moves_only_the_nearest_split(
    v: bool,
    ratio: u32,
    a: Node,
    b: Node,
    t: WindowId,
    vertical: bool,
    delta: int,
)
    ensures
        !axis_above(a, t, vertical) ==> a.adjusted(t, vertical, delta).0 == a,
        ({
            let n = Node::Split { vertical: v, ratio, a: Box::new(a), b: Box::new(b) };
            a.leaves().contains(t) ==> n.adjusted(t, vertical, delta).0 == if axis_above(a, t, vertical) {
                Node::Split { vertical: v, ratio, a: Box::new(a.adjusted(t, vertical, delta).0), b: Box::new(b) }
            } else if v == vertical {
                Node::Split { vertical: v, ratio: clamp_ratio(ratio + delta), a: Box::new(a), b: Box::new(b) }
            } else {
                n
            }
        }),
        ({
            let n = Node::Split { vertical: v, ratio, a: Box::new(a), b: Box::new(b) };
            !a.leaves().contains(t) && b.leaves().contains(t) ==> n.adjusted(t, vertical, delta).0 == if axis_above(
                b,
                t,
                vertical,
            ) {
                Node::Split { vertical: v, ratio, a: Box::new(a), b: Box::new(b.adjusted(t, vertical, delta).0) }
            } else if v == vertical {
                Node::Split { vertical: v, ratio: clamp_ratio(ratio - delta), a: Box::new(a), b: Box::new(b) }
            } else {
                n
            }
        }),
        ({
            let n = Node::Split { vertical: v, ratio, a: Box::new(a), b: Box::new(b) };
            !a.leaves().contains(t) && !b.leaves().contains(t) ==> n.adjusted(t, vertical, delta).0 == n
        }),
{
    lemma_resize_done_iff_axis_above(a, t, vertical, delta);
    lemma_resize_done_iff_axis_above(b, t, vertical, delta);
    law_resize_keeps_windows(a, t, vertical, delta);
    law_resize_keeps_windows(b, t, vertical, delta);
}

/// A keyboard resize grows the focused window's share of the split right
/// above it, whichever side of the split it is on: the ratio (the first
/// child's share) rises when the window is the first child and falls when
/// it is the second, by one step unless the resize bound stops it.
pub proof fn law_resize_grows_focused_share(vertical: bool, ratio: u32, other: Node, f: WindowId)
    requires
        MIN_RATIO <= ratio <= MAX_RATIO,
        !other.leaves().contains(f),
    ensures
        ({
            let n = Node::Split { vertical, ratio, a: Box::new(Node::Leaf(f)), b: Box::new(other) };
            n.adjusted(f, vertical, RESIZE_STEP as int).0 == Node::Split {
                vertical,
                ratio: clamp_ratio(ratio + RESIZE_STEP),
                a: Box::new(Node::Leaf(f)),
                b: Box::new(other),
            } && ratio <= clamp_ratio(ratio + RESIZE_STEP) && (ratio < MAX_RATIO ==> ratio < clamp_ratio(
                ratio + RESIZE_STEP,
            ))
        }),
        ({
            let n = Node::Split { vertical, ratio, a: Box::new(other), b: Box::new(Node::Leaf(f)) };
            n.adjusted(f, vertical, RESIZE_STEP as int).0 == Node::Split {
                vertical,
                ratio: clamp_ratio(ratio - RESIZE_STEP),
                a: Box::new(other),
                b: Box::new(Node::Leaf(f)),
            } && clamp_ratio(ratio - RESIZE_STEP) <= ratio && (MIN_RATIO < ratio ==> clamp_ratio(
                ratio - RESIZE_STEP,
            ) < ratio)
        }),
{
    let d = RESIZE_STEP as int;
    law_resize_keeps_windows(other, f, vertical, d);
    assert(Node::Leaf(f).leaves()[0] == f);
    assert(Node::Leaf(f).adjusted(f, vertical, d) == (Node::Leaf(f), true, false));
    let n1 = Node::Split { vertical, ratio, a: Box::new(Node::Leaf(f)), b: Box::new(other) };
    assert(n1.adjusted(f, vertical, d).0 == Node::Split {
        vertical,
        ratio: clamp_ratio(ratio + d),
        a: Box::new(Node::Leaf(f)),
        b: Box::new(other),
    });
    let n2 = Node::Split { vertical, ratio, a: Box::new(other), b: Box::new(Node::Leaf(f)) };
    assert(!other.adjusted(f, vertical, d).1);
    assert(n2.adjusted(f, vertical, d).0 == Node::Split {
        vertical,
        ratio: clamp_ratio(ratio - d),
        a: Box::new(other),
        b: Box::new(Node::Leaf(f)),
    });
}

/// Dropping dead windows keeps exactly the live ones, in order.
pub proof fn law_retain_keeps_live_windows(n: Node, alive: Seq<WindowId>)
    ensures
        opt_leaves(n.retained(alive)) == n.leaves().filter(|w: WindowId| alive.contains(w)),
    decreases n,
{
    let f = |w: WindowId| alive.contains(w);
    match n {
        Node::Leaf(w) => {
            assert(seq![w].filter(f) == seq![w].drop_last().filter(f) + if f(w) { seq![w] } else { seq![] }) by {
                reveal_with_fuel(Seq::filter, 2);
            }
            assert(seq![w].drop_last() == Seq::<WindowId>::empty());
            assert(Seq::<WindowId>::empty().filter(f) == Seq::<WindowId>::empty()) by {
                reveal_with_fuel(Seq::filter, 1);
            }
        },
        Node::Split { a, b, .. } => {
            law_retain_keeps_live_windows(*a, alive);
            law_retain_keeps_live_windows(*b, alive);
            Seq::filter_distributes_over_add(a.leaves(), b.leaves(), f);
        },
    }
}


/// How well a point at `to` sits in `dir` from `from`, lower being closer:
/// four times the distance along `dir` plus the distance across it. `None`
/// if `to` does not lie strictly in that direction.
pub open spec fn spec_directional_score(dir: Direction, from: (int, int), to: (int, int)) -> Option<int> {
    let (fx, fy) = from;
    let (tx, ty) = to;
    let in_dir = match dir {
        Direction::Left => tx < fx,
        Direction::Right => tx > fx,
        Direction::Up => ty < fy,
        Direction::Down => ty > fy,
    };
    if !in_dir {
        None
    } else {
        match dir {
            Direction::Left | Direction::Right => Some(abs(tx - fx) * 4 + abs(ty - fy)),
            Direction::Up | Direction::Down => Some(abs(ty - fy) * 4 + abs(tx - fx)),
        }
    }
}

pub open spec fn center_of(r: Rect) -> (int, int) {
    r.spec_center()
}

/// `to` lies strictly in `dir` from `from`.
pub open spec fn in_direction(dir: Direction, from: (int, int), to: (int, int)) -> bool {
    match dir {
        Direction::Left => to.0 < from.0,
        Direction::Right => to.0 > from.0,
        Direction::Up => to.1 < from.1,
        Direction::Down => to.1 > from.1,
    }
}

/// Scoring `to` from `from` stays within `i32`: where `to` lies in `dir`,
/// both differences and their absolute values are `i32` values.
pub open spec fn score_in_range(dir: Direction, from: (int, int), to: (int, int)) -> bool {
    in_direction(dir, from, to) ==> {
        &&& -0x7fff_ffff <= to.0 - from.0 <= 0x7fff_ffff
        &&& -0x7fff_ffff <= to.1 - from.1 <= 0x7fff_ffff
    }
}

pub fn directional_score(dir: Direction, from: (i32, i32), to: (i32, i32)) -> (s: Option<i64>)
    requires
        score_in_range(dir, (from.0 as int, from.1 as int), (to.0 as int, to.1 as int)),
    ensures
        match s {
            None => spec_directional_score(dir, (from.0 as int, from.1 as int), (to.0 as int, to.1 as int)) is None,
            Some(v) => spec_directional_score(dir, (from.0 as int, from.1 as int), (to.0 as int, to.1 as int))
                == Some(v as int),
        },
{
    let (fx, fy) = from;
    let (tx, ty) = to;
    let in_dir = match dir {
        Direction::Left => tx < fx,
        Direction::Right => tx > fx,
        Direction::Up => ty < fy,
        Direction::Down => ty > fy,
    };
    if !in_dir {
        return None;
    }
    let dx: i64 = if tx >= fx { tx as i64 - fx as i64 } else { fx as i64 - tx as i64 };
    let dy: i64 = if ty >= fy { ty as i64 - fy as i64 } else { fy as i64 - ty as i64 };
    match dir {
        Direction::Left | Direction::Right => Some(dx * 4 + dy),
        Direction::Up | Direction::Down => Some(dy * 4 + dx),
    }
}

/// Scoring every window other than `skip` from `from` stays within `i32`:
/// its center, and its score where it lies in `dir`.
pub open spec fn scores_in_range(rects: Seq<(WindowId, Rect)>, skip: WindowId, from: (int, int), dir: Direction) -> bool {
    forall|j: int|
        0 <= j < rects.len() && (#[trigger] rects[j]).0 != skip ==> {
            &&& rects[j].1.center_in_range()
            &&& score_in_range(dir, from, center_of(rects[j].1))
        }
}

/// Looking for `focused`'s neighbor in `dir` stays within `i32`.
pub open spec fn neighbor_in_range(rects: Seq<(WindowId, Rect)>, focused: WindowId, dir: Direction) -> bool {
    match find_rect(rects, focused) {
        None => true,
        Some(fr) => fr.center_in_range() && scores_in_range(rects, focused, center_of(fr), dir),
    }
}

/// The differences of two centers are `i32` values, and the sum of their
/// squares an `i64` value.
pub open spec fn distance_in_range(a: (int, int), b: (int, int)) -> bool {
    &&& in_i32(b.0 - a.0)
    &&& in_i32(b.1 - a.1)
    &&& !(b.0 - a.0 == i32::MIN && b.1 - a.1 == i32::MIN)
}

/// Looking for the window nearest `focused` stays within `i32` (and the
/// squared distances within `i64`).
pub open spec fn nearest_in_range(rects: Seq<(WindowId, Rect)>, focused: WindowId) -> bool {
    match find_rect(rects, focused) {
        None => true,
        Some(fr) => {
            &&& fr.center_in_range()
            &&& forall|j: int|
                0 <= j < rects.len() && (#[trigger] rects[j]).0 != focused ==> {
                    &&& rects[j].1.center_in_range()
                    &&& distance_in_range(center_of(fr), center_of(rects[j].1))
                }
        },
    }
}

/// Entry `j` is a window other than `focused` lying in `dir` from `from`.
pub open spec fn is_dir_candidate(
    rects: Seq<(WindowId, Rect)>,
    focused: WindowId,
    from: (int, int),
    dir: Direction,
    j: int,
) -> bool {
    0 <= j < rects.len() && rects[j].0 != focused && spec_directional_score(
        dir,
        from,
        center_of(rects[j].1),
    ) is Some
}

pub open spec fn dir_score(rects: Seq<(WindowId, Rect)>, from: (int, int), dir: Direction, j: int) -> int {
    spec_directional_score(dir, from, center_of(rects[j].1))->0
}

/// Entry `k` is the first candidate with the lowest score.
pub open spec fn is_dir_best(
    rects: Seq<(WindowId, Rect)>,
    focused: WindowId,
    from: (int, int),
    dir: Direction,
    k: int,
) -> bool {
    &&& is_dir_candidate(rects, focused, from, dir, k)
    &&& forall|j: int| #[trigger]
        is_dir_candidate(rects, focused, from, dir, j) ==> dir_score(rects, from, dir, k) <= dir_score(
            rects,
            from,
            dir,
            j,
        )
    &&& forall|j: int|
        0 <= j < k && #[trigger] is_dir_candidate(rects, focused, from, dir, j) ==> dir_score(
            rects,
            from,
            dir,
            j,
        ) > dir_score(rects, from, dir, k)
}

/// The window in `rects` neighboring `focused` in `dir`: measured from the
/// center of `focused`'s first rectangle, the first of the lowest-scoring
/// other windows. `None` if `focused` has no rectangle or nothing lies in
/// that direction.
pub open spec fn spec_neighbor(rects: Seq<(WindowId, Rect)>, focused: WindowId, dir: Direction) -> Option<WindowId> {
    match find_rect(rects, focused) {
        None => None,
        Some(fr) => {
            let from = center_of(fr);
            if exists|k: int| is_dir_best(rects, focused, from, dir, k) {
                Some(rects[choose|k: int| is_dir_best(rects, focused, from, dir, k)].0)
            } else {
                None
            }
        },
    }
}

/// The first lowest-scoring window in `dir` from `from`, skipping `skip`.
fn best_in_direction(rects: &Vec<(WindowId, Rect)>, skip: WindowId, from: (i32, i32), dir: Direction) -> (r: Option<WindowId>)
    requires
        scores_in_range(rects@, skip, (from.0 as int, from.1 as int), dir),
    ensures
        match r {
            None => !exists|k: int| is_dir_best(rects@, skip, (from.0 as int, from.1 as int), dir, k),
            Some(w) => exists|k: int| is_dir_best(rects@, skip, (from.0 as int, from.1 as int), dir, k) && rects@[k].0 == w,
        },
{
    let ghost f = (from.0 as int, from.1 as int);
    let mut best: Option<(i64, usize)> = None;
    let mut j: usize = 0;
    while j < rects.len()
        invariant
            j <= rects@.len(),
            scores_in_range(rects@, skip, f, dir),
            f == (from.0 as int, from.1 as int),
            match best {
                None => forall|i: int| 0 <= i < j ==> !#[trigger] is_dir_candidate(rects@, skip, f, dir, i),
                Some((sc, k)) => {
                    &&& k < j
                    &&& is_dir_candidate(rects@, skip, f, dir, k as int)
                    &&& sc as int == dir_score(rects@, f, dir, k as int)
                    &&& forall|i: int| 0 <= i < j && #[trigger] is_dir_candidate(rects@, skip, f, dir, i) ==> sc <= dir_score(rects@, f, dir, i)
                    &&& forall|i: int| 0 <= i < k && #[trigger] is_dir_candidate(rects@, skip, f, dir, i) ==> sc < dir_score(rects@, f, dir, i)
                },
            },
        decreases rects.len() - j,
    {
        let (w, rect) = rects[j];
        if w != skip {
            assert(rects@[j as int].0 != skip);
            let c = rect.center();
            match directional_score(dir, from, c) {
                None => {},
                Some(score) => {
                    let better = match best {
                        None => true,
                        Some((bs, _)) => score < bs,
                    };
                    if better {
                        best = Some((score, j));
                    }
                },
            }
        }
        j = j + 1;
    }
    match best {
        None => {
            assert forall|k: int| !is_dir_best(rects@, skip, f, dir, k) by {
                if is_dir_best(rects@, skip, f, dir, k) {
                    assert(is_dir_candidate(rects@, skip, f, dir, k));
                }
            }
            None
        },
        Some((_, k)) => {
            assert(is_dir_best(rects@, skip, f, dir, k as int));
            Some(rects[k].0)
        },
    }
}

proof fn lemma_dir_best_unique(
    rects: Seq<(WindowId, Rect)>,
    focused: WindowId,
    from: (int, int),
    dir: Direction,
    k1: int,
    k2: int,
)
    requires
        is_dir_best(rects, focused, from, dir, k1),
        is_dir_best(rects, focused, from, dir, k2),
    ensures
        k1 == k2,
{
    if k1 < k2 {
        assert(is_dir_candidate(rects, focused, from, dir, k1));
    } else if k2 < k1 {
        assert(is_dir_candidate(rects, focused, from, dir, k2));
    }
}

/// The tiled window neighboring `focused` in `dir`, per `spec_neighbor`.
pub fn neighbor(rects: &Vec<(WindowId, Rect)>, focused: WindowId, dir: Direction) -> (r: Option<WindowId>)
    requires
        neighbor_in_range(rects@, focused, dir),
    ensures
        r == spec_neighbor(rects@, focused, dir),
{
    let fr = match find_rect_exec(rects, focused) {
        None => return None,
        Some(fr) => fr,
    };
    let from = fr.center();
    let r = best_in_direction(rects, focused, from, dir);
    proof {
        let f = center_of(fr);
        assert(f == (from.0 as int, from.1 as int));
        if r is Some {
            let k = choose|k: int| is_dir_best(rects@, focused, f, dir, k) && rects@[k].0 == r->0;
            let c = choose|k: int| is_dir_best(rects@, focused, f, dir, k);
            lemma_dir_best_unique(rects@, focused, f, dir, k, c);
        }
    }
    r
}

/// Two `i32` differences, not both `i32::MIN`, have a sum of squares that
/// is an `i64` value.
proof fn lemma_squares_in_range(dx: int, dy: int)
    requires
        in_i32(dx),
        in_i32(dy),
        !(dx == i32::MIN && dy == i32::MIN),
    ensures
        0 <= dx * dx <= i64::MAX,
        0 <= dy * dy <= i64::MAX,
        0 <= dx * dx + dy * dy <= i64::MAX,
{
    assert(0 <= dx * dx <= 0x4000_0000_0000_0000) by (nonlinear_arith)
        requires
            -0x8000_0000 <= dx <= 0x7fff_ffff,
    ;
    assert(0 <= dy * dy <= 0x4000_0000_0000_0000) by (nonlinear_arith)
        requires
            -0x8000_0000 <= dy <= 0x7fff_ffff,
    ;
    if dx != i32::MIN {
        assert(dx * dx <= 0x3fff_ffff_0000_0001) by (nonlinear_arith)
            requires
                -0x7fff_ffff <= dx <= 0x7fff_ffff,
        ;
    } else {
        assert(dy * dy <= 0x3fff_ffff_0000_0001) by (nonlinear_arith)
            requires
                -0x7fff_ffff <= dy <= 0x7fff_ffff,
        ;
    }
}

/// Squared distance between two centers.
pub open spec fn dist2(a: (int, int), b: (int, int)) -> int {
    (b.0 - a.0) * (b.0 - a.0) + (b.1 - a.1) * (b.1 - a.1)
}

/// Entry `k` is the first window other than `focused` whose center is
/// nearest to `from`.
pub open spec fn is_nearest(rects: Seq<(WindowId, Rect)>, focused: WindowId, from: (int, int), k: int) -> bool {
    &&& 0 <= k < rects.len()
    &&& rects[k].0 != focused
    &&& forall|j: int|
        0 <= j < rects.len() && #[trigger] rects[j].0 != focused ==> dist2(from, center_of(rects[k].1)) <= dist2(
            from,
            center_of(rects[j].1),
        )
    &&& forall|j: int|
        0 <= j < k && #[trigger] rects[j].0 != focused ==> dist2(from, center_of(rects[j].1)) > dist2(
            from,
            center_of(rects[k].1),
        )
}

/// The tiled window geometrically closest to `focused`, in any direction:
/// the first other window at the least distance from the center of
/// `focused`'s first rectangle.
pub open spec fn spec_nearest_neighbor(rects: Seq<(WindowId, Rect)>, focused: WindowId) -> Option<WindowId> {
    match find_rect(rects, focused) {
        None => None,
        Some(fr) => if exists|k: int| is_nearest(rects, focused, center_of(fr), k) {
            Some(rects[choose|k: int| is_nearest(rects, focused, center_of(fr), k)].0)
        } else {
            None
        },
    }
}

pub fn nearest_neighbor(rects: &Vec<(WindowId, Rect)>, focused: WindowId) -> (r: Option<WindowId>)
    requires
        nearest_in_range(rects@, focused),
    ensures
        r == spec_nearest_neighbor(rects@, focused),
{
    let fr = match find_rect_exec(rects, focused) {
        None => return None,
        Some(fr) => fr,
    };
    let (fx, fy) = fr.center();
    let ghost f = center_of(fr);
    let mut best: Option<(i64, usize)> = None;
    let mut j: usize = 0;
    while j < rects.len()
        invariant
            j <= rects@.len(),
            nearest_in_range(rects@, focused),
            find_rect(rects@, focused) == Some(fr),
            f == center_of(fr),
            f == (fx as int, fy as int),
            match best {
                None => forall|i: int| 0 <= i < j ==> (#[trigger] rects@[i]).0 == focused,
                Some((d, k)) => {
                    &&& k < j
                    &&& rects@[k as int].0 != focused
                    &&& d as int == dist2(f, center_of(rects@[k as int].1))
                    &&& forall|i: int| 0 <= i < j && #[trigger] rects@[i].0 != focused ==> d <= dist2(f, center_of(rects@[i].1))
                    &&& forall|i: int| 0 <= i < k && #[trigger] rects@[i].0 != focused ==> d < dist2(f, center_of(rects@[i].1))
                },
            },
        decreases rects.len() - j,
    {
        let (w, rect) = rects[j];
        if w != focused {
            assert(rects@[j as int].0 != focused);
            let (cx, cy) = rect.center();
            let dx: i64 = cx as i64 - fx as i64;
            let dy: i64 = cy as i64 - fy as i64;
            proof {
                assert(distance_in_range(f, center_of(rects@[j as int].1)));
                assert(dx == center_of(rects@[j as int].1).0 - f.0);
                assert(dy == center_of(rects@[j as int].1).1 - f.1);
                lemma_squares_in_range(dx as int, dy as int);
            }
            let d: i64 = dx * dx + dy * dy;
            let better = match best {
                None => true,
                Some((bd, _)) => d < bd,
            };
            if better {
                best = Some((d, j));
            }
        }
        j = j + 1;
    }
    match best {
        None => {
            assert forall|k: int| !is_nearest(rects@, focused, f, k) by {
                if is_nearest(rects@, focused, f, k) {
                    assert(rects@[k].0 != focused);
                }
            }
            None
        },
        Some((_, k)) => {
            assert(is_nearest(rects@, focused, f, k as int));
            proof {
                let c = choose|c: int| is_nearest(rects@, focused, f, c);
                if c < k {
                    assert(rects@[c].0 != focused);
                } else if k < c {
                    assert(rects@[k as int].0 != focused);
                }
            }
            Some(rects[k].0)
        },
    }
}


/// What untiling `w` does: take it out of the first tree holding it, record
/// it as floating on that workspace, have its position remembered, and
/// re-flow the output if that workspace is the active one. The flag tells
/// whether `w` was tiled anywhere.
pub open spec fn spec_untile_window(v: ShellView, w: WindowId) -> (ShellView, Seq<Action>, bool) {
    match v.locate(w) {
        None => (v, seq![], false),
        Some((o, i)) => {
            let v1 = v.with_tree(o, i, tv_remove(v.outputs[o].tree_at(i), w));
            let acts = seq![Action::RememberPosition(w)] + if i == v.outputs[o].active {
                seq![Action::ApplyLayout(o as usize)]
            } else {
                seq![]
            };
            (spec_mark_floating(v1, w, o, i), acts, true)
        },
    }
}

/// Removes `w` from whichever output/workspace's tiling tree holds it (it
/// need not be the visible one), making it floating on that workspace.
/// Returns whether it was tiled, with the actions to carry out.
pub fn untile_window(shell: &mut Shell, w: WindowId) -> (r: (bool, Vec<Action>))
    requires
        old(shell).wf(),
    ensures
        final(shell).wf(),
        (final(shell)@, r.1@, r.0) == spec_untile_window(old(shell)@, w),
{
    let (o, i) = match shell.locate(w) {
        None => return (false, Vec::new()),
        Some(x) => x,
    };
    let ghost v = shell@;
    let mut t = shell.take_tree(o, i);
    let removed = t.remove(w);
    shell.put_tree(o, i, t);
    proof {
        lemma_with_tree_twice(v, o as int, i as int, crate::shell::empty_tree(), tree_view(t));
    }
    let active = shell.outputs[o].workspaces.active();
    let n = shell.outputs[o].tiling.len();
    assert(i < n);
    let mut acts = mark_floating(shell, w, o, i);
    if i == active {
        acts.push(Action::ApplyLayout(o));
    }
    assert(acts@ =~= spec_untile_window(v, w).1);
    (removed, acts)
}

/// What tiling `w` does on output `out` (the one under the pointer, else
/// the first; nothing without outputs): drop it from every workspace's
/// floating windows, home it to that output's active workspace, split the
/// focused window's leaf if the focused window is tiled there, re-flow, and
/// focus `w`.
pub open spec fn spec_tile_new_window(v: ShellView, w: WindowId, out: Option<usize>, focused: Option<WindowId>) -> (ShellView, Seq<Action>) {
    match out {
        None => (v, seq![]),
        Some(o) => {
            let idx = v.outputs[o as int].active as int;
            let target = match focused {
                Some(f) => if v.outputs[o as int].windows_at(idx).contains(f) {
                    Some(f)
                } else {
                    None
                },
                None => None,
            };
            let v1 = spec_assign_new_window(v.forget_floating(w), w, o as int, false);
            let v2 = v1.with_tree(o as int, idx, tv_insert(v1.outputs[o as int].tree_at(idx), w, v1.outputs[o as int].area, target));
            (v2, seq![Action::ApplyLayout(o), Action::RaiseAndFocus(w)])
        },
    }
}

/// The tree a new window is tiled into, that of output `out`'s active
/// workspace, lays out inside `i32` (inserting reads its layout).
pub open spec fn tile_in_range(v: ShellView, out: Option<usize>) -> bool {
    match out {
        Some(o) => tree_in_range(
            v.outputs[o as int].tree_at(v.outputs[o as int].active as int),
            v.outputs[o as int].area,
        ),
        None => true,
    }
}

/// `w` is tiled on output `o`'s workspace `idx`, homed there, and floating
/// nowhere.
pub open spec fn tiled_only_at(r: ShellView, w: WindowId, o: int, idx: int, id: u64) -> bool {
    &&& r.outputs[o].windows_at(idx).contains(w)
    &&& home_of(r.homes, w) == Some(WindowHome { output: id, index: idx as usize })
    &&& forall|o2: int, i: int| 0 <= o2 < r.outputs.len() ==> !(#[trigger] r.outputs[o2].floating_at(i)).contains(w)
}

/// Tiling a window puts it into the tree of the output's active workspace,
/// homes it there, and takes it off every workspace's floating windows, so
/// that showing a workspace again never maps it at a floating position.
pub proof fn law_tiled_window_is_not_floating(v: ShellView, w: WindowId, o: usize, focused: Option<WindowId>)
    requires
        o < v.outputs.len(),
    ensures
        tiled_only_at(
            spec_tile_new_window(v, w, Some(o), focused).0,
            w,
            o as int,
            v.outputs[o as int].active as int,
            v.outputs[o as int].id,
        ),
{
    let oi = o as int;
    let idx = v.outputs[oi].active as int;
    let target = match focused {
        Some(f) => if v.outputs[oi].windows_at(idx).contains(f) {
            Some(f)
        } else {
            None
        },
        None => None,
    };
    let v0 = v.forget_floating(w);
    let h = WindowHome { output: v.outputs[oi].id, index: idx as usize };
    let v1 = spec_assign_new_window(v0, w, oi, false);
    assert(v1 == v0.with_home(w, h));
    let tt = v1.outputs[oi].tree_at(idx);
    let ins = tv_insert(tt, w, v1.outputs[oi].area, target);
    let r = v1.with_tree(oi, idx, ins);
    assert(r == spec_tile_new_window(v, w, Some(o), focused).0);
    crate::shell::workspace::lemma_home_of_set_home(v0.homes, w, h);
    assert(r.outputs[oi].tree_at(idx) == ins);
    match tt.0 {
        None => {
            assert(Node::Leaf(w).leaves()[0] == w);
        },
        Some(root) => {
            law_insert_places_window_after_target(root, w, v1.outputs[oi].area, target, tt.1);
        },
    }
    assert forall|o2: int, i: int| 0 <= o2 < r.outputs.len() implies !(#[trigger] r.outputs[o2].floating_at(i)).contains(w) by {
        let f = v.outputs[o2].floating;
        assert(r.outputs[o2].floating == f.map_values(|s: Seq<WindowId>| without(s, w)));
        if 0 <= i < f.len() {
            let sl = without(f[i], w);
            assert(r.outputs[o2].floating_at(i) == sl);
            if sl.contains(w) {
                let k = choose|k: int| 0 <= k < sl.len() && sl[k] == w;
                f[i].lemma_filter_pred(other_than(w), k);
            }
        }
    }
}

/// Inserts a newly mapped window into the tiling tree of output `out`'s
/// active workspace.
pub fn tile_new_window(shell: &mut Shell, w: WindowId, out: Option<usize>, focused: Option<WindowId>) -> (acts: Vec<Action>)
    requires
        old(shell).wf(),
        out is Some ==> out->0 < old(shell)@.outputs.len(),
        tile_in_range(old(shell)@, out),
    ensures
        final(shell).wf(),
        (final(shell)@, acts@) == spec_tile_new_window(old(shell)@, w, out, focused),
        out matches Some(o) ==> tiled_only_at(
            final(shell)@,
            w,
            o as int,
            old(shell)@.outputs[o as int].active as int,
            old(shell)@.outputs[o as int].id,
        ),
{
    let o = match out {
        None => return Vec::new(),
        Some(o) => o,
    };
    let ghost v = shell@;
    proof {
        law_tiled_window_is_not_floating(v, w, o, focused);
    }
    let idx = shell.outputs[o].workspaces.active();
    let target = match focused {
        Some(f) => {
            let tiled = if idx < shell.outputs[o].tiling.len() {
                shell.outputs[o].tiling[idx].contains(f)
            } else {
                false
            };
            if tiled {
                Some(f)
            } else {
                None
            }
        },
        None => None,
    };
    shell.forget_floating(w);
    let ghost v0 = shell@;
    assert(v0.outputs[o as int].trees == v.outputs[o as int].trees);
    assert(v0.outputs[o as int].active == v.outputs[o as int].active);
    assign_new_window(shell, w, o, false);
    let ghost v1 = shell@;
    assert(v1.outputs[o as int] == v0.outputs[o as int]);
    let area = shell.outputs[o].area;
    let mut t = shell.take_tree(o, idx);
    t.insert(w, area, target);
    shell.put_tree(o, idx, t);
    proof {
        lemma_with_tree_twice(v1, o as int, idx as int, crate::shell::empty_tree(), tree_view(t));
    }
    let mut acts: Vec<Action> = Vec::new();
    acts.push(Action::ApplyLayout(o));
    acts.push(Action::RaiseAndFocus(w));
    assert(acts@ =~= seq![Action::ApplyLayout(o), Action::RaiseAndFocus(w)]);
    acts
}

/// Toggling `w`: untile it if it is tiled, else tile it as a new window.
pub open spec fn spec_toggle_floating(v: ShellView, w: WindowId, out: Option<usize>, focused: Option<WindowId>) -> (ShellView, Seq<Action>) {
    let (v1, acts, removed) = spec_untile_window(v, w);
    if removed {
        (v1, acts)
    } else {
        spec_tile_new_window(v, w, out, focused)
    }
}

/// Toggles whether `w` participates in tiling.
pub fn toggle_floating(shell: &mut Shell, w: WindowId, out: Option<usize>, focused: Option<WindowId>) -> (acts: Vec<Action>)
    requires
        old(shell).wf(),
        out is Some ==> out->0 < old(shell)@.outputs.len(),
        !spec_untile_window(old(shell)@, w).2 ==> tile_in_range(old(shell)@, out),
    ensures
        final(shell).wf(),
        (final(shell)@, acts@) == spec_toggle_floating(old(shell)@, w, out, focused),
        !spec_untile_window(old(shell)@, w).2 ==> (out matches Some(o) ==> tiled_only_at(
            final(shell)@,
            w,
            o as int,
            old(shell)@.outputs[o as int].active as int,
            old(shell)@.outputs[o as int].id,
        )),
{
    let (removed, acts) = untile_window(shell, w);
    if removed {
        return acts;
    }
    tile_new_window(shell, w, out, focused)
}

/// The split direction and step of a keyboard resize toward `dir`: a
/// split whose children sit side by side for Left and Right, a stacked one
/// for Up and Down; the focused window's share always grows by one step.
pub open spec fn resize_params(dir: Direction) -> (bool, int) {
    let vertical = dir == Direction::Left || dir == Direction::Right;
    (vertical, RESIZE_STEP as int)
}

/// Growing the focused tiled window toward `dir`: one resize step on the
/// nearest split above it running along that axis, then a re-flow. Nothing
/// if no window is focused or the focused one is not tiled.
pub open spec fn spec_resize_tiled(v: ShellView, dir: Direction, focused: Option<WindowId>) -> (ShellView, Seq<Action>) {
    match focused {
        None => (v, seq![]),
        Some(f) => match v.locate(f) {
            None => (v, seq![]),
            Some((o, i)) => {
                let (vertical, delta) = resize_params(dir);
                (v.with_tree(o, i, tv_adjust(v.outputs[o].tree_at(i), f, vertical, delta)), seq![Action::ApplyLayout(o as usize)])
            },
        },
    }
}

/// Grows the focused tiled window toward `dir` by shrinking its neighbor.
pub fn resize_tiled(shell: &mut Shell, dir: Direction, focused: Option<WindowId>) -> (acts: Vec<Action>)
    requires
        old(shell).wf(),
    ensures
        final(shell).wf(),
        (final(shell)@, acts@) == spec_resize_tiled(old(shell)@, dir, focused),
{
    let f = match focused {
        None => return Vec::new(),
        Some(f) => f,
    };
    let (o, i) = match shell.locate(f) {
        None => return Vec::new(),
        Some(x) => x,
    };
    let vertical = match dir {
        Direction::Left | Direction::Right => true,
        _ => false,
    };
    let ghost v = shell@;
    let mut t = shell.take_tree(o, i);
    t.adjust_ratio(f, vertical, RESIZE_STEP);
    shell.put_tree(o, i, t);
    proof {
        lemma_with_tree_twice(v, o as int, i as int, crate::shell::empty_tree(), tree_view(t));
    }
    let mut acts: Vec<Action> = Vec::new();
    acts.push(Action::ApplyLayout(o));
    assert(acts@ =~= seq![Action::ApplyLayout(o)]);
    acts
}

/// Swapping the focused tiled window with its neighbor in `dir` (see
/// `spec_neighbor`) within its own workspace's layout, then re-flowing and
/// keeping it focused. Nothing if there is no such neighbor.
pub open spec fn spec_swap_direction(v: ShellView, dir: Direction, focused: Option<WindowId>) -> (ShellView, Seq<Action>) {
    match focused {
        None => (v, seq![]),
        Some(f) => match v.locate(f) {
            None => (v, seq![]),
            Some((o, i)) => {
                let rects = tv_layout(v.outputs[o].tree_at(i), v.outputs[o].area);
                match spec_neighbor(rects, f, dir) {
                    None => (v, seq![]),
                    Some(t) => (
                        v.with_tree(o, i, tv_swap(v.outputs[o].tree_at(i), f, t)),
                        seq![Action::ApplyLayout(o as usize), Action::RaiseAndFocus(f)],
                    ),
                }
            },
        },
    }
}

impl Shell {
    /// The rectangles workspace `i`'s tree of output `o` lays out within the
    /// output's tiling area.
    pub fn tree_layout(&self, o: usize, i: usize) -> (rects: Vec<(WindowId, Rect)>)
        requires
            self.wf(),
            o < self@.outputs.len(),
            tree_in_range(self@.outputs[o as int].tree_at(i as int), self@.outputs[o as int].area),
        ensures
            rects@ == tv_layout(self@.outputs[o as int].tree_at(i as int), self@.outputs[o as int].area),
    {
        if i < self.outputs[o].tiling.len() {
            assert(self.outputs@[o as int].wf());
            self.outputs[o].tiling[i].layout(self.outputs[o].area)
        } else {
            Vec::new()
        }
    }
}

/// The rectangles the tiled windows of output `o`'s active workspace are
/// re-flowed to; hidden workspaces are brought up to date when shown.
pub fn apply_layout(shell: &Shell, o: usize) -> (rects: Vec<(WindowId, Rect)>)
    requires
        shell.wf(),
        o < shell@.outputs.len(),
        tree_in_range(
            shell@.outputs[o as int].tree_at(shell@.outputs[o as int].active as int),
            shell@.outputs[o as int].area,
        ),
    ensures
        rects@ == tv_layout(
            shell@.outputs[o as int].tree_at(shell@.outputs[o as int].active as int),
            shell@.outputs[o as int].area,
        ),
{
    let idx = shell.outputs[o].workspaces.active();
    shell.tree_layout(o, idx)
}

/// Whether a new toplevel takes part in tiling: dialogs (windows with a
/// parent) and fixed-size windows (a positive minimum size equal to the
/// maximum) stay floating.
pub fn should_tile(has_parent: bool, min_size: Size, max_size: Size) -> (r: bool)
    ensures
        r == (!has_parent && !(min_size.w > 0 && min_size.h > 0 && min_size == max_size)),
{
    if has_parent {
        return false;
    }
    let fixed_size = min_size.w > 0 && min_size.h > 0 && min_size.w == max_size.w && min_size.h == max_size.h;
    !fixed_size
}

/// The focused window's tree lays out inside `i32`, and looking for its
/// neighbor in `dir` there stays inside `i32`.
pub open spec fn swap_in_range(v: ShellView, dir: Direction, focused: Option<WindowId>) -> bool {
    match focused {
        None => true,
        Some(f) => match v.locate(f) {
            None => true,
            Some((o, i)) => {
                &&& tree_in_range(v.outputs[o].tree_at(i), v.outputs[o].area)
                &&& neighbor_in_range(tv_layout(v.outputs[o].tree_at(i), v.outputs[o].area), f, dir)
            },
        },
    }
}

/// Swaps the focused tiled window with its neighbor in `dir`.
pub fn swap_direction(shell: &mut Shell, dir: Direction, focused: Option<WindowId>) -> (acts: Vec<Action>)
    requires
        old(shell).wf(),
        swap_in_range(old(shell)@, dir, focused),
    ensures
        final(shell).wf(),
        (final(shell)@, acts@) == spec_swap_direction(old(shell)@, dir, focused),
{
    let f = match focused {
        None => return Vec::new(),
        Some(f) => f,
    };
    let (o, i) = match shell.locate(f) {
        None => return Vec::new(),
        Some(x) => x,
    };
    let rects = shell.tree_layout(o, i);
    let target = match neighbor(&rects, f, dir) {
        None => return Vec::new(),
        Some(t) => t,
    };
    let ghost v = shell@;
    let mut t = shell.take_tree(o, i);
    t.swap(f, target);
    shell.put_tree(o, i, t);
    proof {
        lemma_with_tree_twice(v, o as int, i as int, crate::shell::empty_tree(), tree_view(t));
    }
    let mut acts: Vec<Action> = Vec::new();
    acts.push(Action::ApplyLayout(o));
    acts.push(Action::RaiseAndFocus(f));
    assert(acts@ =~= seq![Action::ApplyLayout(o), Action::RaiseAndFocus(f)]);
    acts
}

/// Each output's index paired with its geometry, in space order.
pub open spec fn output_geometries(v: ShellView) -> Seq<(WindowId, Rect)> {
    Seq::new(v.outputs.len(), |k: int| (k as u64, v.outputs[k].geometry))
}

/// Moving focus from the focused tiled window toward `dir`: to its neighbor
/// in that direction within its workspace, else to the first live window on
/// the active workspace of the adjacent output in that direction (per the
/// outputs' arrangement), else nowhere.
pub open spec fn spec_focus_direction(v: ShellView, dir: Direction, focused: Option<WindowId>, alive: Seq<WindowId>) -> Seq<Action> {
    match focused {
        None => seq![],
        Some(f) => match v.locate(f) {
            None => seq![],
            Some((o, i)) => {
                let rects = tv_layout(v.outputs[o].tree_at(i), v.outputs[o].area);
                match spec_neighbor(rects, f, dir) {
                    Some(t) => seq![Action::RaiseAndFocus(t)],
                    None => match spec_neighbor(output_geometries(v), o as u64, dir) {
                        Some(n) => v.focus_first_actions(n as int, v.outputs[n as int].active as int, alive),
                        None => seq![],
                    },
                }
            },
        },
    }
}

/// What `focus_direction` computes stays inside `i32`: the focused
/// window's tree and its neighbor search there, and, where that finds
/// nothing, the search among the outputs' geometries.
pub open spec fn focus_in_range(v: ShellView, dir: Direction, focused: Option<WindowId>) -> bool {
    &&& swap_in_range(v, dir, focused)
    &&& match focused {
        None => true,
        Some(f) => match v.locate(f) {
            None => true,
            Some((o, i)) => spec_neighbor(tv_layout(v.outputs[o].tree_at(i), v.outputs[o].area), f, dir) is None
                ==> neighbor_in_range(output_geometries(v), o as u64, dir),
        },
    }
}

/// The actions moving keyboard focus from the focused tiled window toward
/// `dir`. No-op if nothing tiled is focused.
pub fn focus_direction(shell: &Shell, dir: Direction, focused: Option<WindowId>, alive: &Vec<WindowId>) -> (acts: Vec<Action>)
    requires
        shell.wf(),
        focus_in_range(shell@, dir, focused),
        shell@.outputs.len() <= u64::MAX,
    ensures
        acts@ == spec_focus_direction(shell@, dir, focused, alive@),
{
    let f = match focused {
        None => return Vec::new(),
        Some(f) => f,
    };
    let (o, i) = match shell.locate(f) {
        None => return Vec::new(),
        Some(x) => x,
    };
    let rects = shell.tree_layout(o, i);
    match neighbor(&rects, f, dir) {
        Some(t) => {
            let mut acts: Vec<Action> = Vec::new();
            acts.push(Action::RaiseAndFocus(t));
            assert(acts@ =~= seq![Action::RaiseAndFocus(t)]);
            return acts;
        },
        None => {},
    }
    let mut geoms: Vec<(WindowId, Rect)> = Vec::new();
    let mut k: usize = 0;
    while k < shell.outputs.len()
        invariant
            k <= shell.outputs@.len(),
            shell@.outputs.len() <= u64::MAX,
            geoms@ == output_geometries(shell@).take(k as int),
        decreases shell.outputs@.len() - k,
    {
        geoms.push((k as u64, shell.outputs[k].geometry));
        assert(geoms@ =~= output_geometries(shell@).take(k + 1));
        k = k + 1;
    }
    assert(geoms@ =~= output_geometries(shell@));
    match neighbor(&geoms, o as u64, dir) {
        Some(n) => {
            proof {
                let fr = crate::shell::tiling::find_rect(geoms@, o as u64);
                if spec_neighbor(geoms@, o as u64, dir) is Some {
                    let from = center_of(fr->0);
                    let c = choose|c: int| #[trigger] is_dir_best(geoms@, o as u64, from, dir, c);
                    assert(geoms@[c].0 == c as u64);
                }
            }
            let idx = shell.outputs[n as usize].workspaces.active();
            shell.focus_first_in_workspace(n as usize, idx, alive)
        },
        None => Vec::new(),
    }
}

/// The actions re-flowing every output's active workspace.
pub fn retile_all_outputs(shell: &Shell) -> (acts: Vec<Action>)
    ensures
        acts@ == Seq::new(shell@.outputs.len(), |o: int| Action::ApplyLayout(o as usize)),
{
    let mut acts: Vec<Action> = Vec::new();
    for o in 0..shell.outputs.len()
        invariant
            acts@ == Seq::new(o as nat, |k: int| Action::ApplyLayout(k as usize)),
    {
        acts.push(Action::ApplyLayout(o));
        assert(acts@ =~= Seq::new((o + 1) as nat, |k: int| Action::ApplyLayout(k as usize)));
    }
    acts
}

/// Some window tiled in `t` is dead.
pub open spec fn tree_has_dead(t: TreeView, alive: Seq<WindowId>) -> bool {
    exists|j: int| 0 <= j < opt_leaves(t.0).len() && !alive.contains(#[trigger] opt_leaves(t.0)[j])
}

pub open spec fn tree_retainer(alive: Seq<WindowId>) -> spec_fn(TreeView) -> TreeView {
    |t: TreeView| tv_retain(t, alive)
}

/// Output `out` with dead windows dropped from every workspace's tree.
pub open spec fn out_retained(out: OutputView, alive: Seq<WindowId>) -> OutputView {
    OutputView { trees: out.trees.map_values(tree_retainer(alive)), ..out }
}

pub open spec fn out_retainer(alive: Seq<WindowId>) -> spec_fn(OutputView) -> OutputView {
    |out: OutputView| out_retained(out, alive)
}

/// The active workspace's tree of `out` holds a dead window.
pub open spec fn active_dirty(out: OutputView, alive: Seq<WindowId>) -> bool {
    out.active < out.trees.len() && tree_has_dead(out.trees[out.active as int], alive)
}

pub open spec fn any_tree_dead(out: OutputView, alive: Seq<WindowId>) -> bool {
    exists|i: int| 0 <= i < out.trees.len() && tree_has_dead(#[trigger] out.trees[i], alive)
}

/// Re-flows for the first `k` outputs whose active tree lost a window.
pub open spec fn layout_actions_upto(outs: Seq<OutputView>, alive: Seq<WindowId>, k: int) -> Seq<Action>
    decreases k,
{
    if k <= 0 {
        seq![]
    } else {
        layout_actions_upto(outs, alive, k - 1) + if active_dirty(outs[k - 1], alive) {
            seq![Action::ApplyLayout((k - 1) as usize)]
        } else {
            seq![]
        }
    }
}

impl OutputState {
    /// Drops dead windows from every workspace's tree. Returns whether any
    /// tree changed and whether the active workspace's did.
    pub fn retain_alive_trees(&mut self, alive: &Vec<WindowId>) -> (r: (bool, bool))
        requires
            old(self).wf(),
        ensures
            final(self).wf(),
            final(self).view() == out_retained(old(self).view(), alive@),
            r.0 == any_tree_dead(old(self).view(), alive@),
            r.1 == active_dirty(old(self).view(), alive@),
    {
        let ghost ov = self.view();
        let active = self.workspaces.active();
        let mut changed = false;
        let mut active_changed = false;
        let mut i: usize = 0;
        while i < self.tiling.len()
            invariant
                i <= self.tiling@.len(),
                self.tiling@.len() == ov.trees.len(),
                self.wf(),
                self.id == ov.id && self.geometry == ov.geometry && self.area == ov.area,
                self.workspaces == old(self).workspaces,
                active == ov.active,
                ov == old(self).view(),
                forall|k: int| 0 <= k < i ==> tree_view(#[trigger] self.tiling@[k]) == tv_retain(ov.trees[k], alive@),
                forall|k: int| i <= k < ov.trees.len() ==> tree_view(#[trigger] self.tiling@[k]) == ov.trees[k],
                changed == exists|k: int| 0 <= k < i && tree_has_dead(#[trigger] ov.trees[k], alive@),
                active_changed == (active < i && tree_has_dead(ov.trees[active as int], alive@)),
            decreases self.tiling@.len() - i,
        {
            assert(self.tiling@[i as int].wf());
            let ghost before = self.tiling@;
            let c = self.tiling[i].retain_alive(alive);
            proof {
                assert(tree_view(before[i as int]) == ov.trees[i as int]);
                assert(c == tree_has_dead(ov.trees[i as int], alive@));
                assert forall|k: int| 0 <= k < self.tiling@.len() implies (#[trigger] self.tiling@[k]).wf() by {
                    if k != i {
                        assert(self.tiling@[k] == before[k]);
                    }
                }
                assert forall|k: int| 0 <= k < self.tiling@.len() && k != i implies #[trigger] self.tiling@[k] == before[k] by {}
                if changed || c {
                    if !changed {
                        assert(tree_has_dead(ov.trees[i as int], alive@));
                    }
                }
            }
            changed = changed || c;
            if c && i == active {
                active_changed = true;
            }
            i = i + 1;
        }
        proof {
            assert(self.view().trees =~= ov.trees.map_values(tree_retainer(alive@)));
        }
        (changed, active_changed)
    }
}

/// Where focus falls back to when the focused window `f` dies: the output
/// and workspace whose tree held it, and its nearest neighbor there.
pub open spec fn cleanup_fallback(v: ShellView, f: WindowId) -> Option<(int, int, Option<WindowId>)> {
    match v.locate(f) {
        Some((o, i)) => Some((o, i, spec_nearest_neighbor(tv_layout(v.outputs[o].tree_at(i), v.outputs[o].area), f))),
        None => None,
    }
}

/// Where the focused window died while tiled, its tree lays out inside
/// `i32` and the search for its nearest neighbor there stays in range.
pub open spec fn cleanup_in_range(v: ShellView, alive: Seq<WindowId>, focused: Option<WindowId>) -> bool {
    match focused {
        Some(f) => !alive.contains(f) ==> match v.locate(f) {
            Some((o, i)) => {
                &&& tree_in_range(v.outputs[o].tree_at(i), v.outputs[o].area)
                &&& nearest_in_range(tv_layout(v.outputs[o].tree_at(i), v.outputs[o].area), f)
            },
            None => true,
        },
        None => true,
    }
}

/// When the focused window dies while tiled and its nearest neighbor in
/// its tree, measured on the layout before the cleanup, is alive, the
/// cleanup ends by focusing that neighbor.
pub proof fn law_cleanup_focuses_nearest_neighbor(
    v: ShellView,
    alive: Seq<WindowId>,
    f: WindowId,
    o: int,
    i: int,
    n: WindowId,
)
    requires
        !alive.contains(f),
        v.locate(f) == Some((o, i)),
        spec_nearest_neighbor(tv_layout(v.outputs[o].tree_at(i), v.outputs[o].area), f) == Some(n),
        alive.contains(n),
    ensures
        spec_cleanup_dead(v, alive, Some(f)).1.len() > 0,
        spec_cleanup_dead(v, alive, Some(f)).1.last() == Action::RaiseAndFocus(n),
{
    let acts = spec_cleanup_dead(v, alive, Some(f)).1;
    let head = layout_actions_upto(v.outputs, alive, v.outputs.len() as int);
    assert(acts == head + seq![Action::RaiseAndFocus(n)]);
}

/// A cleanup moves focus only when the focused window died: with no focused
/// window, or a living one, it emits only the re-flows; when the focused
/// window died while floating it clears the focus.
pub proof fn law_cleanup_moves_focus_only_for_a_dead_focus(
    v: ShellView,
    alive: Seq<WindowId>,
    focused: Option<WindowId>,
)
    ensures
        (focused is None || alive.contains(focused->0)) ==> spec_cleanup_dead(v, alive, focused).1
            == layout_actions_upto(v.outputs, alive, v.outputs.len() as int),
        (focused is Some && !alive.contains(focused->0) && v.locate(focused->0) is None) ==> spec_cleanup_dead(
            v,
            alive,
            focused,
        ).1 == layout_actions_upto(v.outputs, alive, v.outputs.len() as int).push(Action::ClearFocus),
{
    let head = layout_actions_upto(v.outputs, alive, v.outputs.len() as int);
    assert(head + seq![] == head);
    assert(head + seq![Action::ClearFocus] == head.push(Action::ClearFocus));
}

/// Dropping dead windows from every output's trees (every workspace) and
/// floating registries; re-flowing each output whose active tree lost a
/// window; and, if the focused window died, focusing its nearest live
/// neighbor in its tree, else the first live window of its workspace, else
/// nothing. The flag tells whether any window was dropped.
pub open spec fn spec_cleanup_dead(v: ShellView, alive: Seq<WindowId>, focused: Option<WindowId>) -> (ShellView, Seq<Action>, bool) {
    let v1 = ShellView { outputs: v.outputs.map_values(out_retainer(alive)), ..v };
    let v2 = spec_cleanup_floating(v1, alive);
    let changed = (exists|o: int| 0 <= o < v.outputs.len() && any_tree_dead(#[trigger] v.outputs[o], alive))
        || (exists|o: int| 0 <= o < v.outputs.len() && has_dead_floating(#[trigger] v.outputs[o], alive));
    let focus = match focused {
        Some(f) => if alive.contains(f) {
            seq![]
        } else {
            match cleanup_fallback(v, f) {
                Some((o, i, n)) => if n is Some && alive.contains(n->0) {
                    seq![Action::RaiseAndFocus(n->0)]
                } else {
                    v2.focus_first_actions(o, i, alive)
                },
                None => seq![Action::ClearFocus],
            }
        },
        None => seq![],
    };
    (v2, layout_actions_upto(v.outputs, alive, v.outputs.len() as int) + focus, changed)
}

/// Drops dead windows from every output's tiling trees and floating
/// registries, re-flowing and moving focus as `spec_cleanup_dead` says.
/// Returns whether any window was removed.
pub fn cleanup_dead(shell: &mut Shell, alive: &Vec<WindowId>, focused: Option<WindowId>) -> (r: (bool, Vec<Action>))
    requires
        old(shell).wf(),
        cleanup_in_range(old(shell)@, alive@, focused),
    ensures
        final(shell).wf(),
        (final(shell)@, r.1@, r.0) == spec_cleanup_dead(old(shell)@, alive@, focused),
{
    let ghost v = shell@;
    let dead_focus = match focused {
        Some(f) => if vec_contains(alive, f) {
            None
        } else {
            Some(f)
        },
        None => None,
    };
    let fallback = match dead_focus {
        Some(f) => match shell.locate(f) {
            Some((o, i)) => {
                let rects = shell.tree_layout(o, i);
                Some((o, i, nearest_neighbor(&rects, f)))
            },
            None => None,
        },
        None => None,
    };
    let ghost target = ShellView { outputs: v.outputs.map_values(out_retainer(alive@)), ..v };
    let mut acts: Vec<Action> = Vec::new();
    let mut changed = false;
    let mut o: usize = 0;
    while o < shell.outputs.len()
        invariant
            shell.wf(),
            o <= shell.outputs@.len(),
            shell.outputs@.len() == v.outputs.len(),
            shell@.homes == v.homes,
            shell@.settings == v.settings,
            target == (ShellView { outputs: v.outputs.map_values(out_retainer(alive@)), ..v }),
            forall|k: int| 0 <= k < o ==> #[trigger] shell@.outputs[k] == target.outputs[k],
            forall|k: int| o <= k < v.outputs.len() ==> #[trigger] shell@.outputs[k] == v.outputs[k],
            changed == exists|k: int| 0 <= k < o && any_tree_dead(#[trigger] v.outputs[k], alive@),
            acts@ == layout_actions_upto(v.outputs, alive@, o as int),
        decreases shell.outputs@.len() - o,
    {
        assert(shell.outputs@[o as int].wf());
        let ghost before = shell.outputs@;
        let ghost sv = shell@;
        assert(sv.outputs[o as int] == before[o as int].view());
        let (c, ac) = shell.outputs[o].retain_alive_trees(alive);
        proof {
            assert(shell.outputs@[o as int].wf());
            assert forall|k: int| 0 <= k < shell.outputs@.len() && k != o implies #[trigger] shell@.outputs[k] == sv.outputs[k] by {
                assert(shell.outputs@[k] == before[k]);
            }
            assert forall|k: int| 0 <= k < shell.outputs@.len() implies (#[trigger] shell.outputs@[k]).wf() by {
                if k != o {
                    assert(shell.outputs@[k] == before[k]);
                }
            }
            assert(shell@.outputs[o as int] == target.outputs[o as int]);
        }
        changed = changed || c;
        if ac {
            acts.push(Action::ApplyLayout(o));
        }
        proof {
            assert(acts@ =~= layout_actions_upto(v.outputs, alive@, o + 1));
        }
        o = o + 1;
    }
    proof {
        assert(shell@.outputs =~= target.outputs);
        assert(shell@ == target);
    }
    let fc = crate::shell::workspace::cleanup_dead(shell, alive);
    proof {
        assert forall|k: int| 0 <= k < v.outputs.len() implies has_dead_floating(#[trigger] target.outputs[k], alive@) == has_dead_floating(v.outputs[k], alive@) by {
            assert(target.outputs[k].floating == v.outputs[k].floating);
        }
        if fc {
            let k = choose|k: int| 0 <= k < target.outputs.len() && has_dead_floating(#[trigger] target.outputs[k], alive@);
            assert(has_dead_floating(v.outputs[k], alive@));
        }
        if exists|k: int| 0 <= k < v.outputs.len() && has_dead_floating(#[trigger] v.outputs[k], alive@) {
            let k = choose|k: int| 0 <= k < v.outputs.len() && has_dead_floating(#[trigger] v.outputs[k], alive@);
            assert(has_dead_floating(target.outputs[k], alive@));
        }
    }
    changed = changed || fc;
    if dead_focus.is_some() {
        let ghost v2 = shell@;
        match fallback {
            Some((o, i, Some(n))) => {
                if vec_contains(alive, n) {
                    acts.push(Action::RaiseAndFocus(n));
                } else {
                    let f = shell.focus_first_in_workspace(o, i, alive);
                    crate::shell::workspace::append_actions(&mut acts, &f);
                }
            },
            Some((o, i, None)) => {
                let f = shell.focus_first_in_workspace(o, i, alive);
                crate::shell::workspace::append_actions(&mut acts, &f);
            },
            None => {
                acts.push(Action::ClearFocus);
            },
        }
    }
    proof {
        let r = spec_cleanup_dead(v, alive@, focused);
        assert(shell@ == r.0);
        assert(acts@ =~= r.1);
        assert(changed == r.2);
    }
    (changed, acts)
}
} // verus!
