//! The arena-backed window store and the overlap-set resolver.

use vstd::prelude::*;

use crate::rect::Rectangle;
use crate::rect::lemma_split_overlap_transfer;
use crate::rect::spec_overlap_rect;
use crate::rect::spec_overlaps;
use crate::rect::spec_remainders;

verus! {

/// Error with inserting a window.
#[derive(Debug, PartialEq, Eq, Structural, Clone, Copy)]
pub enum InsertError {
    /// This window falls outside of the bounds of the root window.
    OutsideRoot,
}

/// Error with looking up a window by handle.
#[derive(Debug, PartialEq, Eq, Structural, Clone, Copy)]
pub enum HandleError {
    /// The handle was not issued by this table, or the table has been
    /// cleared since it was issued.
    InvalidHandle,
}

/// The key type for windows: an opaque handle to one window record,
/// valid until the issuing table is cleared.
#[derive(Debug, Copy, Clone, PartialEq, Eq, Structural, Hash)]
pub struct WindowKey {
    idx: usize,
    epoch: u64,
}

impl WindowKey {
    /// The position of the window record this handle names.
    pub closed spec fn spec_idx(&self) -> int {
        self.idx as int
    }

    /// The clearing epoch of the table that issued this handle.
    pub closed spec fn spec_epoch(&self) -> int {
        self.epoch as int
    }
}

/// The current cursor state: the shape a hit-testing collaborator would
/// maintain. It is not populated by any operation of this crate.
#[derive(Debug)]
pub struct CursorState {
    /// Last known cursor position.
    pub position: (i32, i32),

    /// Windows currently under the cursor.
    pub windows: Vec<WindowKey>,
}

/// One window record.
#[derive(Debug)]
struct Window {
    /// The rectangle (LTRB) of the window.
    rect: Rectangle,

    /// The parents of the window.
    parents: Vec<WindowKey>,

    /// The children of the window.
    children: Vec<WindowKey>,
}

/// The table of windows.
#[derive(Debug)]
pub struct WindowTable {
    /// The windows, in insertion order.
    windows: Vec<Window>,

    /// The root window.
    root: Option<WindowKey>,

    /// The clearing epoch: bumped by `clear` so that handles issued
    /// before a clear are rejected afterward.
    epoch: u64,
}

impl WindowTable {
    /// Creates a new window table.
    pub fn new() -> (r: Self)
        ensures
            r.wf(),
            r.wins().len() == 0,
            r.spec_root() is None,
    {
        WindowTable { windows: Vec::new(), root: None, epoch: 0 }
    }

    /// The windows of the table as a mathematical sequence, in insertion
    /// order.
    pub closed spec fn wins(&self) -> Seq<WinView> {
        self.windows@.map(|i: int, w: Window| w.view())
    }

    /// The root window as a position into `wins`, if any.
    pub closed spec fn spec_root(&self) -> Option<int> {
        match self.root {
            Some(k) => Some(k.idx as int),
            None => None,
        }
    }

    /// The current clearing epoch.
    pub closed spec fn spec_epoch(&self) -> int {
        self.epoch as int
    }

    /// The handle `k` is valid for this table: issued in the current
    /// epoch and naming a live record.
    pub open spec fn valid_key(&self, k: WindowKey) -> bool {
        k.spec_epoch() == self.spec_epoch() && 0 <= k.spec_idx() < self.wins().len()
    }

    /// Every key of `s` is valid for this table.
    pub open spec fn keys_valid(&self, s: Seq<WindowKey>) -> bool {
        forall|j: int| 0 <= j < s.len() ==> self.valid_key(#[trigger] s[j])
    }

    /// Well-formedness of the table; established by `new` and preserved
    /// by every operation.
    pub closed spec fn wf(&self) -> bool {
        &&& wf_view(self.wins())
        &&& (self.spec_root() is None <==> self.wins().len() == 0)
        &&& (self.spec_root() matches Some(r) ==> r == 0)
        &&& (self.root matches Some(k) ==> k.epoch == self.epoch && k.idx == 0)
        &&& forall|i: int|
            0 <= i < self.windows@.len() ==> keys_wf(
                self.windows@[i].parents@,
                self.epoch,
            ) && keys_wf(self.windows@[i].children@, self.epoch)
    }
}

/// The store invariant, publicly stated: a well-formed table has a
/// well-formed window graph (edges reciprocal and acyclic, each edge list
/// sorted without repeats), it is empty exactly when it has no root, and
/// the root is the first window inserted since the last clearing.
pub proof fn lemma_store_invariant(t: &WindowTable)
    requires
        t.wf(),
    ensures
        wf_view(t.wins()),
        t.spec_root() is None <==> t.wins().len() == 0,
        t.spec_root() matches Some(r) ==> r == 0,
{
}

impl Default for WindowTable {
    /// An empty window table, as `new` creates it.
    fn default() -> (r: Self)
        ensures
            r.wf(),
            r.wins().len() == 0,
            r.spec_root() is None,
    {
        WindowTable::new()
    }
}

/// All keys of `s` carry the epoch `e`.
spec fn keys_wf(s: Seq<WindowKey>, e: u64) -> bool {
    forall|j: int| 0 <= j < s.len() ==> (#[trigger] s[j]).epoch == e
}

/// The mathematical view of one window record: its rectangle and its
/// parent and child edges as positions into the table's window sequence.
pub struct WinView {
    /// The rectangle of the window.
    pub rect: Rectangle,

    /// The positions of the window's parents.
    pub parents: Seq<int>,

    /// The positions of the window's children.
    pub children: Seq<int>,
}

impl View for Window {
    type V = WinView;

    closed spec fn view(&self) -> WinView {
        WinView { rect: self.rect, parents: key_idxs(self.parents@), children: key_idxs(self.children@) }
    }
}

/// The positions named by a sequence of keys.
pub open spec fn key_idxs(s: Seq<WindowKey>) -> Seq<int> {
    s.map(|i: int, k: WindowKey| k.spec_idx())
}

/// A strictly increasing sequence of positions (sorted, no repeats).
pub open spec fn sorted_distinct(s: Seq<int>) -> bool {
    forall|i: int, j: int| 0 <= i < j < s.len() ==> s[i] < s[j]
}

/// Well-formedness of a window sequence:
/// - every edge names a live record;
/// - children come strictly after their parent (insertion order), so the
///   graph is acyclic;
/// - edges are reciprocal: a window lists another as a child iff the
///   other lists it as a parent;
/// - each edge list is sorted with no repeats.
pub open spec fn wf_view(win: Seq<WinView>) -> bool {
    &&& forall|i: int, k: int|
        0 <= i < win.len() && 0 <= k < (#[trigger] win[i]).children.len() ==> i < #[trigger] win[i].children[k] < win.len()
    &&& forall|i: int, k: int|
        0 <= i < win.len() && 0 <= k < (#[trigger] win[i]).parents.len() ==> 0 <= #[trigger] win[i].parents[k] < i
    &&& forall|i: int, j: int|
        0 <= i < win.len() && 0 <= j < win.len() ==> ((#[trigger] win[i]).children.contains(j)
            <==> (#[trigger] win[j]).parents.contains(i))
    &&& forall|i: int| 0 <= i < win.len() ==> sorted_distinct((#[trigger] win[i]).children)
    &&& forall|i: int| 0 <= i < win.len() ==> sorted_distinct((#[trigger] win[i]).parents)
}

/// Every element of `roots` names a live record of `win`.
pub open spec fn roots_ok(win: Seq<WinView>, roots: Seq<int>) -> bool {
    forall|k: int| 0 <= k < roots.len() ==> 0 <= #[trigger] roots[k] < win.len()
}

/// The smaller of `d` and the least element of `s`; `d` when `s` is
/// empty. Serves as the termination measure of the resolver: recursion
/// descends into candidate sets whose least position strictly grows.
pub open spec fn min_or(s: Seq<int>, d: int) -> int
    decreases s.len(),
{
    if s.len() == 0 {
        d
    } else {
        let m = min_or(s.drop_first(), d);
        if s[0] <= m {
            s[0]
        } else {
            m
        }
    }
}

proof fn lemma_min_or_le(s: Seq<int>, d: int, j: int)
    requires
        0 <= j < s.len(),
    ensures
        min_or(s, d) <= s[j],
    decreases s.len(),
{
    if j > 0 {
        lemma_min_or_le(s.drop_first(), d, j - 1);
    }
}

proof fn lemma_min_or_le_d(s: Seq<int>, d: int)
    ensures
        min_or(s, d) <= d,
    decreases s.len(),
{
    if s.len() > 0 {
        lemma_min_or_le_d(s.drop_first(), d);
    }
}

proof fn lemma_min_or_gt(s: Seq<int>, d: int, c: int)
    requires
        d > c,
        forall|j: int| 0 <= j < s.len() ==> #[trigger] s[j] > c,
    ensures
        min_or(s, d) > c,
    decreases s.len(),
{
    if s.len() > 0 {
        assert forall|j: int| 0 <= j < s.drop_first().len() implies #[trigger] s.drop_first()[j]
            > c by {
            assert(s.drop_first()[j] == s[j + 1]);
        }
        lemma_min_or_gt(s.drop_first(), d, c);
    }
}

/// The candidate at position `k` of `roots` is live and overlaps `frag`.
pub open spec fn matches_at(win: Seq<WinView>, roots: Seq<int>, k: int, frag: Rectangle) -> bool {
    0 <= roots[k] < win.len() && spec_overlaps(frag, win[roots[k]].rect)
}

/// The position in `roots` of the first candidate at or after `start`
/// whose rectangle overlaps `frag` (first-match tie-break).
pub open spec fn first_match(win: Seq<WinView>, roots: Seq<int>, start: int, frag: Rectangle)
    -> Option<int>
    decreases roots.len() - start,
    when 0 <= start
{
    if start < 0 || start >= roots.len() {
        None
    } else if matches_at(win, roots, start, frag) {
        Some(start)
    } else {
        first_match(win, roots, start + 1, frag)
    }
}

proof fn lemma_first_match(win: Seq<WinView>, roots: Seq<int>, start: int, frag: Rectangle)
    requires
        0 <= start,
    ensures
        match first_match(win, roots, start, frag) {
            Some(j) => start <= j < roots.len() && matches_at(win, roots, j, frag) && forall|
                k: int,
            |
                start <= k < j ==> !matches_at(win, roots, k, frag),
            None => forall|k: int| start <= k < roots.len() ==> !matches_at(win, roots, k, frag),
        },
    decreases roots.len() - start,
{
    if start < roots.len() && !matches_at(win, roots, start, frag) {
        lemma_first_match(win, roots, start + 1, frag);
    }
}

/// The overlap-set resolver, as a mathematical function. Given a query
/// worklist `frags` and the candidate roots `roots` considered from
/// position `start` on, it returns the set of positions of the windows
/// that the resolver reports, together with the leftover flag: whether
/// part of some fragment is covered by no candidate.
///
/// Each fragment selects the first candidate that overlaps it; the
/// fragment is split against that candidate, the overlap region is
/// resolved against the candidate's children (the candidate itself is
/// reported exactly when its children leave part of that region
/// uncovered), and the remainder pieces are resolved against the
/// remaining candidates.
pub open spec fn resolve(win: Seq<WinView>, roots: Seq<int>, start: int, frags: Seq<Rectangle>)
    -> (Set<int>, bool)
    decreases win.len() - min_or(roots, win.len() as int), roots.len() - start, frags.len(),
    when 0 <= start && wf_view(win) && roots_ok(win, roots)
    via resolve_decreases
{
    if frags.len() == 0 {
        (Set::empty(), false)
    } else {
        let frag = frags[0];
        let rest = resolve(win, roots, start, frags.drop_first());
        match first_match(win, roots, start, frag) {
            None => (rest.0, true),
            Some(j) => {
                let rj = roots[j];
                let ov = spec_overlap_rect(frag, win[rj].rect);
                let rems = spec_remainders(frag, win[rj].rect);
                let sub = resolve(win, win[rj].children, 0, seq![ov]);
                let with_root = if sub.1 {
                    sub.0.insert(rj)
                } else {
                    sub.0
                };
                let remr = resolve(win, roots, j + 1, rems);
                (rest.0.union(with_root).union(remr.0), rest.1 || remr.1)
            },
        }
    }
}

#[via_fn]
proof fn resolve_decreases(win: Seq<WinView>, roots: Seq<int>, start: int, frags: Seq<Rectangle>) {
    if frags.len() > 0 {
        lemma_first_match(win, roots, start, frags[0]);
        match first_match(win, roots, start, frags[0]) {
            Some(j) => {
                let rj = roots[j];
                let len = win.len() as int;
                lemma_min_or_le(roots, len, j);
                lemma_min_or_le_d(win[rj].children, len);
                assert forall|k: int|
                    0 <= k < win[rj].children.len() implies #[trigger] win[rj].children[k]
                    > rj by {}
                lemma_min_or_gt(win[rj].children, len, rj);
            },
            None => {},
        }
    }
}

/// Whenever some candidate at or after `start` overlaps the first
/// fragment, the resolver reports at least one window; in particular a
/// resolution with no leftover reports at least one window.
proof fn lemma_resolve_nonempty(win: Seq<WinView>, roots: Seq<int>, start: int, frags: Seq<
    Rectangle,
>)
    requires
        0 <= start,
        wf_view(win),
        roots_ok(win, roots),
        frags.len() > 0,
    ensures
        first_match(win, roots, start, frags[0]) is Some ==> exists|e: int|
            resolve(win, roots, start, frags).0.contains(e),
        !resolve(win, roots, start, frags).1 ==> exists|e: int|
            resolve(win, roots, start, frags).0.contains(e),
    decreases win.len() - min_or(roots, win.len() as int), roots.len() - start, frags.len(),
{
    lemma_first_match(win, roots, start, frags[0]);
    match first_match(win, roots, start, frags[0]) {
        Some(j) => {
            let rj = roots[j];
            let len = win.len() as int;
            let ov = spec_overlap_rect(frags[0], win[rj].rect);
            let sub = resolve(win, win[rj].children, 0, seq![ov]);
            let r = resolve(win, roots, start, frags);
            lemma_min_or_le(roots, len, j);
            lemma_min_or_le_d(win[rj].children, len);
            assert forall|k: int|
                0 <= k < win[rj].children.len() implies #[trigger] win[rj].children[k] > rj by {}
            lemma_min_or_gt(win[rj].children, len, rj);
            if sub.1 {
                assert(r.0.contains(rj));
            } else {
                assert(seq![ov].len() > 0);
                lemma_resolve_nonempty(win, win[rj].children, 0, seq![ov]);
                let e = choose|e: int| sub.0.contains(e);
                assert(r.0.contains(e));
            }
        },
        None => {
            assert(resolve(win, roots, start, frags).1);
        },
    }
}

/// A resolution that starts past the end of the candidate list reports no
/// window, and leaves every nonempty worklist as leftover.
proof fn lemma_resolve_past_end(win: Seq<WinView>, roots: Seq<int>, start: int, frags: Seq<
    Rectangle,
>)
    requires
        wf_view(win),
        roots_ok(win, roots),
        start >= roots.len(),
        0 <= start,
    ensures
        resolve(win, roots, start, frags).0 == Set::<int>::empty(),
        resolve(win, roots, start, frags).1 == (frags.len() > 0),
    decreases frags.len(),
{
    if frags.len() > 0 {
        lemma_first_match(win, roots, start, frags[0]);
        assert(first_match(win, roots, start, frags[0]) is None);
        lemma_resolve_past_end(win, roots, start, frags.drop_first());
    }
}

/// In a table that holds only the root window, the resolver reports
/// exactly the root for any query rectangle that overlaps it: an
/// overlapping insertion then wires the root as the sole parent of the
/// new window, and the new window as a child of the root.
pub proof fn lemma_resolve_root_only(win: Seq<WinView>, rect: Rectangle)
    requires
        wf_view(win),
        win.len() == 1,
        spec_overlaps(rect, win[0].rect),
    ensures
        resolve(win, seq![0int], 0, seq![rect]).0 == Set::<int>::empty().insert(0int),
        resolve(win, seq![0int], 0, seq![rect]).1 == (spec_remainders(rect, win[0].rect).len()
            > 0),
{
    let roots = seq![0int];
    assert(roots_ok(win, roots));
    if win[0].children.len() > 0 {
        assert(0 < win[0].children[0] < 1);
    }
    assert(win[0].children.len() == 0);
    assert(win[0].children =~= Seq::<int>::empty());
    assert(seq![rect].drop_first() =~= Seq::<Rectangle>::empty());
    assert(matches_at(win, roots, 0, rect));
    assert(first_match(win, roots, 0, rect) == Some(0int));
    let ov = spec_overlap_rect(rect, win[0].rect);
    let rems = spec_remainders(rect, win[0].rect);
    assert(roots_ok(win, win[0].children));
    // The root has no children, so the overlap region is leftover there
    // and the root itself is reported.
    lemma_resolve_past_end(win, win[0].children, 0, seq![ov]);
    let sub = resolve(win, win[0].children, 0, seq![ov]);
    assert(sub.1 == true);
    // The remainder pieces are matched against the candidates after the
    // root, of which there are none.
    lemma_resolve_past_end(win, roots, 1, rems);
    let remr = resolve(win, roots, 1, rems);
    let rest = resolve(win, roots, 0, seq![rect].drop_first());
    assert(rest == (Set::<int>::empty(), false));
    assert(seq![rect][0] == rect);
    let with_root = sub.0.insert(0int);
    assert(resolve(win, roots, 0, seq![rect]) == (
        rest.0.union(with_root).union(remr.0),
        rest.1 || remr.1,
    ));
    assert(rest.0.union(with_root).union(remr.0) =~= Set::<int>::empty().insert(0int));
}

/// Soundness of the resolver: every reported window is live and its
/// rectangle overlaps one of the worklist fragments.
pub proof fn lemma_resolve_overlap_sound(
    win: Seq<WinView>,
    roots: Seq<int>,
    start: int,
    frags: Seq<Rectangle>,
)
    requires
        0 <= start,
        wf_view(win),
        roots_ok(win, roots),
    ensures
        forall|e: int| #[trigger]
            resolve(win, roots, start, frags).0.contains(e) ==> 0 <= e < win.len() && exists|
                i: int,
            |
                0 <= i < frags.len() && spec_overlaps(#[trigger] frags[i], win[e].rect),
    decreases win.len() - min_or(roots, win.len() as int), roots.len() - start, frags.len(),
{
    if frags.len() == 0 {
        return ;
    }
    let frag = frags[0];
    lemma_resolve_overlap_sound(win, roots, start, frags.drop_first());
    lemma_first_match(win, roots, start, frag);
    let r = resolve(win, roots, start, frags);
    let rest = resolve(win, roots, start, frags.drop_first());
    assert forall|e: int| #[trigger] rest.0.contains(e) implies 0 <= e < win.len() && exists|
        i: int,
    | 0 <= i < frags.len() && spec_overlaps(#[trigger] frags[i], win[e].rect) by {
        let i = choose|i: int|
            0 <= i < frags.drop_first().len() && spec_overlaps(
                #[trigger] frags.drop_first()[i],
                win[e].rect,
            );
        assert(frags[i + 1] == frags.drop_first()[i]);
        assert(spec_overlaps(frags[i + 1], win[e].rect));
    }
    match first_match(win, roots, start, frag) {
        None => {},
        Some(j) => {
            let rj = roots[j];
            let len = win.len() as int;
            let brect = win[rj].rect;
            let ov = spec_overlap_rect(frag, brect);
            let rems = spec_remainders(frag, brect);
            lemma_min_or_le(roots, len, j);
            lemma_min_or_le_d(win[rj].children, len);
            assert forall|k: int| 0 <= k < win[rj].children.len() implies #[trigger] win[rj].children[k]
                > rj by {}
            lemma_min_or_gt(win[rj].children, len, rj);
            lemma_resolve_overlap_sound(win, win[rj].children, 0, seq![ov]);
            lemma_resolve_overlap_sound(win, roots, j + 1, rems);
            let sub = resolve(win, win[rj].children, 0, seq![ov]);
            let remr = resolve(win, roots, j + 1, rems);
            assert(spec_overlaps(frag, brect));
            assert forall|e: int| #[trigger] r.0.contains(e) implies 0 <= e < win.len() && exists|
                i: int,
            | 0 <= i < frags.len() && spec_overlaps(#[trigger] frags[i], win[e].rect) by {
                if rest.0.contains(e) {
                } else if sub.1 && e == rj {
                    assert(spec_overlaps(frags[0], win[e].rect));
                } else if sub.0.contains(e) {
                    let i = choose|i: int|
                        0 <= i < seq![ov].len() && spec_overlaps(
                            #[trigger] seq![ov][i],
                            win[e].rect,
                        );
                    assert(seq![ov][i] == ov);
                    lemma_split_overlap_transfer(frag, brect, win[e].rect);
                    assert(spec_overlaps(frags[0], win[e].rect));
                } else {
                    assert(remr.0.contains(e));
                    let i = choose|i: int|
                        0 <= i < rems.len() && spec_overlaps(#[trigger] rems[i], win[e].rect);
                    lemma_split_overlap_transfer(frag, brect, win[e].rect);
                    assert(spec_overlaps(frags[0], win[e].rect));
                }
            }
        },
    }
}

/// Resolving a concatenated worklist reports the union of the reports of
/// the two parts, and has a leftover iff either part has one.
proof fn lemma_resolve_concat(
    win: Seq<WinView>,
    roots: Seq<int>,
    start: int,
    f1: Seq<Rectangle>,
    f2: Seq<Rectangle>,
)
    requires
        0 <= start,
        wf_view(win),
        roots_ok(win, roots),
    ensures
        resolve(win, roots, start, f1 + f2).0 == resolve(win, roots, start, f1).0.union(
            resolve(win, roots, start, f2).0,
        ),
        resolve(win, roots, start, f1 + f2).1 == (resolve(win, roots, start, f1).1 || resolve(
            win,
            roots,
            start,
            f2,
        ).1),
    decreases f1.len(),
{
    if f1.len() == 0 {
        assert(f1 + f2 =~= f2);
        assert(resolve(win, roots, start, f1).0 =~= Set::<int>::empty());
        assert(Set::<int>::empty().union(resolve(win, roots, start, f2).0) =~= resolve(
            win,
            roots,
            start,
            f2,
        ).0);
    } else {
        assert((f1 + f2)[0] == f1[0]);
        assert((f1 + f2).drop_first() =~= f1.drop_first() + f2);
        lemma_resolve_concat(win, roots, start, f1.drop_first(), f2);
        let r1 = resolve(win, roots, start, f1);
        let r2 = resolve(win, roots, start, f2);
        let r12 = resolve(win, roots, start, f1 + f2);
        let rest1 = resolve(win, roots, start, f1.drop_first());
        let rest12 = resolve(win, roots, start, (f1 + f2).drop_first());
        assert(rest12.0 == rest1.0.union(r2.0));
        match first_match(win, roots, start, f1[0]) {
            None => {
                assert(r12.0 =~= r1.0.union(r2.0));
            },
            Some(j) => {
                lemma_first_match(win, roots, start, f1[0]);
                let rj = roots[j];
                let ov = spec_overlap_rect(f1[0], win[rj].rect);
                let rems = spec_remainders(f1[0], win[rj].rect);
                let sub = resolve(win, win[rj].children, 0, seq![ov]);
                let with_root = if sub.1 {
                    sub.0.insert(rj)
                } else {
                    sub.0
                };
                let remr = resolve(win, roots, j + 1, rems);
                assert(first_match(win, roots, start, (f1 + f2)[0]) == Some(j));
                assert(r1 == (rest1.0.union(with_root).union(remr.0), rest1.1 || remr.1));
                assert(r12 == (rest12.0.union(with_root).union(remr.0), rest12.1 || remr.1));
                assert(r12.0 =~= r1.0.union(r2.0));
            },
        }
    }
}

/// Insert `key` into a vector whose key positions are strictly
/// increasing, keeping that order; a key naming an already present
/// position is not inserted again.
fn insert_key_sorted(out: &mut Vec<WindowKey>, key: WindowKey)
    requires
        sorted_distinct(key_idxs(old(out)@)),
    ensures
        sorted_distinct(key_idxs(final(out)@)),
        key_idxs(final(out)@).to_set() == key_idxs(old(out)@).to_set().insert(key.spec_idx()),
        forall|j: int|
            0 <= j < final(out)@.len() ==> old(out)@.contains(#[trigger] final(out)@[j])
                || final(out)@[j] == key,
{
    let mut pos: usize = 0;
    while pos < out.len() && out[pos].idx < key.idx
        invariant
            pos <= out@.len(),
            forall|k: int| 0 <= k < pos ==> key_idxs(out@)[k] < key.spec_idx(),
            sorted_distinct(key_idxs(out@)),
            out@ == old(out)@,
        decreases out@.len() - pos,
    {
        pos += 1;
    }
    if pos < out.len() && out[pos].idx == key.idx {
        // The position is already reported; keep the vector as it is.
        proof {
            assert(key_idxs(out@)[pos as int] == key.spec_idx());
            assert(key_idxs(out@).contains(key.spec_idx()));
            assert(key_idxs(out@).to_set() =~= key_idxs(old(out)@).to_set().insert(
                key.spec_idx(),
            ));
        }
    } else {
        out.insert(pos, key);
        proof {
            let s0 = key_idxs(old(out)@);
            let s1 = key_idxs(out@);
            assert(out@ == old(out)@.insert(pos as int, key));
            assert forall|i: int, j: int| 0 <= i < j < s1.len() implies s1[i] < s1[j] by {
                if i < pos && j > pos {
                    assert(s1[i] == s0[i] && s1[j] == s0[j - 1]);
                } else if i == pos {
                    assert(s1[j] == s0[j - 1]);
                    assert(s0[j - 1] >= s0[pos as int] > key.spec_idx());
                } else if j == pos {
                    assert(s1[i] == s0[i]);
                } else if j < pos {
                    assert(s1[i] == s0[i] && s1[j] == s0[j]);
                } else {
                    assert(s1[i] == s0[i - 1] && s1[j] == s0[j - 1]);
                }
            }
            assert(s1[pos as int] == key.spec_idx());
            assert forall|e: int| #[trigger] s1.to_set().contains(e) implies s0.to_set().insert(
                key.spec_idx(),
            ).contains(e) by {
                let i = choose|i: int| 0 <= i < s1.len() && s1[i] == e;
                if i < pos {
                    assert(s0[i] == e);
                } else if i > pos {
                    assert(s0[i - 1] == e);
                }
            }
            assert forall|e: int|
                s0.to_set().insert(key.spec_idx()).contains(e) implies #[trigger] s1.to_set()
                .contains(e) by {
                if e == key.spec_idx() {
                    assert(s1[pos as int] == e);
                } else {
                    let i = choose|i: int| 0 <= i < s0.len() && s0[i] == e;
                    if i < pos {
                        assert(s1[i] == e);
                    } else {
                        assert(s1[i + 1] == e);
                    }
                }
            }
            assert(s1.to_set() =~= s0.to_set().insert(key.spec_idx()));
        }
    }
}

impl WindowTable {
    /// The position in `roots`, at or after `start`, of the first
    /// candidate whose rectangle overlaps `frag`.
    fn find_first(&self, roots: &Vec<WindowKey>, start: usize, frag: Rectangle) -> (r: Option<
        usize,
    >)
        requires
            self.wf(),
            self.keys_valid(roots@),
            start <= roots@.len(),
        ensures
            r is Some <==> first_match(self.wins(), key_idxs(roots@), start as int, frag) is Some,
            r matches Some(j) ==> start <= j < roots@.len() && first_match(
                self.wins(),
                key_idxs(roots@),
                start as int,
                frag,
            ) == Some(j as int),
    {
        let ghost win = self.wins();
        let ghost ridx = key_idxs(roots@);
        let mut j = start;
        while j < roots.len()
            invariant
                self.wf(),
                self.keys_valid(roots@),
                start <= j <= roots@.len(),
                win == self.wins(),
                ridx == key_idxs(roots@),
                forall|k: int| start <= k < j ==> !matches_at(win, ridx, k, frag),
            decreases roots@.len() - j,
        {
            let key = roots[j];
            proof {
                assert(self.valid_key(key));
                assert(ridx[j as int] == key.spec_idx());
            }
            let wrect = self.windows[key.idx].rect;
            if frag.intersects(wrect) {
                proof {
                    assert(matches_at(win, ridx, j as int, frag));
                    lemma_first_match(win, ridx, start as int, frag);
                }
                return Some(j);
            }
            proof {
                assert(!matches_at(win, ridx, j as int, frag));
            }
            j += 1;
        }
        proof {
            lemma_first_match(win, ridx, start as int, frag);
        }
        None
    }

    /// Resolve the fragment `frag` against the candidates of `roots` at
    /// or after `start`, merging the positions of the reported windows
    /// into `out` (kept strictly increasing) and returning the leftover
    /// flag.
    fn resolve_into(
        &self,
        roots: &Vec<WindowKey>,
        start: usize,
        frag: Rectangle,
        out: &mut Vec<WindowKey>,
    ) -> (leftover: bool)
        requires
            self.wf(),
            self.keys_valid(roots@),
            start <= roots@.len(),
            self.keys_valid(old(out)@),
            sorted_distinct(key_idxs(old(out)@)),
        ensures
            self.keys_valid(final(out)@),
            sorted_distinct(key_idxs(final(out)@)),
            key_idxs(final(out)@).to_set() == key_idxs(old(out)@).to_set().union(
                resolve(self.wins(), key_idxs(roots@), start as int, seq![frag]).0,
            ),
            leftover == resolve(self.wins(), key_idxs(roots@), start as int, seq![frag]).1,
        decreases
                self.wins().len() - min_or(key_idxs(roots@), self.wins().len() as int),
                roots@.len() - start,
    {
        let ghost win = self.wins();
        let ghost ridx = key_idxs(roots@);
        let ghost base = key_idxs(out@).to_set();
        let ghost target = resolve(win, ridx, start as int, seq![frag]);

        proof {
            assert(seq![frag].drop_first() =~= Seq::<Rectangle>::empty());
            assert(resolve(win, ridx, start as int, Seq::<Rectangle>::empty()).0 =~= Set::<
                int,
            >::empty());
            assert(seq![frag][0] == frag);
        }

        let found = self.find_first(roots, start, frag);
        match found {
            None => {
                proof {
                    assert(target.0 =~= Set::<int>::empty());
                    assert(base.union(target.0) =~= base);
                }
                true
            },
            Some(j) => {
                let key = roots[j];
                let ghost rj = key.spec_idx();
                proof {
                    lemma_first_match(win, ridx, start as int, frag);
                    assert(matches_at(win, ridx, j as int, frag));
                    assert(self.valid_key(key));
                }
                let wrect = self.windows[key.idx].rect;
                proof {
                    assert(win[rj].rect == wrect);
                    assert(spec_overlaps(frag, wrect));
                }
                let split = frag.intersection(wrect);
                let (ov, rems) = split.unwrap();

                let ghost kidx = win[rj].children;
                let ghost sub = resolve(win, kidx, 0, seq![ov]);
                let ghost with_root = if sub.1 {
                    sub.0.insert(rj)
                } else {
                    sub.0
                };
                let ghost remr = resolve(win, ridx, j + 1, spec_remainders(frag, win[rj].rect));
                proof {
                    assert(target == (
                        Set::<int>::empty().union(with_root).union(remr.0),
                        false || remr.1,
                    ));
                    // Termination: the children of the matched candidate
                    // all come strictly after it.
                    let len = win.len() as int;
                    lemma_min_or_le(ridx, len, j as int);
                    lemma_min_or_le_d(kidx, len);
                    assert forall|k: int| 0 <= k < kidx.len() implies #[trigger] kidx[k] > rj by {}
                    lemma_min_or_gt(kidx, len, rj);
                    // The child keys are valid.
                    assert(kidx == key_idxs(self.windows@[rj].children@));
                    assert forall|k: int|
                        0 <= k < self.windows@[rj].children@.len() implies self.valid_key(
                        #[trigger] self.windows@[rj].children@[k],
                    ) by {
                        assert(keys_wf(self.windows@[rj].children@, self.epoch));
                        assert(kidx[k] == self.windows@[rj].children@[k].spec_idx());
                        assert(0 <= kidx[k] < win.len());
                    }
                }
                let child_leftover = self.resolve_into(&self.windows[key.idx].children, 0, ov, out);
                if child_leftover {
                    proof {
                        assert(self.keys_valid(out@));
                    }
                    let ghost out_before = out@;
                    insert_key_sorted(out, key);
                    proof {
                        assert forall|k: int| 0 <= k < out@.len() implies self.valid_key(
                            #[trigger] out@[k],
                        ) by {
                            if out_before.contains(out@[k]) {
                                let m = choose|m: int|
                                    0 <= m < out_before.len() && out_before[m] == out@[k];
                                assert(self.valid_key(out_before[m]));
                            }
                        }
                    }
                }
                proof {
                    assert(key_idxs(out@).to_set() =~= base.union(with_root));
                }
                let ghost base2 = key_idxs(out@).to_set();

                let rlen = roots.len();
                let jn = j + 1;
                let mut leftover = false;
                let mut i: usize = 0;
                proof {
                    assert(rems@.take(0) =~= Seq::<Rectangle>::empty());
                    assert(resolve(win, ridx, j + 1, rems@.take(0)).0 =~= Set::<int>::empty());
                    assert(key_idxs(out@).to_set() =~= base2.union(
                        resolve(win, ridx, j + 1, rems@.take(0)).0,
                    ));
                }
                while i < rems.len()
                    invariant
                        0 <= i <= rems@.len(),
                        self.wf(),
                        self.keys_valid(roots@),
                        start <= j < roots@.len(),
                        jn == j + 1,
                        win == self.wins(),
                        ridx == key_idxs(roots@),
                        self.keys_valid(out@),
                        sorted_distinct(key_idxs(out@)),
                        key_idxs(out@).to_set() == base2.union(
                            resolve(win, ridx, j + 1, rems@.take(i as int)).0,
                        ),
                        leftover == resolve(win, ridx, j + 1, rems@.take(i as int)).1,
                    decreases rems@.len() - i,
                {
                    let ghost taken = rems@.take(i as int);
                    let lv = self.resolve_into(roots, jn, rems[i], out);
                    if lv {
                        leftover = true;
                    }
                    proof {
                        assert(rems@.take(i + 1) =~= taken + seq![rems@[i as int]]);
                        lemma_resolve_concat(win, ridx, j + 1, taken, seq![rems@[i as int]]);
                        assert(key_idxs(out@).to_set() =~= base2.union(
                            resolve(win, ridx, j + 1, rems@.take(i + 1)).0,
                        ));
                    }
                    i += 1;
                }
                proof {
                    assert(rems@.take(rems@.len() as int) =~= rems@);
                    assert(rems@ == spec_remainders(frag, win[rj].rect));
                    assert(key_idxs(out@).to_set() =~= base.union(target.0));
                }
                leftover
            },
        }
    }

    /// Insert a new window.
    ///
    /// The first window inserted into an empty table becomes the root,
    /// with empty parent and child sets. A later window must overlap the
    /// root's rectangle; one that does not is rejected with `OutsideRoot`
    /// and the table is unchanged. An accepted window is wired to the
    /// overlap set that the resolver reports for its rectangle: those
    /// windows become its parents (it is recorded as a child of each),
    /// and the new window has at least one parent.
    pub fn insert(&mut self, rect: Rectangle) -> (r: Result<WindowKey, InsertError>)
        requires
            old(self).wf(),
        ensures
            final(self).wf(),
            r is Ok <==> (old(self).wins().len() == 0 || spec_overlaps(
                rect,
                old(self).wins()[0].rect,
            )),
            r is Err ==> *final(self) == *old(self) && r == Err::<WindowKey, InsertError>(
                InsertError::OutsideRoot,
            ),
            r matches Ok(k) ==> {
                let n = old(self).wins().len() as int;
                &&& final(self).spec_epoch() == old(self).spec_epoch()
                &&& final(self).wins().len() == n + 1
                &&& final(self).valid_key(k)
                &&& k.spec_idx() == n
                &&& final(self).spec_root() == Some(0int)
                &&& final(self).wins()[n].rect == rect
                &&& final(self).wins()[n].children == Seq::<int>::empty()
                &&& sorted_distinct(final(self).wins()[n].parents)
            },
            r is Ok && old(self).wins().len() == 0 ==> final(self).wins()[0].parents == Seq::<
                int,
            >::empty(),
            r is Ok && old(self).wins().len() > 0 ==> {
                let n = old(self).wins().len() as int;
                let reported = resolve(old(self).wins(), seq![0int], 0, seq![rect]).0;
                &&& final(self).wins()[n].parents.to_set() == reported
                &&& final(self).wins()[n].parents.len() > 0
                &&& forall|i: int|
                    reported.contains(i) ==> 0 <= i < n && spec_overlaps(
                        rect,
                        old(self).wins()[i].rect,
                    )
                &&& forall|i: int|
                    0 <= i < n ==> (#[trigger] final(self).wins()[i]).rect
                        == old(self).wins()[i].rect && final(self).wins()[i].parents == old(
                        self,
                    ).wins()[i].parents && final(self).wins()[i].children == (if reported.contains(
                        i,
                    ) {
                        old(self).wins()[i].children.push(n)
                    } else {
                        old(self).wins()[i].children
                    })
            },
    {
        let n = self.windows.len();
        let ghost w0 = self.windows@;
        let ghost win0 = self.wins();

        if n == 0 {
            let key = WindowKey { idx: 0, epoch: self.epoch };
            self.windows.push(Window { rect, parents: Vec::new(), children: Vec::new() });
            self.root = Some(key);
            proof {
                let wv = WinView {
                    rect,
                    parents: Seq::<int>::empty(),
                    children: Seq::<int>::empty(),
                };
                assert(key_idxs(Seq::<WindowKey>::empty()) =~= Seq::<int>::empty());
                assert(self.wins() =~= seq![wv]);
            }
            return Ok(key);
        }

        let root_key = self.root.unwrap();
        let root_rect = self.windows[0].rect;
        if !rect.intersects(root_rect) {
            return Err(InsertError::OutsideRoot);
        }

        let mut rvec: Vec<WindowKey> = Vec::new();
        rvec.push(root_key);
        proof {
            assert(self.valid_key(root_key));
            assert(key_idxs(rvec@) =~= seq![0int]);
        }
        let resolved = self.intersections(&rvec, rect);
        let parents = resolved.0;
        let ghost reported = resolve(win0, seq![0int], 0, seq![rect]).0;
        proof {
            assert(matches_at(win0, seq![0int], 0, rect));
            assert(first_match(win0, seq![0int], 0, rect) == Some(0int));
            lemma_resolve_nonempty(win0, seq![0int], 0, seq![rect]);
            lemma_resolve_overlap_sound(win0, seq![0int], 0, seq![rect]);
            assert forall|i: int| reported.contains(i) implies 0 <= i < win0.len()
                && spec_overlaps(rect, win0[i].rect) by {
                let m = choose|m: int|
                    0 <= m < seq![rect].len() && spec_overlaps(#[trigger] seq![rect][m], win0[i].rect);
                assert(seq![rect][m] == rect);
            }
            let e = choose|e: int| reported.contains(e);
            assert(key_idxs(parents@).contains(e));
            assert(parents@.len() > 0);
        }

        let key = WindowKey { idx: n, epoch: self.epoch };
        let ghost pidx = key_idxs(parents@);

        // Wire the reciprocal edges: the new window becomes a child of
        // every reported window.
        let mut t: usize = 0;
        while t < parents.len()
            invariant
                t <= parents@.len(),
                self.windows@.len() == n,
                n == w0.len(),
                self.epoch == old(self).epoch,
                self.root == old(self).root,
                w0 == old(self).windows@,
                key == (WindowKey { idx: n as usize, epoch: self.epoch }),
                old(self).wf(),
                pidx == key_idxs(parents@),
                sorted_distinct(pidx),
                old(self).keys_valid(parents@),
                forall|i: int|
                    0 <= i < n ==> (#[trigger] self.windows@[i]).rect == w0[i].rect
                        && self.windows@[i].parents == w0[i].parents,
                forall|i: int|
                    0 <= i < n && pidx.take(t as int).contains(i) ==> (#[trigger] self.windows@[i]).children@
                        == w0[i].children@.push(key),
                forall|i: int|
                    0 <= i < n && !pidx.take(t as int).contains(i) ==> (#[trigger] self.windows@[i]).children@
                        == w0[i].children@,
            decreases parents@.len() - t,
        {
            let p = parents[t];
            proof {
                assert(old(self).valid_key(p));
                assert(pidx[t as int] == p.spec_idx());
            }
            let ghost before = self.windows@;
            self.windows[p.idx].children.push(key);
            proof {
                assert(self.windows@[p.spec_idx()].children@ == before[p.spec_idx()].children@.push(
                    key,
                ));
                assert(pidx.take(t as int).push(pidx[t as int]) =~= pidx.take(t + 1));
                assert forall|i: int|
                    0 <= i < n && pidx.take(t + 1).contains(i) implies (#[trigger] self.windows@[i]).children@
                    == w0[i].children@.push(key) by {
                    if i != p.spec_idx() {
                        assert(pidx.take(t as int).contains(i));
                    } else {
                        assert(!pidx.take(t as int).contains(i));
                    }
                }
                assert forall|i: int|
                    0 <= i < n && !pidx.take(t + 1).contains(i) implies (#[trigger] self.windows@[i]).children@
                    == w0[i].children@ by {
                    assert(!pidx.take(t as int).contains(i));
                    assert(pidx.take(t + 1)[t as int] == pidx[t as int]);
                    assert(i != p.spec_idx());
                }
            }
            t += 1;
        }

        proof {
            assert(pidx.take(parents@.len() as int) =~= pidx);
        }
        self.windows.push(Window { rect, parents, children: Vec::new() });

        proof {
            let ni = n as int;
            let winf = self.wins();
            let wfin = self.windows@;

            // The view of the freshly pushed window.
            assert(key_idxs(Seq::<WindowKey>::empty()) =~= Seq::<int>::empty());
            assert(winf.len() == ni + 1);
            assert(winf[ni].rect == rect);
            assert(winf[ni].parents == pidx);
            assert(winf[ni].children =~= Seq::<int>::empty());
            assert(pidx.to_set() == reported);

            // Frame: how each old record looks after the wiring.
            assert forall|i: int| 0 <= i < ni implies (#[trigger] winf[i]).rect == win0[i].rect
                && winf[i].parents == win0[i].parents && winf[i].children == (
            if reported.contains(i) {
                win0[i].children.push(ni)
            } else {
                win0[i].children
            }) by {
                assert(winf[i] == wfin[i]@);
                assert(win0[i] == w0[i]@);
                if pidx.contains(i) {
                    assert(wfin[i].children@ == w0[i].children@.push(key));
                    assert(key_idxs(w0[i].children@.push(key)) =~= key_idxs(
                        w0[i].children@,
                    ).push(key.spec_idx()));
                } else {
                    assert(wfin[i].children@ == w0[i].children@);
                }
            }

            // Parent positions of the new window are live old positions.
            assert forall|k: int| 0 <= k < pidx.len() implies 0 <= #[trigger] pidx[k] < ni by {
                assert(old(self).valid_key(parents@[k]));
                assert(pidx[k] == parents@[k].spec_idx());
            }

            // Well-formedness of the new view.
            assert forall|i: int, k: int|
                0 <= i < winf.len() && 0 <= k < (#[trigger] winf[i]).children.len() implies i
                < #[trigger] winf[i].children[k] < winf.len() by {
                if i < ni {
                    if reported.contains(i) && k == win0[i].children.len() {
                        assert(winf[i].children[k] == ni);
                    } else {
                        assert(winf[i].children[k] == win0[i].children[k]);
                        assert(i < win0[i].children[k] < ni);
                    }
                }
            }
            assert forall|i: int, k: int|
                0 <= i < winf.len() && 0 <= k < (#[trigger] winf[i]).parents.len() implies 0
                <= #[trigger] winf[i].parents[k] < i by {
                if i < ni {
                    assert(winf[i].parents == win0[i].parents);
                }
            }
            assert forall|i: int, j: int|
                0 <= i < winf.len() && 0 <= j < winf.len() implies ((#[trigger] winf[i]).children.contains(
                j,
            ) <==> (#[trigger] winf[j]).parents.contains(i)) by {
                if i < ni && j < ni {
                    if reported.contains(i) {
                        assert(winf[i].children == win0[i].children.push(ni));
                        assert(winf[i].children.contains(j) <==> win0[i].children.contains(j)) by {
                            if win0[i].children.contains(j) {
                                let m = choose|m: int|
                                    0 <= m < win0[i].children.len() && win0[i].children[m] == j;
                                assert(winf[i].children[m] == j);
                            }
                            if winf[i].children.contains(j) {
                                let m = choose|m: int|
                                    0 <= m < winf[i].children.len() && winf[i].children[m] == j;
                                assert(m < win0[i].children.len());
                            }
                        }
                    } else {
                        assert(winf[i].children == win0[i].children);
                    }
                    assert(winf[j].parents == win0[j].parents);
                    assert(win0[i].children.contains(j) <==> win0[j].parents.contains(i));
                } else if i < ni && j == ni {
                    if reported.contains(i) {
                        assert(winf[i].children == win0[i].children.push(ni));
                        assert(winf[i].children[win0[i].children.len() as int] == ni);
                        assert(winf[i].children.contains(ni));
                        assert(winf[ni].parents.contains(i));
                    } else {
                        assert(winf[i].children == win0[i].children);
                        assert forall|m: int|
                            0 <= m < win0[i].children.len() implies #[trigger] win0[i].children[m]
                            != ni by {
                            assert(win0[i].children[m] < ni);
                        }
                        assert(!winf[i].children.contains(ni));
                        if pidx.contains(i) {
                            assert(reported.contains(i));
                        }
                        assert(!winf[ni].parents.contains(i));
                    }
                } else if i == ni {
                    assert(!winf[ni].children.contains(j));
                    if j < ni {
                        assert(winf[j].parents == win0[j].parents);
                        assert forall|m: int|
                            0 <= m < win0[j].parents.len() implies #[trigger] win0[j].parents[m]
                            != ni by {
                            assert(win0[j].parents[m] < j);
                        }
                        assert(!winf[j].parents.contains(ni));
                    } else {
                        assert forall|m: int|
                            0 <= m < pidx.len() implies #[trigger] pidx[m] != ni by {
                            assert(pidx[m] < ni);
                        }
                        assert(!winf[ni].parents.contains(ni));
                    }
                }
            }
            assert forall|i: int| 0 <= i < winf.len() implies sorted_distinct(
                (#[trigger] winf[i]).children,
            ) by {
                if i < ni {
                    if reported.contains(i) {
                        let s0 = win0[i].children;
                        let s1 = winf[i].children;
                        assert(s1 == s0.push(ni));
                        assert forall|a: int, b: int| 0 <= a < b < s1.len() implies s1[a]
                            < s1[b] by {
                            if b < s0.len() {
                                assert(s1[a] == s0[a] && s1[b] == s0[b]);
                            } else {
                                assert(s1[a] == s0[a] && s1[b] == ni);
                                assert(s0[a] < ni);
                            }
                        }
                    } else {
                        assert(winf[i].children == win0[i].children);
                    }
                }
            }
            assert forall|i: int| 0 <= i < winf.len() implies sorted_distinct(
                (#[trigger] winf[i]).parents,
            ) by {
                if i < ni {
                    assert(winf[i].parents == win0[i].parents);
                }
            }

            // Key epochs at the representation level.
            assert forall|i: int|
                0 <= i < wfin.len() implies keys_wf(
                (#[trigger] wfin[i]).parents@,
                self.epoch,
            ) && keys_wf(wfin[i].children@, self.epoch) by {
                if i < ni {
                    assert(wfin[i].parents == w0[i].parents);
                    assert(keys_wf(w0[i].parents@, self.epoch));
                    if pidx.contains(i) {
                        assert(wfin[i].children@ == w0[i].children@.push(key));
                        assert forall|m: int|
                            0 <= m < wfin[i].children@.len() implies (#[trigger] wfin[i].children@[m]).epoch
                            == self.epoch by {
                            if m < w0[i].children@.len() {
                                assert(keys_wf(w0[i].children@, self.epoch));
                                assert(wfin[i].children@[m] == w0[i].children@[m]);
                            } else {
                                assert(wfin[i].children@[m] == key);
                            }
                        }
                    } else {
                        assert(wfin[i].children@ == w0[i].children@);
                        assert(keys_wf(w0[i].children@, self.epoch));
                    }
                } else {
                    assert(wfin[i].parents@ == parents@);
                    assert forall|m: int|
                        0 <= m < parents@.len() implies (#[trigger] parents@[m]).epoch
                        == self.epoch by {
                        assert(old(self).valid_key(parents@[m]));
                    }
                }
            }

            assert(self.wf());
            assert forall|i: int|
                0 <= i < ni implies (pidx.contains(i) <==> reported.contains(i)) by {}
        }
        Ok(key)
    }

    /// Iterate over the windows: every live window as a `(handle, rect)`
    /// pair, in insertion order. The length always equals the live-window
    /// count.
    pub fn iter(&self) -> (r: Vec<(WindowKey, Rectangle)>)
        requires
            self.wf(),
        ensures
            r@.len() == self.wins().len(),
            forall|i: int|
                0 <= i < r@.len() ==> (#[trigger] r@[i]).1 == self.wins()[i].rect
                    && self.valid_key(r@[i].0) && r@[i].0.spec_idx() == i,
    {
        let mut r: Vec<(WindowKey, Rectangle)> = Vec::new();
        let mut i: usize = 0;
        while i < self.windows.len()
            invariant
                self.wf(),
                i <= self.windows@.len(),
                r@.len() == i,
                forall|k: int|
                    0 <= k < i ==> (#[trigger] r@[k]).1 == self.wins()[k].rect && self.valid_key(
                        r@[k].0,
                    ) && r@[k].0.spec_idx() == k,
            decreases self.windows@.len() - i,
        {
            r.push((WindowKey { idx: i, epoch: self.epoch }, self.windows[i].rect));
            i += 1;
        }
        r
    }

    /// Empties the window table. Handles issued before the call are
    /// invalid afterward and stay invalid: the clearing epoch changes.
    pub fn clear(&mut self)
        requires
            old(self).wf(),
        ensures
            final(self).wf(),
            final(self).wins().len() == 0,
            final(self).spec_root() is None,
            final(self).spec_epoch() != old(self).spec_epoch(),
    {
        self.windows.clear();
        self.root = None;
        self.epoch = if self.epoch == u64::MAX {
            0
        } else {
            self.epoch + 1
        };
        proof {
            assert(self.wins() =~= Seq::<WinView>::empty());
        }
    }

    /// Returns the root window: the first window inserted since the last
    /// clearing, if any.
    pub fn root(&self) -> (r: Option<WindowKey>)
        requires
            self.wf(),
        ensures
            r is Some <==> self.wins().len() > 0,
            r matches Some(k) ==> self.valid_key(k) && k.spec_idx() == 0,
    {
        self.root
    }

    /// The rectangle of the window `key` names, or `InvalidHandle` for a
    /// handle this table did not issue since its last clearing.
    pub fn rect_of(&self, key: WindowKey) -> (r: Result<Rectangle, HandleError>)
        requires
            self.wf(),
        ensures
            r is Ok <==> self.valid_key(key),
            r matches Ok(rect) ==> rect == self.wins()[key.spec_idx()].rect,
            !self.valid_key(key) ==> r == Err::<Rectangle, HandleError>(HandleError::InvalidHandle),
    {
        if key.epoch == self.epoch && key.idx < self.windows.len() {
            Ok(self.windows[key.idx].rect)
        } else {
            Err(HandleError::InvalidHandle)
        }
    }

    /// The parents of the window `key` names, or `InvalidHandle` for a
    /// handle this table did not issue since its last clearing.
    pub fn parents_of(&self, key: WindowKey) -> (r: Result<Vec<WindowKey>, HandleError>)
        requires
            self.wf(),
        ensures
            r is Ok <==> self.valid_key(key),
            r matches Ok(v) ==> key_idxs(v@) == self.wins()[key.spec_idx()].parents
                && self.keys_valid(v@),
            !self.valid_key(key) ==> r == Err::<Vec<WindowKey>, HandleError>(
                HandleError::InvalidHandle,
            ),
    {
        if key.epoch == self.epoch && key.idx < self.windows.len() {
            let v = self.copy_keys_parents(key.idx);
            Ok(v)
        } else {
            Err(HandleError::InvalidHandle)
        }
    }

    /// The children of the window `key` names, or `InvalidHandle` for a
    /// handle this table did not issue since its last clearing.
    pub fn children_of(&self, key: WindowKey) -> (r: Result<Vec<WindowKey>, HandleError>)
        requires
            self.wf(),
        ensures
            r is Ok <==> self.valid_key(key),
            r matches Ok(v) ==> key_idxs(v@) == self.wins()[key.spec_idx()].children
                && self.keys_valid(v@),
            !self.valid_key(key) ==> r == Err::<Vec<WindowKey>, HandleError>(
                HandleError::InvalidHandle,
            ),
    {
        if key.epoch == self.epoch && key.idx < self.windows.len() {
            let v = self.copy_keys_children(key.idx);
            Ok(v)
        } else {
            Err(HandleError::InvalidHandle)
        }
    }

    /// A copy of the parent list of the window at position `i`.
    fn copy_keys_parents(&self, i: usize) -> (v: Vec<WindowKey>)
        requires
            self.wf(),
            i < self.windows@.len(),
        ensures
            v@ == self.windows@[i as int].parents@,
            self.keys_valid(v@),
    {
        let mut v: Vec<WindowKey> = Vec::new();
        let mut t: usize = 0;
        while t < self.windows[i].parents.len()
            invariant
                self.wf(),
                i < self.windows@.len(),
                t <= self.windows@[i as int].parents@.len(),
                v@ == self.windows@[i as int].parents@.take(t as int),
            decreases self.windows@[i as int].parents@.len() - t,
        {
            v.push(self.windows[i].parents[t]);
            proof {
                assert(v@ =~= self.windows@[i as int].parents@.take(t + 1));
            }
            t += 1;
        }
        proof {
            assert(v@ =~= self.windows@[i as int].parents@);
            assert forall|k: int| 0 <= k < v@.len() implies self.valid_key(#[trigger] v@[k]) by {
                assert(keys_wf(self.windows@[i as int].parents@, self.epoch));
                assert(key_idxs(self.windows@[i as int].parents@)[k] == v@[k].spec_idx());
                assert(0 <= self.wins()[i as int].parents[k] < i as int);
            }
        }
        v
    }

    /// A copy of the child list of the window at position `i`.
    fn copy_keys_children(&self, i: usize) -> (v: Vec<WindowKey>)
        requires
            self.wf(),
            i < self.windows@.len(),
        ensures
            v@ == self.windows@[i as int].children@,
            self.keys_valid(v@),
    {
        let mut v: Vec<WindowKey> = Vec::new();
        let mut t: usize = 0;
        while t < self.windows[i].children.len()
            invariant
                self.wf(),
                i < self.windows@.len(),
                t <= self.windows@[i as int].children@.len(),
                v@ == self.windows@[i as int].children@.take(t as int),
            decreases self.windows@[i as int].children@.len() - t,
        {
            v.push(self.windows[i].children[t]);
            proof {
                assert(v@ =~= self.windows@[i as int].children@.take(t + 1));
            }
            t += 1;
        }
        proof {
            assert(v@ =~= self.windows@[i as int].children@);
            assert forall|k: int| 0 <= k < v@.len() implies self.valid_key(#[trigger] v@[k]) by {
                assert(keys_wf(self.windows@[i as int].children@, self.epoch));
                assert(key_idxs(self.windows@[i as int].children@)[k] == v@[k].spec_idx());
                assert((i as int) < self.wins()[i as int].children[k] < self.wins().len());
            }
        }
        v
    }

    /// Get the windows that this rectangle intersects, at this root set:
    /// the minimal, deduplicated set of windows overlapping `rect`,
    /// favoring the deepest matches, plus whether part of `rect` is
    /// covered by no candidate.
    fn intersections(&self, roots: &Vec<WindowKey>, rect: Rectangle) -> (r: (Vec<WindowKey>, bool))
        requires
            self.wf(),
            self.keys_valid(roots@),
        ensures
            self.keys_valid(r.0@),
            sorted_distinct(key_idxs(r.0@)),
            key_idxs(r.0@).to_set() == resolve(self.wins(), key_idxs(roots@), 0, seq![rect]).0,
            r.1 == resolve(self.wins(), key_idxs(roots@), 0, seq![rect]).1,
    {
        let mut out: Vec<WindowKey> = Vec::new();
        let leftover = self.resolve_into(roots, 0, rect, &mut out);
        proof {
            assert(key_idxs(out@).to_set() =~= resolve(
                self.wins(),
                key_idxs(roots@),
                0,
                seq![rect],
            ).0);
        }
        (out, leftover)
    }
}

} // verus!
