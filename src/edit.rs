use vstd::prelude::*;

verus! {

/// Where the edit interaction stands: picking points, or dragging one of them.
#[derive(PartialEq, Eq, Structural, Clone, Copy, Debug)]
pub enum EditEnum {
    Selecting,
    Dragging,
}

/// What the edit interaction sees of one frame of pointer input.
#[derive(PartialEq, Eq, Structural, Clone, Copy, Debug)]
pub struct PointerFrame {
    /// The primary button is held in this frame.
    pub pressed: bool,
    /// The primary button was held in the previous frame.
    pub was_pressed: bool,
    /// The chain point under the pointer, if any lies within the pick radius.
    pub hit: Option<usize>,
}

impl PointerFrame {
    /// The hit, if any, names a point of a chain of `n` points.
    pub open spec fn wf(&self, n: nat) -> bool {
        self.hit matches Some(h) ==> h < n
    }

    /// The button went down in this frame.
    pub open spec fn rising(&self) -> bool {
        self.pressed && !self.was_pressed
    }
}

/// Selection and interaction state of an editing session over one point chain.
#[derive(Clone, Debug)]
pub struct EditState {
    /// Selected chain indices; the first one is the point being dragged.
    pub selected_indices: Vec<usize>,
    pub state: EditEnum,
    /// Which of the session's curves is being edited.
    pub curr_cylinder: usize,
}

/// What the caller has to do with the solver after one frame of the interaction.
#[derive(Clone, Debug)]
pub enum EditAction {
    /// Nothing.
    Idle,
    /// Record the pointer as reference point, and build the system of the current
    /// chain with `fixed` pinned.
    Build { anchor: usize, fixed: Vec<usize> },
    /// Move `anchor` to the pointer and solve the system built for this gesture.
    Solve { anchor: usize },
    /// Start of a peeling gesture: drop any system, keep the current chain as the
    /// original points, and record the pointer as reference point.
    Capture { anchor: usize },
    /// Move `anchor` to the pointer, rebuild the system over the original points
    /// with `fixed` pinned, and solve it.
    RebuildAndSolve { anchor: usize, fixed: Vec<usize> },
}

/// The mathematical value of an [`EditAction`].
pub enum ActionView {
    Idle,
    Build { anchor: usize, fixed: Seq<usize> },
    Solve { anchor: usize },
    Capture { anchor: usize },
    RebuildAndSolve { anchor: usize, fixed: Seq<usize> },
}

impl View for EditAction {
    type V = ActionView;

    open spec fn view(&self) -> ActionView {
        match self {
            EditAction::Idle => ActionView::Idle,
            EditAction::Build { anchor, fixed } => ActionView::Build { anchor: *anchor, fixed: fixed@ },
            EditAction::Solve { anchor } => ActionView::Solve { anchor: *anchor },
            EditAction::Capture { anchor } => ActionView::Capture { anchor: *anchor },
            EditAction::RebuildAndSolve { anchor, fixed } => ActionView::RebuildAndSolve {
                anchor: *anchor,
                fixed: fixed@,
            },
        }
    }
}

/// `s` with every occurrence of `v` taken out, order kept.
pub open spec fn without(s: Seq<usize>, v: usize) -> Seq<usize>
    decreases s.len(),
{
    if s.len() == 0 {
        s
    } else {
        let prev = without(s.drop_last(), v);
        if s.last() == v {
            prev
        } else {
            prev.push(s.last())
        }
    }
}

/// Not among `sel`.
pub open spec fn not_in(sel: Seq<usize>) -> spec_fn(int) -> bool {
    |i: int| !sel.contains(i as usize)
}

/// The points of a chain of `n` that are not selected, in increasing order.
pub open spec fn unselected(sel: Seq<usize>, n: nat) -> Seq<usize> {
    indices_where(n, not_in(sel))
}

/// One frame of the interaction without peeling: the next selection, the next
/// state, and the action for the solver.
pub open spec fn no_peeling_next(sel: Seq<usize>, state: EditEnum, n: nat, f: PointerFrame) -> (
    Seq<usize>,
    EditEnum,
    ActionView,
) {
    match state {
        EditEnum::Selecting => {
            let grown = if f.pressed && f.hit is Some && !sel.contains(f.hit.unwrap()) {
                sel.push(f.hit.unwrap())
            } else {
                sel
            };
            let next = if !f.pressed && f.was_pressed && grown.len() > 0 {
                EditEnum::Dragging
            } else {
                EditEnum::Selecting
            };
            (grown, next, ActionView::Idle)
        },
        EditEnum::Dragging => {
            if f.rising() {
                if f.hit is Some && sel.contains(f.hit.unwrap()) {
                    let h = f.hit.unwrap();
                    (
                        seq![h] + without(sel, h),
                        EditEnum::Dragging,
                        ActionView::Build { anchor: h, fixed: unselected(sel, n).push(h) },
                    )
                } else {
                    (Seq::empty(), EditEnum::Selecting, ActionView::Idle)
                }
            } else if f.pressed {
                (sel, EditEnum::Dragging, ActionView::Solve { anchor: sel[0] })
            } else {
                (sel, EditEnum::Dragging, ActionView::Idle)
            }
        },
    }
}

/// One frame of the interaction with peeling, `radius` being the area of effect
/// that the drag distance gives: the next selection, the next state, and the
/// action for the solver.
pub open spec fn peeling_next(
    sel: Seq<usize>,
    state: EditEnum,
    n: nat,
    f: PointerFrame,
    radius: usize,
) -> (Seq<usize>, EditEnum, ActionView) {
    match state {
        EditEnum::Selecting => {
            if f.rising() && f.hit is Some {
                let h = f.hit.unwrap();
                (seq![h], EditEnum::Dragging, ActionView::Capture { anchor: h })
            } else {
                (sel, EditEnum::Selecting, ActionView::Idle)
            }
        },
        EditEnum::Dragging => {
            if !f.pressed {
                (Seq::empty(), EditEnum::Selecting, ActionView::Idle)
            } else {
                let a = sel[0];
                (
                    peel_free(a, radius, n),
                    EditEnum::Dragging,
                    ActionView::RebuildAndSolve { anchor: a, fixed: peel_fixed(a, radius, n) },
                )
            }
        },
    }
}

/// Whether `v` holds `x`.
fn contains_index(v: &Vec<usize>, x: usize) -> (r: bool)
    ensures
        r == v@.contains(x),
{
    let mut i: usize = 0;
    while i < v.len()
        invariant
            i <= v.len(),
            forall|j: int| 0 <= j < i ==> v@[j] != x,
        decreases v.len() - i,
    {
        if v[i] == x {
            assert(v@[i as int] == x);
            return true;
        }
        i += 1;
    }
    false
}


/// The indices `0..k`, in increasing order, that satisfy `keep`.
pub open spec fn indices_where(k: nat, keep: spec_fn(int) -> bool) -> Seq<usize>
    decreases k,
{
    if k == 0 {
        Seq::empty()
    } else {
        let prev = indices_where((k - 1) as nat, keep);
        if keep(k - 1) {
            prev.push((k - 1) as usize)
        } else {
            prev
        }
    }
}

/// An index belongs to `indices_where(k, keep)` exactly when it is below `k` and
/// satisfies `keep`; the indices come in strictly increasing order.
pub proof fn lemma_indices_where(k: nat, keep: spec_fn(int) -> bool)
    requires
        k <= usize::MAX + 1,
    ensures
        forall|x: usize| #[trigger]
            indices_where(k, keep).contains(x) <==> (x < k && keep(x as int)),
        forall|a: int, b: int|
            0 <= a < b < indices_where(k, keep).len() ==> #[trigger] indices_where(k, keep)[a]
                < #[trigger] indices_where(k, keep)[b],
        indices_where(k, keep).no_duplicates(),
    decreases k,
{
    if k > 0 {
        let prev = indices_where((k - 1) as nat, keep);
        lemma_indices_where((k - 1) as nat, keep);
        let cur = indices_where(k, keep);
        if keep(k - 1) {
            let v = (k - 1) as usize;
            assert(cur == prev.push(v));
            assert forall|x: usize| #[trigger] cur.contains(x) <==> (x < k && keep(x as int)) by {
                if cur.contains(x) {
                    let j = choose|j: int| 0 <= j < cur.len() && cur[j] == x;
                    if j < prev.len() {
                        assert(prev[j] == x);
                        assert(prev.contains(x));
                    }
                }
                if x < k && keep(x as int) {
                    if x == v {
                        assert(cur[prev.len() as int] == x);
                    } else {
                        assert(prev.contains(x));
                        let j = choose|j: int| 0 <= j < prev.len() && prev[j] == x;
                        assert(cur[j] == x);
                    }
                }
            }
            assert forall|a: int, b: int| 0 <= a < b < cur.len() implies #[trigger] cur[a]
                < #[trigger] cur[b] by {
                if b == prev.len() {
                    assert(prev.contains(prev[a]));
                } else {
                    assert(prev[a] < prev[b]);
                }
            }
        }
        assert forall|a: int, b: int| 0 <= a < cur.len() && 0 <= b < cur.len() && a != b implies cur[a]
            != cur[b] by {
            if a < b {
                assert(cur[a] < cur[b]);
            } else {
                assert(cur[b] < cur[a]);
            }
        }
    }
}

/// Whether `i` lies within `radius` chain steps of `anchor`.
pub open spec fn within_reach(anchor: int, radius: int, i: int) -> bool {
    if i >= anchor {
        i - anchor <= radius
    } else {
        anchor - i <= radius
    }
}

/// Lies beyond `radius` chain steps of `anchor`.
pub open spec fn beyond_reach(anchor: usize, radius: usize) -> spec_fn(int) -> bool {
    |i: int| !within_reach(anchor as int, radius as int, i)
}

/// Lies within `radius` chain steps of `anchor`, and is not the anchor.
pub open spec fn around(anchor: usize, radius: usize) -> spec_fn(int) -> bool {
    |i: int| within_reach(anchor as int, radius as int, i) && i != anchor
}

/// Under peeling: the points that are pinned while dragging `anchor` with the given
/// radius, in increasing order, followed by the anchor itself.
pub open spec fn peel_fixed(anchor: usize, radius: usize, n: nat) -> Seq<usize> {
    indices_where(n, beyond_reach(anchor, radius)).push(anchor)
}

/// Under peeling: the points freed by dragging `anchor` with the given radius; the
/// anchor comes first, the others follow in increasing order.
pub open spec fn peel_free(anchor: usize, radius: usize, n: nat) -> Seq<usize> {
    seq![anchor] + indices_where(n, around(anchor, radius))
}

/// Dragging farther never shrinks the region that moves: with a radius `r1 <= r2`
/// every point freed by `r1` is freed by `r2`, and every point pinned by `r2` is
/// pinned by `r1`.
pub proof fn lemma_peeling_monotone(anchor: usize, r1: usize, r2: usize, n: usize)
    requires
        r1 <= r2,
        anchor < n,
    ensures
        forall|i: usize| #[trigger] peel_free(anchor, r1, n as nat).contains(i) ==> peel_free(
            anchor,
            r2,
            n as nat,
        ).contains(i),
        forall|i: usize| #[trigger] peel_fixed(anchor, r2, n as nat).contains(i) ==> peel_fixed(
            anchor,
            r1,
            n as nat,
        ).contains(i),
{
    lemma_peel_membership(anchor, r1, n);
    lemma_peel_membership(anchor, r2, n);
}

/// Under peeling the free and the pinned points cover the whole chain, and share the
/// anchor alone.
pub proof fn lemma_peel_membership(anchor: usize, radius: usize, n: usize)
    requires
        anchor < n,
    ensures
        forall|i: usize| #[trigger]
            peel_free(anchor, radius, n as nat).contains(i) <==> (i < n && within_reach(
                anchor as int,
                radius as int,
                i as int,
            )),
        forall|i: usize| #[trigger]
            peel_fixed(anchor, radius, n as nat).contains(i) <==> (i < n && (i == anchor
                || !within_reach(anchor as int, radius as int, i as int))),
        peel_free(anchor, radius, n as nat).no_duplicates(),
        peel_fixed(anchor, radius, n as nat).no_duplicates(),
        peel_free(anchor, radius, n as nat)[0] == anchor,
{
    let out = beyond_reach(anchor, radius);
    let inn = around(anchor, radius);
    lemma_indices_where(n as nat, out);
    lemma_indices_where(n as nat, inn);
    let fixed = peel_fixed(anchor, radius, n as nat);
    let free = peel_free(anchor, radius, n as nat);
    let outs = indices_where(n as nat, out);
    let inns = indices_where(n as nat, inn);
    assert(fixed == outs.push(anchor));
    assert(free == seq![anchor] + inns);
    assert forall|i: usize| #[trigger] free.contains(i) <==> (i < n && within_reach(
        anchor as int,
        radius as int,
        i as int,
    )) by {
        if free.contains(i) {
            let j = choose|j: int| 0 <= j < free.len() && free[j] == i;
            if j > 0 {
                assert(inns[j - 1] == i);
                assert(inns.contains(i));
            }
        }
        if i < n && within_reach(anchor as int, radius as int, i as int) {
            if i == anchor {
                assert(free[0] == i);
            } else {
                assert(inns.contains(i));
                let j = choose|j: int| 0 <= j < inns.len() && inns[j] == i;
                assert(free[j + 1] == i);
            }
        }
    }
    assert forall|i: usize| #[trigger] fixed.contains(i) <==> (i < n && (i == anchor
        || !within_reach(anchor as int, radius as int, i as int))) by {
        if fixed.contains(i) {
            let j = choose|j: int| 0 <= j < fixed.len() && fixed[j] == i;
            if j < outs.len() {
                assert(outs[j] == i);
                assert(outs.contains(i));
            }
        }
        if i < n && (i == anchor || !within_reach(anchor as int, radius as int, i as int)) {
            if i == anchor {
                assert(fixed[outs.len() as int] == i);
            } else {
                assert(outs.contains(i));
                let j = choose|j: int| 0 <= j < outs.len() && outs[j] == i;
                assert(fixed[j] == i);
            }
        }
    }
    assert forall|a: int, b: int|
        0 <= a < free.len() && 0 <= b < free.len() && a != b implies free[a] != free[b] by {
        if a == 0 {
            assert(inns.contains(free[b]));
        } else if b == 0 {
            assert(inns.contains(free[a]));
        } else {
            assert(inns[a - 1] != inns[b - 1]);
        }
    }
    assert forall|a: int, b: int|
        0 <= a < fixed.len() && 0 <= b < fixed.len() && a != b implies fixed[a] != fixed[b] by {
        if a == outs.len() {
            assert(outs.contains(fixed[b]));
        } else if b == outs.len() {
            assert(outs.contains(fixed[a]));
        } else {
            assert(outs[a] != outs[b]);
        }
    }
}

/// `without(s, v)` holds what `s` holds but `v`, and repeats nothing that `s` does not.
pub proof fn lemma_without(s: Seq<usize>, v: usize)
    ensures
        forall|x: usize| #[trigger] without(s, v).contains(x) <==> (s.contains(x) && x != v),
        s.no_duplicates() ==> without(s, v).no_duplicates(),
    decreases s.len(),
{
    if s.len() > 0 {
        let p = s.drop_last();
        lemma_without(p, v);
        let w = without(s, v);
        let pw = without(p, v);
        assert forall|x: usize| #[trigger] s.contains(x) <==> (p.contains(x) || x == s.last()) by {
            if s.contains(x) {
                let j = choose|j: int| 0 <= j < s.len() && s[j] == x;
                if j < p.len() {
                    assert(p[j] == x);
                }
            }
            if p.contains(x) {
                let j = choose|j: int| 0 <= j < p.len() && p[j] == x;
                assert(s[j] == x);
            }
            if x == s.last() {
                assert(s[s.len() - 1] == x);
            }
        }
        if s.last() != v {
            assert(w == pw.push(s.last()));
            assert forall|x: usize| #[trigger] w.contains(x) <==> (pw.contains(x) || x == s.last()) by {
                if w.contains(x) {
                    let j = choose|j: int| 0 <= j < w.len() && w[j] == x;
                    if j < pw.len() {
                        assert(pw[j] == x);
                    }
                }
                if pw.contains(x) {
                    let j = choose|j: int| 0 <= j < pw.len() && pw[j] == x;
                    assert(w[j] == x);
                }
                if x == s.last() {
                    assert(w[pw.len() as int] == x);
                }
            }
            if s.no_duplicates() {
                assert(p.no_duplicates());
                assert(!p.contains(s.last()));
                assert forall|a: int, b: int| 0 <= a < w.len() && 0 <= b < w.len() && a != b implies w[a]
                    != w[b] by {
                    if a == pw.len() {
                        assert(pw.contains(w[b]));
                    } else if b == pw.len() {
                        assert(pw.contains(w[a]));
                    }
                }
            }
        } else {
            if s.no_duplicates() {
                assert(p.no_duplicates());
            }
        }
    }
}

/// The anchor-first reordering of a selection: `h` first, the others after it in
/// their order.
pub proof fn lemma_front(sel: Seq<usize>, h: usize)
    requires
        sel.no_duplicates(),
        sel.contains(h),
    ensures
        forall|x: usize| #[trigger] (seq![h] + without(sel, h)).contains(x) <==> sel.contains(x),
        (seq![h] + without(sel, h)).no_duplicates(),
        (seq![h] + without(sel, h))[0] == h,
{
    lemma_without(sel, h);
    let w = without(sel, h);
    let f = seq![h] + w;
    assert forall|x: usize| #[trigger] f.contains(x) <==> sel.contains(x) by {
        if f.contains(x) {
            let j = choose|j: int| 0 <= j < f.len() && f[j] == x;
            if j > 0 {
                assert(w[j - 1] == x);
                assert(w.contains(x));
            }
        }
        if sel.contains(x) {
            if x == h {
                assert(f[0] == x);
            } else {
                assert(w.contains(x));
                let j = choose|j: int| 0 <= j < w.len() && w[j] == x;
                assert(f[j + 1] == x);
            }
        }
    }
    assert forall|a: int, b: int| 0 <= a < f.len() && 0 <= b < f.len() && a != b implies f[a]
        != f[b] by {
        if a == 0 {
            assert(w.contains(f[b]));
        } else if b == 0 {
            assert(w.contains(f[a]));
        } else {
            assert(w[a - 1] != w[b - 1]);
        }
    }
}

/// Without peeling, the points pinned for a drag of the selected point `h` are the
/// unselected points and `h`: with the selection they cover the chain, and they
/// share `h` alone with it.
pub proof fn lemma_drag_partition(sel: Seq<usize>, n: nat, h: usize)
    requires
        n <= usize::MAX,
        sel.contains(h),
        forall|k: int| 0 <= k < sel.len() ==> sel[k] < n,
    ensures
        forall|i: usize| #[trigger]
            unselected(sel, n).push(h).contains(i) <==> (i < n && (!sel.contains(i) || i == h)),
        unselected(sel, n).push(h).no_duplicates(),
{
    lemma_indices_where(n, not_in(sel));
    let u = unselected(sel, n);
    let f = u.push(h);
    assert forall|i: usize| #[trigger] f.contains(i) <==> (i < n && (!sel.contains(i) || i == h)) by {
        if f.contains(i) {
            let j = choose|j: int| 0 <= j < f.len() && f[j] == i;
            if j < u.len() {
                assert(u[j] == i);
                assert(u.contains(i));
            } else {
                let k = choose|k: int| 0 <= k < sel.len() && sel[k] == h;
                assert(sel[k] < n);
            }
        }
        if i < n && (!sel.contains(i) || i == h) {
            if i == h {
                assert(f[u.len() as int] == i);
            } else {
                assert(u.contains(i));
                let j = choose|j: int| 0 <= j < u.len() && u[j] == i;
                assert(f[j] == i);
            }
        }
    }
    assert forall|a: int, b: int| 0 <= a < f.len() && 0 <= b < f.len() && a != b implies f[a]
        != f[b] by {
        if a == u.len() {
            assert(u.contains(f[b]));
        } else if b == u.len() {
            assert(u.contains(f[a]));
        } else {
            assert(u[a] != u[b]);
        }
    }
}

impl EditState {
    /// Indices name points of a chain of `n`, none twice, and a drag always has a
    /// selected point to move.
    pub open spec fn wf(&self, n: nat) -> bool {
        &&& forall|k: int|
            0 <= k < self.selected_indices@.len() ==> #[trigger] self.selected_indices@[k] < n
        &&& self.selected_indices@.no_duplicates()
        &&& self.state == EditEnum::Dragging ==> self.selected_indices@.len() > 0
    }

    /// A session that has selected nothing and edits no curve yet.
    pub fn new() -> (r: EditState)
        ensures
            r.selected_indices@ == Seq::<usize>::empty(),
            r.state == EditEnum::Selecting,
            r.curr_cylinder == usize::MAX,
            forall|n: nat| r.wf(n),
    {
        EditState { selected_indices: Vec::new(), state: EditEnum::Selecting, curr_cylinder: usize::MAX }
    }

    /// A fresh session on the first curve, left from another mode.
    pub fn from_annotation_state<A>(_annotation_state: A) -> (r: EditState)
        ensures
            r.selected_indices@ == Seq::<usize>::empty(),
            r.state == EditEnum::Selecting,
            r.curr_cylinder == 0,
            forall|n: nat| r.wf(n),
    {
        let mut ee = EditState::new();
        ee.curr_cylinder = 0;
        ee
    }

    /// Appends `ind` to the selection.
    pub fn add_selected_point(&mut self, ind: usize)
        ensures
            final(self).selected_indices@ == old(self).selected_indices@.push(ind),
            final(self).state == old(self).state,
            final(self).curr_cylinder == old(self).curr_cylinder,
    {
        self.selected_indices.push(ind);
    }

    /// Empties the selection.
    pub fn clear_selected(&mut self)
        ensures
            final(self).selected_indices@ == Seq::<usize>::empty(),
            final(self).state == old(self).state,
            final(self).curr_cylinder == old(self).curr_cylinder,
    {
        self.selected_indices.clear();
    }

    /// Gives up the gesture in progress, after the solver failed: the selection is
    /// emptied and picking starts over.
    pub fn abort_gesture(&mut self)
        ensures
            final(self).selected_indices@ == Seq::<usize>::empty(),
            final(self).state == EditEnum::Selecting,
            final(self).curr_cylinder == old(self).curr_cylinder,
            forall|n: nat| final(self).wf(n),
    {
        self.clear_selected();
        self.state = EditEnum::Selecting;
    }


    /// The unselected points of a chain of `n`, in increasing order, then `anchor`.
    fn fixed_for_drag(&self, n: usize, anchor: usize) -> (fixed: Vec<usize>)
        ensures
            fixed@ == unselected(self.selected_indices@, n as nat).push(anchor),
    {
        let ghost sel = self.selected_indices@;
        let mut fixed: Vec<usize> = Vec::new();
        let mut i: usize = 0;
        while i < n
            invariant
                i <= n,
                sel == self.selected_indices@,
                fixed@ == indices_where(i as nat, not_in(sel)),
            decreases n - i,
        {
            if !contains_index(&self.selected_indices, i) {
                fixed.push(i);
            }
            i += 1;
        }
        fixed.push(anchor);
        fixed
    }

    /// Puts `h`, which is selected, first in the selection.
    fn move_to_front(&mut self, h: usize)
        ensures
            final(self).selected_indices@ == seq![h] + without(old(self).selected_indices@, h),
            final(self).state == old(self).state,
            final(self).curr_cylinder == old(self).curr_cylinder,
    {
        let ghost sel = self.selected_indices@;
        let mut out: Vec<usize> = Vec::new();
        out.push(h);
        let mut i: usize = 0;
        while i < self.selected_indices.len()
            invariant
                i <= sel.len(),
                sel == self.selected_indices@,
                out@ == seq![h] + without(sel.subrange(0, i as int), h),
            decreases sel.len() - i,
        {
            let x = self.selected_indices[i];
            assert(sel.subrange(0, i + 1).drop_last() =~= sel.subrange(0, i as int));
            if x != h {
                out.push(x);
                assert(out@ =~= seq![h] + without(sel.subrange(0, i + 1), h));
            }
            i += 1;
        }
        assert(sel.subrange(0, sel.len() as int) =~= sel);
        self.selected_indices = out;
    }

    /// One frame of the interaction without peeling, on a chain of `n` points.
    ///
    /// While selecting, each point hit with the button held joins the selection,
    /// and releasing the button over a non-empty selection starts dragging. While
    /// dragging, a press on a selected point pins every unselected point and that
    /// one (which moves to the front of the selection) and asks for a build; a
    /// press elsewhere drops the selection and goes back to selecting; holding
    /// the button asks to move the front point and solve.
    pub fn handle_edit_no_peeling(&mut self, n: usize, frame: &PointerFrame) -> (action: EditAction)
        requires
            old(self).wf(n as nat),
            frame.wf(n as nat),
        ensures
            final(self).wf(n as nat),
            (final(self).selected_indices@, final(self).state, action@) == no_peeling_next(
                old(self).selected_indices@,
                old(self).state,
                n as nat,
                *frame,
            ),
            final(self).curr_cylinder == old(self).curr_cylinder,
    {
        match self.state {
            EditEnum::Selecting => {
                if frame.pressed {
                    match frame.hit {
                        Some(h) => {
                            if !contains_index(&self.selected_indices, h) {
                                proof {
                                    let s = self.selected_indices@;
                                    assert forall|a: int, b: int|
                                        0 <= a < s.len() + 1 && 0 <= b < s.len() + 1 && a != b
                                        implies #[trigger] s.push(h)[a] != #[trigger] s.push(h)[b] by {
                                        if a == s.len() {
                                            assert(s.contains(s[b]));
                                        } else if b == s.len() {
                                            assert(s.contains(s[a]));
                                        }
                                    }
                                    assert forall|k: int| 0 <= k < s.len() + 1 implies #[trigger] s.push(
                                        h,
                                    )[k] < n by {
                                        if k < s.len() {
                                            assert(s[k] < n);
                                        }
                                    }
                                }
                                self.add_selected_point(h);
                            }
                        },
                        None => {},
                    }
                }
                if !frame.pressed && frame.was_pressed && self.selected_indices.len() > 0 {
                    self.state = EditEnum::Dragging;
                }
                EditAction::Idle
            },
            EditEnum::Dragging => {
                if frame.pressed {
                    if !frame.was_pressed {
                        let chosen = match frame.hit {
                            Some(h) => contains_index(&self.selected_indices, h),
                            None => false,
                        };
                        if !chosen {
                            self.abort_gesture();
                            EditAction::Idle
                        } else {
                            let h = frame.hit.unwrap();
                            let fixed = self.fixed_for_drag(n, h);
                            let ghost sel = self.selected_indices@;
                            proof {
                                lemma_front(sel, h);
                            }
                            self.move_to_front(h);
                            proof {
                                let f = self.selected_indices@;
                                assert forall|k: int| 0 <= k < f.len() implies #[trigger] f[k] < n by {
                                    assert(f.contains(f[k]));
                                    let j = choose|j: int| 0 <= j < sel.len() && sel[j] == f[k];
                                    assert(sel[j] < n);
                                }
                            }
                            EditAction::Build { anchor: h, fixed }
                        }
                    } else {
                        EditAction::Solve { anchor: self.selected_indices[0] }
                    }
                } else {
                    EditAction::Idle
                }
            },
        }
    }

    /// One frame of the interaction with peeling, on a chain of `n` points;
    /// `area_of_effect` is the drag distance in chain steps.
    ///
    /// While selecting, a press that hits a point selects that point alone and
    /// starts a drag. While dragging with the button held, the points within
    /// `area_of_effect` steps of the dragged point become the selection (the
    /// dragged point first), the others and the dragged point are pinned, and the
    /// system is rebuilt and solved. Releasing the button ends the drag.
    pub fn handle_edit_with_peeling(
        &mut self,
        n: usize,
        frame: &PointerFrame,
        area_of_effect: usize,
    ) -> (action: EditAction)
        requires
            old(self).wf(n as nat),
            frame.wf(n as nat),
        ensures
            final(self).wf(n as nat),
            (final(self).selected_indices@, final(self).state, action@) == peeling_next(
                old(self).selected_indices@,
                old(self).state,
                n as nat,
                *frame,
                area_of_effect,
            ),
            final(self).curr_cylinder == old(self).curr_cylinder,
    {
        match self.state {
            EditEnum::Selecting => {
                if frame.pressed && !frame.was_pressed {
                    match frame.hit {
                        Some(h) => {
                            self.clear_selected();
                            self.add_selected_point(h);
                            assert(self.selected_indices@ =~= seq![h]);
                            self.state = EditEnum::Dragging;
                            EditAction::Capture { anchor: h }
                        },
                        None => EditAction::Idle,
                    }
                } else {
                    EditAction::Idle
                }
            },
            EditEnum::Dragging => {
                if !frame.pressed {
                    self.abort_gesture();
                    EditAction::Idle
                } else {
                    let a = self.selected_indices[0];
                    let mut fixed: Vec<usize> = Vec::new();
                    let mut free: Vec<usize> = Vec::new();
                    free.push(a);
                    let mut i: usize = 0;
                    while i < n
                        invariant
                            i <= n,
                            a < n,
                            fixed@ == indices_where(i as nat, beyond_reach(a, area_of_effect)),
                            free@ == seq![a] + indices_where(i as nat, around(a, area_of_effect)),
                        decreases n - i,
                    {
                        let d = if i >= a {
                            i - a
                        } else {
                            a - i
                        };
                        if d > area_of_effect {
                            fixed.push(i);
                        } else if i != a {
                            free.push(i);
                            assert(free@ =~= seq![a] + indices_where(
                                (i + 1) as nat,
                                around(a, area_of_effect),
                            ));
                        }
                        i += 1;
                    }
                    fixed.push(a);
                    proof {
                        lemma_peel_membership(a, area_of_effect, n);
                        let f = free@;
                        assert forall|k: int| 0 <= k < f.len() implies #[trigger] f[k] < n by {
                            assert(f.contains(f[k]));
                        }
                    }
                    self.selected_indices = free;
                    EditAction::RebuildAndSolve { anchor: a, fixed }
                }
            },
        }
    }
    /// One frame of the interaction under the policy chosen by `using_peeling`.
    pub fn handle_edit_operation(
        &mut self,
        using_peeling: bool,
        n: usize,
        frame: &PointerFrame,
        area_of_effect: usize,
    ) -> (action: EditAction)
        requires
            old(self).wf(n as nat),
            frame.wf(n as nat),
        ensures
            final(self).wf(n as nat),
            (final(self).selected_indices@, final(self).state, action@) == if using_peeling {
                peeling_next(
                    old(self).selected_indices@,
                    old(self).state,
                    n as nat,
                    *frame,
                    area_of_effect,
                )
            } else {
                no_peeling_next(old(self).selected_indices@, old(self).state, n as nat, *frame)
            },
            final(self).curr_cylinder == old(self).curr_cylinder,
    {
        if using_peeling {
            self.handle_edit_with_peeling(n, frame, area_of_effect)
        } else {
            self.handle_edit_no_peeling(n, frame)
        }
    }
}

} // verus!
