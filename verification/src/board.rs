//! Board positions as ordered move sequences, the total order used to pick
//! canonical representatives, and the symmetry transforms of the board.

use vstd::prelude::*;

use crate::setting::{GameSetting, SettingView};

verus! {

/// One placed piece: zero-based board coordinates, column first.
#[derive(Debug, Clone, Copy, PartialEq, Eq, Hash, Structural)]
pub struct Take {
    pub x: u8,
    pub y: u8,
}

impl View for Take {
    type V = (int, int);

    open spec fn view(&self) -> (int, int) {
        (self.x as int, self.y as int)
    }
}

impl Take {
    pub fn x(&self) -> (r: usize)
        ensures
            r == self@.0,
    {
        self.x as usize
    }

    pub fn y(&self) -> (r: usize)
        ensures
            r == self@.1,
    {
        self.y as usize
    }
}

/// Strict order on coordinates: column first, then row.
pub open spec fn pt_lt(a: (int, int), b: (int, int)) -> bool {
    a.0 < b.0 || (a.0 == b.0 && a.1 < b.1)
}

/// Strict total order on move sequences: shorter first, then lexicographic
/// by coordinates. This is the tie-break that picks a canonical
/// representative among symmetric states.
pub open spec fn state_lt(a: Seq<(int, int)>, b: Seq<(int, int)>) -> bool {
    ||| a.len() < b.len()
    ||| (a.len() == b.len() && exists|k: int|
        0 <= k < a.len() && (forall|i: int| #![trigger a[i]] 0 <= i < k ==> a[i] == b[i])
            && #[trigger] pt_lt(a[k], b[k]))
}

pub open spec fn state_le(a: Seq<(int, int)>, b: Seq<(int, int)>) -> bool {
    state_lt(a, b) || a == b
}

/// Every pair of sequences is ordered one way or the other.
pub proof fn lemma_state_le_total(a: Seq<(int, int)>, b: Seq<(int, int)>)
    ensures
        state_le(a, b) || state_le(b, a),
{
    if a.len() == b.len() {
        lemma_lex_total_from(a, b, 0);
    }
}

proof fn lemma_lex_total_from(a: Seq<(int, int)>, b: Seq<(int, int)>, i: int)
    requires
        a.len() == b.len(),
        0 <= i <= a.len(),
        forall|j: int| #![trigger a[j]] 0 <= j < i ==> a[j] == b[j],
    ensures
        a == b || state_lt(a, b) || state_lt(b, a),
    decreases a.len() - i,
{
    if i == a.len() {
        assert(a =~= b);
    } else if a[i] == b[i] {
        lemma_lex_total_from(a, b, i + 1);
    } else {
        if a[i].0 < b[i].0 || (a[i].0 == b[i].0 && a[i].1 < b[i].1) {
            assert(pt_lt(a[i], b[i]));
        } else {
            assert(pt_lt(b[i], a[i]));
        }
    }
}

/// The strict order is asymmetric.
pub proof fn lemma_state_lt_asym(a: Seq<(int, int)>, b: Seq<(int, int)>)
    requires
        state_lt(a, b),
    ensures
        !state_lt(b, a),
{
    if a.len() == b.len() && state_lt(b, a) {
        let k1 = choose|k: int|
            0 <= k < a.len() && (forall|i: int| #![trigger a[i]] 0 <= i < k ==> a[i] == b[i])
                && #[trigger] pt_lt(a[k], b[k]);
        let k2 = choose|k: int|
            0 <= k < b.len() && (forall|i: int| #![trigger b[i]] 0 <= i < k ==> b[i] == a[i])
                && #[trigger] pt_lt(b[k], a[k]);
        if k1 < k2 {
            assert(b[k1] == a[k1]);
        } else if k2 < k1 {
            assert(a[k2] == b[k2]);
        }
    }
}

/// Mutual weak ordering forces equality.
pub proof fn lemma_state_le_antisym(a: Seq<(int, int)>, b: Seq<(int, int)>)
    requires
        state_le(a, b),
        state_le(b, a),
    ensures
        a == b,
{
    if a != b {
        lemma_state_lt_asym(a, b);
    }
}

/// The strict order is transitive.
pub proof fn lemma_state_lt_trans(a: Seq<(int, int)>, b: Seq<(int, int)>, c: Seq<(int, int)>)
    requires
        state_lt(a, b),
        state_lt(b, c),
    ensures
        state_lt(a, c),
{
    if a.len() == b.len() && b.len() == c.len() {
        let k1 = choose|k: int|
            0 <= k < a.len() && (forall|i: int| #![trigger a[i]] 0 <= i < k ==> a[i] == b[i])
                && #[trigger] pt_lt(a[k], b[k]);
        let k2 = choose|k: int|
            0 <= k < b.len() && (forall|i: int| #![trigger b[i]] 0 <= i < k ==> b[i] == c[i])
                && #[trigger] pt_lt(b[k], c[k]);
        if k1 < k2 {
            assert(forall|i: int| #![trigger a[i]] 0 <= i < k1 ==> a[i] == c[i]);
            assert(pt_lt(a[k1], c[k1]));
        } else if k2 < k1 {
            assert(forall|i: int| #![trigger a[i]] 0 <= i < k2 ==> a[i] == c[i]);
            assert(pt_lt(a[k2], c[k2]));
        } else {
            assert(forall|i: int| #![trigger a[i]] 0 <= i < k1 ==> a[i] == c[i]);
            assert(pt_lt(a[k1], c[k1]));
        }
    }
}

/// Transitivity of the weak order.
pub proof fn lemma_state_le_trans(a: Seq<(int, int)>, b: Seq<(int, int)>, c: Seq<(int, int)>)
    requires
        state_le(a, b),
        state_le(b, c),
    ensures
        state_le(a, c),
{
    if a != b && b != c {
        lemma_state_lt_trans(a, b, c);
    }
}

/// The ordered record of live pieces, oldest first. At most twice the piece
/// cap of the configuration it is played under; equality and ordering are by
/// the move sequence alone.
#[derive(Debug)]
pub struct BoardState {
    takes: Vec<Take>,
}

impl View for BoardState {
    type V = Seq<(int, int)>;

    closed spec fn view(&self) -> Seq<(int, int)> {
        self.takes@.map_values(|t: Take| t@)
    }
}

impl Clone for BoardState {
    fn clone(&self) -> (r: BoardState)
        ensures
            r@ == self@,
    {
        let r = BoardState { takes: copy_takes(&self.takes) };
        assert(r@ =~= self@);
        r
    }
}

impl Default for BoardState {
    fn default() -> (r: BoardState)
        ensures
            r@ == Seq::<(int, int)>::empty(),
    {
        let r = BoardState { takes: Vec::new() };
        assert(r@ =~= Seq::<(int, int)>::empty());
        r
    }
}

fn copy_takes(takes: &Vec<Take>) -> (r: Vec<Take>)
    ensures
        r@ == takes@,
{
    let mut r: Vec<Take> = Vec::new();
    let mut i: usize = 0;
    while i < takes.len()
        invariant
            i <= takes.len(),
            r@ == takes@.take(i as int),
        decreases takes.len() - i,
    {
        r.push(takes[i]);
        assert(r@ =~= takes@.take(i as int + 1));
        i += 1;
    }
    assert(r@ =~= takes@);
    r
}

impl PartialEq for BoardState {
    fn eq(&self, other: &BoardState) -> (r: bool) {
        let n = self.takes.len();
        if n != other.takes.len() {
            assert(self@.len() != other@.len());
            return false;
        }
        let mut i: usize = 0;
        while i < n
            invariant
                i <= n,
                n == self.takes.len(),
                n == other.takes.len(),
                forall|j: int| #![trigger self@[j]] 0 <= j < i ==> self@[j] == other@[j],
            decreases n - i,
        {
            let ta = self.takes[i];
            let tb = other.takes[i];
            if ta.x != tb.x || ta.y != tb.y {
                assert(self@[i as int] != other@[i as int]);
                return false;
            }
            assert(self@[i as int] == other@[i as int]);
            i += 1;
        }
        assert(self@ =~= other@);
        true
    }
}

impl Eq for BoardState {

}

impl vstd::std_specs::cmp::PartialEqSpecImpl for BoardState {
    open spec fn obeys_eq_spec() -> bool {
        true
    }

    open spec fn eq_spec(&self, other: &BoardState) -> bool {
        self@ == other@
    }
}

impl BoardState {
    /// Builds a state from an explicit move list, oldest first.
    pub fn from_takes(takes: Vec<Take>) -> (r: BoardState)
        ensures
            r@ == takes@.map_values(|t: Take| t@),
    {
        BoardState { takes }
    }

    /// The live moves, oldest first.
    pub fn takes(&self) -> (r: &Vec<Take>)
        ensures
            r@.map_values(|t: Take| t@) == self@,
    {
        &self.takes
    }

    /// Number of live moves.
    pub fn len(&self) -> (r: usize)
        ensures
            r == self@.len(),
    {
        self.takes.len()
    }

    /// The move at window index `i`, oldest first.
    pub fn get(&self, i: usize) -> (r: Take)
        requires
            i < self@.len(),
        ensures
            r@ == self@[i as int],
    {
        self.takes[i]
    }

    /// Appends a move at the newest end of the window.
    pub(crate) fn push_take(&mut self, t: Take)
        ensures
            final(self)@ == old(self)@.push(t@),
    {
        self.takes.push(t);
        assert(final(self)@ =~= old(self)@.push(t@));
    }

    /// Evicts the oldest live move.
    pub(crate) fn drop_oldest(&mut self)
        requires
            old(self)@.len() >= 1,
        ensures
            final(self)@ == old(self)@.drop_first(),
    {
        self.takes.remove(0);
        assert(final(self)@ =~= old(self)@.drop_first());
    }

    /// Weak order on states: decides `state_le` on the views.
    pub fn le(&self, other: &BoardState) -> (r: bool)
        ensures
            r == state_le(self@, other@),
    {
        let n = self.takes.len();
        let m = other.takes.len();
        if n != m {
            if n < m {
                assert(state_lt(self@, other@));
                return true;
            } else {
                assert(self@.len() != other@.len());
                assert(!state_lt(self@, other@));
                return false;
            }
        }
        let mut i: usize = 0;
        while i < n
            invariant
                i <= n,
                n == self.takes.len(),
                n == other.takes.len(),
                forall|j: int| #![trigger self@[j]] 0 <= j < i ==> self@[j] == other@[j],
            decreases n - i,
    {
            let ta = self.takes[i];
            let tb = other.takes[i];
            if ta.x != tb.x || ta.y != tb.y {
                assert(self@[i as int] != other@[i as int]);
                if ta.x < tb.x || (ta.x == tb.x && ta.y < tb.y) {
                    assert(pt_lt(self@[i as int], other@[i as int]));
                    assert(state_lt(self@, other@));
                    return true;
                } else {
                    assert(pt_lt(other@[i as int], self@[i as int]));
                    assert(state_lt(other@, self@));
                    proof {
                        lemma_state_lt_asym(other@, self@);
                    }
                    return false;
                }
            }
            assert(self@[i as int] == other@[i as int]);
            i += 1;
        }
        assert(self@ =~= other@);
        true
    }
}

/// No two live pieces share a cell.
pub open spec fn distinct_cells(s: Seq<(int, int)>) -> bool {
    forall|i: int, j: int| #![trigger s[i], s[j]] 0 <= i < j < s.len() ==> s[i] != s[j]
}

/// All coordinates of `s` lie on the board described by `sv`.
pub open spec fn in_bounds(s: Seq<(int, int)>, sv: SettingView) -> bool {
    forall|i: int| #![trigger s[i]]
        0 <= i < s.len() ==> 0 <= s[i].0 < sv.width && 0 <= s[i].1 < sv.height
}

/// Quarter-turn of one coordinate on a square board of the given size.
pub open spec fn rotate_pt(p: (int, int), size: int) -> (int, int) {
    (size - 1 - p.1, p.0)
}

/// Horizontal mirror of one coordinate.
pub open spec fn mirror_x_pt(p: (int, int), width: int) -> (int, int) {
    (width - 1 - p.0, p.1)
}

/// Vertical mirror of one coordinate.
pub open spec fn mirror_y_pt(p: (int, int), height: int) -> (int, int) {
    (p.0, height - 1 - p.1)
}

pub open spec fn rotate_seq(s: Seq<(int, int)>, size: int) -> Seq<(int, int)> {
    s.map_values(|p: (int, int)| rotate_pt(p, size))
}

pub open spec fn mirror_x_seq(s: Seq<(int, int)>, width: int) -> Seq<(int, int)> {
    s.map_values(|p: (int, int)| mirror_x_pt(p, width))
}

pub open spec fn mirror_y_seq(s: Seq<(int, int)>, height: int) -> Seq<(int, int)> {
    s.map_values(|p: (int, int)| mirror_y_pt(p, height))
}

/// The candidate images of `s` on a square board: the four rotations and
/// the four reflections, in the order the canonicalizer enumerates them.
pub open spec fn square_orbit(s: Seq<(int, int)>, n: int) -> Seq<Seq<(int, int)>> {
    let r1 = rotate_seq(s, n);
    let r2 = rotate_seq(r1, n);
    let r3 = rotate_seq(r2, n);
    let m0 = mirror_x_seq(r3, n);
    let m1 = rotate_seq(m0, n);
    let m2 = rotate_seq(m1, n);
    let m3 = rotate_seq(m2, n);
    seq![s, r1, r2, r3, m0, m1, m2, m3]
}

/// The candidate images of `s` on a rectangular board: identity and the
/// two independent mirrors and their composition.
pub open spec fn rect_orbit(s: Seq<(int, int)>, sv: SettingView) -> Seq<Seq<(int, int)>> {
    seq![
        s,
        mirror_y_seq(s, sv.height),
        mirror_x_seq(s, sv.width),
        mirror_y_seq(mirror_x_seq(s, sv.width), sv.height),
    ]
}

pub open spec fn min2(a: Seq<(int, int)>, b: Seq<(int, int)>) -> Seq<(int, int)> {
    if state_le(a, b) {
        a
    } else {
        b
    }
}

/// Left fold of `min2` over a candidate list: the least element, earliest
/// occurrence winning ties.
pub open spec fn min_of(cands: Seq<Seq<(int, int)>>) -> Seq<(int, int)>
    decreases cands.len(),
{
    if cands.len() <= 1 {
        cands[0]
    } else {
        min2(min_of(cands.drop_last()), cands.last())
    }
}

/// The canonical form of a state: the least element, under `state_le`, of
/// its orbit under the board's symmetry group.
pub open spec fn canonical(s: Seq<(int, int)>, sv: SettingView) -> Seq<(int, int)> {
    if sv.height == sv.width {
        min_of(square_orbit(s, sv.height))
    } else {
        min_of(rect_orbit(s, sv))
    }
}

/// Whether `s` is its own canonical form.
pub open spec fn is_canonical(s: Seq<(int, int)>, sv: SettingView) -> bool {
    s == canonical(s, sv)
}

/// `min_of` returns a member of the list that is below every member.
pub proof fn lemma_min_of_props(cands: Seq<Seq<(int, int)>>)
    requires
        cands.len() >= 1,
    ensures
        exists|i: int| 0 <= i < cands.len() && min_of(cands) == #[trigger] cands[i],
        forall|i: int| 0 <= i < cands.len() ==> state_le(min_of(cands), #[trigger] cands[i]),
    decreases cands.len(),
{
    if cands.len() == 1 {
        assert(min_of(cands) == cands[0]);
    } else {
        let head = cands.drop_last();
        lemma_min_of_props(head);
        let m1 = min_of(head);
        let last = cands.last();
        lemma_state_le_total(m1, last);
        assert(forall|i: int| 0 <= i < head.len() ==> head[i] == #[trigger] cands[i]);
        if state_le(m1, last) {
            assert(min_of(cands) == m1);
            let j = choose|i: int| 0 <= i < head.len() && m1 == #[trigger] head[i];
            assert(min_of(cands) == cands[j]);
        } else {
            assert(min_of(cands) == last);
            assert(state_le(last, m1));
            assert forall|i: int| 0 <= i < cands.len() implies state_le(
                min_of(cands),
                #[trigger] cands[i],
            ) by {
                if i < cands.len() - 1 {
                    lemma_state_le_trans(last, m1, cands[i]);
                }
            }
            assert(min_of(cands) == cands[cands.len() - 1]);
        }
    }
}

impl BoardState {
    /// Quarter-turn of the whole state; only meaningful on square boards.
    pub fn rotate(&self, setting: &GameSetting) -> (r: BoardState)
        requires
            setting@.height == setting@.width,
            in_bounds(self@, setting@),
        ensures
            r@ == rotate_seq(self@, setting@.height),
            in_bounds(r@, setting@),
    {
        let n = setting.board_height();
        let mut new_takes: Vec<Take> = Vec::new();
        let mut i: usize = 0;
        while i < self.takes.len()
            invariant
                i <= self.takes.len(),
                1 <= n <= 11,
                n == setting@.height,
                setting@.height == setting@.width,
                in_bounds(self@, setting@),
                self@.len() == self.takes.len(),
                new_takes@.len() == i,
                forall|j: int| #![trigger new_takes@[j]]
                    0 <= j < i ==> new_takes@[j]@ == rotate_pt(self@[j], n as int),
            decreases self.takes.len() - i,
        {
            let t = self.takes[i];
            assert(self@[i as int] == t@);
            let nt = Take { x: (n - 1 - t.y as usize) as u8, y: t.x };
            new_takes.push(nt);
            i += 1;
        }
        let r = BoardState { takes: new_takes };
        assert(r@ =~= rotate_seq(self@, setting@.height));
        assert forall|j: int| #![trigger r@[j]] 0 <= j < r@.len() implies 0 <= r@[j].0
            < setting@.width && 0 <= r@[j].1 < setting@.height by {
            assert(r@[j] == rotate_pt(self@[j], setting@.height));
        }
        r
    }

    /// Horizontal mirror of the whole state.
    pub fn mirror_x(&self, setting: &GameSetting) -> (r: BoardState)
        requires
            in_bounds(self@, setting@),
        ensures
            r@ == mirror_x_seq(self@, setting@.width),
            in_bounds(r@, setting@),
    {
        let w = setting.board_width();
        let mut new_takes: Vec<Take> = Vec::new();
        let mut i: usize = 0;
        while i < self.takes.len()
            invariant
                i <= self.takes.len(),
                1 <= w <= 11,
                w == setting@.width,
                in_bounds(self@, setting@),
                self@.len() == self.takes.len(),
                new_takes@.len() == i,
                forall|j: int| #![trigger new_takes@[j]]
                    0 <= j < i ==> new_takes@[j]@ == mirror_x_pt(self@[j], w as int),
            decreases self.takes.len() - i,
        {
            let t = self.takes[i];
            assert(self@[i as int] == t@);
            let nt = Take { x: (w - 1 - t.x as usize) as u8, y: t.y };
            new_takes.push(nt);
            i += 1;
        }
        let r = BoardState { takes: new_takes };
        assert(r@ =~= mirror_x_seq(self@, setting@.width));
        assert forall|j: int| #![trigger r@[j]] 0 <= j < r@.len() implies 0 <= r@[j].0
            < setting@.width && 0 <= r@[j].1 < setting@.height by {
            assert(r@[j] == mirror_x_pt(self@[j], setting@.width));
        }
        r
    }

    /// Vertical mirror of the whole state.
    pub fn mirror_y(&self, setting: &GameSetting) -> (r: BoardState)
        requires
            in_bounds(self@, setting@),
        ensures
            r@ == mirror_y_seq(self@, setting@.height),
            in_bounds(r@, setting@),
    {
        let h = setting.board_height();
        let mut new_takes: Vec<Take> = Vec::new();
        let mut i: usize = 0;
        while i < self.takes.len()
            invariant
                i <= self.takes.len(),
                1 <= h <= 11,
                h == setting@.height,
                in_bounds(self@, setting@),
                self@.len() == self.takes.len(),
                new_takes@.len() == i,
                forall|j: int| #![trigger new_takes@[j]]
                    0 <= j < i ==> new_takes@[j]@ == mirror_y_pt(self@[j], h as int),
            decreases self.takes.len() - i,
        {
            let t = self.takes[i];
            assert(self@[i as int] == t@);
            let nt = Take { x: t.x, y: (h - 1 - t.y as usize) as u8 };
            new_takes.push(nt);
            i += 1;
        }
        let r = BoardState { takes: new_takes };
        assert(r@ =~= mirror_y_seq(self@, setting@.height));
        assert forall|j: int| #![trigger r@[j]] 0 <= j < r@.len() implies 0 <= r@[j].0
            < setting@.width && 0 <= r@[j].1 < setting@.height by {
            assert(r@[j] == mirror_y_pt(self@[j], setting@.height));
        }
        r
    }
}

fn min_state(a: BoardState, b: BoardState) -> (r: BoardState)
    ensures
        r@ == min2(a@, b@),
{
    if a.le(&b) {
        a
    } else {
        b
    }
}

impl BoardState {
    /// The canonical representative of this state's symmetry orbit: the
    /// least image under the board's symmetry group.
    pub fn normalized(&self, setting: &GameSetting) -> (r: BoardState)
        requires
            in_bounds(self@, setting@),
        ensures
            r@ == canonical(self@, setting@),
            in_bounds(r@, setting@),
    {
        let sq = setting.board_height() == setting.board_width();
        if sq {
            let ghost orb = square_orbit(self@, setting@.height);
            let c0 = self.clone();
            let c1 = c0.rotate(setting);
            let c2 = c1.rotate(setting);
            let c3 = c2.rotate(setting);
            let m0 = c3.mirror_x(setting);
            let m1 = m0.rotate(setting);
            let m2 = m1.rotate(setting);
            let m3 = m2.rotate(setting);
            assert(orb[0] == c0@ && orb[1] == c1@ && orb[2] == c2@ && orb[3] == c3@ && orb[4]
                == m0@ && orb[5] == m1@ && orb[6] == m2@ && orb[7] == m3@);
            let mut best = c0;
            assert(orb.take(1).len() == 1 && orb.take(1)[0] == orb[0]);
            assert(best@ == min_of(orb.take(1)));
            best = fold_step(best, c1, Ghost(orb), Ghost(1));
            best = fold_step(best, c2, Ghost(orb), Ghost(2));
            best = fold_step(best, c3, Ghost(orb), Ghost(3));
            best = fold_step(best, m0, Ghost(orb), Ghost(4));
            best = fold_step(best, m1, Ghost(orb), Ghost(5));
            best = fold_step(best, m2, Ghost(orb), Ghost(6));
            best = fold_step(best, m3, Ghost(orb), Ghost(7));
            assert(orb.take(8) =~= orb);
            proof {
                lemma_min_of_props(orb);
                orbit_in_bounds_square(self@, setting@);
            }
            best
        } else {
            let ghost orb = rect_orbit(self@, setting@);
            let c0 = self.clone();
            let c1 = c0.mirror_y(setting);
            let c2 = c0.mirror_x(setting);
            let c3 = c2.mirror_y(setting);
            assert(orb[0] == c0@ && orb[1] == c1@ && orb[2] == c2@ && orb[3] == c3@);
            let mut best = c0;
            assert(orb.take(1).len() == 1 && orb.take(1)[0] == orb[0]);
            assert(best@ == min_of(orb.take(1)));
            best = fold_step(best, c1, Ghost(orb), Ghost(1));
            best = fold_step(best, c2, Ghost(orb), Ghost(2));
            best = fold_step(best, c3, Ghost(orb), Ghost(3));
            assert(orb.take(4) =~= orb);
            proof {
                lemma_min_of_props(orb);
                orbit_in_bounds_rect(self@, setting@);
            }
            best
        }
    }

    /// Whether this state already is the canonical representative of its
    /// orbit.
    pub fn is_normalized(&self, setting: &GameSetting) -> (r: bool)
        requires
            in_bounds(self@, setting@),
        ensures
            r == is_canonical(self@, setting@),
    {
        let n = self.normalized(setting);
        *self == n
    }
}

/// One step of the left fold that selects the least orbit member.
fn fold_step(best: BoardState, next: BoardState, Ghost(orb): Ghost<Seq<Seq<(int, int)>>>, Ghost(
    i,
): Ghost<int>) -> (r: BoardState)
    requires
        0 < i < orb.len(),
        best@ == min_of(orb.take(i)),
        next@ == orb[i],
    ensures
        r@ == min_of(orb.take(i + 1)),
{
    proof {
        assert(orb.take(i + 1).drop_last() =~= orb.take(i));
        assert(orb.take(i + 1).last() == orb[i]);
    }
    min_state(best, next)
}

/// Every member of the square orbit stays on the board.
proof fn orbit_in_bounds_square(s: Seq<(int, int)>, sv: SettingView)
    requires
        sv.height == sv.width,
        in_bounds(s, sv),
    ensures
        forall|i: int|
            0 <= i < square_orbit(s, sv.height).len() ==> in_bounds(
                #[trigger] square_orbit(s, sv.height)[i],
                sv,
            ),
{
    let n = sv.height;
    let orb = square_orbit(s, n);
    assert forall|i: int| 0 <= i < orb.len() implies in_bounds(#[trigger] orb[i], sv) by {
        rotate_preserves_bounds(s, sv);
        rotate_preserves_bounds(rotate_seq(s, n), sv);
        rotate_preserves_bounds(rotate_seq(rotate_seq(s, n), n), sv);
        mirror_x_preserves_bounds(rotate_seq(rotate_seq(rotate_seq(s, n), n), n), sv);
        rotate_preserves_bounds(mirror_x_seq(rotate_seq(rotate_seq(rotate_seq(s, n), n), n), n), sv);
        rotate_preserves_bounds(
            rotate_seq(mirror_x_seq(rotate_seq(rotate_seq(rotate_seq(s, n), n), n), n), n),
            sv,
        );
        rotate_preserves_bounds(
            rotate_seq(
                rotate_seq(mirror_x_seq(rotate_seq(rotate_seq(rotate_seq(s, n), n), n), n), n),
                n,
            ),
            sv,
        );
    }
}

/// Every member of the rectangular orbit stays on the board.
proof fn orbit_in_bounds_rect(s: Seq<(int, int)>, sv: SettingView)
    requires
        in_bounds(s, sv),
    ensures
        forall|i: int|
            0 <= i < rect_orbit(s, sv).len() ==> in_bounds(#[trigger] rect_orbit(s, sv)[i], sv),
{
    let orb = rect_orbit(s, sv);
    assert forall|i: int| 0 <= i < orb.len() implies in_bounds(#[trigger] orb[i], sv) by {
        mirror_y_preserves_bounds(s, sv);
        mirror_x_preserves_bounds(s, sv);
        mirror_y_preserves_bounds(mirror_x_seq(s, sv.width), sv);
    }
}

proof fn rotate_preserves_bounds(s: Seq<(int, int)>, sv: SettingView)
    requires
        sv.height == sv.width,
        in_bounds(s, sv),
    ensures
        in_bounds(rotate_seq(s, sv.height), sv),
{
    let r = rotate_seq(s, sv.height);
    assert forall|i: int| #![trigger r[i]] 0 <= i < r.len() implies 0 <= r[i].0 < sv.width && 0
        <= r[i].1 < sv.height by {
        assert(r[i] == rotate_pt(s[i], sv.height));
    }
}

proof fn mirror_x_preserves_bounds(s: Seq<(int, int)>, sv: SettingView)
    requires
        in_bounds(s, sv),
    ensures
        in_bounds(mirror_x_seq(s, sv.width), sv),
{
    let r = mirror_x_seq(s, sv.width);
    assert forall|i: int| #![trigger r[i]] 0 <= i < r.len() implies 0 <= r[i].0 < sv.width && 0
        <= r[i].1 < sv.height by {
        assert(r[i] == mirror_x_pt(s[i], sv.width));
    }
}

proof fn mirror_y_preserves_bounds(s: Seq<(int, int)>, sv: SettingView)
    requires
        in_bounds(s, sv),
    ensures
        in_bounds(mirror_y_seq(s, sv.height), sv),
{
    let r = mirror_y_seq(s, sv.height);
    assert forall|i: int| #![trigger r[i]] 0 <= i < r.len() implies 0 <= r[i].0 < sv.width && 0
        <= r[i].1 < sv.height by {
        assert(r[i] == mirror_y_pt(s[i], sv.height));
    }
}

/// Four quarter-turns restore every coordinate.
pub proof fn lemma_rotate_four(s: Seq<(int, int)>, n: int)
    ensures
        rotate_seq(rotate_seq(rotate_seq(rotate_seq(s, n), n), n), n) == s,
{
    assert(rotate_seq(rotate_seq(rotate_seq(rotate_seq(s, n), n), n), n) =~= s);
}

/// The horizontal mirror is an involution.
pub proof fn lemma_mirror_x_invol(s: Seq<(int, int)>, w: int)
    ensures
        mirror_x_seq(mirror_x_seq(s, w), w) == s,
{
    assert(mirror_x_seq(mirror_x_seq(s, w), w) =~= s);
}

/// The vertical mirror is an involution.
pub proof fn lemma_mirror_y_invol(s: Seq<(int, int)>, h: int)
    ensures
        mirror_y_seq(mirror_y_seq(s, h), h) == s,
{
    assert(mirror_y_seq(mirror_y_seq(s, h), h) =~= s);
}

/// Mirroring after three quarter-turns is a quarter-turn after mirroring:
/// both send `(x, y)` to `(n - 1 - y, n - 1 - x)`.
pub proof fn lemma_mirror_x_rot3(s: Seq<(int, int)>, n: int)
    ensures
        mirror_x_seq(rotate_seq(rotate_seq(rotate_seq(s, n), n), n), n) == rotate_seq(
            mirror_x_seq(s, n),
            n,
        ),
{
    assert(mirror_x_seq(rotate_seq(rotate_seq(rotate_seq(s, n), n), n), n) =~= rotate_seq(
        mirror_x_seq(s, n),
        n,
    ));
}

/// The two mirrors act on independent coordinates, so they commute.
pub proof fn lemma_mirror_xy_comm(s: Seq<(int, int)>, w: int, h: int)
    ensures
        mirror_x_seq(mirror_y_seq(s, h), w) == mirror_y_seq(mirror_x_seq(s, w), h),
{
    assert(mirror_x_seq(mirror_y_seq(s, h), w) =~= mirror_y_seq(mirror_x_seq(s, w), h));
}

/// On a square board the vertical mirror is the horizontal mirror of the
/// half-turn.
pub proof fn lemma_mirror_y_square(s: Seq<(int, int)>, n: int)
    ensures
        mirror_y_seq(s, n) == mirror_x_seq(rotate_seq(rotate_seq(s, n), n), n),
{
    assert(mirror_y_seq(s, n) =~= mirror_x_seq(rotate_seq(rotate_seq(s, n), n), n));
}

/// Two candidate lists with the same members have the same least element.
proof fn lemma_min_of_equal_sets(o1: Seq<Seq<(int, int)>>, o2: Seq<Seq<(int, int)>>)
    requires
        o1.len() >= 1,
        o2.len() >= 1,
        forall|i: int| #![trigger o1[i]]
            0 <= i < o1.len() ==> exists|j: int| #![trigger o2[j]]
                0 <= j < o2.len() && o1[i] == o2[j],
        forall|j: int| #![trigger o2[j]]
            0 <= j < o2.len() ==> exists|i: int| #![trigger o1[i]]
                0 <= i < o1.len() && o2[j] == o1[i],
    ensures
        min_of(o1) == min_of(o2),
{
    lemma_min_of_props(o1);
    lemma_min_of_props(o2);
    let m1 = min_of(o1);
    let m2 = min_of(o2);
    let i1 = choose|i: int| 0 <= i < o1.len() && m1 == #[trigger] o1[i];
    let j1 = choose|j: int| #![trigger o2[j]] 0 <= j < o2.len() && o1[i1] == o2[j];
    assert(state_le(m2, o2[j1]));
    let j2 = choose|j: int| 0 <= j < o2.len() && m2 == #[trigger] o2[j];
    let i2 = choose|i: int| #![trigger o1[i]] 0 <= i < o1.len() && o2[j2] == o1[i];
    assert(state_le(m1, o1[i2]));
    lemma_state_le_antisym(m1, m2);
}

/// Canonicalization is invariant under a quarter-turn of its argument
/// (square boards).
pub proof fn lemma_canonical_rotate(s: Seq<(int, int)>, sv: SettingView)
    requires
        sv.height == sv.width,
    ensures
        canonical(rotate_seq(s, sv.height), sv) == canonical(s, sv),
{
    let n = sv.height;
    let a1 = rotate_seq(s, n);
    let a2 = rotate_seq(a1, n);
    let a3 = rotate_seq(a2, n);
    let a4 = rotate_seq(a3, n);
    let b0 = mirror_x_seq(s, n);
    let b1 = rotate_seq(b0, n);
    let b2 = rotate_seq(b1, n);
    let b3 = rotate_seq(b2, n);
    let b4 = rotate_seq(b3, n);
    lemma_rotate_four(s, n);
    lemma_rotate_four(b0, n);
    lemma_mirror_x_rot3(s, n);
    let o1 = square_orbit(s, n);
    let o2 = square_orbit(a1, n);
    assert(o1[0] == s && o1[1] == a1 && o1[2] == a2 && o1[3] == a3);
    assert(o1[4] == mirror_x_seq(a3, n) && o1[4] == b1);
    assert(o1[5] == rotate_seq(o1[4], n) && o1[5] == b2);
    assert(o1[6] == b3 && o1[7] == b4 && o1[7] == b0);
    assert(o2[0] == a1 && o2[1] == a2 && o2[2] == a3 && o2[3] == a4 && o2[3] == s);
    assert(o2[4] == mirror_x_seq(o2[3], n) && o2[4] == b0);
    assert(o2[5] == rotate_seq(o2[4], n) && o2[5] == b1);
    assert(o2[6] == b2 && o2[7] == b3);
    assert forall|i: int| #![trigger o1[i]] 0 <= i < o1.len() implies exists|j: int|
        #![trigger o2[j]] 0 <= j < o2.len() && o1[i] == o2[j] by {
        assert(o1[0] == o2[3] && o1[1] == o2[0] && o1[2] == o2[1] && o1[3] == o2[2]);
        assert(o1[4] == o2[5] && o1[5] == o2[6] && o1[6] == o2[7] && o1[7] == o2[4]);
    }
    assert forall|j: int| #![trigger o2[j]] 0 <= j < o2.len() implies exists|i: int|
        #![trigger o1[i]] 0 <= i < o1.len() && o2[j] == o1[i] by {
        assert(o2[3] == o1[0] && o2[0] == o1[1] && o2[1] == o1[2] && o2[2] == o1[3]);
        assert(o2[5] == o1[4] && o2[6] == o1[5] && o2[7] == o1[6] && o2[4] == o1[7]);
    }
    lemma_min_of_equal_sets(o1, o2);
}

/// Canonicalization is invariant under the horizontal mirror, on square and
/// rectangular boards alike.
pub proof fn lemma_canonical_mirror_x(s: Seq<(int, int)>, sv: SettingView)
    ensures
        canonical(mirror_x_seq(s, sv.width), sv) == canonical(s, sv),
{
    if sv.height == sv.width {
        let n = sv.height;
        let a1 = rotate_seq(s, n);
        let a2 = rotate_seq(a1, n);
        let a3 = rotate_seq(a2, n);
        let a4 = rotate_seq(a3, n);
        let b0 = mirror_x_seq(s, n);
        let b1 = rotate_seq(b0, n);
        let b2 = rotate_seq(b1, n);
        let b3 = rotate_seq(b2, n);
        let b4 = rotate_seq(b3, n);
        lemma_rotate_four(s, n);
        lemma_rotate_four(b0, n);
        lemma_mirror_x_rot3(s, n);
        lemma_mirror_x_rot3(b0, n);
        lemma_mirror_x_invol(s, n);
        let o1 = square_orbit(s, n);
        let o2 = square_orbit(b0, n);
        assert(o1[0] == s && o1[1] == a1 && o1[2] == a2 && o1[3] == a3);
        assert(o1[4] == mirror_x_seq(a3, n) && o1[4] == b1);
        assert(o1[5] == rotate_seq(o1[4], n) && o1[5] == b2);
        assert(o1[6] == b3 && o1[7] == b4 && o1[7] == b0);
        assert(o2[0] == b0 && o2[1] == b1 && o2[2] == b2 && o2[3] == b3);
        assert(o2[4] == mirror_x_seq(b3, n));
        assert(mirror_x_seq(b3, n) == rotate_seq(mirror_x_seq(b0, n), n));
        assert(mirror_x_seq(b0, n) == s);
        assert(o2[4] == a1);
        assert(o2[5] == rotate_seq(o2[4], n) && o2[5] == a2);
        assert(o2[6] == a3 && o2[7] == a4 && o2[7] == s);
        assert forall|i: int| #![trigger o1[i]] 0 <= i < o1.len() implies exists|j: int|
            #![trigger o2[j]] 0 <= j < o2.len() && o1[i] == o2[j] by {
            assert(o1[0] == o2[7] && o1[1] == o2[4] && o1[2] == o2[5] && o1[3] == o2[6]);
            assert(o1[4] == o2[1] && o1[5] == o2[2] && o1[6] == o2[3] && o1[7] == o2[0]);
        }
        assert forall|j: int| #![trigger o2[j]] 0 <= j < o2.len() implies exists|i: int|
            #![trigger o1[i]] 0 <= i < o1.len() && o2[j] == o1[i] by {
            assert(o2[7] == o1[0] && o2[4] == o1[1] && o2[5] == o1[2] && o2[6] == o1[3]);
            assert(o2[1] == o1[4] && o2[2] == o1[5] && o2[3] == o1[6] && o2[0] == o1[7]);
        }
        lemma_min_of_equal_sets(o1, o2);
    } else {
        let w = sv.width;
        let h = sv.height;
        let mx = mirror_x_seq(s, w);
        lemma_mirror_x_invol(s, w);
        let o1 = rect_orbit(s, sv);
        let o2 = rect_orbit(mx, sv);
        assert(o1[0] == s && o1[1] == mirror_y_seq(s, h) && o1[2] == mx && o1[3] == mirror_y_seq(
            mx,
            h,
        ));
        assert(o2[0] == mx && o2[1] == mirror_y_seq(mx, h) && o2[2] == mirror_x_seq(mx, w) && o2[2]
            == s);
        assert(o2[3] == mirror_y_seq(mirror_x_seq(mx, w), h) && o2[3] == mirror_y_seq(s, h));
        assert forall|i: int| #![trigger o1[i]] 0 <= i < o1.len() implies exists|j: int|
            #![trigger o2[j]] 0 <= j < o2.len() && o1[i] == o2[j] by {
            assert(o1[0] == o2[2] && o1[1] == o2[3] && o1[2] == o2[0] && o1[3] == o2[1]);
        }
        assert forall|j: int| #![trigger o2[j]] 0 <= j < o2.len() implies exists|i: int|
            #![trigger o1[i]] 0 <= i < o1.len() && o2[j] == o1[i] by {
            assert(o2[2] == o1[0] && o2[3] == o1[1] && o2[0] == o1[2] && o2[1] == o1[3]);
        }
        lemma_min_of_equal_sets(o1, o2);
    }
}

/// Canonicalization is invariant under the vertical mirror, on square and
/// rectangular boards alike.
pub proof fn lemma_canonical_mirror_y(s: Seq<(int, int)>, sv: SettingView)
    ensures
        canonical(mirror_y_seq(s, sv.height), sv) == canonical(s, sv),
{
    if sv.height == sv.width {
        let n = sv.height;
        let a1 = rotate_seq(s, n);
        let a2 = rotate_seq(a1, n);
        lemma_mirror_y_square(s, n);
        assert(mirror_y_seq(s, n) == mirror_x_seq(a2, n));
        lemma_canonical_mirror_x(a2, sv);
        lemma_canonical_rotate(a1, sv);
        lemma_canonical_rotate(s, sv);
    } else {
        let w = sv.width;
        let h = sv.height;
        let my = mirror_y_seq(s, h);
        let mx = mirror_x_seq(s, w);
        lemma_mirror_y_invol(s, h);
        lemma_mirror_xy_comm(s, w, h);
        lemma_mirror_y_invol(mx, h);
        let o1 = rect_orbit(s, sv);
        let o2 = rect_orbit(my, sv);
        assert(o1[0] == s && o1[1] == my && o1[2] == mx && o1[3] == mirror_y_seq(mx, h));
        assert(o2[0] == my && o2[1] == mirror_y_seq(my, h) && o2[1] == s);
        assert(o2[2] == mirror_x_seq(my, w) && o2[2] == mirror_y_seq(mx, h));
        assert(o2[3] == mirror_y_seq(mirror_x_seq(my, w), h));
        assert(o2[3] == mirror_y_seq(mirror_y_seq(mx, h), h));
        assert(o2[3] == mx);
        assert forall|i: int| #![trigger o1[i]] 0 <= i < o1.len() implies exists|j: int|
            #![trigger o2[j]] 0 <= j < o2.len() && o1[i] == o2[j] by {
            assert(o1[0] == o2[1] && o1[1] == o2[0] && o1[2] == o2[3] && o1[3] == o2[2]);
        }
        assert forall|j: int| #![trigger o2[j]] 0 <= j < o2.len() implies exists|i: int|
            #![trigger o1[i]] 0 <= i < o1.len() && o2[j] == o1[i] by {
            assert(o2[1] == o1[0] && o2[0] == o1[1] && o2[3] == o1[2] && o2[2] == o1[3]);
        }
        lemma_min_of_equal_sets(o1, o2);
    }
}

/// Canonicalizing an already canonical state returns it unchanged: the
/// canonical form is its own fixed point.
pub proof fn lemma_canonical_idempotent(s: Seq<(int, int)>, sv: SettingView)
    ensures
        canonical(canonical(s, sv), sv) == canonical(s, sv),
{
    let c = canonical(s, sv);
    if sv.height == sv.width {
        let n = sv.height;
        let a1 = rotate_seq(s, n);
        let a2 = rotate_seq(a1, n);
        let a3 = rotate_seq(a2, n);
        let b0 = mirror_x_seq(s, n);
        let b1 = rotate_seq(b0, n);
        let b2 = rotate_seq(b1, n);
        let b3 = rotate_seq(b2, n);
        lemma_rotate_four(s, n);
        lemma_rotate_four(b0, n);
        lemma_mirror_x_rot3(s, n);
        let o1 = square_orbit(s, n);
        assert(o1[0] == s && o1[1] == a1 && o1[2] == a2 && o1[3] == a3);
        assert(o1[4] == mirror_x_seq(a3, n) && o1[4] == b1);
        assert(o1[5] == rotate_seq(o1[4], n) && o1[5] == b2);
        assert(o1[6] == b3 && o1[7] == rotate_seq(b3, n) && o1[7] == b0);
        lemma_min_of_props(o1);
        let i = choose|i: int| 0 <= i < o1.len() && c == #[trigger] o1[i];
        lemma_canonical_rotate(s, sv);
        lemma_canonical_rotate(a1, sv);
        lemma_canonical_rotate(a2, sv);
        lemma_canonical_mirror_x(s, sv);
        lemma_canonical_rotate(b0, sv);
        lemma_canonical_rotate(b1, sv);
        lemma_canonical_rotate(b2, sv);
    } else {
        let w = sv.width;
        let h = sv.height;
        let o1 = rect_orbit(s, sv);
        assert(o1[0] == s && o1[1] == mirror_y_seq(s, h) && o1[2] == mirror_x_seq(s, w) && o1[3]
            == mirror_y_seq(mirror_x_seq(s, w), h));
        lemma_min_of_props(o1);
        let i = choose|i: int| 0 <= i < o1.len() && c == #[trigger] o1[i];
        lemma_canonical_mirror_y(s, sv);
        lemma_canonical_mirror_x(s, sv);
        lemma_canonical_mirror_y(mirror_x_seq(s, w), sv);
    }
}

/// A quarter-turn maps distinct cells to distinct cells.
pub proof fn lemma_rotate_distinct(s: Seq<(int, int)>, n: int)
    requires
        distinct_cells(s),
    ensures
        distinct_cells(rotate_seq(s, n)),
{
    let r = rotate_seq(s, n);
    assert forall|i: int, j: int| #![trigger r[i], r[j]] 0 <= i < j < r.len() implies r[i]
        != r[j] by {
        assert(r[i] == rotate_pt(s[i], n));
        assert(r[j] == rotate_pt(s[j], n));
        assert(s[i] != s[j]);
    }
}

/// The horizontal mirror maps distinct cells to distinct cells.
pub proof fn lemma_mirror_x_distinct(s: Seq<(int, int)>, w: int)
    requires
        distinct_cells(s),
    ensures
        distinct_cells(mirror_x_seq(s, w)),
{
    let r = mirror_x_seq(s, w);
    assert forall|i: int, j: int| #![trigger r[i], r[j]] 0 <= i < j < r.len() implies r[i]
        != r[j] by {
        assert(r[i] == mirror_x_pt(s[i], w));
        assert(r[j] == mirror_x_pt(s[j], w));
        assert(s[i] != s[j]);
    }
}

/// The vertical mirror maps distinct cells to distinct cells.
pub proof fn lemma_mirror_y_distinct(s: Seq<(int, int)>, h: int)
    requires
        distinct_cells(s),
    ensures
        distinct_cells(mirror_y_seq(s, h)),
{
    let r = mirror_y_seq(s, h);
    assert forall|i: int, j: int| #![trigger r[i], r[j]] 0 <= i < j < r.len() implies r[i]
        != r[j] by {
        assert(r[i] == mirror_y_pt(s[i], h));
        assert(r[j] == mirror_y_pt(s[j], h));
        assert(s[i] != s[j]);
    }
}

/// Canonicalization keeps the number of moves and their distinctness: the
/// canonical form is one symmetry image of the state.
pub proof fn lemma_canonical_preserves(s: Seq<(int, int)>, sv: SettingView)
    requires
        distinct_cells(s),
    ensures
        canonical(s, sv).len() == s.len(),
        distinct_cells(canonical(s, sv)),
{
    if sv.height == sv.width {
        let n = sv.height;
        let a1 = rotate_seq(s, n);
        let a2 = rotate_seq(a1, n);
        let a3 = rotate_seq(a2, n);
        let m0 = mirror_x_seq(a3, n);
        let m1 = rotate_seq(m0, n);
        let m2 = rotate_seq(m1, n);
        let m3 = rotate_seq(m2, n);
        lemma_rotate_distinct(s, n);
        lemma_rotate_distinct(a1, n);
        lemma_rotate_distinct(a2, n);
        lemma_mirror_x_distinct(a3, n);
        lemma_rotate_distinct(m0, n);
        lemma_rotate_distinct(m1, n);
        lemma_rotate_distinct(m2, n);
        let orb = square_orbit(s, n);
        assert(orb[0] == s && orb[1] == a1 && orb[2] == a2 && orb[3] == a3 && orb[4] == m0 && orb[5]
            == m1 && orb[6] == m2 && orb[7] == m3);
        lemma_min_of_props(orb);
        let i = choose|i: int| 0 <= i < orb.len() && canonical(s, sv) == #[trigger] orb[i];
    } else {
        let my = mirror_y_seq(s, sv.height);
        let mx = mirror_x_seq(s, sv.width);
        let mxy = mirror_y_seq(mx, sv.height);
        lemma_mirror_y_distinct(s, sv.height);
        lemma_mirror_x_distinct(s, sv.width);
        lemma_mirror_y_distinct(mx, sv.height);
        let orb = rect_orbit(s, sv);
        assert(orb[0] == s && orb[1] == my && orb[2] == mx && orb[3] == mxy);
        lemma_min_of_props(orb);
        let i = choose|i: int| 0 <= i < orb.len() && canonical(s, sv) == #[trigger] orb[i];
    }
}

} // verus!

