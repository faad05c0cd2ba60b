//! Keyboard and mouse state for moving the camera around.
//!
//! W/S move forward and back, A/D strafe left and right, Q/E move down and
//! up; dragging with the right mouse button held orbits the camera. Any
//! change of the camera asks for the rays to be cast again and the render
//! to restart.
use vstd::prelude::*;

verus! {

/// The keys the camera controls react to; every other key is `Other`.
#[derive(Clone, Copy, PartialEq, Eq, Debug)]
pub enum Key {
    W,
    A,
    S,
    D,
    Q,
    E,
    Other,
}

/// One step of camera movement.
#[derive(Clone, Copy, PartialEq, Eq, Debug)]
pub enum CameraMove {
    Forward,
    Backward,
    Left,
    Right,
    Down,
    Up,
}

/// What the controls currently hold.
#[derive(Clone, Copy, PartialEq, Eq, Debug)]
pub struct Controls {
    pub w: bool,
    pub a: bool,
    pub s: bool,
    pub d: bool,
    pub q: bool,
    pub e: bool,
    pub right_mouse_down: bool,
    /// A cursor position has been recorded since the right button went down.
    pub tracking: bool,
    /// The camera moved and the picture has not been restarted yet.
    pub camera_dirty: bool,
}

impl Controls {
    /// A cursor position is only ever recorded while the right button is down.
    pub open spec fn valid(self) -> bool {
        self.tracking ==> self.right_mouse_down
    }

    /// Whether `key` is held down.
    pub open spec fn holds(self, key: Key) -> bool {
        match key {
            Key::W => self.w,
            Key::A => self.a,
            Key::S => self.s,
            Key::D => self.d,
            Key::Q => self.q,
            Key::E => self.e,
            Key::Other => false,
        }
    }

    /// The controls after `key` went down (`pressed`) or up.
    pub open spec fn after_key(self, key: Option<Key>, pressed: bool) -> Controls {
        match key {
            Some(Key::W) => Controls { w: pressed, ..self },
            Some(Key::A) => Controls { a: pressed, ..self },
            Some(Key::S) => Controls { s: pressed, ..self },
            Some(Key::D) => Controls { d: pressed, ..self },
            Some(Key::Q) => Controls { q: pressed, ..self },
            Some(Key::E) => Controls { e: pressed, ..self },
            _ => self,
        }
    }

    /// The controls after a mouse button went down (`pressed`) or up.
    pub open spec fn after_mouse(self, right_button: bool, pressed: bool) -> Controls {
        if right_button {
            Controls { right_mouse_down: pressed, tracking: self.tracking && pressed, ..self }
        } else {
            self
        }
    }

    /// The controls after the cursor moved.
    pub open spec fn after_cursor(self) -> Controls {
        if self.right_mouse_down {
            Controls { tracking: true, camera_dirty: self.camera_dirty || self.tracking, ..self }
        } else {
            self
        }
    }

    /// The controls once a camera change has been taken care of.
    pub open spec fn refreshed(self) -> Controls {
        Controls { camera_dirty: false, ..self }
    }

    /// The camera moves asked for by the held keys, in the order W, S, A, D, Q, E.
    pub open spec fn planned_moves(self) -> Seq<CameraMove> {
        (if self.w { seq![CameraMove::Forward] } else { seq![] }) + (if self.s {
            seq![CameraMove::Backward]
        } else {
            seq![]
        }) + (if self.a { seq![CameraMove::Left] } else { seq![] }) + (if self.d {
            seq![CameraMove::Right]
        } else {
            seq![]
        }) + (if self.q { seq![CameraMove::Down] } else { seq![] }) + (if self.e {
            seq![CameraMove::Up]
        } else {
            seq![]
        })
    }

    /// Nothing held, no drag going on, nothing to redraw.
    pub fn new() -> (controls: Controls)
        ensures
            controls.valid(),
            forall|k: Key| !controls.holds(k),
            !controls.right_mouse_down,
            !controls.tracking,
            !controls.camera_dirty,
    {
        Controls {
            w: false,
            a: false,
            s: false,
            d: false,
            q: false,
            e: false,
            right_mouse_down: false,
            tracking: false,
            camera_dirty: false,
        }
    }

    /// A key went down (`pressed`) or up. `None` is a key without a key code.
    pub fn keyboard_input(&mut self, key: Option<Key>, pressed: bool)
        ensures
            *final(self) == old(self).after_key(key, pressed),
    {
        match key {
            Some(Key::W) => self.w = pressed,
            Some(Key::A) => self.a = pressed,
            Some(Key::S) => self.s = pressed,
            Some(Key::D) => self.d = pressed,
            Some(Key::Q) => self.q = pressed,
            Some(Key::E) => self.e = pressed,
            _ => {},
        }
    }

    /// A mouse button went down (`pressed`) or up. Only the right button
    /// counts; letting it go forgets the recorded cursor position.
    pub fn mouse_input(&mut self, right_button: bool, pressed: bool)
        ensures
            *final(self) == old(self).after_mouse(right_button, pressed),
    {
        if right_button {
            self.right_mouse_down = pressed;
            if !self.right_mouse_down {
                self.tracking = false;
            }
        }
    }

    /// The cursor moved. While the right button is down the new position is
    /// recorded, and if there was a previous one the camera orbits by the
    /// difference: the result says whether to orbit.
    pub fn cursor_moved(&mut self) -> (orbit: bool)
        ensures
            orbit == (old(self).right_mouse_down && old(self).tracking),
            *final(self) == old(self).after_cursor(),
    {
        let mut orbit = false;
        if self.right_mouse_down {
            if self.tracking {
                orbit = true;
                self.camera_dirty = true;
            }
            self.tracking = true;
        }
        orbit
    }

    /// The moves to make for the held keys, and whether the camera changed
    /// (by these moves or an orbit since the last call), in which case the
    /// rays are cast again and the render restarts.
    pub fn process_camera_movement(&mut self) -> (plan: (Vec<CameraMove>, bool))
        ensures
            plan.0@ == old(self).planned_moves(),
            plan.1 == (old(self).camera_dirty || old(self).planned_moves().len() > 0),
            *final(self) == old(self).refreshed(),
            forall|k: Key| #[trigger] final(self).holds(k) == old(self).holds(k),
    {
        let mut moves: Vec<CameraMove> = Vec::new();
        if self.w {
            moves.push(CameraMove::Forward);
        }
        if self.s {
            moves.push(CameraMove::Backward);
        }
        if self.a {
            moves.push(CameraMove::Left);
        }
        if self.d {
            moves.push(CameraMove::Right);
        }
        if self.q {
            moves.push(CameraMove::Down);
        }
        if self.e {
            moves.push(CameraMove::Up);
        }
        assert(moves@ =~= self.planned_moves());
        let refresh = self.camera_dirty || moves.len() > 0;
        self.camera_dirty = false;
        (moves, refresh)
    }
}

/// A key held down is reported as held until it goes up; other keys are not affected.
pub proof fn lemma_key_press_release(c: Controls, key: Key, other: Key)
    requires
        key != Key::Other,
        other != key,
    ensures
        c.after_key(Some(key), true).holds(key),
        !c.after_key(Some(key), true).after_key(Some(key), false).holds(key),
        c.after_key(Some(key), true).holds(other) == c.holds(other),
        c.after_key(Some(key), true).after_key(Some(key), false).holds(other) == c.holds(other),
{
}

/// Once the camera change has been taken care of, nothing is asked for
/// again until a key is held or the camera orbits.
pub proof fn lemma_refresh_once(c: Controls)
    requires
        c.planned_moves().len() == 0,
    ensures
        !c.refreshed().camera_dirty,
        c.refreshed().planned_moves().len() == 0,
{
    assert(c.refreshed().planned_moves() =~= c.planned_moves());
}

/// A drag orbits the camera from its second cursor move on, and only
/// while the right button stays down.
pub proof fn lemma_drag_orbits(c: Controls)
    requires
        c.tracking ==> c.right_mouse_down,
        !c.right_mouse_down,
    ensures
        c.after_mouse(true, true).after_cursor().tracking,
        !c.after_mouse(true, true).tracking,
        c.after_mouse(true, true).after_cursor().after_cursor().camera_dirty,
        !c.after_mouse(true, true).after_cursor().after_mouse(true, false).tracking,
        c.after_mouse(true, true).after_cursor().after_mouse(true, false).after_cursor()
            == c.after_mouse(true, true).after_cursor().after_mouse(true, false),
{
}

/// Taking care of a camera change keeps every held key held, so the next
/// call plans the same moves again for as long as the keys stay down, and
/// asks for a refresh exactly when there are such moves.
pub proof fn lemma_held_keys_survive_refresh(c: Controls, key: Key)
    ensures
        c.refreshed().holds(key) == c.holds(key),
        c.refreshed().planned_moves() == c.planned_moves(),
        (c.refreshed().camera_dirty || c.refreshed().planned_moves().len() > 0) == (c.planned_moves().len() > 0),
{
    assert(c.refreshed().planned_moves() =~= c.planned_moves());
}

/// The move a held key asks for: W forward, S back, A left, D right,
/// Q down, E up.
pub open spec fn move_of(key: Key) -> CameraMove {
    match key {
        Key::W => CameraMove::Forward,
        Key::S => CameraMove::Backward,
        Key::A => CameraMove::Left,
        Key::D => CameraMove::Right,
        Key::Q => CameraMove::Down,
        _ => CameraMove::Up,
    }
}

/// How many of the movement keys are held.
pub open spec fn held_count(c: Controls) -> int {
    (if c.w { 1int } else { 0 }) + (if c.s { 1int } else { 0 }) + (if c.a { 1int } else { 0 }) + (if c.d {
        1int
    } else {
        0
    }) + (if c.q { 1int } else { 0 }) + (if c.e { 1int } else { 0 })
}

/// Where a move comes in the order of planned moves.
spec fn rank(m: CameraMove) -> int {
    match m {
        CameraMove::Forward => 0,
        CameraMove::Backward => 1,
        CameraMove::Left => 2,
        CameraMove::Right => 3,
        CameraMove::Down => 4,
        CameraMove::Up => 5,
    }
}

/// The moves come in strictly increasing rank, all of them in `lo .. hi`.
spec fn ascending(s: Seq<CameraMove>, lo: int, hi: int) -> bool {
    &&& forall|i: int, j: int| 0 <= i < j < s.len() ==> rank(#[trigger] s[i]) < rank(#[trigger] s[j])
    &&& forall|i: int| 0 <= i < s.len() ==> lo <= rank(#[trigger] s[i]) && rank(s[i]) < hi
}

proof fn lemma_join(x: Seq<CameraMove>, y: Seq<CameraMove>, lo: int, mid: int, hi: int)
    requires
        lo <= mid <= hi,
        ascending(x, lo, mid),
        ascending(y, mid, hi),
    ensures
        ascending(x + y, lo, hi),
        forall|v: CameraMove| #[trigger] (x + y).contains(v) == (x.contains(v) || y.contains(v)),
{
    let z = x + y;
    assert forall|i: int, j: int| 0 <= i < j < z.len() implies rank(#[trigger] z[i]) < rank(#[trigger] z[j]) by {
        if j < x.len() {
        } else if i < x.len() {
            assert(rank(x[i]) < mid);
            assert(mid <= rank(y[j - x.len()]));
        } else {
            assert(z[i] == y[i - x.len()] && z[j] == y[j - x.len()]);
        }
    }
    assert forall|i: int| 0 <= i < z.len() implies lo <= rank(#[trigger] z[i]) && rank(z[i]) < hi by {
        if i < x.len() {
            assert(z[i] == x[i]);
            assert(lo <= rank(x[i]) < mid);
        } else {
            assert(z[i] == y[i - x.len()]);
            assert(mid <= rank(y[i - x.len()]) < hi);
        }
    }
    assert forall|v: CameraMove| #[trigger] z.contains(v) == (x.contains(v) || y.contains(v)) by {
        if z.contains(v) {
            let i = choose|i: int| 0 <= i < z.len() && z[i] == v;
            if i < x.len() {
                assert(x[i] == v);
            } else {
                assert(y[i - x.len()] == v);
            }
        }
        if x.contains(v) {
            let i = choose|i: int| 0 <= i < x.len() && x[i] == v;
            assert(z[i] == v);
        }
        if y.contains(v) {
            let i = choose|i: int| 0 <= i < y.len() && y[i] == v;
            assert(z[x.len() + i] == v);
        }
    }
}

/// The move of one key, planned if it is held.
spec fn slot(held: bool, m: CameraMove) -> Seq<CameraMove> {
    if held { seq![m] } else { Seq::empty() }
}

proof fn lemma_slot(held: bool, m: CameraMove)
    ensures
        ascending(slot(held, m), rank(m), rank(m) + 1),
        forall|v: CameraMove| #[trigger] slot(held, m).contains(v) == (held && v == m),
{
    if held {
        assert(slot(held, m)[0] == m);
    }
}

/// The planned moves are exactly one move for each held key: the move of a
/// key is planned if and only if the key is held, no move is planned twice,
/// and there are as many moves as held keys.
pub proof fn lemma_moves_follow_keys(c: Controls, key: Key)
    requires
        key != Key::Other,
    ensures
        c.planned_moves().contains(move_of(key)) == c.holds(key),
        c.planned_moves().no_duplicates(),
        c.planned_moves().len() == held_count(c),
{
    let w = slot(c.w, CameraMove::Forward);
    let s = slot(c.s, CameraMove::Backward);
    let a = slot(c.a, CameraMove::Left);
    let d = slot(c.d, CameraMove::Right);
    let q = slot(c.q, CameraMove::Down);
    let e = slot(c.e, CameraMove::Up);
    let m = c.planned_moves();
    assert(m =~= w + s + a + d + q + e);
    assert(ascending(m, 0, 6) && forall|v: CameraMove|
        #[trigger] m.contains(v) == ((c.w && v == CameraMove::Forward) || (c.s && v == CameraMove::Backward)
            || (c.a && v == CameraMove::Left) || (c.d && v == CameraMove::Right) || (c.q && v
            == CameraMove::Down) || (c.e && v == CameraMove::Up))) by {
        lemma_slot(c.w, CameraMove::Forward);
        lemma_slot(c.s, CameraMove::Backward);
        lemma_slot(c.a, CameraMove::Left);
        lemma_slot(c.d, CameraMove::Right);
        lemma_slot(c.q, CameraMove::Down);
        lemma_slot(c.e, CameraMove::Up);
        lemma_join(w, s, 0, 1, 2);
        lemma_join(w + s, a, 0, 2, 3);
        lemma_join(w + s + a, d, 0, 3, 4);
        lemma_join(w + s + a + d, q, 0, 4, 5);
        lemma_join(w + s + a + d + q, e, 0, 5, 6);
    }
    assert(m.contains(move_of(key)) == c.holds(key));
    assert forall|i: int, j: int| 0 <= i < m.len() && 0 <= j < m.len() && i != j implies m[i] != m[j] by {
        if i < j {
            assert(rank(m[i]) < rank(m[j]));
        } else {
            assert(rank(m[j]) < rank(m[i]));
        }
    }
}

/// Only the right mouse button, only movement keys and only cursor moves
/// during a drag change the controls; whatever else happens leaves them
/// as they were. Pressing the right button starts no orbit by itself.
pub proof fn lemma_other_input_ignored(c: Controls, pressed: bool)
    ensures
        c.after_mouse(false, pressed) == c,
        c.after_key(None, pressed) == c,
        c.after_key(Some(Key::Other), pressed) == c,
        !c.right_mouse_down ==> c.after_cursor() == c,
        c.after_mouse(true, pressed).camera_dirty == c.camera_dirty,
        c.after_mouse(true, pressed).right_mouse_down == pressed,
        forall|k: Key| #[trigger] c.after_mouse(true, pressed).holds(k) == c.holds(k),
        forall|k: Key| #[trigger] c.after_cursor().holds(k) == c.holds(k),
{
}

/// Every change of the controls keeps them valid.
pub proof fn lemma_controls_stay_valid(c: Controls, key: Option<Key>, right_button: bool, pressed: bool)
    requires
        c.valid(),
    ensures
        c.after_key(key, pressed).valid(),
        c.after_mouse(right_button, pressed).valid(),
        c.after_cursor().valid(),
        c.refreshed().valid(),
{
}

} // verus!
