//! Input state tracker: the set of currently held buttons, updated from
//! discrete press and release notifications.

use vstd::prelude::*;

verus! {

/// Tracks which buttons are currently held down. A button is an opaque
/// integer code handed in by the windowing collaborator; unknown codes are
/// simply absent from the set. The tracker keeps no history beyond current
/// membership.
pub struct KeyState {
    held: Vec<u64>,
}

impl View for KeyState {
    type V = Set<u64>;

    closed spec fn view(&self) -> Set<u64> {
        self.held@.to_set()
    }
}

/// The held set after one frame event carrying at most one press and at most
/// one release: the press is inserted first, then the release removed.
pub open spec fn spec_update(s: Set<u64>, press: Option<u64>, release: Option<u64>) -> Set<u64> {
    let pressed = match press {
        Some(b) => s.insert(b),
        None => s,
    };
    match release {
        Some(b) => pressed.remove(b),
        None => pressed,
    }
}

impl KeyState {
    /// Internal shape: the underlying list of held buttons has no duplicates.
    pub closed spec fn wf(&self) -> bool {
        self.held@.no_duplicates()
    }

    /// A fresh tracker holds no buttons.
    pub fn new() -> (r: KeyState)
        ensures
            r.wf(),
            r@ == Set::<u64>::empty(),
    {
        let r = KeyState { held: Vec::new() };
        proof {
            assert(r.held@.to_set() =~= Set::<u64>::empty());
        }
        r
    }

    /// Whether `button` is currently held.
    pub fn is_down(&self, button: u64) -> (r: bool)
        ensures
            r == self@.contains(button),
    {
        let mut i: usize = 0;
        while i < self.held.len()
            invariant
                0 <= i <= self.held@.len(),
                forall|k: int| 0 <= k < i ==> self.held@[k] != button,
            decreases self.held@.len() - i,
        {
            if self.held[i] == button {
                proof {
                    assert(self.held@.contains(button));
                }
                return true;
            }
            i = i + 1;
        }
        proof {
            assert(!self.held@.contains(button));
        }
        false
    }

    /// Applies one frame event to the tracker: inserts the pressed button, if
    /// any (idempotent when already held), then removes the released one, if
    /// any (a no-op when absent).
    pub fn update(&mut self, press: Option<u64>, release: Option<u64>)
        requires
            old(self).wf(),
        ensures
            final(self).wf(),
            final(self)@ == spec_update(old(self)@, press, release),
    {
        if let Some(b) = press {
            if !self.is_down(b) {
                proof {
                    let h = self.held@;
                    assert forall|i: int, j: int|
                        0 <= i < h.push(b).len() && 0 <= j < h.push(b).len() && i != j implies
                        h.push(b)[i] != h.push(b)[j] by {
                        if i < h.len() && j < h.len() {
                        } else if i == h.len() {
                            assert(h.push(b)[i] == b);
                            assert(!h.contains(b));
                        } else {
                            assert(h.push(b)[j] == b);
                            assert(!h.contains(b));
                        }
                    }
                    Seq::lemma_push_to_set_commute(self.held@, b);
                }
                self.held.push(b);
            } else {
                proof {
                    assert(self.held@.to_set().insert(b) =~= self.held@.to_set());
                }
            }
        }
        if let Some(b) = release {
            self.remove_button(b);
        }
    }

    /// Removes `button` from the held list, keeping the no-duplicates shape;
    /// a no-op when the button is absent.
    fn remove_button(&mut self, button: u64)
        requires
            old(self).wf(),
        ensures
            final(self).wf(),
            final(self)@ == old(self)@.remove(button),
    {
        let mut i: usize = 0;
        while i < self.held.len()
            invariant
                0 <= i <= self.held@.len(),
                self.held@.no_duplicates(),
                self.held == old(self).held,
                forall|k: int| 0 <= k < i ==> self.held@[k] != button,
            decreases self.held@.len() - i,
        {
            if self.held[i] == button {
                proof {
                    lemma_remove_at_to_set(self.held@, i as int);
                }
                self.held.remove(i);
                return ;
            }
            i = i + 1;
        }
        proof {
            assert(!self.held@.contains(button));
            assert(self.held@.to_set().remove(button) =~= self.held@.to_set());
        }
    }
}

/// Removing the element at index `i` of a duplicate-free sequence removes
/// exactly that element from the sequence's set of values, and keeps the
/// sequence duplicate-free.
proof fn lemma_remove_at_to_set(s: Seq<u64>, i: int)
    requires
        s.no_duplicates(),
        0 <= i < s.len(),
    ensures
        s.remove(i).no_duplicates(),
        s.remove(i).to_set() == s.to_set().remove(s[i]),
{
    s.remove_ensures(i);
    let r = s.remove(i);
    assert forall|p: int, q: int| 0 <= p < r.len() && 0 <= q < r.len() && p != q implies
        r[p] != r[q] by {
        let p0: int = if p < i { p } else { p + 1 };
        let q0: int = if q < i { q } else { q + 1 };
        assert(r[p] == s[p0]);
        assert(r[q] == s[q0]);
    }
    assert forall|x: u64| r.to_set().contains(x) implies
        s.to_set().remove(s[i]).contains(x) by {
        let k = choose|k: int| 0 <= k < r.len() && r[k] == x;
        let k0: int = if k < i { k } else { k + 1 };
        assert(s[k0] == x);
        assert(s.contains(x));
        assert(x != s[i]);
    }
    assert forall|x: u64| s.to_set().remove(s[i]).contains(x) implies
        r.to_set().contains(x) by {
        let k = choose|k: int| 0 <= k < s.len() && s[k] == x;
        if k < i {
            assert(r[k] == x);
        } else {
            assert(r[k - 1] == x);
        }
        assert(r.contains(x));
    }
    assert(r.to_set() =~= s.to_set().remove(s[i]));
}

/// Law: repeated press notifications for one button are idempotent — a press
/// of a button that is already held leaves the held set unchanged.
pub proof fn lemma_press_idempotent(s: Set<u64>, b: u64)
    ensures
        spec_update(spec_update(s, Some(b), None), Some(b), None) == spec_update(s, Some(b), None),
{
    assert(s.insert(b).insert(b) =~= s.insert(b));
}

/// Law: a release notification for a button that is not held is a no-op.
pub proof fn lemma_release_absent_noop(s: Set<u64>, b: u64)
    requires
        !s.contains(b),
    ensures
        spec_update(s, None, Some(b)) == s,
{
    assert(s.remove(b) =~= s);
}

} // verus!
