//! The kill ring: cut subtree sources and copied text, most recent
//! last, and the change token that every vault mutation moves.

use crate::clipboard::{get_may_give, Clipboard};
use crate::error::VaultError;
use vstd::prelude::*;

verus! {

/// Cut subtree sources and copied text, most recent last.
pub struct KillRing {
    items: Vec<String>,
}

impl View for KillRing {
    type V = Seq<Seq<char>>;

    closed spec fn view(&self) -> Seq<Seq<char>> {
        self.items@.map_values(|s: String| s@)
    }
}

impl KillRing {
    /// An empty ring.
    pub fn new() -> (r: Self)
        ensures
            r@ == Seq::<Seq<char>>::empty(),
    {
        let r = KillRing { items: Vec::new() };
        assert(r@ =~= Seq::<Seq<char>>::empty());
        r
    }

    /// The number of entries on the ring.
    pub fn len(&self) -> (n: usize)
        ensures
            n == self@.len(),
    {
        self.items.len()
    }

    /// The most recent entry, if the ring is non-empty.
    pub fn ring_top(&self) -> (r: Option<&str>)
        ensures
            match r {
                Some(s) => self@.len() > 0 && s@ == self@.last(),
                None => self@.len() == 0,
            },
    {
        let n = self.items.len();
        if n == 0 {
            None
        } else {
            Some(self.items[n - 1].as_str())
        }
    }

    /// Push arbitrary text onto the ring: a sync ticket, a block id, a
    /// rendered table belong on the same ring as cut subtrees.
    pub fn push_kill_ring(&mut self, text: String)
        ensures
            final(self)@ == old(self)@.push(text@),
    {
        self.items.push(text);
        assert(self@ =~= old(self)@.push(text@));
    }

    /// What a paste inserts: the most recent entry, or the error a
    /// paste from an empty ring reports.
    pub fn paste_source(&self) -> (r: Result<String, VaultError>)
        ensures
            match r {
                Ok(s) => self@.len() > 0 && s@ == self@.last(),
                Err(e) => self@.len() == 0 && (e matches VaultError::Command(m)
                    && m@ == "kill ring is empty"@),
            },
    {
        let n = self.items.len();
        if n == 0 {
            Err(VaultError::Command("kill ring is empty".to_owned()))
        } else {
            Ok(self.items[n - 1].clone())
        }
    }

    /// Mirror the ring's top out to a clipboard; nothing happens when
    /// the ring is empty, and the ring itself never changes. Otherwise
    /// the clipboard ends as its own `set` leaves it, handed the top.
    pub fn mirror_ring_top_to_clipboard<C: Clipboard>(&self, clip: &mut C)
        ensures
            self@.len() == 0 ==> *final(clip) == *old(clip),
            self@.len() > 0 ==> exists|m: &mut C, top: &str|
                #![trigger call_ensures(C::set, (m, top), ())]
                top@ == self@.last() && mut_ref_current(m) == *old(clip) && mut_ref_future(m)
                    == *final(clip) && call_ensures(C::set, (m, top), ()),
    {
        match self.ring_top() {
            Some(top) => clip.set(top),
            None => {},
        }
    }

    /// Pull clipboard text in onto the ring, so the next paste inserts
    /// it; nothing happens when the clipboard is empty. What is pushed is
    /// what the clipboard's own `get` gave.
    pub fn pull_clipboard_to_ring<C: Clipboard>(&mut self, clip: &C)
        ensures
            exists|got: Option<String>| get_may_give(clip, got) && #[trigger] pulled_onto(
                old(self)@,
                got,
                final(self)@,
            ),
    {
        let got = clip.get();
        let ghost pulled = got;
        match got {
            Some(text) => {
                self.push_kill_ring(text);
            },
            None => {},
        }
        assert(get_may_give(clip, pulled) && pulled_onto(old(self)@, pulled, self@));
    }
}

/// `after` is `before` with the clipboard text `got` pushed, or
/// `before` itself when the clipboard gave nothing.
pub open spec fn pulled_onto(before: Seq<Seq<char>>, got: Option<String>, after: Seq<Seq<char>>) -> bool {
    match got {
        Some(t) => after == before.push(t@),
        None => after == before,
    }
}

/// A push is what a paste then inserts.
pub proof fn law_push_then_top(ring: Seq<Seq<char>>, text: Seq<char>)
    ensures
        ring.push(text).len() > 0,
        ring.push(text).last() == text,
        ring.push(text).drop_last() == ring,
{
    assert(ring.push(text).drop_last() =~= ring);
}

/// The next value of the change token: one more, wrapping, so it
/// never stops moving.
pub fn next_revision(rev: u64) -> (r: u64)
    ensures
        r == (if rev == u64::MAX { 0 } else { rev + 1 }),
        r != rev,
{
    rev.wrapping_add(1)
}

} // verus!
