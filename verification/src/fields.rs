//! The state holder: the current order of the ten fields and the swaps that
//! the two buttons perform on it.

use vstd::prelude::*;

verus! {

/// The sequence `s` with the entries at positions `i` and `j` exchanged.
pub open spec fn swapped(s: Seq<u8>, i: int, j: int) -> Seq<u8> {
    s.update(i, s[j]).update(j, s[i])
}

/// The start-up order: every field sits at the index equal to its value.
pub open spec fn identity_order() -> Seq<u8> {
    Seq::new(10, |i: int| i as u8)
}

/// The two buttons of the demo.
#[derive(Clone, Copy, Debug, PartialEq, Eq)]
pub enum Button {
    /// "Swap neighbors": exchanges positions 2 and 3.
    SwapNeighbors,
    /// "Swap further apart": exchanges positions 2 and 5.
    SwapFar,
}

impl Button {
    /// The pair of positions that a click on the button exchanges.
    pub open spec fn positions(self) -> (int, int) {
        match self {
            Button::SwapNeighbors => (2, 3),
            Button::SwapFar => (2, 5),
        }
    }

    /// The order that a click on the button turns `s` into.
    pub open spec fn pressed(self, s: Seq<u8>) -> Seq<u8> {
        swapped(s, self.positions().0, self.positions().1)
    }
}

/// The order reached from `s` by clicking `clicks` one after the other.
pub open spec fn after_clicks(s: Seq<u8>, clicks: Seq<Button>) -> Seq<u8>
    decreases clicks.len(),
{
    if clicks.len() == 0 {
        s
    } else {
        clicks.last().pressed(after_clicks(s, clicks.drop_last()))
    }
}

/// The order reached from `s` by exchanging each pair of positions in turn.
pub open spec fn after_swaps(s: Seq<u8>, pairs: Seq<(int, int)>) -> Seq<u8>
    decreases pairs.len(),
{
    if pairs.len() == 0 {
        s
    } else {
        swapped(after_swaps(s, pairs.drop_last()), pairs.last().0, pairs.last().1)
    }
}

/// Owner of the current field order.
#[derive(Clone, Copy, Debug)]
pub struct Fields {
    fields: [u8; 10],
}

impl View for Fields {
    type V = Seq<u8>;

    closed spec fn view(&self) -> Seq<u8> {
        self.fields@
    }
}

impl Fields {
    /// The state at start-up: `0, 1, .., 9`.
    pub fn new() -> (state: Self)
        ensures
            state@ == identity_order(),
    {
        let state = Fields { fields: [0, 1, 2, 3, 4, 5, 6, 7, 8, 9] };
        assert(state.fields@ =~= identity_order());
        state
    }

    /// A state holding the given order.
    pub fn from_fields(fields: [u8; 10]) -> (state: Self)
        ensures
            state@ == fields@,
    {
        Fields { fields }
    }

    /// The state always holds exactly ten fields.
    pub proof fn lemma_ten_fields(self)
        ensures
            self@.len() == 10,
    {
    }

    /// A snapshot of the current order.
    pub fn fields(&self) -> (snapshot: [u8; 10])
        ensures
            snapshot@ == self@,
    {
        self.fields
    }

    /// Replaces the order by a copy in which positions `i` and `j` are
    /// exchanged.
    pub fn swap(&mut self, i: usize, j: usize)
        requires
            i < 10,
            j < 10,
        ensures
            final(self)@ == swapped(old(self)@, i as int, j as int),
            final(self)@.to_multiset() == old(self)@.to_multiset(),
    {
        let mut updated = self.fields;
        let at_i: u8 = updated[i];
        let at_j: u8 = updated[j];
        updated[i] = at_j;
        updated[j] = at_i;
        proof {
            lemma_swap_keeps_values(self.fields@, i as int, j as int);
        }
        self.fields = updated;
    }

    /// Handler of the "Swap neighbors" button.
    pub fn swap_neighbors(&mut self)
        ensures
            final(self)@ == Button::SwapNeighbors.pressed(old(self)@),
            final(self)@.to_multiset() == old(self)@.to_multiset(),
    {
        self.swap(2, 3);
    }

    /// Handler of the "Swap further apart" button.
    pub fn swap_far(&mut self)
        ensures
            final(self)@ == Button::SwapFar.pressed(old(self)@),
            final(self)@.to_multiset() == old(self)@.to_multiset(),
    {
        self.swap(2, 5);
    }

    /// Performs the swap that belongs to `button`.
    pub fn press(&mut self, button: Button)
        ensures
            final(self)@ == button.pressed(old(self)@),
            final(self)@.to_multiset() == old(self)@.to_multiset(),
    {
        match button {
            Button::SwapNeighbors => self.swap_neighbors(),
            Button::SwapFar => self.swap_far(),
        }
    }

    /// Performs the swaps of a whole series of clicks, first to last.
    pub fn press_all(&mut self, clicks: &Vec<Button>)
        ensures
            final(self)@ == after_clicks(old(self)@, clicks@),
            final(self)@.to_multiset() == old(self)@.to_multiset(),
    {
        let mut done: usize = 0;
        while done < clicks.len()
            invariant
                done <= clicks.len(),
                self@ == after_clicks(old(self)@, clicks@.take(done as int)),
                self@.to_multiset() == old(self)@.to_multiset(),
            decreases clicks.len() - done,
        {
            assert(clicks@.take(done + 1).drop_last() =~= clicks@.take(done as int));
            self.press(clicks[done]);
            done += 1;
        }
        assert(clicks@.take(done as int) =~= clicks@);
    }
}

/// Exchanging two positions permutes the entries: none is created, lost or
/// duplicated.
pub proof fn lemma_swap_keeps_values(s: Seq<u8>, i: int, j: int)
    requires
        0 <= i < s.len(),
        0 <= j < s.len(),
    ensures
        swapped(s, i, j).len() == s.len(),
        swapped(s, i, j).to_multiset() == s.to_multiset(),
{
    broadcast use vstd::seq_lib::group_to_multiset_ensures;
    let mid = s.update(i, s[j]);
    assert(mid.to_multiset() =~= s.to_multiset().insert(s[j]).remove(s[i]));
    assert(mid[j] == s[j]);
    assert(swapped(s, i, j).to_multiset() =~= mid.to_multiset().insert(s[i]).remove(s[j]));
    assert(swapped(s, i, j).to_multiset() =~= s.to_multiset());
}

/// Exchanging the same two positions twice restores the sequence.
pub proof fn lemma_swap_twice_restores(s: Seq<u8>, i: int, j: int)
    requires
        0 <= i < s.len(),
        0 <= j < s.len(),
    ensures
        swapped(swapped(s, i, j), i, j) == s,
{
    assert(swapped(swapped(s, i, j), i, j) =~= s);
}

/// Two clicks on "Swap neighbors" restore any order of the ten fields.
pub proof fn lemma_swap_neighbors_twice_restores(s: Seq<u8>)
    requires
        s.len() == 10,
    ensures
        Button::SwapNeighbors.pressed(Button::SwapNeighbors.pressed(s)) == s,
{
    lemma_swap_twice_restores(s, 2, 3);
}

/// Two clicks on "Swap further apart" restore any order of the ten fields.
pub proof fn lemma_swap_far_twice_restores(s: Seq<u8>)
    requires
        s.len() == 10,
    ensures
        Button::SwapFar.pressed(Button::SwapFar.pressed(s)) == s,
{
    lemma_swap_twice_restores(s, 2, 5);
}

/// However many swaps are made, and of whichever positions, the values
/// present stay the same: the result is a rearrangement of the start.
pub proof fn lemma_swaps_keep_values(s: Seq<u8>, pairs: Seq<(int, int)>)
    requires
        forall|k: int|
            0 <= k < pairs.len() ==> 0 <= (#[trigger] pairs[k]).0 < s.len() && 0 <= pairs[k].1
                < s.len(),
    ensures
        after_swaps(s, pairs).len() == s.len(),
        after_swaps(s, pairs).to_multiset() == s.to_multiset(),
    decreases pairs.len(),
{
    if pairs.len() > 0 {
        let earlier = pairs.drop_last();
        assert forall|k: int| 0 <= k < earlier.len() implies 0 <= (#[trigger] earlier[k]).0
            < s.len() && 0 <= earlier[k].1 < s.len() by {
            assert(earlier[k] == pairs[k]);
        }
        lemma_swaps_keep_values(s, earlier);
        assert(pairs.last() == pairs[pairs.len() - 1]);
        lemma_swap_keeps_values(after_swaps(s, earlier), pairs.last().0, pairs.last().1);
    }
}

/// Whatever series of buttons is clicked, the fields on display stay the
/// same ten values: only their order changes.
pub proof fn lemma_clicks_keep_values(s: Seq<u8>, clicks: Seq<Button>)
    requires
        s.len() == 10,
    ensures
        after_clicks(s, clicks).len() == 10,
        after_clicks(s, clicks).to_multiset() == s.to_multiset(),
    decreases clicks.len(),
{
    if clicks.len() > 0 {
        lemma_clicks_keep_values(s, clicks.drop_last());
        let before = after_clicks(s, clicks.drop_last());
        let p = clicks.last().positions();
        lemma_swap_keeps_values(before, p.0, p.1);
    }
}

} // verus!
