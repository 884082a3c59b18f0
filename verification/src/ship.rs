//! The ship: a stack of decks updated together.

use vstd::prelude::*;

use crate::deck::{tick_blocks, tick_redraw, wf_blocks, Deck, DeckModel};

verus! {

/// A ship: named decks sharing nothing, plus which deck is displayed.
pub struct Ship {
    pub name: String,
    pub current_deck: usize,
    pub decks: Vec<Deck>,
}

/// Mathematical model of a ship.
#[verifier::ext_equal]
pub ghost struct ShipModel {
    pub name: Seq<char>,
    pub current_deck: int,
    pub decks: Seq<DeckModel>,
}

impl View for Ship {
    type V = ShipModel;

    open spec fn view(&self) -> ShipModel {
        ShipModel {
            name: self.name@,
            current_deck: self.current_deck as int,
            decks: self.decks@.map(|k: int, d: Deck| d@),
        }
    }
}

/// One tick of one deck, at the model level: the blocks move, the name
/// stays.
pub open spec fn tick_deck(d: DeckModel) -> DeckModel {
    DeckModel { name: d.name, blocks: tick_blocks(d.blocks) }
}

/// Whether any deck of the sequence would report a redraw for one tick.
pub open spec fn any_redraw(decks: Seq<DeckModel>) -> bool {
    exists|k: int| 0 <= k < decks.len() && tick_redraw((#[trigger] decks[k]).blocks)
}

impl Ship {
    /// Every deck is well formed.
    pub open spec fn wf(&self) -> bool {
        forall|k: int| 0 <= k < self@.decks.len() ==> wf_blocks((#[trigger] self@.decks[k]).blocks)
    }

    /// One tick over every deck, in order. Reports whether any deck's
    /// visible state went stale.
    pub fn update(&mut self) -> (redraw: bool)
        requires
            old(self).wf(),
        ensures
            final(self).wf(),
            final(self)@.name == old(self)@.name,
            final(self)@.current_deck == old(self)@.current_deck,
            final(self)@.decks.len() == old(self)@.decks.len(),
            forall|k: int|
                0 <= k < old(self)@.decks.len() ==> #[trigger] final(self)@.decks[k] == tick_deck(
                    old(self)@.decks[k],
                ),
            redraw == any_redraw(old(self)@.decks),
    {
        let ghost decks0 = old(self)@.decks;
        let mut done: Vec<Deck> = Vec::new();
        let mut redraw = false;
        let nd = self.decks.len();
        proof {
            assert forall|k: int| 0 <= k < self.decks@.len() implies #[trigger] self.decks@[k]@
                == decks0.skip(0)[k] by {
                assert(self@.decks[k] == self.decks@[k]@);
            }
        }
        let mut i: usize = 0;
        while i < nd
            invariant
                i <= nd,
                nd == decks0.len(),
                decks0 == old(self)@.decks,
                self.name@ == old(self)@.name,
                self.current_deck == old(self).current_deck,
                self.decks@.len() == nd - i,
                forall|k: int|
                    0 <= k < nd - i ==> #[trigger] self.decks@[k]@ == decks0[i as int + k],
                forall|k: int| 0 <= k < nd ==> wf_blocks((#[trigger] decks0[k]).blocks),
                done@.len() == i,
                forall|k: int| 0 <= k < i ==> #[trigger] done@[k]@ == tick_deck(decks0[k]),
                forall|k: int| 0 <= k < i ==> wf_blocks((#[trigger] done@[k]@).blocks),
                redraw <==> exists|k: int|
                    0 <= k < i && tick_redraw((#[trigger] decks0[k]).blocks),
            decreases nd - i,
        {
            let ghost pre = self.decks@;
            let mut d = self.decks.remove(0);
            proof {
                assert(d@ == decks0[i as int]);
                assert forall|k: int| 0 <= k < self.decks@.len() implies #[trigger] self.decks@[k]@
                    == decks0[i as int + 1 + k] by {
                    assert(self.decks@[k] == pre[k + 1]);
                }
                assert(d.wf());
            }
            let r = d.update();
            proof {
                assert(d@ =~= tick_deck(decks0[i as int]));
                assert(r == tick_redraw(decks0[i as int].blocks));
            }
            if r {
                redraw = true;
            }
            done.push(d);
            proof {
                if r {
                    assert(tick_redraw((#[trigger] decks0[i as int]).blocks));
                }
            }
            i += 1;
        }
        self.decks = done;
        proof {
            assert forall|k: int| 0 <= k < nd implies #[trigger] self@.decks[k] == tick_deck(
                decks0[k],
            ) by {
                assert(self@.decks[k] == self.decks@[k]@);
            }
            assert(self@.decks.len() == nd);
            assert forall|k: int| 0 <= k < self@.decks.len() implies wf_blocks(
                (#[trigger] self@.decks[k]).blocks,
            ) by {
                assert(self@.decks[k] == self.decks@[k]@);
            }
        }
        redraw
    }
}

} // verus!
