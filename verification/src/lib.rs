//! A Kalah-style sowing and capture game: board representation, legal-move
//! enumeration, the sowing/capture transition, turn passing, and terminal
//! scoring, each with a verified contract.
//!
//! The board has fourteen slots: pits 0..=5 and store 6 belong to `HUMAN`,
//! pits 7..=12 and store 13 belong to `COMPUTER`. A move takes all seeds from
//! one of the mover's own pits and sows them counter-clockwise, skipping the
//! opponent's store; a final seed landing alone in an empty non-store pit
//! whose opposite pit is occupied captures both into the mover's store; a
//! final seed landing in the mover's own store keeps the turn.

use vstd::prelude::*;

mod total;

use crate::total::{
    board_total, lemma_elem_le_sum, lemma_sum_from_update, lemma_two_le_total, sum_from,
};

verus! {

broadcast use vstd::array::group_array_axioms;

/// The two players. `HUMAN` owns pits 0..=5 and store 6, `COMPUTER` owns
/// pits 7..=12 and store 13; `HUMAN` moves first.
#[derive(Copy, Clone, PartialEq, Eq, Structural, Debug)]
pub enum Player {
    COMPUTER,
    HUMAN,
}

/// Index of the store belonging to `HUMAN`.
pub const HUMAN_TILE_INDEX: usize = 6;

/// Index of the store belonging to `COMPUTER`.
pub const COMPUTER_TILE_INDEX: usize = 13;

/// The player whose turn follows when the turn passes.
pub open spec fn other_player(p: Player) -> Player {
    match p {
        Player::COMPUTER => Player::HUMAN,
        Player::HUMAN => Player::COMPUTER,
    }
}

/// Index of a player's own store.
pub open spec fn store_index(p: Player) -> int {
    match p {
        Player::HUMAN => 6,
        Player::COMPUTER => 13,
    }
}

/// Index of the opponent's store, which sowing skips.
pub open spec fn opponent_store_index(p: Player) -> int {
    match p {
        Player::HUMAN => 13,
        Player::COMPUTER => 6,
    }
}

/// `i` is one of `p`'s six own non-store pits.
pub open spec fn is_own_pit(p: Player, i: int) -> bool {
    store_index(p) - 6 <= i < store_index(p)
}

/// The pit opposite a non-store pit, the target of a capture.
pub open spec fn opposite_index(i: int) -> int {
    12 - i
}

fn next_player(player: Player) -> (next: Player)
    ensures
        next == other_player(player),
{
    match player {
        Player::COMPUTER => Player::HUMAN,
        Player::HUMAN => Player::COMPUTER,
    }
}

/// The pit a sown seed lands in after the one at `i`: the next index around
/// the board, passing over the opponent's store and wrapping past 13 to 0.
pub open spec fn next_pit(i: int, p: Player) -> int {
    let step = i + 1;
    let skipped = if step == opponent_store_index(p) {
        step + 1
    } else {
        step
    };
    if skipped >= 14 {
        0
    } else {
        skipped
    }
}

/// A capture at pit `j` by player `p`: the landing seed and the contents of
/// the opposite pit move to `p`'s store, and both pits are left empty.
pub open spec fn capture(b: Seq<int>, j: int, p: Player) -> Seq<int> {
    b.update(store_index(p), b[store_index(p)] + 1 + b[opposite_index(j)]).update(
        opposite_index(j),
        0,
    ).update(j, 0)
}

/// Whether the final sown seed, about to land in pit `j`, captures: the pit
/// is not a store, lies empty, and its opposite pit is occupied.
pub open spec fn captures(b: Seq<int>, j: int) -> bool {
    &&& j != 13
    &&& j != 6
    &&& b[j] == 0
    &&& b[opposite_index(j)] != 0
}

/// Sowing `pieces` seeds, one per pit, starting after pit `i` on board `b`:
/// the resulting board and the index of the pit the final seed reached.
/// The capture rule applies to the final seed alone.
pub open spec fn sow(b: Seq<int>, i: int, pieces: int, p: Player) -> (Seq<int>, int)
    decreases pieces,
{
    if pieces <= 0 {
        (b, i)
    } else {
        let j = next_pit(i, p);
        if pieces == 1 && captures(b, j) {
            (capture(b, j, p), j)
        } else {
            sow(b.update(j, b[j] + 1), j, pieces - 1, p)
        }
    }
}

/// The indices in `lo..hi` whose pit on board `b` is non-empty, in ascending
/// order.
pub open spec fn legal_upto(b: Seq<int>, lo: int, hi: int) -> Seq<int>
    decreases hi - lo,
{
    if hi <= lo {
        Seq::empty()
    } else if b[hi - 1] > 0 {
        legal_upto(b, lo, hi - 1).push(hi - 1)
    } else {
        legal_upto(b, lo, hi - 1)
    }
}

/// `legal_upto` returns exactly the non-empty pits of the range, in
/// ascending order.
pub proof fn lemma_legal_upto_props(b: Seq<int>, lo: int, hi: int)
    requires
        lo <= hi,
    ensures
        forall|k: int|
            0 <= k < legal_upto(b, lo, hi).len() ==> lo <= #[trigger] legal_upto(b, lo, hi)[k]
                < hi && b[legal_upto(b, lo, hi)[k]] > 0,
        forall|k1: int, k2: int|
            0 <= k1 < k2 < legal_upto(b, lo, hi).len() ==> legal_upto(b, lo, hi)[k1] < legal_upto(
                b,
                lo,
                hi,
            )[k2],
        forall|i: int| lo <= i < hi && b[i] > 0 ==> legal_upto(b, lo, hi).contains(i),
    decreases hi - lo,
{
    if lo < hi {
        lemma_legal_upto_props(b, lo, hi - 1);
        let full = legal_upto(b, lo, hi);
        let prior = legal_upto(b, lo, hi - 1);
        assert forall|k: int| 0 <= k < full.len() implies lo <= (#[trigger] full[k]) < hi && b[
        full[k]] > 0 by {
            if k < prior.len() {
                assert(full[k] == prior[k]);
            } else {
                assert(full[k] == hi - 1);
            }
        }
        assert forall|k1: int, k2: int| 0 <= k1 < k2 < full.len() implies full[k1] < full[k2] by {
            if k2 < prior.len() {
                assert(full[k1] == prior[k1] && full[k2] == prior[k2]);
            } else {
                assert(full[k1] == prior[k1] && full[k2] == hi - 1);
            }
        }
        assert forall|i: int| lo <= i < hi && b[i] > 0 implies legal_upto(b, lo, hi).contains(
            i,
        ) by {
            if i < hi - 1 {
                assert(prior.contains(i));
                let k = choose|k: int| 0 <= k < prior.len() && prior[k] == i;
                assert(0 <= k < full.len() && full[k] == i);
            } else {
                assert(0 <= full.len() - 1 < full.len() && full[full.len() - 1] == i);
            }
        }
    }
}

/// The board of the standard start position: four seeds in every pit, both
/// stores empty.
pub open spec fn start_board() -> Seq<int> {
    seq![4, 4, 4, 4, 4, 4, 0, 4, 4, 4, 4, 4, 4, 0]
}

/// A game position: the fourteen seed counts, the side to move, and how many
/// moves have been applied since the start.
#[derive(Copy, Clone, PartialEq, Eq, Debug)]
#[verifier::ext_equal]
pub struct Node {
    pub move_count: i32,
    pub board: [i8; 14],
    pub player: Player,
}

impl Node {
    /// The board as a sequence of mathematical integers; all contracts speak
    /// of this view.
    pub open spec fn board_model(self) -> Seq<int> {
        self.board@.map_values(|x: i8| x as int)
    }

    /// Well-formedness of a reachable position: no slot is negative, and the
    /// seeds on the whole board fit in one byte-sized count. The start
    /// position has total 48 and every move conserves the total.
    pub open spec fn wf(self) -> bool {
        &&& forall|i: int| 0 <= i < 14 ==> 0 <= #[trigger] self.board_model()[i]
        &&& board_total(self.board_model()) <= 127
    }

    pub fn new() -> (node: Node)
        ensures
            node.board_model() == start_board(),
            node.player == Player::HUMAN,
            node.move_count == 0,
            node.wf(),
    {
        let node = Node {
            move_count: 0,
            board: [4, 4, 4, 4, 4, 4, 0, 4, 4, 4, 4, 4, 4, 0],
            player: Player::HUMAN,
        };
        proof {
            assert(node.board_model() =~= start_board());
            lemma_start_board_total();
        }
        node
    }

    pub fn clone(&self) -> (node: Node)
        ensures
            node == *self,
    {
        let mut node = Node::new();
        node.move_count = self.move_count;
        node.board = self.board;
        node.player = self.player;
        proof {
            assert(node =~= *self);
        }
        node
    }

    fn current_player_tile_index(&self) -> (index: usize)
        ensures
            index as int == store_index(self.player),
    {
        match self.player {
            Player::HUMAN => 6,
            Player::COMPUTER => 13,
        }
    }

    fn get_adjacent_tile_index(tile_index: usize) -> (adjacent: usize)
        requires
            tile_index <= 12,
        ensures
            adjacent as int == opposite_index(tile_index as int),
    {
        12 - tile_index
    }

    /// The board and final landing index after sowing from pit `tile`:
    /// the pit is emptied and its seeds are sown around the board.
    pub open spec fn after_move(self, tile: int) -> (Seq<int>, int) {
        sow(
            self.board_model().update(tile, 0),
            tile,
            self.board_model()[tile],
            self.player,
        )
    }

    /// The side to move after sowing from pit `tile`: the mover keeps the
    /// turn exactly when the final seed landed in the mover's own store.
    pub open spec fn moved_player(self, tile: int) -> Player {
        if self.after_move(tile).1 == store_index(self.player) {
            self.player
        } else {
            other_player(self.player)
        }
    }

    fn steal_pieces(&mut self, tile_index: usize)
        requires
            tile_index < 14,
            tile_index != 6,
            tile_index != 13,
            forall|k: int| 0 <= k < 14 ==> 0 <= #[trigger] old(self).board_model()[k],
            old(self).board_model()[store_index(old(self).player)] + 1 + old(
                self,
            ).board_model()[opposite_index(tile_index as int)] <= 127,
        ensures
            final(self).board_model() == capture(
                old(self).board_model(),
                tile_index as int,
                old(self).player,
            ),
            final(self).player == old(self).player,
            final(self).move_count == old(self).move_count,
    {
        let adjacent_index = Node::get_adjacent_tile_index(tile_index);
        let player_index = self.current_player_tile_index();
        self.board[player_index] = self.board[player_index] + 1 + self.board[adjacent_index];
        self.board[adjacent_index] = 0;
        self.board[tile_index] = 0;
        proof {
            assert(self.board_model() =~= capture(
                old(self).board_model(),
                tile_index as int,
                old(self).player,
            ));
        }
    }

    /// The mover's legal moves: the indices of the mover's own non-empty
    /// pits, in ascending order.
    pub open spec fn legal_moves_seq(self) -> Seq<int> {
        legal_upto(
            self.board_model(),
            store_index(self.player) - 6,
            store_index(self.player),
        )
    }

    /// The position is over for the side to move: all six own pits are empty.
    pub open spec fn terminal_spec(self) -> bool {
        forall|i: int| is_own_pit(self.player, i) ==> (#[trigger] self.board_model()[i]) == 0
    }

    pub fn move_piece(&mut self, tile_index: usize)
        requires
            old(self).wf(),
            old(self).move_count < i32::MAX,
            is_own_pit(old(self).player, tile_index as int),
            old(self).board_model()[tile_index as int] > 0,
        ensures
            final(self).board_model() == old(self).after_move(tile_index as int).0,
            final(self).player == old(self).moved_player(tile_index as int),
            (final(self).player == old(self).player) <==> (old(self).after_move(
                tile_index as int,
            ).1 == store_index(old(self).player)),
            final(self).move_count == old(self).move_count + 1,
            final(self).wf(),
            board_total(final(self).board_model()) == board_total(old(self).board_model()),
    {
        let ghost b0 = old(self).board_model();
        let ghost p = old(self).player;
        let ghost m0 = old(self).move_count;
        let ghost target = old(self).after_move(tile_index as int);
        let mut pieces: i8 = self.board[tile_index];
        self.board[tile_index] = 0;
        let mut index: usize = tile_index;
        proof {
            assert(self.board_model() =~= b0.update(tile_index as int, 0));
            lemma_sum_from_update(b0, 0, tile_index as int, 0);
        }
        while pieces > 0
            invariant
                0 <= pieces,
                index < 14,
                self.player == p,
                self.move_count == m0,
                self.board_model().len() == 14,
                forall|k: int| 0 <= k < 14 ==> 0 <= #[trigger] self.board_model()[k],
                board_total(self.board_model()) + pieces == board_total(b0),
                board_total(b0) <= 127,
                sow(self.board_model(), index as int, pieces as int, p) == target,
            decreases pieces,
        {
            let ghost prev = self.board_model();
            let ghost prev_index = index as int;
            index += 1;
            if (self.player == Player::COMPUTER && index == HUMAN_TILE_INDEX)
                || (self.player == Player::HUMAN && index == COMPUTER_TILE_INDEX) {
                index += 1;
            }
            if index >= 14 {
                index = 0
            }
            proof {
                assert(index as int == next_pit(prev_index, p));
            }
            if pieces == 1 && index != COMPUTER_TILE_INDEX && index != HUMAN_TILE_INDEX
                && self.board[index] == 0
                && self.board[Node::get_adjacent_tile_index(index)] != 0 {
                proof {
                    lemma_two_le_total(prev, store_index(p), opposite_index(index as int));
                }
                self.steal_pieces(index);
                proof {
                    lemma_capture_total(prev, index as int, p);
                }
            } else {
                proof {
                    lemma_elem_le_sum(prev, 0, index as int);
                }
                self.board[index] = self.board[index] + 1;
                proof {
                    assert(self.board_model() =~= prev.update(
                        index as int,
                        prev[index as int] + 1,
                    ));
                    lemma_sum_from_update(prev, 0, index as int, prev[index as int] + 1);
                }
            }
            pieces = pieces - 1;
        }
        if self.current_player_tile_index() != index {
            self.player = next_player(self.player);
        }
        self.move_count = self.move_count + 1;
    }

    pub fn available_moves(&self) -> (moves: Vec<usize>)
        ensures
            moves@.map_values(|x: usize| x as int) == self.legal_moves_seq(),
            forall|k: int|
                0 <= k < moves@.len() ==> is_own_pit(self.player, #[trigger] moves@[k] as int)
                    && self.board_model()[moves@[k] as int] > 0,
            forall|k1: int, k2: int|
                0 <= k1 < k2 < moves@.len() ==> moves@[k1] < moves@[k2],
            forall|i: int|
                is_own_pit(self.player, i) && self.board_model()[i] > 0
                    ==> self.legal_moves_seq().contains(i),
    {
        let ghost lo = store_index(self.player) - 6;
        let mut moves: Vec<usize> = Vec::new();
        let player_index = self.current_player_tile_index();
        let mut i: usize = player_index - 6;
        while i < player_index
            invariant
                player_index as int == store_index(self.player),
                lo == store_index(self.player) - 6,
                lo <= i as int <= player_index as int,
                moves@.map_values(|x: usize| x as int) == legal_upto(
                    self.board_model(),
                    lo,
                    i as int,
                ),
            decreases player_index - i,
        {
            if self.board[i] > 0 {
                moves.push(i);
            }
            i += 1;
            proof {
                assert(moves@.map_values(|x: usize| x as int) =~= legal_upto(
                    self.board_model(),
                    lo,
                    i as int,
                ));
            }
        }
        proof {
            lemma_legal_upto_props(self.board_model(), lo, store_index(self.player));
            let mapped = moves@.map_values(|x: usize| x as int);
            assert forall|k: int|
                0 <= k < moves@.len() implies is_own_pit(self.player, #[trigger] moves@[k] as int)
                    && self.board_model()[moves@[k] as int] > 0 by {
                assert(mapped[k] == moves@[k] as int);
            }
            assert forall|k1: int, k2: int|
                0 <= k1 < k2 < moves@.len() implies moves@[k1] < moves@[k2] by {
                assert(mapped[k1] == moves@[k1] as int);
                assert(mapped[k2] == moves@[k2] as int);
            }
        }
        moves
    }

    /// `children` is exactly the ordered successor list of this position: one
    /// child per legal move, in the order `legal_moves_seq` gives, each the
    /// result of applying that move to a copy of this position.
    pub open spec fn is_children_of(self, children: Seq<Node>) -> bool {
        &&& children.len() == self.legal_moves_seq().len()
        &&& forall|k: int|
            0 <= k < children.len() ==> {
                let c = #[trigger] children[k];
                let m = self.legal_moves_seq()[k];
                &&& c.board_model() == self.after_move(m).0
                &&& c.player == self.moved_player(m)
                &&& c.move_count == self.move_count + 1
            }
    }

    pub fn get_children(&self) -> (children: Vec<Node>)
        requires
            self.wf(),
            self.move_count < i32::MAX,
        ensures
            self.is_children_of(children@),
            forall|k: int| 0 <= k < children@.len() ==> (#[trigger] children@[k]).wf(),
    {
        let moves = self.available_moves();
        let mut children: Vec<Node> = Vec::new();
        let mut k: usize = 0;
        while k < moves.len()
            invariant
                self.wf(),
                self.move_count < i32::MAX,
                k <= moves.len(),
                moves@.map_values(|x: usize| x as int) == self.legal_moves_seq(),
                forall|t: int|
                    0 <= t < moves@.len() ==> is_own_pit(self.player, #[trigger] moves@[t] as int)
                        && self.board_model()[moves@[t] as int] > 0,
                children@.len() == k,
                forall|t: int|
                    0 <= t < k as int ==> {
                        let c = #[trigger] children@[t];
                        let m = self.legal_moves_seq()[t];
                        &&& c.board_model() == self.after_move(m).0
                        &&& c.player == self.moved_player(m)
                        &&& c.move_count == self.move_count + 1
                        &&& c.wf()
                    },
            decreases moves.len() - k,
        {
            let m = moves[k];
            proof {
                assert(moves@.map_values(|x: usize| x as int)[k as int] == m as int);
            }
            let mut child = self.clone();
            child.move_piece(m);
            children.push(child);
            k = k + 1;
        }
        children
    }

    pub fn is_terminal(&self) -> (terminal: bool)
        ensures
            terminal <==> self.legal_moves_seq().len() == 0,
            self.wf() ==> (terminal <==> self.terminal_spec()),
    {
        proof {
            if self.wf() {
                lemma_terminal_iff_own_pits_empty(*self);
            }
        }
        self.available_moves().len() == 0
    }

    pub fn value(&self) -> (diff: i8)
        requires
            0 <= self.board_model()[6],
            0 <= self.board_model()[13],
        ensures
            diff as int == self.board_model()[6] - self.board_model()[13],
    {
        self.board[HUMAN_TILE_INDEX] - self.board[COMPUTER_TILE_INDEX]
    }
}

/// The successor list of a position is determined by the position alone: any
/// two lists that `get_children` may return for the same position are equal,
/// element for element.
pub proof fn lemma_children_deterministic(node: Node, c1: Seq<Node>, c2: Seq<Node>)
    requires
        node.is_children_of(c1),
        node.is_children_of(c2),
    ensures
        c1 == c2,
{
    assert forall|k: int| 0 <= k < c1.len() implies c1[k] == c2[k] by {
        assert forall|i: int| 0 <= i < 14 implies c1[k].board@[i] == c2[k].board@[i] by {
            assert(c1[k].board_model()[i] == c2[k].board_model()[i]);
        }
        assert(c1[k].board =~= c2[k].board);
        assert(c1[k] =~= c2[k]);
    }
    assert(c1 =~= c2);
}

/// A position has no legal move exactly when the mover's six own pits are all
/// empty, on any board without negative counts.
pub proof fn lemma_terminal_iff_own_pits_empty(node: Node)
    requires
        node.wf(),
    ensures
        node.legal_moves_seq().len() == 0 <==> node.terminal_spec(),
{
    let lo = store_index(node.player) - 6;
    let hi = store_index(node.player);
    lemma_legal_upto_props(node.board_model(), lo, hi);
    if node.legal_moves_seq().len() == 0 {
        assert forall|i: int| is_own_pit(node.player, i) implies (
        #[trigger] node.board_model()[i]) == 0 by {
            assert(0 <= node.board_model()[i]);
            if node.board_model()[i] > 0 {
                assert(node.legal_moves_seq().contains(i));
            }
        }
    } else {
        let first = node.legal_moves_seq()[0];
        assert(is_own_pit(node.player, first) && node.board_model()[first] > 0);
    }
}

/// A capture moves the final seed and the opposite pit's seeds to the
/// mover's store: the total grows by exactly the one seed in hand, and no
/// slot goes negative.
proof fn lemma_capture_total(b: Seq<int>, j: int, p: Player)
    requires
        b.len() == 14,
        0 <= j < 14,
        j != 6,
        j != 13,
        b[j] == 0,
        forall|k: int| 0 <= k < 14 ==> 0 <= #[trigger] b[k],
    ensures
        capture(b, j, p).len() == 14,
        board_total(capture(b, j, p)) == board_total(b) + 1,
        forall|k: int| 0 <= k < 14 ==> 0 <= #[trigger] capture(b, j, p)[k],
{
    let s = store_index(p);
    let a = opposite_index(j);
    let c1 = b.update(s, b[s] + 1 + b[a]);
    let c2 = c1.update(a, 0);
    lemma_sum_from_update(b, 0, s, b[s] + 1 + b[a]);
    lemma_sum_from_update(c1, 0, a, 0);
    lemma_sum_from_update(c2, 0, j, 0);
}

/// The start position holds 48 seeds in all.
pub proof fn lemma_start_board_total()
    ensures
        board_total(start_board()) == 48,
{
    reveal_with_fuel(sum_from, 16);
}

} // verus!
