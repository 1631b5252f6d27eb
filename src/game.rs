use vstd::prelude::*;

use crate::board::{in_grid, kind_rule, masks_of, reachable, scrambled, stub_total, stubs_matched, Board};
use crate::rng::{GameRng, GameSeed};
use crate::util::Size;

verus! {

/// `pre` is a freshly generated board: well formed and solved, every open
/// stub met by its neighbour, `width * height - 1` pipes, every cell
/// reached from the root, no frontier left, the kinds given at generation, and no tile powered.
pub open spec fn generated(pre: Board) -> bool {
    &&& pre.wf()
    &&& pre.solved()
    &&& stubs_matched(pre.width(), pre.height(), masks_of(pre.spec_tiles()))
    &&& stub_total(masks_of(pre.spec_tiles())) == 2 * (pre.width() * pre.height() - 1)
    &&& forall|x: int, y: int|
        in_grid(pre.width(), pre.height(), x, y) ==> #[trigger] reachable(
            pre.width(),
            pre.height(),
            masks_of(pre.spec_tiles()),
            pre.spec_root().x as int,
            pre.spec_root().y as int,
            x,
            y,
        )
    &&& forall|i: int| 0 <= i < pre.spec_tiles().len() ==> (#[trigger] pre.spec_tiles()[i]).neighbours == 0
    &&& forall|i: int|
        0 <= i < pre.spec_tiles().len() ==> (#[trigger] pre.spec_tiles()[i]).kind == kind_rule(
            pre.spec_tiles()[i],
            i == pre.index_of(pre.spec_root()),
        ) && !pre.spec_tiles()[i].powered
}

/// `post` is `pre` with every tile turned right 0, 1 or 2 quarter turns.
pub open spec fn scramble_of(pre: Board, post: Board) -> bool {
    &&& post.wf()
    &&& post.spec_size() == pre.spec_size()
    &&& post.spec_root() == pre.spec_root()
    &&& post.spec_tiles().len() == pre.spec_tiles().len()
    &&& forall|i: int|
        0 <= i < pre.spec_tiles().len() ==> scrambled(
            pre.spec_tiles()[i],
            #[trigger] post.spec_tiles()[i],
        )
}

/// One playthrough: a scrambled board and the random stream it came from.
pub struct Game {
    pub rng: GameRng,
    pub board: Board,
}

impl Game {
    /// Generates a board of `width` by `height` cells from `seed`, then
    /// scrambles it with the same stream.
    pub fn new(width: i32, height: i32, seed: GameSeed) -> (r: Self)
        requires
            width >= 1,
            height >= 1,
            width * height <= i32::MAX,
        ensures
            r.rng.spec_seed() == seed,
            r.board.spec_size() == (Size::<i32> { width: width, height: height }),
            exists|pre: Board| #[trigger] scramble_of(pre, r.board) && generated(pre),
    {
        let mut rng = GameRng::from(seed);
        let mut board = Board::new(width, height, &mut rng);
        let ghost pre = board;
        board.scramble(&mut rng);
        assert(scramble_of(pre, board) && generated(pre));
        Self { rng: rng, board: board }
    }
}

} // verus!
