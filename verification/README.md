# yasai

A shogi move generator and position library, verified with Verus.

## Layout

- `src/bitboard.rs`: sets of squares as two machine words, with their algebra proved against
  `Set<int>`.
- `src/tables.rs`: attack tables of every kind (steps, lances, bishops and rooks through
  parallel bit extraction), each proved to give the attacks of `piece_attacks` over any
  occupancy, and the squares between two squares.
- `src/position.rs`: positions with history (`do_move`, `undo_move`), Zobrist keys, and the
  recorded attack information (checkers, pinned pieces, checking squares).
- `src/movegen.rs`: legal move generation, drops and the pawn-drop-mate rule.
- `src/utils/kifu_strings.rs`: moves written in Japanese kifu notation.
- `app/`: conversions to and from `shogi_core` types.

## What is proved

Besides the contracts of each function:

- doing and then undoing a move gives the position back, and a move changes exactly its origin,
  its target, the mover's hand, the side to move and the ply;
- a legal move meets what `do_move` asks when no opposing king stands attacked and the ply
  and hand counts have room;
- a position records the checkers that its history fixes, after `undo_move` too;
- the keys are the Zobrist hashes of the board and of the hands, the board key with its lowest
  bit set exactly when the side to move is not the one that was to move when the position was
  made, so that the bit of the key tells an odd number of moves done; positions holding tables
  made by `Tables::new` (as `Position::new` and `Position::default` make them) and made with the
  same side to move agree on the keys of equal boards, sides and hands, as every such table
  draws the same keys;
- `is_check_move` tells exactly whether `in_check` holds after the move, and a move it reports
  as checking leaves the king to move attacked;
- `legal_moves` returns each move of its specification exactly once;
- the legal moves are exactly the moves by the rules after which the king of the side that
  moved stands unattacked, in check or not (with one king per side, the kings apart);
- the checkers recorded after a move are exactly the pieces attacking the king to move, so
  `in_check` is exact along legal play from a sound position.

## Notes

- `legal_moves` returns a `Vec`. A fixed-capacity vector of 593 moves would panic on a push
  beyond its capacity, and no bound of that size on the candidate moves holds for every
  position the library accepts, so a growable vector holds them.
