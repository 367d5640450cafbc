use timeline_chess::cache::CacheMoves;
use timeline_chess::enumerator::GenMovesetIter;
use timeline_chess::model::Board;
use timeline_chess::model::Coords;
use timeline_chess::model::Game;
use timeline_chess::model::Move;
use timeline_chess::model::Piece;
use timeline_chess::model::PieceKind;
use timeline_chess::model::no_partial_game;
use timeline_chess::moveset::Moveset;
use timeline_chess::moveset::MovesetValidityErr;

fn wk() -> Piece {
    Piece { kind: PieceKind::King, white: true }
}

fn wn() -> Piece {
    Piece { kind: PieceKind::Knight, white: true }
}

fn bn() -> Piece {
    Piece { kind: PieceKind::Knight, white: false }
}

fn board(l: i32, t: i32, w: i32, h: i32, occ: &[(i32, i32, Piece)]) -> Board {
    let mut pieces: Vec<Option<Piece>> = vec![None; (w * h) as usize];
    for &(x, y, p) in occ {
        pieces[(y * w + x) as usize] = Some(p);
    }
    Board { l, t, width: w, height: h, pieces }
}

#[test]
fn lone_king_two_moves_cached() {
    // a 3x1 board whose only piece is a king in the middle: two destinations
    let b = board(0, 0, 3, 1, &[(1, 0, wk())]);
    let game = Game { width: 3, height: 1, active_white: true, boards: vec![b.clone()] };
    let pg = no_partial_game(&game);
    let mut cache = CacheMoves::new(&game.boards[0], &game, &pg).unwrap();
    let second = cache.get(1).unwrap();
    assert_eq!(second.to, Coords { l: 0, t: 0, x: 2, y: 0 });
    let first = cache.get_cached(0).unwrap();
    assert_eq!(first.to, Coords { l: 0, t: 0, x: 0, y: 0 });
    assert!(cache.get(2).is_none());
    assert!(cache.validate_move_cached(&first));
    let mut cache2 = CacheMoves::new(&game.boards[0], &game, &pg).unwrap();
    // nothing yielded yet: a cached lookup must miss, a full lookup must hit
    assert!(!cache2.validate_move_cached(&second));
    assert!(cache2.validate_move(&second));
    let mut wrong = second;
    wrong.to = Coords { l: 0, t: 0, x: 1, y: 0 };
    assert!(!cache2.validate_move(&wrong));
}

#[test]
fn enumerator_full_product() {
    // two playable boards with 3 and 2 candidate moves: six candidates
    let a = board(0, 0, 2, 2, &[(0, 0, wk())]);
    let b = board(5, 0, 2, 2, &[(0, 0, wk()), (1, 1, wn())]);
    let game =
        Game { width: 2, height: 2, active_white: true, boards: vec![a.clone(), b.clone()] };
    let pg = no_partial_game(&game);
    let own = vec![a, b];
    let mut it = GenMovesetIter::new(&own, &game, &pg);
    let mut accepted = 0;
    let mut seen: Vec<Vec<Move>> = Vec::new();
    while let Some(candidate) = it.next() {
        let ms = match candidate {
            Ok(ms) => ms,
            Err(_) => panic!("the enumerator emits plain candidates"),
        };
        let npg = match ms.generate_partial_game(&game, &pg) {
        Ok(npg) => npg,
        Err(_) => panic!("moveset should be accepted"),
    };
        assert_eq!(npg.boards.len(), 2);
        for nb in &npg.boards {
            assert_eq!(nb.t, 1);
        }
        assert!(!seen.contains(&ms.moves));
        seen.push(ms.moves);
        accepted += 1;
    }
    assert_eq!(accepted, 6);
}

#[test]
fn king_left_in_check_is_rejected() {
    // moving the knight leaves the white king attacked by the black knight
    let b = board(0, 0, 3, 3, &[(0, 0, wk()), (2, 0, wn()), (1, 2, bn())]);
    let game = Game { width: 3, height: 3, active_white: true, boards: vec![b] };
    let pg = no_partial_game(&game);
    let mv = Move {
        piece: wn(),
        from: Coords { l: 0, t: 0, x: 2, y: 0 },
        to: Coords { l: 0, t: 0, x: 0, y: 1 },
        captured: None,
    };
    let ms = Moveset::new(vec![mv]);
    assert!(matches!(
        ms.generate_partial_game(&game, &pg),
        Err(MovesetValidityErr::KingInCheck)
    ));
}

#[test]
fn empty_moveset_misses_own_board() {
    let b = board(0, 0, 3, 1, &[(1, 0, wk())]);
    let game = Game { width: 3, height: 1, active_white: true, boards: vec![b] };
    let pg = no_partial_game(&game);
    let ms = Moveset::new(vec![]);
    assert!(matches!(
        ms.generate_partial_game(&game, &pg),
        Err(MovesetValidityErr::DuplicateOrMissingBoard)
    ));
}

#[test]
fn move_targeting_unplayed_board_is_inconsistent() {
    // the king's jump to (1, 1) is a legal candidate (the board exists and
    // the square is free), but that board is not played this turn
    let a = board(0, 0, 2, 2, &[(0, 0, wk())]);
    let b = board(1, 1, 2, 2, &[]);
    let game = Game { width: 2, height: 2, active_white: true, boards: vec![a, b] };
    let pg = no_partial_game(&game);
    let mv = Move {
        piece: wk(),
        from: Coords { l: 0, t: 0, x: 0, y: 0 },
        to: Coords { l: 1, t: 1, x: 1, y: 1 },
        captured: None,
    };
    let ms = Moveset::new(vec![mv]);
    assert!(matches!(
        ms.generate_partial_game(&game, &pg),
        Err(MovesetValidityErr::InconsistentTimeline)
    ));
}

#[test]
fn illegal_move_reported_before_target_consistency() {
    // a move onto a board that does not exist at all is not a candidate of
    // its source board, so re-validation rejects it first
    let b = board(0, 0, 3, 1, &[(1, 0, wk())]);
    let game = Game { width: 3, height: 1, active_white: true, boards: vec![b] };
    let pg = no_partial_game(&game);
    let mv = Move {
        piece: wk(),
        from: Coords { l: 0, t: 0, x: 1, y: 0 },
        to: Coords { l: 9, t: 0, x: 0, y: 0 },
        captured: None,
    };
    let ms = Moveset::new(vec![mv]);
    assert!(matches!(
        ms.generate_partial_game(&game, &pg),
        Err(MovesetValidityErr::IllegalMove)
    ));
}

#[test]
fn illegal_single_move_is_rejected() {
    let b = board(0, 0, 3, 1, &[(1, 0, wk())]);
    let game = Game { width: 3, height: 1, active_white: true, boards: vec![b] };
    let pg = no_partial_game(&game);
    // a king cannot stand still
    let mv = Move {
        piece: wk(),
        from: Coords { l: 0, t: 0, x: 1, y: 0 },
        to: Coords { l: 0, t: 0, x: 1, y: 0 },
        captured: None,
    };
    let ms = Moveset::new(vec![mv]);
    assert!(matches!(
        ms.generate_partial_game(&game, &pg),
        Err(MovesetValidityErr::IllegalMove)
    ));
}

#[test]
fn accepted_moveset_builds_successor_board() {
    let b = board(0, 0, 3, 1, &[(1, 0, wk())]);
    let game = Game { width: 3, height: 1, active_white: true, boards: vec![b] };
    let pg = no_partial_game(&game);
    let mv = Move {
        piece: wk(),
        from: Coords { l: 0, t: 0, x: 1, y: 0 },
        to: Coords { l: 0, t: 0, x: 0, y: 0 },
        captured: None,
    };
    let ms = Moveset::new(vec![mv]);
    let npg = match ms.generate_partial_game(&game, &pg) {
        Ok(npg) => npg,
        Err(_) => panic!("moveset should be accepted"),
    };
    assert_eq!(npg.boards.len(), 1);
    let nb = &npg.boards[0];
    assert_eq!((nb.l, nb.t), (0, 1));
    assert_eq!(nb.pieces[0], Some(wk()));
    assert_eq!(nb.pieces[1], None);
    // the same inputs give the same result again
    let npg2 = match ms.generate_partial_game(&game, &pg) {
        Ok(npg) => npg,
        Err(_) => panic!("moveset should be accepted"),
    };
    assert_eq!(npg2.boards[0].pieces, npg.boards[0].pieces);
}
