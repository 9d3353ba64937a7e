use sudoku::validate::is_valid_move;

#[test]
fn valid_move_true() {
    let (board, pos, num, expected) = (vec!(
        vec!(0, 0, 5, 0, 7, 0, 9, 0, 4,),
        vec!(0, 9, 0, 0, 4, 0, 2, 3, 1,),
        vec!(6, 0, 2, 0, 9, 1, 0, 0, 0,),
        vec!(5, 0, 0, 4, 0, 3, 0, 0, 8,),
        vec!(0, 1, 6, 5, 0, 2, 0, 0, 0,),
        vec!(0, 8, 0, 0, 1, 0, 5, 2, 6,),
        vec!(2, 6, 0, 0, 0, 0, 0, 8, 5,),
        vec!(3, 0, 0, 8, 0, 7, 0, 1, 0,),
        vec!(8, 0, 9, 0, 0, 0, 0, 4, 3,),
    ),
    (2, 3),
    3,
    true,);
    assert_eq!(expected, is_valid_move(&board, &pos, num));
}

#[test]
fn valid_move_false() {
    let (board, pos, num, expected) = (vec!(
        vec!(0, 0, 5, 0, 7, 0, 9, 0, 4,),
        vec!(0, 9, 0, 0, 4, 0, 2, 3, 1,),
        vec!(6, 0, 2, 0, 9, 1, 0, 0, 0,),
        vec!(5, 0, 0, 4, 0, 3, 0, 0, 8,),
        vec!(0, 1, 6, 5, 0, 2, 0, 0, 0,),
        vec!(0, 8, 0, 0, 1, 0, 5, 2, 6,),
        vec!(2, 6, 0, 0, 0, 0, 0, 8, 5,),
        vec!(3, 0, 0, 8, 0, 7, 0, 1, 0,),
        vec!(8, 0, 9, 0, 0, 0, 0, 4, 3,),
    ),
    (0, 0),
    6,
    false,);
    assert_eq!(expected, is_valid_move(&board, &pos, num));
}
