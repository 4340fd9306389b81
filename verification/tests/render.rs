use reversi::board::Board;
use reversi::input::parse_pos;
use reversi::square::Square;

fn text(board: &Board) -> String {
    String::from_utf8(board.render()).unwrap()
}

#[test]
fn the_start_of_a_game_is_drawn() {
    let expected = "  1 2 3 4 5 6 7 8\n\
                    \x20+-+-+-+-+-+-+-+-+\n\
                    1| | | | | | | | |\n\
                    2| | | | | | | | |\n\
                    3| | | | | | | | |\n\
                    4| | | |o|x| | | |\n\
                    5| | | |x|o| | | |\n\
                    6| | | | | | | | |\n\
                    7| | | | | | | | |\n\
                    8| | | | | | | | |\n\
                    \x20+-+-+-+-+-+-+-+-+\n";
    assert_eq!(text(&Board::new(8)), expected);
}

#[test]
fn the_smallest_board_is_drawn() {
    assert_eq!(text(&Board::new(2)), "  1 2\n +-+-+\n1|o|x|\n2|x|o|\n +-+-+\n");
}

#[test]
fn disks_are_drawn_where_they_are_put() {
    let mut board = Board::new(4);
    board.put_at(&(0, 3), Square::White);
    board.put_at(&(3, 0), Square::Black);
    board.put_at(&(1, 1), Square::Empty);
    assert_eq!(
        text(&board),
        "  1 2 3 4\n +-+-+-+-+\n1| | | |x|\n2| | |x| |\n3| |x|o| |\n4|o| | | |\n +-+-+-+-+\n"
    );
}

#[test]
fn numbers_above_nine_take_two_digits() {
    let picture = text(&Board::new(12));
    let lines: Vec<&str> = picture.lines().collect();
    assert_eq!(lines.len(), 15);
    assert_eq!(lines[0], "  1 2 3 4 5 6 7 8 9 10 11 12");
    assert_eq!(lines[1], " +-+-+-+-+-+-+-+-+-+-+-+-+");
    assert_eq!(lines[10], "9| | | | | | | | | | | | |");
    assert_eq!(lines[11], "10| | | | | | | | | | | | |");
    assert_eq!(lines[7], "6| | | | | |o|x| | | | | |");
    assert_eq!(lines[14], lines[1]);
    assert!(picture.ends_with("+\n"));
}

#[test]
fn the_numbers_drawn_are_read_back_as_moves() {
    let picture = text(&Board::new(12));
    let lines: Vec<&str> = picture.lines().collect();
    let columns: Vec<&str> = lines[0].split_whitespace().collect();
    assert_eq!(columns.len(), 12);
    for y in 0..12 {
        let row = lines[2 + y].split('|').next().unwrap();
        for x in 0..12 {
            let line = format!("{} {}\n", row, columns[x]);
            assert_eq!(parse_pos(&line), Some((y as isize, x as isize)));
        }
    }
}
