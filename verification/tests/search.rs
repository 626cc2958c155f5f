use wordsearcher::Grid;

fn grid_from(lines: &[&str]) -> Grid {
    Grid::from_vec(lines.iter().map(|l| l.chars().collect()).collect()).unwrap()
}

fn puzzle() -> Grid {
    grid_from(&[
        "GIASFCLFUBREHBER",
        "NPBAVUUJJCSEOMEO",
        "IWLSNOTELEKSTMFB",
        "RLXETMONSTERMNGO",
        "PMDIAMREMAUUJHIT",
        "SCIGARSVXRSOUDCW",
    ])
}

#[test]
fn example() {
    // Taken from Undertale.
    let grid_txt = String::from(
"GIASFCLFUBREHBER
NPBAVUUJJCSEOMEO
IWLSNOTELEKSTMFB
RLXETMONSTERMNGO
PMDIAMREMAUUJHIT
SCIGARSVXRSOUDCW
"
    );
    let words_txt = String::from(
"FALL
WINTER
SPRING
SUMMER
MONSTER
SKELETONS
MERMAID
ROBOT
CIGARS
CIG
GIASFCLFUBREHBER
HOT
"
    );
    let grid_chars: Vec<Vec<char>> = grid_txt.lines()
        .map(|l| l.chars().collect::<Vec<char>>())
        .collect();
    let grid = Grid::from_vec(grid_chars).unwrap();
    let coords: Vec<Option<[usize; 2]>> = words_txt
        .trim()
        .lines()
        .map(|w| grid.find_word(w))
        .collect();
    let expected = vec![
        Some([4, 0]),
        Some([15, 5]),
        Some([0, 5]),
        Some([10, 5]),
        Some([5, 3]),
        Some([10, 1]),
        Some([8, 4]),
        Some([15, 0]),
        Some([1, 5]),
        Some([1, 5]),
        Some([0, 0]),
        Some([12, 0]),
    ];
    assert_eq!(expected, coords)
}

#[test]
fn puzzle_words_one_by_one() {
    let grid = puzzle();
    assert_eq!(grid.find_word("FALL"), Some([4, 0]));
    assert_eq!(grid.find_word("WINTER"), Some([15, 5]));
    assert_eq!(grid.find_word("SPRING"), Some([0, 5]));
    assert_eq!(grid.find_word("SUMMER"), Some([10, 5]));
    assert_eq!(grid.find_word("MONSTER"), Some([5, 3]));
    assert_eq!(grid.find_word("SKELETONS"), Some([10, 1]));
    assert_eq!(grid.find_word("MERMAID"), Some([8, 4]));
    assert_eq!(grid.find_word("ROBOT"), Some([15, 0]));
    assert_eq!(grid.find_word("CIGARS"), Some([1, 5]));
    assert_eq!(grid.find_word("CIG"), Some([1, 5]));
    assert_eq!(grid.find_word("GIASFCLFUBREHBER"), Some([0, 0]));
}

#[test]
fn puzzle_word_read_downwards() {
    // H, O and T stand below one another in column 12.
    let grid = puzzle();
    assert_eq!(grid.get_coord(12), [12, 0]);
    assert_eq!(grid.letters[12], 'H');
    assert_eq!(grid.letters[28], 'O');
    assert_eq!(grid.letters[44], 'T');
    assert_eq!(grid.find_word("HOT"), Some([12, 0]));
}

#[test]
fn puzzle_words_that_are_absent() {
    let grid = puzzle();
    assert_eq!(grid.find_word("HOTEL"), None);
    assert_eq!(grid.find_word("AUTUMNAL"), None);
}

#[test]
fn find_char_slice_agrees_with_find_word() {
    let grid = puzzle();
    for word in ["FALL", "WINTER", "SKELETONS", "HOT", "CIG", "", "QQQ", "NOPE"] {
        let chars: Vec<char> = word.chars().collect();
        assert_eq!(grid.find_char_slice(&chars[..]), grid.find_word(word));
    }
}

#[test]
fn find_char_slice_exact_values() {
    let grid = grid_from(&["ABC", "DEF", "GHI"]);
    assert_eq!(grid.find_char_slice(&['A', 'E', 'I']), Some([0, 0]));
    assert_eq!(grid.find_char_slice(&['I', 'E', 'A']), Some([2, 2]));
    assert_eq!(grid.find_char_slice(&['C', 'E', 'G']), Some([2, 0]));
    assert_eq!(grid.find_char_slice(&['F', 'E', 'D']), Some([2, 1]));
    assert_eq!(grid.find_char_slice(&['H', 'E', 'B']), Some([1, 2]));
    assert_eq!(grid.find_char_slice(&['A', 'C']), None);
    assert_eq!(grid.find_char_slice(&['A', 'I']), None);
}

#[test]
fn a_word_may_bend() {
    let grid = grid_from(&["ABC", "DEF", "GHI"]);
    assert_eq!(grid.find_word("ABFI"), Some([0, 0]));
    assert_eq!(grid.find_word("GEC"), Some([0, 2]));
    assert_eq!(grid.find_word("DHF"), Some([0, 1]));
    assert_eq!(grid.find_word("ACI"), None);
    assert_eq!(grid.find_word("EDGH"), Some([1, 1]));
}

#[test]
fn word_with_an_absent_character_is_not_found() {
    let grid = puzzle();
    assert_eq!(grid.find_word("Z"), None);
    assert_eq!(grid.find_word("FALLZ"), None);
    assert_eq!(grid.find_word("ZFALL"), None);
    assert_eq!(grid.find_word("FAZLL"), None);
    assert_eq!(grid.find_word("fall"), None);
    let small = grid_from(&["AB", "CD"]);
    assert_eq!(small.find_word("ABE"), None);
    assert_eq!(small.find_word("E"), None);
}

#[test]
fn empty_word_is_found_in_the_first_cell() {
    assert_eq!(puzzle().find_word(""), Some([0, 0]));
    assert_eq!(grid_from(&["X"]).find_word(""), Some([0, 0]));
    assert_eq!(grid_from(&["AB", "CD"]).find_char_slice(&[]), Some([0, 0]));
    assert_eq!(grid_from(&["A", "B", "C"]).find_word(""), Some([0, 0]));
}

#[test]
fn single_character_word() {
    let grid = grid_from(&["AB", "CD"]);
    assert_eq!(grid.find_word("A"), Some([0, 0]));
    assert_eq!(grid.find_word("B"), Some([1, 0]));
    assert_eq!(grid.find_word("C"), Some([0, 1]));
    assert_eq!(grid.find_word("D"), Some([1, 1]));
}

#[test]
fn a_lone_cell_traces_only_the_empty_word() {
    // The trace steps on to a neighbour after every character, and a lone
    // cell has none.
    let grid = grid_from(&["A"]);
    assert_eq!(grid.find_word("A"), None);
    assert_eq!(grid.find_word("AA"), None);
    assert_eq!(grid.find_word(""), Some([0, 0]));
}

#[test]
fn the_first_match_in_row_major_order_is_reported() {
    let grid = grid_from(&["XYX", "YXY", "XYX"]);
    assert_eq!(grid.find_word("X"), Some([0, 0]));
    assert_eq!(grid.find_word("Y"), Some([1, 0]));
    assert_eq!(grid.find_word("YX"), Some([1, 0]));
    let other = grid_from(&["ABCA", "DDDB", "ABDD"]);
    assert_eq!(other.find_word("AB"), Some([0, 0]));
    assert_eq!(other.find_word("BA"), Some([1, 0]));
    assert_eq!(other.find_word("DAB"), Some([0, 1]));
}

#[test]
fn the_start_of_the_match_is_reported() {
    let grid = grid_from(&["....", ".S..", "..U.", "...N"]);
    assert_eq!(grid.find_word("SUN"), Some([1, 1]));
    assert_eq!(grid.find_word("NUS"), Some([3, 3]));
    assert_eq!(grid.find_word("UN"), Some([2, 2]));
}

#[test]
fn a_cell_may_be_used_more_than_once() {
    let grid = grid_from(&["AB"]);
    assert_eq!(grid.find_word("ABAB"), Some([0, 0]));
    assert_eq!(grid.find_word("BABA"), Some([1, 0]));
    assert_eq!(grid.find_word("ABA"), Some([0, 0]));
    let level = grid_from(&["LEV"]);
    assert_eq!(level.find_word("LEVEL"), Some([0, 0]));
}

#[test]
fn a_cell_is_not_its_own_neighbour() {
    let grid = grid_from(&["AB"]);
    assert_eq!(grid.find_word("AA"), None);
    assert_eq!(grid.find_word("ABB"), None);
}

#[test]
fn no_wrap_around_the_border() {
    let grid = grid_from(&["ABC", "DEF"]);
    assert_eq!(grid.find_word("CD"), None);
    assert_eq!(grid.find_word("CA"), None);
    assert_eq!(grid.find_word("AF"), None);
    assert_eq!(grid.find_word("CF"), Some([2, 0]));
}

#[test]
fn all_eight_directions() {
    let grid = grid_from(&["ABC", "DEF", "GHI"]);
    assert_eq!(grid.find_word("EF"), Some([1, 1]));
    assert_eq!(grid.find_word("EI"), Some([1, 1]));
    assert_eq!(grid.find_word("EH"), Some([1, 1]));
    assert_eq!(grid.find_word("EG"), Some([1, 1]));
    assert_eq!(grid.find_word("ED"), Some([1, 1]));
    assert_eq!(grid.find_word("EA"), Some([1, 1]));
    assert_eq!(grid.find_word("EB"), Some([1, 1]));
    assert_eq!(grid.find_word("EC"), Some([1, 1]));
}

#[test]
fn searches_do_not_change_the_grid() {
    let grid = puzzle();
    let before = grid.letters.clone();
    assert_eq!(grid.find_word("MONSTER"), Some([5, 3]));
    assert_eq!(grid.find_word("MONSTER"), Some([5, 3]));
    assert_eq!(grid.find_word("NOTHING"), None);
    assert_eq!(grid.letters, before);
    assert_eq!(grid.width, 16);
    assert_eq!(grid.height, 6);
}

#[test]
fn word_outside_ascii() {
    let grid = grid_from(&["日本", "語ä"]);
    assert_eq!(grid.find_word("本語"), Some([1, 0]));
    assert_eq!(grid.find_word("ä日"), Some([1, 1]));
    assert_eq!(grid.find_word("語語"), None);
}
