use vector_index::ml_interface::{Embedding, EmbeddingError, TokenizerInterface};
use vector_index::request::{body_of, find, first_word, id_of, route_of, second_piece, stands_at, Route};

fn text_of(request: &str, range: Option<(usize, usize)>) -> Option<&str> {
    range.map(|(start, end)| &request[start..end])
}

#[test]
fn routes_by_leading_words() {
    assert!(route_of(b"POST /insert HTTP/1.1\r\n\r\n{}") == Route::Insert);
    assert!(route_of(b"GET /get?id=7 HTTP/1.1") == Route::Get);
    assert!(route_of(b"POST /shutdown") == Route::Shutdown);
    assert!(route_of(b"POST /insertion") == Route::Insert);
    assert!(route_of(b"POST /inser") == Route::NotFound);
    assert!(route_of(b" GET /get") == Route::NotFound);
    assert!(route_of(b"DELETE /get") == Route::NotFound);
    assert!(route_of(b"") == Route::NotFound);
}

#[test]
fn pattern_search_finds_first_place() {
    let text = b"abcabcab";
    assert!(stands_at(text, 0, b"abc"));
    assert!(stands_at(text, 3, b"abc"));
    assert!(!stands_at(text, 6, b"abc"));
    assert!(!stands_at(text, 9, b""));
    assert!(stands_at(text, 8, b""));
    assert_eq!(find(text, 0, b"abc"), Some(0));
    assert_eq!(find(text, 1, b"abc"), Some(3));
    assert_eq!(find(text, 4, b"abc"), None);
    assert_eq!(find(text, 0, b"x"), None);
    assert_eq!(find(text, 100, b"a"), None);
    assert_eq!(find(text, 8, b""), Some(8));
}

#[test]
fn body_is_the_second_piece() {
    let request = "POST /insert HTTP/1.1\r\nHost: x\r\n\r\n{\"entry\":\"hello\"}";
    assert_eq!(text_of(request, body_of(request.as_bytes())), Some("{\"entry\":\"hello\"}"));
    assert_eq!(text_of(request, body_of(request.as_bytes())), request.split("\r\n\r\n").nth(1));
    let two = "head\r\n\r\nbody\r\n\r\nrest";
    assert_eq!(text_of(two, body_of(two.as_bytes())), Some("body"));
    let none = "POST /insert HTTP/1.1\r\nHost: x\r\n";
    assert_eq!(body_of(none.as_bytes()), None);
    let empty = "head\r\n\r\n";
    assert_eq!(text_of(empty, body_of(empty.as_bytes())), Some(""));
    let overlap = "a\r\n\r\n\r\nb";
    assert_eq!(text_of(overlap, body_of(overlap.as_bytes())), overlap.split("\r\n\r\n").nth(1));
}

#[test]
fn second_piece_agrees_with_split() {
    for text in ["a--b--c", "--", "----", "a", "", "a--", "--a", "a-b--c-d--e"] {
        assert_eq!(text_of(text, second_piece(text.as_bytes(), b"--")), text.split("--").nth(1));
    }
}

#[test]
fn id_is_first_word_behind_mark() {
    let request = "GET /get?id=hello%20world HTTP/1.1\r\nHost: x\r\n\r\n";
    assert_eq!(text_of(request, id_of(request.as_bytes())), Some("hello%20world"));
    let spaced = "GET /get?id=  \t abc def";
    assert_eq!(text_of(spaced, id_of(spaced.as_bytes())), Some("abc"));
    let blank = "GET /get?id=   ";
    assert_eq!(text_of(blank, id_of(blank.as_bytes())), Some(""));
    let twice = "GET /get?id=?id=later";
    assert_eq!(text_of(twice, id_of(twice.as_bytes())), Some(""));
    let cut = "GET /get?id=ab?id=cd";
    assert_eq!(text_of(cut, id_of(cut.as_bytes())), Some("ab"));
    assert_eq!(id_of(b"GET /get HTTP/1.1"), None);
    for text in ["x?id=7 y", "?id=", "?id=\n9\n", "q?id= a?id=b"] {
        let want = text.split("?id=").nth(1).map(|rest| rest.split_whitespace().next().unwrap_or(""));
        assert_eq!(text_of(text, id_of(text.as_bytes())), want);
    }
}

#[test]
fn first_word_passes_over_white_space() {
    let text = b"  ab\tcd ";
    assert_eq!(first_word(text, 0, text.len()), (2, 4));
    assert_eq!(first_word(text, 4, text.len()), (5, 7));
    assert_eq!(first_word(text, 7, text.len()), (8, 8));
    assert_eq!(first_word(text, 2, 3), (2, 3));
    assert_eq!(first_word(text, 0, 0), (0, 0));
}

#[test]
fn embedding_table_needs_two_dimensions() {
    let table = match Embedding::load(&vec![4096, 32000]) {
        Ok(table) => table,
        Err(_) => panic!("a table of two dimensions should load"),
    };
    assert_eq!(table.input_dim(), 4096);
    assert_eq!(table.output_dim(), 32000);
    assert!(matches!(Embedding::load(&vec![7]), Err(EmbeddingError::NotTwoDimensional(1))));
    assert!(matches!(Embedding::load(&vec![]), Err(EmbeddingError::NotTwoDimensional(0))));
    assert!(matches!(Embedding::load(&vec![1, 2, 3]), Err(EmbeddingError::NotTwoDimensional(3))));
}

#[test]
fn embedding_index_must_name_a_column() {
    let table = match Embedding::load(&vec![10, 20]) {
        Ok(table) => table,
        Err(_) => panic!("a table of two dimensions should load"),
    };
    assert!(matches!(table.forward(0), Ok(0)));
    assert!(matches!(table.forward(19), Ok(19)));
    assert!(matches!(table.forward(20), Err(EmbeddingError::InvalidIndex(20, 10))));
    assert!(matches!(table.forward(-1), Err(EmbeddingError::InvalidIndex(-1, 10))));
}

struct Lengths;

impl TokenizerInterface for Lengths {
    fn encode(&self, text: &str) -> Vec<usize> {
        text.split(' ').map(|word| word.len()).collect()
    }
}

#[test]
fn tokenizer_boundary_can_be_implemented() {
    assert_eq!(Lengths.encode("to be or"), vec![2, 2, 2]);
}
