use spanning_tree::ingest::edges_of_row;
use spanning_tree::ingest::parse_weight;
use spanning_tree::ingest::WeightError;
use spanning_tree::prim::Prim;
use spanning_tree::solv::Network;
use spanning_tree::solv::Solver;
use std::num::IntErrorKind;

fn by_std(text: &str) -> Result<usize, WeightError> {
    match usize::from_str_radix(text, 10) {
        Ok(weight) => Ok(weight),
        Err(error) => match error.kind() {
            IntErrorKind::Empty => Err(WeightError::Empty),
            IntErrorKind::InvalidDigit => Err(WeightError::InvalidDigit),
            IntErrorKind::PosOverflow => Err(WeightError::Overflow),
            other => panic!("unexpected kind {:?}", other),
        },
    }
}

fn cells(texts: &[&str]) -> Vec<Vec<u8>> {
    texts.iter().map(|t| t.as_bytes().to_vec()).collect()
}

#[test]
fn parse_weight_of_numbers() {
    assert_eq!(parse_weight(b"0"), Ok(0));
    assert_eq!(parse_weight(b"7"), Ok(7));
    assert_eq!(parse_weight(b"120"), Ok(120));
    assert_eq!(parse_weight(b"007"), Ok(7));
    assert_eq!(parse_weight(b"+15"), Ok(15));
    assert_eq!(parse_weight(usize::MAX.to_string().as_bytes()), Ok(usize::MAX));
}

#[test]
fn parse_weight_errors() {
    assert_eq!(parse_weight(b""), Err(WeightError::Empty));
    assert_eq!(parse_weight(b"-"), Err(WeightError::InvalidDigit));
    assert_eq!(parse_weight(b"+"), Err(WeightError::InvalidDigit));
    assert_eq!(parse_weight(b"-5"), Err(WeightError::InvalidDigit));
    assert_eq!(parse_weight(b"++5"), Err(WeightError::InvalidDigit));
    assert_eq!(parse_weight(b" 5"), Err(WeightError::InvalidDigit));
    assert_eq!(parse_weight(b"5 "), Err(WeightError::InvalidDigit));
    assert_eq!(parse_weight(b"1x"), Err(WeightError::InvalidDigit));
    assert_eq!(parse_weight(b"1.5"), Err(WeightError::InvalidDigit));
    assert_eq!(parse_weight(b"18446744073709551616"), Err(WeightError::Overflow));
    assert_eq!(parse_weight(b"99999999999999999999999"), Err(WeightError::Overflow));
}

#[test]
fn parse_weight_agrees_with_std() {
    let fixed = [
        "", "0", "1", "42", "+", "-", "+0", "-0", "+42", "0042", "4 2", "a", "12a", "a12",
        "18446744073709551615", "18446744073709551616", "18446744073709551620",
        "184467440737095516150", "99999999999999999999", "9999999999999999999x",
        "99999999999999999999x", "999999999999999999999999x", "x99999999999999999999999",
        "+18446744073709551615", "+18446744073709551616", "1844674407370955161x",
        "000000000000000000000000000001", "٣", "1_000",
    ];
    for text in fixed {
        assert_eq!(parse_weight(text.as_bytes()), by_std(text), "{:?}", text);
    }
    let alphabet = ['0', '1', '9', '5', '+', '-', 'x', ' '];
    let mut state: u64 = 99;
    for _ in 0..5000 {
        let mut text = String::new();
        state = state.wrapping_mul(6364136223846793005).wrapping_add(1442695040888963407);
        let len = ((state >> 33) % 24) as usize;
        for _ in 0..len {
            state = state.wrapping_mul(6364136223846793005).wrapping_add(1442695040888963407);
            text.push(alphabet[((state >> 33) % 8) as usize]);
        }
        assert_eq!(parse_weight(text.as_bytes()), by_std(&text), "{:?}", text);
    }
}

#[test]
fn edges_of_a_row() {
    let edges = edges_of_row(1, &cells(&["4", "-", "7", "-", "0"])).unwrap();
    let triples: Vec<(usize, usize, usize)> =
        edges.iter().map(|e| (e.u.id, e.v.id, e.weight)).collect();
    assert_eq!(triples, vec![(0, 1, 4), (1, 2, 7), (1, 4, 0)]);
    assert_eq!(edges[0].to_string(), "A<-4->B");
    assert_eq!(edges[2].to_string(), "B<-0->E");
}

#[test]
fn edges_of_an_empty_row() {
    assert!(edges_of_row(3, &cells(&[])).unwrap().is_empty());
    assert!(edges_of_row(3, &cells(&["-", "-"])).unwrap().is_empty());
}

#[test]
fn edges_of_a_row_first_error() {
    assert_eq!(edges_of_row(0, &cells(&["1", "", "x"])).unwrap_err(), WeightError::Empty);
    assert_eq!(edges_of_row(0, &cells(&["1", "x", ""])).unwrap_err(), WeightError::InvalidDigit);
    assert_eq!(edges_of_row(0, &cells(&["-", "--", "2"])).unwrap_err(), WeightError::InvalidDigit);
    assert_eq!(
        edges_of_row(0, &cells(&["-", "99999999999999999999999", "y"])).unwrap_err(),
        WeightError::Overflow
    );
}

#[test]
fn matrix_to_tree() {
    let matrix = [
        vec!["-", "16", "12", "21", "-", "-", "-"],
        vec!["16", "-", "-", "17", "20", "-", "-"],
        vec!["12", "-", "-", "28", "-", "31", "-"],
        vec!["21", "17", "28", "-", "18", "19", "23"],
        vec!["-", "20", "-", "18", "-", "-", "11"],
        vec!["-", "-", "31", "19", "-", "-", "27"],
        vec!["-", "-", "-", "23", "11", "27", "-"],
    ];
    let mut network = Network::default();
    for (row, texts) in matrix.iter().enumerate() {
        for edge in edges_of_row(row, &cells(texts)).unwrap() {
            network.insert_edge(edge);
        }
    }
    assert_eq!(network.edges().len(), 24);
    network.remove_duplicate();
    assert_eq!(network.edges().len(), 12);
    assert_eq!(network.cost(), 243);
    let tree = Prim::solve(network);
    assert_eq!(tree.cost(), 93);
    assert_eq!(tree.edges().len(), 6);
}
