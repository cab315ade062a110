//! Files assembled from a fixed stock of pieces, read by the library and by
//! a direct reading with the standard library's own line splitting, token
//! splitting and number parsing.

use lut_rs::cube::{parse_cube_file, CubeFileError};

#[derive(Debug, PartialEq)]
enum Outcome {
    Table(Vec<[u8; 3]>, usize),
    NoSize,
    Mismatch,
    BadNumber(usize, String),
}

fn read_directly(text: &str) -> Outcome {
    let mut table: Vec<[u8; 3]> = Vec::new();
    let mut size: Option<usize> = None;
    for (index, line) in text.lines().enumerate() {
        if line.starts_with('#') || line.trim().is_empty() {
            continue;
        }
        let tokens: Vec<&str> = line.split_whitespace().collect();
        if tokens.len() == 2 && tokens[0] == "LUT_3D_SIZE" {
            match tokens[1].parse::<usize>() {
                Ok(n) => size = Some(n),
                Err(_) => return Outcome::BadNumber(index + 1, tokens[1].to_string()),
            }
        } else if tokens.len() == 3 {
            let mut color = [0u8; 3];
            for (slot, token) in color.iter_mut().zip(&tokens) {
                match token.parse::<f32>() {
                    Ok(value) => *slot = (value * 255.0).round() as u8,
                    Err(_) => return Outcome::BadNumber(index + 1, token.to_string()),
                }
            }
            table.push(color);
        }
    }
    match size {
        None => Outcome::NoSize,
        Some(n) => {
            let cells = n.checked_mul(n).and_then(|square| square.checked_mul(n));
            if cells == Some(table.len()) {
                Outcome::Table(table, n)
            } else {
                Outcome::Mismatch
            }
        }
    }
}

fn read_with_library(text: &str) -> Outcome {
    match parse_cube_file(text) {
        Ok((table, size)) => Outcome::Table(table, size),
        Err(CubeFileError::MissingSizeDirective) => Outcome::NoSize,
        Err(CubeFileError::SizeMismatch) => Outcome::Mismatch,
        Err(CubeFileError::MalformedNumber { line, token }) => Outcome::BadNumber(line, token),
    }
}

/// A small generator of repeatable choices.
struct Choices(u64);

impl Choices {
    fn next(&mut self, bound: usize) -> usize {
        self.0 = self
            .0
            .wrapping_mul(6364136223846793005)
            .wrapping_add(1442695040888963407);
        ((self.0 >> 33) as usize) % bound
    }
}

const PIECES: [&str; 48] = [
    "0", "1", "0.5", "0.25", ".75", "1.", "1e0", "5e-1", "-1", "+0.5", "2", "0.125", "inf", "-inf",
    "nan", "1e400", "1E-400", "0.000", "LUT_3D_SIZE", "LUT_3D_SIZE", "lut_3d_size", "1", "2", "0",
    "+1", "3", "x", "1..", "e", "-", "1e", "0x1", "#", "#note", "TITLE", " ", " ", " ", "  ", "\t",
    "\r", "\u{a0}", "\u{2003}", "\n", "\n", "\n", "\r\n", "\n\n",
];

#[test]
fn assembled_files_read_the_same_both_ways() {
    let mut choices = Choices(2024);
    for _ in 0..20000 {
        let mut text = String::new();
        let count = choices.next(24);
        for _ in 0..count {
            text.push_str(PIECES[choices.next(PIECES.len())]);
            if choices.next(3) > 0 {
                text.push(' ');
            }
        }
        assert_eq!(read_with_library(&text), read_directly(&text), "{:?}", text);
    }
}

#[test]
fn assembled_tables_read_the_same_both_ways() {
    let numbers = ["0", "1", "0.5", "0.25", ".75", "1.", "1e0", "5e-1", "-1", "+0.5", "2", "inf", "nan"];
    let gaps = [" ", "  ", "\t", " \t ", "\u{3000}"];
    let ends = ["\n", "\r\n", "\n\n", "\n# note\n", " \n", "\n \n"];
    let mut choices = Choices(7);
    for round in 0..3000 {
        let size = 1 + choices.next(3);
        let rows = if round % 5 == 0 { size * size * size + choices.next(3) } else { size * size * size };
        let mut text = String::new();
        if choices.next(8) > 0 {
            text.push_str(&format!("LUT_3D_SIZE{}{}", gaps[choices.next(gaps.len())], size));
            text.push_str(ends[choices.next(ends.len())]);
        }
        for _ in 0..rows {
            for channel in 0..3 {
                text.push_str(numbers[choices.next(numbers.len())]);
                if channel < 2 {
                    text.push_str(gaps[choices.next(gaps.len())]);
                }
            }
            text.push_str(ends[choices.next(ends.len())]);
        }
        assert_eq!(read_with_library(&text), read_directly(&text), "{:?}", text);
    }
}
