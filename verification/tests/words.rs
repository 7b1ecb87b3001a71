use cango::command::{parse_command_str, CommandError};
use cango::gtp::{is_single_token, Color, GTPMove, GenMove, GtpError, Status, Vertex};
use cango::protocol::{
    check_response, command_line, command_with_number, command_with_word, frame, is_complete,
    known_command_text, parse_known, parse_vertices, response_text, score_color,
    set_free_handicap_text, split_score, words, GTPEngineRaw,
};
use cango::text::{
    chars_of, code, decimal_chars, parse_u32, push_chars, split_whitespace, string_of, word_bounds,
};

fn text(v: Vec<char>) -> String {
    v.into_iter().collect()
}

#[test]
fn vertex_text_skips_the_letter_i() {
    assert_eq!(Vertex::Pass.to_string(), Ok("pass".to_string()));
    assert_eq!(Vertex::Coordinate(0, 0).to_string(), Ok("A1".to_string()));
    assert_eq!(Vertex::Coordinate(7, 8).to_string(), Ok("H9".to_string()));
    assert_eq!(Vertex::Coordinate(8, 9).to_string(), Ok("J10".to_string()));
    assert_eq!(Vertex::Coordinate(18, 18).to_string(), Ok("T19".to_string()));
    assert_eq!(Vertex::Coordinate(24, 24).to_string(), Ok("Z25".to_string()));
}

#[test]
fn vertex_text_needs_coordinates_under_25() {
    assert_eq!(Vertex::Coordinate(25, 0).to_string(), Err(GtpError::VertexOutOfRange));
    assert_eq!(Vertex::Coordinate(0, 25).to_string(), Err(GtpError::VertexOutOfRange));
    assert_eq!(
        Vertex::Coordinate(u32::MAX, u32::MAX).to_string(),
        Err(GtpError::VertexOutOfRange)
    );
}

#[test]
fn vertex_is_read_in_either_case() {
    assert_eq!(Vertex::from_string("pass"), Ok(Vertex::Pass));
    assert_eq!(Vertex::from_string("A1"), Ok(Vertex::Coordinate(0, 0)));
    assert_eq!(Vertex::from_string("a1"), Ok(Vertex::Coordinate(0, 0)));
    assert_eq!(Vertex::from_string("H9"), Ok(Vertex::Coordinate(7, 8)));
    assert_eq!(Vertex::from_string("J10"), Ok(Vertex::Coordinate(8, 9)));
    assert_eq!(Vertex::from_string("t19"), Ok(Vertex::Coordinate(18, 18)));
    assert_eq!(Vertex::from_string("Z25"), Ok(Vertex::Coordinate(24, 24)));
    assert_eq!(Vertex::from_string("B+7"), Ok(Vertex::Coordinate(1, 6)));
    assert_eq!(Vertex::from_string("C007"), Ok(Vertex::Coordinate(2, 6)));
    assert_eq!(Vertex::from_string("[5"), Ok(Vertex::Coordinate(25, 4)));
    assert_eq!(Vertex::from_string("A4294967295"), Ok(Vertex::Coordinate(0, 4294967294)));
}

#[test]
fn vertex_reading_names_each_fault() {
    assert_eq!(Vertex::from_string(""), Err(GtpError::VertexTooShort));
    assert_eq!(Vertex::from_string("A"), Err(GtpError::VertexTooShort));
    assert_eq!(Vertex::from_string("I5"), Err(GtpError::IllegalVertex));
    assert_eq!(Vertex::from_string("i5"), Err(GtpError::IllegalVertex));
    assert_eq!(Vertex::from_string("15"), Err(GtpError::IllegalVertex));
    assert_eq!(Vertex::from_string("{5"), Err(GtpError::IllegalVertex));
    assert_eq!(Vertex::from_string("é"), Err(GtpError::IllegalVertex));
    assert_eq!(Vertex::from_string("é5"), Err(GtpError::IllegalVertex));
    assert_eq!(Vertex::from_string("A0"), Err(GtpError::IllegalVertex));
    assert_eq!(Vertex::from_string("PASS"), Err(GtpError::BadNumber));
    assert_eq!(Vertex::from_string("A-1"), Err(GtpError::BadNumber));
    assert_eq!(Vertex::from_string("A 1"), Err(GtpError::BadNumber));
    assert_eq!(Vertex::from_string("A1 "), Err(GtpError::BadNumber));
    assert_eq!(Vertex::from_string("A+"), Err(GtpError::BadNumber));
    assert_eq!(Vertex::from_string("A4294967296"), Err(GtpError::BadNumber));
}

#[test]
fn every_vertex_with_a_text_is_read_back() {
    for x in 0..25 {
        for y in 0..25 {
            let vertex = Vertex::Coordinate(x, y);
            let written = vertex.to_string().unwrap();
            assert_eq!(Vertex::from_string(&written), Ok(vertex));
            assert_eq!(Vertex::from_string(&written.to_lowercase()), Ok(vertex));
        }
    }
    assert_eq!(Vertex::from_string(&Vertex::Pass.to_string().unwrap()), Ok(Vertex::Pass));
}

#[test]
fn colour_status_and_move_texts() {
    assert_eq!(Color::Black.to_string(), "B");
    assert_eq!(Color::White.to_string(), "W");
    assert_eq!(Status::Alive.to_string(), "alive");
    assert_eq!(Status::Seki.to_string(), "seki");
    assert_eq!(Status::Dead.to_string(), "dead");
    assert_eq!(
        GTPMove::new(Color::Black, Vertex::Coordinate(0, 1)).to_string(),
        Ok("B A2".to_string())
    );
    assert_eq!(GTPMove::new(Color::White, Vertex::Pass).to_string(), Ok("W pass".to_string()));
    assert_eq!(
        GTPMove::new(Color::White, Vertex::Coordinate(30, 1)).to_string(),
        Err(GtpError::VertexOutOfRange)
    );
}

#[test]
fn single_token_means_exactly_one_word() {
    assert!(is_single_token("known_command"));
    assert!(is_single_token(" a "));
    assert!(is_single_token("\tB+3.5\n"));
    assert!(!is_single_token(""));
    assert!(!is_single_token("   "));
    assert!(!is_single_token("a b"));
    assert!(!is_single_token("a\u{3000}b"));
}

#[test]
fn decimal_numerals() {
    assert_eq!(text(decimal_chars(0)), "0");
    assert_eq!(text(decimal_chars(7)), "7");
    assert_eq!(text(decimal_chars(10)), "10");
    assert_eq!(text(decimal_chars(1905)), "1905");
    assert_eq!(text(decimal_chars(u32::MAX)), "4294967295");
    for n in [0u32, 1, 9, 10, 99, 100, 12345, 4294967294, u32::MAX] {
        assert_eq!(text(decimal_chars(n)), n.to_string());
    }
}

#[test]
fn numbers_are_read_as_the_standard_library_reads_them() {
    let cases = [
        "", "+", "-", "0", "00", "+0", "-0", "7", "+7", "++7", "007", "42", "4 2", " 42", "42 ",
        "4_2", "4294967295", "4294967296", "04294967295", "4294967300", "99999999999", "12a",
        "a12", "１２", "+-1", "1+", "4294967290", "4294967289", "429496729", "4294967305",
    ];
    for case in cases {
        let chars = chars_of(case);
        assert_eq!(parse_u32(&chars, 0), case.parse::<u32>().ok(), "{}", case);
    }
    let chars = chars_of("A19");
    assert_eq!(parse_u32(&chars, 1), Some(19));
    assert_eq!(parse_u32(&chars, 3), None);
}

#[test]
fn characters_and_strings() {
    assert_eq!(code('A'), 65);
    assert_eq!(code('é'), 233);
    assert_eq!(chars_of("héé"), vec!['h', 'é', 'é']);
    assert_eq!(chars_of(""), Vec::<char>::new());
    let chars = chars_of("hello");
    assert_eq!(string_of(&chars, 1, 4), "ell");
    assert_eq!(string_of(&chars, 2, 2), "");
    let mut s = String::from("ab");
    push_chars(&mut s, &chars);
    assert_eq!(s, "abhello");
}

#[test]
fn words_are_split_as_the_standard_library_splits_them() {
    let cases = [
        "",
        " ",
        "a",
        " a",
        "a ",
        "one two",
        "  one \t two\r\n three  ",
        "= 1\n\n",
        "a\u{a0}b\u{2003}c\u{3000}",
        "x\u{200b}y z",
        "\u{85}q\u{1680}r\u{2028}s\u{2029}t\u{202f}u\u{205f}v",
    ];
    for case in cases {
        let expected: Vec<&str> = case.split_whitespace().collect();
        assert_eq!(split_whitespace(case), expected, "{:?}", case);
        assert_eq!(words(case), expected, "{:?}", case);
        assert_eq!(is_single_token(case), expected.len() == 1, "{:?}", case);
    }
    assert_eq!(word_bounds(&chars_of(" ab  c")), vec![(1, 3), (5, 6)]);
}

#[test]
fn command_line_has_program_and_arguments() {
    assert_eq!(parse_command_str("katago.exe gtp"), Ok(("katago.exe", vec!["gtp"])));
    assert_eq!(
        parse_command_str("  ./katago   gtp -model\tm.bin.gz "),
        Ok(("./katago", vec!["gtp", "-model", "m.bin.gz"]))
    );
    assert_eq!(parse_command_str("ls"), Ok(("ls", vec![])));
    assert_eq!(parse_command_str(""), Err(CommandError::Empty));
    assert_eq!(parse_command_str(" \t\n"), Err(CommandError::Empty));
}

#[test]
fn command_texts() {
    assert_eq!(command_line(7, "boardsize 19"), "7 boardsize 19");
    assert_eq!(command_line(0, ""), "0 ");
    assert_eq!(command_with_number("boardsize", 19), "boardsize 19");
    assert_eq!(command_with_number("fixed_handicap", 0), "fixed_handicap 0");
    assert_eq!(command_with_word("genmove", "B"), "genmove B");
    assert_eq!(known_command_text("asdf"), Ok("known_command asdf".to_string()));
    assert_eq!(known_command_text("a b"), Err(GtpError::NotSingleToken));
    assert_eq!(known_command_text(""), Err(GtpError::NotSingleToken));
    assert_eq!(
        set_free_handicap_text(&vec![Vertex::Coordinate(0, 0), Vertex::Coordinate(18, 18)]),
        Ok("set_free_handicap A1 T19".to_string())
    );
    assert_eq!(set_free_handicap_text(&vec![]), Ok("set_free_handicap".to_string()));
    assert_eq!(
        set_free_handicap_text(&vec![Vertex::Pass, Vertex::Coordinate(25, 0)]),
        Err(GtpError::VertexOutOfRange)
    );
}

#[test]
fn framing_of_commands_and_responses() {
    assert_eq!(frame("  1 name \n"), "1 name\n\n");
    assert_eq!(frame("quit"), "quit\n\n");
    assert_eq!(frame("   "), "\n\n");
    assert!(is_complete(&b"=1 ok\n\n".to_vec()));
    assert!(is_complete(&b"=1 ok\r\n\r\n".to_vec()));
    assert!(is_complete(&b"\n\n".to_vec()));
    assert!(!is_complete(&b"=1 ok\n".to_vec()));
    assert!(!is_complete(&b"=1 ok\r\n".to_vec()));
    assert!(!is_complete(&b"=1 ok\n\r\n".to_vec()));
    assert!(!is_complete(&b"\n\n ".to_vec()));
    assert!(!is_complete(&Vec::new()));
    assert_eq!(response_text(b"  =1 ok\n\n".to_vec()), Some("=1 ok".to_string()));
    assert_eq!(response_text("=2 é\r\n\r\n".as_bytes().to_vec()), Some("=2 é".to_string()));
    assert_eq!(response_text(vec![0x3d, 0xff, 0x0a]), None);
    assert_eq!(response_text(vec![0xc3]), None);
}

#[test]
fn response_is_held_against_the_number_of_its_command() {
    assert_eq!(check_response(1, "=1 ok".to_string()), Ok("ok".to_string()));
    assert_eq!(check_response(1, "=1".to_string()), Ok("".to_string()));
    assert_eq!(check_response(12, "=12   A1 B2 ".to_string()), Ok("A1 B2 ".to_string()));
    assert_eq!(
        check_response(3, "?3 unknown command".to_string()),
        Err(GtpError::Failure("unknown command".to_string()))
    );
    assert_eq!(
        check_response(3, "=4 ok".to_string()),
        Err(GtpError::Unexpected("=4 ok".to_string()))
    );
    assert_eq!(
        check_response(3, "= 3 ok".to_string()),
        Err(GtpError::Unexpected("= 3 ok".to_string()))
    );
    assert_eq!(check_response(3, "".to_string()), Err(GtpError::EmptyResponse));
    assert_eq!(check_response(3, " \n".to_string()), Err(GtpError::EmptyResponse));
    // The cut is made after as many characters as the first word has.
    assert_eq!(check_response(1, " =1 ok".to_string()), Ok("1 ok".to_string()));
}

#[test]
fn answers_of_the_engine() {
    assert_eq!(parse_known("true"), Ok(true));
    assert_eq!(parse_known("false"), Ok(false));
    assert_eq!(parse_known("True"), Err(GtpError::BadAnswer));
    assert_eq!(parse_known(""), Err(GtpError::BadAnswer));
    assert_eq!(GenMove::from_string("resign"), Ok(GenMove::Resign));
    assert_eq!(GenMove::from_string("pass"), Ok(GenMove::Play(Vertex::Pass)));
    assert_eq!(GenMove::from_string("D4"), Ok(GenMove::Play(Vertex::Coordinate(3, 3))));
    assert_eq!(GenMove::from_string("Resign"), Err(GtpError::BadNumber));
    assert_eq!(GenMove::from_string("x"), Err(GtpError::VertexTooShort));
    assert_eq!(
        parse_vertices("D4 Q16  pass"),
        Ok(vec![Vertex::Coordinate(3, 3), Vertex::Coordinate(15, 15), Vertex::Pass])
    );
    assert_eq!(parse_vertices(""), Ok(vec![]));
    assert_eq!(parse_vertices("D4 I4 x"), Err(GtpError::IllegalVertex));
    assert_eq!(parse_vertices("D4 x I4"), Err(GtpError::VertexTooShort));
}

#[test]
fn score_is_cut_at_its_only_plus_sign() {
    assert_eq!(split_score("0"), Ok(None));
    assert_eq!(split_score("B+3.5"), Ok(Some(("B", "3.5"))));
    assert_eq!(split_score("W+12"), Ok(Some(("W", "12"))));
    assert_eq!(split_score("+"), Ok(Some(("", ""))));
    assert_eq!(split_score(" B+1"), Ok(Some((" B", "1"))));
    assert_eq!(split_score("B+1+2"), Err(GtpError::IllegalScore));
    assert_eq!(split_score("B3.5"), Err(GtpError::IllegalScore));
    assert_eq!(split_score(" 0 "), Err(GtpError::IllegalScore));
    assert_eq!(split_score(""), Err(GtpError::NotSingleToken));
    assert_eq!(split_score("B + 1"), Err(GtpError::NotSingleToken));
    assert_eq!(score_color("B"), Ok(Color::Black));
    assert_eq!(score_color("W"), Ok(Color::White));
    assert_eq!(score_color("b"), Err(GtpError::IllegalScore));
    assert_eq!(score_color(" B"), Err(GtpError::IllegalScore));
}

struct Scripted {
    id: u32,
    answers: Vec<Result<String, GtpError>>,
    sent: std::cell::RefCell<Vec<String>>,
    writable: bool,
}

impl GTPEngineRaw for Scripted {
    fn gen_command_id(&mut self) -> u32 {
        self.id += 1;
        self.id
    }

    fn write_to_engine(&self, s: &str) -> Result<(), GtpError> {
        if self.writable {
            self.sent.borrow_mut().push(s.to_string());
            Ok(())
        } else {
            Err(GtpError::Io("closed".to_string()))
        }
    }

    fn read_from_engine(&mut self) -> Result<String, GtpError> {
        self.answers.remove(0)
    }
}

struct Unnumbered;

impl GTPEngineRaw for Unnumbered {
    fn write_to_engine(&self, _s: &str) -> Result<(), GtpError> {
        Ok(())
    }

    fn read_from_engine(&mut self) -> Result<String, GtpError> {
        Ok("=0 fine".to_string())
    }
}

#[test]
fn send_command_numbers_the_command_and_reads_the_answer() {
    let mut engine = Scripted {
        id: 0,
        answers: vec![
            Ok("=1 2".to_string()),
            Ok("?2 illegal move".to_string()),
            Ok("=2 late".to_string()),
            Err(GtpError::Io("eof".to_string())),
        ],
        sent: std::cell::RefCell::new(Vec::new()),
        writable: true,
    };
    assert_eq!(engine.send_command("protocol_version"), Ok("2".to_string()));
    assert_eq!(
        engine.send_command("play B A1"),
        Err(GtpError::Failure("illegal move".to_string()))
    );
    assert_eq!(engine.send_command("name"), Err(GtpError::Unexpected("=2 late".to_string())));
    assert_eq!(engine.send_command("version"), Err(GtpError::Io("eof".to_string())));
    assert_eq!(
        *engine.sent.borrow(),
        vec!["1 protocol_version", "2 play B A1", "3 name", "4 version"]
    );
    engine.writable = false;
    assert_eq!(engine.send_command("quit"), Err(GtpError::Io("closed".to_string())));
    assert_eq!(Unnumbered.send_command("name"), Ok("fine".to_string()));
}
