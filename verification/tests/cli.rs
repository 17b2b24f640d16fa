use voyna_i_mir::cli::{
    page_from_url, parse_args, parse_u32, sentence_id_from_url, usage, ArgsError, Command, Mode,
    DEFAULT_SENTENCE_ID,
};

fn args(list: &[&str]) -> Vec<String> {
    list.iter().map(|s| s.to_string()).collect()
}

#[test]
fn parse_u32_agrees_with_std_parse() {
    for s in [
        "0", "1", "42", "007", "+5", "+", "-1", "-0", "", " 1", "1 ", "12a", "4294967295",
        "4294967296", "99999999999999999999", "+4294967295", "١٢", "++1",
    ] {
        assert_eq!(parse_u32(s), s.parse::<u32>().ok(), "input {s:?}");
    }
}

#[test]
fn parse_args_reads_mode_and_id() {
    assert_eq!(
        parse_args(&args(&["prog", "sentence", "1"])),
        Ok(Command { mode: Mode::Sentence, id: 1 })
    );
    assert_eq!(
        parse_args(&args(&["prog", "display", "42", "extra"])),
        Ok(Command { mode: Mode::Display, id: 42 })
    );
    assert_eq!(
        parse_args(&args(&["prog", "page2", "+7"])),
        Ok(Command { mode: Mode::Page2, id: 7 })
    );
    assert_eq!(
        parse_args(&args(&["prog", "mp3s", "3"])),
        Ok(Command { mode: Mode::Mp3s, id: 3 })
    );
}

#[test]
fn parse_args_errors() {
    assert_eq!(parse_args(&args(&["prog"])), Err(ArgsError::Usage));
    assert_eq!(parse_args(&args(&["prog", "sentence"])), Err(ArgsError::Usage));
    assert_eq!(
        parse_args(&args(&["prog", "sentence", "x1"])),
        Err(ArgsError::InvalidId("x1".to_string()))
    );
    assert_eq!(
        parse_args(&args(&["prog", "print", "1"])),
        Err(ArgsError::UnknownMode("print".to_string()))
    );
    // an id that does not parse is reported before an unknown mode
    assert_eq!(
        parse_args(&args(&["prog", "print", "x"])),
        Err(ArgsError::InvalidId("x".to_string()))
    );
}

#[test]
fn usage_names_the_program_three_times() {
    assert_eq!(
        usage("voyna"),
        "Usage: voyna sentence <id> | voyna display <id> | voyna page2 <id>"
    );
}

#[test]
fn url_parameters() {
    assert_eq!(sentence_id_from_url(Some("42")), 42);
    assert_eq!(sentence_id_from_url(Some("abc")), DEFAULT_SENTENCE_ID);
    assert_eq!(sentence_id_from_url(None), 1);
    assert_eq!(page_from_url(Some("2")), Some(2));
    assert_eq!(page_from_url(Some("two")), None);
    assert_eq!(page_from_url(None), None);
}

#[test]
fn printing_then_parsing_gives_the_number_back() {
    for n in [0u32, 1, 10, 1805, u32::MAX] {
        let mut s = String::new();
        voyna_i_mir::clause_audio::push_decimal(&mut s, n as u64);
        assert_eq!(parse_u32(&s), Some(n));
    }
}
