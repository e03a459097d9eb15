use reading_log::actions::Action;
use reading_log::commands::{
    add_bookmark, add_reading, average_since, currently_reading_since, find_reading, reading_avg,
    remove_reading, reset_reading, search_keyword, show_bookmarks, stats_since,
};
use reading_log::parser::{Effect, Parser};
use reading_log::text::{
    chars_less, contains_text, is_whitespace, parse_u32, parse_u64, same_text, split_command, trim_text,
};

fn parse(words: Vec<&str>) -> (Effect, Result<(), &'static str>) {
    let mut p = Parser::new(words);
    assert!(p.can_parse());
    p.parse()
}

#[test]
fn numbers_parse_as_rust_does() {
    assert_eq!(parse_u32("42"), Some(42));
    assert_eq!(parse_u32("+7"), Some(7));
    assert_eq!(parse_u32("007"), Some(7));
    assert_eq!(parse_u32("4294967295"), Some(4294967295));
    assert_eq!(parse_u32("4294967296"), None);
    assert_eq!(parse_u32("-1"), None);
    assert_eq!(parse_u32(""), None);
    assert_eq!(parse_u32("+"), None);
    assert_eq!(parse_u32("1 "), None);
    assert_eq!(parse_u32("12a"), None);
    assert_eq!(parse_u64("18446744073709551615"), Some(u64::MAX));
    assert_eq!(parse_u64("18446744073709551616"), None);
    for s in ["0", "99", "+3", "x", "", "-0", "123456789012"] {
        assert_eq!(parse_u32(s), s.parse::<u32>().ok());
    }
}

#[test]
fn text_helpers() {
    assert!(same_text("abc", "abc"));
    assert!(!same_text("abc", "abd"));
    assert!(!same_text("ab", "abc"));
    assert!(contains_text("the hobbit", "hob"));
    assert!(contains_text("the hobbit", ""));
    assert!(!contains_text("the hobbit", "Hob"));
    assert!(!contains_text("ab", "abc"));
    assert!(contains_text("ééa", "éa"));
    let a: Vec<char> = "apple".chars().collect();
    let b: Vec<char> = "apricot".chars().collect();
    let c: Vec<char> = "app".chars().collect();
    assert!(chars_less(&a, &b));
    assert!(!chars_less(&b, &a));
    assert!(chars_less(&c, &a));
    assert!(!chars_less(&a, &a));
}

#[test]
fn add_command_dispatches_the_new_reading() {
    let (effect, result) = parse(vec!["add", "Dune", "Frank Herbert", "412"]);
    assert_eq!(result, Ok(()));
    match effect {
        Effect::Dispatch(Action::AddReading((title, author, pages))) => {
            assert_eq!(title, "Dune");
            assert_eq!(author, "Frank Herbert");
            assert_eq!(pages, 412);
        },
        other => panic!("unexpected {:?}", other),
    }
}

#[test]
fn missing_parameters_dispatch_nothing() {
    let (effect, result) = parse(vec!["add", "Dune"]);
    assert!(matches!(effect, Effect::Nothing));
    assert_eq!(result, Ok(()));
    let mut p = Parser::new(vec!["Dune"]);
    assert!(add_reading(&mut p).is_err());
}

#[test]
fn leftover_words_are_reported_after_the_effect() {
    let (effect, result) = parse(vec!["finished", "now"]);
    assert!(matches!(effect, Effect::Dispatch(Action::ShowFinished)));
    assert_eq!(result, Err("Parse Error: Trailing Words"));
}

#[test]
fn empty_line_is_not_recognized() {
    let (effect, result) = parse(vec![]);
    assert!(matches!(effect, Effect::Nothing));
    assert_eq!(result, Err("Parse Error: Command Not Recognized"));
}

#[test]
fn program_commands() {
    assert!(matches!(parse(vec!["exit"]).0, Effect::Exit));
    assert!(matches!(parse(vec!["exit", "extra"]), (Effect::Exit, Ok(()))));
    assert!(matches!(parse(vec!["help"]), (Effect::Help, Ok(()))));
    assert!(matches!(parse(vec!["time"]), (Effect::BestTime, Ok(()))));
    assert!(matches!(parse(vec!["frobnicate"]), (Effect::Unknown, Ok(()))));
    assert!(matches!(parse(vec!["random"]).0, Effect::Dispatch(Action::ReadRandom)));
    assert!(matches!(parse(vec!["last"]).0, Effect::Dispatch(Action::ShowOldestRead)));
    assert!(matches!(parse(vec!["save"]).0, Effect::Dispatch(Action::SaveData)));
    assert!(matches!(parse(vec!["++"]).0, Effect::Dispatch(Action::SaveData)));
    assert!(matches!(parse(vec!["unfinished"]).0, Effect::Dispatch(Action::ShowUnfinished)));
}

#[test]
fn id_commands() {
    assert!(matches!(parse(vec!["id", "3"]).0, Effect::Dispatch(Action::FindByID(3))));
    assert!(matches!(parse(vec!["$", "4"]).0, Effect::Dispatch(Action::FindByID(4))));
    assert!(matches!(parse(vec!["finish", "2"]).0, Effect::Dispatch(Action::FinishReading(2))));
    assert!(matches!(parse(vec!["undo", "2"]).0, Effect::Dispatch(Action::UndoBookmark(2))));
    assert!(matches!(parse(vec!["rm", "5"]).0, Effect::Dispatch(Action::RemoveReading(5))));
    assert!(matches!(parse(vec!["reset", "6"]).0, Effect::Dispatch(Action::ResetReading(6))));
    assert!(matches!(parse(vec!["bookmarks", "1"]).0, Effect::Dispatch(Action::ShowBookmarks(1))));
    assert!(matches!(parse(vec!["bookmark", "1", "50"]).0, Effect::Dispatch(Action::AddBookmark(1, 50))));
    assert!(matches!(parse(vec!["!!", "1", "60"]).0, Effect::Dispatch(Action::AddBookmark(1, 60))));
    assert!(matches!(parse(vec!["avg", "7"]).0, Effect::Dispatch(Action::ShowAverage(7, _))));
    match parse(vec!["edit", "1", "title", "Emma"]).0 {
        Effect::Dispatch(Action::EditReading(1, prop, value)) => {
            assert_eq!(prop, "title");
            assert_eq!(value, "Emma");
        },
        other => panic!("unexpected {:?}", other),
    }
    match parse(vec!["show", "all"]).0 {
        Effect::Dispatch(Action::ShowFilter(f)) => assert_eq!(f, "all"),
        other => panic!("unexpected {:?}", other),
    }
}

#[test]
fn bad_ids_are_errors() {
    assert!(matches!(parse(vec!["rm", "x"]), (Effect::Nothing, Ok(()))));
    let mut p = Parser::new(vec!["x"]);
    assert_eq!(remove_reading(&mut p).unwrap_err(), "Invalid ID parameter was supplied");
    let mut p = Parser::new(vec!["x"]);
    assert_eq!(reset_reading(&mut p).unwrap_err(), "Invalid ID parameter was supplied");
    let mut p = Parser::new(vec!["x"]);
    assert_eq!(show_bookmarks(&mut p).unwrap_err(), "Parse Error: ID provided was not in integer format");
    let mut p = Parser::new(vec!["x"]);
    assert_eq!(find_reading(&mut p).unwrap_err(), "Parse Error: ID provided was not in integer format");
    let mut p = Parser::new(vec!["x"]);
    assert_eq!(reading_avg(&mut p).unwrap_err(), "Parse Error: Days provided was not in integer format");
    let mut p = Parser::new(vec![]);
    assert_eq!(find_reading(&mut p).unwrap_err(), "Parse Error: Command Not Recognized");
}

#[test]
fn unparsable_numbers_that_would_panic_are_caught() {
    assert!(!Parser::new(vec!["add", "a", "b", "many"]).can_parse());
    assert!(!Parser::new(vec!["edit", "x"]).can_parse());
    assert!(!Parser::new(vec!["finish", "x"]).can_parse());
    assert!(!Parser::new(vec!["undo", "-1"]).can_parse());
    assert!(!Parser::new(vec!["bookmark", "1", "p"]).can_parse());
    assert!(!Parser::new(vec!["!!", "q"]).can_parse());
    assert!(Parser::new(vec!["add", "a", "b"]).can_parse());
    assert!(Parser::new(vec!["rm", "x"]).can_parse());
    let mut p = Parser::new(vec!["1"]);
    assert!(add_bookmark(&mut p).is_err());
}

#[test]
fn search_keyword_is_lowercased() {
    let mut p = Parser::new(vec!["HeLLo Ümlaut"]);
    match search_keyword(&mut p) {
        Ok(Action::SearchKeyword(q)) => assert_eq!(q, "hello ümlaut"),
        other => panic!("unexpected {:?}", other),
    }
}

#[test]
fn spans_count_back_from_the_clock() {
    let day = 86400i64;
    assert!(matches!(stats_since("day", 1_000_000), Ok(Action::GetStats(t)) if t == 1_000_000 - day));
    assert!(matches!(stats_since("week", 1_000_000), Ok(Action::GetStats(t)) if t == 1_000_000 - 7 * day));
    assert!(matches!(stats_since("biweek", 1_000_000), Ok(Action::GetStats(t)) if t == 1_000_000 - 14 * day));
    assert!(matches!(stats_since("month", 1_000_000), Ok(Action::GetStats(t)) if t == 1_000_000 - 30 * day));
    assert!(matches!(stats_since("all", 1_000_000), Ok(Action::GetStats(0))));
    assert!(matches!(stats_since("yeartodate", 1_000_000), Ok(Action::GetStats(0))));
    assert!(matches!(stats_since("3", 1_000_000), Ok(Action::GetStats(t)) if t == 1_000_000 - 3 * day));
    assert_eq!(stats_since("fortnight", 5).unwrap_err(), "Invalid span parameter was supplied");
    assert!(matches!(currently_reading_since("2", 500_000), Ok(Action::CurrentlyReading(t)) if t == 500_000 - 2 * day));
    assert_eq!(currently_reading_since("two", 5).unwrap_err(), "Invalid time span parameter was supplied");
    assert!(matches!(average_since("4", 1_000_000), Ok(Action::ShowAverage(4, t)) if t == 1_000_000 - 4 * day));
    assert!(matches!(average_since("0", 77), Ok(Action::ShowAverage(0, 77))));
    assert_eq!(average_since("-4", 5).unwrap_err(), "Parse Error: Days provided was not in integer format");
    assert!(matches!(parse(vec!["stats", "all"]).0, Effect::Dispatch(Action::GetStats(0))));
    assert!(matches!(parse(vec!["stats", "never"]), (Effect::Nothing, Ok(()))));
    assert!(matches!(parse(vec!["current"]), (Effect::Nothing, Ok(()))));
}

#[test]
fn command_lines_split_at_each_at_sign() {
    for line in ["add @Dune @Frank Herbert @412\n", "", "@", "finished", "  id@ 3 ", "a@@b", "x\u{3000}@\ty "] {
        let expected: Vec<&str> = line.split('@').map(|x| x.trim()).collect();
        assert_eq!(split_command(line), expected);
    }
    assert_eq!(trim_text("  a b \n"), "a b");
    assert_eq!(trim_text("\u{2003}z\u{85}"), "z");
    assert_eq!(trim_text("   "), "");
}

#[test]
fn whitespace_is_what_std_calls_whitespace() {
    for c in (0u32..=0x10FFFF).filter_map(char::from_u32) {
        assert_eq!(is_whitespace(c), c.is_whitespace(), "{:?}", c);
    }
}

#[test]
fn words_come_out_in_order_then_errors() {
    let mut p = Parser::new(vec!["a", "b"]);
    assert_eq!(p.next(), Ok("a"));
    assert_eq!(p.next(), Ok("b"));
    assert_eq!(p.next(), Err("Parse Error: Command Not Recognized"));
    assert_eq!(p.next(), Err("Parse Error: Command Not Recognized"));
}

#[test]
fn parsing_stops_after_the_command_words() {
    let mut p = Parser::new(vec!["id", "3", "extra"]);
    let (effect, result) = p.parse();
    assert!(matches!(effect, Effect::Dispatch(Action::FindByID(3))));
    assert_eq!(result, Err("Parse Error: Trailing Words"));
    assert_eq!(p.next(), Ok("extra"));
    let mut p = Parser::new(vec!["random"]);
    p.parse();
    assert_eq!(p.next(), Err("Parse Error: Command Not Recognized"));
    let mut p = Parser::new(vec!["exit", "now"]);
    assert!(matches!(p.parse(), (Effect::Exit, Ok(()))));
    assert_eq!(p.next(), Ok("now"));
    let mut p = Parser::new(vec![]);
    assert!(matches!(p.parse(), (Effect::Nothing, Err(_))));
    assert_eq!(p.next(), Err("Parse Error: Command Not Recognized"));
}
