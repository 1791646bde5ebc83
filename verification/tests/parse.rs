use brainfuck::encoding::encoded_len;
use brainfuck::instruction::InstKind;

#[test]
fn map_inst_knows_the_eight_symbols() {
    assert_eq!(InstKind::map_inst('+', 3), Some(InstKind::Add(3)));
    assert_eq!(InstKind::map_inst('-', 4), Some(InstKind::Subtract(4)));
    assert_eq!(InstKind::map_inst('>', 5), Some(InstKind::MoveRight(5)));
    assert_eq!(InstKind::map_inst('<', 6), Some(InstKind::MoveLeft(6)));
    assert_eq!(InstKind::map_inst('.', 1), Some(InstKind::Output));
    assert_eq!(InstKind::map_inst(',', 1), Some(InstKind::Input));
    assert_eq!(InstKind::map_inst('[', 1), Some(InstKind::JumpIfZero(0)));
    assert_eq!(InstKind::map_inst(']', 1), Some(InstKind::JumpIfNonZero(0)));
}

#[test]
fn map_inst_maps_anything_else_to_nothing() {
    assert_eq!(InstKind::map_inst('a', 1), None);
    assert_eq!(InstKind::map_inst(' ', 1), None);
    assert_eq!(InstKind::map_inst('\n', 1), None);
    assert_eq!(InstKind::map_inst('é', 1), None);
}

#[test]
fn parse_of_nothing_is_nothing() {
    assert_eq!(InstKind::parse(""), None);
}

#[test]
fn parse_takes_a_whole_run() {
    assert_eq!(InstKind::parse("+++-"), Some(("+++", Some(InstKind::Add(3)))));
    assert_eq!(InstKind::parse("--+"), Some(("--", Some(InstKind::Subtract(2)))));
    assert_eq!(InstKind::parse(">>>>>."), Some((">>>>>", Some(InstKind::MoveRight(5)))));
    assert_eq!(InstKind::parse("<,"), Some(("<", Some(InstKind::MoveLeft(1)))));
}

#[test]
fn parse_takes_a_run_to_the_end_of_the_text() {
    assert_eq!(InstKind::parse("<<<<"), Some(("<<<<", Some(InstKind::MoveLeft(4)))));
    assert_eq!(InstKind::parse("+"), Some(("+", Some(InstKind::Add(1)))));
}

#[test]
fn parse_ends_a_run_at_a_character_beyond_ascii() {
    assert_eq!(InstKind::parse("++é+"), Some(("++", Some(InstKind::Add(2)))));
}

#[test]
fn parse_takes_one_symbol_where_repetitions_are_not_folded() {
    assert_eq!(InstKind::parse(".."), Some((".", Some(InstKind::Output))));
    assert_eq!(InstKind::parse(",,"), Some((",", Some(InstKind::Input))));
    assert_eq!(InstKind::parse("[["), Some(("[", Some(InstKind::JumpIfZero(0)))));
    assert_eq!(InstKind::parse("]]"), Some(("]", Some(InstKind::JumpIfNonZero(0)))));
}

#[test]
fn parse_takes_one_character_that_is_no_symbol() {
    assert_eq!(InstKind::parse("  +"), Some((" ", None)));
    assert_eq!(InstKind::parse("aa"), Some(("a", None)));
}

#[test]
fn parse_takes_one_character_of_any_width() {
    assert_eq!(InstKind::parse("éé+"), Some(("é", None)));
    assert_eq!(InstKind::parse("→→"), Some(("→", None)));
    assert_eq!(InstKind::parse("𝄞+"), Some(("𝄞", None)));
    assert_eq!(InstKind::parse("\u{7f}\u{80}"), Some(("\u{7f}", None)));
    assert_eq!(InstKind::parse("\u{80}\u{7f}"), Some(("\u{80}", None)));
}

#[test]
fn parse_walks_through_a_text_token_by_token() {
    let mut remaining = ">>x[-]ü..";
    let mut seen = Vec::new();
    while let Some((token, inst)) = InstKind::parse(remaining) {
        seen.push((token, inst));
        remaining = &remaining[token.len()..];
    }
    assert_eq!(
        seen,
        vec![
            (">>", Some(InstKind::MoveRight(2))),
            ("x", None),
            ("[", Some(InstKind::JumpIfZero(0))),
            ("-", Some(InstKind::Subtract(1))),
            ("]", Some(InstKind::JumpIfNonZero(0))),
            ("ü", None),
            (".", Some(InstKind::Output)),
            (".", Some(InstKind::Output)),
        ]
    );
}

#[test]
fn encoded_len_is_the_width_of_the_encoding() {
    for c in ['\0', 'a', '\u{7f}', '\u{80}', 'é', '\u{7ff}', '\u{800}', '→', '\u{d7ff}', '\u{e000}',
        '\u{ffff}', '\u{10000}', '𝄞', '\u{10ffff}']
    {
        assert_eq!(encoded_len(c), c.len_utf8());
    }
    assert_eq!(encoded_len('+'), 1);
    assert_eq!(encoded_len('é'), 2);
    assert_eq!(encoded_len('→'), 3);
    assert_eq!(encoded_len('𝄞'), 4);
}
