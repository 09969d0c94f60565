use renrs::files::FileTable;
use renrs::parser::{find_word, is_ident_char, parse_embed, read_string_literal, skip_ws, try_parse_embed_line};

fn chars(s: &str) -> Vec<char> {
    s.chars().collect()
}

fn package() -> FileTable {
    let mut files = FileTable::new();
    files.insert("main.lua".to_string(), b"print('main')".to_vec());
    files.insert("lib.lua".to_string(), b"local x = 1\nreturn x".to_vec());
    files.insert("image.png".to_string(), vec![0x89, 0x50, 0x4e, 0x47]);
    files.insert("broken.lua".to_string(), vec![0xff, 0xfe]);
    files
}

#[test]
fn is_ident_char_accepts_letters_digits_underscore() {
    assert!(is_ident_char(b'a'));
    assert!(is_ident_char(b'Z'));
    assert!(is_ident_char(b'0'));
    assert!(is_ident_char(b'_'));
    assert!(!is_ident_char(b'('));
    assert!(!is_ident_char(b' '));
    assert!(!is_ident_char(0xe4));
}

#[test]
fn find_word_finds_a_whole_word() {
    let w = "embedLuaFile";
    assert_eq!(find_word("embedLuaFile(\"a\")", w), Some(0));
    assert_eq!(find_word("x = embedLuaFile(\"a\")", w), Some(4));
    assert_eq!(find_word("myembedLuaFile(\"a\")", w), None);
    assert_eq!(find_word("embedLuaFiles(\"a\")", w), None);
    assert_eq!(find_word("myembedLuaFile embedLuaFile", w), Some(15));
    assert_eq!(find_word("embed", w), None);
}

#[test]
fn find_word_counts_bytes_next_to_non_ascii() {
    let w = "embedLuaFile";
    assert_eq!(find_word("é embedLuaFile", w), Some(3));
    assert_eq!(find_word("éembedLuaFile", w), Some(2));
    assert_eq!(find_word("猫 embedLuaFile", w), Some(4));
}

#[test]
fn skip_ws_skips_unicode_white_space() {
    let cs = chars(" \t\u{3000}x ");
    assert_eq!(skip_ws(&cs, 0), 3);
    assert_eq!(skip_ws(&cs, 3), 3);
    assert_eq!(skip_ws(&cs, 4), 5);
}

#[test]
fn read_string_literal_reads_either_quote() {
    let cs = chars("\"a.lua\") rest");
    let (text, after) = read_string_literal(&cs, 0).unwrap();
    assert_eq!(text, "a.lua");
    assert_eq!(after, 7);
    let cs = chars("'b\"c' x");
    let (text, after) = read_string_literal(&cs, 0).unwrap();
    assert_eq!(text, "b\"c");
    assert_eq!(after, 5);
    assert!(read_string_literal(&chars("\"open"), 0).is_none());
    assert!(read_string_literal(&chars("x\"a\""), 0).is_none());
    assert!(read_string_literal(&chars(""), 0).is_none());
}

#[test]
fn try_parse_embed_line_gives_the_source() {
    let files = package();
    let line = "embedLuaFile(\"lib.lua\")";
    assert_eq!(try_parse_embed_line(line, "main.lua", &files), Some("local x = 1\nreturn x".to_string()));
    let line = "  embedLuaFile ( 'lib.lua' )  -- comment";
    assert_eq!(try_parse_embed_line(line, "main.lua", &files), Some("local x = 1\nreturn x".to_string()));
    let line = "本 = embedLuaFile('lib.lua')";
    assert_eq!(try_parse_embed_line(line, "main.lua", &files), Some("local x = 1\nreturn x".to_string()));
}

#[test]
fn try_parse_embed_line_refuses_other_forms() {
    let files = package();
    for line in [
        "embedLuaFile(\"lib.lua\", 2)",
        "embedLuaFile \"lib.lua\"",
        "embedLuaFile(lib)",
        "embedLuaFile(\"lib.lua\"",
        "embedLuaFile(\"missing.lua\")",
        "embedLuaFile(\"image.png\")",
        "embedLuaFile(\"broken.lua\")",
        "embedLuaFile(\"main.lua\")",
        "myembedLuaFile(\"lib.lua\")",
        "print(1)",
    ] {
        assert_eq!(try_parse_embed_line(line, "main.lua", &files), None, "{}", line);
    }
}

#[test]
fn parse_embed_replaces_embedding_lines() {
    let files = package();
    let content = "local a = 0\nembedLuaFile(\"lib.lua\")\nprint(a)";
    assert_eq!(
        parse_embed("main.lua", content, &files),
        "local a = 0\nlocal x = 1\nreturn x\nprint(a)"
    );
}

#[test]
fn parse_embed_keeps_other_lines() {
    let files = package();
    let content = "print(1)\nembedLuaFile(\"missing.lua\")\nmyembedLuaFile(\"lib.lua\")";
    assert_eq!(parse_embed("main.lua", content, &files), content);
}

#[test]
fn parse_embed_normalises_line_ends() {
    let files = FileTable::new();
    assert_eq!(parse_embed("main.lua", "a\r\nb\n", &files), "a\nb");
    assert_eq!(parse_embed("main.lua", "a\n\nb\r", &files), "a\n\nb\r");
    assert_eq!(parse_embed("main.lua", "", &files), "");
    assert_eq!(parse_embed("main.lua", "\n", &files), "");
    assert_eq!(parse_embed("main.lua", "\n\n", &files), "\n");
}

#[test]
fn parse_embed_handles_non_ascii_lines() {
    let files = package();
    let content = "-- 主程序\nlocal 名 = embedLuaFile('lib.lua')";
    assert_eq!(parse_embed("main.lua", content, &files), "-- 主程序\nlocal x = 1\nreturn x");
}

#[test]
fn skip_ws_knows_which_characters_are_white_space() {
    let cs = chars("\u{85}\u{a0}\u{2028}\u{180e}");
    assert_eq!(skip_ws(&cs, 0), 3);
    let cs = chars("\u{200b}x");
    assert_eq!(skip_ws(&cs, 0), 0);
}
