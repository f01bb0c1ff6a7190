use lib::sgash::{
    backspace, drawchar, drawstr_colours, init, key_echo, keycode, parse, parsekey, prompt, Cursor,
    Geometry, KeyAction, PROMPT, SPLASH,
};

fn text(v: &[u8]) -> String {
    String::from_utf8(v.to_vec()).unwrap()
}

fn geometry() -> Geometry {
    Geometry { cursor_width: 8, cursor_height: 16, screen_width: 640 }
}

#[test]
fn enter_runs_the_line() {
    assert!(matches!(parsekey('\r'), KeyAction::Run));
}

#[test]
fn delete_erases() {
    assert!(matches!(parsekey('\u{7f}'), KeyAction::Erase));
}

#[test]
fn other_keys_are_typed_as_their_low_byte() {
    assert!(matches!(parsekey('a'), KeyAction::Type(97)));
    assert!(matches!(parsekey('\u{161}'), KeyAction::Type(0x61)));
    assert!(matches!(parsekey('\u{10d}'), KeyAction::Run));
}

#[test]
fn keycode_prints_digits_backwards() {
    assert_eq!(text(&keycode(123)), "321 ");
    assert_eq!(text(&keycode(7)), "7 ");
    assert_eq!(text(&keycode(0)), " ");
    assert_eq!(text(&keycode(255)), "552 ");
}

#[test]
fn echo_of_keys() {
    assert_eq!(key_echo(&KeyAction::Type(b'x'), true), vec![b'x']);
    assert_eq!(key_echo(&KeyAction::Type(b'x'), false), Vec::<u8>::new());
    assert_eq!(key_echo(&KeyAction::Erase, true), vec![8u8, 32, 8]);
    assert_eq!(key_echo(&KeyAction::Erase, false), Vec::<u8>::new());
    assert_eq!(key_echo(&KeyAction::Run, true), Vec::<u8>::new());
}

#[test]
fn cursor_moves_right_and_wraps() {
    let g = geometry();
    let c = drawchar('a', Cursor { x: 0, y: 0 }, &g);
    assert_eq!((c.x, c.y), (8, 0));
    let c = drawchar('a', Cursor { x: 632, y: 32 }, &g);
    assert_eq!((c.x, c.y), (0, 48));
    let c = drawchar('a', Cursor { x: 636, y: 0 }, &g);
    assert_eq!((c.x, c.y), (4, 16));
}

#[test]
fn newline_goes_to_next_line() {
    let c = drawchar('\n', Cursor { x: 200, y: 16 }, &geometry());
    assert_eq!((c.x, c.y), (0, 32));
}

#[test]
fn backspace_steps_left() {
    let g = geometry();
    let c = backspace(Cursor { x: 16, y: 48 }, &g);
    assert_eq!((c.x, c.y), (8, 48));
    let c = backspace(Cursor { x: 0, y: 48 }, &g);
    assert_eq!((c.x, c.y), (u32::MAX - 7, 48));
}

#[test]
fn drawn_text_turns_its_colour() {
    let cs = drawstr_colours(b"abcde");
    assert_eq!(cs, vec![0x99AAFF66, 0xAAFF6699, 0xFF6699AA, 0x6699AAFF, 0x99AAFF66]);
    assert_eq!(drawstr_colours(b""), Vec::<u32>::new());
}

#[test]
fn ls_and_pwd() {
    let o = parse(b"ls", Some(b"ls"), None);
    assert_eq!(text(&o.serial), "\nls\nWould print directory contents");
    assert_eq!(text(&o.screen), "\nWould print directory contents");
    let o = parse(b"pwd", Some(b"pwd"), None);
    assert_eq!(text(&o.serial), "\npwd\nPrinting current directory");
    assert_eq!(text(&o.screen), "\nPrinting current directory");
}

#[test]
fn ls_with_arguments_is_not_ls() {
    let o = parse(b"ls -l", Some(b"ls"), Some(b"-l"));
    assert_eq!(text(&o.serial), "\nls -l");
    assert_eq!(text(&o.screen), "");
}

#[test]
fn file_commands_say_what_they_would_do() {
    let cases: [(&[u8], &str); 5] = [
        (b"cat", "\nPrinting file"),
        (b"wr", "\nWriting to file"),
        (b"rm", "\nRemoving file"),
        (b"cd", "\nChanging directory"),
        (b"mkdir", "\nMaking directory"),
    ];
    for (word, reply) in cases.iter() {
        let mut line = word.to_vec();
        line.extend_from_slice(b" f");
        let o = parse(&line, Some(word), Some(b"f"));
        assert_eq!(text(&o.serial), format!("\n{} f{}", text(word), reply));
        assert_eq!(text(&o.screen), *reply);
    }
}

#[test]
fn echo_prints_its_argument() {
    let o = parse(b"echo hi", Some(b"echo"), Some(b"hi"));
    assert_eq!(text(&o.serial), "\necho hi\nhi");
    assert_eq!(text(&o.screen), "\nPrinted arg!");
    let o = parse(b"echo", Some(b"echo"), None);
    assert_eq!(text(&o.serial), "\necho");
    assert_eq!(text(&o.screen), "");
}

#[test]
fn unknown_and_empty_lines_print_only_the_line() {
    let o = parse(b"frob x", Some(b"frob"), Some(b"x"));
    assert_eq!(text(&o.serial), "\nfrob x");
    assert_eq!(text(&o.screen), "");
    let o = parse(b"", None, None);
    assert_eq!(text(&o.serial), "\n");
    assert_eq!(text(&o.screen), "");
}

#[test]
fn prompt_is_drawn_but_at_start_up() {
    let o = prompt(true);
    assert_eq!(text(&o.serial), "\nsgash > ");
    assert_eq!(text(&o.screen), "");
    let o = prompt(false);
    assert_eq!(text(&o.serial), "\nsgash > ");
    assert_eq!(text(&o.screen), "\nsgash > ");
}

#[test]
fn start_up_shows_the_splash_and_a_prompt() {
    let o = init();
    assert_eq!(text(&o.serial), format!("{}{}", SPLASH, PROMPT));
    assert!(text(&o.serial).contains("7=..~$=..:7"));
    assert!(o.screen.is_empty());
}
