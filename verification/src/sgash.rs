//! The shell of the bare-metal kernel (sgash): what a key does at the
//! prompt, what a command line prints, where the text cursor goes, and the
//! colours of drawn text.  The kernel's serial line, screen and command
//! buffer carry out what these functions decide.
use vstd::prelude::*;
use vstd::string::StringSliceAdditionalSpecFns;
use crate::http::{append_bytes, matches_at};

verus! {

/// What a key does at the prompt.
pub enum KeyAction {
    /// Enter: the command line is run and a new prompt is shown.
    Run,
    /// Delete: the last character of the command line is erased.
    Erase,
    /// Any other key: its byte is typed into the command line.
    Type(u8),
}

/// The byte of Enter.
pub const KEY_ENTER: u8 = 13;

/// The byte of Delete.
pub const KEY_DELETE: u8 = 127;

/// The byte a key is read as: the low byte of its character.
pub open spec fn key_byte(key: char) -> u8 {
    ((key as u32) % 256) as u8
}

/// What the key `key` does.
pub fn parsekey(key: char) -> (a: KeyAction)
    ensures
        key_byte(key) == KEY_ENTER ==> a is Run,
        key_byte(key) == KEY_DELETE ==> a is Erase,
        key_byte(key) != KEY_ENTER && key_byte(key) != KEY_DELETE ==> a == KeyAction::Type(
            key_byte(key),
        ),
{
    let x: u8 = ((key as u32) % 256) as u8;
    if x == KEY_ENTER {
        KeyAction::Run
    } else if x == KEY_DELETE {
        KeyAction::Erase
    } else {
        KeyAction::Type(x)
    }
}

/// The decimal digits of `x`, least significant first (none for 0).
pub open spec fn digits_backwards(x: nat) -> Seq<u8>
    decreases x,
{
    if x == 0 {
        Seq::empty()
    } else {
        seq![(48 + x % 10) as u8] + digits_backwards(x / 10)
    }
}

/// The number that decimal digits given least significant first are read
/// as.
pub open spec fn backwards_value(s: Seq<u8>) -> int
    decreases s.len(),
{
    if s.len() == 0 {
        0
    } else {
        (s[0] - 48) + 10 * backwards_value(s.drop_first())
    }
}

/// Law: `digits_backwards(x)` are the decimal digits of `x`, least
/// significant first: only digits, none for 0, no zero as the most
/// significant one, and read back they give `x`.
pub proof fn law_digits_backwards_read_back(x: nat)
    ensures
        forall|i: int|
            0 <= i < digits_backwards(x).len() ==> 48 <= #[trigger] digits_backwards(x)[i] <= 57,
        (digits_backwards(x).len() == 0) == (x == 0),
        x > 0 ==> digits_backwards(x).last() != 48u8,
        backwards_value(digits_backwards(x)) == x,
    decreases x,
{
    if x > 0 {
        law_digits_backwards_read_back(x / 10);
        let d = digits_backwards(x);
        let t = digits_backwards(x / 10);
        assert(d == seq![(48 + x % 10) as u8] + t);
        assert(d.drop_first() =~= t);
        assert(x == x % 10 + 10 * (x / 10)) by (nonlinear_arith);
        assert(((48 + x % 10) as u8) as int == 48 + x % 10);
        assert forall|i: int| 0 <= i < d.len() implies 48 <= #[trigger] d[i] <= 57 by {
            if i > 0 {
                assert(d[i] == t[i - 1]);
            }
        }
        if x / 10 == 0 {
            assert(x % 10 != 0);
        } else {
            assert(d.last() == t.last());
        }
    }
}

/// What the console shows to tell the code of a key: its decimal digits,
/// least significant first, and a space.
pub fn keycode(x: u8) -> (r: Vec<u8>)
    ensures
        r@ == digits_backwards(x as nat).push(32u8),
{
    let ghost x0 = x;
    let mut r: Vec<u8> = Vec::new();
    let mut x = x;
    while x != 0
        invariant
            r@ + digits_backwards(x as nat) == digits_backwards(x0 as nat),
        decreases x,
    {
        let ghost before = r@;
        r.push(x % 10 + 48);
        assert(r@ + digits_backwards((x / 10) as nat) =~= before + digits_backwards(x as nat));
        x = x / 10;
    }
    assert(r@ + digits_backwards(0) =~= r@);
    r.push(32);
    r
}

// ---------------------------------------------------------------------------
// The text cursor and the colours of drawn text.
// ---------------------------------------------------------------------------

/// The place of the text cursor on the screen, in pixels.
pub struct Cursor {
    pub x: u32,
    pub y: u32,
}

/// The sizes the screen works with: a character's width and height, and
/// the screen's width, in pixels.
pub struct Geometry {
    pub cursor_width: u32,
    pub cursor_height: u32,
    pub screen_width: u32,
}

/// `a + b` on 32 bits, wrapping around.
pub open spec fn wrap_add(a: u32, b: u32) -> u32 {
    if a + b > u32::MAX {
        (a + b - 0x1_0000_0000) as u32
    } else {
        (a + b) as u32
    }
}

/// `a - b` on 32 bits, wrapping around.
pub open spec fn wrap_sub(a: u32, b: u32) -> u32 {
    if a < b {
        (a - b + 0x1_0000_0000) as u32
    } else {
        (a - b) as u32
    }
}

/// Where the cursor goes when `c` is drawn at `cur`: a newline goes to the
/// start of the next line; any other character moves one character to the
/// right, onto the next line when it passes the screen's width.
pub open spec fn drawchar_spec(c: char, cur: Cursor, g: Geometry) -> Cursor {
    if c == '\n' {
        Cursor { x: 0, y: wrap_add(cur.y, g.cursor_height) }
    } else {
        let x = wrap_add(cur.x, g.cursor_width);
        if x >= g.screen_width {
            Cursor { x: (x - g.screen_width) as u32, y: wrap_add(cur.y, g.cursor_height) }
        } else {
            Cursor { x, y: cur.y }
        }
    }
}

/// Where the cursor goes when `c` is drawn at `cur`.
pub fn drawchar(c: char, cur: Cursor, g: &Geometry) -> (r: Cursor)
    ensures
        r == drawchar_spec(c, cur, *g),
{
    if c == '\n' {
        return Cursor { x: 0, y: cur.y.wrapping_add(g.cursor_height) };
    }
    let x = cur.x.wrapping_add(g.cursor_width);
    if x >= g.screen_width {
        Cursor { x: x - g.screen_width, y: cur.y.wrapping_add(g.cursor_height) }
    } else {
        Cursor { x, y: cur.y }
    }
}

/// Where the cursor goes when the character before it is erased: one
/// character to the left.
pub fn backspace(cur: Cursor, g: &Geometry) -> (r: Cursor)
    ensures
        r == (Cursor { x: wrap_sub(cur.x, g.cursor_width), y: cur.y }),
{
    Cursor { x: cur.x.wrapping_sub(g.cursor_width), y: cur.y }
}

/// The colour drawn text starts from.
pub const FIRST_COLOUR: u32 = 0x6699AAFF;

/// The colour after `c`: its bytes turned one place to the left.
pub open spec fn next_colour(c: u32) -> u32 {
    ((c << 8u32) + (c >> 24u32)) as u32
}

/// The colour of the `k`-th character of drawn text (from 0).
pub open spec fn colour_at(k: nat) -> u32
    decreases k,
{
    if k == 0 {
        next_colour(FIRST_COLOUR)
    } else {
        next_colour(colour_at((k - 1) as nat))
    }
}

/// Law: 32-bit wrapping addition and subtraction are addition and
/// subtraction modulo 2^32.
pub proof fn law_wrap_is_modular(a: u32, b: u32)
    ensures
        wrap_add(a, b) as int == (a + b) % 0x1_0000_0000,
        wrap_sub(a, b) as int == (a - b) % 0x1_0000_0000,
{
    let m: int = 0x1_0000_0000;
    if a + b > u32::MAX {
        vstd::arithmetic::div_mod::lemma_small_mod((a + b - m) as nat, m as nat);
        vstd::arithmetic::div_mod::lemma_mod_sub_multiples_vanish(a + b, m);
    } else {
        vstd::arithmetic::div_mod::lemma_small_mod((a + b) as nat, m as nat);
    }
    if a < b {
        vstd::arithmetic::div_mod::lemma_small_mod((a - b + m) as nat, m as nat);
        vstd::arithmetic::div_mod::lemma_mod_add_multiples_vanish(a - b, m);
    } else {
        vstd::arithmetic::div_mod::lemma_small_mod((a - b) as nat, m as nat);
    }
}

/// Law: the next colour turns the four bytes of a colour one place to the
/// left, so four turns give the colour back.
pub proof fn law_colour_turns_bytes(c: u32)
    ensures
        next_colour(c) == ((c << 8u32) | (c >> 24u32)),
        next_colour(next_colour(next_colour(next_colour(c)))) == c,
{
    let c1 = next_colour(c);
    let c2 = next_colour(c1);
    let c3 = next_colour(c2);
    let c4 = next_colour(c3);
    assert(((c << 8u32) + (c >> 24u32)) as u32 == ((c << 8u32) | (c >> 24u32))) by (bit_vector);
    assert(((c1 << 8u32) + (c1 >> 24u32)) as u32 == ((c1 << 8u32) | (c1 >> 24u32))) by (bit_vector);
    assert(((c2 << 8u32) + (c2 >> 24u32)) as u32 == ((c2 << 8u32) | (c2 >> 24u32))) by (bit_vector);
    assert(((c3 << 8u32) + (c3 >> 24u32)) as u32 == ((c3 << 8u32) | (c3 >> 24u32))) by (bit_vector);
    assert(c4 == c) by (bit_vector)
        requires
            c1 == ((c << 8u32) | (c >> 24u32)),
            c2 == ((c1 << 8u32) | (c1 >> 24u32)),
            c3 == ((c2 << 8u32) | (c2 >> 24u32)),
            c4 == ((c3 << 8u32) | (c3 >> 24u32)),
    ;
}

/// Law: the colours of drawn text come back every four characters.
pub proof fn law_colours_repeat(k: nat)
    ensures
        colour_at(k + 4) == colour_at(k),
    decreases k,
{
    if k == 0 {
        law_colour_turns_bytes(colour_at(0));
        assert(colour_at(1) == next_colour(colour_at(0)));
        assert(colour_at(2) == next_colour(colour_at(1)));
        assert(colour_at(3) == next_colour(colour_at(2)));
        assert(colour_at(4) == next_colour(colour_at(3)));
    } else {
        law_colours_repeat((k - 1) as nat);
        assert(colour_at(k + 4) == next_colour(colour_at((k + 3) as nat)));
        assert(colour_at(k) == next_colour(colour_at((k - 1) as nat)));
    }
}

/// The colours in which the characters of `msg` are drawn, in order.
pub fn drawstr_colours(msg: &[u8]) -> (r: Vec<u32>)
    ensures
        r@.len() == msg@.len(),
        forall|k: int| 0 <= k < r@.len() ==> #[trigger] r@[k] == colour_at(k as nat),
{
    let mut r: Vec<u32> = Vec::new();
    let mut x: u32 = FIRST_COLOUR;
    let mut k: usize = 0;
    while k < msg.len()
        invariant
            k <= msg@.len(),
            r@.len() == k,
            forall|j: int| 0 <= j < k ==> #[trigger] r@[j] == colour_at(j as nat),
            k == 0 ==> x == FIRST_COLOUR,
            k > 0 ==> x == colour_at((k - 1) as nat),
        decreases msg@.len() - k,
    {
        assert((x << 8u32) as int + (x >> 24u32) as int <= 0xffff_ffff) by (bit_vector);
        x = (x << 8u32) + (x >> 24u32);
        r.push(x);
        k = k + 1;
    }
    r
}

// ---------------------------------------------------------------------------
// What a command line prints.
// ---------------------------------------------------------------------------

/// What goes to the serial line and what is drawn on the screen.
pub struct Output {
    pub serial: Vec<u8>,
    pub screen: Vec<u8>,
}

/// The prompt.
pub const PROMPT: &'static str = "\nsgash > ";

pub const NEWLINE: &'static str = "\n";

pub const LS: &'static str = "ls";

pub const PWD: &'static str = "pwd";

pub const CAT: &'static str = "cat";

pub const WR: &'static str = "wr";

pub const ECHO: &'static str = "echo";

pub const RM: &'static str = "rm";

pub const CD: &'static str = "cd";

pub const MKDIR: &'static str = "mkdir";

pub const LS_REPLY: &'static str = "\nWould print directory contents";

pub const PWD_REPLY: &'static str = "\nPrinting current directory";

pub const CAT_REPLY: &'static str = "\nPrinting file";

pub const WR_REPLY: &'static str = "\nWriting to file";

pub const ECHO_REPLY: &'static str = "\nPrinted arg!";

pub const RM_REPLY: &'static str = "\nRemoving file";

pub const CD_REPLY: &'static str = "\nChanging directory";

pub const MKDIR_REPLY: &'static str = "\nMaking directory";

/// `s` if `b`, else nothing.
pub open spec fn when(b: bool, s: Seq<u8>) -> Seq<u8> {
    if b {
        s
    } else {
        Seq::empty()
    }
}

/// The reply to the first word `arg0` of a command line whose second word
/// is `arg1`, on the serial line (`to_serial`) or on the screen: `cat`,
/// `wr`, `rm`, `cd` and `mkdir` say what they would do; `echo` prints its
/// argument on the serial line and says so on the screen.
pub open spec fn word_reply(arg0: Option<Seq<u8>>, arg1: Option<Seq<u8>>, to_serial: bool) -> Seq<u8> {
    match arg0 {
        None => Seq::empty(),
        Some(y) => if y == CAT.spec_bytes() {
            CAT_REPLY.spec_bytes()
        } else if y == WR.spec_bytes() {
            WR_REPLY.spec_bytes()
        } else if y == ECHO.spec_bytes() {
            match arg1 {
                Some(x) => if to_serial {
                    NEWLINE.spec_bytes() + x
                } else {
                    ECHO_REPLY.spec_bytes()
                },
                None => Seq::empty(),
            }
        } else if y == RM.spec_bytes() {
            RM_REPLY.spec_bytes()
        } else if y == CD.spec_bytes() {
            CD_REPLY.spec_bytes()
        } else if y == MKDIR.spec_bytes() {
            MKDIR_REPLY.spec_bytes()
        } else {
            Seq::empty()
        },
    }
}

/// What running the command line `line` sends to the serial line: the line
/// itself on a new line, then the replies to `ls`, to its first word and
/// to `pwd`.
pub open spec fn parse_serial(line: Seq<u8>, arg0: Option<Seq<u8>>, arg1: Option<Seq<u8>>) -> Seq<u8> {
    NEWLINE.spec_bytes() + line + when(line == LS.spec_bytes(), LS_REPLY.spec_bytes())
        + word_reply(arg0, arg1, true) + when(line == PWD.spec_bytes(), PWD_REPLY.spec_bytes())
}

/// What running the command line `line` draws on the screen: the replies
/// to `ls`, to its first word and to `pwd`.
pub open spec fn parse_screen(line: Seq<u8>, arg0: Option<Seq<u8>>, arg1: Option<Seq<u8>>) -> Seq<u8> {
    when(line == LS.spec_bytes(), LS_REPLY.spec_bytes()) + word_reply(arg0, arg1, false) + when(
        line == PWD.spec_bytes(),
        PWD_REPLY.spec_bytes(),
    )
}

/// Law: only `echo` looks at the second word.  For any other first word,
/// the reply is the same whatever the second word is, or whether there is
/// one.
pub proof fn law_reply_ignores_second_word(
    y: Seq<u8>,
    a1: Option<Seq<u8>>,
    a2: Option<Seq<u8>>,
    to_serial: bool,
)
    requires
        y != ECHO.spec_bytes(),
    ensures
        word_reply(Some(y), a1, to_serial) == word_reply(Some(y), a2, to_serial),
{
}

/// Law: what each file command says, on either output, with or without a
/// second word: `cat` that it prints a file, `wr` that it writes one, `rm`
/// that it removes one, `cd` that it changes directory, `mkdir` that it
/// makes one; an unknown word, or no word, says nothing.
pub proof fn law_command_replies(a: Option<Seq<u8>>, to_serial: bool, other: Seq<u8>)
    requires
        other != CAT.spec_bytes(),
        other != WR.spec_bytes(),
        other != ECHO.spec_bytes(),
        other != RM.spec_bytes(),
        other != CD.spec_bytes(),
        other != MKDIR.spec_bytes(),
    ensures
        word_reply(Some(CAT.spec_bytes()), a, to_serial) == CAT_REPLY.spec_bytes(),
        word_reply(Some(WR.spec_bytes()), a, to_serial) == WR_REPLY.spec_bytes(),
        word_reply(Some(RM.spec_bytes()), a, to_serial) == RM_REPLY.spec_bytes(),
        word_reply(Some(CD.spec_bytes()), a, to_serial) == CD_REPLY.spec_bytes(),
        word_reply(Some(MKDIR.spec_bytes()), a, to_serial) == MKDIR_REPLY.spec_bytes(),
        word_reply(Some(other), a, to_serial) == Seq::<u8>::empty(),
        word_reply(None, a, to_serial) == Seq::<u8>::empty(),
{
    lemma_word_bytes();
}

/// Law: `echo` prints its argument on the serial line, on a line of its
/// own, says on the screen that it did, and with no argument does nothing.
pub proof fn law_echo_reply(x: Seq<u8>)
    ensures
        word_reply(Some(ECHO.spec_bytes()), Some(x), true) == seq![10u8] + x,
        word_reply(Some(ECHO.spec_bytes()), Some(x), false) == ECHO_REPLY.spec_bytes(),
        word_reply(Some(ECHO.spec_bytes()), None, true) == Seq::<u8>::empty(),
        word_reply(Some(ECHO.spec_bytes()), None, false) == Seq::<u8>::empty(),
{
    lemma_word_bytes();
}

/// The bytes of the command words and of a new line.
proof fn lemma_word_bytes()
    ensures
        CAT.spec_bytes() == seq![99u8, 97u8, 116u8],
        WR.spec_bytes() == seq![119u8, 114u8],
        ECHO.spec_bytes() == seq![101u8, 99u8, 104u8, 111u8],
        RM.spec_bytes() == seq![114u8, 109u8],
        CD.spec_bytes() == seq![99u8, 100u8],
        MKDIR.spec_bytes() == seq![109u8, 107u8, 100u8, 105u8, 114u8],
        NEWLINE.spec_bytes() == seq![10u8],
{
    reveal_strlit("cat");
    reveal_strlit("wr");
    reveal_strlit("echo");
    reveal_strlit("rm");
    reveal_strlit("cd");
    reveal_strlit("mkdir");
    reveal_strlit("\n");
    vstd::string::is_ascii_spec_bytes(CAT);
    vstd::string::is_ascii_spec_bytes(WR);
    vstd::string::is_ascii_spec_bytes(ECHO);
    vstd::string::is_ascii_spec_bytes(RM);
    vstd::string::is_ascii_spec_bytes(CD);
    vstd::string::is_ascii_spec_bytes(MKDIR);
    vstd::string::is_ascii_spec_bytes(NEWLINE);
    assert(vstd::string::is_ascii(CAT));
    assert(vstd::string::is_ascii(WR));
    assert(vstd::string::is_ascii(ECHO));
    assert(vstd::string::is_ascii(RM));
    assert(vstd::string::is_ascii(CD));
    assert(vstd::string::is_ascii(MKDIR));
    assert(vstd::string::is_ascii(NEWLINE));
    assert(CAT.spec_bytes() =~= seq![99u8, 97u8, 116u8]);
    assert(WR.spec_bytes() =~= seq![119u8, 114u8]);
    assert(ECHO.spec_bytes() =~= seq![101u8, 99u8, 104u8, 111u8]);
    assert(RM.spec_bytes() =~= seq![114u8, 109u8]);
    assert(CD.spec_bytes() =~= seq![99u8, 100u8]);
    assert(MKDIR.spec_bytes() =~= seq![109u8, 107u8, 100u8, 105u8, 114u8]);
    assert(NEWLINE.spec_bytes() =~= seq![10u8]);
}

/// Law: running a command line first echoes it on the serial line, on a
/// line of its own.
pub proof fn law_parse_echoes_line(line: Seq<u8>, arg0: Option<Seq<u8>>, arg1: Option<Seq<u8>>)
    ensures
        parse_serial(line, arg0, arg1).len() >= line.len() + 1,
        parse_serial(line, arg0, arg1).subrange(0, line.len() as int + 1) == seq![10u8] + line,
{
    lemma_word_bytes();
    let p = parse_serial(line, arg0, arg1);
    assert(p.subrange(0, line.len() as int + 1) =~= seq![10u8] + line);
}

/// `s` is the word `w`.
fn is_word(s: &[u8], w: &[u8]) -> (b: bool)
    ensures
        b == (s@ == w@),
{
    let b = s.len() == w.len() && matches_at(s, 0, w);
    proof {
        if s@.len() == w@.len() {
            assert(s@.subrange(0, w@.len() as int) =~= s@);
        }
    }
    b
}

/// Appends `reply` when `b` holds.
fn append_when(out: &mut Vec<u8>, b: bool, reply: &[u8])
    ensures
        final(out)@ == old(out)@ + when(b, reply@),
{
    if b {
        append_bytes(out, reply);
    } else {
        assert(old(out)@ + Seq::<u8>::empty() =~= old(out)@);
    }
}

/// Appends the reply to the first word `arg0`, as `word_reply` says.
fn append_word_reply(out: &mut Vec<u8>, arg0: Option<&[u8]>, arg1: Option<&[u8]>, to_serial: bool)
    ensures
        final(out)@ == old(out)@ + word_reply(
            match arg0 {
                Some(y) => Some(y@),
                None => None,
            },
            match arg1 {
                Some(x) => Some(x@),
                None => None,
            },
            to_serial,
        ),
{
    match arg0 {
        None => {
            assert(old(out)@ + Seq::<u8>::empty() =~= old(out)@);
        },
        Some(y) => {
            if is_word(y, CAT.as_bytes()) {
                append_bytes(out, CAT_REPLY.as_bytes());
            } else if is_word(y, WR.as_bytes()) {
                append_bytes(out, WR_REPLY.as_bytes());
            } else if is_word(y, ECHO.as_bytes()) {
                match arg1 {
                    Some(x) => {
                        if to_serial {
                            append_bytes(out, NEWLINE.as_bytes());
                            append_bytes(out, x);
                            assert(out@ =~= old(out)@ + (NEWLINE.spec_bytes() + x@));
                        } else {
                            append_bytes(out, ECHO_REPLY.as_bytes());
                        }
                    },
                    None => {
                        assert(old(out)@ + Seq::<u8>::empty() =~= old(out)@);
                    },
                }
            } else if is_word(y, RM.as_bytes()) {
                append_bytes(out, RM_REPLY.as_bytes());
            } else if is_word(y, CD.as_bytes()) {
                append_bytes(out, CD_REPLY.as_bytes());
            } else if is_word(y, MKDIR.as_bytes()) {
                append_bytes(out, MKDIR_REPLY.as_bytes());
            } else {
                assert(old(out)@ + Seq::<u8>::empty() =~= old(out)@);
            }
        },
    }
}

/// What running the command line `line` prints, where `arg0` and `arg1` are
/// its first and second words as the command buffer gives them.
pub fn parse(line: &[u8], arg0: Option<&[u8]>, arg1: Option<&[u8]>) -> (o: Output)
    ensures
        o.serial@ == parse_serial(
            line@,
            match arg0 {
                Some(y) => Some(y@),
                None => None,
            },
            match arg1 {
                Some(x) => Some(x@),
                None => None,
            },
        ),
        o.screen@ == parse_screen(
            line@,
            match arg0 {
                Some(y) => Some(y@),
                None => None,
            },
            match arg1 {
                Some(x) => Some(x@),
                None => None,
            },
        ),
{
    let is_ls = is_word(line, LS.as_bytes());
    let is_pwd = is_word(line, PWD.as_bytes());
    let mut serial: Vec<u8> = Vec::new();
    append_bytes(&mut serial, NEWLINE.as_bytes());
    append_bytes(&mut serial, line);
    append_when(&mut serial, is_ls, LS_REPLY.as_bytes());
    append_word_reply(&mut serial, arg0, arg1, true);
    append_when(&mut serial, is_pwd, PWD_REPLY.as_bytes());
    let mut screen: Vec<u8> = Vec::new();
    append_when(&mut screen, is_ls, LS_REPLY.as_bytes());
    append_word_reply(&mut screen, arg0, arg1, false);
    append_when(&mut screen, is_pwd, PWD_REPLY.as_bytes());
    proof {
        let a0 = match arg0 {
            Some(y) => Some(y@),
            None => None,
        };
        let a1 = match arg1 {
            Some(x) => Some(x@),
            None => None,
        };
        assert(serial@ =~= parse_serial(line@, a0, a1));
        assert(screen@ =~= parse_screen(line@, a0, a1));
    }
    Output { serial, screen }
}

/// The prompt: always on the serial line, and on the screen but at start-up.
pub fn prompt(startup: bool) -> (o: Output)
    ensures
        o.serial@ == PROMPT.spec_bytes(),
        o.screen@ == when(!startup, PROMPT.spec_bytes()),
{
    let mut serial: Vec<u8> = Vec::new();
    append_bytes(&mut serial, PROMPT.as_bytes());
    assert(serial@ =~= PROMPT.spec_bytes());
    let mut screen: Vec<u8> = Vec::new();
    append_when(&mut screen, !startup, PROMPT.as_bytes());
    assert(screen@ =~= when(!startup, PROMPT.spec_bytes()));
    Output { serial, screen }
}

/// The backspace character, which steps the serial console back.
pub const BACK: u8 = 8;

/// What the serial line shows for a key, given whether the command buffer
/// took it: a typed byte itself; for an erased character, a step back, a
/// blank and a step back; nothing when the buffer refused the key, nor for
/// Enter (what it shows comes from `parse` and `prompt`).
pub fn key_echo(a: &KeyAction, accepted: bool) -> (r: Vec<u8>)
    ensures
        r@ == (match *a {
            KeyAction::Type(x) => when(accepted, seq![x]),
            KeyAction::Erase => when(accepted, seq![BACK, 32u8, BACK]),
            KeyAction::Run => Seq::empty(),
        }),
{
    let mut r: Vec<u8> = Vec::new();
    if accepted {
        match a {
            KeyAction::Type(x) => {
                r.push(*x);
            },
            KeyAction::Erase => {
                r.push(BACK);
                r.push(32);
                r.push(BACK);
            },
            KeyAction::Run => {},
        }
    }
    proof {
        match *a {
            KeyAction::Type(x) => {
                assert(r@ =~= when(accepted, seq![x]));
            },
            KeyAction::Erase => {
                assert(r@ =~= when(accepted, seq![BACK, 32u8, BACK]));
            },
            KeyAction::Run => {
                assert(r@ =~= Seq::<u8>::empty());
            },
        }
    }
    r
}

/// The picture and banner shown when the kernel starts.
pub const SPLASH: &'static str = "\n                                                               \n                                                               \n                       7=..~$=..:7                             \n                  +$: =$$$+$$$?$$$+ ,7?                        \n                  $$$$$$$$$$$$$$$$$$Z$$                        \n              7$$$$$$$$$$$$. .Z$$$$$Z$$$$$$                    \n           ~..7$$Z$$$$$7+7$+.?Z7=7$$Z$$Z$$$..:                 \n          ~$$$$$$$$7:     :ZZZ,     :7ZZZZ$$$$=                \n           Z$$$$$?                    .+ZZZZ$$                 \n       +$ZZ$$$Z7                         7ZZZ$Z$$I.            \n        $$$$ZZZZZZZZZZZZZZZZZZZZZZZZI,    ,ZZZ$$Z              \n      :+$$$$ZZZZZZZZZZZZZZZZZZZZZZZZZZZ=    $ZZ$$+~,           \n     ?$Z$$$$ZZZZZZZZZZZZZZZZZZZZZZZZZZZZI   7ZZZ$ZZI           \n      =Z$$+7Z$$7ZZZZZZZZ$$$$$$$ZZZZZZZZZZ  ~Z$?$ZZ?            \n    :$Z$Z...$Z  $ZZZZZZZ~       ~ZZZZZZZZ,.ZZ...Z$Z$~          \n    7ZZZZZI$ZZ  $ZZZZZZZ~       =ZZZZZZZ7..ZZ$?$ZZZZ$          \n      ZZZZ$:    $ZZZZZZZZZZZZZZZZZZZZZZ=     ~$ZZZ$:           \n    7Z$ZZ$,     $ZZZZZZZZZZZZZZZZZZZZ7         ZZZ$Z$          \n   =ZZZZZZ,     $ZZZZZZZZZZZZZZZZZZZZZZ,       ZZZ$ZZ+         \n     ,ZZZZ,     $ZZZZZZZ:     =ZZZZZZZZZ     ZZZZZ$:           \n    =$ZZZZ+     ZZZZZZZZ~       ZZZZZZZZ~   =ZZZZZZZI          \n    $ZZ$ZZZ$$Z$$ZZZZZZZZZ$$$$   IZZZZZZZZZ$ZZZZZZZZZ$          \n      :ZZZZZZZZZZZZZZZZZZZZZZ   ~ZZZZZZZZZZZZZZZZZ~            \n     ,Z$$ZZZZZZZZZZZZZZZZZZZZ    ZZZZZZZZZZZZZZZZZZ~           \n     =$ZZZZZZZZZZZZZZZZZZZZZZ     $ZZZZZZZZZZZZZZZ$+           \n        IZZZZZ:.                        . ,ZZZZZ$              \n       ~$ZZZZZZZZZZZ                 ZZZZ$ZZZZZZZ+             \n           Z$ZZZ. ,Z~               =Z:.,ZZZ$Z                 \n          ,ZZZZZ..~Z$.             .7Z:..ZZZZZ:                \n          ~7+:$ZZZZZZZZI=:.   .,=IZZZZZZZ$Z:=7=                \n              $$ZZZZZZZZZZZZZZZZZZZZZZ$ZZZZ                    \n              ==..$ZZZ$ZZZZZZZZZZZ$ZZZZ .~+                    \n                  I$?.?ZZZ$ZZZ$ZZZI =$7                        \n                       $7..I$7..I$,                            \n\n _                     _     _                         _  \n| |                   (_)   | |                       | | \n| | ____ ___  ____     _____| |_____  ____ ____  _____| | \n| |/ ___) _ \\|  _ \\   |  _   _) ___ |/ ___)  _ \\| ___ | | \n| | |  | |_| | | | |  | |  \\ \\| ____| |   | | | | ____| | \n|_|_|  \\____/|_| |_|  |_|   \\_\\_____)_|   |_| |_|_____)__)\n\n";

/// What the kernel shell prints when it starts: the splash screen and the
/// first prompt, on the serial line.
pub fn init() -> (o: Output)
    ensures
        o.serial@ == SPLASH.spec_bytes() + PROMPT.spec_bytes(),
        o.screen@ == Seq::<u8>::empty(),
{
    let mut serial: Vec<u8> = Vec::new();
    append_bytes(&mut serial, SPLASH.as_bytes());
    let p = prompt(true);
    append_bytes(&mut serial, p.serial.as_slice());
    assert(serial@ =~= SPLASH.spec_bytes() + PROMPT.spec_bytes());
    Output { serial, screen: p.screen }
}

} // verus!
