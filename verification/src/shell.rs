//! The line editing and command choice of the user shell.
//!
//! The shell reads one byte at a time; what it does with each byte is
//! decided here, and the caller performs the printing, writing and process
//! handling that the decision names.
use vstd::prelude::*;

verus! {

/// Line feed.
pub const LF: u8 = 0x0a;

/// Carriage return.
pub const CR: u8 = 0x0d;

/// Delete.
pub const DL: u8 = 0x7f;

/// Backspace.
pub const BS: u8 = 0x08;

/// Calls `String::push`.
///
/// Trusted: std documents that it appends the char to the end of the string.
#[verifier::external_body]
fn push_char(s: &mut String, c: char)
    ensures
        final(s)@ == old(s)@.push(c),
{
    s.push(c)
}

/// Calls `String::pop`.
///
/// Trusted: std documents that it removes the last char and returns it, or
/// returns `None` when the string is empty.
#[verifier::external_body]
fn pop_char(s: &mut String) -> (res: Option<char>)
    ensures
        old(s)@.len() == 0 ==> res is None && final(s)@ == old(s)@,
        old(s)@.len() > 0 ==> res == Some(old(s)@.last()) && final(s)@ == old(s)@.drop_last(),
{
    s.pop()
}

/// The char that a byte read from the console stands for (its Latin-1
/// reading).
pub open spec fn byte_char(c: u8) -> char {
    c as char
}

/// Whether `c` has the Unicode White_Space property.
pub open spec fn is_whitespace_spec(c: char) -> bool {
    let x = c as u32;
    ||| 0x09 <= x <= 0x0d
    ||| x == 0x20
    ||| x == 0x85
    ||| x == 0xa0
    ||| x == 0x1680
    ||| 0x2000 <= x <= 0x200a
    ||| x == 0x2028
    ||| x == 0x2029
    ||| x == 0x202f
    ||| x == 0x205f
    ||| x == 0x3000
}

/// Whether `c` has the Unicode White_Space property.
pub fn is_whitespace(c: char) -> (res: bool)
    ensures
        res == is_whitespace_spec(c),
{
    let x = c as u32;
    (0x09 <= x && x <= 0x0d) || x == 0x20 || x == 0x85 || x == 0xa0 || x == 0x1680 || (0x2000 <= x
        && x <= 0x200a) || x == 0x2028 || x == 0x2029 || x == 0x202f || x == 0x205f || x == 0x3000
}


/// Reading `s` from the left: the words finished so far, and the word being
/// read (empty between words).
pub open spec fn scan_words(s: Seq<char>) -> (Seq<Seq<char>>, Seq<char>)
    decreases s.len(),
{
    if s.len() == 0 {
        (Seq::empty(), Seq::empty())
    } else {
        let (done, cur) = scan_words(s.drop_last());
        if is_whitespace_spec(s.last()) {
            if cur.len() > 0 {
                (done.push(cur), Seq::empty())
            } else {
                (done, Seq::empty())
            }
        } else {
            (done, cur.push(s.last()))
        }
    }
}

/// The words of `s`: its longest runs of chars without whitespace, in order.
pub open spec fn split_whitespace(s: Seq<char>) -> Seq<Seq<char>> {
    let (done, cur) = scan_words(s);
    if cur.len() > 0 {
        done.push(cur)
    } else {
        done
    }
}

/// Splits a command line into its words.
pub fn get_tokens(command: String) -> (res: Vec<String>)
    ensures
        res.deep_view() == split_whitespace(command@),
{
    let s = command.as_str();
    let n = s.unicode_len();
    let mut tokens: Vec<String> = Vec::new();
    let mut start: usize = 0;
    let mut i: usize = 0;
    while i < n
        invariant
            n == s@.len(),
            start <= i <= n,
            scan_words(s@.take(i as int)) == (tokens.deep_view(), s@.subrange(start as int, i as int)),
        decreases n - i,
    {
        let c = s.get_char(i);
        assert(s@.take(i + 1).drop_last() =~= s@.take(i as int));
        if is_whitespace(c) {
            if start < i {
                let word = String::from_str(s.substring_char(start, i));
                let ghost before = tokens.deep_view();
                tokens.push(word);
                assert(tokens.deep_view() =~= before.push(s@.subrange(start as int, i as int)));
            }
            start = i + 1;
            assert(s@.subrange(start as int, i + 1) =~= Seq::<char>::empty());
        } else {
            assert(s@.subrange(start as int, i + 1) =~= s@.subrange(start as int, i as int).push(c));
        }
        i = i + 1;
    }
    assert(s@.take(n as int) =~= s@);
    if start < n {
        let word = String::from_str(s.substring_char(start, n));
        let ghost before = tokens.deep_view();
        tokens.push(word);
        assert(tokens.deep_view() =~= before.push(s@.subrange(start as int, n as int)));
    }
    tokens
}


/// `s` with every whitespace char taken out.
pub open spec fn strip_whitespace(s: Seq<char>) -> Seq<char>
    decreases s.len(),
{
    if s.len() == 0 {
        s
    } else if is_whitespace_spec(s.last()) {
        strip_whitespace(s.drop_last())
    } else {
        strip_whitespace(s.drop_last()).push(s.last())
    }
}

/// The words of `ws` written one after the other.
pub open spec fn concat_words(ws: Seq<Seq<char>>) -> Seq<char>
    decreases ws.len(),
{
    if ws.len() == 0 {
        Seq::empty()
    } else {
        concat_words(ws.drop_last()) + ws.last()
    }
}

/// A word: not empty, and without whitespace.
pub open spec fn is_word(w: Seq<char>) -> bool {
    w.len() > 0 && forall|k: int| 0 <= k < w.len() ==> !is_whitespace_spec(#[trigger] w[k])
}

proof fn lemma_scan_words(s: Seq<char>)
    ensures
        ({
            let (done, cur) = scan_words(s);
            &&& forall|j: int| 0 <= j < done.len() ==> is_word(#[trigger] done[j])
            &&& forall|k: int| 0 <= k < cur.len() ==> !is_whitespace_spec(#[trigger] cur[k])
            &&& concat_words(done) + cur == strip_whitespace(s)
            &&& s.len() > 0 && !is_whitespace_spec(s.last()) ==> cur.len() > 0 && cur.last()
                == s.last()
        }),
    decreases s.len(),
{
    if s.len() > 0 {
        lemma_scan_words(s.drop_last());
        let (done, cur) = scan_words(s.drop_last());
        let c = s.last();
        if is_whitespace_spec(c) {
            if cur.len() > 0 {
                assert(done.push(cur).drop_last() =~= done);
                assert(concat_words(done.push(cur)) + Seq::<char>::empty() =~= concat_words(done)
                    + cur);
            } else {
                assert(concat_words(done) + Seq::<char>::empty() =~= concat_words(done) + cur);
            }
        } else {
            assert(concat_words(done) + cur.push(c) =~= (concat_words(done) + cur).push(c));
        }
    }
}

/// Splitting into words drops the whitespace and nothing else: every word
/// is a non-empty run without whitespace, and the words written one after
/// the other give the line without its whitespace.
pub proof fn law_words_are_line_without_whitespace(s: Seq<char>)
    ensures
        forall|j: int|
            0 <= j < split_whitespace(s).len() ==> is_word(#[trigger] split_whitespace(s)[j]),
        concat_words(split_whitespace(s)) == strip_whitespace(s),
{
    lemma_scan_words(s);
    let (done, cur) = scan_words(s);
    if cur.len() > 0 {
        assert(done.push(cur).drop_last() =~= done);
    } else {
        assert(concat_words(done) + cur =~= concat_words(done));
    }
}

/// A line that ends in a char other than whitespace has words, and its last
/// word ends in that char.
pub proof fn law_last_word_ends_line(s: Seq<char>)
    requires
        s.len() > 0,
        !is_whitespace_spec(s.last()),
    ensures
        split_whitespace(s).len() > 0,
        split_whitespace(s).last().len() > 0,
        split_whitespace(s).last().last() == s.last(),
{
    lemma_scan_words(s);
}


/// What the shell runs for a line.
pub enum Command {
    /// `touch` with the path to write.
    Touch(String),
    /// `cat` with the path to print.
    Cat(String),
    /// Anything else: the whole line goes to `exec`.
    Exec,
}

/// The lines for which choosing a command reads no word that is not there:
/// the line has a word, and `touch` and `cat` are followed by another.
pub open spec fn dispatch_ok(s: Seq<char>) -> bool {
    let t = split_whitespace(s);
    &&& t.len() > 0
    &&& (t[0] == "touch"@ || t[0] == "cat"@) ==> t.len() > 1
}

/// Chooses what to run for a command line, by its first word.
pub fn dispatch(line: &String) -> (res: Command)
    requires
        dispatch_ok(line@),
    ensures
        ({
            let t = split_whitespace(line@);
            match res {
                Command::Touch(path) => t[0] == "touch"@ && path@ == t[1],
                Command::Cat(path) => t[0] != "touch"@ && t[0] == "cat"@ && path@ == t[1],
                Command::Exec => t[0] != "touch"@ && t[0] != "cat"@,
            }
        }),
{
    let tokens = get_tokens(line.clone());
    let touch = String::from_str("touch");
    let cat = String::from_str("cat");
    if tokens[0] == touch {
        Command::Touch(tokens[1].clone())
    } else if tokens[0] == cat {
        Command::Cat(tokens[1].clone())
    } else {
        Command::Exec
    }
}

/// The lines that the shell hands over (not empty, ended by a NUL) can
/// always be dispatched: the NUL belongs to the last word, so a first word
/// `touch` or `cat` is never the last one.
pub proof fn law_entered_line_dispatches(s: Seq<char>)
    requires
        s.len() > 0,
        s.last() == '\0',
    ensures
        dispatch_ok(s),
{
    law_last_word_ends_line(s);
    reveal_strlit("touch");
    reveal_strlit("cat");
    let t = split_whitespace(s);
    if t.len() == 1 {
        assert(t[0] == t.last());
    }
}

/// What the shell does with a byte it read.
pub enum ShellAction {
    /// Nothing to do.
    Nothing,
    /// Print the char.
    Echo(char),
    /// Rub out the last char on screen: backspace, space, backspace.
    Erase,
    /// End the line on screen, run the given line if there is one, and
    /// print the prompt again.
    Enter(Option<String>),
}

/// The line that the shell is reading.
pub struct Shell {
    line: String,
}

impl Shell {
    /// The chars of the line so far.
    pub closed spec fn spec_line(self) -> Seq<char> {
        self.line@
    }

    /// A shell with an empty line.
    pub fn new() -> (res: Self)
        ensures
            res.spec_line() == Seq::<char>::empty(),
    {
        Shell { line: String::new() }
    }

    /// Takes in one byte: a line end hands over the line with a NUL after
    /// it (if the line is not empty) and starts a new one; backspace and
    /// delete take the last char off; every other byte is added to the line.
    pub fn feed(&mut self, c: u8) -> (res: ShellAction)
        ensures
            (c == LF || c == CR) ==> final(self).spec_line() == Seq::<char>::empty() && match res {
                ShellAction::Enter(Some(l)) => old(self).spec_line().len() > 0 && l@ == old(
                    self,
                ).spec_line().push('\0'),
                ShellAction::Enter(None) => old(self).spec_line().len() == 0,
                _ => false,
            },
            (c == BS || c == DL) ==> if old(self).spec_line().len() > 0 {
                res is Erase && final(self).spec_line() == old(self).spec_line().drop_last()
            } else {
                res is Nothing && final(self).spec_line() == old(self).spec_line()
            },
            !(c == LF || c == CR || c == BS || c == DL) ==> res == ShellAction::Echo(byte_char(c))
                && final(self).spec_line() == old(self).spec_line().push(byte_char(c)),
    {
        if c == LF || c == CR {
            if self.line.as_str().unicode_len() == 0 {
                ShellAction::Enter(None)
            } else {
                let mut entered = String::new();
                core::mem::swap(&mut entered, &mut self.line);
                push_char(&mut entered, '\0');
                ShellAction::Enter(Some(entered))
            }
        } else if c == BS || c == DL {
            match pop_char(&mut self.line) {
                Some(_) => ShellAction::Erase,
                None => ShellAction::Nothing,
            }
        } else {
            let ch = c as char;
            push_char(&mut self.line, ch);
            ShellAction::Echo(ch)
        }
    }
}


/// What `touch` does with a byte it read.
pub enum TouchAction {
    /// Nothing to do.
    Nothing,
    /// Print the char.
    Echo(char),
    /// Rub out the last char on screen: backspace, space, backspace.
    Erase,
    /// End the line on screen.
    NewLine,
    /// Write the text to the file and finish.
    Save(String),
}

/// The text that `touch` is taking in: the finished lines, the line being
/// typed, and whether the last byte ended a line.
pub struct TouchEditor {
    line: String,
    buf: String,
    flag: bool,
}

impl TouchEditor {
    /// The finished text is empty or ends with a newline, and right after a
    /// line end the current line is empty.
    #[verifier::type_invariant]
    closed spec fn wf(self) -> bool {
        &&& self.buf@.len() == 0 || self.buf@.last() == '\n'
        &&& self.flag ==> self.line@.len() == 0
    }

    /// The line being typed.
    pub closed spec fn spec_line(self) -> Seq<char> {
        self.line@
    }

    /// The finished lines, each with its newline.
    pub closed spec fn spec_buf(self) -> Seq<char> {
        self.buf@
    }

    /// Whether the last byte ended a line.
    pub closed spec fn spec_flag(self) -> bool {
        self.flag
    }

    /// An editor with no text.
    pub fn new() -> (res: Self)
        ensures
            res.spec_line() == Seq::<char>::empty(),
            res.spec_buf() == Seq::<char>::empty(),
            !res.spec_flag(),
    {
        TouchEditor { line: String::new(), buf: String::new(), flag: false }
    }

    /// Takes in one byte: a line end finishes the line, and a second line
    /// end in a row saves the text; backspace and delete take the last char
    /// off the line; every other byte is added to the line.
    pub fn feed(&mut self, c: u8) -> (res: TouchAction)
        ensures
            (c == LF || c == CR) && !old(self).spec_flag() ==> {
                &&& res is NewLine
                &&& final(self).spec_flag()
                &&& final(self).spec_line() == Seq::<char>::empty()
                &&& final(self).spec_buf() == old(self).spec_buf() + old(self).spec_line().push(
                    '\n',
                )
            },
            (c == LF || c == CR) && old(self).spec_flag() ==> {
                &&& res matches TouchAction::Save(text) && text@ == old(self).spec_buf()
                &&& final(self).spec_flag()
                &&& final(self).spec_line() == old(self).spec_line()
                &&& final(self).spec_buf() == old(self).spec_buf()
            },
            (c == BS || c == DL) ==> {
                &&& !final(self).spec_flag()
                &&& final(self).spec_buf() == old(self).spec_buf()
                &&& if old(self).spec_line().len() > 0 {
                    res is Erase && final(self).spec_line() == old(self).spec_line().drop_last()
                } else {
                    res is Nothing && final(self).spec_line() == old(self).spec_line()
                }
            },
            !(c == LF || c == CR || c == BS || c == DL) ==> {
                &&& res == TouchAction::Echo(byte_char(c))
                &&& !final(self).spec_flag()
                &&& final(self).spec_line() == old(self).spec_line().push(byte_char(c))
                &&& final(self).spec_buf() == old(self).spec_buf()
            },
            res matches TouchAction::Save(text) ==> text@.len() == 0 || text@.last() == '\n',
    {
        proof {
            use_type_invariant(&*self);
        }
        let mut line = String::new();
        core::mem::swap(&mut line, &mut self.line);
        if c == LF || c == CR {
            if !self.flag {
                push_char(&mut line, '\n');
                let mut buf = String::new();
                core::mem::swap(&mut buf, &mut self.buf);
                buf.append(line.as_str());
                self.buf = buf;
                self.flag = true;
                TouchAction::NewLine
            } else {
                self.line = line;
                TouchAction::Save(self.buf.clone())
            }
        } else if c == BS || c == DL {
            self.flag = false;
            let res = match pop_char(&mut line) {
                Some(_) => TouchAction::Erase,
                None => TouchAction::Nothing,
            };
            self.line = line;
            res
        } else {
            self.flag = false;
            let ch = c as char;
            push_char(&mut line, ch);
            self.line = line;
            TouchAction::Echo(ch)
        }
    }
}


/// A typed byte is taken in as itself: the char that stands for byte `c` is
/// the code point `c`, so no byte is read as another.
pub proof fn law_byte_char_is_the_byte(c: u8)
    ensures
        byte_char(c) as u32 == c as u32,
{
}


/// Where the words finished so far, and the word being read, lie in `s`:
/// `p[j]` is the start and end of word `j`, the word being read ends the
/// line, and everything outside the words is whitespace.
proof fn lemma_scan_positions(s: Seq<char>) -> (p: Seq<(int, int)>)
    ensures
        ({
            let (done, cur) = scan_words(s);
            let cs = s.len() - cur.len();
            &&& p.len() == done.len()
            &&& 0 <= cs
            &&& cur == s.subrange(cs, s.len() as int)
            &&& forall|j: int|
                0 <= j < p.len() ==> 0 <= (#[trigger] p[j]).0 < p[j].1 < cs && done[j]
                    == s.subrange(p[j].0, p[j].1)
            &&& forall|j: int|
                0 <= j < p.len() - 1 ==> (#[trigger] p[j]).1 < p[j + 1].0 && forall|k: int|
                    p[j].1 <= k < p[j + 1].0 ==> is_whitespace_spec(#[trigger] s[k])
            &&& p.len() == 0 ==> forall|k: int| 0 <= k < cs ==> is_whitespace_spec(#[trigger] s[k])
            &&& p.len() > 0 ==> forall|k: int|
                0 <= k < p[0].0 ==> is_whitespace_spec(#[trigger] s[k])
            &&& p.len() > 0 ==> forall|k: int|
                p.last().1 <= k < cs ==> is_whitespace_spec(#[trigger] s[k])
        }),
    decreases s.len(),
{
    if s.len() == 0 {
        Seq::empty()
    } else {
        let t = s.drop_last();
        let p0 = lemma_scan_positions(t);
        let (done0, cur0) = scan_words(t);
        let cs0 = t.len() - cur0.len();
        let c = s.last();
        let n = s.len() - 1;
        assert forall|k: int| 0 <= k < n implies #[trigger] s[k] == t[k] by {}
        if is_whitespace_spec(c) {
            if cur0.len() > 0 {
                let p = p0.push((cs0, n));
                assert(s.subrange(cs0, n) =~= cur0);
                assert forall|j: int| 0 <= j < p.len() - 1 implies (#[trigger] p[j]).1 < p[j
                    + 1].0 && forall|k: int| p[j].1 <= k < p[j + 1].0 ==> is_whitespace_spec(
                    #[trigger] s[k],
                ) by {
                    if j < p0.len() - 1 {
                        assert(p[j] == p0[j] && p[j + 1] == p0[j + 1]);
                    } else {
                        assert(p[j] == p0.last());
                    }
                }
                assert forall|j: int| 0 <= j < p.len() implies 0 <= (#[trigger] p[j]).0 < p[j].1
                    < s.len() - 0 && scan_words(s).0[j] == s.subrange(p[j].0, p[j].1) by {
                    if j < p0.len() {
                        assert(p[j] == p0[j]);
                        assert(t.subrange(p0[j].0, p0[j].1) =~= s.subrange(p0[j].0, p0[j].1));
                    }
                }
                if p0.len() > 0 {
                    assert(p[0] == p0[0]);
                }
                assert(scan_words(s).1 =~= s.subrange(s.len() as int, s.len() as int));
                p
            } else {
                assert(scan_words(s).1 =~= s.subrange(s.len() as int, s.len() as int));
                assert forall|j: int| 0 <= j < p0.len() implies 0 <= (#[trigger] p0[j]).0 < p0[j].1
                    < s.len() && scan_words(s).0[j] == s.subrange(p0[j].0, p0[j].1) by {
                    assert(t.subrange(p0[j].0, p0[j].1) =~= s.subrange(p0[j].0, p0[j].1));
                }
                p0
            }
        } else {
            assert(scan_words(s).1 =~= s.subrange(cs0, s.len() as int));
            assert forall|j: int| 0 <= j < p0.len() implies 0 <= (#[trigger] p0[j]).0 < p0[j].1
                < cs0 && scan_words(s).0[j] == s.subrange(p0[j].0, p0[j].1) by {
                assert(t.subrange(p0[j].0, p0[j].1) =~= s.subrange(p0[j].0, p0[j].1));
            }
            p0
        }
    }
}

/// Words break only at whitespace: the words of a line are its longest runs
/// of chars without whitespace, in order. Returned: where each word starts
/// and ends in the line. Each word is the line's chars between its start
/// and end, none of them whitespace; two words in a row have at least one
/// char between them, and all chars between them are whitespace, as are
/// those before the first word and after the last; a line without words is
/// all whitespace.
pub proof fn law_words_are_longest_runs(s: Seq<char>) -> (p: Seq<(int, int)>)
    ensures
        p.len() == split_whitespace(s).len(),
        forall|j: int|
            0 <= j < p.len() ==> 0 <= (#[trigger] p[j]).0 < p[j].1 <= s.len()
                && split_whitespace(s)[j] == s.subrange(p[j].0, p[j].1),
        forall|j: int|
            0 <= j < p.len() - 1 ==> (#[trigger] p[j]).1 < p[j + 1].0 && forall|k: int|
                p[j].1 <= k < p[j + 1].0 ==> is_whitespace_spec(#[trigger] s[k]),
        p.len() == 0 ==> forall|k: int| 0 <= k < s.len() ==> is_whitespace_spec(#[trigger] s[k]),
        p.len() > 0 ==> forall|k: int| 0 <= k < p[0].0 ==> is_whitespace_spec(#[trigger] s[k]),
        p.len() > 0 ==> forall|k: int|
            p.last().1 <= k < s.len() ==> is_whitespace_spec(#[trigger] s[k]),
        forall|j: int|
            0 <= j < p.len() ==> forall|k: int|
                (#[trigger] p[j]).0 <= k < p[j].1 ==> !is_whitespace_spec(#[trigger] s[k]),
{
    let p0 = lemma_scan_positions(s);
    law_words_are_line_without_whitespace(s);
    let (done, cur) = scan_words(s);
    let cs = s.len() - cur.len();
    let p = if cur.len() > 0 {
        let p = p0.push((cs, s.len() as int));
        assert forall|j: int| 0 <= j < p.len() - 1 implies (#[trigger] p[j]).1 < p[j + 1].0
            && forall|k: int| p[j].1 <= k < p[j + 1].0 ==> is_whitespace_spec(#[trigger] s[k]) by {
            if j < p0.len() - 1 {
                assert(p[j] == p0[j] && p[j + 1] == p0[j + 1]);
            } else {
                assert(p[j] == p0.last());
            }
        }
        assert forall|j: int| 0 <= j < p.len() implies 0 <= (#[trigger] p[j]).0 < p[j].1
            <= s.len() && split_whitespace(s)[j] == s.subrange(p[j].0, p[j].1) by {
            if j < p0.len() {
                assert(p[j] == p0[j]);
            }
        }
        if p0.len() > 0 {
            assert(p[0] == p0[0]);
        }
        p
    } else {
        p0
    };
    assert forall|j: int| 0 <= j < p.len() implies forall|k: int|
        (#[trigger] p[j]).0 <= k < p[j].1 ==> !is_whitespace_spec(#[trigger] s[k]) by {
        let w = split_whitespace(s)[j];
        assert(is_word(w));
        assert forall|k: int| p[j].0 <= k < p[j].1 implies !is_whitespace_spec(#[trigger] s[k]) by {
            assert(w[k - p[j].0] == s[k]);
        }
    }
    p
}

} // verus!
