//! The command shell's logic: splitting a line into arguments, the `echo`
//! command, and the decisions of the line editor. Reading from and writing
//! to the console is left to the caller.

use vstd::prelude::*;

verus! {

/// The byte that separates arguments.
pub const SPACE: u8 = 0x20;

/// The words of `s` after the partial word `cur`: maximal runs of bytes other
/// than a space, in order.
pub open spec fn split_words(s: Seq<u8>, cur: Seq<u8>) -> Seq<Seq<u8>>
    decreases s.len(),
{
    if s.len() == 0 {
        if cur.len() > 0 {
            seq![cur]
        } else {
            Seq::empty()
        }
    } else if s[0] == SPACE {
        if cur.len() > 0 {
            seq![cur] + split_words(s.drop_first(), Seq::empty())
        } else {
            split_words(s.drop_first(), Seq::empty())
        }
    } else {
        split_words(s.drop_first(), cur.push(s[0]))
    }
}

/// The arguments of a command line: its pieces between spaces, empty pieces
/// left out.
pub open spec fn words(s: Seq<u8>) -> Seq<Seq<u8>> {
    split_words(s, Seq::empty())
}

/// Why a command line could not be parsed.
#[derive(Debug, Clone, Copy, PartialEq, Eq, Structural)]
pub enum ParseError {
    /// The line holds no argument.
    Empty,
    /// The line holds more arguments than the storage given for them.
    TooManyArgs,
}

/// A parsed command: its arguments, the first of which names the command.
pub struct Command {
    args: Vec<Vec<u8>>,
}

/// The contents of a list of byte strings.
pub open spec fn strings_of(v: Seq<Vec<u8>>) -> Seq<Seq<u8>> {
    v.map_values(|x: Vec<u8>| x@)
}

/// Copies `s[from..to]` into a new vector.
fn copy_range(s: &[u8], from: usize, to: usize) -> (r: Vec<u8>)
    requires
        from <= to <= s@.len(),
    ensures
        r@ == s@.subrange(from as int, to as int),
{
    let mut r: Vec<u8> = Vec::new();
    let mut i = from;
    while i < to
        invariant
            from <= i <= to <= s@.len(),
            r@ == s@.subrange(from as int, i as int),
        decreases to - i,
    {
        r.push(s[i]);
        i = i + 1;
        assert(r@ =~= s@.subrange(from as int, i as int));
    }
    r
}

/// Splitting after consuming one more byte of the partial word.
proof fn lemma_split_step(s: Seq<u8>, i: int, w: int)
    requires
        0 <= w <= i < s.len(),
    ensures
        split_words(s.subrange(i, s.len() as int), s.subrange(w, i)) == if s[i] == SPACE {
            if i > w {
                seq![s.subrange(w, i)] + split_words(s.subrange(i + 1, s.len() as int), Seq::empty())
            } else {
                split_words(s.subrange(i + 1, s.len() as int), Seq::empty())
            }
        } else {
            split_words(s.subrange(i + 1, s.len() as int), s.subrange(w, i + 1))
        },
{
    let rest = s.subrange(i, s.len() as int);
    assert(rest.drop_first() =~= s.subrange(i + 1, s.len() as int));
    assert(s.subrange(w, i).push(s[i]) =~= s.subrange(w, i + 1));
}

impl Command {
    /// The arguments, in order.
    pub closed spec fn args_view(self) -> Seq<Seq<u8>> {
        strings_of(self.args@)
    }

    /// Parses a command from the line `s`, with room for `max_args`
    /// arguments.
    ///
    /// Fails with `TooManyArgs` when the line has more than `max_args`
    /// arguments, and with `Empty` when it has none.
    pub fn parse(s: &[u8], max_args: usize) -> (r: Result<Command, ParseError>)
        ensures
            words(s@).len() > max_args ==> r == Err::<Command, ParseError>(
                ParseError::TooManyArgs,
            ),
            words(s@).len() == 0 ==> r == Err::<Command, ParseError>(ParseError::Empty),
            0 < words(s@).len() <= max_args ==> r is Ok && r->Ok_0.args_view() == words(s@),
    {
        let mut args: Vec<Vec<u8>> = Vec::new();
        let mut i: usize = 0;
        let mut w: usize = 0;
        proof {
            assert(s@.subrange(0, s@.len() as int) =~= s@);
            assert(s@.subrange(0, 0) =~= Seq::<u8>::empty());
        }
        while i < s.len()
            invariant
                w <= i <= s@.len(),
                words(s@) == strings_of(args@) + split_words(
                    s@.subrange(i as int, s@.len() as int),
                    s@.subrange(w as int, i as int),
                ),
                args@.len() <= max_args,
            decreases s@.len() - i,
        {
            proof {
                lemma_split_step(s@, i as int, w as int);
            }
            if s[i] == SPACE {
                if i > w {
                    if args.len() == max_args {
                        proof {
                            assert(words(s@).len() >= args@.len() + 1);
                        }
                        return Err(ParseError::TooManyArgs);
                    }
                    let ghost before = args@;
                    let word = copy_range(s, w, i);
                    args.push(word);
                    assert(strings_of(args@) =~= strings_of(before) + seq![word@]);
                }
                i = i + 1;
                w = i;
                assert(s@.subrange(w as int, i as int) =~= Seq::<u8>::empty());
            } else {
                i = i + 1;
            }
        }
        proof {
            assert(s@.subrange(i as int, s@.len() as int) =~= Seq::<u8>::empty());
        }
        if i > w {
            if args.len() == max_args {
                return Err(ParseError::TooManyArgs);
            }
            let ghost before = args@;
            let word = copy_range(s, w, i);
            args.push(word);
            assert(strings_of(args@) =~= strings_of(before) + seq![word@]);
        }
        if args.len() == 0 {
            return Err(ParseError::Empty);
        }
        assert(words(s@) =~= strings_of(args@));
        Ok(Command { args })
    }

    /// The arguments, in order.
    pub fn args(&self) -> (r: &Vec<Vec<u8>>)
        ensures
            strings_of(r@) == self.args_view(),
    {
        &self.args
    }

    /// The command's path: its first argument.
    pub fn path(&self) -> (r: &Vec<u8>)
        requires
            self.args_view().len() > 0,
        ensures
            r@ == self.args_view()[0],
    {
        &self.args[0]
    }

    /// Decides what the command does: `echo` prints its other arguments,
    /// `atags` lists the boot tags, and any other path is reported unknown.
    pub fn execute(&self) -> (r: Outcome)
        requires
            self.args_view().len() > 0,
        ensures
            self.args_view()[0] == echo_path() ==> r is Print && r->Print_0@ == joined_from(
                self.args_view(),
                1,
            ),
            self.args_view()[0] != echo_path() && self.args_view()[0] == atags_path() ==> r is ListAtags,
            self.args_view()[0] != echo_path() && self.args_view()[0] != atags_path() ==> r is Print
                && r->Print_0@ == unknown_message() + self.args_view()[0],
    {
        let path = &self.args[0];
        if bytes_eq(path, &echo_name()) {
            Outcome::Print(echo_cmd(&self.args))
        } else if bytes_eq(path, &atags_name()) {
            Outcome::ListAtags
        } else {
            let mut msg = unknown_prefix();
            let ghost m = msg@;
            let mut i: usize = 0;
            while i < path.len()
                invariant
                    i <= path@.len(),
                    msg@ == m + path@.subrange(0, i as int),
                decreases path@.len() - i,
            {
                msg.push(path[i]);
                i = i + 1;
                assert(msg@ =~= m + path@.subrange(0, i as int));
            }
            assert(path@.subrange(0, path@.len() as int) =~= path@);
            Outcome::Print(msg)
        }
    }
}

/// What a command asks the console to do.
pub enum Outcome {
    /// Print these bytes.
    Print(Vec<u8>),
    /// List the boot tags that the firmware handed over.
    ListAtags,
}

/// The path of the `echo` command.
pub open spec fn echo_path() -> Seq<u8> {
    seq![0x65u8, 0x63, 0x68, 0x6f]
}

/// The path of the `atags` command.
pub open spec fn atags_path() -> Seq<u8> {
    seq![0x61u8, 0x74, 0x61, 0x67, 0x73]
}

/// The message that precedes an unknown path: `unknown command: `.
pub open spec fn unknown_message() -> Seq<u8> {
    seq![
        0x75u8, 0x6e, 0x6b, 0x6e, 0x6f, 0x77, 0x6e, 0x20, 0x63, 0x6f, 0x6d, 0x6d, 0x61, 0x6e,
        0x64, 0x3a, 0x20,
    ]
}

/// Arguments `i` onwards, each followed by a space.
pub open spec fn joined_from(args: Seq<Seq<u8>>, i: int) -> Seq<u8>
    decreases args.len() - i,
{
    if i < 0 || i >= args.len() {
        Seq::empty()
    } else {
        args[i] + seq![SPACE] + joined_from(args, i + 1)
    }
}

/// Whether two byte strings are equal.
fn bytes_eq(a: &Vec<u8>, b: &Vec<u8>) -> (r: bool)
    ensures
        r == (a@ == b@),
{
    if a.len() != b.len() {
        return false;
    }
    let mut i: usize = 0;
    while i < a.len()
        invariant
            i <= a@.len(),
            a@.len() == b@.len(),
            a@.subrange(0, i as int) == b@.subrange(0, i as int),
        decreases a@.len() - i,
    {
        if a[i] != b[i] {
            assert(a@.subrange(0, i as int + 1)[i as int] != b@.subrange(0, i as int + 1)[i as int]);
            assert(a@[i as int] != b@[i as int]);
            return false;
        }
        i = i + 1;
        assert(a@.subrange(0, i as int) =~= b@.subrange(0, i as int));
    }
    assert(a@ =~= a@.subrange(0, i as int));
    assert(b@ =~= b@.subrange(0, i as int));
    true
}

/// The bytes of `echo`.
fn echo_name() -> (r: Vec<u8>)
    ensures
        r@ == echo_path(),
{
    let mut r: Vec<u8> = Vec::new();
    r.push(0x65);
    r.push(0x63);
    r.push(0x68);
    r.push(0x6f);
    assert(r@ =~= echo_path());
    r
}

/// The bytes of `atags`.
fn atags_name() -> (r: Vec<u8>)
    ensures
        r@ == atags_path(),
{
    let mut r: Vec<u8> = Vec::new();
    r.push(0x61);
    r.push(0x74);
    r.push(0x61);
    r.push(0x67);
    r.push(0x73);
    assert(r@ =~= atags_path());
    r
}

/// The bytes of `unknown command: `.
fn unknown_prefix() -> (r: Vec<u8>)
    ensures
        r@ == unknown_message(),
{
    let mut r: Vec<u8> = Vec::new();
    r.push(0x75);
    r.push(0x6e);
    r.push(0x6b);
    r.push(0x6e);
    r.push(0x6f);
    r.push(0x77);
    r.push(0x6e);
    r.push(0x20);
    r.push(0x63);
    r.push(0x6f);
    r.push(0x6d);
    r.push(0x6d);
    r.push(0x61);
    r.push(0x6e);
    r.push(0x64);
    r.push(0x3a);
    r.push(0x20);
    assert(r@ =~= unknown_message());
    r
}

/// The output of `echo`: every argument after the first, each followed by a
/// space.
pub fn echo_cmd(args: &Vec<Vec<u8>>) -> (r: Vec<u8>)
    ensures
        r@ == joined_from(strings_of(args@), 1),
{
    let ghost a = strings_of(args@);
    let mut r: Vec<u8> = Vec::new();
    let mut i: usize = 1;
    if args.len() == 0 {
        return r;
    }
    while i < args.len()
        invariant
            1 <= i <= args@.len(),
            a == strings_of(args@),
            r@ + joined_from(a, i as int) == joined_from(a, 1),
        decreases args@.len() - i,
    {
        let ghost before = r@;
        let arg = &args[i];
        let mut j: usize = 0;
        while j < arg.len()
            invariant
                j <= arg@.len(),
                r@ == before + arg@.subrange(0, j as int),
            decreases arg@.len() - j,
        {
            r.push(arg[j]);
            j = j + 1;
            assert(r@ =~= before + arg@.subrange(0, j as int));
        }
        r.push(SPACE);
        assert(arg@.subrange(0, arg@.len() as int) =~= arg@);
        assert(a[i as int] == arg@);
        assert(r@ =~= before + a[i as int] + seq![SPACE]);
        assert(before + joined_from(a, i as int) =~= r@ + joined_from(a, i + 1));
        i = i + 1;
    }
    assert(r@ + joined_from(a, i as int) =~= r@);
    r
}

/// Byte 127 (delete) or 8 (backspace): erase the last character.
pub open spec fn is_erase(b: u8) -> bool {
    b == 0x7f || b == 0x08
}

/// Line feed or carriage return: submit the line.
pub open spec fn is_enter(b: u8) -> bool {
    b == 0x0a || b == 0x0d
}

/// A visible ASCII character or ASCII white space (tab, line feed, form
/// feed, carriage return, space).
pub open spec fn is_typeable(b: u8) -> bool {
    (0x21 <= b <= 0x7e) || b == 0x09 || b == 0x0a || b == 0x0c || b == 0x0d || b == 0x20
}

/// What the line editor did with one input byte, for the console to show.
pub enum Edit {
    /// The last character was removed: rub it out on the screen.
    Erased,
    /// Nothing changed and nothing is to be shown.
    Ignored,
    /// The byte cannot be typed: ring the bell.
    Bell,
    /// The byte was appended to the line: echo it.
    Typed(u8),
    /// The line is complete: here it is, and the editor starts a new one.
    Submitted(Vec<u8>),
}

/// Applies one input byte to the line being edited, which holds at most
/// `capacity` bytes.
pub fn edit_line(line: &mut Vec<u8>, byte: u8, capacity: usize) -> (r: Edit)
    ensures
        is_erase(byte) && old(line)@.len() > 0 ==> r is Erased && final(line)@ == old(
            line,
        )@.drop_last(),
        is_erase(byte) && old(line)@.len() == 0 ==> r is Ignored && final(line)@ == old(line)@,
        is_enter(byte) ==> r is Submitted && r->Submitted_0@ == old(line)@ && final(line)@.len()
            == 0,
        !is_erase(byte) && !is_enter(byte) && !is_typeable(byte) ==> r is Bell && final(line)@
            == old(line)@,
        !is_erase(byte) && !is_enter(byte) && is_typeable(byte) && old(line)@.len() >= capacity
            ==> r is Ignored && final(line)@ == old(line)@,
        !is_erase(byte) && !is_enter(byte) && is_typeable(byte) && old(line)@.len() < capacity
            ==> r == Edit::Typed(byte) && final(line)@ == old(line)@.push(byte),
{
    if byte == 0x7f || byte == 0x08 {
        if line.len() > 0 {
            line.pop();
            Edit::Erased
        } else {
            Edit::Ignored
        }
    } else if byte == 0x0a || byte == 0x0d {
        let mut done: Vec<u8> = Vec::new();
        std::mem::swap(line, &mut done);
        Edit::Submitted(done)
    } else if !((0x21 <= byte && byte <= 0x7e) || byte == 0x09 || byte == 0x0c || byte == 0x20) {
        Edit::Bell
    } else if line.len() >= capacity {
        Edit::Ignored
    } else {
        line.push(byte);
        Edit::Typed(byte)
    }
}

} // verus!
