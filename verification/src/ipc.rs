//! The control protocol: command lines, their framing, and the replies.

use vstd::prelude::*;
use vstd::utf8::*;

use crate::store;
use crate::store::join;
use crate::text;
use crate::text::{chars_of, decode, joined, same_text, trim, trim_end};

verus! {

/// The longest command line that is read, line feed included.
pub const MAX_COMMAND_BYTES: usize = 4096;

/// A single command line from the control socket.
#[derive(Debug, Clone, Copy, PartialEq, Eq, Structural)]
pub enum Command {
    Toggle,
    Edit,
    Lock,
    Clear,
}

/// The word a command is sent as.
pub open spec fn word_of(command: Command) -> Seq<char> {
    match command {
        Command::Toggle => "toggle"@,
        Command::Edit => "edit"@,
        Command::Lock => "lock"@,
        Command::Clear => "clear"@,
    }
}

/// The command a line asks for, white space around it aside.
pub open spec fn command_of(line: Seq<char>) -> Option<Command> {
    let word = text::trimmed(line);
    if word == "toggle"@ {
        Some(Command::Toggle)
    } else if word == "edit"@ {
        Some(Command::Edit)
    } else if word == "lock"@ {
        Some(Command::Lock)
    } else if word == "clear"@ {
        Some(Command::Clear)
    } else {
        None
    }
}

/// What is wrong with a line that asks for no command.
pub open spec fn complaint_of(line: Seq<char>) -> Seq<char> {
    let word = text::trimmed(line);
    if word.len() == 0 { "empty command"@ } else { "unknown command '"@ + word + "'"@ }
}

impl Command {
    pub fn parse(line: &str) -> (r: Result<Command, String>)
        ensures
            r is Ok <==> command_of(line@) is Some,
            r is Ok ==> command_of(line@) == Some(r->Ok_0),
            r is Err ==> r->Err_0@ == complaint_of(line@),
    {
        let word: &str = trim(line);
        if same_text(word, "toggle") {
            Ok(Command::Toggle)
        } else if same_text(word, "edit") {
            Ok(Command::Edit)
        } else if same_text(word, "lock") {
            Ok(Command::Lock)
        } else if same_text(word, "clear") {
            Ok(Command::Clear)
        } else if word.unicode_len() == 0 {
            Err("empty command".to_string())
        } else {
            Err(joined(joined("unknown command '", word).as_str(), "'"))
        }
    }

    /// The word the command is sent as.
    pub fn word(self) -> (r: &'static str)
        ensures
            r@ == word_of(self),
    {
        match self {
            Command::Toggle => "toggle",
            Command::Edit => "edit",
            Command::Lock => "lock",
            Command::Clear => "clear",
        }
    }
}

/// What the program was started to do.
#[derive(Debug, Clone, Copy, PartialEq, Eq, Structural)]
pub enum Invocation {
    /// Run the daemon.
    Daemon,
    /// Send a command to the daemon.
    Send(Command),
    /// Complain about the argument and show the usage.
    Unknown,
    /// Show the usage.
    Usage,
}

/// What the first argument asks for.
pub open spec fn invocation_of(argument: Option<Seq<char>>) -> Invocation {
    match argument {
        None => Invocation::Usage,
        Some(a) => if a == "daemon"@ {
            Invocation::Daemon
        } else if a == "toggle"@ {
            Invocation::Send(Command::Toggle)
        } else if a == "edit"@ {
            Invocation::Send(Command::Edit)
        } else if a == "lock"@ {
            Invocation::Send(Command::Lock)
        } else if a == "clear"@ {
            Invocation::Send(Command::Clear)
        } else {
            Invocation::Unknown
        },
    }
}

/// What the program was started to do, by its first argument.
pub fn invocation(argument: Option<&str>) -> (r: Invocation)
    ensures
        argument is Some ==> r == invocation_of(Some(argument->0@)),
        argument is None ==> r == invocation_of(None),
{
    match argument {
        None => Invocation::Usage,
        Some(a) => if same_text(a, "daemon") {
            Invocation::Daemon
        } else if same_text(a, "toggle") {
            Invocation::Send(Command::Toggle)
        } else if same_text(a, "edit") {
            Invocation::Send(Command::Edit)
        } else if same_text(a, "lock") {
            Invocation::Send(Command::Lock)
        } else if same_text(a, "clear") {
            Invocation::Send(Command::Clear)
        } else {
            Invocation::Unknown
        },
    }
}

/// The control socket in the runtime directory, where that is known.
pub fn socket_in(runtime_dir: Option<&str>) -> (r: Option<String>)
    ensures
        r is Some <==> runtime_dir is Some,
        r is Some ==> r->0@ == store::below(runtime_dir->0@, "sgraffito.sock"@),
{
    match runtime_dir {
        Some(dir) => Some(join(dir, "sgraffito.sock")),
        None => None,
    }
}

/// Where the first line feed is, or the length where there is none.
pub open spec fn line_feed(bytes: Seq<u8>) -> nat
    decreases bytes.len(),
{
    if bytes.len() == 0 || bytes[0] == 10 { 0 } else { 1 + line_feed(bytes.drop_first()) }
}

/// What the bytes read so far amount to.
pub enum Framed {
    /// No line feed yet.
    Incomplete,
    /// The first line, line feed included.
    Line(Seq<u8>),
    /// The first line is longer than is read.
    TooLong,
}

/// The first line of a stream of bytes.
pub open spec fn framed(bytes: Seq<u8>) -> Framed {
    let n = line_feed(bytes) as int;
    if n < bytes.len() {
        if n + 1 > MAX_COMMAND_BYTES {
            Framed::TooLong
        } else {
            Framed::Line(bytes.take(n + 1))
        }
    } else if bytes.len() > MAX_COMMAND_BYTES {
        Framed::TooLong
    } else {
        Framed::Incomplete
    }
}

/// What a part of a command line made of it.
#[derive(Debug, PartialEq, Eq)]
pub enum Progress {
    /// More has to be read.
    More,
    /// The command line, without its trailing white space.
    Command(String),
    /// Why there is no command line.
    Failed(String),
}

/// A command line being read.
#[derive(Debug)]
pub struct CommandReader {
    pub line: Vec<u8>,
}

impl CommandReader {
    pub fn new() -> (r: CommandReader)
        ensures
            r.line@ == Seq::<u8>::empty(),
    {
        CommandReader { line: Vec::new() }
    }

    /// Take in what one read gave; nothing means that the stream ended.
    pub fn feed(&mut self, chunk: &[u8]) -> (r: Progress)
        requires
            framed(old(self).line@) is Incomplete,
        ensures
            chunk@.len() == 0 ==> (r matches Progress::Failed(e) && e@
                == "command ended before newline"@),
            chunk@.len() > 0 ==> match framed(old(self).line@ + chunk@) {
                Framed::Incomplete => r is More && final(self).line@ == old(self).line@ + chunk@
                    && framed(final(self).line@) is Incomplete,
                Framed::TooLong => r matches Progress::Failed(e) && e@
                    == "command line is too long"@,
                Framed::Line(line) => if valid_utf8(line) {
                    r matches Progress::Command(c) && c@ == text::end_trimmed(decode_utf8(line))
                } else {
                    r matches Progress::Failed(e) && e@ == text::utf8_complaint(line)
                },
            },
    {
        if chunk.len() == 0 {
            return Progress::Failed("command ended before newline".to_string());
        }
        let ghost start = self.line@;
        let mut n: usize = 0;
        while n < chunk.len() && chunk[n] != 10
            invariant
                n <= chunk@.len(),
                forall|i: int| 0 <= i < n ==> chunk@[i] != 10,
            decreases chunk@.len() - n,
        {
            n = n + 1;
        }
        let ghost all = start + chunk@;
        proof {
            lemma_line_feed(start);
            lemma_line_feed_is(all, start.len() + n);
        }
        let taken: usize = if n < chunk.len() { n + 1 } else { n };
        if taken > MAX_COMMAND_BYTES || self.line.len() > MAX_COMMAND_BYTES - taken {
            return Progress::Failed("command line is too long".to_string());
        }
        let mut i: usize = 0;
        while i < taken
            invariant
                i <= taken <= chunk@.len(),
                self.line@ =~= start + chunk@.take(i as int),
            decreases taken - i,
        {
            self.line.push(chunk[i]);
            i = i + 1;
        }
        if n == chunk.len() {
            proof {
                assert(chunk@.take(n as int) =~= chunk@);
            }
            return Progress::More;
        }
        proof {
            assert(start + chunk@.take(n + 1) =~= all.take(start.len() + n + 1));
        }
        match decode(self.line.clone()) {
            Ok(line) => Progress::Command(trim_end(line.as_str()).to_string()),
            Err(e) => Progress::Failed(e),
        }
    }
}

proof fn lemma_line_feed(s: Seq<u8>)
    ensures
        line_feed(s) <= s.len(),
        line_feed(s) < s.len() ==> s[line_feed(s) as int] == 10,
        forall|i: int| 0 <= i < line_feed(s) ==> s[i] != 10,
    decreases s.len(),
{
    if s.len() > 0 && s[0] != 10 {
        lemma_line_feed(s.drop_first());
        assert forall|i: int| 0 <= i < line_feed(s) implies s[i] != 10 by {
            if i > 0 {
                assert(s.drop_first()[i - 1] == s[i]);
            }
        }
    }
}

proof fn lemma_line_feed_is(s: Seq<u8>, n: int)
    requires
        0 <= n <= s.len(),
        n < s.len() ==> s[n] == 10,
        forall|i: int| 0 <= i < n ==> s[i] != 10,
    ensures
        line_feed(s) == n,
    decreases s.len(),
{
    if n > 0 {
        assert(s.drop_first().len() == s.len() - 1);
        lemma_line_feed_is(s.drop_first(), n - 1);
    }
}

/// How serving a client came out.
#[derive(Debug, PartialEq, Eq)]
pub enum Served {
    /// The command could not be read; why.
    Unreadable(String),
    /// Nobody takes commands any more.
    ShuttingDown,
    /// Nobody replied in time.
    NoResponse,
    /// The reply to the command.
    Replied(String),
}

/// The line a client is answered.
pub open spec fn reply_of(served: Served) -> Seq<char> {
    match served {
        Served::Unreadable(e) => "error: failed to read the command: "@ + e@,
        Served::ShuttingDown => "error: daemon is shutting down"@,
        Served::NoResponse => "error: daemon did not respond"@,
        Served::Replied(reply) => reply@,
    }
}

/// The line a client is answered.
pub fn client_reply(served: Served) -> (r: String)
    ensures
        r@ == reply_of(served),
{
    match served {
        Served::Unreadable(e) => joined("error: failed to read the command: ", e.as_str()),
        Served::ShuttingDown => "error: daemon is shutting down".to_string(),
        Served::NoResponse => "error: daemon did not respond".to_string(),
        Served::Replied(reply) => reply,
    }
}

/// The text starts with another one.
pub open spec fn starts_with(s: Seq<char>, prefix: Seq<char>) -> bool {
    prefix.len() <= s.len() && s.take(prefix.len() as int) == prefix
}

fn begins(s: &str, prefix: &str) -> (r: bool)
    ensures
        r == starts_with(s@, prefix@),
{
    let (cs, ps): (Vec<char>, Vec<char>) = (chars_of(s), chars_of(prefix));
    if ps.len() > cs.len() {
        return false;
    }
    let mut i: usize = 0;
    while i < ps.len()
        invariant
            cs@ == s@,
            ps@ == prefix@,
            i <= ps@.len() <= cs@.len(),
            forall|j: int| 0 <= j < i ==> cs@[j] == ps@[j],
        decreases ps@.len() - i,
    {
        if cs[i] != ps[i] {
            proof {
                assert(s@.take(ps@.len() as int)[i as int] != prefix@[i as int]);
            }
            return false;
        }
        i = i + 1;
    }
    proof {
        assert(s@.take(prefix@.len() as int) =~= prefix@);
    }
    true
}

/// What a reply means to the one who sent the command: what to print, or why it failed.
pub open spec fn meaning_of(command: Seq<char>, reply: Seq<char>) -> Result<Seq<char>, Seq<char>> {
    let line = text::end_trimmed(reply);
    if starts_with(line, "error:"@) {
        Err(command + " failed:"@ + line.skip("error:"@.len() as int))
    } else if !starts_with(line, "ok"@) {
        Err(command + " got an unexpected response '"@ + line + "'"@)
    } else {
        Ok(line)
    }
}

/// What a reply means to the one who sent the command: what to print, or why it failed.
pub fn interpret(command: &str, reply: &str) -> (r: Result<String, String>)
    ensures
        r is Ok <==> meaning_of(command@, reply@) is Ok,
        r is Ok ==> r->Ok_0@ == meaning_of(command@, reply@)->Ok_0,
        r is Err ==> r->Err_0@ == meaning_of(command@, reply@)->Err_0,
{
    let line: &str = trim_end(reply);
    if begins(line, "error:") {
        let (from, to): (usize, usize) = ("error:".unicode_len(), line.unicode_len());
        let rest: &str = line.substring_char(from, to);
        proof {
            assert(line@.subrange(from as int, to as int) =~= line@.skip(from as int));
        }
        return Err(joined(joined(command, " failed:").as_str(), rest));
    }
    if !begins(line, "ok") {
        return Err(
            joined(joined(joined(command, " got an unexpected response '").as_str(), line).as_str(), "'"),
        );
    }
    Ok(line.to_string())
}

/// Only the first line counts: what comes after it, or after it has become too long, changes
/// nothing. So it does not matter in which pieces a command line arrives.
pub proof fn only_the_first_line_counts(read: Seq<u8>, rest: Seq<u8>)
    requires
        !(framed(read) is Incomplete),
    ensures
        framed(read + rest) == framed(read),
{
    let all = read + rest;
    let n = line_feed(read) as int;
    lemma_line_feed(read);
    lemma_line_feed(all);
    if n < read.len() {
        lemma_line_feed_is(all, n);
        assert(all.take(n + 1) =~= read.take(n + 1));
    } else {
        let m = line_feed(all) as int;
        if m < read.len() {
            assert(all[m] == read[m]);
        }
    }
}

proof fn lemma_line_feed_byte(u: u32)
    requires
        u != 10,
    ensures
        forall|i: int| 0 <= i < encode_scalar(u).len() ==> #[trigger] encode_scalar(u)[i] != 10,
{
    assert(u <= 0x7f && (u & 0x7f) as u8 == 10u8 ==> u == 10) by (bit_vector);
    assert(0xc0u8 | ((u >> 6) & 0x1f) as u8 != 10u8) by (bit_vector);
    assert(0xe0u8 | ((u >> 12) & 0x0f) as u8 != 10u8) by (bit_vector);
    assert(0xf0u8 | ((u >> 18) & 0x7) as u8 != 10u8) by (bit_vector);
    assert(0x80u8 | (u & 0x3f) as u8 != 10u8) by (bit_vector);
    assert(0x80u8 | ((u >> 6) & 0x3f) as u8 != 10u8) by (bit_vector);
    assert(0x80u8 | ((u >> 12) & 0x3f) as u8 != 10u8) by (bit_vector);
}

proof fn lemma_line_feed_char(c: char)
    requires
        c != '\n',
    ensures
        c as u32 != 10,
{
}

proof fn lemma_no_line_feed_byte(s: Seq<char>)
    requires
        forall|i: int| 0 <= i < s.len() ==> s[i] != '\n',
    ensures
        forall|i: int| 0 <= i < encode_utf8(s).len() ==> encode_utf8(s)[i] != 10,
    decreases s.len(),
{
    if s.len() > 0 {
        let head = encode_scalar(s[0] as u32);
        lemma_line_feed_char(s[0]);
        lemma_line_feed_byte(s[0] as u32);
        lemma_no_line_feed_byte(s.drop_first());
        assert forall|i: int| 0 <= i < encode_utf8(s).len() implies encode_utf8(s)[i] != 10 by {
            if i >= head.len() {
                assert(encode_utf8(s)[i] == encode_utf8(s.drop_first())[i - head.len()]);
            }
        }
    }
}

/// A line that is sent with a line feed behind it arrives as it is, its trailing white space
/// aside, where it is not longer than is read.
pub proof fn a_line_arrives_as_it_was_sent(line: Seq<char>)
    requires
        forall|i: int| 0 <= i < line.len() ==> line[i] != '\n',
        text::utf8_len(line) < MAX_COMMAND_BYTES,
    ensures
        framed(encode_utf8(line + "\n"@)) == Framed::Line(encode_utf8(line + "\n"@)),
        valid_utf8(encode_utf8(line + "\n"@)),
        text::end_trimmed(decode_utf8(encode_utf8(line + "\n"@))) == text::end_trimmed(line),
{
    reveal_strlit("\n");
    let sent = line + "\n"@;
    let feed = "\n"@;
    text::lemma_encode_concat(line, feed);
    assert(feed.drop_first() =~= Seq::<char>::empty());
    assert(encode_utf8(feed) =~= encode_scalar('\n' as u32) + encode_utf8(feed.drop_first()));
    assert((10u32 & 0x7f) as u8 == 10u8) by (bit_vector);
    assert(encode_utf8(feed) =~= seq![10u8]);
    let bytes = encode_utf8(sent);
    lemma_no_line_feed_byte(line);
    let n = encode_utf8(line).len() as int;
    assert forall|i: int| 0 <= i < n implies bytes[i] != 10 by {
        assert(bytes[i] == encode_utf8(line)[i]);
    }
    lemma_line_feed_is(bytes, n);
    assert(bytes.take(n + 1) =~= bytes);
    encode_utf8_valid_utf8(sent);
    encode_utf8_decode_utf8(sent);
    assert(sent.drop_last() =~= line);
}

/// Only white space.
pub open spec fn is_blank(s: Seq<char>) -> bool {
    forall|i: int| 0 <= i < s.len() ==> text::is_white_space(s[i])
}

proof fn lemma_leading_blank(blank: Seq<char>, s: Seq<char>)
    requires
        is_blank(blank),
    ensures
        text::start_trimmed(blank + s) == text::start_trimmed(s),
    decreases blank.len(),
{
    if blank.len() == 0 {
        assert(blank + s =~= s);
    } else {
        assert((blank + s).drop_first() =~= blank.drop_first() + s);
        lemma_leading_blank(blank.drop_first(), s);
    }
}

proof fn lemma_trailing_blank(s: Seq<char>, blank: Seq<char>)
    requires
        is_blank(blank),
    ensures
        text::trimmed(s + blank) == text::trimmed(s),
    decreases s.len(), blank.len(),
{
    if s.len() > 0 && text::is_white_space(s[0]) {
        assert((s + blank).drop_first() =~= s.drop_first() + blank);
        lemma_trailing_blank(s.drop_first(), blank);
    } else if s.len() == 0 {
        lemma_leading_blank(blank, Seq::empty());
        assert(blank + Seq::<char>::empty() =~= blank);
        assert(s + blank =~= blank);
    } else if blank.len() > 0 {
        assert((s + blank)[0] == s[0]);
        assert((s + blank).drop_last() =~= s + blank.drop_last());
        assert((s + blank).last() == blank.last());
        assert((s + blank.drop_last())[0] == s[0]);
        lemma_trailing_blank(s, blank.drop_last());
    } else {
        assert(s + blank =~= s);
    }
}

/// White space around a command line changes nothing.
pub proof fn white_space_around_a_command_is_ignored(
    before: Seq<char>,
    line: Seq<char>,
    after: Seq<char>,
)
    requires
        is_blank(before),
        is_blank(after),
    ensures
        command_of(before + line + after) == command_of(line),
        complaint_of(before + line + after) == complaint_of(line),
{
    lemma_leading_blank(before, line + after);
    assert(before + line + after =~= before + (line + after));
    lemma_trailing_blank(line, after);
}

/// Every command's word is understood as that command, and sent for that argument.
pub proof fn every_word_is_understood(command: Command)
    ensures
        command_of(word_of(command)) == Some(command),
        invocation_of(Some(word_of(command))) == Invocation::Send(command),
{
    reveal_strlit("daemon");
    reveal_strlit("toggle");
    reveal_strlit("edit");
    reveal_strlit("lock");
    reveal_strlit("clear");
    let word = word_of(command);
    assert(text::start_trimmed(word) == word);
    assert(text::end_trimmed(word) == word);
    assert("toggle"@.len() == 6 && "daemon"@.len() == 6 && "edit"@.len() == 4 && "lock"@.len() == 4
        && "clear"@.len() == 5);
    assert("toggle"@[0] == 't' && "daemon"@[0] == 'd' && "edit"@[0] == 'e' && "lock"@[0] == 'l');
}

proof fn lemma_prefix_survives_trimming(s: Seq<char>, prefix: Seq<char>)
    requires
        starts_with(s, prefix),
        prefix.len() > 0,
        !text::is_white_space(prefix.last()),
    ensures
        starts_with(text::end_trimmed(s), prefix),
    decreases s.len(),
{
    if text::is_white_space(s.last()) {
        let n = prefix.len() as int;
        assert(s.take(n)[n - 1] == prefix[n - 1]);
        assert(s.drop_last().take(n) =~= s.take(n));
        lemma_prefix_survives_trimming(s.drop_last(), prefix);
    }
}

/// An error reply is never taken for a success, and a success is taken for what it is.
pub proof fn errors_are_never_read_as_success(command: Seq<char>, reason: Seq<char>)
    ensures
        meaning_of(command, "error:"@ + reason) is Err,
        meaning_of(command, "ok"@) == Ok::<Seq<char>, Seq<char>>("ok"@),
{
    reveal_strlit("error:");
    reveal_strlit("ok");
    let reply = "error:"@ + reason;
    assert(reply.take(6) =~= "error:"@);
    lemma_prefix_survives_trimming(reply, "error:"@);
    assert(text::end_trimmed("ok"@) == "ok"@);
    assert("ok"@.take(2) =~= "ok"@);
    assert("ok"@.take(2)[0] == 'o');
}

/// A client that could not be served is told of an error.
pub proof fn a_client_that_is_not_served_sees_an_error(command: Seq<char>, served: Served)
    requires
        !(served is Replied),
    ensures
        meaning_of(command, reply_of(served)) is Err,
{
    reveal_strlit("error:");
    reveal_strlit("error: failed to read the command: ");
    reveal_strlit("error: daemon is shutting down");
    reveal_strlit("error: daemon did not respond");
    let reply = reply_of(served);
    assert(reply =~= "error:"@ + reply.skip(6));
    errors_are_never_read_as_success(command, reply.skip(6));
}

proof fn lemma_start_trimmed(s: Seq<char>) -> (blank: Seq<char>)
    ensures
        is_blank(blank),
        s == blank + text::start_trimmed(s),
        text::start_trimmed(s).len() > 0 ==> !text::is_white_space(text::start_trimmed(s)[0]),
    decreases s.len(),
{
    if s.len() > 0 && text::is_white_space(s[0]) {
        let rest = lemma_start_trimmed(s.drop_first());
        let blank = seq![s[0]] + rest;
        assert(s =~= blank + text::start_trimmed(s)) by {
            assert(s =~= seq![s[0]] + s.drop_first());
        }
        blank
    } else {
        assert(s =~= Seq::empty() + s);
        Seq::empty()
    }
}

proof fn lemma_end_trimmed(s: Seq<char>) -> (blank: Seq<char>)
    ensures
        is_blank(blank),
        s == text::end_trimmed(s) + blank,
        text::end_trimmed(s).len() > 0 ==> !text::is_white_space(text::end_trimmed(s).last())
            && text::end_trimmed(s)[0] == s[0],
    decreases s.len(),
{
    if s.len() > 0 && text::is_white_space(s.last()) {
        let rest = lemma_end_trimmed(s.drop_last());
        let blank = rest.push(s.last());
        assert(s =~= text::end_trimmed(s) + blank) by {
            assert(s =~= s.drop_last().push(s.last()));
        }
        blank
    } else {
        assert(s =~= s + Seq::empty());
        Seq::empty()
    }
}

/// Trimming takes the white space at both ends away and nothing else.
pub proof fn trimming_takes_only_white_space(s: Seq<char>)
    ensures
        exists|before: Seq<char>, after: Seq<char>|
            #![trigger before + text::trimmed(s) + after]
            is_blank(before) && is_blank(after) && s == before + text::trimmed(s) + after,
        text::trimmed(s).len() > 0 ==> !text::is_white_space(text::trimmed(s)[0])
            && !text::is_white_space(text::trimmed(s).last()),
{
    let before = lemma_start_trimmed(s);
    let rest = text::start_trimmed(s);
    let after = lemma_end_trimmed(rest);
    assert(s =~= before + text::trimmed(s) + after);
}

/// A line asks for a command exactly where it is the command's word, with white space around it
/// or without: `toggle`, `edit`, `lock` and `clear`.
pub proof fn only_its_word_is_a_command(line: Seq<char>)
    ensures
        command_of(line) == Some(Command::Toggle) <==> text::trimmed(line) == "toggle"@,
        command_of(line) == Some(Command::Edit) <==> text::trimmed(line) == "edit"@,
        command_of(line) == Some(Command::Lock) <==> text::trimmed(line) == "lock"@,
        command_of(line) == Some(Command::Clear) <==> text::trimmed(line) == "clear"@,
{
    reveal_strlit("toggle");
    reveal_strlit("edit");
    reveal_strlit("lock");
    reveal_strlit("clear");
    assert("toggle"@.len() == 6 && "edit"@.len() == 4 && "lock"@.len() == 4 && "clear"@.len() == 5);
    assert("edit"@[0] == 'e' && "lock"@[0] == 'l');
}

/// A line is complete where its line feed came within 4096 bytes, and too long where it did not;
/// it ends with the first line feed.
pub proof fn a_line_ends_at_its_line_feed(bytes: Seq<u8>, n: int)
    requires
        0 <= n <= bytes.len(),
        forall|i: int| 0 <= i < n ==> (#[trigger] bytes[i]) != 10,
        n < bytes.len() ==> bytes[n] == 10,
    ensures
        n < bytes.len() && n < 4096 ==> framed(bytes) == Framed::Line(bytes.take(n + 1)),
        n < bytes.len() && n >= 4096 ==> framed(bytes) is TooLong,
        n == bytes.len() && n <= 4096 ==> framed(bytes) is Incomplete,
        n == bytes.len() && n > 4096 ==> framed(bytes) is TooLong,
{
    lemma_line_feed_is(bytes, n);
}

/// The program is the daemon exactly where its first argument is `daemon`, it sends a command
/// exactly where that is the command's word and nothing besides, it shows the usage where there
/// is no argument, and it complains about any other.
pub proof fn only_its_word_starts_a_command(argument: Seq<char>)
    ensures
        invocation_of(Some(argument)) is Daemon <==> argument == "daemon"@,
        invocation_of(Some(argument)) == Invocation::Send(Command::Toggle) <==> argument
            == "toggle"@,
        invocation_of(Some(argument)) == Invocation::Send(Command::Edit) <==> argument == "edit"@,
        invocation_of(Some(argument)) == Invocation::Send(Command::Lock) <==> argument == "lock"@,
        invocation_of(Some(argument)) == Invocation::Send(Command::Clear) <==> argument
            == "clear"@,
        !(invocation_of(Some(argument)) is Usage),
        invocation_of(None) is Usage,
{
    reveal_strlit("daemon");
    reveal_strlit("toggle");
    reveal_strlit("edit");
    reveal_strlit("lock");
    reveal_strlit("clear");
    assert("daemon"@.len() == 6 && "daemon"@[0] == 'd' && "toggle"@[0] == 't');
    assert("toggle"@.len() == 6 && "edit"@.len() == 4 && "lock"@.len() == 4 && "clear"@.len() == 5);
    assert("edit"@[0] == 'e' && "lock"@[0] == 'l');
}

proof fn lemma_end_blank(s: Seq<char>, blank: Seq<char>)
    requires
        is_blank(blank),
        s.len() > 0 ==> !text::is_white_space(s.last()),
    ensures
        text::end_trimmed(s + blank) == s,
    decreases blank.len(),
{
    if blank.len() == 0 {
        assert(s + blank =~= s);
    } else {
        assert((s + blank).drop_last() =~= s + blank.drop_last());
        assert((s + blank).last() == blank.last());
        lemma_end_blank(s, blank.drop_last());
    }
}

/// A reply that starts with `ok` is a success and is printed; one that starts with `error:` is a
/// failure for the reason that follows; any other is unexpected. White space at its end, such as
/// its line feed, is not part of it.
pub proof fn a_reply_means_what_it_says(
    command: Seq<char>,
    line: Seq<char>,
    rest: Seq<char>,
    blank: Seq<char>,
)
    requires
        is_blank(blank),
        line.len() > 0 ==> !text::is_white_space(line.last()),
    ensures
        line == "ok"@ + rest ==> meaning_of(command, line + blank) == Ok::<Seq<char>, Seq<char>>(
            line,
        ),
        line == "error:"@ + rest ==> meaning_of(command, line + blank) == Err::<
            Seq<char>,
            Seq<char>,
        >(command + " failed:"@ + rest),
        (forall|tail: Seq<char>| line != #[trigger] ("ok"@ + tail)) && (forall|tail: Seq<char>|
            line != #[trigger] ("error:"@ + tail)) ==> meaning_of(command, line + blank) == Err::<
            Seq<char>,
            Seq<char>,
        >(command + " got an unexpected response '"@ + line + "'"@),
{
    reveal_strlit("ok");
    reveal_strlit("error:");
    lemma_end_blank(line, blank);
    if line == "ok"@ + rest {
        assert(line.take(2) =~= "ok"@);
        assert(line[0] == 'o');
        if starts_with(line, "error:"@) {
            assert(line.take(6)[0] == 'e');
        }
    }
    if line == "error:"@ + rest {
        assert(line.take(6) =~= "error:"@);
        assert(line.skip(6) =~= rest);
    }
    if starts_with(line, "ok"@) {
        assert(line =~= "ok"@ + line.skip(2));
    }
    if starts_with(line, "error:"@) {
        assert(line =~= "error:"@ + line.skip(6));
    }
}

/// A client whose command was carried out gets the reply as it is.
pub proof fn a_reply_is_passed_on(reply: String)
    ensures
        reply_of(Served::Replied(reply)) == reply@,
{
}

/// A word that is no command's is named in the complaint about it, without the white space around
/// it, and a line of white space alone is called empty.
pub proof fn a_complaint_names_the_word(before: Seq<char>, word: Seq<char>, after: Seq<char>)
    requires
        is_blank(before),
        is_blank(after),
        word.len() > 0 ==> !text::is_white_space(word[0]) && !text::is_white_space(word.last()),
    ensures
        word.len() > 0 ==> complaint_of(before + word + after) == "unknown command '"@ + word
            + "'"@,
        word.len() == 0 ==> complaint_of(before + word + after) == "empty command"@,
{
    white_space_around_a_command_is_ignored(before, word, after);
    assert(text::start_trimmed(word) == word);
    assert(text::end_trimmed(word) == word);
}

} // verus!
