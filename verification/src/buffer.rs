//! The content of a text box while it is edited.

use vstd::prelude::*;

use crate::text;
use crate::text::{byte_len, char_boundary, count_within};

verus! {

/// Text box content and cursor. The cursor counts chars, not bytes, and stays at the end.
#[derive(Debug, PartialEq, Eq)]
pub struct TextBuffer {
    pub text: String,
    pub cursor: usize,
}

impl View for TextBuffer {
    type V = Seq<char>;

    open spec fn view(&self) -> Seq<char> {
        self.text@
    }
}

/// The text without its last `n` characters.
pub open spec fn without_last(s: Seq<char>, n: int) -> Seq<char> {
    s.take(if n <= s.len() { s.len() - n } else { 0 })
}

/// The text without its last `n` bytes, and without what is left of a character they cut.
pub open spec fn without_last_bytes(s: Seq<char>, n: int) -> Seq<char> {
    s.take(
        text::chars_within(
            s,
            if n <= text::utf8_len(s) { text::utf8_len(s) - n } else { 0 },
        ) as int,
    )
}

impl TextBuffer {
    /// The cursor stands at the end of the text.
    pub open spec fn wf(self) -> bool {
        self.cursor == self.text@.len()
    }

    pub fn new(text: &str) -> (r: TextBuffer)
        ensures
            r.wf(),
            r@ == text@,
    {
        TextBuffer { text: text.to_string(), cursor: text.unicode_len() }
    }

    pub fn insert(&mut self, s: &str)
        requires
            old(self).wf(),
        ensures
            final(self).wf(),
            final(self)@ == old(self)@ + s@,
    {
        self.text.append(s);
        self.cursor = self.text.as_str().unicode_len();
    }

    pub fn backspace(&mut self) -> (r: bool)
        requires
            old(self).wf(),
        ensures
            final(self).wf(),
            r == (old(self)@.len() > 0),
            final(self)@ == without_last(old(self)@, 1),
    {
        self.delete_before(1)
    }

    /// Delete the `n` characters before the cursor, or all of them; returns whether anything
    /// was deleted.
    pub fn delete_before(&mut self, n: usize) -> (r: bool)
        requires
            old(self).wf(),
        ensures
            final(self).wf(),
            r == (n > 0 && old(self)@.len() > 0),
            final(self)@ == without_last(old(self)@, n as int),
    {
        let n: usize = if n <= self.cursor { n } else { self.cursor };
        if n == 0 {
            proof {
                assert(self@.take(self@.len() as int) == self@);
            }
            return false;
        }
        let keep: usize = self.cursor - n;
        let kept: String = self.text.as_str().substring_char(0, keep).to_string();
        proof {
            assert(self@.subrange(0, keep as int) == self@.take(keep as int));
        }
        self.text = kept;
        self.cursor = keep;
        true
    }

    /// Delete the `n` bytes before the cursor, and with them every character they belong to;
    /// returns whether anything was deleted.
    pub fn delete_before_bytes(&mut self, n: usize) -> (r: bool)
        requires
            old(self).wf(),
        ensures
            final(self).wf(),
            r == (n > 0 && old(self)@.len() > 0),
            final(self)@ == without_last_bytes(old(self)@, n as int),
    {
        let total: usize = byte_len(&self.text);
        let room: usize = if n <= total { total - n } else { 0 };
        let keep: usize = count_within(&self.text, room);
        proof {
            text::lemma_chars_within(self@, room as int);
            assert(self@.take(self@.len() as int) == self@);
            if self@.len() > 0 {
                text::lemma_utf8_len_step(self@, self@.len() - 1);
                if keep < self@.len() {
                    text::lemma_utf8_len_step(self@, keep as int);
                }
            } else {
                assert(self@.take(0) == self@);
            }
        }
        let removed: bool = keep < self.cursor;
        let kept: String = self.text.as_str().substring_char(0, keep).to_string();
        proof {
            assert(self@.subrange(0, keep as int) == self@.take(keep as int));
        }
        self.text = kept;
        self.cursor = keep;
        removed
    }

    pub fn surrounding(&self) -> (r: (&str, usize))
        requires
            self.wf(),
        ensures
            r.0@ == self@,
            r.1 == self@.len(),
    {
        (self.text.as_str(), self.cursor)
    }

    /// Byte offset of the cursor.
    pub fn cursor_bytes(&self) -> (r: usize)
        requires
            self.wf(),
        ensures
            r == text::utf8_len(self@),
    {
        proof {
            assert(self@.take(self@.len() as int) == self@);
        }
        char_boundary(&self.text, self.cursor)
    }

    /// Character offset the preedit is inserted at.
    pub fn preedit_at(&self) -> (r: usize)
        requires
            self.wf(),
        ensures
            r == self@.len(),
    {
        self.cursor
    }
}

/// Deleting as many characters as were inserted, or as many bytes, undoes the insertion.
pub proof fn deleting_undoes_inserting(before: Seq<char>, inserted: Seq<char>)
    ensures
        without_last(before + inserted, inserted.len() as int) == before,
        without_last_bytes(before + inserted, text::utf8_len(inserted) as int) == before,
{
    let after = before + inserted;
    assert(after.take(before.len() as int) == before);
    text::lemma_encode_concat(before, inserted);
    let room = text::utf8_len(before) as int;
    text::lemma_chars_within(after, room);
    let n = text::chars_within(after, room) as int;
    if n < before.len() {
        lemma_longer_prefix_is_longer(after, n + 1, before.len() as int);
    } else if n > before.len() {
        lemma_longer_prefix_is_longer(after, before.len() as int, n);
    }
}

/// A longer beginning of a text takes more bytes.
pub proof fn lemma_longer_prefix_is_longer(s: Seq<char>, a: int, b: int)
    requires
        0 <= a <= b <= s.len(),
    ensures
        text::utf8_len(s.take(a)) <= text::utf8_len(s.take(b)),
        a < b ==> text::utf8_len(s.take(a)) < text::utf8_len(s.take(b)),
    decreases b - a,
{
    if a < b {
        lemma_longer_prefix_is_longer(s, a, b - 1);
        text::lemma_utf8_len_step(s, b - 1);
    }
}

/// A backspace takes the last character back, however many bytes it has; deleting characters
/// one after another deletes them together; deleting more than there are deletes all.
pub proof fn deletions_add_up(s: Seq<char>, c: char, a: nat, b: nat)
    ensures
        without_last(s.push(c), 1) == s,
        without_last(without_last(s, a as int), b as int) == without_last(s, (a + b) as int),
        a >= s.len() ==> without_last(s, a as int) == Seq::<char>::empty(),
{
    assert(without_last(s.push(c), 1) == s);
    assert(without_last(without_last(s, a as int), b as int) == without_last(s, (a + b) as int));
}

} // verus!
