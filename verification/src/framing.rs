use vstd::prelude::*;
use vstd::utf8::{decode_utf8, valid_utf8};

use crate::text::{decode_lossy, lossy_text, string_of, texts};

verus! {

/// A line without the carriage return that may stand before its newline.
pub open spec fn strip_cr(line: Seq<char>) -> Seq<char> {
    if line.len() > 0 && line.last() == '\r' {
        line.drop_last()
    } else {
        line
    }
}

/// The unterminated end of `text`: what follows its last newline, or all of
/// it where it has none.
pub open spec fn partial_line(text: Seq<char>) -> Seq<char>
    decreases text.len(),
{
    if text.len() == 0 {
        text
    } else if text.last() == '\n' {
        Seq::empty()
    } else {
        partial_line(text.drop_last()).push(text.last())
    }
}

/// The newline-terminated lines of `text`, in order, without their line
/// ending (`\n`, or `\r\n`).
pub open spec fn complete_lines(text: Seq<char>) -> Seq<Seq<char>>
    decreases text.len(),
{
    if text.len() == 0 {
        Seq::empty()
    } else if text.last() == '\n' {
        complete_lines(text.drop_last()).push(strip_cr(partial_line(text.drop_last())))
    } else {
        complete_lines(text.drop_last())
    }
}

/// No newline occurs in `text`.
pub open spec fn newline_free(text: Seq<char>) -> bool {
    forall|i: int| 0 <= i < text.len() ==> text[i] != '\n'
}

/// Text without a newline has no complete line and is its own partial line.
pub proof fn lemma_newline_free_is_partial(text: Seq<char>)
    requires
        newline_free(text),
    ensures
        complete_lines(text) == Seq::<Seq<char>>::empty(),
        partial_line(text) == text,
    decreases text.len(),
{
    if text.len() > 0 {
        lemma_newline_free_is_partial(text.drop_last());
    }
}

/// A newline after text that holds none makes that text one line, less the
/// carriage return at its end, and leaves nothing unterminated.
pub proof fn lemma_one_line(line: Seq<char>)
    requires
        newline_free(line),
    ensures
        complete_lines(line.push('\n')) == seq![strip_cr(line)],
        partial_line(line.push('\n')) == Seq::<char>::empty(),
{
    lemma_newline_free_is_partial(line);
    assert(line.push('\n').drop_last() =~= line);
}

/// Neither the partial line nor any complete line holds a newline.
pub proof fn lemma_lines_newline_free(text: Seq<char>)
    ensures
        newline_free(partial_line(text)),
        forall|i: int|
            0 <= i < complete_lines(text).len() ==> newline_free(#[trigger] complete_lines(text)[i]),
    decreases text.len(),
{
    if text.len() > 0 {
        let init = text.drop_last();
        lemma_lines_newline_free(init);
        assert forall|i: int| 0 <= i < complete_lines(text).len() implies newline_free(
            #[trigger] complete_lines(text)[i],
        ) by {
            if i < complete_lines(init).len() {
                assert(complete_lines(text)[i] == complete_lines(init)[i]);
            } else {
                assert(complete_lines(text)[i] == strip_cr(partial_line(init)));
            }
        }
    }
}

/// Text that arrives in two pieces frames as it does in one: the lines of
/// `first + second` are the lines of `first`, then those of what `first`
/// left unterminated followed by `second`; and the same text is held back.
pub proof fn lemma_split_feed(first: Seq<char>, second: Seq<char>)
    ensures
        complete_lines(first + second) == complete_lines(first) + complete_lines(
            partial_line(first) + second,
        ),
        partial_line(first + second) == partial_line(partial_line(first) + second),
    decreases second.len(),
{
    let held = partial_line(first);
    if second.len() == 0 {
        lemma_lines_newline_free(first);
        lemma_newline_free_is_partial(held);
    } else {
        let init = second.drop_last();
        lemma_split_feed(first, init);
        assert((first + second).drop_last() =~= first + init);
        assert((held + second).drop_last() =~= held + init);
    }
}

/// Collects the text of one connection and hands it out line by line.
///
/// Between calls it holds the text that came after the last newline.
pub struct LineFramer {
    pending: Vec<char>,
}

impl View for LineFramer {
    type V = Seq<char>;

    /// The text held back: received, and not yet terminated by a newline.
    closed spec fn view(&self) -> Seq<char> {
        self.pending@
    }
}

impl LineFramer {
    #[verifier::type_invariant]
    spec fn unterminated(&self) -> bool {
        newline_free(self.pending@)
    }

    /// A framer that holds no text.
    pub fn new() -> (framer: Self)
        ensures
            framer@ == Seq::<char>::empty(),
    {
        LineFramer { pending: Vec::new() }
    }

    /// Takes in `text` and returns the lines that it completes.
    ///
    /// The lines of the held text followed by `text` come out, in order
    /// and without their line endings; what follows the last newline is
    /// held back for the next call.
    pub fn feed_text(&mut self, text: &str) -> (lines: Vec<String>)
        ensures
            texts(lines@) == complete_lines(old(self)@ + text@),
            final(self)@ == partial_line(old(self)@ + text@),
            newline_free(final(self)@),
    {
        broadcast use vstd::string::group_string_axioms;

        proof {
            use_type_invariant(&*self);
            lemma_newline_free_is_partial(self.pending@);
        }
        let ghost held = self.pending@;
        let mut current: Vec<char> = Vec::new();
        std::mem::swap(&mut current, &mut self.pending);
        let mut lines: Vec<String> = Vec::new();
        for c in it: text.chars()
            invariant
                it.seq() == text@,
                texts(lines@) == complete_lines(held + text@.take(it.index())),
                current@ == partial_line(held + text@.take(it.index())),
        {
            proof {
                let seen = held + text@.take(it.index());
                let next = held + text@.take(it.index() + 1);
                assert(next.drop_last() =~= seen);
            }
            if c == '\n' {
                let len = current.len();
                if len > 0 && current[len - 1] == '\r' {
                    current.pop();
                }
                let mut line: Vec<char> = Vec::new();
                std::mem::swap(&mut line, &mut current);
                lines.push(string_of(line));
            } else {
                current.push(c);
            }
        }
        proof {
            assert(text@.take(text@.len() as int) =~= text@);
            lemma_lines_newline_free(held + text@);
        }
        self.pending = current;
        lines
    }

    /// Takes in `bytes`, decoded permissively, and returns the lines that
    /// they complete: `feed_text` on `lossy_text(bytes)`, which for valid
    /// UTF-8 is the text that the bytes encode.
    pub fn feed(&mut self, bytes: &[u8]) -> (lines: Vec<String>)
        ensures
            texts(lines@) == complete_lines(old(self)@ + lossy_text(bytes@)),
            final(self)@ == partial_line(old(self)@ + lossy_text(bytes@)),
            newline_free(final(self)@),
            valid_utf8(bytes@) ==> texts(lines@) == complete_lines(
                old(self)@ + decode_utf8(bytes@),
            ),
            valid_utf8(bytes@) ==> final(self)@ == partial_line(old(self)@ + decode_utf8(bytes@)),
    {
        let text = decode_lossy(bytes);
        self.feed_text(text.as_str())
    }

    /// Takes in what one read from the connection gave: the bytes read, or
    /// `None` where the read failed.
    ///
    /// A read that failed or gave no bytes ends the connection: `None`
    /// comes back and the held text is dropped, unprocessed. Any other
    /// read is fed in, and the lines that it completes come back.
    pub fn receive(&mut self, read: Option<&[u8]>) -> (lines: Option<Vec<String>>)
        ensures
            match read {
                Some(bytes) if bytes@.len() > 0 => {
                    &&& lines is Some
                    &&& texts(lines->0@) == complete_lines(old(self)@ + lossy_text(bytes@))
                    &&& final(self)@ == partial_line(old(self)@ + lossy_text(bytes@))
                    &&& valid_utf8(bytes@) ==> texts(lines->0@) == complete_lines(
                        old(self)@ + decode_utf8(bytes@),
                    )
                    &&& valid_utf8(bytes@) ==> final(self)@ == partial_line(
                        old(self)@ + decode_utf8(bytes@),
                    )
                },
                _ => lines is None && final(self)@ == Seq::<char>::empty(),
            },
    {
        match read {
            Some(bytes) if bytes.len() > 0 => Some(self.feed(bytes)),
            _ => {
                self.pending = Vec::new();
                None
            },
        }
    }

    /// The text held back, as a string.
    pub fn pending(&self) -> (text: String)
        ensures
            text@ == self@,
            newline_free(text@),
    {
        proof {
            use_type_invariant(&*self);
        }
        string_of(self.pending.clone())
    }
}

} // verus!
