//! The body of a commit or a tag: a block of header lines, and behind the first blank
//! line a message.

use crate::bytes::{append, copy_range, LF};
use vstd::prelude::*;

verus! {

/// Whether an empty line starts at `p`: a line feed at the start of `s` or right behind
/// another line feed.
pub open spec fn blank_line_at(s: Seq<u8>, p: int) -> bool {
    0 <= p < s.len() && s[p] == 10 && (p == 0 || s[p - 1] == 10)
}

/// The first index from `from` on at which an empty line starts, or `s.len()` if there is
/// none.
pub open spec fn find_blank_line(s: Seq<u8>, from: int) -> int
    decreases s.len() - from,
{
    if from >= s.len() {
        s.len() as int
    } else if blank_line_at(s, from) {
        from
    } else {
        find_blank_line(s, from + 1)
    }
}

/// `find_blank_line` returns an index in range, no empty line starts before it, and
/// unless it is `s.len()` one starts at it.
pub proof fn lemma_find_blank_line(s: Seq<u8>, from: int)
    requires
        0 <= from <= s.len(),
    ensures
        from <= find_blank_line(s, from) <= s.len(),
        forall|j: int| from <= j < find_blank_line(s, from) ==> !blank_line_at(s, j),
        find_blank_line(s, from) < s.len() ==> blank_line_at(s, find_blank_line(s, from)),
    decreases s.len() - from,
{
    if from < s.len() && !blank_line_at(s, from) {
        lemma_find_blank_line(s, from + 1);
    }
}

/// An index with no empty line before it, at which one starts or which is `s.len()`, is
/// what `find_blank_line` returns.
pub proof fn lemma_find_blank_line_is(s: Seq<u8>, from: int, p: int)
    requires
        0 <= from <= p <= s.len(),
        forall|j: int| from <= j < p ==> !blank_line_at(s, j),
        p < s.len() ==> blank_line_at(s, p),
    ensures
        find_blank_line(s, from) == p,
    decreases s.len() - from,
{
    if from < p {
        lemma_find_blank_line_is(s, from + 1, p);
    }
}

/// What a commit or a tag says: header lines, and a message if a blank line follows them.
pub ghost struct TextView {
    pub headers: Seq<u8>,
    pub message: Option<Seq<u8>>,
}

impl TextView {
    /// The body: the headers, and where there is a message a line feed and the message.
    pub open spec fn bytes(self) -> Seq<u8> {
        match self.message {
            Some(message) => self.headers + seq![10u8] + message,
            None => self.headers,
        }
    }

    /// Whether the split between headers and message is where a reader finds it: no empty
    /// line among the headers, and before a message the last header line is complete.
    pub open spec fn wf(self) -> bool {
        &&& find_blank_line(self.headers, 0) == self.headers.len()
        &&& self.message is Some ==> self.headers.len() == 0 || self.headers.last() == 10
    }

    /// Splits a body at its first empty line. Without one, all of it is headers.
    pub open spec fn split(body: Seq<u8>) -> TextView {
        let p = find_blank_line(body, 0);
        if p < body.len() {
            TextView { headers: body.take(p), message: Some(body.skip(p + 1)) }
        } else {
            TextView { headers: body, message: None }
        }
    }

    /// Splitting the body of a well-formed text gives the text.
    pub proof fn lemma_split_bytes(self)
        requires
            self.wf(),
        ensures
            TextView::split(self.bytes()) == self,
    {
        let h = self.headers;
        let b = self.bytes();
        lemma_find_blank_line(h, 0);
        match self.message {
            Some(m) => {
                let p = h.len() as int;
                assert forall|j: int| 0 <= j < p implies !blank_line_at(b, j) by {
                    assert(!blank_line_at(h, j));
                    assert(b[j] == h[j]);
                    if j > 0 {
                        assert(b[j - 1] == h[j - 1]);
                    }
                }
                assert(b[p] == 10);
                if p > 0 {
                    assert(b[p - 1] == h.last());
                }
                lemma_find_blank_line_is(b, 0, p);
                assert(b.take(p) =~= h);
                assert(b.skip(p + 1) =~= m);
            },
            None => {},
        }
    }

    /// A body split and put together again is the body, and the split is well-formed.
    pub proof fn lemma_bytes_split(body: Seq<u8>)
        ensures
            TextView::split(body).bytes() == body,
            TextView::split(body).wf(),
    {
        let p = find_blank_line(body, 0);
        lemma_find_blank_line(body, 0);
        if p < body.len() {
            let h = body.take(p);
            assert(blank_line_at(body, p));
            assert forall|j: int| 0 <= j < p implies !blank_line_at(h, j) by {
                assert(!blank_line_at(body, j));
            }
            lemma_find_blank_line_is(h, 0, p);
            assert(h + seq![10u8] + body.skip(p + 1) =~= body);
        }
    }
}

/// The body of a commit or a tag, kept as the bytes that were read.
#[derive(Clone, Debug, PartialEq, Eq)]
pub struct TextBody {
    /// The header lines, up to the first empty line.
    pub headers: Vec<u8>,
    /// What follows the first empty line, if there is one.
    pub message: Option<Vec<u8>>,
}

impl View for TextBody {
    type V = TextView;

    open spec fn view(&self) -> TextView {
        TextView {
            headers: self.headers@,
            message: match self.message {
                Some(message) => Some(message@),
                None => None,
            },
        }
    }
}

impl TextBody {
    /// The text of the given headers and message, if a reader of its body would split it
    /// in the same way.
    pub fn new(headers: Vec<u8>, message: Option<Vec<u8>>) -> (r: Option<TextBody>)
        ensures
            match r {
                Some(text) => text.headers == headers && text.message == message && text@.wf(),
                None => !(TextBody { headers, message })@.wf(),
            },
    {
        let text = TextBody { headers, message };
        if text.is_valid() {
            Some(text)
        } else {
            None
        }
    }

    /// Splits a body at its first empty line.
    pub fn split(body: &[u8]) -> (text: TextBody)
        ensures
            text@ == TextView::split(body@),
    {
        let mut p: usize = 0;
        while p < body.len() && !(body[p] == LF && (p == 0 || body[p - 1] == LF))
            invariant
                p <= body.len(),
                forall|j: int| 0 <= j < p ==> !blank_line_at(body@, j),
            decreases body.len() - p,
        {
            p += 1;
        }
        proof {
            lemma_find_blank_line_is(body@, 0, p as int);
        }
        if p < body.len() {
            let headers: Vec<u8> = copy_range(body, 0, p);
            let message: Vec<u8> = copy_range(body, p + 1, body.len());
            TextBody { headers, message: Some(message) }
        } else {
            let headers: Vec<u8> = copy_range(body, 0, body.len());
            assert(headers@ =~= body@);
            TextBody { headers, message: None }
        }
    }

    /// Appends the body to `out`.
    pub fn write(&self, out: &mut Vec<u8>)
        ensures
            final(out)@ == old(out)@ + self@.bytes(),
    {
        append(out, self.headers.as_slice());
        match &self.message {
            Some(message) => {
                out.push(LF);
                append(out, message.as_slice());
                assert(out@ =~= old(out)@ + self@.bytes());
            },
            None => {},
        }
    }

    /// Whether a reader of the body would split it as this text is split.
    pub fn is_valid(&self) -> (ok: bool)
        ensures
            ok == self@.wf(),
    {
        let found: TextBody = TextBody::split(self.headers.as_slice());
        proof {
            lemma_find_blank_line(self.headers@, 0);
        }
        if found.message.is_some() {
            return false;
        }
        match &self.message {
            Some(_) => self.headers.len() == 0 || self.headers[self.headers.len() - 1] == LF,
            None => true,
        }
    }
}

} // verus!
