use vstd::prelude::*;
use crate::error::Error;
use vstd::utf8::{decode_utf8, valid_utf8};

verus! {

/// The characters of a complete request: `PING` followed by CR LF.
pub open spec fn request() -> Seq<char> {
    seq!['P', 'I', 'N', 'G', '\r', '\n']
}

/// The bytes of the acknowledgement: `+PONG` followed by CR LF, in ASCII.
pub open spec fn pong() -> Seq<u8> {
    seq![43u8, 80u8, 79u8, 78u8, 71u8, 13u8, 10u8]
}

/// The longest text that can hold a part of a request and not a whole one.
pub open spec fn tail_len() -> int {
    request().len() - 1
}

/// The number of requests in `s`, matched from the left without overlap.
pub open spec fn occurrences(s: Seq<char>) -> nat
    decreases s.len(),
{
    if s.len() < request().len() {
        0
    } else if s.take(request().len() as int) == request() {
        1 + occurrences(s.skip(request().len() as int))
    } else {
        occurrences(s.skip(1))
    }
}

/// The end of `s` that may still begin a request.
pub open spec fn keep_tail(s: Seq<char>) -> Seq<char> {
    if s.len() <= tail_len() {
        s
    } else {
        s.subrange(s.len() - tail_len(), s.len() as int)
    }
}

/// One inspection of the pending text after `text` arrived: the text that
/// stays pending, and the number of replies owed, one for each request.
pub open spec fn scan(pending: Seq<char>, text: Seq<char>) -> (Seq<char>, nat) {
    let all = pending + text;
    if occurrences(all) > 0 {
        (Seq::empty(), occurrences(all))
    } else {
        (keep_tail(all), 0)
    }
}

proof fn lemma_occurrences_at(s: Seq<char>, i: int)
    requires
        0 <= i <= s.len(),
    ensures
        s.len() - i >= 6 ==> s.skip(i).take(6) == s.subrange(i, i + 6),
        s.len() - i >= 6 ==> s.skip(i).skip(6) == s.skip(i + 6),
        s.len() - i >= 1 ==> s.skip(i).skip(1) == s.skip(i + 1),
{
    if s.len() - i >= 6 {
        assert(s.skip(i).take(6) =~= s.subrange(i, i + 6));
        assert(s.skip(i).skip(6) =~= s.skip(i + 6));
    }
    if s.len() - i >= 1 {
        assert(s.skip(i).skip(1) =~= s.skip(i + 1));
    }
}

/// The number of requests in `s`, matched from the left without overlap.
pub fn count_requests(s: &Vec<char>) -> (r: usize)
    ensures
        r == occurrences(s@),
{
    let mut i: usize = 0;
    let mut n: usize = 0;
    assert(s@.skip(0) =~= s@);
    while s.len() - i >= 6
        invariant
            i <= s@.len(),
            n <= i,
            n + occurrences(s@.skip(i as int)) == occurrences(s@),
        decreases s@.len() - i,
    {
        proof {
            lemma_occurrences_at(s@, i as int);
        }
        if s[i] == 'P' && s[i + 1] == 'I' && s[i + 2] == 'N' && s[i + 3] == 'G'
            && s[i + 4] == '\r' && s[i + 5] == '\n' {
            assert(s@.subrange(i as int, i + 6) =~= request());
            n += 1;
            i += 6;
        } else {
            assert(s@.subrange(i as int, i + 6)[0] == s@[i as int]);
            assert(s@.subrange(i as int, i + 6)[1] == s@[i + 1]);
            assert(s@.subrange(i as int, i + 6)[2] == s@[i + 2]);
            assert(s@.subrange(i as int, i + 6)[3] == s@[i + 3]);
            assert(s@.subrange(i as int, i + 6)[4] == s@[i + 4]);
            assert(s@.subrange(i as int, i + 6)[5] == s@[i + 5]);
            assert(s@.subrange(i as int, i + 6) != request());
            i += 1;
        }
    }
    n
}

/// What `String::from_utf8_lossy` makes of some bytes.
pub uninterp spec fn lossy_utf8(b: Seq<u8>) -> Seq<char>;

/// Relies on `String::from_utf8_lossy`: the text depends on the bytes alone,
/// and bytes that are valid UTF-8 come back decoded as they stand.
#[verifier::external_body]
fn decode_lossy(b: &[u8]) -> (r: Vec<char>)
    ensures
        r@ == lossy_utf8(b@),
        valid_utf8(b@) ==> r@ == decode_utf8(b@),
{
    String::from_utf8_lossy(b).chars().collect()
}

/// The text that `s` ends with and that may still begin a request.
fn tail_of(s: &Vec<char>) -> (r: Vec<char>)
    ensures
        r@ == keep_tail(s@),
{
    if s.len() <= 5 {
        return s.clone();
    }
    let mut r: Vec<char> = Vec::new();
    let mut i: usize = s.len() - 5;
    while i < s.len()
        invariant
            s@.len() > 5,
            s@.len() - 5 <= i <= s@.len(),
            r@ == s@.subrange(s@.len() - 5, i as int),
        decreases s@.len() - i,
    {
        r.push(s[i]);
        i += 1;
    }
    assert(r@ =~= keep_tail(s@));
    r
}

/// What happened on the connection since the handler last decided.
pub enum Event {
    /// A read returned these bytes; none means the peer closed the stream.
    Read(Vec<u8>),
    /// A read failed.
    ReadFailed(std::io::Error),
    /// The reply was written and flushed.
    Written,
    /// Writing or flushing the reply failed.
    WriteFailed(std::io::Error),
}

/// What the connection's driver is to do next.
pub enum Action {
    /// Read the next chunk.
    Read,
    /// Write these bytes, flush, and report back.
    Reply(Vec<u8>),
    /// Stop handling the connection with this outcome.
    Finish(Result<(), Error>),
}

/// The action that answers an inspection owing `n` replies, with
/// `owed_before` and `owed_after` the replies still owed around it: the first
/// reply now, the others one by one after each write.
pub open spec fn answer(action: Action, n: nat, owed_before: nat, owed_after: nat) -> bool {
    if n == 0 {
        action is Read && owed_after == owed_before
    } else {
        action matches Action::Reply(v) && v@ == pong() && owed_after == n - 1
    }
}

/// The acknowledgement's bytes.
pub fn pong_bytes() -> (r: Vec<u8>)
    ensures
        r@ == pong(),
{
    let r: Vec<u8> = vec![43, 80, 79, 78, 71, 13, 10];
    assert(r@ =~= pong());
    r
}

/// One connection's recognition state: the text received since the last
/// reply that may still begin a request, and the replies still owed.
pub struct Handler {
    pending: Vec<char>,
    owed: usize,
}

impl View for Handler {
    type V = Seq<char>;

    closed spec fn view(&self) -> Seq<char> {
        self.pending@
    }
}

impl Handler {
    /// The replies owed beyond the one being written.
    pub closed spec fn owed(&self) -> nat {
        self.owed as nat
    }

    /// A handler that has received nothing.
    pub fn new() -> (r: Handler)
        ensures
            r@ == Seq::<char>::empty(),
            r.owed() == 0,
    {
        Handler { pending: Vec::new(), owed: 0 }
    }

    /// Takes decoded text from the connection and returns the number of
    /// replies owed: one for each request in the pending text and `text`.
    /// After a reply nothing stays pending; otherwise only the end of the text
    /// that may still begin a request is kept.
    pub fn receive_text(&mut self, text: &Vec<char>) -> (r: usize)
        ensures
            (final(self)@, r as nat) == scan(old(self)@, text@),
            final(self)@.len() <= tail_len(),
            final(self).owed() == old(self).owed(),
    {
        let mut all: Vec<char> = self.pending.clone();
        let mut i: usize = 0;
        while i < text.len()
            invariant
                i <= text@.len(),
                all@ == self.pending@ + text@.subrange(0, i as int),
            decreases text@.len() - i,
        {
            all.push(text[i]);
            i += 1;
        }
        assert(text@.subrange(0, text@.len() as int) =~= text@);
        let n = count_requests(&all);
        if n > 0 {
            self.pending = Vec::new();
        } else {
            self.pending = tail_of(&all);
        }
        n
    }

    /// Takes a chunk of bytes read from the connection, decoded as UTF-8 with
    /// invalid sequences replaced, and returns the number of replies owed.
    pub fn receive(&mut self, chunk: &[u8]) -> (r: usize)
        ensures
            (final(self)@, r as nat) == scan(old(self)@, lossy_utf8(chunk@)),
            valid_utf8(chunk@) ==> (final(self)@, r as nat) == scan(
                old(self)@,
                decode_utf8(chunk@),
            ),
            final(self)@.len() <= tail_len(),
            final(self).owed() == old(self).owed(),
    {
        let text = decode_lossy(chunk);
        self.receive_text(&text)
    }

    /// Decides what the connection does after `event`. An empty read ends the
    /// connection successfully and any failed read or write ends it with an
    /// I/O failure. A chunk of bytes is inspected, and each request found is
    /// answered by a reply of its own: the first at once, each next one after
    /// the previous reply was written.
    pub fn on_event(&mut self, event: Event) -> (r: Action)
        ensures
            match event {
                Event::Read(b) => if b@.len() == 0 {
                    &&& r == Action::Finish(Ok(()))
                    &&& final(self)@ == old(self)@
                    &&& final(self).owed() == old(self).owed()
                } else {
                    &&& final(self)@ == scan(old(self)@, lossy_utf8(b@)).0
                    &&& answer(
                        r,
                        scan(old(self)@, lossy_utf8(b@)).1,
                        old(self).owed(),
                        final(self).owed(),
                    )
                    &&& valid_utf8(b@) ==> final(self)@ == scan(old(self)@, decode_utf8(b@)).0
                    &&& valid_utf8(b@) ==> answer(
                        r,
                        scan(old(self)@, decode_utf8(b@)).1,
                        old(self).owed(),
                        final(self).owed(),
                    )
                },
                Event::ReadFailed(e) => {
                    &&& r == Action::Finish(Err(Error::IO(e)))
                    &&& final(self)@ == old(self)@
                    &&& final(self).owed() == old(self).owed()
                },
                Event::Written => {
                    &&& final(self)@ == old(self)@
                    &&& if old(self).owed() > 0 {
                        &&& r matches Action::Reply(v) && v@ == pong()
                        &&& final(self).owed() == old(self).owed() - 1
                    } else {
                        &&& r is Read
                        &&& final(self).owed() == 0
                    }
                },
                Event::WriteFailed(e) => {
                    &&& r == Action::Finish(Err(Error::IO(e)))
                    &&& final(self)@ == old(self)@
                    &&& final(self).owed() == old(self).owed()
                },
            },
            final(self)@.len() <= tail_len() || final(self)@ == old(self)@,
    {
        match event {
            Event::Read(b) => {
                if b.len() == 0 {
                    Action::Finish(Ok(()))
                } else {
                    let n = self.receive(b.as_slice());
                    if n == 0 {
                        Action::Read
                    } else {
                        self.owed = n - 1;
                        Action::Reply(pong_bytes())
                    }
                }
            },
            Event::ReadFailed(e) => Action::Finish(Err(Error::IO(e))),
            Event::Written => {
                if self.owed > 0 {
                    self.owed = self.owed - 1;
                    Action::Reply(pong_bytes())
                } else {
                    Action::Read
                }
            },
            Event::WriteFailed(e) => Action::Finish(Err(Error::IO(e))),
        }
    }
}

} // verus!
