use vstd::prelude::*;

use crate::message_processing::strings_view;

verus! {

/// Error returned when a non-blocking accept is asked of a blocking listener.
#[derive(Debug)]
pub enum ServerAcceptError {
    IsBlocking,
}

/// What one read of a client produced: the bytes just read and the complete messages.
#[derive(Debug)]
pub struct ClientRead {
    pub(crate) bytes_read: usize,
    pub(crate) messages: Vec<String>,
}

impl ClientRead {
    /// The number of bytes read.
    pub closed spec fn spec_bytes_read(&self) -> usize {
        self.bytes_read
    }

    /// The characters of each message read.
    pub closed spec fn spec_messages(&self) -> Seq<Seq<char>> {
        strings_view(self.messages@)
    }

    /// A read that has read nothing yet.
    pub fn new() -> (r: ClientRead)
        ensures
            r.spec_bytes_read() == 0,
            r.spec_messages() == Seq::<Seq<char>>::empty(),
    {
        let r = ClientRead { bytes_read: 0, messages: Vec::new() };
        assert(r.spec_messages() =~= Seq::<Seq<char>>::empty());
        r
    }

    /// Counts `n` more bytes read, saturating at `usize::MAX`.
    pub(crate) fn add_bytes(&mut self, n: usize)
        ensures
            final(self).spec_bytes_read() == (if old(self).spec_bytes_read() + n > usize::MAX {
                usize::MAX as int
            } else {
                old(self).spec_bytes_read() + n
            }),
            final(self).spec_messages() == old(self).spec_messages(),
    {
        self.bytes_read = if self.bytes_read > usize::MAX - n {
            usize::MAX
        } else {
            self.bytes_read + n
        };
    }

    /// Appends the messages, in order.
    pub(crate) fn push_messages(&mut self, messages: &Vec<String>)
        ensures
            final(self).spec_bytes_read() == old(self).spec_bytes_read(),
            final(self).spec_messages() == old(self).spec_messages() + strings_view(messages@),
    {
        let ghost before = self.spec_messages();
        let ghost count = self.bytes_read;
        let mut i: usize = 0;
        while i < messages.len()
            invariant
                i <= messages@.len(),
                self.bytes_read == count,
                self.spec_messages() == before + strings_view(messages@).take(
                    i as int,
                ),
            decreases messages@.len() - i,
        {
            let m = messages[i].clone();
            let ghost prev = self.messages@;
            assert(m@ == messages@[i as int]@);
            self.messages.push(m);
            assert(self.messages@ == prev.push(m));
            assert(strings_view(self.messages@) =~= strings_view(prev).push(m@));
            assert(strings_view(messages@).take(i + 1) =~= strings_view(messages@).take(i as int).push(m@));
            i += 1;
            assert(self.spec_messages() =~= before + strings_view(messages@).take(
                i as int,
            ));
        }
        assert(strings_view(messages@).take(messages@.len() as int)
            =~= strings_view(messages@));
    }

    /// The number of bytes read.
    pub fn bytes_read(&self) -> (n: usize)
        ensures
            n == self.spec_bytes_read(),
    {
        self.bytes_read
    }

    /// The messages read, in order.
    pub fn messages(&self) -> (m: &Vec<String>)
        ensures
            strings_view(m@) == self.spec_messages(),
    {
        &self.messages
    }

    /// The messages read, in order, taken out of the read.
    pub fn into_messages(self) -> (m: Vec<String>)
        ensures
            strings_view(m@) == self.spec_messages(),
    {
        self.messages
    }
}

impl Default for ClientRead {
    /// A read that has read nothing yet, as [`ClientRead::new`] gives.
    fn default() -> (r: ClientRead)
        ensures
            r.spec_bytes_read() == 0,
            r.spec_messages() == Seq::<Seq<char>>::empty(),
    {
        ClientRead::new()
    }
}

} // verus!
