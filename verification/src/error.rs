//! What can go wrong.
use vstd::prelude::*;

verus! {

/// What can go wrong, by the stage it went wrong in, with a message for people.
#[derive(Debug)]
pub enum Error {
    /// A coded picture could not be decoded.
    Decode(String),
    /// A picture could not be encoded.
    Encode(String),
    /// A container could not be read.
    Demux(String),
    /// A container could not be written.
    Mux(String),
    /// Bytes could not be read.
    Io(String),
}

/// An error as a mathematical value.
pub enum Fault {
    Decode(Seq<char>),
    Encode(Seq<char>),
    Demux(Seq<char>),
    Mux(Seq<char>),
    Io(Seq<char>),
}

impl View for Error {
    type V = Fault;

    open spec fn view(&self) -> Fault {
        match self {
            Error::Decode(m) => Fault::Decode(m@),
            Error::Encode(m) => Fault::Encode(m@),
            Error::Demux(m) => Fault::Demux(m@),
            Error::Mux(m) => Fault::Mux(m@),
            Error::Io(m) => Fault::Io(m@),
        }
    }
}

impl Error {
    /// A decoding error with this message.
    pub open spec fn is_decode(self, message: Seq<char>) -> bool {
        self matches Error::Decode(m) && m@ == message
    }

    /// An encoding error with this message.
    pub open spec fn is_encode(self, message: Seq<char>) -> bool {
        self matches Error::Encode(m) && m@ == message
    }

    /// A demuxing error with this message.
    pub open spec fn is_demux(self, message: Seq<char>) -> bool {
        self matches Error::Demux(m) && m@ == message
    }

    /// A muxing error with this message.
    pub open spec fn is_mux(self, message: Seq<char>) -> bool {
        self matches Error::Mux(m) && m@ == message
    }

    /// The message for people.
    pub open spec fn text(self) -> Seq<char> {
        match self {
            Error::Decode(m) => m@,
            Error::Encode(m) => m@,
            Error::Demux(m) => m@,
            Error::Mux(m) => m@,
            Error::Io(m) => m@,
        }
    }

    /// A decoding error.
    pub fn decode(message: &str) -> (e: Error)
        ensures
            e.is_decode(message@),
    {
        Error::Decode(message.to_owned())
    }

    /// An encoding error.
    pub fn encode(message: &str) -> (e: Error)
        ensures
            e.is_encode(message@),
    {
        Error::Encode(message.to_owned())
    }

    /// A demuxing error.
    pub fn demux(message: &str) -> (e: Error)
        ensures
            e.is_demux(message@),
    {
        Error::Demux(message.to_owned())
    }

    /// A muxing error.
    pub fn mux(message: &str) -> (e: Error)
        ensures
            e.is_mux(message@),
    {
        Error::Mux(message.to_owned())
    }

    /// The message for people.
    pub fn message(&self) -> (m: &String)
        ensures
            m@ == self.text(),
    {
        match self {
            Error::Decode(m) => m,
            Error::Encode(m) => m,
            Error::Demux(m) => m,
            Error::Mux(m) => m,
            Error::Io(m) => m,
        }
    }
}

} // verus!
