//! The values a race is about: servers, the binary they serve, and the way
//! a download fails.

use vstd::prelude::*;

verus! {

/// The name of a server that offers the binary.
#[derive(Debug, PartialEq, Eq, Hash)]
pub struct ServerName(pub String);

/// A downloaded binary. It records the server that delivered it.
#[derive(Debug, PartialEq, Eq)]
pub struct Binary {
    pub from: ServerName,
}

/// Why a download ended without a binary.
#[derive(Debug, PartialEq, Eq)]
pub enum ServerError {
    /// The named server dropped the connection.
    Disconnected(ServerName),
}

impl View for ServerName {
    type V = Seq<char>;

    open spec fn view(&self) -> Seq<char> {
        self.0@
    }
}

impl Clone for ServerName {
    fn clone(&self) -> (copy: Self)
        ensures
            copy == *self,
    {
        ServerName(self.0.clone())
    }
}

impl ServerName {
    /// Whether two names are the same text.
    pub fn same_as(&self, other: &ServerName) -> (same: bool)
        ensures
            same == (self@ == other@),
    {
        self.0 == other.0
    }
}

impl ServerError {
    /// The server that the failure is attributed to.
    pub open spec fn spec_server(&self) -> ServerName {
        match *self {
            ServerError::Disconnected(name) => name,
        }
    }

    /// The server that the failure is attributed to.
    pub fn server(&self) -> (name: &ServerName)
        ensures
            *name == self.spec_server(),
    {
        match self {
            ServerError::Disconnected(name) => name,
        }
    }
}

} // verus!
