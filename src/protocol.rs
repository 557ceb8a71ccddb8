use vstd::prelude::*;

use crate::path::Path;

verus! {

/// Delegation of the subtree under `path` to another resolver cluster.
#[derive(Debug, PartialEq, Eq)]
pub struct Referral {
    /// The root of the delegated subtree.
    pub path: Path,
    /// How long, in seconds, the delegation may be cached.
    pub ttl: u64,
    /// The endpoints of the cluster's servers.
    pub addrs: Vec<String>,
}

/// Where the publishers of a path can be reached.
#[derive(Debug, Clone, PartialEq, Eq)]
pub struct Resolved {
    /// The endpoints of the publishers.
    pub addrs: Vec<String>,
}

/// The shape of a tabular subtree.
#[derive(Debug, Clone, PartialEq, Eq)]
pub struct Table {
    /// The rows of the table.
    pub rows: Vec<Path>,
    /// The columns of the table, with how many rows hold each.
    pub cols: Vec<(Path, u64)>,
}

/// A read operation.
#[derive(Debug, PartialEq, Eq)]
pub enum ToRead {
    /// List the children of a path.
    List(Path),
    /// Describe the table rooted at a path.
    Table(Path),
    /// Find the publishers of a path.
    Resolve(Path),
}

/// The reply to a read operation.
#[derive(Debug, Clone, PartialEq, Eq)]
pub enum FromRead {
    Resolved(Resolved),
    List(Vec<Path>),
    Table(Table),
    Referral(Referral),
    Error(String),
}

/// A write operation.
#[derive(Debug, PartialEq, Eq)]
pub enum ToWrite {
    Publish(Path),
    PublishDefault(Path),
    Unpublish(Path),
    /// Remove everything this writer published.
    Clear,
    Heartbeat,
}

/// The reply to a write operation.
#[derive(Debug, Clone, PartialEq, Eq)]
pub enum FromWrite {
    Published,
    Unpublished,
    Referral(Referral),
    Error(String),
}

/// An operation that may name the path it is about.
pub trait ToPath: Sized {
    /// The path the operation is about, if any.
    spec fn path_spec(&self) -> Option<Seq<char>>;

    fn path(&self) -> (r: Option<&Path>)
        ensures
            r matches Some(p) ==> self.path_spec() == Some(p@),
            r is None ==> self.path_spec() is None,
    ;
}

/// A reply that may send its operation to another cluster.
pub trait ToReferral: Sized {
    /// The referral that the reply is, if it is one.
    spec fn referral_spec(&self) -> Option<Referral>;

    /// The referral that the reply is, or the reply itself.
    fn referral(self) -> (r: Result<Referral, Self>)
        ensures
            r matches Ok(x) ==> self.referral_spec() == Some(x),
            r matches Err(m) ==> self.referral_spec() is None && m == self,
    ;
}

impl ToPath for ToRead {
    open spec fn path_spec(&self) -> Option<Seq<char>> {
        match self {
            ToRead::List(p) => Some(p@),
            ToRead::Table(p) => Some(p@),
            ToRead::Resolve(p) => Some(p@),
        }
    }

    fn path(&self) -> (r: Option<&Path>) {
        match self {
            ToRead::List(p) => Some(p),
            ToRead::Table(p) => Some(p),
            ToRead::Resolve(p) => Some(p),
        }
    }
}

impl ToPath for ToWrite {
    open spec fn path_spec(&self) -> Option<Seq<char>> {
        match self {
            ToWrite::Publish(p) => Some(p@),
            ToWrite::PublishDefault(p) => Some(p@),
            ToWrite::Unpublish(p) => Some(p@),
            ToWrite::Clear => None,
            ToWrite::Heartbeat => None,
        }
    }

    fn path(&self) -> (r: Option<&Path>) {
        match self {
            ToWrite::Publish(p) => Some(p),
            ToWrite::PublishDefault(p) => Some(p),
            ToWrite::Unpublish(p) => Some(p),
            ToWrite::Clear => None,
            ToWrite::Heartbeat => None,
        }
    }
}

impl ToReferral for FromRead {
    open spec fn referral_spec(&self) -> Option<Referral> {
        match self {
            FromRead::Referral(r) => Some(*r),
            _ => None,
        }
    }

    fn referral(self) -> (r: Result<Referral, Self>) {
        match self {
            FromRead::Referral(r) => Ok(r),
            m => Err(m),
        }
    }
}

impl ToReferral for FromWrite {
    open spec fn referral_spec(&self) -> Option<Referral> {
        match self {
            FromWrite::Referral(r) => Some(*r),
            _ => None,
        }
    }

    fn referral(self) -> (r: Result<Referral, Self>) {
        match self {
            FromWrite::Referral(r) => Ok(r),
            m => Err(m),
        }
    }
}

impl Clone for ToRead {
    fn clone(&self) -> (r: Self)
        ensures
            r == *self,
    {
        match self {
            ToRead::List(p) => ToRead::List(p.clone()),
            ToRead::Table(p) => ToRead::Table(p.clone()),
            ToRead::Resolve(p) => ToRead::Resolve(p.clone()),
        }
    }
}

impl Clone for ToWrite {
    fn clone(&self) -> (r: Self)
        ensures
            r == *self,
    {
        match self {
            ToWrite::Publish(p) => ToWrite::Publish(p.clone()),
            ToWrite::PublishDefault(p) => ToWrite::PublishDefault(p.clone()),
            ToWrite::Unpublish(p) => ToWrite::Unpublish(p.clone()),
            ToWrite::Clear => ToWrite::Clear,
            ToWrite::Heartbeat => ToWrite::Heartbeat,
        }
    }
}

impl Clone for Referral {
    fn clone(&self) -> (r: Self)
        ensures
            r.path == self.path,
            r.ttl == self.ttl,
            r.addrs@ == self.addrs@,
    {
        let addrs = self.addrs.clone();
        assert(addrs@ =~= self.addrs@);
        Referral { path: self.path.clone(), ttl: self.ttl, addrs }
    }
}

} // verus!
