//! Why an operation on the cache failed.
use vstd::prelude::*;
use vstd::string::*;

verus! {

/// The failure of an operation: where it arose, and the message given there.
#[derive(Debug, PartialEq, Eq)]
pub enum CacheError {
    Redb(String),
    RedbStorage(String),
    RedbTxn(String),
    RedbTable(String),
    RedbCommit(String),
    RedbDb(String),
    Json(String),
}

/// How failures are described: each kind by its own word, and then by the message
/// that it carries, whole.
pub proof fn failures_name_their_origin(m: String)
    ensures
        CacheError::Redb(m).origin() == "redb: "@,
        CacheError::RedbStorage(m).origin() == "redb storage: "@,
        CacheError::RedbTxn(m).origin() == "redb txn: "@,
        CacheError::RedbTable(m).origin() == "redb table: "@,
        CacheError::RedbCommit(m).origin() == "redb commit: "@,
        CacheError::RedbDb(m).origin() == "redb db: "@,
        CacheError::Json(m).origin() == "json: "@,
        CacheError::Redb(m).message() == m@,
        CacheError::RedbStorage(m).message() == m@,
        CacheError::RedbTxn(m).message() == m@,
        CacheError::RedbTable(m).message() == m@,
        CacheError::RedbCommit(m).message() == m@,
        CacheError::RedbDb(m).message() == m@,
        CacheError::Json(m).message() == m@,
{
}

impl CacheError {
    /// The word that says where the failure arose.
    pub open spec fn origin(self) -> Seq<char> {
        match self {
            CacheError::Redb(_) => "redb: "@,
            CacheError::RedbStorage(_) => "redb storage: "@,
            CacheError::RedbTxn(_) => "redb txn: "@,
            CacheError::RedbTable(_) => "redb table: "@,
            CacheError::RedbCommit(_) => "redb commit: "@,
            CacheError::RedbDb(_) => "redb db: "@,
            CacheError::Json(_) => "json: "@,
        }
    }

    /// The message given where the failure arose.
    pub open spec fn message(self) -> Seq<char> {
        match self {
            CacheError::Redb(m) => m@,
            CacheError::RedbStorage(m) => m@,
            CacheError::RedbTxn(m) => m@,
            CacheError::RedbTable(m) => m@,
            CacheError::RedbCommit(m) => m@,
            CacheError::RedbDb(m) => m@,
            CacheError::Json(m) => m@,
        }
    }

    /// The failure in words: where it arose, then the message.
    pub fn describe(&self) -> (r: String)
        ensures
            r@ == self.origin() + self.message(),
            match *self {
                CacheError::Redb(m) => r@ == "redb: "@ + m@,
                CacheError::RedbStorage(m) => r@ == "redb storage: "@ + m@,
                CacheError::RedbTxn(m) => r@ == "redb txn: "@ + m@,
                CacheError::RedbTable(m) => r@ == "redb table: "@ + m@,
                CacheError::RedbCommit(m) => r@ == "redb commit: "@ + m@,
                CacheError::RedbDb(m) => r@ == "redb db: "@ + m@,
                CacheError::Json(m) => r@ == "json: "@ + m@,
            },
    {
        let (origin, message): (&str, &String) = match self {
            CacheError::Redb(m) => ("redb: ", m),
            CacheError::RedbStorage(m) => ("redb storage: ", m),
            CacheError::RedbTxn(m) => ("redb txn: ", m),
            CacheError::RedbTable(m) => ("redb table: ", m),
            CacheError::RedbCommit(m) => ("redb commit: ", m),
            CacheError::RedbDb(m) => ("redb db: ", m),
            CacheError::Json(m) => ("json: ", m),
        };
        let mut r = origin.to_owned();
        r.append(message.as_str());
        r
    }
}

} // verus!
