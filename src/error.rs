use vstd::prelude::*;
use vstd::string::*;

verus! {

/// Why a fetch failed.
#[derive(Clone, Debug)]
pub enum CrawlerError {
    /// The request could not be sent, or its response not read. `url` is the
    /// address it was for, where known; `cause` the underlying reason, where
    /// one was given.
    CannotSendRequest { url: Option<String>, cause: Option<String> },
}

impl CrawlerError {
    /// The text of the error report.
    pub open spec fn message_spec(&self) -> Seq<char> {
        match self {
            CrawlerError::CannotSendRequest { url, cause } => {
                let target = match url {
                    Some(u) => u@,
                    None => "[unknown]"@,
                };
                let head = "Failed to send request to "@ + target;
                match cause {
                    Some(c) => head + " ("@ + c@ + ")"@,
                    None => head,
                }
            },
        }
    }

    pub fn message(&self) -> (r: String)
        ensures
            r@ == self.message_spec(),
    {
        proof {
            reveal_strlit("[unknown]");
            reveal_strlit("Failed to send request to ");
            reveal_strlit(" (");
            reveal_strlit(")");
        }
        match self {
            CrawlerError::CannotSendRequest { url, cause } => {
                let mut r = "Failed to send request to ".to_owned();
                match url {
                    Some(u) => r.append(u.as_str()),
                    None => r.append("[unknown]"),
                }
                match cause {
                    Some(c) => {
                        r.append(" (");
                        r.append(c.as_str());
                        r.append(")");
                    },
                    None => {},
                }
                r
            },
        }
    }
}

} // verus!
