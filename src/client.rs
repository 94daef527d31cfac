//! The remote side: the client's settings, what a gist holds once decoded,
//! and the decisions taken on the server's answers.

use vstd::prelude::*;
use crate::attr::Timestamp;

verus! {

/// The address of a gist is this prefix followed by the gist's id.
pub const GIST_API_PREFIX: &'static str = "https://api.github.com/gists/";

/// The entity tag that names one revision of a gist, as the server sent it.
#[derive(Debug)]
pub struct ETag {
    pub value: Vec<u8>,
}

impl ETag {
    /// A copy of the tag.
    pub fn duplicate(&self) -> (r: ETag)
        ensures
            r.value@ == self.value@,
    {
        let mut value: Vec<u8> = Vec::new();
        let mut i: usize = 0;
        while i < self.value.len()
            invariant
                i <= self.value@.len(),
                value@ == self.value@.subrange(0, i as int),
            decreases self.value@.len() - i,
        {
            value.push(self.value[i]);
            i = i + 1;
            proof {
                assert(value@ =~= self.value@.subrange(0, i as int));
            }
        }
        proof {
            assert(value@ =~= self.value@);
        }
        ETag { value }
    }
}

/// The settings of a client of the gist API.
#[derive(Debug)]
pub struct Client {
    pub token: Option<String>,
}

impl Client {
    /// A client that sends `token`, if any, as its credential.
    pub fn new(token: Option<String>) -> (r: Self)
        ensures
            r.token == token,
    {
        Client { token }
    }

    /// The value of the `Authorization` header: `token ` and the credential.
    pub fn authorization(&self) -> (r: Option<String>)
        ensures
            match self.token {
                Some(t) => r is Some && r->Some_0@ == "token "@ + t@,
                None => r is None,
            },
    {
        match &self.token {
            Some(t) => Some(String::from_str("token ").concat(t.as_str())),
            None => None,
        }
    }

    /// The address of the gist with id `gist_id`.
    pub fn gist_url(gist_id: &str) -> (r: String)
        ensures
            r@ == GIST_API_PREFIX@ + gist_id@,
    {
        String::from_str(GIST_API_PREFIX).concat(gist_id)
    }
}

/// A file of a gist.
#[derive(Debug)]
pub struct GistFile {
    pub filename: String,
    pub type_: String,
    pub language: String,
    pub raw_url: String,
    pub size: u64,
    /// The content sent is cut short; the full text must be fetched apart.
    pub truncated: bool,
    pub content: String,
}

/// A gist as the server describes it, with its files keyed by name.
#[derive(Debug)]
pub struct Gist {
    pub id: String,
    pub description: String,
    pub public: bool,
    pub created_at: Timestamp,
    pub updated_at: Timestamp,
    pub files: Vec<GistFile>,
    /// The file list is cut short: the gist holds more files than were sent.
    pub truncated: bool,
}

/// An edit of a gist: for each named file its new content, or `None` to
/// delete it, and optionally a new description.
pub struct GistPatch<'a> {
    pub files: &'a [(&'a str, Option<&'a str>)],
    pub description: Option<&'a str>,
}

/// What the server's answer to a request for a gist means.
#[derive(Clone, Copy, Debug, PartialEq, Eq, Structural)]
pub enum ClientError {
    /// The gist does not exist.
    NotFound,
    /// The gist changed since the revision that the edit was based on.
    PreconditionFailed,
    /// Any other status than the expected ones.
    Api(u16),
    /// The content type does not parse.
    BadContentType,
    /// The content is not JSON.
    NotJson,
    /// The server answered with another gist than the one asked for.
    IdMismatch,
    /// The request could not be sent, or the answer could not be read.
    Transport,
}

/// What a successful answer to a conditional fetch says.
#[derive(Clone, Copy, Debug, PartialEq, Eq, Structural)]
pub enum FetchStatus {
    /// A new revision follows.
    Modified,
    /// Nothing changed since the revision named in the request.
    NotModified,
}

/// The meaning of the status code of an answer to a fetch.
pub fn fetch_status(status: u16) -> (r: Result<FetchStatus, ClientError>)
    ensures
        r == (if status == 200 {
            Ok::<FetchStatus, ClientError>(FetchStatus::Modified)
        } else if status == 304 {
            Ok(FetchStatus::NotModified)
        } else if status == 404 {
            Err(ClientError::NotFound)
        } else {
            Err(ClientError::Api(status))
        }),
{
    if status == 200 {
        Ok(FetchStatus::Modified)
    } else if status == 304 {
        Ok(FetchStatus::NotModified)
    } else if status == 404 {
        Err(ClientError::NotFound)
    } else {
        Err(ClientError::Api(status))
    }
}

/// The meaning of the status code of an answer to an edit.
pub fn update_status(status: u16) -> (r: Result<(), ClientError>)
    ensures
        r == (if status == 200 {
            Ok::<(), ClientError>(())
        } else if status == 404 {
            Err(ClientError::NotFound)
        } else if status == 412 {
            Err(ClientError::PreconditionFailed)
        } else {
            Err(ClientError::Api(status))
        }),
{
    if status == 200 {
        Ok(())
    } else if status == 404 {
        Err(ClientError::NotFound)
    } else if status == 412 {
        Err(ClientError::PreconditionFailed)
    } else {
        Err(ClientError::Api(status))
    }
}

pub(crate) fn same_text(a: &str, b: &str) -> (r: bool)
    ensures
        r == (a@ == b@),
{
    String::from_str(a) == String::from_str(b)
}

/// The type and subtype that the `mime` crate reads from a content type,
/// or `None` where it does not parse.
pub uninterp spec fn mime_parts(s: Seq<char>) -> Option<(Seq<char>, Seq<char>)>;

/// Relies on `mime::Mime`'s `FromStr`, `type_` and `subtype`: the parts of a
/// content type, a function of the text alone.
#[verifier::external_body]
fn parse_content_type(s: &str) -> (r: Option<(String, String)>)
    ensures
        match r {
            Some((t, st)) => mime_parts(s@) == Some((t@, st@)),
            None => mime_parts(s@) is None,
        },
{
    match s.parse::<mime::Mime>() {
        Ok(m) => Some((m.type_().as_str().to_string(), m.subtype().as_str().to_string())),
        Err(_) => None,
    }
}

/// A content type whose type and subtype are these is JSON.
pub fn is_json(type_: &str, subtype: &str) -> (r: bool)
    ensures
        r == (type_@ == "application"@ && subtype@ == "json"@),
{
    same_text(type_, "application") && same_text(subtype, "json")
}

/// Checks the content type of an answer, where it has one: it must parse
/// and name JSON.
pub fn check_content_type(content_type: Option<&str>) -> (r: Result<(), ClientError>)
    ensures
        r == (match content_type {
            None => Ok::<(), ClientError>(()),
            Some(s) => match mime_parts(s@) {
                None => Err(ClientError::BadContentType),
                Some(p) => if p.0 == "application"@ && p.1 == "json"@ {
                    Ok(())
                } else {
                    Err(ClientError::NotJson)
                },
            },
        }),
{
    match content_type {
        None => Ok(()),
        Some(s) => match parse_content_type(s) {
            None => Err(ClientError::BadContentType),
            Some((t, st)) => {
                if is_json(t.as_str(), st.as_str()) {
                    Ok(())
                } else {
                    Err(ClientError::NotJson)
                }
            },
        },
    }
}

/// Every file of a gist must name a content type that parses.
pub fn check_file_types(files: &[GistFile]) -> (r: Result<(), ClientError>)
    ensures
        r == (if forall|j: int| 0 <= j < files@.len() ==> mime_parts((#[trigger] files@[j]).type_@) is Some {
            Ok::<(), ClientError>(())
        } else {
            Err(ClientError::BadContentType)
        }),
{
    let mut j: usize = 0;
    while j < files.len()
        invariant
            j <= files@.len(),
            forall|q: int| 0 <= q < j ==> mime_parts((#[trigger] files@[q]).type_@) is Some,
        decreases files@.len() - j,
    {
        match parse_content_type(files[j].type_.as_str()) {
            Some(_) => {},
            None => return Err(ClientError::BadContentType),
        }
        j = j + 1;
    }
    Ok(())
}

/// The gist received must be the one asked for.
pub fn check_gist_id(received: &str, requested: &str) -> (r: Result<(), ClientError>)
    ensures
        r == (if received@ == requested@ {
            Ok::<(), ClientError>(())
        } else {
            Err(ClientError::IdMismatch)
        }),
{
    if same_text(received, requested) {
        Ok(())
    } else {
        Err(ClientError::IdMismatch)
    }
}

} // verus!
