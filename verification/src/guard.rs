use vstd::prelude::*;
use crate::config::AccessToken;
use crate::database::has_index;
use crate::database::index_place;
use crate::database::Database;
use crate::text::same_text;
use crate::text::string_of;
use crate::tokenizer::scalars_of;

verus! {

/// Why a request was not let through.
#[derive(Clone, Copy, Debug, PartialEq, Eq, Structural)]
pub enum ApiKeyError {
    Internal,
    IndexNotFound,
    MissingIndexName,
    MissingToken,
    Invalid,
}

/// The status that answers a request that was not let through: 404 where
/// the index it names does not exist, 405 otherwise.
pub open spec fn status_of(error: ApiKeyError) -> u16 {
    match error {
        ApiKeyError::IndexNotFound => 404,
        _ => 405,
    }
}

impl ApiKeyError {
    /// The status that answers a request refused for this reason.
    pub fn status(&self) -> (code: u16)
        ensures
            code == status_of(*self),
    {
        match self {
            ApiKeyError::IndexNotFound => 404,
            _ => 405,
        }
    }
}

/// The key that lets a request do anything, where the server has one.
#[derive(Debug)]
pub struct SuperAdminToken(pub Option<String>);

/// Which of the keys of an index a request needs.
#[derive(Clone, Copy, Debug, PartialEq, Eq, Structural)]
pub enum Access {
    Read,
    Write,
    Admin,
}

/// A request that may read the index it names.
pub struct ReadGuard {
    pub index: String,
}

/// A request that may write to the index it names.
pub struct WriteGuard {
    pub index: String,
}

/// A request that may administer the index it names.
pub struct AdminGuard {
    pub index: String,
}

/// A request that carries the key of the server.
pub struct SuperAdminGuard {
    pub index: Option<String>,
}

/// The name of the index that a host addresses: the host up to its first dot.
pub open spec fn index_name_of(host: Seq<char>) -> Seq<char>
    decreases host.len(),
{
    if host.len() == 0 || host[0] == '.' {
        Seq::empty()
    } else {
        seq![host[0]] + index_name_of(host.drop_first())
    }
}

/// The key of an access token that an access needs.
pub open spec fn key_of(token: AccessToken, access: Access) -> Seq<char> {
    match access {
        Access::Read => token.read_key@,
        Access::Write => token.write_key@,
        Access::Admin => token.admin_key@,
    }
}

/// Whether a request is let through to an index, and to which. The host
/// names the index. An index without access token lets every request
/// through; one with an access token lets through the requests that carry
/// the key that the access needs.
pub open spec fn authorized(
    access: Access,
    host: Option<Seq<char>>,
    token: Option<Seq<char>>,
    db: Option<Database>,
) -> Result<Seq<char>, ApiKeyError> {
    match host {
        None => Err(ApiKeyError::MissingIndexName),
        Some(host) => {
            let name = index_name_of(host);
            match db {
                None => Err(ApiKeyError::Internal),
                Some(db) => if !has_index(db@, name) {
                    Err(ApiKeyError::IndexNotFound)
                } else {
                    match db@[index_place(db@, name)].view@.config.access_token {
                        None => Ok(name),
                        Some(keys) => match token {
                            None => Err(ApiKeyError::MissingToken),
                            Some(token) => if key_of(keys, access) == token {
                                Ok(name)
                            } else {
                                Err(ApiKeyError::Invalid)
                            },
                        },
                    }
                },
            }
        },
    }
}

/// Whether a request carries the key of the server, and the index it names.
pub open spec fn super_authorized(
    server_token: Option<SuperAdminToken>,
    token: Option<Seq<char>>,
    host: Option<Seq<char>>,
) -> Result<Seq<char>, ApiKeyError> {
    match server_token {
        None => Err(ApiKeyError::Internal),
        Some(SuperAdminToken(None)) => Err(ApiKeyError::Internal),
        Some(SuperAdminToken(Some(key))) => match host {
            None => Err(ApiKeyError::MissingIndexName),
            Some(host) => match token {
                None => Err(ApiKeyError::MissingToken),
                Some(token) => if key@ == token {
                    Ok(index_name_of(host))
                } else {
                    Err(ApiKeyError::Invalid)
                },
            },
        },
    }
}

/// The name of the index that a host addresses.
pub fn index_name(host: &str) -> (name: String)
    ensures
        name@ == index_name_of(host@),
{
    let scalars = scalars_of(host);
    let mut name: Vec<char> = Vec::new();
    let mut i: usize = 0;
    proof {
        assert(scalars@.skip(0) =~= scalars@);
    }
    while i < scalars.len() && scalars[i] != '.'
        invariant
            i <= scalars.len(),
            index_name_of(scalars@) == name@ + index_name_of(scalars@.skip(i as int)),
        decreases scalars.len() - i,
    {
        proof {
            let rest = scalars@.skip(i as int);
            assert(rest[0] == scalars@[i as int]);
            assert(rest.drop_first() =~= scalars@.skip(i + 1));
            assert(name@.push(scalars@[i as int]) + index_name_of(scalars@.skip(i + 1)) =~= name@
                + (seq![scalars@[i as int]] + index_name_of(scalars@.skip(i + 1))));
        }
        name.push(scalars[i]);
        i = i + 1;
    }
    proof {
        let rest = scalars@.skip(i as int);
        if i < scalars.len() {
            assert(rest[0] == scalars@[i as int]);
        }
        assert(index_name_of(rest) =~= Seq::<char>::empty());
        assert(name@ + Seq::<char>::empty() =~= name@);
    }
    string_of(&name)
}

/// The view of an optional text.
pub open spec fn text_view(text: Option<&str>) -> Option<Seq<char>> {
    match text {
        Some(t) => Some(t@),
        None => None,
    }
}

/// The database that a request reaches, if it reaches one.
pub open spec fn reached(db: Option<&Database>) -> Option<Database> {
    match db {
        Some(db) => Some(*db),
        None => None,
    }
}

/// Decides whether a request is let through to the index that its host names.
pub fn authorize(access: Access, host: Option<&str>, token: Option<&str>, db: Option<&Database>) -> (res:
    Result<String, ApiKeyError>)
    ensures
        match res {
            Ok(name) => authorized(access, text_view(host), text_view(token), reached(db)) == Ok::<
                Seq<char>,
                ApiKeyError,
            >(name@),
            Err(e) => authorized(access, text_view(host), text_view(token), reached(db)) == Err::<
                Seq<char>,
                ApiKeyError,
            >(e),
        },
{
    let host = match host {
        Some(host) => host,
        None => {
            return Err(ApiKeyError::MissingIndexName);
        },
    };
    let name = index_name(host);
    let db = match db {
        Some(db) => db,
        None => {
            return Err(ApiKeyError::Internal);
        },
    };
    let config = match db.get_config(name.as_str()) {
        Some(config) => config,
        None => {
            return Err(ApiKeyError::IndexNotFound);
        },
    };
    let keys = match &config.access_token {
        Some(keys) => keys,
        None => {
            return Ok(name);
        },
    };
    let token = match token {
        Some(token) => token,
        None => {
            return Err(ApiKeyError::MissingToken);
        },
    };
    let key = match access {
        Access::Read => keys.read_key.as_str(),
        Access::Write => keys.write_key.as_str(),
        Access::Admin => keys.admin_key.as_str(),
    };
    if same_text(key, token) {
        Ok(name)
    } else {
        Err(ApiKeyError::Invalid)
    }
}

impl ReadGuard {
    /// Lets a request through that may read the index its host names.
    pub fn from_request(host: Option<&str>, token: Option<&str>, db: Option<&Database>) -> (res: Result<
        ReadGuard,
        ApiKeyError,
    >)
        ensures
            match res {
                Ok(guard) => authorized(
                    Access::Read,
                    text_view(host),
                    text_view(token),
                    reached(db),
                ) == Ok::<Seq<char>, ApiKeyError>(guard.index@),
                Err(e) => authorized(Access::Read, text_view(host), text_view(token), reached(db))
                    == Err::<Seq<char>, ApiKeyError>(e),
            },
    {
        match authorize(Access::Read, host, token, db) {
            Ok(index) => Ok(ReadGuard { index }),
            Err(e) => Err(e),
        }
    }
}

impl WriteGuard {
    /// Lets a request through that may write to the index its host names.
    pub fn from_request(host: Option<&str>, token: Option<&str>, db: Option<&Database>) -> (res: Result<
        WriteGuard,
        ApiKeyError,
    >)
        ensures
            match res {
                Ok(guard) => authorized(
                    Access::Write,
                    text_view(host),
                    text_view(token),
                    reached(db),
                ) == Ok::<Seq<char>, ApiKeyError>(guard.index@),
                Err(e) => authorized(Access::Write, text_view(host), text_view(token), reached(db))
                    == Err::<Seq<char>, ApiKeyError>(e),
            },
    {
        match authorize(Access::Write, host, token, db) {
            Ok(index) => Ok(WriteGuard { index }),
            Err(e) => Err(e),
        }
    }
}

impl AdminGuard {
    /// Lets a request through that may administer the index its host names.
    pub fn from_request(host: Option<&str>, token: Option<&str>, db: Option<&Database>) -> (res: Result<
        AdminGuard,
        ApiKeyError,
    >)
        ensures
            match res {
                Ok(guard) => authorized(
                    Access::Admin,
                    text_view(host),
                    text_view(token),
                    reached(db),
                ) == Ok::<Seq<char>, ApiKeyError>(guard.index@),
                Err(e) => authorized(Access::Admin, text_view(host), text_view(token), reached(db))
                    == Err::<Seq<char>, ApiKeyError>(e),
            },
    {
        match authorize(Access::Admin, host, token, db) {
            Ok(index) => Ok(AdminGuard { index }),
            Err(e) => Err(e),
        }
    }
}

/// The server's token, if the request reaches it.
pub open spec fn reached_token(token: Option<&SuperAdminToken>) -> Option<SuperAdminToken> {
    match token {
        Some(token) => Some(*token),
        None => None,
    }
}

impl SuperAdminGuard {
    /// Lets a request through that carries the key of the server.
    pub fn from_request(
        server_token: Option<&SuperAdminToken>,
        token: Option<&str>,
        host: Option<&str>,
    ) -> (res: Result<SuperAdminGuard, ApiKeyError>)
        ensures
            match res {
                Ok(guard) => guard.index matches Some(index) && super_authorized(
                    reached_token(server_token),
                    text_view(token),
                    text_view(host),
                ) == Ok::<Seq<char>, ApiKeyError>(index@),
                Err(e) => super_authorized(
                    reached_token(server_token),
                    text_view(token),
                    text_view(host),
                ) == Err::<Seq<char>, ApiKeyError>(e),
            },
    {
        let server_token = match server_token {
            Some(server_token) => server_token,
            None => {
                return Err(ApiKeyError::Internal);
            },
        };
        let key = match &server_token.0 {
            Some(key) => key,
            None => {
                return Err(ApiKeyError::Internal);
            },
        };
        let host = match host {
            Some(host) => host,
            None => {
                return Err(ApiKeyError::MissingIndexName);
            },
        };
        let index = index_name(host);
        let token = match token {
            Some(token) => token,
            None => {
                return Err(ApiKeyError::MissingToken);
            },
        };
        if same_text(key.as_str(), token) {
            Ok(SuperAdminGuard { index: Some(index) })
        } else {
            Err(ApiKeyError::Invalid)
        }
    }
}

} // verus!
