use vstd::prelude::*;

verus! {

/// The port that the server listens on where none is given.
pub const DEFAULT_PORT: u16 = 8000;

/// What the command line gives.
#[derive(Clone, Debug)]
pub struct ArgsOpt {
    /// The destination where the database must be created.
    pub database_path: Option<String>,
    /// The port to bind the server to.
    pub port: Option<u16>,
    pub token: Option<String>,
}

/// What the environment gives.
#[derive(Clone)]
pub struct EnvOpt {
    pub database_path: Option<String>,
    pub port: Option<u16>,
    pub token: Option<String>,
}

/// The options that the server starts with.
pub struct Opt {
    pub database_path: String,
    pub port: u16,
    pub token: Option<String>,
}

/// The first of two values that is given.
pub open spec fn first_of<T>(a: Option<T>, b: Option<T>) -> Option<T> {
    if a is Some {
        a
    } else {
        b
    }
}

fn either<T>(a: Option<T>, b: Option<T>) -> (r: Option<T>)
    ensures
        r == first_of(a, b),
{
    match a {
        Some(value) => Some(value),
        None => b,
    }
}

impl Opt {
    /// The options of the server: for each option, what the command line
    /// gives, or else what the environment gives; the default port where
    /// neither gives a port. A database path must be given by one of them.
    pub fn new(args: ArgsOpt, env: EnvOpt) -> (opt: Opt)
        requires
            args.database_path is Some || env.database_path is Some,
        ensures
            Some(opt.database_path) == first_of(args.database_path, env.database_path),
            opt.port == match first_of(args.port, env.port) {
                Some(port) => port,
                None => DEFAULT_PORT,
            },
            opt.token == first_of(args.token, env.token),
    {
        let database_path = match either(args.database_path, env.database_path) {
            Some(path) => path,
            None => {
                proof {
                    assert(false);
                }
                String::new()
            },
        };
        let port = match either(args.port, env.port) {
            Some(port) => port,
            None => DEFAULT_PORT,
        };
        Opt { database_path, port, token: either(args.token, env.token) }
    }

    /// The options of the server, where a database path is given.
    pub fn try_new(args: ArgsOpt, env: EnvOpt) -> (opt: Option<Opt>)
        ensures
            opt is Some == (args.database_path is Some || env.database_path is Some),
            opt matches Some(o) ==> Some(o.database_path) == first_of(
                args.database_path,
                env.database_path,
            ) && o.port == match first_of(args.port, env.port) {
                Some(port) => port,
                None => DEFAULT_PORT,
            } && o.token == first_of(args.token, env.token),
    {
        if args.database_path.is_some() || env.database_path.is_some() {
            Some(Opt::new(args, env))
        } else {
            None
        }
    }
}

} // verus!
