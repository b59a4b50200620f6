//! Command-line arguments as plain values, and their resolution.
//!
//! Parsing the command line itself belongs to the binary around the
//! library; resolution — deciding whether the optional arguments amount
//! to a usable connection — is decided here.

use vstd::prelude::*;

verus! {

/// Arguments for the default connect command.
#[derive(Debug, Clone)]
pub struct ConnectArgs {
    pub host: Option<String>,
    pub port: u16,
    pub username: Option<String>,
    pub private_key: Option<String>,
    pub openssh_certificate: Option<String>,
    pub path: Option<String>,
}

/// All subcommands.
#[derive(Debug)]
pub enum Commands {
    Connect(ConnectArgs),
    InstallManPages,
    GenerateCompletion { shell: String },
}

/// The whole command line.
#[derive(Debug)]
pub struct Cli {
    pub command: Option<Commands>,
    pub connect: ConnectArgs,
}

/// Connection arguments with everything the connection needs present.
#[derive(Debug, Clone)]
pub struct ResolvedConnectArgs {
    pub host: String,
    pub port: u16,
    pub username: Option<String>,
    pub private_key: String,
    pub openssh_certificate: Option<String>,
    pub path: String,
}

/// What resolution rejects, in the order the arguments are examined.
#[derive(Debug, Clone, Copy, PartialEq, Eq, Structural)]
pub enum ResolveError {
    MissingHost,
    MissingPath,
    MissingPrivateKey,
}

impl ConnectArgs {
    /// Check that a host, a path and a private key were all given; the
    /// first one missing, in that order, names the error.
    pub fn resolve(&self) -> (r: Result<ResolvedConnectArgs, ResolveError>)
        ensures
            match r {
                Ok(a) => self.host is Some && self.path is Some && self.private_key is Some
                    && a.host@ == self.host.unwrap()@ && a.port == self.port && match (
                    a.username,
                    self.username,
                ) {
                    (Some(x), Some(y)) => x@ == y@,
                    (None, None) => true,
                    _ => false,
                } && a.private_key@ == self.private_key.unwrap()@ && match (
                    a.openssh_certificate,
                    self.openssh_certificate,
                ) {
                    (Some(x), Some(y)) => x@ == y@,
                    (None, None) => true,
                    _ => false,
                } && a.path@ == self.path.unwrap()@,
                Err(e) => (e == ResolveError::MissingHost && self.host is None) || (e
                    == ResolveError::MissingPath && self.host is Some && self.path is None) || (e
                    == ResolveError::MissingPrivateKey && self.host is Some && self.path is Some
                    && self.private_key is None),
            },
    {
        let host = match &self.host {
            Some(h) => h.clone(),
            None => { return Err(ResolveError::MissingHost); },
        };
        let path = match &self.path {
            Some(p) => p.clone(),
            None => { return Err(ResolveError::MissingPath); },
        };
        let private_key = match &self.private_key {
            Some(k) => k.clone(),
            None => { return Err(ResolveError::MissingPrivateKey); },
        };
        let username = match &self.username {
            Some(u) => Some(u.clone()),
            None => None,
        };
        let openssh_certificate = match &self.openssh_certificate {
            Some(c) => Some(c.clone()),
            None => None,
        };
        Ok(
            ResolvedConnectArgs {
                host,
                port: self.port,
                username,
                private_key,
                openssh_certificate,
                path,
            },
        )
    }
}

/// The username an ssh command logs in with: the given one, or root.
pub open spec fn spec_login_user(username: Option<String>) -> Seq<char> {
    match username {
        Some(u) => u@,
        None => "root"@,
    }
}

impl ResolvedConnectArgs {
    /// The arguments of the ssh command these settings stand for, in
    /// order: the login flag when a username was given, the port, the
    /// identity file, and the user-at-host target.
    pub fn ssh_command_args(&self) -> (r: Vec<String>)
        ensures
            r@.len() == (if self.username is Some {
                7int
            } else {
                5int
            }),
            self.username matches Some(u) ==> r@[0]@ == "-l"@ && r@[1]@ == u@,
            ({
                let b: int = if self.username is Some {
                    2
                } else {
                    0
                };
                r@[b]@ == "-p"@ && r@[b + 1]@ == crate::text::dec_str(self.port as nat) && r@[b
                    + 2]@ == "-i"@ && r@[b + 3]@ == self.private_key@ && r@[b + 4]@
                    == spec_login_user(self.username) + "@"@ + self.host@
            }),
    {
        let mut args: Vec<String> = Vec::new();
        if let Some(u) = &self.username {
            args.push("-l".to_owned());
            args.push(u.clone());
        }
        args.push("-p".to_owned());
        args.push(crate::text::u16_to_string(self.port));
        args.push("-i".to_owned());
        args.push(self.private_key.clone());
        let user = match &self.username {
            Some(u) => u.clone(),
            None => "root".to_owned(),
        };
        args.push(user.concat("@").concat(self.host.as_str()));
        args
    }

    /// The same command, told to change into the given remote directory
    /// and start a login shell there.
    pub fn ssh_args_with_path(&self, path: &str) -> (r: Vec<String>)
        ensures
            r@.len() == (if self.username is Some {
                9int
            } else {
                7int
            }),
            r@[r@.len() - 2]@ == "-t"@,
            r@[r@.len() - 1]@ == "cd "@ + path@ + "; bash --login"@,
    {
        let mut args = self.ssh_command_args();
        args.push("-t".to_owned());
        args.push("cd ".to_owned().concat(path).concat("; bash --login"));
        args
    }
}

} // verus!
