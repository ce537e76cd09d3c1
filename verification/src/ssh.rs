//! Command lines for `ssh` and `scp`.

use vstd::prelude::*;
use vstd::string::*;
use crate::oracle::{call1, function1, value1};
use crate::path::{join, joined};
use crate::text::strings;

verus! {

/// How to reach a server.
pub struct SshConfig {
    pub host: String,
    pub user: String,
    pub key_path: String,
}

impl SshConfig {
    /// Logs in as root.
    pub fn new(host: String, key_path: String) -> (r: Self)
        ensures
            r.host == host,
            r.user@ == "root"@,
            r.key_path == key_path,
    {
        SshConfig { host, user: String::from_str("root"), key_path }
    }

    /// User and host.
    pub open spec fn target(&self) -> Seq<char> {
        self.user@.push('@') + self.host@
    }

    /// A file on the server.
    pub open spec fn remote_file(&self, remote: Seq<char>) -> Seq<char> {
        self.target().push(':') + remote
    }
}

/// Options that keep the programs from asking questions.
pub open spec fn ssh_options() -> Seq<Seq<char>> {
    seq![
        "-o"@,
        "StrictHostKeyChecking=no"@,
        "-o"@,
        "UserKnownHostsFile=/dev/null"@,
        "-o"@,
        "ServerAliveInterval=30"@,
        "-o"@,
        "LogLevel=ERROR"@,
    ]
}

/// Options and key.
pub open spec fn base_args(cfg: SshConfig) -> Seq<Seq<char>> {
    ssh_options() + seq!["-i"@, cfg.key_path@]
}

fn add_arg(args: &mut Vec<String>, text: &str)
    ensures
        strings(final(args)@) == strings(old(args)@).push(text@),
{
    let s: String = String::from_str(text);
    args.push(s);
    assert(strings(args@) =~= strings(old(args)@).push(text@));
}

/// Computes [`base_args`].
pub fn ssh_base_args(cfg: &SshConfig) -> (r: Vec<String>)
    ensures
        strings(r@) == base_args(*cfg),
{
    let mut args: Vec<String> = Vec::new();
    assert(strings(args@) =~= Seq::<Seq<char>>::empty());
    add_arg(&mut args, "-o");
    add_arg(&mut args, "StrictHostKeyChecking=no");
    add_arg(&mut args, "-o");
    add_arg(&mut args, "UserKnownHostsFile=/dev/null");
    add_arg(&mut args, "-o");
    add_arg(&mut args, "ServerAliveInterval=30");
    add_arg(&mut args, "-o");
    add_arg(&mut args, "LogLevel=ERROR");
    add_arg(&mut args, "-i");
    add_arg(&mut args, cfg.key_path.as_str());
    assert(strings(args@) =~= base_args(*cfg));
    args
}

/// User and host, as `user@host`.
pub fn ssh_target(cfg: &SshConfig) -> (r: String)
    ensures
        r@ == cfg.target(),
{
    let mut out: String = cfg.user.clone();
    out.push('@');
    out.append(cfg.host.as_str());
    out
}

/// Arguments of `ssh` for running a command.
pub fn ssh_args(cfg: &SshConfig, cmd: &str) -> (r: Vec<String>)
    ensures
        strings(r@) == base_args(*cfg) + seq![cfg.target(), cmd@],
{
    let mut args = ssh_base_args(cfg);
    let target = ssh_target(cfg);
    add_arg(&mut args, target.as_str());
    add_arg(&mut args, cmd);
    assert(strings(args@) =~= base_args(*cfg) + seq![cfg.target(), cmd@]);
    args
}

fn remote_text(cfg: &SshConfig, remote: &str) -> (r: String)
    ensures
        r@ == cfg.remote_file(remote@),
{
    let mut out: String = ssh_target(cfg);
    out.push(':');
    out.append(remote);
    out
}

/// Arguments of `scp` for sending a file.
pub fn scp_upload_args(cfg: &SshConfig, local: &str, remote: &str) -> (r: Vec<String>)
    ensures
        strings(r@) == base_args(*cfg) + seq![local@, cfg.remote_file(remote@)],
{
    let mut args = ssh_base_args(cfg);
    let target = remote_text(cfg, remote);
    add_arg(&mut args, local);
    add_arg(&mut args, target.as_str());
    assert(strings(args@) =~= base_args(*cfg) + seq![local@, cfg.remote_file(remote@)]);
    args
}

/// Arguments of `scp` for fetching a file.
pub fn scp_download_args(cfg: &SshConfig, remote: &str, local: &str) -> (r: Vec<String>)
    ensures
        strings(r@) == base_args(*cfg) + seq![cfg.remote_file(remote@), local@],
{
    let mut args = ssh_base_args(cfg);
    let target = remote_text(cfg, remote);
    add_arg(&mut args, target.as_str());
    add_arg(&mut args, local);
    assert(strings(args@) =~= base_args(*cfg) + seq![cfg.remote_file(remote@), local@]);
    args
}

/// Why no key was found.
#[derive(Debug, Clone, Copy, PartialEq, Eq)]
pub enum KeyError {
    /// The home directory is not known.
    NoHome,
    /// None of the usual keys is there.
    NoKey,
}

/// Names of keys, in the order in which they are looked for.
pub open spec fn key_name(i: int) -> Seq<char> {
    if i == 0 {
        "id_ed25519"@
    } else if i == 1 {
        "id_rsa"@
    } else {
        "id_ecdsa"@
    }
}

/// Path of a key under a home directory.
pub open spec fn key_path(home: Seq<char>, i: int) -> Seq<char> {
    joined(joined(home, ".ssh"@), key_name(i))
}

/// Path of the `i`-th key that is looked for.
pub fn ssh_key_candidate(home: &str, i: u8) -> (r: String)
    requires
        i < 3,
    ensures
        r@ == key_path(home@, i as int),
{
    let dir = join(home, ".ssh");
    let name = if i == 0 {
        "id_ed25519"
    } else if i == 1 {
        "id_rsa"
    } else {
        "id_ecdsa"
    };
    join(dir.as_str(), name)
}

/// Finds the first of the usual keys under the home directory. `present` says
/// whether the candidate with this number is there.
pub fn find_ssh_key<F: Fn(u8) -> bool>(home: Option<&str>, present: &F) -> (r: Result<
    String,
    KeyError,
>)
    requires
        function1(*present),
    ensures
        match home {
            None => r == Err::<String, KeyError>(KeyError::NoHome),
            Some(h) => match r {
                Ok(path) => exists|i: u8|
                    i < 3 && #[trigger] value1(*present, i) && path@ == key_path(h@, i as int)
                        && forall|k: u8| k < i ==> !#[trigger] value1(*present, k),
                Err(e) => e == KeyError::NoKey && forall|k: u8|
                    k < 3 ==> !#[trigger] value1(*present, k),
            },
        },
{
    let dir = match home {
        Some(h) => h,
        None => {
            return Err(KeyError::NoHome);
        },
    };
    let mut i: u8 = 0;
    while i < 3
        invariant
            function1(*present),
            home == Some(dir),
            i <= 3,
            forall|k: u8| k < i ==> !#[trigger] value1(*present, k),
        decreases 3 - i,
    {
        if call1(present, i) {
            let path = ssh_key_candidate(dir, i);
            assert(value1(*present, i));
            return Ok(path);
        }
        i = i + 1;
    }
    Err(KeyError::NoKey)
}

/// Whether to give up waiting for a server.
pub fn wait_over(elapsed_ms: u64, timeout_ms: u64) -> (r: bool)
    ensures
        r == (elapsed_ms > timeout_ms),
{
    elapsed_ms > timeout_ms
}

} // verus!
