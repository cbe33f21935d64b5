//! What the command line asks for: the configuration, and how to mount.

use crate::config::{default_cache_root, Config, DEFAULT_NEGATIVE_TTL, Protocol, SECOND};
use crate::fspath::{path_join, FsPath};
use crate::text::{strings, utf8};
use vstd::prelude::*;
use vstd::string::*;

verus! {

/// The configuration that the options ask for. `temp_dir` is where the cache
/// goes when neither an option nor the user has a place for it.
pub fn build_config(
    host: &str,
    ssh: bool,
    cache: Option<FsPath>,
    branch_ttl: u64,
    temp_dir: &FsPath,
) -> (r: Config)
    ensures
        r.host@ == host@,
        r.protocol == if ssh {
            Protocol::Ssh
        } else {
            Protocol::Https
        },
        match cache {
            Some(dir) => r.cache_root@ == dir@,
            None => exists|dir: Seq<u8>| r.cache_root@ == #[trigger] path_join(
                dir,
                utf8("treeportfs"@),
            ),
        },
        r.branch_ttl == branch_ttl * SECOND,
        r.negative_ttl == DEFAULT_NEGATIVE_TTL,
{
    let mut cfg = Config::new(host, temp_dir);
    if ssh {
        cfg.protocol = Protocol::Ssh;
    }
    match cache {
        Some(dir) => {
            cfg.cache_root = dir;
        },
        None => {
            cfg.cache_root = default_cache_root(temp_dir);
        },
    }
    cfg.branch_ttl = (branch_ttl as u128) * SECOND;
    cfg
}

/// The character of a digit.
pub open spec fn digit(n: nat) -> char {
    (48 + n) as char
}

/// A number in decimal.
pub open spec fn decimal(n: nat) -> Seq<char>
    decreases n,
{
    if n < 10 {
        seq![digit(n)]
    } else {
        decimal(n / 10).push(digit(n % 10))
    }
}

fn digit_text(n: u16) -> (r: &'static str)
    requires
        n < 10,
    ensures
        r@ == seq![digit(n as nat)],
{
    proof {
        reveal_strlit("0");
        reveal_strlit("1");
        reveal_strlit("2");
        reveal_strlit("3");
        reveal_strlit("4");
        reveal_strlit("5");
        reveal_strlit("6");
        reveal_strlit("7");
        reveal_strlit("8");
        reveal_strlit("9");
        assert("0"@ =~= seq!['0']);
        assert("1"@ =~= seq!['1']);
        assert("2"@ =~= seq!['2']);
        assert("3"@ =~= seq!['3']);
        assert("4"@ =~= seq!['4']);
        assert("5"@ =~= seq!['5']);
        assert("6"@ =~= seq!['6']);
        assert("7"@ =~= seq!['7']);
        assert("8"@ =~= seq!['8']);
        assert("9"@ =~= seq!['9']);
    }
    match n {
        0 => "0",
        1 => "1",
        2 => "2",
        3 => "3",
        4 => "4",
        5 => "5",
        6 => "6",
        7 => "7",
        8 => "8",
        _ => "9",
    }
}

/// A number in decimal.
pub fn decimal_text(n: u16) -> (r: String)
    ensures
        r@ == decimal(n as nat),
    decreases n,
{
    if n < 10 {
        digit_text(n).to_owned()
    } else {
        let mut text = decimal_text(n / 10);
        let ghost before = text@;
        let last = digit_text(n % 10);
        text.append(last);
        assert(text@ =~= before.push(digit((n % 10) as nat)));
        text
    }
}

/// The options of a mount on a port. `soft` keeps a server that was killed
/// from wedging the mount; on one machine the usual concerns do not apply.
pub open spec fn mount_options(port: nat) -> Seq<char> {
    "soft,nolocks,vers=3,tcp,rsize=131072,wsize=131072,actimeo=5,port="@ + decimal(port)
        + ",mountport="@ + decimal(port)
}

/// The program that mounts, and its arguments up to the mount point.
#[derive(Debug)]
pub struct MountCommand {
    pub program: String,
    pub args: Vec<String>,
}

/// How to mount the server on a port of this machine; the mount point is the
/// last argument and still to be added.
pub fn mount_cmd(port: u16, macos: bool) -> (r: MountCommand)
    ensures
        r.program@ == if macos {
            "/sbin/mount_nfs"@
        } else {
            "mount"@
        },
        strings(r.args@) == if macos {
            seq!["-o"@, mount_options(port as nat), "localhost:/"@]
        } else {
            seq!["-t"@, "nfs"@, "-o"@, mount_options(port as nat), "localhost:/"@]
        },
{
    let number = decimal_text(port);
    let mut options =
        "soft,nolocks,vers=3,tcp,rsize=131072,wsize=131072,actimeo=5,port=".to_owned();
    options.append(number.as_str());
    options.append(",mountport=");
    options.append(number.as_str());
    let mut args: Vec<String> = Vec::new();
    if macos {
        args.push("-o".to_owned());
        args.push(options);
        args.push("localhost:/".to_owned());
        assert(strings(args@) =~= seq!["-o"@, mount_options(port as nat), "localhost:/"@]);
        MountCommand { program: "/sbin/mount_nfs".to_owned(), args }
    } else {
        args.push("-t".to_owned());
        args.push("nfs".to_owned());
        args.push("-o".to_owned());
        args.push(options);
        args.push("localhost:/".to_owned());
        assert(strings(args@) =~= seq![
            "-t"@,
            "nfs"@,
            "-o"@,
            mount_options(port as nat),
            "localhost:/"@,
        ]);
        MountCommand { program: "mount".to_owned(), args }
    }
}

/// The address that the server listens on.
pub fn listen_address(port: u16) -> (r: String)
    ensures
        r@ == "127.0.0.1:"@ + decimal(port as nat),
{
    let mut address = "127.0.0.1:".to_owned();
    address.append(decimal_text(port).as_str());
    address
}

/// What to type to mount by hand.
pub fn mount_hint(port: u16) -> (r: String)
    ensures
        r@ == "mount_nfs -o nolocks,vers=3,tcp,port="@ + decimal(port as nat) + ",mountport="@
            + decimal(port as nat) + " localhost:/ <dir>"@,
{
    let number = decimal_text(port);
    let mut hint = "mount_nfs -o nolocks,vers=3,tcp,port=".to_owned();
    hint.append(number.as_str());
    hint.append(",mountport=");
    hint.append(number.as_str());
    hint.append(" localhost:/ <dir>");
    hint
}

} // verus!
