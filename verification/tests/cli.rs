use treeportfs::cli::{build_config, decimal_text, listen_address, mount_cmd, mount_hint};
use treeportfs::config::{default_cache_root, Protocol, SECOND};
use treeportfs::fspath::FsPath;

#[test]
fn numbers_are_written_in_decimal() {
    assert_eq!(decimal_text(0), "0");
    assert_eq!(decimal_text(9), "9");
    assert_eq!(decimal_text(10), "10");
    assert_eq!(decimal_text(11111), "11111");
    assert_eq!(decimal_text(65535), "65535");
}

#[test]
fn mounting_differs_between_systems() {
    let linux = mount_cmd(2049, false);
    assert_eq!(linux.program, "mount");
    assert_eq!(
        linux.args,
        vec![
            "-t",
            "nfs",
            "-o",
            "soft,nolocks,vers=3,tcp,rsize=131072,wsize=131072,actimeo=5,port=2049,mountport=2049",
            "localhost:/"
        ]
    );
    let mac = mount_cmd(7, true);
    assert_eq!(mac.program, "/sbin/mount_nfs");
    assert_eq!(
        mac.args,
        vec![
            "-o",
            "soft,nolocks,vers=3,tcp,rsize=131072,wsize=131072,actimeo=5,port=7,mountport=7",
            "localhost:/"
        ]
    );
}

#[test]
fn addresses_and_hints() {
    assert_eq!(listen_address(11111), "127.0.0.1:11111");
    assert_eq!(
        mount_hint(5),
        "mount_nfs -o nolocks,vers=3,tcp,port=5,mountport=5 localhost:/ <dir>"
    );
}

#[test]
fn options_make_the_configuration() {
    let tmp = FsPath::from_text("/tmp");
    let c = build_config("ghe.example", true, Some(FsPath::from_text("/c")), 7, &tmp);
    assert_eq!(c.host, "ghe.example");
    assert_eq!(c.protocol, Protocol::Ssh);
    assert_eq!(c.cache_root.as_bytes(), b"/c");
    assert_eq!(c.branch_ttl, 7 * SECOND);
    assert_eq!(c.negative_ttl, 60 * SECOND);
    let d = build_config("github.com", false, None, 30, &tmp);
    assert_eq!(d.protocol, Protocol::Https);
    assert_eq!(d.cache_root, default_cache_root(&tmp));
}
