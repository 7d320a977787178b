//! Names of file system types, from the `f_type` code that `statfs` reports
//! on Linux.

use vstd::prelude::*;

verus! {

pub const BTRFS_SUPER_MAGIC: i64 = 0x9123683e;
pub const CIFS_SUPER_MAGIC: i64 = 0xff534d42;
pub const FUSE_SUPER_MAGIC: i64 = 0x65735546;
pub const XFS_SUPER_MAGIC: i64 = 0x58465342;
pub const CODA_SUPER_MAGIC: i64 = 0x73757245;
pub const CRAMFS_MAGIC: i64 = 0x28cd3d45;
pub const EFS_SUPER_MAGIC: i64 = 0x00414a53;
pub const EXT4_SUPER_MAGIC: i64 = 0x0000ef53;
pub const HPFS_SUPER_MAGIC: i64 = 0xf995e849;
pub const HUGETLBFS_MAGIC: i64 = 0x958458f6;
pub const ISOFS_SUPER_MAGIC: i64 = 0x00009660;
pub const JFFS2_SUPER_MAGIC: i64 = 0x000072b6;
pub const MINIX_SUPER_MAGIC: i64 = 0x0000137f;
pub const MINIX_SUPER_MAGIC2: i64 = 0x0000138f;
pub const MINIX2_SUPER_MAGIC: i64 = 0x00002468;
pub const MINIX2_SUPER_MAGIC2: i64 = 0x00002478;
pub const NCP_SUPER_MAGIC: i64 = 0x0000564c;
pub const NFS_SUPER_MAGIC: i64 = 0x00006969;
pub const OPENPROM_SUPER_MAGIC: i64 = 0x00009fa1;
pub const PROC_SUPER_MAGIC: i64 = 0x00009fa0;
pub const QNX4_SUPER_MAGIC: i64 = 0x0000002f;
pub const REISERFS_SUPER_MAGIC: i64 = 0x52654973;
pub const SMB_SUPER_MAGIC: i64 = 0x0000517b;
pub const TMPFS_MAGIC: i64 = 0x01021994;
pub const USBDEVICE_SUPER_MAGIC: i64 = 0x00009fa2;

/// The name of the file system with code `f_type`. A FUSE mount is reported
/// as `edenfs` where the probe for an Eden checkout succeeded.
pub open spec fn fs_name(f_type: i64, eden_probe_ok: bool) -> Seq<char> {
    if f_type == BTRFS_SUPER_MAGIC {
        "btrfs"@
    } else if f_type == CIFS_SUPER_MAGIC {
        "cifs"@
    } else if f_type == FUSE_SUPER_MAGIC {
        if eden_probe_ok {
            "edenfs"@
        } else {
            "fuse"@
        }
    } else if f_type == XFS_SUPER_MAGIC {
        "xfs"@
    } else if f_type == CODA_SUPER_MAGIC {
        "coda"@
    } else if f_type == CRAMFS_MAGIC {
        "cramfs"@
    } else if f_type == EFS_SUPER_MAGIC {
        "efs"@
    } else if f_type == EXT4_SUPER_MAGIC {
        "ext4"@
    } else if f_type == HPFS_SUPER_MAGIC {
        "hpfs"@
    } else if f_type == HUGETLBFS_MAGIC {
        "hugetlbfs"@
    } else if f_type == ISOFS_SUPER_MAGIC {
        "isofs"@
    } else if f_type == JFFS2_SUPER_MAGIC {
        "jffs2"@
    } else if f_type == MINIX_SUPER_MAGIC || f_type == MINIX_SUPER_MAGIC2 {
        "minix"@
    } else if f_type == MINIX2_SUPER_MAGIC || f_type == MINIX2_SUPER_MAGIC2 {
        "minix2"@
    } else if f_type == NCP_SUPER_MAGIC {
        "ncp"@
    } else if f_type == NFS_SUPER_MAGIC {
        "nfs"@
    } else if f_type == OPENPROM_SUPER_MAGIC {
        "openprom"@
    } else if f_type == PROC_SUPER_MAGIC {
        "proc"@
    } else if f_type == QNX4_SUPER_MAGIC {
        "qnx4"@
    } else if f_type == REISERFS_SUPER_MAGIC {
        "reiserfs"@
    } else if f_type == SMB_SUPER_MAGIC {
        "smb"@
    } else if f_type == TMPFS_MAGIC {
        "tmpfs"@
    } else if f_type == USBDEVICE_SUPER_MAGIC {
        "usbdevice"@
    } else {
        "unknown"@
    }
}

/// Whether code `f_type` needs the Eden probe to be named.
pub fn needs_eden_probe(f_type: i64) -> (r: bool)
    ensures
        r == (f_type == FUSE_SUPER_MAGIC),
{
    f_type == FUSE_SUPER_MAGIC
}

/// The name of the file system with code `f_type`; `eden_probe_ok` tells
/// apart an Eden checkout from another FUSE mount.
pub fn get_type(f_type: i64, eden_probe_ok: bool) -> (r: &'static str)
    ensures
        r@ == fs_name(f_type, eden_probe_ok),
{
    if f_type == BTRFS_SUPER_MAGIC {
        "btrfs"
    } else if f_type == CIFS_SUPER_MAGIC {
        "cifs"
    } else if f_type == FUSE_SUPER_MAGIC {
        if eden_probe_ok {
            "edenfs"
        } else {
            "fuse"
        }
    } else if f_type == XFS_SUPER_MAGIC {
        "xfs"
    } else if f_type == CODA_SUPER_MAGIC {
        "coda"
    } else if f_type == CRAMFS_MAGIC {
        "cramfs"
    } else if f_type == EFS_SUPER_MAGIC {
        "efs"
    } else if f_type == EXT4_SUPER_MAGIC {
        "ext4"
    } else if f_type == HPFS_SUPER_MAGIC {
        "hpfs"
    } else if f_type == HUGETLBFS_MAGIC {
        "hugetlbfs"
    } else if f_type == ISOFS_SUPER_MAGIC {
        "isofs"
    } else if f_type == JFFS2_SUPER_MAGIC {
        "jffs2"
    } else if f_type == MINIX_SUPER_MAGIC || f_type == MINIX_SUPER_MAGIC2 {
        "minix"
    } else if f_type == MINIX2_SUPER_MAGIC || f_type == MINIX2_SUPER_MAGIC2 {
        "minix2"
    } else if f_type == NCP_SUPER_MAGIC {
        "ncp"
    } else if f_type == NFS_SUPER_MAGIC {
        "nfs"
    } else if f_type == OPENPROM_SUPER_MAGIC {
        "openprom"
    } else if f_type == PROC_SUPER_MAGIC {
        "proc"
    } else if f_type == QNX4_SUPER_MAGIC {
        "qnx4"
    } else if f_type == REISERFS_SUPER_MAGIC {
        "reiserfs"
    } else if f_type == SMB_SUPER_MAGIC {
        "smb"
    } else if f_type == TMPFS_MAGIC {
        "tmpfs"
    } else if f_type == USBDEVICE_SUPER_MAGIC {
        "usbdevice"
    } else {
        "unknown"
    }
}

} // verus!
