//! Numbers of the EROFS format.

use vstd::prelude::*;

verus! {

pub const EROFS_SUPER_OFFSET: u64 = 1024;

pub const EROFS_SUPER_MAGIC_V1: u32 = 0xe0f5_e1e2;

pub const EROFS_FEATURE_COMPAT_SB_CHKSUM: u32 = 0x1;

pub const EROFS_FEATURE_COMPAT_MTIME: u32 = 0x2;

pub const EROFS_FEATURE_INCOMPAT_LZ4_0PADDING: u32 = 0x1;

pub const EROFS_FEATURE_INCOMPAT_BIG_PCLUSTER: u32 = 0x2;

pub const EROFS_SLOTSIZE: u64 = 32;

pub const EROFS_NAME_LEN: usize = 255;

pub const EROFS_INODE_FLAT_PLAIN: u8 = 0;

pub const EROFS_INODE_COMPRESSED_FULL: u8 = 1;

pub const EROFS_INODE_FLAT_INLINE: u8 = 2;

pub const EROFS_INODE_COMPRESSED_COMPACT: u8 = 3;

pub const EROFS_FT_UNKNOWN: u8 = 0;

pub const EROFS_FT_REG_FILE: u8 = 1;

pub const EROFS_FT_DIR: u8 = 2;

pub const EROFS_FT_CHRDEV: u8 = 3;

pub const EROFS_FT_BLKDEV: u8 = 4;

pub const EROFS_FT_FIFO: u8 = 5;

pub const EROFS_FT_SOCK: u8 = 6;

pub const EROFS_FT_SYMLINK: u8 = 7;

pub const S_IFREG: u32 = 0x8000;

pub const S_IFDIR: u32 = 0x4000;

pub const S_IFLNK: u32 = 0xa000;

pub const S_IFCHR: u32 = 0x2000;

pub const S_IFBLK: u32 = 0x6000;

pub const S_IFIFO: u32 = 0x1000;

pub const S_IFSOCK: u32 = 0xc000;

pub const EROFS_XATTR_INDEX_USER: u8 = 1;

pub const EROFS_XATTR_INDEX_POSIX_ACL_ACCESS: u8 = 2;

pub const EROFS_XATTR_INDEX_POSIX_ACL_DEFAULT: u8 = 3;

pub const EROFS_XATTR_INDEX_TRUSTED: u8 = 4;

pub const EROFS_XATTR_INDEX_SECURITY: u8 = 6;

/// The bits of a mode that say what kind of file it is.
pub open spec fn format_of(mode: u32) -> u32 {
    (mode / 0x1000 % 0x10 * 0x1000) as u32
}

pub open spec fn is_dir(mode: u32) -> bool {
    format_of(mode) == S_IFDIR
}

pub open spec fn is_reg(mode: u32) -> bool {
    format_of(mode) == S_IFREG
}

pub open spec fn is_lnk(mode: u32) -> bool {
    format_of(mode) == S_IFLNK
}

pub fn file_format(mode: u32) -> (format: u32)
    ensures
        format == format_of(mode),
{
    mode / 0x1000 % 0x10 * 0x1000
}

pub fn s_isdir(mode: u32) -> (is: bool)
    ensures
        is == is_dir(mode),
{
    file_format(mode) == S_IFDIR
}

pub fn s_isreg(mode: u32) -> (is: bool)
    ensures
        is == is_reg(mode),
{
    file_format(mode) == S_IFREG
}

pub fn s_islnk(mode: u32) -> (is: bool)
    ensures
        is == is_lnk(mode),
{
    file_format(mode) == S_IFLNK
}

/// The file type that a directory lists for a mode.
pub open spec fn ftype_of(mode: u32) -> u8 {
    let format = format_of(mode);
    if format == S_IFREG {
        EROFS_FT_REG_FILE
    } else if format == S_IFDIR {
        EROFS_FT_DIR
    } else if format == S_IFCHR {
        EROFS_FT_CHRDEV
    } else if format == S_IFBLK {
        EROFS_FT_BLKDEV
    } else if format == S_IFIFO {
        EROFS_FT_FIFO
    } else if format == S_IFSOCK {
        EROFS_FT_SOCK
    } else if format == S_IFLNK {
        EROFS_FT_SYMLINK
    } else {
        EROFS_FT_UNKNOWN
    }
}

pub fn erofs_mode_to_ftype(mode: u32) -> (ftype: u8)
    ensures
        ftype == ftype_of(mode),
{
    let format: u32 = file_format(mode);
    if format == S_IFREG {
        EROFS_FT_REG_FILE
    } else if format == S_IFDIR {
        EROFS_FT_DIR
    } else if format == S_IFCHR {
        EROFS_FT_CHRDEV
    } else if format == S_IFBLK {
        EROFS_FT_BLKDEV
    } else if format == S_IFIFO {
        EROFS_FT_FIFO
    } else if format == S_IFSOCK {
        EROFS_FT_SOCK
    } else if format == S_IFLNK {
        EROFS_FT_SYMLINK
    } else {
        EROFS_FT_UNKNOWN
    }
}

/// True for the layouts whose data is compressed.
pub open spec fn is_compressed(layout: u8) -> bool {
    layout == EROFS_INODE_COMPRESSED_FULL || layout == EROFS_INODE_COMPRESSED_COMPACT
}

pub fn erofs_inode_is_data_compressed(layout: u8) -> (is: bool)
    ensures
        is == is_compressed(layout),
{
    layout == EROFS_INODE_COMPRESSED_FULL || layout == EROFS_INODE_COMPRESSED_COMPACT
}

/// The least multiple of `unit` from `value` on.
pub open spec fn rounded(value: int, unit: int) -> int {
    (value + unit - 1) / unit * unit
}

/// Rounding up gives a multiple that is less than a unit away.
pub proof fn lemma_rounded(value: int, unit: int)
    requires
        0 <= value,
        0 < unit,
    ensures
        value <= rounded(value, unit) < value + unit,
        rounded(value, unit) % unit == 0,
        value % unit == 0 ==> rounded(value, unit) == value,
{
    let n = value + unit - 1;
    vstd::arithmetic::div_mod::lemma_fundamental_div_mod(n, unit);
    vstd::arithmetic::div_mod::lemma_mod_bound(n, unit);
    vstd::arithmetic::mul::lemma_mul_is_commutative(n / unit, unit);
    vstd::arithmetic::div_mod::lemma_mod_multiples_basic(n / unit, unit);
    if value % unit == 0 {
        vstd::arithmetic::div_mod::lemma_fundamental_div_mod(value, unit);
        let q = value / unit;
        assert(n == unit * q + (unit - 1));
        vstd::arithmetic::div_mod::lemma_fundamental_div_mod_converse(n, unit, q, unit - 1);
    }
}

pub fn round_up(value: u64, unit: u64) -> (up: u64)
    requires
        0 < unit,
        value + unit <= u64::MAX,
    ensures
        up == rounded(value as int, unit as int),
        value <= up < value + unit,
        up % unit == 0,
{
    proof {
        lemma_rounded(value as int, unit as int);
    }
    (value + unit - 1) / unit * unit
}

} // verus!
