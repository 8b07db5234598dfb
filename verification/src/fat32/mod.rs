//! FAT32 file system driver over any [`BlockDevice`](crate::block::BlockDevice).
//!
//! A mounted volume is a [`FatVolume`] value that owns its device; every
//! operation takes the volume explicitly. Cluster chains are followed for at
//! most as many links as the FAT has entries, so a corrupt, cyclic chain
//! ends in an error instead of an endless walk.
pub mod volume;
pub mod names;
pub mod lookup;
pub mod file;
pub mod io;
pub mod dir;
pub mod manage;
pub mod runs;

pub use volume::{FError, FatVolume, FResult, f_mount, f_unmount};
pub use names::{FileInfo};
pub use file::{File, f_open, f_close, f_tell, f_eof, f_size, f_error, f_stat, f_read, f_write, f_lseek, f_truncate, f_sync, f_expand};
pub use io::{FmtArg, f_gets, f_putc, f_puts, f_printf};
pub use dir::{Dir, f_opendir, f_closedir, f_readdir, f_findfirst, f_findnext, f_getfree, f_getcwd, f_chdir};
pub use manage::{f_mkdir, f_unlink, f_rename, f_chmod, f_utime, f_getlabel, f_setlabel};
